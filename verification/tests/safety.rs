use salvage::device::{BusType, DeviceInfo, VolumeInfo};
use salvage::geometry::DeviceGeometry;
use salvage::safety::{
    evaluate, ConfirmationError, DestructiveConsent, SafetyBlock, SafetyPolicy, SafetyVerdict,
    SafetyWarning,
};


fn card() -> DeviceInfo {
    DeviceInfo {
        path: "\\\\.\\PhysicalDrive3".into(),
        index: 3,
        model: "SDXC Card".into(),
        vendor: "Generic".into(),
        serial: Some("ABC123".into()),
        bus_type: BusType::Sd,
        removable_media: true,
        geometry: DeviceGeometry::new(512, 125_000_000).unwrap(),
        volumes: vec![],
    }
}

fn system_volume() -> VolumeInfo {
    VolumeInfo {
        drive_letter: Some('C'),
        label: Some("Windows".into()),
        filesystem: Some("NTFS".into()),
        is_system_volume: true,
        is_boot_volume: true,
    }
}

#[test]
fn a_plain_sd_card_is_allowed() {
    assert_eq!(evaluate(&card(), &SafetyPolicy::default()), SafetyVerdict::Allowed);
}

/// The single most important guard in the program.
#[test]
fn the_system_disk_is_always_blocked() {
    let mut d = card();
    d.volumes.push(system_volume());
    let v = evaluate(&d, &SafetyPolicy::default());
    assert!(!v.permits_writing());
    match v {
        SafetyVerdict::Blocked { reasons } => {
            assert!(reasons
                .iter()
                .any(|r| matches!(r, SafetyBlock::HostsOperatingSystem { .. })));
        }
        other => panic!("expected a block, got {other:?}"),
    }
}

#[test]
fn an_nvme_ssd_is_blocked_even_with_no_volumes() {
    let mut d = card();
    d.bus_type = BusType::Nvme;
    d.removable_media = false;
    d.volumes.clear();
    assert!(!evaluate(&d, &SafetyPolicy::default()).permits_writing());
}

#[test]
fn sata_and_raid_are_blocked() {
    for bus in [BusType::Sata, BusType::Raid] {
        let mut d = card();
        d.bus_type = bus;
        assert!(
            !evaluate(&d, &SafetyPolicy::default()).permits_writing(),
            "{bus:?} slipped through"
        );
    }
}

/// The case a naive guard gets wrong: a USB adapter reporting fixed media.
#[test]
fn a_usb_card_reader_reporting_fixed_media_is_allowed_with_a_warning() {
    let mut d = card();
    d.bus_type = BusType::Usb;
    d.removable_media = false;
    match evaluate(&d, &SafetyPolicy::default()) {
        SafetyVerdict::NeedsConfirmation { warnings } => {
            assert!(warnings.contains(&SafetyWarning::NotDeclaredRemovable));
        }
        other => panic!("the USB adapter should pass with a warning, got {other:?}"),
    }
}

#[test]
fn a_strict_policy_can_refuse_non_removable_media() {
    let mut d = card();
    d.bus_type = BusType::Usb;
    d.removable_media = false;
    let strict = SafetyPolicy { allow_non_removable: false, ..Default::default() };
    assert!(!evaluate(&d, &strict).permits_writing());
}

#[test]
fn mounted_volumes_produce_a_warning_not_a_block() {
    let mut d = card();
    d.volumes.push(VolumeInfo {
        drive_letter: Some('E'),
        label: Some("PHOTOS".into()),
        filesystem: Some("exFAT".into()),
        is_system_volume: false,
        is_boot_volume: false,
    });
    match evaluate(&d, &SafetyPolicy::default()) {
        SafetyVerdict::NeedsConfirmation { warnings } => {
            let named = warnings.iter().any(|w| matches!(
                w,
                SafetyWarning::HasMountedVolumes { volumes } if volumes.iter().any(|v| v.starts_with("E:"))
            ));
            assert!(named, "the warning should name the volume");
        }
        other => panic!("expected a warning, got {other:?}"),
    }
}

#[test]
fn zero_and_oversized_capacity_are_blocked() {
    let mut d = card();
    d.geometry = DeviceGeometry::new(4096, u64::MAX / 4096).unwrap();
    assert!(!evaluate(&d, &SafetyPolicy::default()).permits_writing());
}

#[test]
fn a_block_always_beats_a_warning() {
    let mut d = card();
    d.bus_type = BusType::Nvme; // block
    d.removable_media = false; // warning
    d.volumes.push(system_volume()); // block
    match evaluate(&d, &SafetyPolicy::default()) {
        SafetyVerdict::Blocked { reasons } => assert!(reasons.len() >= 2),
        other => panic!("expected a block, got {other:?}"),
    }
}

#[test]
fn consent_requires_the_exact_device_name() {
    let d = card();
    let p = SafetyPolicy::default();
    assert!(DestructiveConsent::issue(&d, "Generic SDXC Card", &p).is_ok());
    // Whitespace and case do not matter; the name does.
    assert!(DestructiveConsent::issue(&d, "  generic sdxc card  ", &p).is_ok());
    assert!(matches!(
        DestructiveConsent::issue(&d, "yes", &p),
        Err(ConfirmationError::NameMismatch { .. })
    ));
    assert!(matches!(
        DestructiveConsent::issue(&d, "", &p),
        Err(ConfirmationError::NameMismatch { .. })
    ));
}

#[test]
fn consent_cannot_be_issued_for_a_blocked_device() {
    let mut d = card();
    d.volumes.push(system_volume());
    assert_eq!(
        DestructiveConsent::issue(&d, &d.display_name(), &SafetyPolicy::default()),
        Err(ConfirmationError::DeviceBlocked)
    );
}

/// The user approves, swaps the card, then applies. The operation must
/// abort rather than write to the new card.
#[test]
fn consent_does_not_transfer_to_a_swapped_card() {
    let original = card();
    let consent = DestructiveConsent::issue(
        &original,
        &original.display_name(),
        &SafetyPolicy::default(),
    )
    .unwrap();
    assert!(consent.matches(&original));

    let mut swapped = card();
    swapped.serial = Some("OTHER".into());
    assert!(!consent.matches(&swapped), "consent leaked to another card");

    let mut resized = card();
    resized.geometry = DeviceGeometry::new(512, 60_000_000).unwrap();
    assert!(!consent.matches(&resized));
}

#[test]
fn consent_does_not_transfer_to_another_slot() {
    let original = card();
    let consent = DestructiveConsent::issue(
        &original,
        &original.display_name(),
        &SafetyPolicy::default(),
    )
    .unwrap();
    let mut moved = card();
    moved.path = "\\\\.\\PhysicalDrive7".into();
    assert!(!consent.matches(&moved));
}

/// Sweep over combinations: no system disk may ever escape.
#[test]
fn no_combination_ever_unblocks_a_system_disk() {
    for bus in [BusType::Sd, BusType::Mmc, BusType::Usb, BusType::Unknown] {
        for removable in [true, false] {
            let mut d = card();
            d.bus_type = bus;
            d.removable_media = removable;
            d.volumes.push(system_volume());
            assert!(
                !evaluate(&d, &SafetyPolicy::default()).permits_writing(),
                "bus={bus:?} removable={removable} unblocked the system disk"
            );
            assert!(DestructiveConsent::issue(&d, &d.display_name(), &SafetyPolicy::default())
                .is_err());
        }
    }
}

#[test]
fn an_unknown_bus_and_a_huge_capacity_raise_warnings() {
    let mut d = card();
    d.bus_type = BusType::Unknown;
    d.geometry = DeviceGeometry::new(512, 3_000_000_000).unwrap();
    match evaluate(&d, &SafetyPolicy::default()) {
        SafetyVerdict::NeedsConfirmation { warnings } => {
            assert!(warnings.contains(&SafetyWarning::UnknownBus));
            assert!(warnings.contains(&SafetyWarning::UnusuallyLarge {
                capacity_bytes: 3_000_000_000 * 512
            }));
        }
        other => panic!("expected warnings, got {other:?}"),
    }
}

#[test]
fn the_internal_bus_block_names_the_bus() {
    let mut d = card();
    d.bus_type = BusType::Sata;
    match evaluate(&d, &SafetyPolicy::default()) {
        SafetyVerdict::Blocked { reasons } => {
            assert!(reasons.contains(&SafetyBlock::InternalBus { bus: "SATA".into() }));
        }
        other => panic!("expected a block, got {other:?}"),
    }
}

#[test]
fn issued_consent_carries_the_device_fingerprint() {
    let d = card();
    let consent = DestructiveConsent::issue(&d, "Generic SDXC Card", &SafetyPolicy::default()).unwrap();
    assert_eq!(consent.fingerprint(), d.fingerprint());
    assert!(!evaluate(&d, &SafetyPolicy::default()).has_warnings());
}
