use salvage::safety::{SafetyBlock, SafetyWarning};
use salvage::text::{block_message, join, warning_message};

#[test]
fn every_block_produces_a_non_empty_explanation() {
    let blocks = [
        SafetyBlock::HostsOperatingSystem { volumes: vec!["C:".into()] },
        SafetyBlock::InternalBus { bus: "NVMe".into() },
        SafetyBlock::ExceedsAddressableCapacity {
            capacity_bytes: 4_000_000_000_000,
            limit_bytes: 2_199_023_255_552,
        },
        SafetyBlock::ZeroCapacity,
    ];
    for b in &blocks {
        assert!(!block_message(b).trim().is_empty(), "{b:?} has no message");
    }
}

#[test]
fn the_system_disk_message_names_the_volume() {
    let m = block_message(&SafetyBlock::HostsOperatingSystem { volumes: vec!["C:".into()] });
    assert!(m.contains("C:"));
}

#[test]
fn every_warning_produces_a_non_empty_explanation() {
    let warnings = [
        SafetyWarning::NotDeclaredRemovable,
        SafetyWarning::HasMountedVolumes { volumes: vec!["E:".into()] },
        SafetyWarning::UnusuallyLarge { capacity_bytes: 2_000_000_000_000 },
        SafetyWarning::UnknownBus,
    ];
    for w in &warnings {
        assert!(!warning_message(w).trim().is_empty(), "{w:?} has no message");
    }
}

#[test]
fn messages_carry_their_figures() {
    assert_eq!(
        block_message(&SafetyBlock::HostsOperatingSystem { volumes: vec![] }),
        "This disk holds the operating system (volumes: system). Writing to it would leave the machine unable to boot."
    );
    assert_eq!(
        block_message(&SafetyBlock::ExceedsAddressableCapacity {
            capacity_bytes: 4_000_000_000_000,
            limit_bytes: 2_199_023_255_552,
        }),
        "Capacity of 4.00 TB exceeds the 2.20 TB limit. No memory card is that large."
    );
    assert_eq!(
        warning_message(&SafetyWarning::HasMountedVolumes { volumes: vec!["E:".into(), "F:".into()] }),
        "Mounted volumes present (E:, F:). All contents will be lost."
    );
    assert_eq!(join(&vec!["a".to_string(), "b".into(), "c".into()], "-"), "a-b-c");
    assert_eq!(join(&Vec::new(), "-"), "");
}
