use salvage::device::{BusType, DeviceInfo, VolumeInfo};
use salvage::geometry::DeviceGeometry;

fn info() -> DeviceInfo {
    DeviceInfo {
        path: "\\\\.\\PhysicalDrive3".into(),
        index: 3,
        model: "SDXC Card".into(),
        vendor: "Generic".into(),
        serial: Some("ABC123".into()),
        bus_type: BusType::Sd,
        removable_media: true,
        geometry: DeviceGeometry::new(512, 125_000_000).unwrap(),
        volumes: vec![],
    }
}

#[test]
fn usb_counts_as_a_possible_card_carrier() {
    assert!(BusType::Usb.can_carry_removable_card());
    assert!(BusType::Sd.can_carry_removable_card());
    assert!(!BusType::Nvme.can_carry_removable_card());
}

#[test]
fn internal_buses_are_recognised() {
    assert!(BusType::Nvme.is_internal_only());
    assert!(BusType::Sata.is_internal_only());
    assert!(!BusType::Usb.is_internal_only());
}

#[test]
fn display_name_avoids_repeating_the_vendor() {
    let mut d = info();
    d.vendor = "Generic".into();
    d.model = "Generic SDXC".into();
    assert_eq!(d.display_name(), "Generic SDXC");

    d.model = "SDXC Card".into();
    assert_eq!(d.display_name(), "Generic SDXC Card");
}

#[test]
fn fingerprint_changes_when_the_media_changes() {
    let a = info();
    let mut b = info();
    b.serial = Some("XYZ789".into());
    assert_ne!(a.fingerprint(), b.fingerprint());

    let mut c = info();
    c.geometry = DeviceGeometry::new(512, 62_000_000).unwrap();
    assert_ne!(a.fingerprint(), c.fingerprint());
}

#[test]
fn fingerprint_ignores_the_recyclable_physical_index() {
    let a = info();
    let mut b = info();
    b.index = 9;
    b.path = "\\\\.\\PhysicalDrive9".into();
    assert_eq!(a.fingerprint(), b.fingerprint());
}

#[test]
fn hosting_a_system_or_boot_volume_is_detected() {
    let mut d = info();
    assert!(!d.hosts_system());
    d.volumes.push(VolumeInfo {
        drive_letter: Some('C'),
        label: None,
        filesystem: Some("NTFS".into()),
        is_system_volume: true,
        is_boot_volume: false,
    });
    assert!(d.hosts_system());
}

#[test]
fn a_blank_vendor_leaves_the_trimmed_model_alone() {
    let mut d = info();
    d.vendor = "   ".into();
    d.model = "  Card Reader  ".into();
    assert_eq!(d.display_name(), "Card Reader");
    assert_eq!(d.capacity_bytes(), 125_000_000 * 512);
}

#[test]
fn bus_identifiers_are_stable() {
    assert_eq!(BusType::Sd.as_str(), "SD");
    assert_eq!(BusType::Nvme.as_str(), "NVMe");
    assert_eq!(BusType::Unknown.as_str(), "unknown");
    assert!(BusType::Raid.is_internal_only());
    assert!(!BusType::Scsi.is_internal_only());
}
