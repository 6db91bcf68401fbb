use salvage::apply::{
    disk_signature_for, sanitise_label_char, writes_own_filesystem, FORMAT_COM_FAT32_LIMIT,
};
use salvage::bus_codes::{self, map_bus};
use salvage::device::{BusType, DeviceInfo};
use salvage::geometry::{DeviceGeometry, LbaRange};
use salvage::planner::FileSystem;
use salvage::wide::{ansi_at, from_wide, to_wide};

fn device() -> DeviceInfo {
    DeviceInfo {
        path: "\\\\.\\PhysicalDrive9".into(),
        index: 9,
        model: "SDXC".into(),
        vendor: "Generic".into(),
        serial: Some("S1".into()),
        bus_type: BusType::Sd,
        removable_media: true,
        geometry: DeviceGeometry::new(512, 1_000_000).unwrap(),
        volumes: vec![],
    }
}

#[test]
fn a_space_becomes_an_underscore_rather_than_disappearing() {
    let mapped: String = "CARTAO OK".chars().map(sanitise_label_char).collect();
    assert_eq!(mapped, "CARTAO_OK");
}

#[test]
fn a_label_keeps_only_what_both_filesystems_accept() {
    let mapped: String = r"a/b:c\d*e".chars().map(sanitise_label_char).collect();
    assert_eq!(mapped, "a_b_c_d_e", "punctuation a filesystem refuses must not reach it");
    assert_eq!("Ok-9_".chars().map(sanitise_label_char).collect::<String>(), "Ok-9_");
}

#[test]
fn fat32_past_the_formatter_limit_is_written_here_instead() {
    let sectors_32g = FORMAT_COM_FAT32_LIMIT / 512;
    let at = LbaRange::from_bounds(0, sectors_32g);
    let past = LbaRange::from_bounds(0, sectors_32g + 1);

    assert!(!writes_own_filesystem(FileSystem::Fat32, &at, 512), "32 GB is accepted");
    assert!(writes_own_filesystem(FileSystem::Fat32, &past, 512), "past it is not");
}

#[test]
fn exfat_is_always_left_to_windows() {
    let huge = LbaRange::from_bounds(0, u32::MAX as u64);
    assert!(!writes_own_filesystem(FileSystem::ExFat, &huge, 512));
}

#[test]
fn the_limit_is_measured_in_bytes_rather_than_sectors() {
    let sectors = (FORMAT_COM_FAT32_LIMIT / 512) - 1;
    let area = LbaRange::from_bounds(0, sectors);
    assert!(!writes_own_filesystem(FileSystem::Fat32, &area, 512));
    assert!(
        writes_own_filesystem(FileSystem::Fat32, &area, 4096),
        "the same sectors at 4 KiB are eight times the bytes"
    );
}

#[test]
fn disk_signature_is_stable_per_device_and_never_zero() {
    let d = device();
    assert_eq!(disk_signature_for(&d), disk_signature_for(&d));
    assert_ne!(disk_signature_for(&d), 0);

    let mut other = device();
    other.serial = Some("S2".into());
    assert_ne!(disk_signature_for(&d), disk_signature_for(&other));
}

#[test]
fn bus_codes_map_to_the_right_categories() {
    assert_eq!(map_bus(bus_codes::SD), BusType::Sd);
    assert_eq!(map_bus(bus_codes::MMC), BusType::Mmc);
    assert_eq!(map_bus(bus_codes::USB), BusType::Usb);
    assert_eq!(map_bus(bus_codes::NVME), BusType::Nvme);
    assert_eq!(map_bus(bus_codes::SATA), BusType::Sata);
    assert_eq!(map_bus(bus_codes::RAID), BusType::Raid);
    assert_eq!(map_bus(0xFF), BusType::Unknown);
}

#[test]
fn internal_buses_are_never_mistaken_for_card_carriers() {
    for code in [bus_codes::NVME, bus_codes::SATA, bus_codes::ATA, bus_codes::RAID] {
        assert!(!map_bus(code).can_carry_removable_card(), "codigo {code:#x} passou");
    }
}

#[test]
fn wide_conversion_round_trips() {
    let w = to_wide("PhysicalDrive3");
    assert_eq!(*w.last().unwrap(), 0, "a string precisa terminar em nulo");
    assert_eq!(from_wide(&w), "PhysicalDrive3");
}

#[test]
fn from_wide_stops_at_the_first_nul() {
    assert_eq!(from_wide(&[72, 105, 0, 88, 88]), "Hi");
}

#[test]
fn ansi_at_reads_embedded_strings() {
    let mut buf = vec![0u8; 32];
    buf[10..15].copy_from_slice(b"SDXC\0");
    assert_eq!(ansi_at(&buf, 10), Some("SDXC".into()));
    assert_eq!(ansi_at(&buf, 0), None, "deslocamento zero significa ausente");
    assert_eq!(ansi_at(&buf, 999), None, "deslocamento fora do buffer");
}

#[test]
fn non_ascii_text_survives_the_wide_round_trip() {
    let w = to_wide("Cartão ñ €");
    assert_eq!(w.len(), "Cartão ñ €".encode_utf16().count() + 1);
    assert_eq!(from_wide(&w), "Cartão ñ €");
    assert_eq!(from_wide(&[]), "");
}

#[test]
fn embedded_strings_are_trimmed_and_blank_ones_are_absent() {
    let mut buf = vec![0u8; 32];
    buf[4..12].copy_from_slice(b"  Card \0");
    assert_eq!(ansi_at(&buf, 4), Some("Card".into()));
    assert_eq!(ansi_at(&buf, 20), None, "only zeros follow");
}

#[test]
fn other_bus_codes_fall_into_their_groups() {
    assert_eq!(map_bus(bus_codes::ATA), BusType::Sata);
    assert_eq!(map_bus(bus_codes::SCSI), BusType::Scsi);
    assert_eq!(map_bus(bus_codes::SAS), BusType::Scsi);
    assert_eq!(map_bus(bus_codes::ATAPI), BusType::Sata);
    assert_eq!(map_bus(0x05), BusType::Unknown);
}

#[test]
fn characters_beyond_the_basic_plane_take_a_surrogate_pair() {
    let w = to_wide("a\u{1F600}");
    assert_eq!(w, vec![0x61, 0xD83D, 0xDE00, 0]);
    assert_eq!(from_wide(&w), "a\u{1F600}");
    assert_eq!(from_wide(&[0xD83D, 0x62, 0]), "\u{FFFD}b");
    assert_eq!(from_wide(&[0xDE00]), "\u{FFFD}");
}
