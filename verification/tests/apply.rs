use salvage::apply::{
    apply_layout, authorise, disk_signature_for, drive_letter_of, head_wipe_sectors, table_in,
    table_sector, volume_label, ApplyError, ApplyStep,
};
use salvage::device::{BlockDevice, BusType, DeviceInfo};
use salvage::geometry::{DeviceGeometry, LbaRange};
use salvage::mbr::MasterBootRecord;
use salvage::planner::{plan_layouts, FileSystem, PlanningPolicy};
use salvage::safety::{DestructiveConsent, SafetyPolicy};
use salvage::sector_map::{SectorMap, SectorState};
use salvage::simulator::SimulatedCard;

fn device(sectors: u64) -> DeviceInfo {
    DeviceInfo {
        path: "\\\\.\\PhysicalDrive9".into(),
        index: 9,
        model: "SDXC".into(),
        vendor: "Generic".into(),
        serial: Some("S1".into()),
        bus_type: BusType::Sd,
        removable_media: true,
        geometry: DeviceGeometry::new(512, sectors).unwrap(),
        volumes: vec![],
    }
}

fn healthy_map(sectors: u64) -> SectorMap {
    let mut map = SectorMap::new(DeviceGeometry::new(512, sectors).unwrap());
    map.mark(LbaRange::from_bounds(0, sectors), SectorState::Good);
    map
}

#[test]
fn consent_for_another_card_is_refused_before_anything_is_written() {
    let d = device(1_000_000);
    let consent =
        DestructiveConsent::issue(&d, &d.display_name(), &SafetyPolicy::default()).unwrap();
    let map = healthy_map(1_000_000);
    let plans =
        plan_layouts(&map, FileSystem::ExFat, &PlanningPolicy::recommended_for(&d.geometry));

    let mut swapped = device(1_000_000);
    swapped.serial = Some("ANOTHER CARD".into());

    let err = authorise(&swapped, &plans[0], &map, &consent).unwrap_err();
    assert!(matches!(err, ApplyError::ConsentMismatch));
}

#[test]
fn an_authorised_plan_becomes_its_own_table() {
    let d = device(1_000_000);
    let consent =
        DestructiveConsent::issue(&d, &d.display_name(), &SafetyPolicy::default()).unwrap();
    let map = healthy_map(1_000_000);
    let plans =
        plan_layouts(&map, FileSystem::ExFat, &PlanningPolicy::recommended_for(&d.geometry));
    let table = authorise(&d, &plans[0], &map, &consent).unwrap();
    assert_eq!(table, MasterBootRecord::from_plan(&plans[0], disk_signature_for(&d)).unwrap());
}

#[test]
fn a_plan_over_an_unproven_sector_is_refused() {
    let d = device(1_000_000);
    let consent =
        DestructiveConsent::issue(&d, &d.display_name(), &SafetyPolicy::default()).unwrap();
    let map = healthy_map(1_000_000);
    let plans =
        plan_layouts(&map, FileSystem::ExFat, &PlanningPolicy::recommended_for(&d.geometry));
    let mut damaged = map.clone();
    let start = plans[0].data_partitions()[0].range.start();
    damaged.mark(LbaRange::from_bounds(start + 10, start + 11), SectorState::Corrupt);
    let err = authorise(&d, &plans[0], &damaged, &consent).unwrap_err();
    assert!(matches!(err, ApplyError::UnsafePlan(_)));
}

#[test]
fn the_layout_lands_on_the_card_and_reads_back_as_written() {
    let sectors = 100_000u64;
    let d = device(sectors);
    let consent =
        DestructiveConsent::issue(&d, &d.display_name(), &SafetyPolicy::default()).unwrap();
    let map = healthy_map(sectors);
    let plans =
        plan_layouts(&map, FileSystem::ExFat, &PlanningPolicy::recommended_for(&d.geometry));
    let table = authorise(&d, &plans[0], &map, &consent).unwrap();

    let mut card = SimulatedCard::healthy(512, sectors);
    card.fill_with_marker(0x77);
    let written = apply_layout(&mut card, &plans[0], &map, &table, "SALVAGE").unwrap();

    assert_eq!(written.steps.last(), Some(&ApplyStep::TableWritten));
    assert_eq!(written.table_before, vec![0x77u8; 512]);
    assert!(written
        .steps
        .iter()
        .any(|s| matches!(s, ApplyStep::PartitionHeadWiped { .. })));

    let mut first = vec![0u8; 512];
    card.read_at(0, &mut first).unwrap();
    assert_eq!(MasterBootRecord::from_bytes(&first).unwrap(), table);

    let start = plans[0].data_partitions()[0].range.start();
    let mut head = vec![0xFFu8; 512];
    card.read_at(start, &mut head).unwrap();
    assert!(head.iter().all(|b| *b == 0), "the head of the data partition was not zeroed");
}

#[test]
fn the_table_sector_is_padded_with_zeros() {
    let mbr = MasterBootRecord::empty(0x1234_5678);
    let sector = table_sector(&mbr, 4096);
    assert_eq!(sector.len(), 4096);
    assert_eq!(&sector[..512], &mbr.to_bytes()[..]);
    assert!(sector[512..].iter().all(|b| *b == 0));
    assert_eq!(table_in(&sector), Some(mbr));
    assert_eq!(table_in(&[0u8; 600]), None);
    assert_eq!(table_in(&[0u8; 100]), None);
}

#[test]
fn a_mebibyte_is_wiped_whatever_the_sector_size() {
    assert_eq!(head_wipe_sectors(512), 2048);
    assert_eq!(head_wipe_sectors(4096), 256);
}

#[test]
fn the_formatter_receives_eleven_acceptable_characters() {
    assert_eq!(volume_label("CARTAO OK"), "CARTAO_OK");
    assert_eq!(volume_label("a very long label"), "a_very_long");
    assert_eq!(volume_label(""), "");
}

#[test]
fn the_drive_letter_is_the_first_lettered_mount_point() {
    let mounts: Vec<String> = vec!["".into(), "\\\\?\\Volume".into(), "e:\\".into(), "F:\\".into()];
    assert_eq!(drive_letter_of(&mounts), Some('E'));
    assert_eq!(drive_letter_of(&vec!["1:\\".to_string()]), None);
    assert_eq!(drive_letter_of(&Vec::new()), None);
}

#[test]
fn releasing_a_card_with_foreign_consent_is_refused() {
    let d = device(1_000_000);
    let consent =
        DestructiveConsent::issue(&d, &d.display_name(), &SafetyPolicy::default()).unwrap();
    let mut swapped = device(1_000_000);
    swapped.serial = Some("ANOTHER CARD".into());
    let err = salvage::apply::restoration(&swapped, &consent, None).err().unwrap();
    assert!(matches!(err, ApplyError::ConsentMismatch));
}

#[test]
fn a_stored_table_is_put_back_as_the_cards_own() {
    let d = device(1_000_000);
    let consent =
        DestructiveConsent::issue(&d, &d.display_name(), &SafetyPolicy::default()).unwrap();
    let map = healthy_map(1_000_000);
    let plans =
        plan_layouts(&map, FileSystem::ExFat, &PlanningPolicy::recommended_for(&d.geometry));
    let table = MasterBootRecord::from_plan(&plans[0], disk_signature_for(&d)).unwrap();
    let bytes = table_sector(&table, 512);
    let back = salvage::apply::restoration(&d, &consent, Some(bytes.as_slice())).unwrap();
    assert_eq!(back.table, Some(table));
    assert_eq!(back.steps, vec![ApplyStep::TableRestored { from_card: true }]);
}

#[test]
fn a_stored_table_that_does_not_parse_is_recorded_as_unusable() {
    let d = device(1_000_000);
    let consent =
        DestructiveConsent::issue(&d, &d.display_name(), &SafetyPolicy::default()).unwrap();
    let pattern = vec![0x5Au8; 512];
    let back = salvage::apply::restoration(&d, &consent, Some(pattern.as_slice())).unwrap();
    assert_eq!(back.table, None);
    assert_eq!(back.steps, vec![ApplyStep::StoredTableUnusable]);

    let none = salvage::apply::restoration(&d, &consent, None).unwrap();
    assert_eq!(none.table, None);
    assert!(none.steps.is_empty());
}

#[test]
fn a_layout_written_here_reads_back_as_a_prior_layout() {
    let sectors = 200_000u64;
    let d = device(sectors);
    let consent =
        DestructiveConsent::issue(&d, &d.display_name(), &SafetyPolicy::default()).unwrap();
    let mut map = healthy_map(sectors);
    map.mark(LbaRange::from_bounds(100_000, 100_100), SectorState::BadRead);
    let plans =
        plan_layouts(&map, FileSystem::ExFat, &PlanningPolicy::recommended_for(&d.geometry));
    let plan = plans
        .iter()
        .find(|p| p.partitions.len() > p.data_partitions().len())
        .expect("a layout fencing the defect");
    let table = authorise(&d, plan, &map, &consent).unwrap();

    let mut card = SimulatedCard::healthy(512, sectors);
    assert!(salvage::apply::read_prior_layout(&mut card).is_none());
    apply_layout(&mut card, plan, &map, &table, "SALVAGE").unwrap();
    let prior = salvage::apply::read_prior_layout(&mut card).expect("the layout just written");
    let data: Vec<LbaRange> = plan.data_partitions().iter().map(|p| p.range).collect();
    assert_eq!(prior.data, data);
    assert!(!prior.quarantined.is_empty());
}
