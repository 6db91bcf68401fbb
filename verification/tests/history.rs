use salvage::geometry::{DeviceGeometry, LbaRange};
use salvage::history::{
    digest, find_record, forget_record, store_record, CardHistory, CardRecord, MemoryHistory,
    TABLE_BYTES,
};
use salvage::sector_map::{SectorMap, SectorState};

const FP: &str = "SDXC|Generic|S1|4096|512";

fn map() -> SectorMap {
    let mut m = SectorMap::new(DeviceGeometry::new(512, 4096).unwrap());
    m.mark(LbaRange::from_bounds(0, 4096), SectorState::Good);
    m.mark(LbaRange::from_bounds(1000, 1100), SectorState::Corrupt);
    m
}

fn now() -> u64 {
    std::time::SystemTime::now()
        .duration_since(std::time::UNIX_EPOCH)
        .map(|d| d.as_secs())
        .unwrap_or(0)
}

#[test]
fn a_record_round_trips_through_the_store() {
    let store = MemoryHistory::default();
    let record = CardRecord::new(FP, map());
    store.save(&record).unwrap();

    let back = store.load(FP).unwrap().expect("the record should be found");
    assert_eq!(back.map, record.map);
    assert_eq!(back.fingerprint, FP);
}

#[test]
fn a_record_is_not_returned_for_a_different_card() {
    let store = MemoryHistory::default();
    store.save(&CardRecord::new(FP, map())).unwrap();
    assert!(store.load("OTHER|Generic|S9|4096|512").unwrap().is_none());
}

#[test]
fn saving_again_replaces_rather_than_accumulates() {
    let store = MemoryHistory::default();
    store.save(&CardRecord::new(FP, map())).unwrap();

    let mut second = CardRecord::new(FP, map());
    second.map.mark(LbaRange::from_bounds(2000, 2100), SectorState::BadRead);
    store.save(&second).unwrap();

    let back = store.load(FP).unwrap().unwrap();
    assert_eq!(back.map.state_at(2000), Some(SectorState::BadRead));
    assert!(store.load(FP).unwrap().is_some());
    store.forget(FP).unwrap();
    assert!(store.load(FP).unwrap().is_none());
}

#[test]
fn the_original_table_is_captured_once_and_never_replaced() {
    let mut record = CardRecord::new(FP, map());
    let original = vec![0xAA; TABLE_BYTES];
    let ours = vec![0xBB; TABLE_BYTES];

    record.remember_table(&original);
    record.remember_table(&ours);

    assert_eq!(record.table_before.as_deref(), Some(&original[..]));
}

#[test]
fn a_short_buffer_is_not_mistaken_for_a_table() {
    let mut record = CardRecord::new(FP, map());
    record.remember_table(&[0xAA; 16]);
    assert!(record.table_before.is_none(), "16 bytes is not a partition table");
}

#[test]
fn an_age_from_the_future_is_reported_as_unknown() {
    let mut record = CardRecord::new(FP, map());
    record.scanned_at = now() + 86_400;
    assert!(record.age_seconds().is_none());
}

#[test]
fn a_record_just_made_is_essentially_new() {
    let record = CardRecord::new(FP, map());
    assert!(record.age_seconds().unwrap_or(u64::MAX) < 5);
}

#[test]
fn the_digest_is_stable_and_filename_safe() {
    let a = digest(FP);
    assert_eq!(a, digest(FP));
    assert_ne!(a, digest("OTHER|Generic|S9|4096|512"));
    assert_eq!(a.len(), 16);
    assert!(a.chars().all(|c| c.is_ascii_hexdigit()));
}

#[test]
fn the_digest_of_nothing_is_the_fnv_offset_basis() {
    assert_eq!(digest(""), "cbf29ce484222325");
    assert_eq!(digest("a"), "af63dc4c8601ec8c");
}

#[test]
fn a_longer_table_is_cut_to_one_sector() {
    let mut record = CardRecord::new(FP, map());
    let mut bytes = vec![0x11; TABLE_BYTES + 10];
    bytes[0] = 0x22;
    record.remember_table(&bytes);
    let kept = record.table_before.clone().unwrap();
    assert_eq!(kept.len(), TABLE_BYTES);
    assert_eq!(kept[0], 0x22);
    assert!(record.matches(FP));
    assert!(!record.matches("OTHER"));
}

#[test]
fn age_is_measured_against_the_given_time() {
    let mut record = CardRecord::new(FP, map());
    record.scanned_at = 1_000;
    assert_eq!(record.age_at(1_500), Some(500));
    assert_eq!(record.age_at(999), None);
}

#[test]
fn storing_replaces_the_record_of_the_same_card_only() {
    let mut records = vec![CardRecord::new("A", map()), CardRecord::new(FP, map())];
    let mut replacement = CardRecord::new(FP, map());
    replacement.scanned_at = 42;
    store_record(&mut records, replacement);
    assert_eq!(records.len(), 2);
    assert_eq!(find_record(&records, FP).unwrap().scanned_at, 42);
    assert!(find_record(&records, "A").is_some());
    forget_record(&mut records, "A");
    assert!(find_record(&records, "A").is_none());
    assert_eq!(records.len(), 1);
}
