use salvage::geometry::{DeviceGeometry, LbaRange};
use salvage::mbr::{
    describe_change, encode_chs, MasterBootRecord, MbrError, PartitionEntry, PriorLayout,
    DISK_SIGNATURE_OFFSET, MAX_ADDRESSABLE_SECTORS, MBR_SIZE, PARTITION_ENTRY_SIZE,
    PARTITION_TABLE_OFFSET,
};
use salvage::planner::{
    Containment, FileSystem, PartitionPlan, PartitionRole, PlannedPartition, Strategy,
    QUARANTINE_MBR_TYPE,
};

fn sample_plan() -> PartitionPlan {
    PartitionPlan {
        strategy: Strategy::LargestContiguous,
        partitions: vec![
            PlannedPartition {
                range: LbaRange::from_bounds(8192, 1_000_000),
                role: PartitionRole::Data,
                mbr_type: FileSystem::ExFat.mbr_type(),
                label: "data".into(),
            },
            PlannedPartition {
                range: LbaRange::from_bounds(1_000_000, 2_000_000),
                role: PartitionRole::Quarantine,
                mbr_type: QUARANTINE_MBR_TYPE,
                label: "quarantine-1".into(),
            },
        ],
        geometry: DeviceGeometry::new(512, 2_000_000).unwrap(),
        usable_bytes: 0,
        sacrificed_bytes: 0,
        containment: Containment::PartitionBoundary,
    }
}

#[test]
fn serialised_sector_has_the_boot_signature_and_right_size() {
    let bytes = MasterBootRecord::from_plan(&sample_plan(), 0x1234_5678).unwrap().to_bytes();
    assert_eq!(bytes.len(), MBR_SIZE);
    assert_eq!((bytes[510], bytes[511]), (0x55, 0xAA));
}

#[test]
fn the_bootstrap_area_is_left_zeroed() {
    let bytes = MasterBootRecord::from_plan(&sample_plan(), 0xDEAD_BEEF).unwrap().to_bytes();
    assert!(
        bytes[..DISK_SIGNATURE_OFFSET].iter().all(|b| *b == 0),
        "the bootstrap area must stay blank"
    );
}

#[test]
fn round_trip_preserves_every_field() {
    let original = MasterBootRecord::from_plan(&sample_plan(), 0xCAFE_BABE).unwrap();
    let parsed = MasterBootRecord::from_bytes(&original.to_bytes()).unwrap();
    assert_eq!(parsed, original);
    assert_eq!(parsed.disk_signature, 0xCAFE_BABE);
}

#[test]
fn entries_land_at_the_documented_offsets() {
    let mbr = MasterBootRecord::from_plan(&sample_plan(), 0).unwrap();
    let b = mbr.to_bytes();
    assert_eq!(b[PARTITION_TABLE_OFFSET + 4], FileSystem::ExFat.mbr_type());
    assert_eq!(
        u32::from_le_bytes(
            b[PARTITION_TABLE_OFFSET + 8..PARTITION_TABLE_OFFSET + 12].try_into().unwrap()
        ),
        8192
    );
    assert_eq!(b[PARTITION_TABLE_OFFSET + 16 + 4], QUARANTINE_MBR_TYPE);
}

#[test]
fn unused_slots_stay_zeroed() {
    let mbr = MasterBootRecord::from_plan(&sample_plan(), 0).unwrap();
    let b = mbr.to_bytes();
    for i in 2..4 {
        let at = PARTITION_TABLE_OFFSET + i * PARTITION_ENTRY_SIZE;
        assert!(b[at..at + PARTITION_ENTRY_SIZE].iter().all(|x| *x == 0));
    }
    assert_eq!(mbr.used_partitions().len(), 2);
}

#[test]
fn no_partition_is_ever_marked_bootable() {
    let mbr = MasterBootRecord::from_plan(&sample_plan(), 0).unwrap();
    assert!(mbr.partitions.iter().all(|p| !p.bootable));
    assert_eq!(mbr.to_bytes()[PARTITION_TABLE_OFFSET], 0x00);
}

#[test]
fn parsing_rejects_a_sector_without_the_signature() {
    let mut b = MasterBootRecord::empty(0).to_bytes();
    b[511] = 0x00;
    assert!(matches!(
        MasterBootRecord::from_bytes(&b),
        Err(MbrError::MissingBootSignature { .. })
    ));
}

#[test]
fn parsing_rejects_a_wrong_sized_buffer() {
    assert_eq!(MasterBootRecord::from_bytes(&[0u8; 256]), Err(MbrError::WrongSectorSize(256)));
}

#[test]
fn a_partition_beyond_32_bits_is_refused_rather_than_truncated() {
    let plan = PartitionPlan {
        strategy: Strategy::LargestContiguous,
        partitions: vec![PlannedPartition {
            range: LbaRange::from_bounds(8192, MAX_ADDRESSABLE_SECTORS + 10),
            role: PartitionRole::Data,
            mbr_type: 0x07,
            label: "huge".into(),
        }],
        geometry: DeviceGeometry::new(512, u64::MAX / 512).unwrap(),
        usable_bytes: 0,
        sacrificed_bytes: 0,
        containment: Containment::PartitionBoundary,
    };
    assert!(matches!(
        MasterBootRecord::from_plan(&plan, 0),
        Err(MbrError::ExceedsAddressableRange { .. })
    ));
}

#[test]
fn chs_saturates_for_addresses_it_cannot_express() {
    assert_eq!(encode_chs(u32::MAX as u64), [0xFE, 0xFF, 0xFF]);
    assert_eq!(encode_chs(0), [0x00, 0x01, 0x00]);
    assert_eq!(encode_chs(62), [0x00, 0x3F, 0x00]);
    assert_eq!(encode_chs(63), [0x01, 0x01, 0x00]);
}

#[test]
fn entry_range_matches_the_planned_range() {
    let mbr = MasterBootRecord::from_plan(&sample_plan(), 0).unwrap();
    assert_eq!(mbr.partitions[0].range(), LbaRange::from_bounds(8192, 1_000_000));
    assert_eq!(mbr.partitions[1].range(), LbaRange::from_bounds(1_000_000, 2_000_000));
}

#[test]
fn change_description_lists_removals_and_additions() {
    let before = MasterBootRecord::from_plan(&sample_plan(), 1).unwrap();
    let after = MasterBootRecord::empty(1);
    let changes = describe_change(Some(&before), &after);
    assert_eq!(changes.len(), 2);
    assert!(changes.iter().all(|c| !c.added));
}

#[test]
fn a_layout_this_program_wrote_is_recognised_when_read_back() {
    let bytes = MasterBootRecord::from_plan(&sample_plan(), 0x1234_5678).unwrap().to_bytes();
    let parsed = MasterBootRecord::from_bytes(&bytes).unwrap();
    let prior = PriorLayout::read(&parsed).expect("our own layout should be recognised");

    assert_eq!(prior.data, vec![LbaRange::from_bounds(8192, 1_000_000)]);
    assert_eq!(prior.quarantined, vec![LbaRange::from_bounds(1_000_000, 2_000_000)]);
    assert_eq!(prior.data_span(), Some(LbaRange::from_bounds(8192, 1_000_000)));
}

#[test]
fn a_table_with_no_quarantine_is_never_taken_for_one_of_ours() {
    let mut mbr = MasterBootRecord::empty(7);
    mbr.partitions[0] = PartitionEntry {
        bootable: false,
        partition_type: 0x07,
        start_lba: 8192,
        sector_count: 1_000_000,
    };
    assert_eq!(PriorLayout::read(&mbr), None);
}

#[test]
fn quarantine_with_no_data_partition_yields_no_layout() {
    let mut mbr = MasterBootRecord::empty(7);
    mbr.partitions[0] = PartitionEntry {
        bootable: false,
        partition_type: QUARANTINE_MBR_TYPE,
        start_lba: 8192,
        sector_count: 1_000_000,
    };
    assert_eq!(PriorLayout::read(&mbr), None);
}

#[test]
fn an_empty_table_yields_no_layout() {
    assert_eq!(PriorLayout::read(&MasterBootRecord::empty(0)), None);
}

#[test]
fn the_data_span_reaches_every_data_partition() {
    let mut mbr = MasterBootRecord::empty(7);
    mbr.partitions[0] = PartitionEntry {
        bootable: false,
        partition_type: 0x07,
        start_lba: 8192,
        sector_count: 100_000,
    };
    mbr.partitions[1] = PartitionEntry {
        bootable: false,
        partition_type: QUARANTINE_MBR_TYPE,
        start_lba: 108_192,
        sector_count: 50_000,
    };
    mbr.partitions[2] = PartitionEntry {
        bootable: false,
        partition_type: 0x07,
        start_lba: 158_192,
        sector_count: 200_000,
    };

    let prior = PriorLayout::read(&mbr).expect("data and quarantine are both present");
    let span = prior.data_span().unwrap();
    assert_eq!(span, LbaRange::from_bounds(8192, 358_192));
    for d in &prior.data {
        assert!(span.intersection(d).as_ref() == Some(d), "{d:?} fell outside the span");
    }
}

#[test]
fn change_description_handles_an_unreadable_previous_table() {
    let after = MasterBootRecord::from_plan(&sample_plan(), 1).unwrap();
    let changes = describe_change(None, &after);
    assert_eq!(changes.len(), 2);
    assert!(changes.iter().all(|c| c.added));
}

#[test]
fn parsing_what_was_written_gives_back_the_same_table() {
    let mut mbr = MasterBootRecord::empty(0x0102_0304);
    mbr.partitions[3] = PartitionEntry {
        bootable: true,
        partition_type: 0x0C,
        start_lba: 63,
        sector_count: 4_000,
    };
    let back = MasterBootRecord::from_bytes(&mbr.to_bytes()).unwrap();
    assert_eq!(back, mbr);
    assert_eq!(back.used_partitions().len(), 1);
    assert_eq!(back.used_partitions()[0].0, 3);
}

#[test]
fn an_empty_partition_in_a_plan_is_refused() {
    let mut plan = sample_plan();
    plan.partitions[0].range = LbaRange::from_bounds(8192, 8192);
    assert_eq!(MasterBootRecord::from_plan(&plan, 0), Err(MbrError::EmptyPartition(0)));
}

#[test]
fn a_plan_with_more_than_four_partitions_is_refused() {
    let mut plan = sample_plan();
    for i in 0..3u64 {
        plan.partitions.push(PlannedPartition {
            range: LbaRange::from_bounds(2_000_000 + i * 10, 2_000_000 + i * 10 + 5),
            role: PartitionRole::Quarantine,
            mbr_type: QUARANTINE_MBR_TYPE,
            label: format!("quarantine-{}", i + 2),
        });
    }
    assert_eq!(MasterBootRecord::from_plan(&plan, 0), Err(MbrError::TooManyPartitions(5)));
}
