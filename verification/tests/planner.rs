use salvage::fat32::Fat32Image;
use salvage::geometry::{DeviceGeometry, LbaRange};
use salvage::planner::{
    complement, fenced_view, layout_requirements, merge_ranges, plan_layouts, Containment,
    FileSystem, PartitionPlan, PartitionRole, PlanError, PlannedPartition, PlanningPolicy,
    Strategy, QUARANTINE_MBR_TYPE,
};
use salvage::sector_map::{SectorMap, SectorState};


const SS: u32 = 512;
/// 4 MiB in 512-byte sectors.
const ALIGN: u64 = 8192;

fn geometry(sectors: u64) -> DeviceGeometry {
    DeviceGeometry::new(SS, sectors).unwrap()
}

fn healthy_map(sectors: u64) -> SectorMap {
    let mut m = SectorMap::new(geometry(sectors));
    m.mark(LbaRange::from_bounds(0, sectors), SectorState::Good);
    m
}

fn policy() -> PlanningPolicy {
    PlanningPolicy {
        guard_band_sectors: ALIGN,
        alignment_sectors: ALIGN,
        min_partition_sectors: ALIGN,
        max_partitions: 4,
        treat_untested_as_unsafe: true,
    }
}

#[test]
fn merge_ranges_joins_overlapping_and_touching() {
    let merged = merge_ranges(vec![
        LbaRange::from_bounds(10, 20),
        LbaRange::from_bounds(20, 30),
        LbaRange::from_bounds(15, 18),
        LbaRange::from_bounds(100, 110),
    ]);
    assert_eq!(merged, vec![LbaRange::from_bounds(10, 30), LbaRange::from_bounds(100, 110)]);
}

#[test]
fn complement_returns_the_gaps() {
    let bounds = LbaRange::from_bounds(0, 100);
    let taken = vec![LbaRange::from_bounds(20, 30), LbaRange::from_bounds(60, 70)];
    assert_eq!(
        complement(bounds, &taken),
        vec![
            LbaRange::from_bounds(0, 20),
            LbaRange::from_bounds(30, 60),
            LbaRange::from_bounds(70, 100),
        ]
    );
}

#[test]
fn complement_of_full_coverage_is_empty() {
    let bounds = LbaRange::from_bounds(0, 100);
    assert!(complement(bounds, &[LbaRange::from_bounds(0, 100)]).is_empty());
}

#[test]
fn a_healthy_card_yields_one_data_partition_and_no_quarantine() {
    let m = healthy_map(ALIGN * 128);
    let plans = plan_layouts(&m, FileSystem::ExFat, &policy());
    assert!(!plans.is_empty());
    let p = &plans[0];
    assert_eq!(p.data_partitions().len(), 1);
    assert_eq!(p.quarantine_partitions().len(), 0);
    p.validate(&m, 4).unwrap();
}

#[test]
fn no_partition_ever_starts_on_the_partition_table() {
    let m = healthy_map(ALIGN * 128);
    for plan in plan_layouts(&m, FileSystem::ExFat, &policy()) {
        for p in &plan.partitions {
            assert!(p.range.start() > 0, "partition '{}' starts at LBA 0", p.label);
        }
    }
}

#[test]
fn a_defect_is_excluded_together_with_its_guard_band() {
    let total = ALIGN * 128;
    let mut m = healthy_map(total);
    let defect = LbaRange::from_bounds(ALIGN * 60, ALIGN * 60 + 1);
    m.mark(defect, SectorState::BadRead);

    let plans = plan_layouts(&m, FileSystem::ExFat, &policy());
    assert!(!plans.is_empty());
    for plan in &plans {
        plan.validate(&m, 4).unwrap();
        for dp in plan.data_partitions() {
            match plan.containment {
                // The boundary is the mechanism, so it has to clear both the
                // defect and the margin around it.
                Containment::PartitionBoundary => {
                    assert!(!dp.range.intersects(&defect), "'{}' covers the defect", dp.label);
                    let padded = defect.expanded_by(ALIGN);
                    assert!(
                        !dp.range.intersects(&padded),
                        "'{}' enters the guard band",
                        dp.label
                    );
                }
                // Here the partition is meant to span the defect; what must
                // hold is that the table refuses to hand out the clusters
                // covering it.
                Containment::FilesystemClusterMap => {
                    let image = Fat32Image::new(&m, &dp.range, 0, "T")
                        .expect("the spliced plan validated, so the image must build");
                    assert!(
                        image.condemned_clusters() > 0,
                        "'{}' spans the defect without withholding a single cluster",
                        dp.label
                    );
                }
            }
        }
    }
}

/// The reason the spliced strategy exists. With the good area broken into
/// pieces, a partition boundary can only return the largest single piece;
/// the cluster map returns their sum.
#[test]
fn splicing_recovers_more_than_the_largest_contiguous_run() {
    // Large enough that FAT32 is a legal format for the area at all.
    let total = 80_000_000u64;
    let mut m = healthy_map(total);

    // Four defects chopping the card into five comparable pieces.
    for i in 1..=4u64 {
        let at = total / 5 * i;
        m.mark(LbaRange::from_bounds(at, at + 4096), SectorState::Corrupt);
    }

    let plans = plan_layouts(&m, FileSystem::Fat32, &policy());
    let fenced = plans
        .iter()
        .find(|p| p.strategy == Strategy::LargestContiguous)
        .expect("the fenced plan should still be offered");
    let spliced = plans
        .iter()
        .find(|p| p.strategy == Strategy::SplicedFat32)
        .expect("the spliced plan was not offered");

    assert_eq!(spliced.containment, Containment::FilesystemClusterMap);
    assert_eq!(fenced.containment, Containment::PartitionBoundary);
    assert_eq!(spliced.data_partitions().len(), 1, "splicing yields one drive letter");
    assert!(
        spliced.usable_bytes > fenced.usable_bytes * 3,
        "splicing recovered {} against {} for the largest run — it should be several times more",
        spliced.usable_bytes,
        fenced.usable_bytes
    );
    spliced.validate(&m, 4).expect("the spliced plan must validate");
}

/// The safety equivalence the whole design rests on. The spliced partition
/// spans defects on purpose, so the guarantee has to be re-proved at the
/// layer that actually enforces it: every cluster the volume will hand out
/// must map to sectors the scan approved.
#[test]
fn no_cluster_the_spliced_volume_offers_touches_an_unapproved_sector() {
    let total = 80_000_000u64;
    let mut m = healthy_map(total);
    let defects = [
        LbaRange::from_bounds(9_000_000, 9_004_096),
        LbaRange::from_bounds(30_000_000, 30_100_000),
        LbaRange::from_bounds(61_234_567, 61_234_568),
    ];
    for d in defects {
        m.mark(d, SectorState::Corrupt);
    }
    // A stretch the scan never reached, which must be withheld just as
    // firmly as a proven defect.
    m.mark(LbaRange::from_bounds(70_000_000, 71_000_000), SectorState::Untested);

    let plan = plan_layouts(&m, FileSystem::Fat32, &policy())
        .into_iter()
        .find(|p| p.strategy == Strategy::SplicedFat32)
        .expect("the spliced plan was not offered");
    plan.validate(&m, 4).unwrap();

    let area = plan.data_partitions()[0].range;
    let image = Fat32Image::new(&m, &area, 0, "T").unwrap();
    let layout = *image.layout();
    let spc = layout.sectors_per_cluster() as u64;

    // Walk every cluster the volume could allocate and confirm the sectors
    // behind it were approved. This is the assertion that would fail if the
    // cluster arithmetic were off by one anywhere.
    let mut checked = 0u64;
    for cluster in 3..layout.cluster_count() + 2 {
        if image.fat_entry_for_test(cluster) != 0 {
            continue; // withheld, or the root directory
        }
        let start =
            area.start() + layout.data_start_sector() as u64 + (cluster as u64 - 2) * spc;
        for lba in start..start + spc {
            let state = m.state_at(lba).unwrap_or(SectorState::Untested);
            assert!(
                state.is_usable(),
                "allocatable cluster {cluster} covers LBA {lba}, which is {state:?}"
            );
        }
        checked += 1;
    }
    assert!(
        checked > 1_000,
        "only {checked} clusters were allocatable; the test proved little"
    );
}

/// The card that prompted this: 94 MB approved, none of it usable, and a
/// bare "no usable area" that reads as a contradiction. The requirements
/// are what make the refusal explicable — and each mechanism is refused for
/// its own reason, at its own threshold.
#[test]
fn requirements_explain_a_refusal_on_a_card_with_approved_area() {
    let total = 245_760_000u64;
    let mut m = SectorMap::new(DeviceGeometry::new(512, total).unwrap());
    m.mark(LbaRange::from_bounds(0, total), SectorState::Corrupt);
    // Approved area in scattered pieces, the largest well under what either
    // mechanism needs.
    for i in 0..36u64 {
        let at = 1_000_000 + i * 5_000_000;
        m.mark(LbaRange::from_bounds(at, at + 5_000), SectorState::Good);
    }
    let policy = PlanningPolicy::recommended_for(m.geometry());

    assert!(
        plan_layouts(&m, FileSystem::ExFat, &policy).is_empty(),
        "no layout should survive on this card"
    );

    let req = layout_requirements(&m, &policy);
    assert_eq!(req.approved_runs, 36);
    assert_eq!(req.approved_sectors, 36 * 5_000);
    assert_eq!(req.largest_run_sectors, 5_000);
    assert!(
        req.fenced_needs_sectors > req.largest_run_sectors,
        "fencing would have fit, so the refusal needs another explanation"
    );
    let spliced = req.spliced_needs_sectors.expect("the span can host FAT32");
    assert!(
        spliced > req.largest_run_sectors,
        "the table would have fit, so the refusal needs another explanation"
    );
}

/// The counterpart: when a run is big enough, the requirements must not
/// claim otherwise, or the explanation would be a fabrication.
#[test]
fn requirements_are_met_when_a_layout_does_exist() {
    let total = 245_760_000u64;
    let mut m = SectorMap::new(DeviceGeometry::new(512, total).unwrap());
    m.mark(LbaRange::from_bounds(0, total), SectorState::Corrupt);
    m.mark(LbaRange::from_bounds(1_000_000, 61_000_000), SectorState::Good);
    let policy = PlanningPolicy::recommended_for(m.geometry());

    let req = layout_requirements(&m, &policy);
    assert!(req.largest_run_sectors >= req.fenced_needs_sectors);
    assert!(!plan_layouts(&m, FileSystem::ExFat, &policy).is_empty());
}

/// The most dangerous regression possible: a data partition over a bad
/// sector. Built deliberately here to prove validation rejects it.
#[test]
fn validate_rejects_a_data_partition_covering_a_bad_sector() {
    let total = ALIGN * 32;
    let mut m = healthy_map(total);
    m.mark(LbaRange::from_bounds(ALIGN * 10, ALIGN * 11), SectorState::Corrupt);

    let bad_plan = PartitionPlan {
        strategy: Strategy::LargestContiguous,
        partitions: vec![PlannedPartition {
            range: LbaRange::from_bounds(ALIGN, ALIGN * 20),
            role: PartitionRole::Data,
            mbr_type: 0x07,
            label: "data".into(),
        }],
        geometry: geometry(total),
        usable_bytes: 0,
        sacrificed_bytes: 0,
        containment: Containment::PartitionBoundary,
    };

    match bad_plan.validate(&m, 4) {
        Err(PlanError::DataPartitionCoversUnsafeSector { state, .. }) => {
            assert_eq!(state, SectorState::Corrupt);
        }
        other => panic!("validation should have rejected the plan, got {other:?}"),
    }
}

#[test]
fn validate_rejects_untested_sectors_inside_a_data_partition() {
    let total = ALIGN * 32;
    let mut m = SectorMap::new(geometry(total));
    m.mark(LbaRange::from_bounds(0, ALIGN * 20), SectorState::Good);
    // From ALIGN*20 onward the map stays Untested.

    let plan = PartitionPlan {
        strategy: Strategy::LargestContiguous,
        partitions: vec![PlannedPartition {
            range: LbaRange::from_bounds(ALIGN, ALIGN * 25),
            role: PartitionRole::Data,
            mbr_type: 0x07,
            label: "data".into(),
        }],
        geometry: geometry(total),
        usable_bytes: 0,
        sacrificed_bytes: 0,
        containment: Containment::PartitionBoundary,
    };

    assert!(matches!(
        plan.validate(&m, 4),
        Err(PlanError::DataPartitionCoversUnsafeSector { state: SectorState::Untested, .. })
    ));
}

#[test]
fn validate_rejects_overlapping_partitions() {
    let total = ALIGN * 32;
    let m = healthy_map(total);
    let plan = PartitionPlan {
        strategy: Strategy::LargestContiguous,
        partitions: vec![
            PlannedPartition {
                range: LbaRange::from_bounds(ALIGN, ALIGN * 10),
                role: PartitionRole::Data,
                mbr_type: 0x07,
                label: "a".into(),
            },
            PlannedPartition {
                range: LbaRange::from_bounds(ALIGN * 9, ALIGN * 12),
                role: PartitionRole::Quarantine,
                mbr_type: QUARANTINE_MBR_TYPE,
                label: "b".into(),
            },
        ],
        geometry: geometry(total),
        usable_bytes: 0,
        sacrificed_bytes: 0,
        containment: Containment::PartitionBoundary,
    };
    assert!(matches!(plan.validate(&m, 4), Err(PlanError::OverlappingPartitions { .. })));
}

#[test]
fn validate_rejects_a_partition_past_the_end_of_the_device() {
    let total = ALIGN * 32;
    let m = healthy_map(total);
    let plan = PartitionPlan {
        strategy: Strategy::LargestContiguous,
        partitions: vec![PlannedPartition {
            range: LbaRange::from_bounds(ALIGN, total + ALIGN),
            role: PartitionRole::Data,
            mbr_type: 0x07,
            label: "data".into(),
        }],
        geometry: geometry(total),
        usable_bytes: 0,
        sacrificed_bytes: 0,
        containment: Containment::PartitionBoundary,
    };
    assert!(matches!(plan.validate(&m, 4), Err(PlanError::OutOfBounds { .. })));
}

/// Typical scenario A: the card advertises 128 units and only the first 32
/// exist. The plan must fence off the entire fake area.
#[test]
fn a_counterfeit_card_keeps_only_the_real_region() {
    let total = ALIGN * 128;
    let real = ALIGN * 32;
    let mut m = SectorMap::new(geometry(total));
    m.mark(LbaRange::from_bounds(0, real), SectorState::Good);
    m.mark(LbaRange::from_bounds(real, total), SectorState::Aliased);

    let plans = plan_layouts(&m, FileSystem::ExFat, &policy());
    let plan = &plans[0];
    plan.validate(&m, 4).unwrap();

    let data = plan.data_partitions();
    assert_eq!(data.len(), 1);
    assert!(data[0].range.end() <= real, "partition reaches into nonexistent area");
    assert_eq!(plan.quarantine_partitions().len(), 1);

    let q = plan.quarantine_partitions()[0].clone();
    assert_eq!(q.mbr_type, QUARANTINE_MBR_TYPE);
    assert!(q.range.start() >= real - ALIGN);
}

#[test]
fn maximum_space_uses_more_than_one_region_when_it_helps() {
    let total = ALIGN * 128;
    let mut m = healthy_map(total);
    // A defect in the middle splits the card into two large halves.
    m.mark(LbaRange::from_bounds(ALIGN * 64, ALIGN * 65), SectorState::BadRead);

    let plans = plan_layouts(&m, FileSystem::ExFat, &policy());
    let max_plan = plans
        .iter()
        .find(|p| p.strategy == Strategy::MaximumSpace)
        .expect("a maximum-space strategy should exist");
    assert_eq!(max_plan.data_partitions().len(), 2);
    max_plan.validate(&m, 4).unwrap();

    let largest = plans.iter().find(|p| p.strategy == Strategy::LargestContiguous).unwrap();
    assert!(
        max_plan.usable_bytes > largest.usable_bytes,
        "maximum space should beat a single contiguous area"
    );
}

#[test]
fn the_conservative_strategy_trades_space_for_distance() {
    let total = ALIGN * 128;
    let mut m = healthy_map(total);
    m.mark(LbaRange::from_bounds(ALIGN * 64, ALIGN * 65), SectorState::BadRead);

    let plans = plan_layouts(&m, FileSystem::ExFat, &policy());
    if let Some(cons) = plans.iter().find(|p| p.strategy == Strategy::Conservative) {
        cons.validate(&m, 4).unwrap();
        let largest = plans.iter().find(|p| p.strategy == Strategy::LargestContiguous).unwrap();
        assert!(cons.usable_bytes <= largest.usable_bytes);
    }
}

#[test]
fn plans_never_exceed_the_partition_table_size() {
    let total = ALIGN * 256;
    let mut m = healthy_map(total);
    // Many scattered defects: more condemned regions than table slots.
    for i in 1..20u64 {
        m.mark(LbaRange::from_bounds(ALIGN * i * 12, ALIGN * i * 12 + 1), SectorState::Corrupt);
    }
    let plans = plan_layouts(&m, FileSystem::ExFat, &policy());
    assert!(!plans.is_empty());
    for plan in &plans {
        assert!(plan.partitions.len() <= 4, "plan has {} partitions", plan.partitions.len());
        plan.validate(&m, 4).unwrap();
    }
}

/// When no approved space remains, the planner must not invent one: better
/// to offer nothing than to offer something unsafe.
#[test]
fn a_fully_defective_card_produces_no_plan() {
    let total = ALIGN * 32;
    let mut m = SectorMap::new(geometry(total));
    m.mark(LbaRange::from_bounds(0, total), SectorState::Corrupt);
    assert!(plan_layouts(&m, FileSystem::ExFat, &policy()).is_empty());
}

#[test]
fn an_uninspected_card_produces_no_plan() {
    let m = SectorMap::new(geometry(ALIGN * 32));
    assert!(plan_layouts(&m, FileSystem::ExFat, &policy()).is_empty());
}

#[test]
fn every_generated_plan_is_aligned_to_the_erase_block() {
    let total = ALIGN * 128;
    let mut m = healthy_map(total);
    m.mark(LbaRange::from_bounds(ALIGN * 33 + 77, ALIGN * 33 + 90), SectorState::Corrupt);
    for plan in plan_layouts(&m, FileSystem::ExFat, &policy()) {
        for p in plan.data_partitions() {
            assert_eq!(p.range.start() % ALIGN, 0, "'{}' start unaligned", p.label);
            assert_eq!(p.range.len() % ALIGN, 0, "'{}' length unaligned", p.label);
        }
    }
}

#[test]
fn filesystem_type_bytes_are_the_expected_ones() {
    assert_eq!(FileSystem::ExFat.mbr_type(), 0x07);
    assert_eq!(FileSystem::Fat32.mbr_type(), 0x0C);
    assert_eq!(QUARANTINE_MBR_TYPE, 0xDA);
}

/// A single bad sector condemns an entire erase block. The fenced view must
/// make that cost visible instead of leaving it implicit.
#[test]
fn fenced_view_reveals_the_good_space_lost_to_the_guard_band() {
    let total = ALIGN * 64;
    let mut m = healthy_map(total);
    m.mark_sector(ALIGN * 30, SectorState::Corrupt);

    let view = fenced_view(&m, &policy());
    view.check_invariants().unwrap();

    let before = m.counts();
    let after = view.counts();

    assert_eq!(before.fenced, 0, "the measured map carries no fenced area");
    assert!(after.fenced > 0, "the view should expose the sacrificed area");
    assert_eq!(after.corrupt, before.corrupt, "the defect must not be reclassified");
    assert_eq!(
        after.good + after.fenced,
        before.good,
        "fencing may only move sectors from approved to fenced"
    );
    assert_eq!(after.total(), total, "the view must cover the same device");
}

#[test]
fn fenced_view_of_a_healthy_card_changes_nothing() {
    let m = healthy_map(ALIGN * 64);
    let view = fenced_view(&m, &policy());
    assert_eq!(view.counts().fenced, 0);
    assert_eq!(view.counts().good, m.counts().good);
}

/// The view is for human reading; validation still uses the measured map,
/// and plans must remain valid against both.
#[test]
fn plans_stay_valid_against_the_fenced_view() {
    let total = ALIGN * 128;
    let mut m = healthy_map(total);
    m.mark(LbaRange::from_bounds(ALIGN * 64, ALIGN * 65), SectorState::BadRead);

    let view = fenced_view(&m, &policy());
    for plan in plan_layouts(&m, FileSystem::ExFat, &policy()) {
        plan.validate(&m, 4).unwrap();
        plan.validate(&view, 4).expect("plan should also hold against the view");
    }
}

/// Exhaustive check: across many defect patterns, no plan may ever place
/// data on a sector that was not approved.
#[test]
fn no_generated_plan_ever_violates_the_safety_invariant() {
    let total = ALIGN * 200;
    let mut seed = 0xABCD_EF01u64;
    let mut rnd = || {
        seed ^= seed << 13;
        seed ^= seed >> 7;
        seed ^= seed << 17;
        seed
    };

    for case in 0..60 {
        let mut m = healthy_map(total);
        for _ in 0..(case % 9) + 1 {
            let start = rnd() % total;
            let len = (rnd() % (ALIGN * 3)) + 1;
            let state = match rnd() % 4 {
                0 => SectorState::BadRead,
                1 => SectorState::BadWrite,
                2 => SectorState::Corrupt,
                _ => SectorState::Aliased,
            };
            m.mark(LbaRange::new(start, len), state);
        }
        m.check_invariants().unwrap();

        for plan in plan_layouts(&m, FileSystem::ExFat, &policy()) {
            plan.validate(&m, 4)
                .unwrap_or_else(|e| panic!("case {case}, plan {:?}: {e:?}", plan.strategy));
        }
    }
}
