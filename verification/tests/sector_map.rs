use salvage::geometry::{DeviceGeometry, LbaRange};
use salvage::sector_map::{state_code, SectorMap, SectorState};

fn map(total: u64) -> SectorMap {
    SectorMap::new(DeviceGeometry::new(512, total).unwrap())
}

fn progress(m: &SectorMap) -> f64 {
    let total = m.geometry().total_sectors();
    if total == 0 {
        return 1.0;
    }
    m.counts().tested() as f64 / total as f64
}

#[test]
fn adjacent_defects_of_different_kinds_are_one_span() {
    let mut m = map(10_000);
    m.mark(LbaRange::from_bounds(0, 2_000), SectorState::Good);
    m.mark(LbaRange::from_bounds(2_000, 3_000), SectorState::Corrupt);
    m.mark(LbaRange::from_bounds(3_000, 3_500), SectorState::BadRead);
    m.mark(LbaRange::from_bounds(3_500, 6_000), SectorState::Corrupt);
    m.mark(LbaRange::from_bounds(6_000, 7_000), SectorState::Good);

    let span = m.defective_run_at(4_000).expect("inside the damage");
    assert_eq!(span, LbaRange::from_bounds(2_000, 6_000));
    assert_eq!(span.len(), 4_000);
}

#[test]
fn the_span_is_found_from_the_frontier_just_past_it() {
    let mut m = map(10_000);
    m.mark(LbaRange::from_bounds(0, 1_000), SectorState::Good);
    m.mark(LbaRange::from_bounds(1_000, 5_000), SectorState::Corrupt);

    assert_eq!(m.defective_run_at(5_000), Some(LbaRange::from_bounds(1_000, 5_000)));
}

#[test]
fn good_ground_reports_no_span() {
    let mut m = map(10_000);
    m.mark(LbaRange::from_bounds(0, 4_000), SectorState::Good);
    m.mark(LbaRange::from_bounds(4_000, 5_000), SectorState::Corrupt);
    m.mark(LbaRange::from_bounds(5_000, 10_000), SectorState::Good);

    assert!(m.defective_run_at(2_000).is_none(), "no defect anywhere near 2000");
    assert!(m.defective_run_at(8_000).is_none(), "8000 is good, and 7999 with it");
}

#[test]
fn unexamined_area_never_extends_the_span() {
    let mut m = map(10_000);
    m.mark(LbaRange::from_bounds(0, 1_000), SectorState::Good);
    m.mark(LbaRange::from_bounds(1_000, 3_000), SectorState::Corrupt);

    assert_eq!(m.defective_run_at(2_000), Some(LbaRange::from_bounds(1_000, 3_000)));
    assert!(m.defective_run_at(9_000).is_none());
}

#[test]
fn a_span_running_to_the_end_of_the_card_is_reported_whole() {
    let mut m = map(10_000);
    m.mark(LbaRange::from_bounds(0, 6_000), SectorState::Good);
    m.mark(LbaRange::from_bounds(6_000, 10_000), SectorState::Corrupt);

    assert_eq!(m.defective_run_at(9_999), Some(LbaRange::from_bounds(6_000, 10_000)));
}

#[test]
fn a_new_map_is_one_untested_run() {
    let m = map(1000);
    assert_eq!(m.runs().len(), 1);
    assert_eq!(m.runs()[0].state, SectorState::Untested);
    assert_eq!(m.counts().untested, 1000);
    assert_eq!(progress(&m), 0.0);
    m.check_invariants().unwrap();
}

#[test]
fn marking_the_middle_splits_into_three_runs() {
    let mut m = map(1000);
    m.mark(LbaRange::from_bounds(400, 600), SectorState::BadRead);
    assert_eq!(m.runs().len(), 3);
    assert_eq!(m.state_at(399), Some(SectorState::Untested));
    assert_eq!(m.state_at(400), Some(SectorState::BadRead));
    assert_eq!(m.state_at(599), Some(SectorState::BadRead));
    assert_eq!(m.state_at(600), Some(SectorState::Untested));
    m.check_invariants().unwrap();
}

#[test]
fn adjacent_equal_states_are_coalesced() {
    let mut m = map(1000);
    m.mark(LbaRange::from_bounds(0, 500), SectorState::Good);
    m.mark(LbaRange::from_bounds(500, 1000), SectorState::Good);
    assert_eq!(m.runs().len(), 1, "the two halves should merge into one run");
    assert_eq!(m.counts().good, 1000);
    m.check_invariants().unwrap();
}

#[test]
fn overwriting_a_region_replaces_the_previous_state() {
    let mut m = map(1000);
    m.mark(LbaRange::from_bounds(100, 900), SectorState::BadRead);
    m.mark(LbaRange::from_bounds(0, 1000), SectorState::Good);
    assert_eq!(m.runs().len(), 1);
    assert_eq!(m.counts().good, 1000);
    assert_eq!(m.counts().bad_read, 0);
    m.check_invariants().unwrap();
}

#[test]
fn a_mark_spanning_several_runs_absorbs_them_all() {
    let mut m = map(1000);
    m.mark(LbaRange::from_bounds(100, 200), SectorState::BadRead);
    m.mark(LbaRange::from_bounds(300, 400), SectorState::Corrupt);
    m.mark(LbaRange::from_bounds(500, 600), SectorState::BadWrite);
    assert!(m.runs().len() > 3);
    m.mark(LbaRange::from_bounds(150, 550), SectorState::Good);
    m.check_invariants().unwrap();
    assert_eq!(m.state_at(350), Some(SectorState::Good));
    assert_eq!(m.state_at(120), Some(SectorState::BadRead));
    assert_eq!(m.state_at(580), Some(SectorState::BadWrite));
}

#[test]
fn marks_are_clipped_to_the_device_instead_of_panicking() {
    let mut m = map(1000);
    m.mark(LbaRange::from_bounds(900, 5000), SectorState::Good);
    m.check_invariants().unwrap();
    assert_eq!(m.counts().good, 100);
    assert_eq!(m.counts().total(), 1000);

    m.mark(LbaRange::from_bounds(2000, 3000), SectorState::BadRead);
    m.check_invariants().unwrap();
    assert_eq!(m.counts().bad_read, 0);
}

#[test]
fn empty_marks_are_a_no_op() {
    let mut m = map(1000);
    let before = m.clone();
    m.mark(LbaRange::from_bounds(500, 500), SectorState::Good);
    assert_eq!(m, before);
}

#[test]
fn area_outside_the_inspected_span_is_withheld_and_never_approved() {
    let geometry = DeviceGeometry::new(512, 200_000).unwrap();
    let mut map = SectorMap::new(geometry);
    let span = LbaRange::from_bounds(8192, 100_000);
    map.mark(span, SectorState::Good);

    map.withhold_outside(span);

    let counts = map.counts();
    assert_eq!(counts.untested, 0, "nothing outside the span may stay untested");
    assert_eq!(counts.good, span.len(), "no sector outside the span became approved");
    assert_eq!(counts.fenced, 200_000 - span.len());
    assert_eq!(map.state_at(0), Some(SectorState::Fenced));
    assert_eq!(map.state_at(8191), Some(SectorState::Fenced));
    assert_eq!(map.state_at(8192), Some(SectorState::Good));
    assert_eq!(map.state_at(99_999), Some(SectorState::Good));
    assert_eq!(map.state_at(100_000), Some(SectorState::Fenced));
    assert_eq!(map.state_at(199_999), Some(SectorState::Fenced));
    assert!(map.check_invariants().is_ok());
}

#[test]
fn a_span_covering_the_device_withholds_nothing() {
    let geometry = DeviceGeometry::new(512, 200_000).unwrap();
    let mut map = SectorMap::new(geometry);
    let full = geometry.full_range();
    map.mark(full, SectorState::Good);

    map.withhold_outside(full);

    assert_eq!(map.counts().fenced, 0);
    assert_eq!(map.counts().good, 200_000);
}

#[test]
fn withholding_leaves_every_measurement_inside_the_span_alone() {
    let geometry = DeviceGeometry::new(512, 200_000).unwrap();
    let mut map = SectorMap::new(geometry);
    let span = LbaRange::from_bounds(8192, 100_000);
    map.mark(span, SectorState::Good);
    map.mark(LbaRange::from_bounds(50_000, 50_100), SectorState::BadRead);

    map.withhold_outside(span);

    assert_eq!(map.counts().bad_read, 100);
    assert_eq!(map.state_at(50_050), Some(SectorState::BadRead));
}

#[test]
fn a_ranged_downsample_covers_exactly_that_range() {
    let mut map = SectorMap::new(DeviceGeometry::new(512, 200_000).unwrap());
    let span = LbaRange::from_bounds(8192, 100_000);
    map.mark(span, SectorState::Good);
    map.withhold_outside(span);

    let buckets = map.downsample_range(span, 64);
    assert_eq!(buckets.first().unwrap().range.start(), span.start());
    assert_eq!(buckets.last().unwrap().range.end(), span.end());
    assert!(
        buckets.iter().all(|b| b.dominant == SectorState::Good),
        "a bucket outside the inspected area reached the view"
    );
}

#[test]
fn a_ranged_downsample_leaves_no_gap_in_its_range() {
    let map = SectorMap::new(DeviceGeometry::new(512, 200_000).unwrap());
    let span = LbaRange::from_bounds(8192, 100_000);
    let buckets = map.downsample_range(span, 97);
    for pair in buckets.windows(2) {
        assert_eq!(pair[0].range.end(), pair[1].range.start(), "gap between buckets");
    }
}

#[test]
fn a_range_covering_the_device_downsamples_like_the_whole_device() {
    let mut map = SectorMap::new(DeviceGeometry::new(512, 40_000).unwrap());
    map.mark(LbaRange::from_bounds(1000, 1100), SectorState::Corrupt);
    let full = map.geometry().full_range();
    assert_eq!(map.downsample_range(full, 128), map.downsample(128));
}

#[test]
fn counts_in_tallies_only_what_falls_inside_the_range() {
    let mut map = SectorMap::new(DeviceGeometry::new(512, 200_000).unwrap());
    let span = LbaRange::from_bounds(8192, 100_000);
    map.mark(span, SectorState::Good);
    map.withhold_outside(span);
    map.mark(LbaRange::from_bounds(50_000, 50_100), SectorState::BadRead);

    let counts = map.counts_in(span);
    assert_eq!(counts.total(), span.len(), "the tally must account for the range exactly");
    assert_eq!(counts.fenced, 0, "area outside the range is not part of this tally");
    assert_eq!(counts.bad_read, 100);
    assert_eq!(counts.good, span.len() - 100);
}

#[test]
fn counts_in_clamps_a_range_that_overruns_the_device() {
    let map = SectorMap::new(DeviceGeometry::new(512, 1000).unwrap());
    let counts = map.counts_in(LbaRange::from_bounds(500, 999_999));
    assert_eq!(counts.total(), 500);
}

#[test]
fn counts_always_sum_to_the_device_size() {
    let mut m = map(10_000);
    m.mark(LbaRange::from_bounds(0, 3000), SectorState::Good);
    m.mark(LbaRange::from_bounds(3000, 3100), SectorState::BadRead);
    m.mark(LbaRange::from_bounds(5000, 5050), SectorState::Corrupt);
    m.mark(LbaRange::from_bounds(9000, 9500), SectorState::Aliased);
    let c = m.counts();
    assert_eq!(c.total(), 10_000);
    assert_eq!(c.defective(), 100 + 50 + 500);
    m.check_invariants().unwrap();
}

#[test]
fn only_verified_sectors_count_as_usable() {
    assert!(SectorState::Good.is_usable());
    assert!(!SectorState::Untested.is_usable());
    assert!(!SectorState::Fenced.is_usable());
}

#[test]
fn recording_an_alias_marks_the_sector_and_keeps_the_evidence() {
    let mut m = map(10_000);
    m.record_alias(9000, 1000);
    assert_eq!(m.state_at(9000), Some(SectorState::Aliased));
    assert_eq!(m.aliases().len(), 1);
    assert_eq!(m.aliases()[0].stride(), 8000);
    m.check_invariants().unwrap();
}

#[test]
fn state_at_returns_none_past_the_end_of_the_device() {
    let m = map(1000);
    assert_eq!(m.state_at(1000), None);
    assert_eq!(m.state_at(u64::MAX), None);
    assert_eq!(m.state_at(999), Some(SectorState::Untested));
}

#[test]
fn downsample_covers_the_device_without_gaps() {
    let mut m = map(10_000);
    m.mark(LbaRange::from_bounds(0, 10_000), SectorState::Good);
    let b = m.downsample(100);
    assert_eq!(b.len(), 100);
    assert_eq!(b[0].range.start(), 0);
    assert_eq!(b.last().unwrap().range.end(), 10_000);
    for w in b.windows(2) {
        assert_eq!(w[0].range.end(), w[1].range.start());
    }
}

#[test]
fn a_single_bad_sector_dominates_its_bucket() {
    let mut m = map(10_000);
    m.mark(LbaRange::from_bounds(0, 10_000), SectorState::Good);
    m.mark_sector(5_050, SectorState::Corrupt);
    let buckets = m.downsample(100);
    let hit = &buckets[50];
    assert_eq!(hit.dominant, SectorState::Corrupt);
    assert_eq!(hit.counts.corrupt, 1);
    assert_eq!(hit.counts.good, 99);
    assert_eq!(buckets[49].dominant, SectorState::Good);
}

#[test]
fn downsample_handles_more_buckets_than_sectors() {
    let m = map(10);
    let b = m.downsample(1000);
    assert!(!b.is_empty() && b.len() <= 10);
    assert_eq!(b.last().unwrap().range.end(), 10);
}

#[test]
fn downsample_bucket_counts_match_the_bucket_size() {
    let mut m = map(9_999);
    m.mark(LbaRange::from_bounds(0, 4_000), SectorState::Good);
    for b in m.downsample(77) {
        assert_eq!(b.counts.total(), b.range.len());
    }
}

#[test]
fn progress_tracks_the_inspected_fraction() {
    let mut m = map(1000);
    m.mark(LbaRange::from_bounds(0, 250), SectorState::Good);
    assert!((progress(&m) - 0.25).abs() < 1e-9);
    m.mark(LbaRange::from_bounds(250, 1000), SectorState::Good);
    assert!((progress(&m) - 1.0).abs() < 1e-9);
}

#[test]
fn invariants_survive_many_overlapping_marks() {
    let mut m = map(50_000);
    let states = SectorState::ALL;
    let mut seed = 0x1234_5678u64;
    let mut rnd = || {
        seed ^= seed << 13;
        seed ^= seed >> 7;
        seed ^= seed << 17;
        seed
    };
    for i in 0..500 {
        let a = rnd() % 50_000;
        let b = rnd() % 50_000;
        let range = LbaRange::from_bounds(a.min(b), a.max(b) + 1);
        m.mark(range, states[i % states.len()]);
        m.check_invariants().unwrap_or_else(|e| panic!("iteration {i}: {e:?}"));
    }
    assert_eq!(m.counts().total(), 50_000);
}

#[test]
fn state_codes_are_distinct() {
    let codes: std::collections::HashSet<u8> =
        SectorState::ALL.iter().map(|s| state_code(*s)).collect();
    assert_eq!(codes.len(), SectorState::ALL.len());
}

#[test]
fn marking_records_the_state_for_every_sector_of_the_range() {
    let mut m = map(2_000);
    m.mark(LbaRange::from_bounds(10, 20), SectorState::Corrupt);
    for lba in 10..20 {
        assert_eq!(m.state_at(lba), Some(SectorState::Corrupt));
    }
    assert_eq!(m.state_at(9), Some(SectorState::Untested));
    assert_eq!(m.state_at(20), Some(SectorState::Untested));
    assert_eq!(m.counts().corrupt, 10);
}
