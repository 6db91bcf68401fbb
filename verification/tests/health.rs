use salvage::geometry::{DeviceGeometry, LbaRange};
use salvage::health::{
    diagnose, estimate_real_capacity, largest_defect_free_run, newly_failed_regions, Assurance,
    FailureScenario,
};
use salvage::sector_map::{SectorMap, SectorState};


fn map(total: u64) -> SectorMap {
    SectorMap::new(DeviceGeometry::new(512, total).unwrap())
}

fn all_good(total: u64) -> SectorMap {
    let mut m = map(total);
    m.mark(LbaRange::from_bounds(0, total), SectorState::Good);
    m
}

#[test]
fn a_clean_card_needs_no_isolation() {
    let r = diagnose(&all_good(10_000), None);
    assert_eq!(r.scenario, FailureScenario::Pristine);
    assert_eq!(r.assurance, Assurance::High);
    assert!(!r.isolation_is_worthwhile);
    assert_eq!(r.largest_usable_sectors, 10_000);
}

/// The crux of re-inspecting a card this program already fenced: the area
/// left out was condemned by an earlier run, not skipped, and the run that
/// covered what remains has to be allowed to conclude something about it.
/// Untested area denies every verdict — rightly — so the narrowing has to
/// be recorded as withheld, and this is the test that says it worked.
#[test]
fn a_deliberately_narrowed_inspection_still_reaches_a_verdict() {
    let span = LbaRange::from_bounds(8192, 100_000);
    let mut m = map(200_000);
    m.mark(span, SectorState::Good);
    m.withhold_outside(span);

    let r = diagnose(&m, None);
    assert_eq!(r.scenario, FailureScenario::Pristine);
    assert_eq!(r.assurance, Assurance::High);
    // Only what the run actually read back may be counted as usable.
    assert_eq!(r.largest_usable_sectors, span.len());
}

/// And the opposite case has to keep working: a run that stopped early
/// leaves real gaps, and those still refuse a verdict.
#[test]
fn a_run_that_stopped_early_still_proves_nothing() {
    let mut m = map(200_000);
    m.mark(LbaRange::from_bounds(0, 100_000), SectorState::Good);

    let r = diagnose(&m, None);
    assert_eq!(r.scenario.kind(), "not_proven");
    assert_eq!(r.assurance, Assurance::NoBasis);
}

#[test]
fn aliasing_is_diagnosed_as_counterfeit_with_high_assurance() {
    let mut m = all_good(10_000);
    m.record_alias(9_000, 1_000);
    let r = diagnose(&m, None);
    assert!(matches!(r.scenario, FailureScenario::CounterfeitCapacity { .. }));
    assert_eq!(r.assurance, Assurance::High);
    assert!(r.isolation_is_worthwhile);
}

/// Observations landing on the same remainder produce a GCD that is only a
/// multiple of the capacity. Accepting the raw GCD would declare a
/// nonexistent area safe, so the estimate must descend to the smallest
/// viable divisor.
#[test]
fn real_capacity_is_not_overestimated_when_the_gcd_is_a_multiple() {
    let real = 8_000u64;
    let mut m = all_good(100_000);
    for req in [20_000u64, 36_000, 52_000] {
        m.record_alias(req, req % real);
    }
    // Strides are 16k, 32k and 48k; the GCD is 16,000 — twice the capacity.
    assert_eq!(estimate_real_capacity(&m), Some(real));
}

#[test]
fn real_capacity_is_recovered_from_varied_remainders() {
    let real = 8_000u64;
    let mut m = all_good(100_000);
    for req in [20_000u64, 33_000, 51_000] {
        m.record_alias(req, req % real);
    }
    assert_eq!(estimate_real_capacity(&m), Some(real));
}

/// A lone observation does not determine the capacity. The estimate settles
/// on the smallest divisor consistent with what is known to exist, which
/// errs low.
#[test]
fn a_single_observation_yields_the_smallest_viable_divisor() {
    let mut m = all_good(100_000);
    m.record_alias(50_000, 10_000);
    // Stride 40,000; divisors above 10,000 are 20,000 and 40,000.
    assert_eq!(estimate_real_capacity(&m), Some(20_000));
}

/// The estimate may never exceed the lowest address observed aliasing:
/// above it, the card is known to have no memory.
#[test]
fn the_estimate_never_exceeds_the_observed_ceiling() {
    let mut seed = 0x5EED_1234u64;
    let mut rnd = || {
        seed ^= seed << 13;
        seed ^= seed >> 7;
        seed ^= seed << 17;
        seed
    };
    for _ in 0..200 {
        let real = (rnd() % 50_000) + 1_000;
        let mut m = all_good(1_000_000);
        for _ in 0..3 {
            let req = real + (rnd() % 500_000) + 1;
            m.record_alias(req, req % real);
        }
        let ceiling = m.aliases().iter().map(|a| a.requested_lba).min().unwrap();
        let floor = m.aliases().iter().map(|a| a.actual_lba).max().unwrap();
        let est = estimate_real_capacity(&m).unwrap();
        assert!(est <= ceiling, "estimate {est} above ceiling {ceiling}");
        assert!(est > floor, "estimate {est} below a known-existing address {floor}");
    }
}

#[test]
fn an_implausible_modulus_falls_back_to_the_observed_bound() {
    let mut m = all_good(100_000);
    m.record_alias(11_000, 10_000);
    assert_eq!(estimate_real_capacity(&m), Some(11_000));
}

#[test]
fn no_aliases_means_no_capacity_estimate() {
    assert_eq!(estimate_real_capacity(&all_good(1000)), None);
}

#[test]
fn defects_without_a_second_pass_are_indeterminate() {
    let mut m = all_good(10_000);
    m.mark(LbaRange::from_bounds(5_000, 5_100), SectorState::BadRead);
    let r = diagnose(&m, None);
    assert!(matches!(r.scenario, FailureScenario::Indeterminate { defect_regions: 1 }));
    assert_eq!(r.assurance, Assurance::Low);
    assert!(r.isolation_is_worthwhile);
}

#[test]
fn identical_passes_indicate_stable_defects() {
    let mut first = all_good(10_000);
    first.mark(LbaRange::from_bounds(5_000, 5_100), SectorState::BadRead);
    let second = first.clone();
    let r = diagnose(&second, Some(&first));
    assert!(matches!(r.scenario, FailureScenario::ExhaustedSpare { defect_regions: 1 }));
    assert_eq!(r.assurance, Assurance::Moderate);
    assert!(r.isolation_is_worthwhile);
}

/// The case the tool must get right: a sector approved before and rejected
/// now means no layout can protect the user.
#[test]
fn a_sector_that_regresses_between_passes_forbids_any_promise() {
    let first = all_good(10_000);
    let mut second = all_good(10_000);
    second.mark(LbaRange::from_bounds(7_000, 7_050), SectorState::Corrupt);

    let r = diagnose(&second, Some(&first));
    match &r.scenario {
        FailureScenario::ActivelyDegrading { newly_failed_sectors, newly_failed_regions } => {
            assert_eq!(*newly_failed_sectors, 50);
            assert_eq!(newly_failed_regions.len(), 1);
        }
        other => panic!("expected ActivelyDegrading, got {other:?}"),
    }
    assert_eq!(r.assurance, Assurance::NoBasis);
    assert!(!r.isolation_is_worthwhile, "a collapsing card must not be offered fencing");
}

#[test]
fn a_pre_existing_defect_is_not_counted_as_degradation() {
    let mut first = all_good(10_000);
    first.mark(LbaRange::from_bounds(7_000, 7_050), SectorState::Corrupt);
    let second = first.clone();
    assert!(newly_failed_regions(&first, &second).is_empty());
}

#[test]
fn counterfeit_takes_precedence_over_degradation() {
    let first = all_good(10_000);
    let mut second = all_good(10_000);
    second.mark(LbaRange::from_bounds(7_000, 7_050), SectorState::Corrupt);
    second.record_alias(9_000, 1_000);
    let r = diagnose(&second, Some(&first));
    assert!(matches!(r.scenario, FailureScenario::CounterfeitCapacity { .. }));
}

/// The most dangerous regression this tool could have: certifying area
/// nobody inspected. Every sector the scan skipped is a sector about which
/// the only honest statement is that nothing is known.
#[test]
fn a_scan_that_covered_nothing_is_never_reported_as_healthy() {
    let m = map(10_000);

    let r = diagnose(&m, None);
    assert!(
        matches!(r.scenario, FailureScenario::NotProven { .. }),
        "an unproven scan became {:?}",
        r.scenario
    );
    assert_eq!(r.assurance, Assurance::NoBasis, "an untouched card cannot yield assurance");
    assert!(!r.isolation_is_worthwhile, "no partition is planned over unproven area");
    assert_ne!(r.scenario, FailureScenario::Pristine);
}

/// The concrete hole this guards: a scan restricted to a range, or stopped
/// early, finds no defects in the sliver it covered. Without the check it
/// reports the whole card pristine with high assurance — on the strength of
/// the 10% it looked at.
#[test]
fn a_clean_partial_scan_does_not_certify_the_untouched_remainder() {
    let mut m = map(10_000);
    m.mark(LbaRange::from_bounds(0, 1_000), SectorState::Good);

    let r = diagnose(&m, None);
    assert!(
        matches!(r.scenario, FailureScenario::NotProven { unverified_sectors: 9_000, .. }),
        "a 10% scan concluded {:?}",
        r.scenario
    );
    assert_eq!(r.assurance, Assurance::NoBasis);
}

/// Defects found in part of a card say nothing of the part never read.
#[test]
fn defects_found_in_a_partial_scan_do_not_complete_it() {
    let mut m = map(10_000);
    m.mark(LbaRange::from_bounds(0, 8_000), SectorState::Good);
    m.mark(LbaRange::from_bounds(8_000, 9_000), SectorState::Corrupt);

    let r = diagnose(&m, None);
    assert!(matches!(r.scenario, FailureScenario::NotProven { .. }));
    assert_eq!(r.assurance, Assurance::NoBasis);
}

/// A long inspection that was stopped part way still yields something to
/// build on. The verdict stays refused — nothing is known about the part
/// nobody looked at — but the approved area is approved, and the planner
/// only ever uses that.
#[test]
fn a_partial_scan_still_offers_the_area_it_did_verify() {
    let mut m = map(10_000);
    m.mark(LbaRange::from_bounds(0, 6_000), SectorState::Good);

    let r = diagnose(&m, None);
    assert!(matches!(r.scenario, FailureScenario::NotProven { .. }));
    assert_eq!(r.assurance, Assurance::NoBasis, "a partial scan cannot yield assurance");
    assert!(r.isolation_is_worthwhile, "six thousand verified sectors were thrown away");
    assert_eq!(r.largest_usable_sectors, 6_000);
}

/// With nothing verified there is nothing to offer either.
#[test]
fn a_scan_that_verified_nothing_offers_no_isolation() {
    let r = diagnose(&map(10_000), None);
    assert!(!r.isolation_is_worthwhile);
}

/// The counterpart: a scan that did cover everything must still reach a
/// real verdict, or the check above would have made the tool useless.
#[test]
fn a_complete_scan_still_reaches_a_verdict() {
    let mut m = map(10_000);
    m.mark(LbaRange::from_bounds(0, 10_000), SectorState::Good);

    let r = diagnose(&m, None);
    assert_eq!(r.scenario, FailureScenario::Pristine);
    assert_eq!(r.assurance, Assurance::High);
}

#[test]
fn assurance_is_ordered_from_worst_to_best() {
    assert!(Assurance::NoBasis < Assurance::Low);
    assert!(Assurance::Low < Assurance::Moderate);
    assert!(Assurance::Moderate < Assurance::High);
}

#[test]
fn largest_usable_reports_the_biggest_contiguous_run() {
    let mut m = map(10_000);
    m.mark(LbaRange::from_bounds(0, 2_000), SectorState::Good);
    m.mark(LbaRange::from_bounds(2_000, 2_100), SectorState::BadRead);
    m.mark(LbaRange::from_bounds(2_100, 9_000), SectorState::Good);
    m.mark(LbaRange::from_bounds(9_000, 10_000), SectorState::Untested);
    assert_eq!(diagnose(&m, None).largest_usable_sectors, 6_900);
}

/// The case that made the on-screen numbers confusing: after a triage, the
/// verified area is a handful of isolated samples while half the card never
/// failed. Reporting only the first number suggests nothing is left.
#[test]
fn a_sampled_map_reports_a_tiny_verified_area_but_a_large_candidate() {
    let mut m = map(100_000);
    m.mark(LbaRange::from_bounds(50_000, 100_000), SectorState::Corrupt);
    for i in 0..50 {
        m.mark(LbaRange::new(i * 1_000, 128), SectorState::Good);
    }

    let r = diagnose(&m, None);
    assert_eq!(r.largest_usable_sectors, 128, "verified run should be one sample wide");
    assert_eq!(r.largest_defect_free.len(), 50_000, "candidate should span the clean half");
    assert_eq!(r.largest_defect_free.start(), 0);
}

#[test]
fn the_defect_free_run_stops_at_a_defect() {
    let mut m = map(1_000);
    m.mark(LbaRange::from_bounds(400, 410), SectorState::BadRead);
    assert_eq!(largest_defect_free_run(&m), LbaRange::from_bounds(410, 1_000));
}

#[test]
fn a_card_with_no_defects_has_one_defect_free_run_covering_everything() {
    let m = all_good(10_000);
    assert_eq!(largest_defect_free_run(&m), LbaRange::from_bounds(0, 10_000));
}

/// The defect-free run must never be mistaken for approved area: it
/// includes everything that was never looked at.
#[test]
fn the_defect_free_run_includes_untested_area() {
    let m = map(10_000);
    assert_eq!(largest_defect_free_run(&m).len(), 10_000);
    assert_eq!(diagnose(&m, None).largest_usable_sectors, 0);
}

#[test]
fn scenario_and_assurance_expose_stable_identifiers() {
    assert_eq!(FailureScenario::Pristine.kind(), "pristine");
    assert_eq!(Assurance::High.as_str(), "high");
    let kinds: std::collections::HashSet<&str> = [
        FailureScenario::Pristine.kind(),
        FailureScenario::Indeterminate { defect_regions: 0 }.kind(),
        FailureScenario::NotProven { unverified_sectors: 0, defect_regions: 0 }.kind(),
        FailureScenario::ExhaustedSpare { defect_regions: 0 }.kind(),
    ]
    .into_iter()
    .collect();
    assert_eq!(kinds.len(), 4, "identifiers must be distinct");
}

#[test]
fn the_estimate_never_exceeds_the_smallest_requested_address() {
    let mut m = all_good(100_000);
    m.record_alias(30_000, 6_000);
    m.record_alias(45_000, 5_000);
    let est = estimate_real_capacity(&m).unwrap();
    assert!(est <= 30_000);
    assert!(est > 6_000);
    assert_eq!(est, 8_000);
}

#[test]
fn a_map_compared_with_itself_shows_no_new_failures() {
    let mut m = all_good(10_000);
    m.mark(LbaRange::from_bounds(100, 200), SectorState::BadRead);
    m.mark(LbaRange::from_bounds(900, 950), SectorState::Corrupt);
    assert!(newly_failed_regions(&m, &m).is_empty());
}

#[test]
fn every_newly_failed_sector_was_approved_before() {
    let mut first = all_good(10_000);
    first.mark(LbaRange::from_bounds(0, 100), SectorState::Untested);
    let mut second = all_good(10_000);
    second.mark(LbaRange::from_bounds(50, 300), SectorState::Corrupt);
    let regions = newly_failed_regions(&first, &second);
    assert_eq!(regions, vec![LbaRange::from_bounds(100, 300)]);
}

#[test]
fn stable_identifiers_cover_every_scenario_and_assurance() {
    let degrading = FailureScenario::ActivelyDegrading {
        newly_failed_sectors: 1,
        newly_failed_regions: vec![LbaRange::from_bounds(0, 1)],
    };
    let counterfeit = FailureScenario::CounterfeitCapacity {
        real_capacity_sectors: 1,
        reported_capacity_sectors: 2,
        evidence_count: 1,
    };
    assert_eq!(degrading.kind(), "actively_degrading");
    assert_eq!(counterfeit.kind(), "counterfeit_capacity");
    assert_eq!(FailureScenario::Indeterminate { defect_regions: 0 }.kind(), "indeterminate");
    assert_eq!(FailureScenario::ExhaustedSpare { defect_regions: 0 }.kind(), "exhausted_spare");
    assert_eq!(Assurance::NoBasis.as_str(), "none");
    assert_eq!(Assurance::Low.as_str(), "low");
    assert_eq!(Assurance::Moderate.as_str(), "moderate");
}

#[test]
fn a_counterfeit_report_carries_the_estimate_and_the_evidence() {
    let mut m = all_good(100_000);
    m.record_alias(20_000, 4_000);
    m.record_alias(36_000, 4_000);
    let r = diagnose(&m, None);
    assert_eq!(
        r.scenario,
        FailureScenario::CounterfeitCapacity {
            real_capacity_sectors: estimate_real_capacity(&m).unwrap(),
            reported_capacity_sectors: 100_000,
            evidence_count: 2,
        }
    );
}
