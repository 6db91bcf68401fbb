use salvage::geometry::LbaRange;
use salvage::health::{diagnose, Assurance, FailureScenario};
use salvage::pattern::PatternKind;
use salvage::planner::{plan_layouts, FileSystem, PlanningPolicy};
use salvage::scan::{
    CancellationToken, ScanConfig, ScanError, ScanObserver, ScanOutcome, ScanPhase, ScanProgress,
    Scanner, SilentObserver, MIN_REFINE_SECTORS, SYSTEMIC_FAILURE_THRESHOLD, WRITE_PROBE_SAMPLES,
};
use salvage::sector_map::{SectorMap, SectorState};
use salvage::simulator::{SimulatedCard, SimulatedFault};

fn fraction(p: &ScanProgress) -> f64 {
    if p.sectors_total == 0 {
        return 1.0;
    }
    (p.sectors_done as f64 / p.sectors_total as f64).clamp(0.0, 1.0)
}


const SS: u32 = 512;
/// 256 sectors per block keeps tests fast while still exercising the
/// bisection across several levels.
const CHUNK: u64 = 256;

fn config() -> ScanConfig {
    ScanConfig {
        chunk_sectors: CHUNK,
        nonce: 0xA5A5_1234_DEAD_0001,
        range: None,
        pattern: PatternKind::Pseudorandom,
        retention_delay_secs: 0,
    }
}

fn scan(card: &mut SimulatedCard) -> ScanOutcome {
    Scanner::new(config(), CancellationToken::new())
        .run(card, &mut SilentObserver)
        .expect("the scan should have completed")
}

#[test]
fn a_healthy_card_comes_out_entirely_good() {
    let mut card = SimulatedCard::healthy(SS, 4096);
    let out = scan(&mut card);
    out.map.check_invariants().unwrap();

    let c = out.map.counts();
    assert_eq!(c.good, 4096, "an intact card should be approved end to end");
    assert_eq!(c.defective(), 0);
    assert_eq!(diagnose(&out.map, None).scenario, FailureScenario::Pristine);
}

/// The tool central test: a card advertising 4096 sectors while holding
/// 1024 must be unmasked, with its real capacity recovered.
#[test]
fn a_counterfeit_card_is_unmasked_and_its_real_capacity_recovered() {
    let real = 1024u64;
    let mut card = SimulatedCard::with_fault(SS, 4096, SimulatedFault::FakeCapacity { real });
    let out = scan(&mut card);
    out.map.check_invariants().unwrap();

    let c = out.map.counts();
    assert_eq!(c.good, real, "the whole of the real area should be approved");
    assert_eq!(c.aliased, 4096 - real, "every nonexistent sector should be detected");

    // Real sectors pass; invented ones are caught.
    assert_eq!(out.map.state_at(0), Some(SectorState::Good));
    assert_eq!(out.map.state_at(real - 1), Some(SectorState::Good));
    assert_eq!(out.map.state_at(real), Some(SectorState::Aliased));
    assert_eq!(out.map.state_at(4095), Some(SectorState::Aliased));

    let report = diagnose(&out.map, None);
    match report.scenario {
        FailureScenario::CounterfeitCapacity { real_capacity_sectors, .. } => {
            assert_eq!(real_capacity_sectors, real);
        }
        other => panic!("expected a counterfeit verdict, got {other:?}"),
    }
    assert_eq!(report.assurance, Assurance::High);
}

/// Proof that the reverse write order is required: writing front to back,
/// the aliasing would surface in the good area instead.
#[test]
fn the_alias_is_reported_on_the_nonexistent_address_not_the_real_one() {
    let real = 1024u64;
    let mut card = SimulatedCard::with_fault(SS, 4096, SimulatedFault::FakeCapacity { real });
    let out = scan(&mut card);

    for a in out.map.aliases() {
        assert!(
            a.requested_lba >= real,
            "alias reported at {}, which is a real address",
            a.requested_lba
        );
        assert!(a.actual_lba < real, "the address served back should lie in the real area");
        assert_eq!(a.actual_lba, a.requested_lba % real);
    }
}

/// Refinement stops at [`MIN_REFINE_SECTORS`] granularity, so the condemned
/// region is slightly larger than the defect. What must never happen is the
/// opposite: a defective sector left out.
#[test]
fn every_bad_read_sector_is_condemned_within_the_refinement_granularity() {
    let bad = LbaRange::from_bounds(700, 705);
    let mut card =
        SimulatedCard::with_fault(SS, 4096, SimulatedFault::ReadError { range: bad });
    let out = scan(&mut card);
    out.map.check_invariants().unwrap();

    // No false negatives: data safety depends on exactly this.
    for lba in bad.start()..bad.end() {
        assert!(
            out.map.state_at(lba).unwrap().is_defective(),
            "defective sector {lba} escaped detection"
        );
    }

    // The over-condemnation is bounded by the granularity and does not
    // grow without limit.
    assert!(
        out.map.counts().defective() <= MIN_REFINE_SECTORS * 2,
        "condemned {} sectors over a defect of {}",
        out.map.counts().defective(),
        bad.len()
    );

    // Longe do defeito, o cartao continua aproveitavel.
    assert_eq!(out.map.state_at(0), Some(SectorState::Good));
    assert_eq!(out.map.state_at(2000), Some(SectorState::Good));
    assert_eq!(out.map.state_at(4095), Some(SectorState::Good));
}

#[test]
fn write_errors_are_isolated_to_the_exact_sectors() {
    let bad = LbaRange::from_bounds(1500, 1503);
    let mut card =
        SimulatedCard::with_fault(SS, 4096, SimulatedFault::WriteError { range: bad });
    let out = scan(&mut card);
    out.map.check_invariants().unwrap();

    assert!(out.map.counts().defective() >= bad.len());
    assert_eq!(out.map.state_at(1499), Some(SectorState::Good));
    assert!(out.map.state_at(1500).unwrap().is_defective());
}

/// Silent corruption is the defect a read-only test never finds: the
/// sector answers normally and hands back wrong data.
#[test]
fn silent_corruption_is_detected() {
    let bad = LbaRange::from_bounds(2000, 2010);
    let mut card =
        SimulatedCard::with_fault(SS, 4096, SimulatedFault::SilentCorruption { range: bad });
    let out = scan(&mut card);
    out.map.check_invariants().unwrap();

    assert_eq!(out.map.counts().corrupt, bad.len());
    assert_eq!(out.map.state_at(2000), Some(SectorState::Corrupt));
    assert_eq!(out.map.state_at(2010), Some(SectorState::Good));
}

/// A read-only handle is no longer a mode, so it is now an error. The
/// scan has to say so before touching the device rather than failing at the
/// first write, when the caller can still do something about it.
#[test]
fn a_read_only_device_is_refused_before_anything_is_written() {
    let mut card = SimulatedCard::healthy(SS, 1024);
    card.fill_with_marker(0x5A);
    card.set_writable(false);

    let err = Scanner::new(config(), CancellationToken::new())
        .run(&mut card, &mut SilentObserver)
        .expect_err("a write-protected device must not be scanned");

    assert!(matches!(err, ScanError::NotWritable), "unexpected error: {err:?}");
    assert!(card.is_entirely_marker(0x5A), "the device was written to despite the refusal");
    assert_eq!(card.sectors_written, 0, "a refused scan must not attempt a single write");
}

/// The diagnosis now refuses any verdict while a single sector remains
/// uninspected. That makes total coverage a hard requirement rather than a
/// nicety: a scan that quietly skipped sectors would report every card as
/// unproven, and the tool would never conclude anything again.
#[test]
fn a_completed_scan_leaves_no_sector_uninspected() {
    let sectors = 4096;
    let cases: Vec<(&str, SimulatedFault)> = vec![
        ("healthy", SimulatedFault::NoFault),
        ("read errors", SimulatedFault::ReadError { range: LbaRange::from_bounds(1000, 1100) }),
        (
            "write errors",
            SimulatedFault::WriteError { range: LbaRange::from_bounds(2000, 2400) },
        ),
        (
            "silent corruption",
            SimulatedFault::SilentCorruption { range: LbaRange::from_bounds(300, 900) },
        ),
        ("counterfeit", SimulatedFault::FakeCapacity { real: 1024 }),
        ("stuck at zero", SimulatedFault::StuckAtZero { range: LbaRange::from_bounds(0, 512) }),
        (
            "mixed",
            SimulatedFault::Multiple {
                ranges: vec![
                    LbaRange::from_bounds(64, 128),
                    LbaRange::from_bounds(1500, 1700),
                    LbaRange::from_bounds(3000, 3100),
                ],
            },
        ),
    ];

    for (name, fault) in cases {
        let mut card = SimulatedCard::with_fault(SS, sectors, fault);
        let out = scan(&mut card);
        let counts = out.map.counts();

        assert_eq!(counts.untested, 0, "{name}: {} sectors left uninspected", counts.untested);
        assert_eq!(counts.total(), sectors, "{name}: the map does not cover the device");
    }
}

/// The regression that made a real 128 GB card need twenty hours.
///
/// Reporting each defective sector separately produced one map operation
/// and one observer call per sector. On a card where nearly everything
/// fails that is tens of millions of them, and the reporting cost several
/// times more than the I/O it was describing.
#[test]
fn a_solidly_defective_region_is_reported_as_one_run_not_per_sector() {
    #[derive(Default)]
    struct CountingObserver {
        defects: usize,
    }
    impl ScanObserver for CountingObserver {
        fn on_progress(&mut self, _: &ScanProgress, _: &SectorMap) {}
        fn on_defect(&mut self, _: LbaRange, _: SectorState) {
            self.defects += 1;
        }
    }

    let sectors = 4096;
    let mut card = SimulatedCard::with_fault(
        SS,
        sectors,
        SimulatedFault::SilentCorruption { range: LbaRange::from_bounds(0, sectors) },
    );
    let mut observer = CountingObserver::default();
    let out = Scanner::new(config(), CancellationToken::new())
        .run(&mut card, &mut observer)
        .expect("the scan should complete");

    assert_eq!(out.map.counts().corrupt, sectors, "the corruption was not detected");
    assert!(
        observer.defects <= sectors as usize / 100,
        "{} notifications for {sectors} contiguous corrupt sectors: they are not being grouped",
        observer.defects
    );
    assert!(
        out.map.runs().len() <= 8,
        "the map fragmented into {} runs over one solid defect",
        out.map.runs().len()
    );
}

/// The regression that made the inspection look frozen on a real card.
///
/// When nothing writes, bisection would walk each block entire tree —
/// thousands of attempts each, across thousands of blocks — to conclude what
/// three attempts already said. The user sees a motionless window for hours,
/// with no error on screen at all.
#[test]
fn a_card_that_refuses_every_write_fails_fast_with_a_clear_cause() {
    let mut card = SimulatedCard::with_fault(SS, 65_536, SimulatedFault::WriteProtected);
    let err = Scanner::new(config(), CancellationToken::new())
        .run(&mut card, &mut SilentObserver)
        .unwrap_err();

    match err {
        ScanError::SystemicWriteFailure { consecutive, .. } => {
            assert_eq!(consecutive, SYSTEMIC_FAILURE_THRESHOLD);
        }
        other => panic!("expected a systemic-failure verdict, got: {other:?}"),
    }

    // Cost must be proportional to a few samples, not to a full bisection
    // of every block.
    let ceiling = (SYSTEMIC_FAILURE_THRESHOLD as u64 + 1) * (WRITE_PROBE_SAMPLES as u64 + 2);
    assert!(
        card.writes <= ceiling,
        "{} write attempts to detect the obvious (ceiling: {ceiling})",
        card.writes
    );
}

/// The message must point at the real cause rather than the media: someone
/// reading "defective card" throws away a card that was merely mounted.
#[test]
fn the_systemic_failure_message_names_the_real_causes() {
    let err = ScanError::SystemicWriteFailure { consecutive: 3, sectors: 24_576 };
    let text = err.message().to_lowercase();
    assert!(text.contains("mounted"), "does not mention a mounted volume: {text}");
    assert!(text.contains("write-protect"), "does not mention write protection: {text}");
    assert!(text.contains("elevated"), "does not mention privilege: {text}");
    assert!(text.contains("not a media defect"), "does not rule out a media defect: {text}");
}

/// A localised defect is still refined normally: the systemic-failure
/// guard must not interfere with the legitimate case.
#[test]
fn localised_write_defects_are_still_refined_precisely() {
    let bad = LbaRange::from_bounds(1500, 1503);
    let mut card =
        SimulatedCard::with_fault(SS, 8192, SimulatedFault::WriteError { range: bad });
    let out = Scanner::new(config(), CancellationToken::new())
        .run(&mut card, &mut SilentObserver)
        .expect("a localised defect must not be mistaken for systemic failure");

    out.map.check_invariants().unwrap();
    assert!(out.map.state_at(1500).unwrap().is_defective());
    assert_eq!(out.map.state_at(1499), Some(SectorState::Good));
    assert_eq!(out.map.state_at(1600), Some(SectorState::Good));
}

/// A transient failure must not condemn good area. Serious diagnostic
/// tools retry before marking a sector.
#[test]
fn a_transient_read_error_does_not_condemn_the_sector() {
    let flaky = LbaRange::from_bounds(2000, 2004);
    let mut card = SimulatedCard::with_fault(
        SS,
        8192,
        SimulatedFault::FlakyRead { range: flaky, fails: 2 },
    );

    let out = Scanner::new(config(), CancellationToken::new())
        .run(&mut card, &mut SilentObserver)
        .expect("the scan should have completed");
    out.map.check_invariants().unwrap();

    assert_eq!(
        out.map.counts().bad_read,
        0,
        "a transient error became a permanent defect: the retry did not work"
    );
    for lba in flaky.start()..flaky.end() {
        assert_eq!(out.map.state_at(lba), Some(SectorState::Good));
    }
}

/// A genuinely permanent error is still condemned: retrying must not turn
/// a real defect into an approval.
#[test]
fn a_permanent_read_error_is_still_condemned_after_retries() {
    let bad = LbaRange::from_bounds(2000, 2004);
    let mut card =
        SimulatedCard::with_fault(SS, 8192, SimulatedFault::ReadError { range: bad });
    let out = Scanner::new(config(), CancellationToken::new())
        .run(&mut card, &mut SilentObserver)
        .unwrap();
    assert!(out.map.state_at(2000).unwrap().is_defective());
}

/// Why several patterns exist: a cell stuck at zero matches half the bits
/// of a pseudorandom pattern and can slip through, but fails immediately
/// under all-ones.
#[test]
fn a_stuck_at_zero_bit_is_caught_by_the_all_ones_pattern() {
    let stuck = LbaRange::from_bounds(1000, 1001);

    let mut with_ones =
        SimulatedCard::with_fault(SS, 4096, SimulatedFault::StuckAtZero { range: stuck });
    let out = Scanner::new(
        ScanConfig { pattern: PatternKind::Ones, ..config() },
        CancellationToken::new(),
    )
    .run(&mut with_ones, &mut SilentObserver)
    .unwrap();

    assert!(
        out.map.state_at(1000).unwrap().is_defective(),
        "the all-ones pattern must expose a cell stuck at zero"
    );
}

/// Constant patterns must detect aliasing too: the self-identifying header
/// is present in all of them.
#[test]
fn every_pattern_still_detects_a_counterfeit_card() {
    for kind in PatternKind::SWEEP {
        let real = 1024u64;
        let mut card =
            SimulatedCard::with_fault(SS, 4096, SimulatedFault::FakeCapacity { real });
        let out =
            Scanner::new(ScanConfig { pattern: kind, ..config() }, CancellationToken::new())
                .run(&mut card, &mut SilentObserver)
                .unwrap();

        assert_eq!(
            out.map.counts().aliased,
            4096 - real,
            "pattern {} lost counterfeit-capacity detection",
            kind.label()
        );
    }
}

#[test]
fn a_destructive_scan_is_refused_on_a_read_only_device() {
    let mut card = SimulatedCard::healthy(SS, 1024);
    card.set_writable(false);
    let err = Scanner::new(config(), CancellationToken::new())
        .run(&mut card, &mut SilentObserver)
        .unwrap_err();
    assert!(matches!(err, ScanError::NotWritable));
}

#[test]
fn cancellation_stops_the_scan() {
    let mut card = SimulatedCard::healthy(SS, 65_536);
    let token = CancellationToken::new();
    token.cancel();
    let err = Scanner::new(config(), CancellationToken::clone(&token))
        .run(&mut card, &mut SilentObserver)
        .unwrap_err();
    assert!(matches!(err, ScanError::Cancelled));
}

#[test]
fn progress_is_monotonic_and_completes() {
    struct Recorder {
        last: std::collections::HashMap<&'static str, u64>,
        final_verify: f64,
    }
    impl ScanObserver for Recorder {
        fn on_progress(&mut self, p: &ScanProgress, _map: &SectorMap) {
            if p.phase == ScanPhase::Refining {
                return; // bisection does not advance the phase counter
            }
            let key = if p.phase == ScanPhase::Writing { "w" } else { "v" };
            let prev = self.last.get(key).copied().unwrap_or(0);
            assert!(p.sectors_done >= prev, "progress went backwards in phase {key}");
            self.last.insert(key, p.sectors_done);
            if p.phase == ScanPhase::Verifying {
                self.final_verify = fraction(p);
            }
        }
    }

    let mut card = SimulatedCard::healthy(SS, 4096);
    let mut rec = Recorder { last: Default::default(), final_verify: 0.0 };
    Scanner::new(config(), CancellationToken::new()).run(&mut card, &mut rec).unwrap();
    assert!((rec.final_verify - 1.0).abs() < 1e-9, "the verify phase never reached 100%");
}

#[test]
fn a_partial_range_leaves_the_rest_untested() {
    let mut card = SimulatedCard::healthy(SS, 4096);
    let cfg = ScanConfig { range: Some(LbaRange::from_bounds(1024, 2048)), ..config() };
    let out = Scanner::new(cfg, CancellationToken::new())
        .run(&mut card, &mut SilentObserver)
        .unwrap();
    out.map.check_invariants().unwrap();

    assert_eq!(out.map.counts().good, 1024);
    assert_eq!(out.map.counts().untested, 4096 - 1024);
    assert_eq!(out.map.state_at(0), Some(SectorState::Untested));
    assert_eq!(out.map.state_at(1024), Some(SectorState::Good));
}

/// A card with scattered defects must neither break the map structure nor
/// escape detection.
#[test]
fn many_scattered_defects_are_all_found() {
    let ranges = vec![
        LbaRange::from_bounds(100, 103),
        LbaRange::from_bounds(900, 901),
        LbaRange::from_bounds(2500, 2530),
        LbaRange::from_bounds(4000, 4002),
    ];
    let expected: u64 = ranges.iter().map(|r| r.len()).sum();
    let mut card = SimulatedCard::with_fault(
        SS,
        4096,
        SimulatedFault::Multiple { ranges: ranges.clone() },
    );
    let out = scan(&mut card);
    out.map.check_invariants().unwrap();

    // Cada setor defeituoso precisa estar condenado, um a um.
    for r in &ranges {
        for lba in r.start()..r.end() {
            assert!(
                out.map.state_at(lba).unwrap().is_defective(),
                "the defect at {lba} went unnoticed"
            );
        }
    }

    // Rounding cost is bounded by the granularity, per region.
    let ceiling = expected + ranges.len() as u64 * MIN_REFINE_SECTORS * 2;
    assert!(
        out.map.counts().defective() <= ceiling,
        "condemned {} sectors for {expected} defective ones (ceiling {ceiling})",
        out.map.counts().defective()
    );

    // E a maior parte do cartao continua aproveitavel.
    assert!(out.map.counts().good > 3000, "too little usable space survived");
}

/// End to end: a counterfeit card inspected, diagnosed and partitioned,
/// with the data partition entirely inside the real area.
#[test]
fn end_to_end_a_counterfeit_card_yields_a_safe_partition_plan() {

    let real_sectors = 40 * 8192; // 160 MiB reais
    let fake_sectors = 200 * 8192; // 800 MiB anunciados
    let mut card = SimulatedCard::with_fault(
        SS,
        fake_sectors,
        SimulatedFault::FakeCapacity { real: real_sectors },
    );
    let out =
        Scanner::new(ScanConfig { chunk_sectors: 8192, ..config() }, CancellationToken::new())
            .run(&mut card, &mut SilentObserver)
            .unwrap();

    let report = diagnose(&out.map, None);
    assert_eq!(report.assurance, Assurance::High);
    assert!(report.isolation_is_worthwhile);

    let policy = PlanningPolicy::recommended_for(out.map.geometry());
    let plans = plan_layouts(&out.map, FileSystem::ExFat, &policy);
    assert!(!plans.is_empty(), "deveria haver ao menos um plano viavel");

    for plan in &plans {
        plan.validate(&out.map, 4).unwrap();
        for dp in plan.data_partitions() {
            assert!(
                dp.range.end() <= real_sectors,
                "partition '{}' ends at {} and reaches into nonexistent area (real: {})",
                dp.label,
                dp.range.end(),
                real_sectors
            );
        }
    }
}

#[test]
fn the_scan_errors_describe_themselves() {
    assert_eq!(ScanError::Cancelled.message(), "scan cancelled by the user");
    assert_eq!(
        ScanError::NotWritable.message(),
        "destructive mode requires a device opened for writing"
    );
    let text = ScanError::SystemicWriteFailure { consecutive: 3, sectors: 24_576 }.message();
    assert!(text.starts_with(
        "the device refused every write across 3 consecutive blocks (24576 sectors). This is not"
    ));
    let device = ScanError::Device(salvage::device::DeviceError::OutOfBounds {
        lba: 7,
        end: 9,
        total: 8,
    });
    assert_eq!(device.message(), "access to 7..9 exceeds the device's 8 sectors");
}

#[test]
fn a_default_configuration_covers_the_whole_device_in_four_mib_blocks() {
    let c = ScanConfig::new(9, 512);
    assert_eq!(c.chunk_sectors, 8192);
    assert_eq!(c.nonce, 9);
    assert_eq!(c.range, None);
    assert_eq!(c.pattern, PatternKind::Pseudorandom);
    assert_eq!(c.retention_delay_secs, 0);
}

#[test]
fn the_two_phases_run_apart_give_the_same_map_as_one_run() {
    let mut card = SimulatedCard::with_fault(
        SS,
        4096,
        SimulatedFault::SilentCorruption { range: LbaRange::from_bounds(100, 110) },
    );
    let scanner = Scanner::new(config(), CancellationToken::new());
    let pending = scanner.write_phase(&mut card, &mut SilentObserver).unwrap();
    let split = scanner.verify_phase(pending, &mut card, &mut SilentObserver).unwrap();

    let mut again = SimulatedCard::with_fault(
        SS,
        4096,
        SimulatedFault::SilentCorruption { range: LbaRange::from_bounds(100, 110) },
    );
    let whole = scan(&mut again);
    assert_eq!(split.map, whole.map);
    assert_eq!(split.map.counts().corrupt, 10);
}

#[test]
fn a_range_past_the_end_is_clipped_to_the_device() {
    let mut card = SimulatedCard::healthy(SS, 4096);
    let cfg = ScanConfig { range: Some(LbaRange::from_bounds(3000, 9000)), ..config() };
    let out = Scanner::new(cfg, CancellationToken::new())
        .run(&mut card, &mut SilentObserver)
        .unwrap();
    assert_eq!(out.map.counts().good, 1096);
    assert_eq!(out.map.counts().untested, 3000);
}

#[test]
fn a_range_wholly_past_the_end_completes_without_touching_the_device() {
    let mut card = SimulatedCard::healthy(SS, 1024);
    let cfg = ScanConfig { range: Some(LbaRange::from_bounds(2000, 3000)), ..config() };
    let token = CancellationToken::new();
    token.cancel();
    let out = Scanner::new(cfg, token)
        .run(&mut card, &mut SilentObserver)
        .expect("nothing lies on the device, so nothing can fail");
    assert_eq!(out.map.counts().untested, 1024);
    assert_eq!(out.map.counts().good, 0);
}
