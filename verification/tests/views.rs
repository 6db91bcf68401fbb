use salvage::geometry::LbaRange;
use salvage::health::{Assurance, FailureScenario, HealthReport};
use salvage::sector_map::SectorCounts;
use salvage::views::{ReportDetail, ReportView};

fn report(scenario: FailureScenario, assurance: Assurance) -> HealthReport {
    HealthReport {
        scenario,
        assurance,
        counts: SectorCounts::zero(),
        largest_usable_sectors: 2048,
        largest_defect_free: LbaRange::from_bounds(0, 2048),
        isolation_is_worthwhile: true,
    }
}

#[test]
fn a_report_carries_measurements_and_identifiers_only() {
    let r = report(
        FailureScenario::CounterfeitCapacity {
            real_capacity_sectors: 1024,
            reported_capacity_sectors: 4096,
            evidence_count: 7,
        },
        Assurance::High,
    );
    let v = ReportView::from(&r, 512);
    assert_eq!(v.scenario_kind, "counterfeit_capacity");
    assert_eq!(v.assurance, "high");
    assert!(v.isolation_worthwhile);
    assert_eq!(v.largest_usable_bytes, 2048 * 512);
    assert_eq!(
        v.details,
        vec![
            ReportDetail::AnnouncedCapacity { sectors: 4096 },
            ReportDetail::RealCapacity { sectors: 1024 },
            ReportDetail::AliasEvidence { count: 7 },
        ]
    );
}

#[test]
fn an_incomplete_scan_names_defects_only_when_there_are_some() {
    let none = ReportView::from(
        &report(FailureScenario::NotProven { unverified_sectors: 10, defect_regions: 0 }, Assurance::NoBasis),
        512,
    );
    assert_eq!(none.details, vec![ReportDetail::UnverifiedArea { sectors: 10 }]);
    let some = ReportView::from(
        &report(FailureScenario::NotProven { unverified_sectors: 10, defect_regions: 2 }, Assurance::NoBasis),
        512,
    );
    assert_eq!(
        some.details,
        vec![ReportDetail::UnverifiedArea { sectors: 10 }, ReportDetail::DefectRegions { count: 2 }]
    );
    let pristine = ReportView::from(&report(FailureScenario::Pristine, Assurance::High), 512);
    assert!(pristine.details.is_empty());
}

fn card(volumes: Vec<salvage::device::VolumeInfo>) -> salvage::device::DeviceInfo {
    salvage::device::DeviceInfo {
        path: "\\\\.\\PhysicalDrive9".into(),
        index: 9,
        model: "SDXC".into(),
        vendor: "Generic".into(),
        serial: Some("S1".into()),
        bus_type: salvage::device::BusType::Sd,
        removable_media: true,
        geometry: salvage::geometry::DeviceGeometry::new(512, 1_000_000).unwrap(),
        volumes,
    }
}

fn volume(letter: Option<char>, system: bool) -> salvage::device::VolumeInfo {
    salvage::device::VolumeInfo {
        drive_letter: letter,
        label: None,
        filesystem: None,
        is_system_volume: system,
        is_boot_volume: false,
    }
}

#[test]
fn a_device_view_names_volumes_by_letter_or_key() {
    let d = card(vec![volume(Some('E'), false), volume(None, false)]);
    let v = salvage::views::DeviceView::from(&d, &salvage::safety::SafetyPolicy::default());
    assert_eq!(v.volumes, vec!["E:".to_string(), "spec.unlettered".to_string()]);
    assert_eq!(v.name, d.display_name());
    assert_eq!(v.total_sectors, 1_000_000);
    assert_eq!(v.capacity_bytes, 512_000_000);
    assert!(!v.is_blocked());
}

#[test]
fn the_system_disk_is_shown_as_blocked() {
    let d = card(vec![volume(Some('C'), true)]);
    let v = salvage::views::DeviceView::from(&d, &salvage::safety::SafetyPolicy::default());
    assert_eq!(v.verdict, "blocked");
    assert!(v.is_blocked());
    assert!(!v.blocks.is_empty());
}
