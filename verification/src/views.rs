//! What the window is told about a diagnosis: classifications and
//! measurements, never a sentence. The window owns the wording.
use vstd::prelude::*;
use vstd::string::StringExecFns;

use crate::device::{bus_name, display_name_of, DeviceInfo, VolumeInfo};
use crate::geometry::sat_mul;
use crate::health::{assurance_name, scenario_kind, FailureScenario, HealthReport};
use crate::safety::{evaluate, verdict_holds, SafetyBlock, SafetyPolicy, SafetyVerdict, SafetyWarning};
use crate::text::{has_prefix, push_char, starts_with};

verus! {

/// A measurement supporting a diagnosis, with its figures.
#[derive(Debug, Clone, PartialEq, Eq)]
pub enum ReportDetail {
    /// Capacity the card claims.
    AnnouncedCapacity { sectors: u64 },
    /// Capacity it actually has.
    RealCapacity { sectors: u64 },
    /// Addresses that served another address's content.
    AliasEvidence { count: usize },
    /// Distinct defective regions.
    DefectRegions { count: usize },
    /// The second pass found the same defects in the same places.
    SecondPassIdentical,
    /// Sectors that passed the first pass and failed the second.
    NewlyFailedSectors { sectors: u64 },
    /// Regions that appeared between the two passes.
    NewRegions { count: usize },
    /// Area the inspection never reached.
    UnverifiedArea { sectors: u64 },
    /// Only one pass ran, which cannot judge stability.
    OnePassOnly,
}

/// The measurements behind each scenario, in the order the window shows them.
pub open spec fn details_of(s: FailureScenario) -> Seq<ReportDetail> {
    match s {
        FailureScenario::Pristine => Seq::empty(),
        FailureScenario::CounterfeitCapacity { real_capacity_sectors, reported_capacity_sectors, evidence_count } => seq![
            ReportDetail::AnnouncedCapacity { sectors: reported_capacity_sectors },
            ReportDetail::RealCapacity { sectors: real_capacity_sectors },
            ReportDetail::AliasEvidence { count: evidence_count },
        ],
        FailureScenario::ExhaustedSpare { defect_regions } => seq![
            ReportDetail::DefectRegions { count: defect_regions },
            ReportDetail::SecondPassIdentical,
        ],
        FailureScenario::ActivelyDegrading { newly_failed_sectors, newly_failed_regions } => seq![
            ReportDetail::NewlyFailedSectors { sectors: newly_failed_sectors },
            ReportDetail::NewRegions { count: newly_failed_regions@.len() as usize },
        ],
        FailureScenario::NotProven { unverified_sectors, defect_regions } => if defect_regions > 0 {
            seq![
                ReportDetail::UnverifiedArea { sectors: unverified_sectors },
                ReportDetail::DefectRegions { count: defect_regions },
            ]
        } else {
            seq![ReportDetail::UnverifiedArea { sectors: unverified_sectors }]
        },
        FailureScenario::Indeterminate { defect_regions } => seq![
            ReportDetail::DefectRegions { count: defect_regions },
            ReportDetail::OnePassOnly,
        ],
    }
}

/// A diagnosis as the window receives it.
#[derive(Debug, Clone)]
pub struct ReportView {
    /// Stable scenario identifier; the window maps it to wording.
    pub scenario_kind: String,
    /// Stable assurance identifier.
    pub assurance: String,
    /// Whether fencing is worth offering.
    pub isolation_worthwhile: bool,
    /// Largest verified-good area, in bytes.
    pub largest_usable_bytes: u64,
    /// The measurements behind the verdict.
    pub details: Vec<ReportDetail>,
}

impl ReportView {
    /// Builds the view of `report` for a card of `sector_size`-byte sectors:
    /// measurements only.
    pub fn from(report: &HealthReport, sector_size: u32) -> (r: Self)
        requires
            report.largest_usable_sectors * sector_size <= u64::MAX,
        ensures
            r.scenario_kind@ == scenario_kind(report.scenario)@,
            r.assurance@ == assurance_name(report.assurance)@,
            r.isolation_worthwhile == report.isolation_is_worthwhile,
            r.largest_usable_bytes == report.largest_usable_sectors * sector_size,
            r.details@ == details_of(report.scenario),
    {
        let mut details: Vec<ReportDetail> = Vec::new();
        match &report.scenario {
            FailureScenario::Pristine => {},
            FailureScenario::CounterfeitCapacity { real_capacity_sectors, reported_capacity_sectors, evidence_count } => {
                details.push(ReportDetail::AnnouncedCapacity { sectors: *reported_capacity_sectors });
                details.push(ReportDetail::RealCapacity { sectors: *real_capacity_sectors });
                details.push(ReportDetail::AliasEvidence { count: *evidence_count });
            },
            FailureScenario::ExhaustedSpare { defect_regions } => {
                details.push(ReportDetail::DefectRegions { count: *defect_regions });
                details.push(ReportDetail::SecondPassIdentical);
            },
            FailureScenario::ActivelyDegrading { newly_failed_sectors, newly_failed_regions } => {
                details.push(ReportDetail::NewlyFailedSectors { sectors: *newly_failed_sectors });
                details.push(ReportDetail::NewRegions { count: newly_failed_regions.len() });
            },
            FailureScenario::NotProven { unverified_sectors, defect_regions } => {
                details.push(ReportDetail::UnverifiedArea { sectors: *unverified_sectors });
                if *defect_regions > 0 {
                    details.push(ReportDetail::DefectRegions { count: *defect_regions });
                }
            },
            FailureScenario::Indeterminate { defect_regions } => {
                details.push(ReportDetail::DefectRegions { count: *defect_regions });
                details.push(ReportDetail::OnePassOnly);
            },
        }
        proof {
            assert(details@ =~= details_of(report.scenario));
        }
        ReportView {
            scenario_kind: String::from_str(report.scenario.kind()),
            assurance: String::from_str(report.assurance.as_str()),
            isolation_worthwhile: report.isolation_is_worthwhile,
            largest_usable_bytes: report.largest_usable_sectors * sector_size as u64,
            details,
        }
    }
}

/// The stable identifier of a safety verdict.
pub open spec fn verdict_name(v: SafetyVerdict) -> Seq<char> {
    match v {
        SafetyVerdict::Allowed => "allowed"@,
        SafetyVerdict::NeedsConfirmation { .. } => "needs_confirmation"@,
        SafetyVerdict::Blocked { .. } => "blocked"@,
    }
}

/// How a volume is named to the window: its drive letter and a colon, or a
/// key for the window to word when it has none.
pub open spec fn volume_key(v: VolumeInfo) -> Seq<char> {
    match v.drive_letter {
        Some(c) => seq![c, ':'],
        None => "spec.unlettered"@,
    }
}

/// A device as the window receives it: classifications, never prose.
#[derive(Debug, Clone)]
pub struct DeviceView {
    pub path: String,
    pub index: u32,
    pub name: String,
    pub bus: String,
    pub removable: bool,
    pub capacity_bytes: u64,
    pub sector_size: u32,
    pub total_sectors: u64,
    pub volumes: Vec<String>,
    pub verdict: String,
    /// Absolute impediments, if any.
    pub blocks: Vec<SafetyBlock>,
    /// Risks the user may knowingly accept.
    pub warnings: Vec<SafetyWarning>,
}

impl DeviceView {
    /// Whether safety refused this device outright.
    pub fn is_blocked(&self) -> (r: bool)
        ensures
            r == (self.verdict@ == "blocked"@),
    {
        proof {
            reveal_strlit("blocked");
        }
        let r = self.verdict.as_str().unicode_len() == 7 && starts_with(self.verdict.as_str(), "blocked");
        proof {
            if self.verdict@.len() == 7 && has_prefix(self.verdict@, "blocked"@) {
                assert(self.verdict@ =~= "blocked"@);
            }
            if self.verdict@ == "blocked"@ {
                assert(self.verdict@.subrange(0, 7) =~= "blocked"@);
            }
        }
        r
    }

    /// Builds the view of `device` under `policy`.
    pub fn from(device: &DeviceInfo, policy: &SafetyPolicy) -> (r: Self)
        ensures
            r.path@ == device.path@,
            r.index == device.index,
            r.name@ == display_name_of(device.model@, device.vendor@),
            r.bus@ == bus_name(device.bus_type)@,
            r.removable == device.removable_media,
            r.capacity_bytes == sat_mul(device.geometry.total_sectors(), device.geometry.sector_size() as u64),
            r.sector_size == device.geometry.sector_size(),
            r.total_sectors == device.geometry.total_sectors(),
            r.volumes@.len() == device.volumes@.len(),
            forall|i: int| 0 <= i < r.volumes@.len() ==> #[trigger] r.volumes@[i]@ == volume_key(device.volumes@[i]),
            exists|v: SafetyVerdict|
                verdict_holds(*device, *policy, v) && #[trigger] verdict_name(v) == r.verdict@ && r.blocks@ == (
                match v {
                    SafetyVerdict::Blocked { reasons } => reasons@,
                    _ => Seq::<SafetyBlock>::empty(),
                }) && r.warnings@ == (match v {
                    SafetyVerdict::NeedsConfirmation { warnings } => warnings@,
                    _ => Seq::<SafetyWarning>::empty(),
                }),
    {
        let v = evaluate(device, policy);
        let ghost gv = v;
        let (verdict, blocks, warnings) = match v {
            SafetyVerdict::Allowed => {
                proof {
                    reveal_strlit("allowed");
                }
                (String::from_str("allowed"), Vec::new(), Vec::new())
            },
            SafetyVerdict::NeedsConfirmation { warnings } => {
                proof {
                    reveal_strlit("needs_confirmation");
                }
                (String::from_str("needs_confirmation"), Vec::new(), warnings)
            },
            SafetyVerdict::Blocked { reasons } => {
                proof {
                    reveal_strlit("blocked");
                }
                (String::from_str("blocked"), reasons, Vec::new())
            },
        };
        let mut volumes: Vec<String> = Vec::new();
        let mut i: usize = 0;
        while i < device.volumes.len()
            invariant
                i <= device.volumes@.len(),
                volumes@.len() == i,
                forall|j: int| 0 <= j < i ==> #[trigger] volumes@[j]@ == volume_key(device.volumes@[j]),
            decreases device.volumes@.len() - i,
        {
            let key = match device.volumes[i].drive_letter {
                Some(c) => {
                    let mut k = String::new();
                    push_char(&mut k, c);
                    push_char(&mut k, ':');
                    assert(k@ =~= seq![c, ':']);
                    k
                },
                None => {
                    proof {
                        reveal_strlit("spec.unlettered");
                    }
                    String::from_str("spec.unlettered")
                },
            };
            volumes.push(key);
            i = i + 1;
        }
        let r = DeviceView {
            path: String::from_str(device.path.as_str()),
            index: device.index,
            name: device.display_name(),
            bus: String::from_str(device.bus_type.as_str()),
            removable: device.removable_media,
            capacity_bytes: device.capacity_bytes(),
            sector_size: device.geometry.sector_size(),
            total_sectors: device.geometry.total_sectors(),
            volumes,
            verdict,
            blocks,
            warnings,
        };
        proof {
            assert(verdict_holds(*device, *policy, gv) && verdict_name(gv) == r.verdict@);
        }
        r
    }
}

} // verus!
