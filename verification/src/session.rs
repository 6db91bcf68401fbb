//! What a session holds, and the rules that decide what may be written from it.
//!
//! One card, one map, one diagnosis, one set of layouts, and the booleans that
//! govern them. `verified_now` is the one worth reading twice: it is false for
//! a map adopted from a stored record, and a layout is never written from a map
//! in that state. A record says where to look, never that the area is still
//! good.
use vstd::prelude::*;

use crate::device::{display_name_of, fingerprint_of, DeviceInfo};
use crate::geometry::{max_u64, min_u64, LbaRange};
use crate::health::HealthReport;
use crate::history::CardRecord;
use crate::mbr::PriorLayout;
use crate::planner::PartitionPlan;
use crate::safety::{expected_blocks, ConfirmationError, DestructiveConsent, SafetyPolicy};
use crate::text::{same_ignoring_ascii_case, trimmed};
use crate::scan::CancellationToken;
use crate::sector_map::SectorMap;

verus! {

/// The state of one session of the program.
#[derive(Default)]
pub struct AppState {
    /// Devices found by the last enumeration.
    pub devices: Vec<DeviceInfo>,
    /// The card being worked on.
    pub selected: Option<DeviceInfo>,
    /// The working map of the selected card.
    pub map: Option<SectorMap>,
    /// The map of an earlier pass over the same card, for comparison.
    pub baseline: Option<SectorMap>,
    /// The diagnosis of the working map.
    pub report: Option<HealthReport>,
    /// The layouts offered for the working map.
    pub plans: Vec<PartitionPlan>,
    /// Consent given for the selected card.
    pub consent: Option<DestructiveConsent>,
    /// Signal that stops a running inspection.
    pub cancel: CancellationToken,
    /// Whether an inspection is running.
    pub scanning: bool,
    /// Layout found on the selected card, read from its own partition table.
    pub prior: Option<PriorLayout>,
    /// Interval the inspection and the window are about; `None` is the whole
    /// device.
    pub view_span: Option<LbaRange>,
    /// What an earlier session measured about the selected card.
    pub remembered: Option<CardRecord>,
    /// Whether the working map was produced by an inspection in this session.
    /// False when it came from a record: such a map describes the card as it
    /// was, and no data partition is written from it.
    pub verified_now: bool,
}

/// Why a request to write a layout is refused before anything is opened.
#[derive(Debug)]
pub enum SessionRefusal {
    /// No card is selected.
    NoDevice,
    /// No layout has that index.
    NoPlan,
    /// The card has not been inspected.
    NoMap,
    /// The working map was not measured in this session.
    StaleMap,
    /// Consent could not be issued from the name typed.
    Consent(ConfirmationError),
}

/// The key of the message shown for a consent refusal.
pub open spec fn consent_key_of(e: ConfirmationError) -> Seq<char> {
    match e {
        ConfirmationError::DeviceBlocked => "err.device_blocked"@,
        ConfirmationError::NameMismatch { .. } => "err.name_mismatch"@,
    }
}

/// The key of the message shown when consent is refused.
pub fn consent_key(e: &ConfirmationError) -> (r: &'static str)
    ensures
        r@ == consent_key_of(*e),
{
    match e {
        ConfirmationError::DeviceBlocked => {
            proof {
                reveal_strlit("err.device_blocked");
            }
            "err.device_blocked"
        },
        ConfirmationError::NameMismatch { .. } => {
            proof {
                reveal_strlit("err.name_mismatch");
            }
            "err.name_mismatch"
        },
    }
}

/// The key of the message shown for each refusal.
pub open spec fn refusal_key(r: SessionRefusal) -> Seq<char> {
    match r {
        SessionRefusal::NoDevice => "err.no_device"@,
        SessionRefusal::NoPlan => "err.no_plan"@,
        SessionRefusal::NoMap => "err.no_map"@,
        SessionRefusal::StaleMap => "err.stale_map"@,
        SessionRefusal::Consent(e) => consent_key_of(e),
    }
}

impl SessionRefusal {
    /// The key of the message the window shows for this refusal.
    pub fn key(&self) -> (r: &'static str)
        ensures
            r@ == refusal_key(*self),
    {
        match self {
            SessionRefusal::NoDevice => {
                proof {
                    reveal_strlit("err.no_device");
                }
                "err.no_device"
            },
            SessionRefusal::NoPlan => {
                proof {
                    reveal_strlit("err.no_plan");
                }
                "err.no_plan"
            },
            SessionRefusal::NoMap => {
                proof {
                    reveal_strlit("err.no_map");
                }
                "err.no_map"
            },
            SessionRefusal::StaleMap => {
                proof {
                    reveal_strlit("err.stale_map");
                }
                "err.stale_map"
            },
            SessionRefusal::Consent(e) => consent_key(e),
        }
    }
}

/// Everything a layout is written from, once the session allows it.
pub struct ApplyRequest<'a> {
    /// The selected card.
    pub device: &'a DeviceInfo,
    /// The chosen layout.
    pub plan: &'a PartitionPlan,
    /// The map measured in this session.
    pub map: &'a SectorMap,
    /// Consent issued now, from the name typed now.
    pub consent: DestructiveConsent,
}

/// Checks, in order, that a card is selected, that the layout exists, that
/// the card was inspected and inspected in this session, and issues consent
/// from the name typed now: approving the inspection does not count as
/// approving the repartitioning. Nothing is opened on any refusal.
pub fn authorise_session_apply<'a>(
    s: &'a AppState,
    plan_index: usize,
    typed: &str,
    policy: &SafetyPolicy,
) -> (r: Result<ApplyRequest<'a>, SessionRefusal>)
    ensures
        s.selected is None ==> r matches Err(SessionRefusal::NoDevice),
        s.selected is Some && plan_index >= s.plans@.len() ==> r matches Err(SessionRefusal::NoPlan),
        s.selected is Some && plan_index < s.plans@.len() && s.map is None ==> r matches Err(SessionRefusal::NoMap),
        s.selected is Some && plan_index < s.plans@.len() && s.map is Some && !s.verified_now ==> r matches Err(
            SessionRefusal::StaleMap,
        ),
        s.selected is Some && plan_index < s.plans@.len() && s.map is Some && s.verified_now ==> ({
            let d = s.selected->Some_0;
            let named = same_ignoring_ascii_case(trimmed(typed@), trimmed(display_name_of(d.model@, d.vendor@)));
            &&& expected_blocks(d, *policy).len() > 0 ==> (r matches Err(
                SessionRefusal::Consent(ConfirmationError::DeviceBlocked),
            ))
            &&& expected_blocks(d, *policy).len() == 0 && !named ==> (r matches Err(
                SessionRefusal::Consent(ConfirmationError::NameMismatch { .. }),
            ))
            &&& expected_blocks(d, *policy).len() == 0 && named ==> (r matches Ok(q) && *q.device == d && *q.plan
                == s.plans@[plan_index as int] && *q.map == s.map->Some_0 && q.consent.spec_fingerprint()
                == fingerprint_of(d) && q.consent.spec_path() == d.path@)
        }),
        r is Ok ==> s.verified_now,
{
    let device = match &s.selected {
        Some(d) => d,
        None => return Err(SessionRefusal::NoDevice),
    };
    if plan_index >= s.plans.len() {
        return Err(SessionRefusal::NoPlan);
    }
    let plan = &s.plans[plan_index];
    let map = match &s.map {
        Some(m) => m,
        None => return Err(SessionRefusal::NoMap),
    };
    if !s.verified_now {
        return Err(SessionRefusal::StaleMap);
    }
    match DestructiveConsent::issue(device, typed, policy) {
        Ok(consent) => Ok(ApplyRequest { device, plan, map, consent }),
        Err(e) => Err(SessionRefusal::Consent(e)),
    }
}

/// `s` is the smallest interval covering every range of `data`.
pub open spec fn covers_data(s: LbaRange, data: Seq<LbaRange>) -> bool {
    &&& forall|i: int| 0 <= i < data.len() ==> s.start() <= (#[trigger] data[i]).start() && data[i].end() <= s.end()
    &&& exists|i: int| 0 <= i < data.len() && s.start() == (#[trigger] data[i]).start()
    &&& exists|i: int| 0 <= i < data.len() && s.end() == (#[trigger] data[i]).end()
}

/// `v` is `s` restricted to `[0, total)`.
pub open spec fn clamped(v: LbaRange, s: LbaRange, total: u64) -> bool {
    if max_u64(s.start(), 0) < min_u64(s.end(), total) {
        v.start() == s.start() && v.end() == min_u64(s.end(), total)
    } else {
        v.start() == 0 && v.end() == 0
    }
}

impl AppState {
    /// Once a layout is on `device`, the session works on the area it left
    /// for data, read back off the card's own table as `prior`: the span of
    /// its data partitions, restricted to the device. Nothing else changes.
    pub fn after_apply(&mut self, device: &DeviceInfo, prior: Option<PriorLayout>)
        ensures
            final(self).prior == prior,
            final(self).map == old(self).map,
            final(self).plans == old(self).plans,
            final(self).selected == old(self).selected,
            final(self).verified_now == old(self).verified_now,
            (prior is None || prior->Some_0.data@.len() == 0) <==> final(self).view_span is None,
            final(self).view_span matches Some(v) ==> exists|s: LbaRange|
                covers_data(s, prior->Some_0.data@) && #[trigger] clamped(v, s, device.geometry.total_sectors()),
    {
        let mut span: Option<LbaRange> = None;
        let ghost mut w: LbaRange = LbaRange::spec_bounds(0, 0);
        if let Some(p) = &prior {
            if let Some(s) = p.data_span() {
                let full = device.geometry.full_range();
                let v = s.clamped_to(&full);
                proof {
                    w = s;
                }
                span = Some(v);
            }
        }
        proof {
            if span is Some {
                assert(covers_data(w, prior->Some_0.data@));
                assert(clamped(span->Some_0, w, device.geometry.total_sectors()));
            }
        }
        self.view_span = span;
        self.prior = prior;
    }
}

} // verus!
