use salvage::device::{BusType, DeviceInfo};
use salvage::geometry::{DeviceGeometry, LbaRange};
use salvage::mbr::PriorLayout;
use salvage::planner::{plan_layouts, FileSystem, PlanningPolicy};
use salvage::safety::{ConfirmationError, SafetyPolicy};
use salvage::sector_map::{SectorMap, SectorState};
use salvage::session::{authorise_session_apply, consent_key, AppState, SessionRefusal};

fn device(sectors: u64) -> DeviceInfo {
    DeviceInfo {
        path: "\\\\.\\PhysicalDrive9".into(),
        index: 9,
        model: "SDXC".into(),
        vendor: "Generic".into(),
        serial: Some("S1".into()),
        bus_type: BusType::Sd,
        removable_media: true,
        geometry: DeviceGeometry::new(512, sectors).unwrap(),
        volumes: vec![],
    }
}

fn inspected_state(verified_now: bool) -> AppState {
    let d = device(1_000_000);
    let mut map = SectorMap::new(d.geometry);
    map.mark(LbaRange::from_bounds(0, 1_000_000), SectorState::Good);
    let plans = plan_layouts(&map, FileSystem::ExFat, &PlanningPolicy::recommended_for(&d.geometry));
    let mut s = AppState::default();
    s.selected = Some(d);
    s.map = Some(map);
    s.plans = plans;
    s.verified_now = verified_now;
    s
}

#[test]
fn a_request_without_a_card_plan_or_map_is_refused_in_that_order() {
    let empty = AppState::default();
    let r = authorise_session_apply(&empty, 0, "Generic SDXC", &SafetyPolicy::default());
    assert!(matches!(r, Err(SessionRefusal::NoDevice)));

    let mut s = inspected_state(true);
    let r = authorise_session_apply(&s, 99, "Generic SDXC", &SafetyPolicy::default());
    assert!(matches!(r, Err(SessionRefusal::NoPlan)));

    s.map = None;
    let r = authorise_session_apply(&s, 0, "Generic SDXC", &SafetyPolicy::default());
    assert!(matches!(r, Err(SessionRefusal::NoMap)));
}

#[test]
fn a_map_adopted_from_a_record_never_authorises_a_write() {
    let s = inspected_state(false);
    let name = s.selected.as_ref().unwrap().display_name();
    let r = authorise_session_apply(&s, 0, &name, &SafetyPolicy::default());
    match r {
        Err(e) => {
            assert!(matches!(e, SessionRefusal::StaleMap));
            assert_eq!(e.key(), "err.stale_map");
        }
        Ok(_) => panic!("a stale map must not authorise a write"),
    }
}

#[test]
fn a_map_measured_today_and_the_right_name_authorise_the_plan() {
    let s = inspected_state(true);
    let name = s.selected.as_ref().unwrap().display_name();
    let r = authorise_session_apply(&s, 0, &name, &SafetyPolicy::default());
    match r {
        Ok(q) => {
            assert_eq!(q.plan, &s.plans[0]);
            assert!(q.consent.matches(s.selected.as_ref().unwrap()));
        }
        Err(e) => panic!("unexpected refusal: {e:?}"),
    }
    let wrong = authorise_session_apply(&s, 0, "some other card", &SafetyPolicy::default());
    match wrong {
        Err(e) => assert_eq!(e.key(), "err.name_mismatch"),
        Ok(_) => panic!("a wrong name must not authorise a write"),
    }
}

#[test]
fn consent_refusals_have_their_own_keys() {
    assert_eq!(consent_key(&ConfirmationError::DeviceBlocked), "err.device_blocked");
    let e = ConfirmationError::NameMismatch { typed: "x".into(), expected: "y".into() };
    assert_eq!(consent_key(&e), "err.name_mismatch");
}

#[test]
fn after_a_layout_the_view_follows_its_data_area() {
    let d = device(1_000_000);
    let mut s = AppState::default();
    let prior = PriorLayout {
        quarantined: vec![LbaRange::from_bounds(2048, 4096)],
        data: vec![LbaRange::from_bounds(4096, 600_000), LbaRange::from_bounds(700_000, 2_000_000)],
    };
    s.after_apply(&d, Some(prior));
    assert_eq!(s.view_span, Some(LbaRange::from_bounds(4096, 1_000_000)));

    s.after_apply(&d, None);
    assert_eq!(s.view_span, None);
    assert!(s.prior.is_none());
}
