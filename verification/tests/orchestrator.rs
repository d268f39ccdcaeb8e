use vanguard::kinds::TrackStatus;
use vanguard::orchestrator::OrchestratorState;
use vanguard::platform::{Interceptor, InterceptorState};

type State = OrchestratorState<u32, u32, u32, u32>;

#[test]
fn platforms_meet_their_neighbors() {
    let mut o: State = OrchestratorState::new();
    assert!(o.on_new_platform(1, 10, 500, &vec![]).is_empty());
    let n = o.on_new_platform(2, 20, 500, &vec![true]);
    assert_eq!(n.len(), 1);
    assert_eq!(n[0].id, 1);
    let n = o.on_new_platform(3, 30, 500, &vec![false, true]);
    assert_eq!(n.len(), 1);
    assert_eq!(n[0].id, 2);
    assert_eq!(o.platforms().len(), 3);
    assert_eq!(o.platform(3).unwrap().interceptors_remaining, 0);
}

#[test]
fn status_reports_of_known_platforms() {
    let mut o: State = OrchestratorState::new();
    o.on_new_platform(1, 10, 500, &vec![]);
    assert!(o.on_neighbor_update(1, 11, 4));
    assert_eq!(o.platform(1).unwrap().position, 11);
    // The registered reach is kept.
    assert_eq!(o.platform(1).unwrap().reach, 500);
    assert_eq!(o.platform(1).unwrap().interceptors_remaining, 4);
    assert!(!o.on_neighbor_update(2, 11, 4));
    assert!(o.platform(2).is_none());
}

#[test]
fn detections_engagements_and_kills() {
    let mut o: State = OrchestratorState::new();
    let t = o.on_threat_detected(10, 2, 1, &vec![], 5);
    assert_eq!(t.status, TrackStatus::Detected);
    let t = o.on_threat_engaged(10, 1).unwrap();
    assert_eq!(t.status, TrackStatus::Engaged);
    assert_eq!(t.engaged_by, Some(1));
    assert!(o.on_threat_engaged(11, 1).is_none());
    let t = o.on_threat_destroyed(10).unwrap();
    assert_eq!(t.status, TrackStatus::Destroyed);
    assert!(o.tracks().is_empty());
    assert!(o.on_threat_destroyed(10).is_none());
}

#[test]
fn stale_tracks_are_dropped() {
    let mut o: State = OrchestratorState::new();
    o.on_threat_detected(10, 2, 1, &vec![], 5);
    o.on_threat_detected(11, 2, 1, &vec![], 5);
    o.remove_tracks(&vec![10, 12]);
    let ts = o.tracks();
    assert_eq!(ts.len(), 1);
    assert_eq!(ts[0].threat_id, 11);
}

#[test]
fn interceptor_reports_are_filed() {
    let mut o: State = OrchestratorState::new();
    o.on_interceptor_update(1, Interceptor { id: 7, position: 3, state: InterceptorState::Idle, assigned_track: None });
    o.on_interceptor_update(2, Interceptor { id: 7, position: 4, state: InterceptorState::Idle, assigned_track: None });
    let all = o.interceptors();
    assert_eq!(all.len(), 1);
    assert_eq!(all[0].platform_id, 2);
    assert_eq!(all[0].interceptor.position, 4);
}

#[test]
fn a_second_platform_meets_the_first_both_ways() {
    let mut o: State = OrchestratorState::new();
    assert!(o.on_new_platform(1, 10, 500, &vec![]).is_empty());
    let n = o.on_new_platform(2, 20, 500, &vec![true]);
    assert_eq!(n.len(), 1);
    assert_eq!((n[0].id, n[0].position, n[0].reach, n[0].interceptors_remaining), (1, 10, 500, 0));
    let ids: Vec<u128> = o.platforms().iter().map(|p| p.id).collect();
    assert_eq!(ids, vec![1, 2]);
}
