use vanguard::kinds::TrackStatus;
use vanguard::platform::{
    DetectOutcome, Interceptor, InterceptorState, NeighborChange, NeighborPlatform, PlatformEvent,
    PlatformInterceptor, PlatformState,
};

type State = PlatformState<u32, u32, u32, u32, u32>;

fn interceptor(id: u128, state: InterceptorState<u32>) -> Interceptor<u32> {
    Interceptor { id, position: 0, state, assigned_track: None }
}

fn platform(neighbors: Vec<NeighborPlatform<u32, u32>>) -> State {
    PlatformState::new(PlatformInterceptor {
        id: 1,
        name: String::from("alpha"),
        position: 42,
        reach: 9,
        interceptors: vec![interceptor(50, InterceptorState::Destroyed), interceptor(51, InterceptorState::Idle), interceptor(52, InterceptorState::Idle)],
        neighbor_platforms: neighbors,
    })
}

#[test]
fn new_platform_state() {
    let p = platform(vec![]);
    assert_eq!(p.id(), 1);
    assert_eq!(p.name(), "alpha");
    assert_eq!(p.position(), 42);
    assert_eq!(p.reach(), 9);
    assert_eq!(p.available_interceptors(), 2);
    assert!(p.tracks().is_empty());
}

#[test]
fn a_new_threat_in_reach_is_engaged_by_the_best_platform() {
    let mut p = platform(vec![]);
    let r = p.detect_threat(10, 3, 99, 7, true, &vec![]);
    assert_eq!(r, DetectOutcome { is_new_track: true, engaged_with: Some(51) });
    assert!(p.engaged(10));
    assert_eq!(p.threat(10), Some(99));
    let t = p.track(10).unwrap();
    assert_eq!(t.source_platforms, vec![1]);
    assert_eq!(t.status, TrackStatus::Detected);
    // Seen again: not new, not engaged twice.
    let r = p.detect_threat(10, 4, 98, 8, true, &vec![]);
    assert_eq!(r, DetectOutcome { is_new_track: false, engaged_with: None });
    assert_eq!(p.track(10).unwrap().threat_level, 4);
    assert_eq!(p.track(10).unwrap().kinematics, 8);
}

#[test]
fn a_closer_neighbor_with_interceptors_takes_the_threat() {
    let mut p = platform(vec![NeighborPlatform { id: 2, position: 0, reach: 1, interceptors_remaining: 1 }]);
    assert!(!p.is_best_platform(true, &vec![false]));
    let r = p.detect_threat(10, 3, 99, 7, true, &vec![false]);
    assert_eq!(r.engaged_with, None);
    assert!(!p.engaged(10));
}

#[test]
fn an_empty_closer_neighbor_does_not_count() {
    let p = platform(vec![NeighborPlatform { id: 2, position: 0, reach: 1, interceptors_remaining: 0 }]);
    assert!(p.is_best_platform(true, &vec![false]));
    assert!(!p.is_best_platform(false, &vec![true]));
}

#[test]
fn no_idle_interceptor_no_engagement() {
    let mut p = PlatformState::<u32, u32, u32, u32, u32>::new(PlatformInterceptor {
        id: 1,
        name: String::from("b"),
        position: 0,
        reach: 1,
        interceptors: vec![interceptor(50, InterceptorState::Intercepting(3))],
        neighbor_platforms: vec![],
    });
    assert_eq!(p.engage_threat(10), None);
    assert!(!p.engaged(10));
}

#[test]
fn neighbor_reports() {
    let mut p = platform(vec![]);
    assert_eq!(p.handle_neighbor_update(1, 5, 3, 5), NeighborChange::Ignored);
    assert_eq!(p.handle_neighbor_update(2, 5, 3, 5), NeighborChange::Added);
    assert_eq!(p.handle_neighbor_update(2, 6, 4, 0), NeighborChange::Updated);
    assert_eq!(p.neighbors().len(), 1);
    assert_eq!(p.neighbors()[0].position, 6);
    assert_eq!(p.neighbors()[0].reach, 4);
    assert_eq!(p.neighbors()[0].interceptors_remaining, 0);
}

#[test]
fn engaged_elsewhere_then_destroyed() {
    let mut p = platform(vec![]);
    p.handle_threat_detected(10, 1, 7);
    p.handle_message(PlatformEvent::ThreatEngaged { threat_id: 10, interceptor_id: 51 });
    assert!(p.engaged(10));
    assert_eq!(p.track(10).unwrap().status, TrackStatus::Engaged);
    p.handle_message(PlatformEvent::ThreatDestroyed { threat_id: 10, interceptor_id: 50 });
    assert!(!p.engaged(10));
    assert!(p.track(10).is_none());
    match p.interceptors()[0].state {
        InterceptorState::Idle => {},
        _ => panic!("interceptor 50 should be idle again"),
    }
    assert_eq!(p.available_interceptors(), 3);
}

#[test]
fn track_reports_from_the_network() {
    let mut p = platform(vec![]);
    p.handle_threat_detected(10, 1, 7);
    p.handle_track_updated(10, TrackStatus::Engaged, Some(9));
    assert!(p.engaged(10));
    assert_eq!(p.track(10).unwrap().engaged_by, Some(9));
    p.handle_track_updated(10, TrackStatus::Destroyed, None);
    assert!(!p.engaged(10));
    assert!(p.track(10).is_none());
}

#[test]
fn interceptor_reports() {
    let mut p = platform(vec![]);
    p.handle_interceptor_update(Interceptor { id: 52, position: 9, state: InterceptorState::Searching(4), assigned_track: Some(4) });
    assert_eq!(p.interceptors()[2].position, 9);
    assert_eq!(p.available_interceptors(), 1);
    assert!(p.known_interceptor(52).is_some());
    p.handle_interceptor_update(Interceptor { id: 99, position: 1, state: InterceptorState::Idle, assigned_track: None });
    assert_eq!(p.interceptors().len(), 3);
    assert_eq!(p.known_interceptor(99).unwrap().position, 1);
}

#[test]
fn kinematics_advance() {
    let mut p = platform(vec![]);
    p.handle_threat_detected(10, 1, 7);
    p.set_track_kinematics(10, 8);
    assert_eq!(p.track(10).unwrap().kinematics, 8);
    p.handle_message(PlatformEvent::Other);
    assert_eq!(p.tracks().len(), 1);
}

#[test]
fn a_destroyed_threat_leaves_no_track_and_the_platform_keeps_its_name() {
    let mut p = platform(vec![]);
    p.detect_threat(10, 3, 99, 7, true, &vec![]);
    p.handle_threat_destroyed(10, 51);
    assert!(p.track(10).is_none());
    assert!(!p.engaged(10));
    assert_eq!(p.name(), "alpha");
    assert_eq!(p.position(), 42);
    assert_eq!(p.reach(), 9);
    p.detect_threat(11, 3, 99, 7, true, &vec![]);
    p.handle_track_updated(11, TrackStatus::Destroyed, None);
    assert!(p.track(11).is_none());
    assert_eq!(p.name(), "alpha");
}
