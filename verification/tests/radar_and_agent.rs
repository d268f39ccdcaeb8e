use vanguard::interceptor::InterceptorRuntimeState;
use vanguard::orchestrator::Assignment;
use vanguard::platform::{Interceptor, InterceptorState};
use vanguard::radar::{Sighting, SightingLog};

fn sighting(id: u128, in_reach: bool, seen: u32) -> Sighting<u32> {
    Sighting { id, in_reach, seen }
}

#[test]
fn threats_out_of_reach_are_not_reported() {
    let mut log: SightingLog<u32> = SightingLog::new();
    let contacts = log.sweep(&vec![sighting(1, true, 5), sighting(2, false, 6), sighting(3, true, 7)]);
    let ids: Vec<u128> = contacts.iter().map(|c| c.id).collect();
    assert_eq!(ids, vec![1, 3]);
    assert!(contacts.iter().all(|c| c.previous.is_none()));
    assert_eq!(log.last_seen(1), Some(5));
    assert_eq!(log.last_seen(2), None);
    assert_eq!(log.last_seen(3), Some(7));
}

#[test]
fn a_second_sweep_reports_the_previous_sighting() {
    let mut log: SightingLog<u32> = SightingLog::new();
    log.sweep(&vec![sighting(1, true, 5), sighting(2, true, 6)]);
    let contacts = log.sweep(&vec![sighting(1, true, 9), sighting(2, false, 10)]);
    assert_eq!(contacts.len(), 1);
    assert_eq!(contacts[0].id, 1);
    assert_eq!(contacts[0].previous, Some(5));
    assert_eq!(log.last_seen(1), Some(9));
    // Out of reach but still present: the old sighting is kept.
    assert_eq!(log.last_seen(2), Some(6));
}

#[test]
fn threats_gone_from_the_sweep_are_forgotten() {
    let mut log: SightingLog<u32> = SightingLog::new();
    log.sweep(&vec![sighting(1, true, 5), sighting(2, true, 6)]);
    let contacts = log.sweep(&vec![sighting(2, true, 8)]);
    assert_eq!(contacts[0].previous, Some(6));
    assert_eq!(log.last_seen(1), None);
    assert_eq!(log.last_seen(2), Some(8));
    // A forgotten threat seen again starts afresh.
    let contacts = log.sweep(&vec![sighting(1, true, 11)]);
    assert_eq!(contacts[0].previous, None);
}

#[test]
fn repeated_sightings_in_one_sweep_chain() {
    let mut log: SightingLog<u32> = SightingLog::new();
    let contacts = log.sweep(&vec![sighting(4, true, 1), sighting(4, true, 2)]);
    assert_eq!(contacts[0].previous, None);
    assert_eq!(contacts[1].previous, Some(1));
    assert_eq!(log.last_seen(4), Some(2));
}

#[test]
fn a_new_agent_has_no_target_or_track() {
    let interceptor = Interceptor { id: 9, position: 3u32, state: InterceptorState::Idle, assigned_track: None };
    let s: InterceptorRuntimeState<u32, u32> = InterceptorRuntimeState::new(interceptor, 0);
    assert_eq!(s.interceptor.id, 9);
    assert_eq!(s.platform_id, 0);
    assert_eq!(s.target_id, None);
    assert_eq!(s.tracks.len(), 0);
    let s: InterceptorRuntimeState<u32, u32> = InterceptorRuntimeState::new(interceptor, 77);
    assert_eq!(s.platform_id, 77);
    assert_eq!(s.target_id, None);
    assert_eq!(s.tracks.len(), 0);
}

#[test]
fn assignments_compare_by_their_ids() {
    let a = Assignment { platform_id: 1, interceptor_id: 2, track_id: 3 };
    assert_eq!(a, Assignment { platform_id: 1, interceptor_id: 2, track_id: 3 });
    assert_ne!(a, Assignment { platform_id: 1, interceptor_id: 2, track_id: 4 });
}
