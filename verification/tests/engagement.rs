use vanguard::engagement::{
    Assignment, Engagement, Engagements, Geometry, RadarInfo, Range, Reach, ShotOutcome, ThreatInfo,
    HYST_BONUS, MAX_IN_FLIGHT, REACHABLE_BASE, UNREACHABLE, mover_score, tube_score,
};

fn radar(id: u128, ammo: usize, pos: u32) -> RadarInfo<u32> {
    RadarInfo { id, ammo, position: pos }
}

fn threat(id: u128, level: usize) -> ThreatInfo {
    ThreatInfo { id, threat_level: level }
}

fn reach(p: u128, t: u128, d: i64) -> Reach {
    Reach { platform_id: p, threat_id: t, distance: d }
}

fn range(s: u128, t: u128, d: i64) -> Range {
    Range { shot_id: s, threat_id: t, distance: d }
}

fn synced(radars: &Vec<RadarInfo<u32>>) -> Engagements<u32> {
    let mut e: Engagements<u32> = Engagements::new();
    e.sync(radars);
    e
}

#[test]
fn scores_follow_the_formula() {
    let radars = vec![radar(1, 3, 0)];
    let reaches = vec![reach(1, 10, 1234)];
    assert_eq!(tube_score(&radars, &reaches, 1, threat(10, 2)), REACHABLE_BASE + 2000 - 123);
    assert_eq!(tube_score(&radars, &reaches, 1, threat(11, 2)), UNREACHABLE);
    assert_eq!(tube_score(&radars, &reaches, 2, threat(10, 2)), UNREACHABLE);
    let ranges = vec![range(7, 10, 500)];
    assert_eq!(mover_score(&ranges, 7, threat(10, 1), 10), REACHABLE_BASE + 1000 - 50 + HYST_BONUS);
    assert_eq!(mover_score(&ranges, 7, threat(10, 1), 11), REACHABLE_BASE + 1000 - 50);
    assert_eq!(mover_score(&ranges, 8, threat(10, 1), 10), UNREACHABLE);
}

#[test]
fn sync_adds_and_drops_platforms() {
    let mut e = synced(&vec![radar(1, 4, 0), radar(2, 2, 0)]);
    assert_eq!(e.ammo(1), 4);
    assert_eq!(e.ammo(2), 2);
    assert_eq!(e.ammo(3), 0);
    e.sync(&vec![radar(2, 9, 0), radar(3, 1, 0)]);
    assert_eq!(e.ammo(1), 0);
    assert_eq!(e.ammo(2), 2);
    assert_eq!(e.ammo(3), 1);
}

#[test]
fn a_free_tube_launches_at_a_reachable_threat() {
    let radars = vec![radar(1, 2, 77)];
    let mut e = synced(&radars);
    let geo = Geometry { reach: vec![reach(1, 10, 1000)], ranges: vec![] };
    e.retask(&radars, &vec![threat(10, 2)], &vec![10], &geo);
    assert_eq!(e.ammo(1), 1);
    let flying = e.interceptors();
    assert_eq!(flying.len(), 1);
    assert_eq!(flying[0].target_id, 10);
    assert_eq!(flying[0].position, 77);
    assert!(!flying[0].diverting);
    assert_ne!(flying[0].id, 0);
    assert_eq!(flying[0].id >> 76 & 0xf, 4);
    assert_eq!(e.lines(), vec![Engagement { platform_id: 1, threat_id: 10 }]);
}

#[test]
fn out_of_reach_threats_are_not_engaged() {
    let radars = vec![radar(1, 2, 0)];
    let mut e = synced(&radars);
    let geo = Geometry { reach: vec![], ranges: vec![] };
    e.retask(&radars, &vec![threat(10, 2)], &vec![10], &geo);
    assert_eq!(e.ammo(1), 2);
    assert!(e.interceptors().is_empty());
}

#[test]
fn threats_not_engageable_are_ignored() {
    let radars = vec![radar(1, 2, 0)];
    let mut e = synced(&radars);
    let geo = Geometry { reach: vec![reach(1, 10, 100)], ranges: vec![] };
    e.retask(&radars, &vec![threat(10, 2)], &vec![], &geo);
    assert!(e.interceptors().is_empty());
}

#[test]
fn one_interceptor_per_threat_across_platforms() {
    let radars = vec![radar(1, 3, 0), radar(2, 3, 0)];
    let mut e = synced(&radars);
    let geo = Geometry { reach: vec![reach(1, 10, 900), reach(2, 10, 100)], ranges: vec![] };
    e.retask(&radars, &vec![threat(10, 1)], &vec![10], &geo);
    let flying = e.interceptors();
    assert_eq!(flying.len(), 1);
    assert_eq!(e.lines(), vec![Engagement { platform_id: 2, threat_id: 10 }]);
    assert_eq!(e.ammo(1) + e.ammo(2), 5);
}

#[test]
fn the_best_total_assignment_wins() {
    // Row order is A then B, column order X then Y; the best matching crosses.
    let radars = vec![radar(1, 1, 0), radar(2, 1, 0)];
    let mut e = synced(&radars);
    let geo = Geometry {
        reach: vec![reach(1, 10, 5000), reach(1, 20, 100), reach(2, 10, 100), reach(2, 20, 5000)],
        ranges: vec![],
    };
    e.retask(&radars, &vec![threat(10, 1), threat(20, 1)], &vec![10, 20], &geo);
    let mut lines = e.lines();
    lines.sort_by_key(|l| l.platform_id);
    assert_eq!(
        lines,
        vec![Engagement { platform_id: 1, threat_id: 20 }, Engagement { platform_id: 2, threat_id: 10 }]
    );
}

#[test]
fn capacity_is_bounded_by_in_flight_limit() {
    let radars = vec![radar(1, 10, 0)];
    let mut e = synced(&radars);
    let threats: Vec<ThreatInfo> = (1..=5u128).map(|i| threat(i, 1)).collect();
    let ids: Vec<u128> = (1..=5u128).collect();
    let geo = Geometry { reach: (1..=5u128).map(|i| reach(1, i, 100 * i as i64)).collect(), ranges: vec![] };
    e.retask(&radars, &threats, &ids, &geo);
    assert_eq!(e.interceptors().len(), MAX_IN_FLIGHT);
    assert_eq!(e.ammo(1), 10 - MAX_IN_FLIGHT);
    let mut targets: Vec<u128> = e.lines().iter().map(|l| l.threat_id).collect();
    targets.sort();
    assert_eq!(targets, vec![1, 2, 3]);
}

#[test]
fn a_hit_destroys_the_target() {
    let radars = vec![radar(1, 1, 0)];
    let mut e = synced(&radars);
    let geo = Geometry { reach: vec![reach(1, 10, 100)], ranges: vec![] };
    e.retask(&radars, &vec![threat(10, 1)], &vec![10], &geo);
    let destroyed = e.advance(&vec![ShotOutcome::Hit]);
    assert_eq!(destroyed, vec![10]);
    assert_eq!(e.neutralized(), 1);
    assert!(e.interceptors().is_empty());
}

#[test]
fn moved_and_expended_shots() {
    let radars = vec![radar(1, 2, 0)];
    let mut e = synced(&radars);
    let geo = Geometry { reach: vec![reach(1, 10, 100), reach(1, 20, 100)], ranges: vec![] };
    e.retask(&radars, &vec![threat(10, 1), threat(20, 1)], &vec![10, 20], &geo);
    assert_eq!(e.interceptors().len(), 2);
    let destroyed = e.advance(&vec![ShotOutcome::Moved(5), ShotOutcome::Expended]);
    assert!(destroyed.is_empty());
    assert_eq!(e.neutralized(), 0);
    let flying = e.interceptors();
    assert_eq!(flying.len(), 1);
    assert_eq!(flying[0].position, 5);
}

#[test]
fn lost_targets_divert() {
    let radars = vec![radar(1, 1, 0)];
    let mut e = synced(&radars);
    let geo = Geometry { reach: vec![reach(1, 10, 100)], ranges: vec![] };
    e.retask(&radars, &vec![threat(10, 1)], &vec![10], &geo);
    e.divert_lost_targets(&vec![11]);
    let flying = e.interceptors();
    assert!(flying[0].diverting);
    assert_eq!(flying[0].target_id, 0);
    assert!(e.lines().is_empty());
}

#[test]
fn operator_overrides() {
    let radars = vec![radar(1, 1, 0)];
    let mut e = synced(&radars);
    let geo = Geometry { reach: vec![reach(1, 10, 100)], ranges: vec![] };
    e.retask(&radars, &vec![threat(10, 1)], &vec![10], &geo);
    let sid = e.interceptors()[0].id;
    e.retarget(sid, 20);
    assert_eq!(e.interceptors()[0].target_id, 20);
    // A locked interceptor keeps its target through re-tasking.
    let geo2 = Geometry { reach: vec![reach(1, 10, 100)], ranges: vec![range(sid, 10, 10), range(sid, 20, 10)] };
    e.retask(&radars, &vec![threat(10, 5), threat(20, 1)], &vec![10, 20], &geo2);
    assert_eq!(e.interceptors()[0].target_id, 20);
    e.abort(sid);
    assert!(e.interceptors()[0].diverting);
    // Unknown ids change nothing.
    e.abort(sid + 1);
    assert_eq!(e.interceptors().len(), 1);
}

#[test]
fn movers_keep_their_target_unless_clearly_better() {
    let radars = vec![radar(1, 1, 0)];
    let mut e = synced(&radars);
    let geo = Geometry { reach: vec![reach(1, 10, 100)], ranges: vec![] };
    e.retask(&radars, &vec![threat(10, 1)], &vec![10], &geo);
    let sid = e.interceptors()[0].id;
    // Threat 20 is a little closer, not by the hysteresis margin: keep 10.
    let geo2 = Geometry { reach: vec![], ranges: vec![range(sid, 10, 1000), range(sid, 20, 500)] };
    e.retask(&radars, &vec![threat(10, 1), threat(20, 1)], &vec![10, 20], &geo2);
    assert_eq!(e.interceptors()[0].target_id, 10);
    // Threat 20 is far more dangerous: switch.
    e.retask(&radars, &vec![threat(10, 1), threat(20, 9)], &vec![10, 20], &geo2);
    assert_eq!(e.interceptors()[0].target_id, 20);
    assert_eq!(e.ammo(1), 0);
}

#[test]
fn reset_forgets_everything() {
    let radars = vec![radar(1, 1, 0)];
    let mut e = synced(&radars);
    e.record_positions(vec![(10, 3)]);
    assert_eq!(e.last_position(10), Some(3));
    e.reset();
    assert_eq!(e.ammo(1), 0);
    assert_eq!(e.last_position(10), None);
    assert_eq!(e.neutralized(), 0);
}

#[test]
fn latest_recorded_position_wins() {
    let mut e: Engagements<u32> = Engagements::new();
    e.record_positions(vec![(10, 3), (11, 4), (10, 5)]);
    assert_eq!(e.last_position(10), Some(5));
    assert_eq!(e.last_position(11), Some(4));
    assert_eq!(e.last_position(12), None);
}

#[test]
fn step_assign_syncs_diverts_and_retasks() {
    let radars = vec![radar(1, 2, 0)];
    let mut e = synced(&radars);
    let geo = Geometry { reach: vec![reach(1, 10, 100)], ranges: vec![] };
    e.retask(&radars, &vec![threat(10, 1)], &vec![10], &geo);
    let old = e.interceptors()[0].id;
    // Threat 10 vanished, threat 20 appeared.
    let geo2 = Geometry { reach: vec![reach(1, 20, 100)], ranges: vec![range(old, 20, 100)] };
    e.step_assign(&radars, &vec![threat(20, 1)], vec![(20, 8)], &vec![20], &geo2);
    let flying = e.interceptors();
    assert_eq!(flying.len(), 2);
    assert!(flying.iter().any(|f| f.id == old && f.diverting));
    assert!(flying.iter().any(|f| f.id != old && f.target_id == 20));
    assert_eq!(e.last_position(20), Some(8));
}

#[test]
fn assignment_applied_by_hand() {
    let radars = vec![radar(1, 2, 0)];
    let mut e = synced(&radars);
    let geo = Geometry { reach: vec![reach(1, 10, 100), reach(1, 20, 100)], ranges: vec![] };
    // Two tubes, two targets: the second tube takes column 0 (threat 10),
    // the first takes column 1 (threat 20).
    e.apply_assignment(&radars, &vec![threat(10, 1), threat(20, 1)], &vec![10, 20], &geo, &vec![1, 0]);
    let targets: Vec<u128> = e.lines().iter().map(|l| l.threat_id).collect();
    assert_eq!(targets, vec![20, 10]);
    let plan = e.plan(&vec![threat(10, 1)], &vec![10]);
    assert_eq!(plan.movers.len(), 2);
    assert_eq!(plan.tubes.len(), 0);
    assert_eq!(plan.targets.len(), 1);
    let _ = Assignment::Divert;
}

#[test]
fn no_threat_is_chased_twice_over_several_ticks() {
    let radars = vec![radar(1, 3, 0), radar(2, 3, 0)];
    let mut e = synced(&radars);
    let threats = vec![threat(10, 2), threat(20, 1)];
    let ids = vec![10, 20];
    let geo = Geometry {
        reach: vec![reach(1, 10, 100), reach(1, 20, 300), reach(2, 10, 200), reach(2, 20, 100)],
        ranges: vec![],
    };
    e.step_assign(&radars, &threats, vec![(10, 1), (20, 2)], &ids, &geo);
    for _ in 0..3 {
        let ranges: Vec<Range> = e
            .interceptors()
            .iter()
            .flat_map(|s| vec![range(s.id, 10, 50), range(s.id, 20, 50)])
            .collect();
        let geo = Geometry { reach: geo.reach.clone(), ranges };
        e.step_assign(&radars, &threats, vec![(10, 1), (20, 2)], &ids, &geo);
        let mut targets: Vec<u128> =
            e.interceptors().iter().filter(|s| !s.diverting).map(|s| s.target_id).collect();
        targets.sort();
        assert_eq!(targets, vec![10, 20]);
    }
    // Launches happened once; later ticks only kept the movers on their targets.
    assert_eq!(e.ammo(1) + e.ammo(2), 4);
}

#[test]
fn one_launch_then_one_hit_in_a_single_tick() {
    let radars = vec![radar(1, 2, 0)];
    let mut e: Engagements<u32> = Engagements::new();
    let geo = Geometry { reach: vec![reach(1, 10, 300)], ranges: vec![] };
    e.step_assign(&radars, &vec![threat(10, 1)], vec![(10, 300)], &vec![10], &geo);
    assert_eq!(e.ammo(1), 1);
    assert_eq!(e.interceptors().len(), 1);
    let destroyed = e.advance(&vec![ShotOutcome::Hit]);
    assert_eq!(destroyed, vec![10]);
    assert_eq!(e.neutralized(), 1);
    assert_eq!(e.ammo(1), 1);
    assert!(e.lines().is_empty());
    assert!(e.interceptors().is_empty());
}

#[test]
fn movers_without_an_intercept_point_divert() {
    // A shot with no range to any threat (no intercept point) scores as unreachable.
    let radars = vec![radar(1, 1, 0)];
    let mut e = synced(&radars);
    let geo = Geometry { reach: vec![reach(1, 10, 100)], ranges: vec![] };
    e.retask(&radars, &vec![threat(10, 1)], &vec![10], &geo);
    assert_eq!(e.interceptors().len(), 1);
    e.retask(&radars, &vec![threat(10, 1)], &vec![10], &Geometry { reach: vec![], ranges: vec![] });
    assert!(e.interceptors()[0].diverting);
}

#[test]
fn syncing_twice_changes_nothing() {
    let radars = vec![radar(1, 4, 0), radar(2, 2, 0)];
    let mut e = synced(&radars);
    let geo = Geometry { reach: vec![reach(1, 10, 100)], ranges: vec![] };
    e.retask(&radars, &vec![threat(10, 1)], &vec![10], &geo);
    let before = (e.platform_count(), e.ammo(1), e.ammo(2), e.interceptors().len());
    e.sync(&radars);
    assert_eq!((e.platform_count(), e.ammo(1), e.ammo(2), e.interceptors().len()), before);
}

#[test]
fn launched_interceptors_bear_version_4_ids() {
    let radars = vec![radar(1, 3, 0)];
    let mut e = synced(&radars);
    let geo = Geometry { reach: vec![reach(1, 10, 100), reach(1, 20, 100)], ranges: vec![] };
    e.retask(&radars, &vec![threat(10, 1), threat(20, 1)], &vec![10, 20], &geo);
    let flying = e.interceptors();
    assert_eq!(flying.len(), 2);
    for f in &flying {
        assert_eq!((f.id >> 76) & 0xf, 4);
        assert_eq!((f.id >> 62) & 0x3, 2);
    }
    assert_ne!(flying[0].id, flying[1].id);
}

#[test]
fn after_a_tick_engagers_are_the_radars_and_pursuits_are_of_live_threats() {
    let mut e = synced(&vec![radar(1, 2, 0), radar(3, 2, 0)]);
    let geo = Geometry { reach: vec![reach(1, 10, 100), reach(3, 20, 100)], ranges: vec![] };
    e.retask(&vec![radar(1, 2, 0), radar(3, 2, 0)], &vec![threat(10, 1), threat(20, 1)], &vec![10, 20], &geo);
    // Platform 3 is gone, platform 2 appears; threat 20 has vanished.
    let radars = vec![radar(1, 2, 0), radar(2, 5, 0)];
    e.step_assign(&radars, &vec![threat(10, 1)], vec![(10, 1)], &vec![10], &Geometry { reach: vec![], ranges: vec![] });
    assert_eq!(e.platform_count(), 2);
    assert_eq!(e.ammo(2), 5);
    assert_eq!(e.ammo(3), 0);
    for f in e.interceptors() {
        assert!(f.diverting || f.target_id == 10);
    }
}

#[test]
fn one_line_per_pursuing_interceptor() {
    let radars = vec![radar(1, 3, 0)];
    let mut e = synced(&radars);
    let geo = Geometry { reach: vec![reach(1, 10, 100), reach(1, 20, 100)], ranges: vec![] };
    e.retask(&radars, &vec![threat(10, 1), threat(20, 1)], &vec![10, 20], &geo);
    let id = e.interceptors()[0].id;
    e.abort(id);
    let pursuing = e.interceptors().iter().filter(|f| !f.diverting).count();
    assert_eq!(pursuing, 1);
    assert_eq!(e.lines().len(), pursuing);
}
