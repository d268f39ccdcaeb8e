//! Properties of re-tasking that hold whatever assignment the solver picks.

use crate::engagement::{
    apply_row, apply_rows, assigned, capacity, distinct_threat_ids, eligible_upto, lemma_eligible,
    lemma_shot_movers, locked_targets, movers_upto, shot_movers, with_assignment, launched, Mover, Shot, engager_index, engager_index_upto, lemma_engager_index,
    lemma_engager_index_none, lemma_movers_upto, plan_movers, plan_targets, plan_tubes, tubes_upto,
    well_formed_view, Assignment, EngagerView, Geometry, RadarInfo, Range, Reach, ThreatInfo,
    MAX_IN_FLIGHT, radar_of, reach_of, retained, with_new_radars, synced, surviving, advanced, outcomes_of,
    lemma_surviving_len, ShotOutcome, shot_locks, locks_upto, offset, total_shots, lemma_offset, range_upto, plan_weights, is_best_matching, within_limits, LEVEL_LIMIT, DISTANCE_LIMIT,
    FlyingInterceptor, flying, flying_upto, lines_upto, shot_lines, threat_ids, diverted_lost, divert_if_lost, destroyed_upto, hits, radar_upto, lemma_radar_upto, engagement_value, mover_score_spec, range_of, HYST_BONUS,
};
use crate::ids::is_v4_id;
use crate::matching::{is_matching, matching_value, SIZE_LIMIT};
use vstd::prelude::*;

verus! {

/// Occurrences of `pid` among the first `j` entries of `tubes`.
pub open spec fn count_pid(tubes: Seq<u128>, pid: u128, j: int) -> nat
    decreases j,
{
    if j <= 0 {
        0
    } else {
        count_pid(tubes, pid, j - 1) + if tubes[j - 1] == pid {
            1nat
        } else {
            0nat
        }
    }
}

/// Number of tube rows among the first `k` assignment rows.
pub open spec fn tube_rows_done(movers_len: int, tubes_len: int, k: int) -> int {
    if k <= movers_len {
        0
    } else if k - movers_len >= tubes_len {
        tubes_len
    } else {
        k - movers_len
    }
}

proof fn lemma_count_monotone(tubes: Seq<u128>, pid: u128, j: int, j2: int)
    requires
        0 <= j <= j2,
    ensures
        count_pid(tubes, pid, j) <= count_pid(tubes, pid, j2),
    decreases j2,
{
    if j2 > j {
        lemma_count_monotone(tubes, pid, j, j2 - 1);
    }
}

proof fn lemma_count_concat(s1: Seq<u128>, s2: Seq<u128>, pid: u128, j: int)
    requires
        0 <= j <= s2.len(),
    ensures
        count_pid(s1 + s2, pid, s1.len() + j) == count_pid(s1, pid, s1.len() as int) + count_pid(s2, pid, j),
    decreases j,
{
    if j > 0 {
        lemma_count_concat(s1, s2, pid, j - 1);
        assert((s1 + s2)[s1.len() + j - 1] == s2[j - 1]);
    } else {
        lemma_count_prefix(s1, s2, pid, s1.len() as int);
    }
}

proof fn lemma_count_prefix(s1: Seq<u128>, s2: Seq<u128>, pid: u128, j: int)
    requires
        0 <= j <= s1.len(),
    ensures
        count_pid(s1 + s2, pid, j) == count_pid(s1, pid, j),
    decreases j,
{
    if j > 0 {
        lemma_count_prefix(s1, s2, pid, j - 1);
        assert((s1 + s2)[j - 1] == s1[j - 1]);
    }
}

proof fn lemma_count_const(c: nat, x: u128, pid: u128, j: int)
    requires
        0 <= j <= c,
    ensures
        count_pid(Seq::new(c, |_i: int| x), pid, j) == if x == pid {
            j as nat
        } else {
            0nat
        },
    decreases j,
{
    if j > 0 {
        lemma_count_const(c, x, pid, j - 1);
    }
}

/// A platform has exactly its capacity of launch tubes in the plan.
proof fn lemma_tube_count<P>(m: Seq<EngagerView<P>>, k: int, pid: u128)
    requires
        0 <= k <= m.len(),
        well_formed_view(m),
    ensures
        count_pid(tubes_upto(m, k), pid, tubes_upto(m, k).len() as int) == match engager_index_upto(m, pid, k) {
            Some(e) => capacity(m[e]),
            None => 0nat,
        },
    decreases k,
{
    if k > 0 {
        lemma_tube_count(m, k - 1, pid);
        let prev = tubes_upto(m, k - 1);
        let here = Seq::new(capacity(m[k - 1]), |_i: int| m[k - 1].platform_id);
        assert(tubes_upto(m, k) == prev + here);
        lemma_count_concat(prev, here, pid, here.len() as int);
        lemma_count_const(capacity(m[k - 1]), m[k - 1].platform_id, pid, here.len() as int);
        lemma_engager_index(m, pid, k - 1, k - 1);
        if let Some(e) = engager_index_upto(m, pid, k - 1) {
            assert(m[e].platform_id == pid);
            assert(m[k - 1].platform_id != pid);
        }
    }
}

/// What re-tasking keeps: every platform and every shot already in flight
/// (identity and position), operator-locked and diverted shots untouched, no
/// new operator lock, one
/// interceptor spent per launch, launches only onto automatic targets, and no
/// more launches for a platform than its free capacity.
pub open spec fn keeps_engagers<P>(m: Seq<EngagerView<P>>, f: Seq<EngagerView<P>>) -> bool {
    &&& f.len() == m.len()
    &&& forall|e: int|
        #![trigger f[e]]
        0 <= e < m.len() ==> {
            &&& f[e].platform_id == m[e].platform_id
            &&& m[e].shots.len() <= f[e].shots.len()
            &&& f[e].ammo <= m[e].ammo
            &&& f[e].shots.len() - m[e].shots.len() == m[e].ammo - f[e].ammo
            &&& f[e].shots.len() <= m[e].shots.len() + capacity(m[e])
            &&& forall|s: int|
                #![trigger f[e].shots[s]]
                0 <= s < m[e].shots.len() ==> {
                    &&& f[e].shots[s].id == m[e].shots[s].id
                    &&& f[e].shots[s].position == m[e].shots[s].position
                    &&& (m[e].shots[s].assignment is Divert || m[e].shots[s].assignment matches Assignment::Target { locked: true, .. })
                        ==> f[e].shots[s] == m[e].shots[s]
                    &&& f[e].shots[s].assignment matches Assignment::Target { locked: true, .. } ==> f[e].shots[s] == m[e].shots[s]
                }
            &&& forall|s: int|
                #![trigger f[e].shots[s]]
                m[e].shots.len() <= s < f[e].shots.len() ==> f[e].shots[s].assignment matches Assignment::Target { locked: false, .. }
        }
}

/// Each platform launched no more interceptors than it had free launch tubes
/// (`MAX_IN_FLIGHT` less those in flight) and interceptors left, and spent
/// exactly one interceptor per launch.
pub open spec fn launches_within_capacity<P>(m: Seq<EngagerView<P>>, f: Seq<EngagerView<P>>) -> bool {
    &&& f.len() == m.len()
    &&& forall|e: int|
        #![trigger f[e]]
        0 <= e < m.len() ==> {
            &&& m[e].shots.len() <= f[e].shots.len() <= m[e].shots.len() + capacity(m[e])
            &&& m[e].ammo - f[e].ammo == f[e].shots.len() - m[e].shots.len()
        }
}

/// What re-tasking keeps bounds its launches by the free capacity.
pub proof fn kept_engagers_launch_within_capacity<P>(m: Seq<EngagerView<P>>, f: Seq<EngagerView<P>>)
    requires
        keeps_engagers(m, f),
    ensures
        launches_within_capacity(m, f),
{
}

proof fn lemma_apply_rows_keeps<P>(
    m: Seq<EngagerView<P>>,
    targets: Seq<ThreatInfo>,
    radars: Seq<RadarInfo<P>>,
    reach: Seq<Reach>,
    ranges: Seq<Range>,
    a: Seq<usize>,
    k: int,
    ids: Seq<u128>,
)
    requires
        well_formed_view(m),
        m.len() <= usize::MAX,
        forall|e: int| 0 <= e < m.len() ==> #[trigger] m[e].shots.len() <= usize::MAX,
        0 <= k <= a.len(),
    ensures
        ({
            let movers = plan_movers(m);
            let tubes = plan_tubes(m);
            let f = apply_rows(m, movers, tubes, targets, radars, reach, ranges, a, k, ids);
            &&& f.len() == m.len()
            &&& forall|e: int|
                #![trigger f[e]]
                0 <= e < m.len() ==> {
                    &&& f[e].platform_id == m[e].platform_id
                    &&& m[e].shots.len() <= f[e].shots.len()
                    &&& f[e].ammo <= m[e].ammo
                    &&& f[e].shots.len() - m[e].shots.len() == m[e].ammo - f[e].ammo
                    &&& f[e].shots.len() - m[e].shots.len() <= count_pid(
                        tubes,
                        m[e].platform_id,
                        tube_rows_done(movers.len() as int, tubes.len() as int, k),
                    )
                    &&& forall|s: int|
                        #![trigger f[e].shots[s]]
                        0 <= s < m[e].shots.len() ==> {
                            &&& f[e].shots[s].id == m[e].shots[s].id
                            &&& f[e].shots[s].position == m[e].shots[s].position
                            &&& (m[e].shots[s].assignment is Divert || m[e].shots[s].assignment matches Assignment::Target { locked: true, .. })
                                ==> f[e].shots[s] == m[e].shots[s]
                            &&& f[e].shots[s].assignment matches Assignment::Target { locked: true, .. } ==> f[e].shots[s] == m[e].shots[s]
                        }
                    &&& forall|s: int|
                        #![trigger f[e].shots[s]]
                        m[e].shots.len() <= s < f[e].shots.len() ==> f[e].shots[s].assignment matches Assignment::Target { locked: false, .. }
                }
        }),
    decreases k,
{
    let movers = plan_movers(m);
    let tubes = plan_tubes(m);
    lemma_movers_upto(m, m.len() as int);
    if k > 0 {
        lemma_apply_rows_keeps(m, targets, radars, reach, ranges, a, k - 1, ids);
        let f0 = apply_rows(m, movers, tubes, targets, radars, reach, ranges, a, k - 1, ids);
        let f = apply_rows(m, movers, tubes, targets, radars, reach, ranges, a, k, ids);
        let i = k - 1;
        let j = a[i] as int;
        assert(f == apply_row(f0, movers, tubes, targets, radars, reach, ranges, a, i, ids[i]));
        let d0 = tube_rows_done(movers.len() as int, tubes.len() as int, k - 1);
        let d1 = tube_rows_done(movers.len() as int, tubes.len() as int, k);
        assert forall|e: int| 0 <= e < m.len() implies count_pid(tubes, m[e].platform_id, d0) <= count_pid(
            tubes,
            m[e].platform_id,
            d1,
        ) by {
            lemma_count_monotone(tubes, m[e].platform_id, d0, d1);
        }
        if i < movers.len() {
            let mv = movers[i];
            let e0 = mv.engager as int;
            assert(f0[e0].shots.len() >= m[e0].shots.len());
            assert forall|e: int| #![trigger f[e]] 0 <= e < m.len() implies {
                &&& forall|s: int|
                    #![trigger f[e].shots[s]]
                    0 <= s < m[e].shots.len() ==> {
                        &&& f[e].shots[s].id == m[e].shots[s].id
                        &&& f[e].shots[s].position == m[e].shots[s].position
                        &&& (m[e].shots[s].assignment is Divert || m[e].shots[s].assignment matches Assignment::Target { locked: true, .. })
                            ==> f[e].shots[s] == m[e].shots[s]
                        &&& f[e].shots[s].assignment matches Assignment::Target { locked: true, .. } ==> f[e].shots[s] == m[e].shots[s]
                    }
                &&& forall|s: int|
                    #![trigger f[e].shots[s]]
                    m[e].shots.len() <= s < f[e].shots.len() ==> f[e].shots[s].assignment matches Assignment::Target { locked: false, .. }
            } by {
                assert forall|s: int| #![trigger f[e].shots[s]] 0 <= s < f[e].shots.len() && !(e == e0 && s == mv.shot) implies f[e].shots[s] == f0[e].shots[s] by {}
            }
        } else if i - movers.len() < tubes.len() && j < targets.len() {
            let pid = tubes[i - movers.len()];
            assert(d1 == d0 + 1);
            match engager_index(f0, pid) {
                Some(e0) => {
                    lemma_engager_index(f0, pid, f0.len() as int, f0.len() as int);
                    if f != f0 {
                        assert(f0[e0].ammo > 0);
                        assert(count_pid(tubes, pid, d1) == count_pid(tubes, pid, d0) + 1);
                        assert forall|e: int| #![trigger f[e]] 0 <= e < m.len() implies {
                            &&& forall|s: int|
                                #![trigger f[e].shots[s]]
                                0 <= s < m[e].shots.len() ==> {
                                    &&& f[e].shots[s].id == m[e].shots[s].id
                                    &&& f[e].shots[s].position == m[e].shots[s].position
                                    &&& (m[e].shots[s].assignment is Divert || m[e].shots[s].assignment matches Assignment::Target { locked: true, .. })
                                        ==> f[e].shots[s] == m[e].shots[s]
                                    &&& f[e].shots[s].assignment matches Assignment::Target { locked: true, .. } ==> f[e].shots[s] == m[e].shots[s]
                                }
                            &&& forall|s: int|
                                #![trigger f[e].shots[s]]
                                m[e].shots.len() <= s < f[e].shots.len() ==> f[e].shots[s].assignment matches Assignment::Target { locked: false, .. }
                        } by {
                            assert forall|s: int| #![trigger f[e].shots[s]] 0 <= s < f0[e].shots.len() implies f[e].shots[s] == f0[e].shots[s] by {}
                        }
                    }
                },
                None => {},
            }
        }
    }
}

/// Re-tasking by any assignment keeps the engagers as `keeps_engagers` says,
/// and so keeps the state well formed.
pub proof fn assigned_keeps_engagers<P>(
    m: Seq<EngagerView<P>>,
    radars: Seq<RadarInfo<P>>,
    threats: Seq<ThreatInfo>,
    engageable: Seq<u128>,
    geo: Geometry,
    a: Seq<usize>,
    ids: Seq<u128>,
)
    requires
        well_formed_view(m),
        m.len() <= usize::MAX,
        forall|e: int| 0 <= e < m.len() ==> #[trigger] m[e].shots.len() <= usize::MAX,
    ensures
        keeps_engagers(m, assigned(m, radars, threats, engageable, geo, a, ids)),
        well_formed_view(assigned(m, radars, threats, engageable, geo, a, ids)),
{
    let f = assigned(m, radars, threats, engageable, geo, a, ids);
    let tubes = plan_tubes(m);
    lemma_apply_rows_keeps(m, plan_targets(m, threats, engageable), radars, geo.reach@, geo.ranges@, a, a.len() as int, ids);
    assert forall|e: int| #![trigger f[e]] 0 <= e < m.len() implies f[e].shots.len() <= m[e].shots.len() + capacity(m[e]) by {
        let pid = m[e].platform_id;
        let d = tube_rows_done(plan_movers(m).len() as int, tubes.len() as int, a.len() as int);
        lemma_count_monotone(tubes, pid, d, tubes.len() as int);
        lemma_tube_count(m, m.len() as int, pid);
        if engager_index_upto(m, pid, e + 1) is None {
            lemma_engager_index_none(m, pid, e + 1);
        }
        lemma_engager_index(m, pid, e + 1, m.len() as int);
        assert(engager_index(m, pid) == Some(e));
    }
    assert forall|e: int| 0 <= e < f.len() implies #[trigger] f[e].shots.len() <= MAX_IN_FLIGHT by {
        assert(f[e].shots.len() <= m[e].shots.len() + capacity(m[e]));
    }
    assert forall|i: int, j: int|
        0 <= i < f.len() && 0 <= j < f.len() && i != j implies #[trigger] f[i].platform_id
        != #[trigger] f[j].platform_id by {
        assert(f[i].platform_id == m[i].platform_id);
        assert(f[j].platform_id == m[j].platform_id);
    }
}

/// Every interceptor that re-tasking launched (a shot of `f` beyond those of
/// `m`) starts at its platform's radar and chases a threat that platform can reach.
pub open spec fn launches_in_reach<P>(
    m: Seq<EngagerView<P>>,
    f: Seq<EngagerView<P>>,
    radars: Seq<RadarInfo<P>>,
    reach: Seq<Reach>,
) -> bool {
    forall|e: int, s: int|
        #![trigger f[e].shots[s]]
        0 <= e < m.len() && m[e].shots.len() <= s < f[e].shots.len() ==> {
            &&& f[e].shots[s].assignment matches Assignment::Target { id, .. } && reach_of(reach, m[e].platform_id, id) is Some
            &&& radar_of(radars, m[e].platform_id) matches Some(r) && f[e].shots[s].position == r.position
        }
}

proof fn lemma_apply_rows_in_reach<P>(
    m: Seq<EngagerView<P>>,
    targets: Seq<ThreatInfo>,
    radars: Seq<RadarInfo<P>>,
    reach: Seq<Reach>,
    ranges: Seq<Range>,
    a: Seq<usize>,
    k: int,
    ids: Seq<u128>,
)
    requires
        well_formed_view(m),
        m.len() <= usize::MAX,
        forall|e: int| 0 <= e < m.len() ==> #[trigger] m[e].shots.len() <= usize::MAX,
        0 <= k <= a.len(),
    ensures
        launches_in_reach(
            m,
            apply_rows(m, plan_movers(m), plan_tubes(m), targets, radars, reach, ranges, a, k, ids),
            radars,
            reach,
        ),
    decreases k,
{
    let movers = plan_movers(m);
    let tubes = plan_tubes(m);
    lemma_movers_upto(m, m.len() as int);
    if k > 0 {
        lemma_apply_rows_in_reach(m, targets, radars, reach, ranges, a, k - 1, ids);
        lemma_apply_rows_keeps(m, targets, radars, reach, ranges, a, k - 1, ids);
        let f0 = apply_rows(m, movers, tubes, targets, radars, reach, ranges, a, k - 1, ids);
        let f = apply_rows(m, movers, tubes, targets, radars, reach, ranges, a, k, ids);
        let i = k - 1;
        let j = a[i] as int;
        assert(f == apply_row(f0, movers, tubes, targets, radars, reach, ranges, a, i, ids[i]));
        if i < movers.len() {
            let mv = movers[i];
            assert(f0[mv.engager as int].shots.len() >= m[mv.engager as int].shots.len());
            assert forall|e: int, s: int|
                0 <= e < m.len() && m[e].shots.len() <= s < f[e].shots.len() implies #[trigger] f[e].shots[s]
                == f0[e].shots[s] by {}
        } else if i - movers.len() < tubes.len() && j < targets.len() && f != f0 {
            let pid = tubes[i - movers.len()];
            let e0 = engager_index(f0, pid)->0;
            lemma_engager_index(f0, pid, f0.len() as int, f0.len() as int);
            assert forall|e: int, s: int|
                0 <= e < m.len() && m[e].shots.len() <= s < f[e].shots.len() && !(e == e0 && s == f0[e0].shots.len())
                implies #[trigger] f[e].shots[s] == f0[e].shots[s] by {}
        }
    }
}

/// Re-tasking by any assignment launches only from a platform's radar and
/// only onto threats that platform can reach.
pub proof fn assigned_launches_in_reach<P>(
    m: Seq<EngagerView<P>>,
    radars: Seq<RadarInfo<P>>,
    threats: Seq<ThreatInfo>,
    engageable: Seq<u128>,
    geo: Geometry,
    a: Seq<usize>,
    ids: Seq<u128>,
)
    requires
        well_formed_view(m),
        m.len() <= usize::MAX,
        forall|e: int| 0 <= e < m.len() ==> #[trigger] m[e].shots.len() <= usize::MAX,
    ensures
        launches_in_reach(m, assigned(m, radars, threats, engageable, geo, a, ids), radars, geo.reach@),
{
    lemma_apply_rows_in_reach(m, plan_targets(m, threats, engageable), radars, geo.reach@, geo.ranges@, a, a.len() as int, ids);
}

/// An engagement is worth more the higher the threat's level and the closer
/// the threat.
pub proof fn engagement_value_monotone(l1: usize, d1: i64, l2: usize, d2: i64)
    requires
        l1 >= l2,
        0 <= d1 <= d2,
    ensures
        engagement_value(l1, d1) >= engagement_value(l2, d2),
{
    assert(l1 * 1000 >= l2 * 1000) by (nonlinear_arith)
        requires
            l1 >= l2,
    ;
    assert(d1 / 10 <= d2 / 10) by (nonlinear_arith)
        requires
            0 <= d1 <= d2,
    ;
}

/// An in-flight interceptor values its current target `HYST_BONUS` more than
/// it would value the same threat were it chasing another one.
pub proof fn hysteresis_favours_current_target(ranges: Seq<Range>, sid: u128, t: ThreatInfo, other: u128)
    requires
        other != t.id,
        range_of(ranges, sid, t.id) is Some,
    ensures
        mover_score_spec(ranges, sid, t, t.id) == mover_score_spec(ranges, sid, t, other) + HYST_BONUS,
{
}


/// A radar listed in `radars` is found by `radar_of`.
proof fn lemma_radar_listed<P>(radars: Seq<RadarInfo<P>>, j: int)
    requires
        0 <= j < radars.len(),
    ensures
        radar_of(radars, radars[j].id) is Some,
{
    let pid = radars[j].id;
    assert(radar_upto(radars, pid, j + 1) is Some);
    lemma_radar_upto(radars, pid, j + 1, radars.len() as int);
}

/// An engager listed in `m` is found by `engager_index`.
proof fn lemma_engager_listed<P>(m: Seq<EngagerView<P>>, e: int)
    requires
        0 <= e < m.len(),
    ensures
        engager_index(m, m[e].platform_id) is Some,
{
    if engager_index(m, m[e].platform_id) is None {
        lemma_engager_index_none(m, m[e].platform_id, m.len() as int);
    }
}

proof fn lemma_retained_have_radars<P>(m: Seq<EngagerView<P>>, radars: Seq<RadarInfo<P>>, k: int)
    requires
        0 <= k <= m.len(),
    ensures
        forall|e: int|
            0 <= e < retained(m, radars, k).len() ==> radar_of(radars, (#[trigger] retained(m, radars, k)[e]).platform_id)
                is Some,
    decreases k,
{
    if k > 0 {
        lemma_retained_have_radars(m, radars, k - 1);
        let prev = retained(m, radars, k - 1);
        let all = retained(m, radars, k);
        assert forall|e: int| 0 <= e < all.len() implies radar_of(radars, (#[trigger] all[e]).platform_id) is Some by {
            if e < prev.len() {
                assert(all[e] == prev[e]);
            }
        }
    }
}

proof fn lemma_new_radars_cover<P>(base: Seq<EngagerView<P>>, radars: Seq<RadarInfo<P>>, k: int)
    requires
        0 <= k <= radars.len(),
        forall|e: int| 0 <= e < base.len() ==> radar_of(radars, (#[trigger] base[e]).platform_id) is Some,
    ensures
        forall|e: int|
            0 <= e < with_new_radars(base, radars, k).len() ==> radar_of(
                radars,
                (#[trigger] with_new_radars(base, radars, k)[e]).platform_id,
            ) is Some,
        forall|j: int|
            0 <= j < k ==> engager_index(with_new_radars(base, radars, k), (#[trigger] radars[j]).id) is Some,
    decreases k,
{
    lemma_with_new_radars(base, radars, k);
    if k > 0 {
        lemma_new_radars_cover(base, radars, k - 1);
        let b = with_new_radars(base, radars, k - 1);
        let all = with_new_radars(base, radars, k);
        lemma_radar_listed(radars, k - 1);
        assert forall|e: int| 0 <= e < all.len() implies radar_of(radars, (#[trigger] all[e]).platform_id) is Some by {
            if e < b.len() {
                assert(all[e] == b[e]);
            }
        }
        assert forall|j: int| 0 <= j < k implies engager_index(all, (#[trigger] radars[j]).id) is Some by {
            let pid = radars[j].id;
            if j < k - 1 || engager_index(b, pid) is Some {
                let x = engager_index(b, pid)->0;
                lemma_engager_index(b, pid, b.len() as int, b.len() as int);
                assert(all[x] == b[x]);
                lemma_engager_listed(all, x);
            } else {
                assert(all[b.len() as int].platform_id == pid);
                lemma_engager_listed(all, b.len() as int);
            }
        }
    }
}

proof fn lemma_retained_all<P>(s: Seq<EngagerView<P>>, radars: Seq<RadarInfo<P>>, k: int)
    requires
        0 <= k <= s.len(),
        forall|e: int| 0 <= e < s.len() ==> radar_of(radars, (#[trigger] s[e]).platform_id) is Some,
    ensures
        retained(s, radars, k) == s.take(k),
    decreases k,
{
    if k > 0 {
        lemma_retained_all(s, radars, k - 1);
        assert(s.take(k) =~= s.take(k - 1).push(s[k - 1]));
    } else {
        assert(s.take(0) =~= Seq::<EngagerView<P>>::empty());
    }
}

proof fn lemma_no_new_radars<P>(s: Seq<EngagerView<P>>, radars: Seq<RadarInfo<P>>, k: int)
    requires
        0 <= k <= radars.len(),
        forall|j: int| 0 <= j < radars.len() ==> engager_index(s, (#[trigger] radars[j]).id) is Some,
    ensures
        with_new_radars(s, radars, k) == s,
    decreases k,
{
    if k > 0 {
        lemma_no_new_radars(s, radars, k - 1);
        assert(engager_index(s, radars[k - 1].id) is Some);
    }
}

/// Matching the engagers against the same radars a second time changes nothing.
pub proof fn sync_is_idempotent<P>(m: Seq<EngagerView<P>>, radars: Seq<RadarInfo<P>>)
    ensures
        synced(synced(m, radars), radars) == synced(m, radars),
{
    let r = retained(m, radars, m.len() as int);
    let s = synced(m, radars);
    lemma_retained_have_radars(m, radars, m.len() as int);
    lemma_new_radars_cover(r, radars, radars.len() as int);
    lemma_retained_all(s, radars, s.len() as int);
    assert(s.take(s.len() as int) =~= s);
    lemma_no_new_radars(s, radars, radars.len() as int);
}


/// Every engager belongs to a listed radar, and every listed radar has an engager.
pub open spec fn engagers_match_radars<P>(f: Seq<EngagerView<P>>, radars: Seq<RadarInfo<P>>) -> bool {
    &&& forall|e: int| 0 <= e < f.len() ==> radar_of(radars, (#[trigger] f[e]).platform_id) is Some
    &&& forall|j: int| 0 <= j < radars.len() ==> engager_index(f, (#[trigger] radars[j]).id) is Some
}

/// After matching against the radars, the engagers are exactly the radars' platforms.
pub proof fn synced_matches_radars<P>(m: Seq<EngagerView<P>>, radars: Seq<RadarInfo<P>>)
    ensures
        engagers_match_radars(synced(m, radars), radars),
{
    let r = retained(m, radars, m.len() as int);
    lemma_retained_have_radars(m, radars, m.len() as int);
    lemma_new_radars_cover(r, radars, radars.len() as int);
}

/// Keeping every engager's platform (in place) keeps the match with the radars.
pub(crate) proof fn lemma_match_radars_carries<P>(
    m: Seq<EngagerView<P>>,
    f: Seq<EngagerView<P>>,
    radars: Seq<RadarInfo<P>>,
)
    requires
        engagers_match_radars(m, radars),
        f.len() == m.len(),
        forall|e: int| 0 <= e < m.len() ==> (#[trigger] f[e]).platform_id == m[e].platform_id,
    ensures
        engagers_match_radars(f, radars),
{
    assert forall|e: int| 0 <= e < f.len() implies radar_of(radars, (#[trigger] f[e]).platform_id) is Some by {
        assert(radar_of(radars, m[e].platform_id) is Some);
    }
    assert forall|j: int| 0 <= j < radars.len() implies engager_index(f, (#[trigger] radars[j]).id) is Some by {
        let pid = radars[j].id;
        lemma_engager_index(m, pid, m.len() as int, m.len() as int);
        let x = engager_index(m, pid)->0;
        assert(f[x].platform_id == pid);
        lemma_engager_listed(f, x);
    }
}

/// Every interceptor that chases a threat chases one of the listed ids.
pub open spec fn targets_among<P>(f: Seq<EngagerView<P>>, ids: Seq<u128>) -> bool {
    forall|e: int, s: int|
        0 <= e < f.len() && 0 <= s < f[e].shots.len() ==> match (#[trigger] f[e].shots[s]).assignment {
            Assignment::Target { id, .. } => ids.contains(id),
            Assignment::Divert => true,
        }
}

/// After lost targets are diverted, every pursuit is of a live threat.
pub proof fn diverted_targets_alive<P>(m: Seq<EngagerView<P>>, alive: Seq<u128>)
    ensures
        targets_among(diverted_lost(m, alive), alive),
{
    let f = diverted_lost(m, alive);
    assert forall|e: int, s: int| 0 <= e < f.len() && 0 <= s < f[e].shots.len() implies match (#[trigger] f[e].shots[s]).assignment {
        Assignment::Target { id, .. } => alive.contains(id),
        Assignment::Divert => true,
    } by {
        assert(f[e].shots[s] == divert_if_lost(m[e].shots[s], alive));
    }
}

/// Re-tasking by a matching keeps every pursuit among the given threats.
pub proof fn assigned_targets_among<P>(
    m: Seq<EngagerView<P>>,
    radars: Seq<RadarInfo<P>>,
    threats: Seq<ThreatInfo>,
    engageable: Seq<u128>,
    geo: Geometry,
    a: Seq<usize>,
    ids: Seq<u128>,
)
    requires
        well_formed_view(m),
        m.len() <= usize::MAX,
        forall|e: int| 0 <= e < m.len() ==> #[trigger] m[e].shots.len() <= usize::MAX,
        is_matching(a, a.len() as int),
        a.len() >= plan_movers(m).len(),
        targets_among(m, threat_ids(threats)),
    ensures
        targets_among(assigned(m, radars, threats, engageable, geo, a, ids), threat_ids(threats)),
{
    let f = assigned(m, radars, threats, engageable, geo, a, ids);
    assigned_keeps_engagers(m, radars, threats, engageable, geo, a, ids);
    assigned_one_hunter_per_threat(m, radars, threats, engageable, geo, a, ids);
    assert forall|e: int, s: int| 0 <= e < f.len() && 0 <= s < f[e].shots.len() implies match (#[trigger] f[e].shots[s]).assignment {
        Assignment::Target { id, .. } => threat_ids(threats).contains(id),
        Assignment::Divert => true,
    } by {
        if auto_target(f, e, s) is Some {
        } else if s < m[e].shots.len() {
            assert(m[e].shots[s] == m[e].shots[s]);
        }
    }
}

/// Every interceptor launched (a shot of `f` beyond those of `m`) bears a
/// version-4 UUID: never the nil id.
pub open spec fn launched_ids_fresh<P>(m: Seq<EngagerView<P>>, f: Seq<EngagerView<P>>) -> bool {
    forall|e: int, s: int|
        0 <= e < m.len() && m[e].shots.len() <= s < f[e].shots.len() ==> is_v4_id((#[trigger] f[e].shots[s]).id)
}

/// Assignment `a` is the pursuit of threat `t`.
pub open spec fn chases(a: Assignment, t: u128) -> bool {
    match a {
        Assignment::Target { id, .. } => id == t,
        Assignment::Divert => false,
    }
}

/// Threats destroyed by the first `n` shots are targets of those shots.
proof fn lemma_hits_are_targets<P>(shots: Seq<Shot<P>>, outs: Seq<ShotOutcome<P>>, n: int)
    requires
        0 <= n <= shots.len(),
    ensures
        forall|i: int| 0 <= i < hits(shots, outs, n).len() ==> exists|j: int|
            0 <= j < n && chases((#[trigger] shots[j]).assignment, #[trigger] hits(shots, outs, n)[i]),
    decreases n,
{
    if n > 0 {
        lemma_hits_are_targets(shots, outs, n - 1);
        let prev = hits(shots, outs, n - 1);
        let all = hits(shots, outs, n);
        assert forall|i: int| #![trigger all[i]] 0 <= i < all.len() implies exists|j: int|
            0 <= j < n && chases((#[trigger] shots[j]).assignment, all[i]) by {
            if i < prev.len() {
                assert(all[i] == prev[i]);
                let j = choose|j: int| 0 <= j < n - 1 && chases((#[trigger] shots[j]).assignment, prev[i]);
                assert(shots[j] == shots[j]);
            } else {
                assert(shots[n - 1] == shots[n - 1]);
            }
        }
    }
}

proof fn lemma_destroyed_among<P>(m: Seq<EngagerView<P>>, outs: Seq<ShotOutcome<P>>, ids: Seq<u128>, k: int)
    requires
        0 <= k <= m.len(),
        targets_among(m, ids),
    ensures
        forall|i: int| 0 <= i < destroyed_upto(m, outs, k).len() ==> ids.contains(#[trigger] destroyed_upto(m, outs, k)[i]),
    decreases k,
{
    if k > 0 {
        lemma_destroyed_among(m, outs, ids, k - 1);
        let prev = destroyed_upto(m, outs, k - 1);
        let sh = m[k - 1].shots;
        let h = hits(sh, outcomes_of(m, outs, k - 1), sh.len() as int);
        lemma_hits_are_targets(sh, outcomes_of(m, outs, k - 1), sh.len() as int);
        let all = destroyed_upto(m, outs, k);
        assert(all == prev + h);
        assert forall|i: int| 0 <= i < all.len() implies ids.contains(#[trigger] all[i]) by {
            if i < prev.len() {
                assert(all[i] == prev[i]);
            } else {
                assert(all[i] == h[i - prev.len()]);
                let j = choose|j: int| 0 <= j < sh.len() && chases((#[trigger] sh[j]).assignment, h[i - prev.len()]);
                assert(m[k - 1].shots[j] == sh[j]);
            }
        }
    }
}

/// Only pursued threats are destroyed: when every pursuit is of a listed id,
/// so is every threat that moving the interceptors destroys.
pub proof fn destroyed_are_targets<P>(m: Seq<EngagerView<P>>, outs: Seq<ShotOutcome<P>>, ids: Seq<u128>)
    requires
        targets_among(m, ids),
    ensures
        forall|i: int|
            0 <= i < destroyed_upto(m, outs, m.len() as int).len() ==> ids.contains(
                #[trigger] destroyed_upto(m, outs, m.len() as int)[i],
            ),
{
    lemma_destroyed_among(m, outs, ids, m.len() as int);
}


/// Number of the first `n` flying interceptors that chase a threat (are not diverting).
pub open spec fn pursuit_count<P>(fl: Seq<FlyingInterceptor<P>>, n: int) -> nat
    decreases n,
{
    if n <= 0 {
        0
    } else {
        pursuit_count(fl, n - 1) + if fl[n - 1].diverting {
            0nat
        } else {
            1nat
        }
    }
}

proof fn lemma_pursuit_prefix<P>(a: Seq<FlyingInterceptor<P>>, b: Seq<FlyingInterceptor<P>>, j: int)
    requires
        0 <= j <= a.len(),
    ensures
        pursuit_count(a + b, j) == pursuit_count(a, j),
    decreases j,
{
    if j > 0 {
        lemma_pursuit_prefix(a, b, j - 1);
        assert((a + b)[j - 1] == a[j - 1]);
    }
}

proof fn lemma_pursuit_concat<P>(a: Seq<FlyingInterceptor<P>>, b: Seq<FlyingInterceptor<P>>, j: int)
    requires
        0 <= j <= b.len(),
    ensures
        pursuit_count(a + b, a.len() + j) == pursuit_count(a, a.len() as int) + pursuit_count(b, j),
    decreases j,
{
    if j > 0 {
        lemma_pursuit_concat(a, b, j - 1);
        assert((a + b)[a.len() + j - 1] == b[j - 1]);
    } else {
        lemma_pursuit_prefix(a, b, a.len() as int);
    }
}

proof fn lemma_shot_lines_count<P>(pid: u128, shots: Seq<Shot<P>>, fl: Seq<FlyingInterceptor<P>>, n: int)
    requires
        0 <= n <= shots.len(),
        n <= fl.len(),
        forall|i: int| 0 <= i < n ==> (#[trigger] fl[i]).diverting == (shots[i].assignment is Divert),
    ensures
        shot_lines(pid, shots, n).len() == pursuit_count(fl, n),
    decreases n,
{
    if n > 0 {
        lemma_shot_lines_count(pid, shots, fl, n - 1);
        assert(fl[n - 1].diverting == (shots[n - 1].assignment is Divert));
    }
}

proof fn lemma_lines_count<P>(m: Seq<EngagerView<P>>, k: int)
    requires
        0 <= k <= m.len(),
    ensures
        lines_upto(m, k).len() == pursuit_count(flying_upto(m, k), flying_upto(m, k).len() as int),
    decreases k,
{
    if k > 0 {
        lemma_lines_count(m, k - 1);
        let prev = flying_upto(m, k - 1);
        let all = flying_upto(m, k);
        let sh = m[k - 1].shots;
        let here = all.subrange(prev.len() as int, all.len() as int);
        assert(all == prev + here);
        assert forall|i: int| 0 <= i < sh.len() implies (#[trigger] here[i]).diverting == (sh[i].assignment is Divert) by {
            assert(here[i] == flying(sh[i]));
        }
        lemma_shot_lines_count(m[k - 1].platform_id, sh, here, sh.len() as int);
        lemma_pursuit_concat(prev, here, here.len() as int);
    }
}

/// There is one launch line per interceptor that chases a threat: the lines
/// number exactly the flying interceptors that are not diverting.
pub proof fn lines_count_pursuits<P>(m: Seq<EngagerView<P>>)
    ensures
        lines_upto(m, m.len() as int).len() == pursuit_count(
            flying_upto(m, m.len() as int),
            flying_upto(m, m.len() as int).len() as int,
        ),
{
    lemma_lines_count(m, m.len() as int);
}


/// A measured range comes from one of the listed ranges.
proof fn lemma_range_in_ranges(s: Seq<Range>, sid: u128, tid: u128, k: int)
    requires
        0 <= k <= s.len(),
    ensures
        range_upto(s, sid, tid, k) matches Some(d) ==> exists|i: int| 0 <= i < k && (#[trigger] s[i]).distance == d,
    decreases k,
{
    if k > 0 {
        lemma_range_in_ranges(s, sid, tid, k - 1);
    }
}

/// Total weight of a matching whose rows past the first weigh nothing.
proof fn lemma_value_first_row(w: Seq<Seq<i64>>, a: Seq<usize>, k: int)
    requires
        1 <= k <= a.len(),
        forall|i: int, j: int| 1 <= i < k && 0 <= j < w[i].len() ==> #[trigger] w[i][j] == 0,
        forall|i: int| 0 <= i < k ==> (#[trigger] a[i]) < w[i].len(),
    ensures
        matching_value(w, a, k) == w[0][a[0] as int],
    decreases k,
{
    if k > 1 {
        lemma_value_first_row(w, a, k - 1);
        assert(w[k - 1][a[k - 1] as int] == 0);
    } else {
        assert(matching_value(w, a, 0) == 0);
    }
}

/// Later rows that neither move nor launch leave the first row's effect as it is.
proof fn lemma_rows_after_first<P>(
    m: Seq<EngagerView<P>>,
    targets: Seq<ThreatInfo>,
    radars: Seq<RadarInfo<P>>,
    reach: Seq<Reach>,
    ranges: Seq<Range>,
    a: Seq<usize>,
    k: int,
    ids: Seq<u128>,
)
    requires
        1 <= k,
        plan_movers(m).len() == 1,
        plan_tubes(m).len() == 0,
    ensures
        apply_rows(m, plan_movers(m), plan_tubes(m), targets, radars, reach, ranges, a, k, ids) == apply_row(
            m,
            plan_movers(m),
            plan_tubes(m),
            targets,
            radars,
            reach,
            ranges,
            a,
            0,
            ids[0],
        ),
    decreases k,
{
    if k > 1 {
        lemma_rows_after_first(m, targets, radars, reach, ranges, a, k - 1, ids);
    } else {
        assert(apply_rows(m, plan_movers(m), plan_tubes(m), targets, radars, reach, ranges, a, 0, ids) == m);
    }
}

/// Hysteresis: an in-flight interceptor keeps its target unless another one
/// is clearly better. With a single automatically tasked interceptor and no
/// free launch tube, when its current target (column `c`) is worth more to it,
/// bonus included, than every other target, and is worth pursuing at all, any
/// best matching leaves it on that target.
pub proof fn lone_mover_keeps_its_target<P>(
    m: Seq<EngagerView<P>>,
    radars: Seq<RadarInfo<P>>,
    threats: Seq<ThreatInfo>,
    engageable: Seq<u128>,
    geo: Geometry,
    a: Seq<usize>,
    ids: Seq<u128>,
    c: int,
)
    requires
        well_formed_view(m),
        m.len() <= usize::MAX,
        forall|e: int| 0 <= e < m.len() ==> #[trigger] m[e].shots.len() <= usize::MAX,
        within_limits(threats, geo),
        threats.len() <= SIZE_LIMIT,
        plan_movers(m).len() == 1,
        plan_tubes(m).len() == 0,
        0 <= c < plan_targets(m, threats, engageable).len(),
        plan_targets(m, threats, engageable)[c].id == plan_movers(m)[0].current,
        mover_score_spec(geo.ranges@, plan_movers(m)[0].shot_id, plan_targets(m, threats, engageable)[c], plan_movers(m)[0].current) > 0,
        forall|j: int|
            0 <= j < plan_targets(m, threats, engageable).len() && j != c ==> mover_score_spec(
                geo.ranges@,
                plan_movers(m)[0].shot_id,
                #[trigger] plan_targets(m, threats, engageable)[j],
                plan_movers(m)[0].current,
            ) < mover_score_spec(
                geo.ranges@,
                plan_movers(m)[0].shot_id,
                plan_targets(m, threats, engageable)[c],
                plan_movers(m)[0].current,
            ),
        is_best_matching(plan_weights(m, radars, threats, engageable, geo), a),
    ensures
        a[0] == c,
        assigned(m, radars, threats, engageable, geo, a, ids)[plan_movers(m)[0].engager as int].shots[plan_movers(
            m,
        )[0].shot as int].assignment == (Assignment::Target { id: plan_movers(m)[0].current, locked: false }),
{
    let movers = plan_movers(m);
    let targets = plan_targets(m, threats, engageable);
    let w = plan_weights(m, radars, threats, engageable, geo);
    let n = targets.len() as int;
    let mv = movers[0];
    lemma_movers_upto(m, m.len() as int);
    lemma_eligible(threats, engageable, locked_targets(m), threats.len() as int);
    assert(w.len() == n);
    // Each score is a small integer, so the weights hold it exactly.
    assert forall|j: int| 0 <= j < n implies #[trigger] w[0][j] == mover_score_spec(geo.ranges@, mv.shot_id, targets[j], mv.current) by {
        let i = choose|i: int| 0 <= i < threats.len() && threats[i] == targets[j];
        assert(targets[j].threat_level <= LEVEL_LIMIT);
        match range_of(geo.ranges@, mv.shot_id, targets[j].id) {
            Some(d) => {
                lemma_range_in_ranges(geo.ranges@, mv.shot_id, targets[j].id, geo.ranges@.len() as int);
            },
            None => {},
        }
    }
    assert forall|i: int, j: int| 1 <= i < n && 0 <= j < w[i].len() implies #[trigger] w[i][j] == 0 by {}
    assert(n <= SIZE_LIMIT);
    let cu = c as usize;
    if a[0] as int != c {
        let x = a[0];
        let b = if exists|r: int| 0 <= r < n && a[r] == cu {
            let r = choose|r: int| 0 <= r < n && a[r] == cu;
            a.update(0, cu).update(r, x)
        } else {
            a.update(0, cu)
        };
        assert(b.len() == n);
        assert(b[0] == cu);
        assert forall|i: int| 0 <= i < n implies #[trigger] b[i] < n by {}
        assert forall|i: int, j: int| 0 <= i < n && 0 <= j < n && i != j implies #[trigger] b[i] != #[trigger] b[j] by {
            assert(a[i] != a[j]);
        }
        assert(is_matching(b, n));
        lemma_value_first_row(w, a, n);
        lemma_value_first_row(w, b, n);
        assert(w[0][x as int] < w[0][c]);
        assert(matching_value(w, b, b.len() as int) <= matching_value(w, a, a.len() as int));
        assert(false);
    }
    lemma_rows_after_first(m, targets, radars, geo.reach@, geo.ranges@, a, a.len() as int, ids);
}


proof fn lemma_shot_locks_cover<P>(shots: Seq<Shot<P>>, n: int)
    requires
        0 <= n <= shots.len(),
    ensures
        forall|s: int, t: u128|
            0 <= s < n && (#[trigger] shots[s]).assignment == (Assignment::Target { id: t, locked: true })
                ==> #[trigger] shot_locks(shots, n).contains(t),
    decreases n,
{
    if n > 0 {
        lemma_shot_locks_cover(shots, n - 1);
        let prev = shot_locks(shots, n - 1);
        assert forall|s: int, t: u128|
            0 <= s < n && (#[trigger] shots[s]).assignment == (Assignment::Target { id: t, locked: true })
                implies #[trigger] shot_locks(shots, n).contains(t) by {
            if s < n - 1 {
                assert(prev.contains(t));
                let x = choose|x: int| 0 <= x < prev.len() && prev[x] == t;
                assert(shot_locks(shots, n)[x] == t);
            } else {
                assert(shot_locks(shots, n)[prev.len() as int] == t);
            }
        }
    }
}

proof fn lemma_locks_cover<P>(m: Seq<EngagerView<P>>, k: int)
    requires
        0 <= k <= m.len(),
    ensures
        forall|e: int, s: int, t: u128|
            0 <= e < k && 0 <= s < m[e].shots.len() && (#[trigger] m[e].shots[s]).assignment == (Assignment::Target {
                id: t,
                locked: true,
            }) ==> #[trigger] locks_upto(m, k).contains(t),
    decreases k,
{
    if k > 0 {
        lemma_locks_cover(m, k - 1);
        let prev = locks_upto(m, k - 1);
        let sh = m[k - 1].shots;
        let here = shot_locks(sh, sh.len() as int);
        lemma_shot_locks_cover(sh, sh.len() as int);
        let all = locks_upto(m, k);
        assert(all == prev + here);
        assert forall|e: int, s: int, t: u128|
            0 <= e < k && 0 <= s < m[e].shots.len() && (#[trigger] m[e].shots[s]).assignment == (Assignment::Target {
                id: t,
                locked: true,
            }) implies #[trigger] locks_upto(m, k).contains(t) by {
            if e < k - 1 {
                assert(prev.contains(t));
                let x = choose|x: int| 0 <= x < prev.len() && prev[x] == t;
                assert(all[x] == t);
            } else {
                assert(sh[s] == m[e].shots[s]);
                assert(here.contains(t));
                let x = choose|x: int| 0 <= x < here.len() && here[x] == t;
                assert(all[prev.len() + x] == t);
            }
        }
    }
}

/// Every threat held by an operator-locked interceptor, of any platform, is
/// among the locked targets.
pub proof fn locked_targets_cover_every_lock<P>(m: Seq<EngagerView<P>>)
    ensures
        forall|e: int, s: int, t: u128|
            0 <= e < m.len() && 0 <= s < m[e].shots.len() && (#[trigger] m[e].shots[s]).assignment == (Assignment::Target {
                id: t,
                locked: true,
            }) ==> #[trigger] locked_targets(m).contains(t),
{
    lemma_locks_cover(m, m.len() as int);
}

/// Re-tasking spares threats held by operator-locked interceptors: whatever
/// matching is applied, no automatically tasked interceptor afterwards chases a
/// threat that some locked interceptor, of any platform, held before.
pub proof fn retask_spares_locked_threats<P>(
    m: Seq<EngagerView<P>>,
    radars: Seq<RadarInfo<P>>,
    threats: Seq<ThreatInfo>,
    engageable: Seq<u128>,
    geo: Geometry,
    a: Seq<usize>,
    ids: Seq<u128>,
)
    requires
        well_formed_view(m),
        m.len() <= usize::MAX,
        forall|e: int| 0 <= e < m.len() ==> #[trigger] m[e].shots.len() <= usize::MAX,
        is_matching(a, a.len() as int),
        a.len() >= plan_movers(m).len(),
    ensures
        forall|e1: int, s1: int, e2: int, s2: int|
            #[trigger] auto_target(assigned(m, radars, threats, engageable, geo, a, ids), e1, s1) is Some && 0 <= e2
                < m.len() && 0 <= s2 < m[e2].shots.len() && (#[trigger] m[e2].shots[s2]).assignment is Target
                && m[e2].shots[s2].assignment->locked ==> auto_target(
                assigned(m, radars, threats, engageable, geo, a, ids),
                e1,
                s1,
            ) != Some(m[e2].shots[s2].assignment->id),
{
    let f = assigned(m, radars, threats, engageable, geo, a, ids);
    assigned_one_hunter_per_threat(m, radars, threats, engageable, geo, a, ids);
    locked_targets_cover_every_lock(m);
    assert forall|e1: int, s1: int, e2: int, s2: int|
        #[trigger] auto_target(f, e1, s1) is Some && 0 <= e2 < m.len() && 0 <= s2 < m[e2].shots.len()
            && (#[trigger] m[e2].shots[s2]).assignment is Target && m[e2].shots[s2].assignment->locked
            implies auto_target(f, e1, s1) != Some(m[e2].shots[s2].assignment->id) by {
        let t = m[e2].shots[s2].assignment->id;
        assert(m[e2].shots[s2].assignment == (Assignment::Target { id: t, locked: true }));
        assert(locked_targets(m).contains(t));
    }
}

proof fn lemma_hits_cover<P>(shots: Seq<Shot<P>>, outs: Seq<ShotOutcome<P>>, n: int)
    requires
        0 <= n <= shots.len(),
    ensures
        forall|s: int|
            0 <= s < n && outs[s] is Hit && (#[trigger] shots[s]).assignment is Target ==> hits(shots, outs, n).contains(
                shots[s].assignment->id,
            ),
    decreases n,
{
    if n > 0 {
        lemma_hits_cover(shots, outs, n - 1);
        let prev = hits(shots, outs, n - 1);
        let all = hits(shots, outs, n);
        assert forall|s: int| 0 <= s < n && outs[s] is Hit && (#[trigger] shots[s]).assignment is Target implies all.contains(
            shots[s].assignment->id,
        ) by {
            let t = shots[s].assignment->id;
            if s < n - 1 {
                assert(prev.contains(t));
                let x = choose|x: int| 0 <= x < prev.len() && prev[x] == t;
                assert(all[x] == t);
            } else {
                assert(all[prev.len() as int] == t);
            }
        }
    }
}

proof fn lemma_destroyed_cover<P>(m: Seq<EngagerView<P>>, outs: Seq<ShotOutcome<P>>, k: int)
    requires
        0 <= k <= m.len(),
        outs.len() == total_shots(m),
    ensures
        forall|e: int, s: int|
            0 <= e < k && 0 <= s < m[e].shots.len() && outs[offset(m, e) + s] is Hit && (#[trigger] m[e].shots[s]).assignment
                is Target ==> destroyed_upto(m, outs, k).contains(m[e].shots[s].assignment->id),
    decreases k,
{
    if k > 0 {
        lemma_destroyed_cover(m, outs, k - 1);
        let prev = destroyed_upto(m, outs, k - 1);
        let sh = m[k - 1].shots;
        let o = outcomes_of(m, outs, k - 1);
        let h = hits(sh, o, sh.len() as int);
        lemma_hits_cover(sh, o, sh.len() as int);
        lemma_offset(m, k - 1, m.len() as int);
        let all = destroyed_upto(m, outs, k);
        assert(all == prev + h);
        assert forall|e: int, s: int|
            0 <= e < k && 0 <= s < m[e].shots.len() && outs[offset(m, e) + s] is Hit && (#[trigger] m[e].shots[s]).assignment
                is Target implies all.contains(m[e].shots[s].assignment->id) by {
            let t = m[e].shots[s].assignment->id;
            if e < k - 1 {
                assert(prev.contains(t));
                let x = choose|x: int| 0 <= x < prev.len() && prev[x] == t;
                assert(all[x] == t);
            } else {
                assert(o[s] == outs[offset(m, e) + s]);
                assert(sh[s] == m[e].shots[s]);
                assert(h.contains(t));
                let x = choose|x: int| 0 <= x < h.len() && h[x] == t;
                assert(all[prev.len() + x] == t);
            }
        }
    }
}

/// Every hit is reported: a shot chasing a threat, locked by the operator or
/// not, whose outcome is a hit puts that threat among those destroyed.
pub proof fn every_hit_is_reported<P>(m: Seq<EngagerView<P>>, outs: Seq<ShotOutcome<P>>)
    requires
        outs.len() == total_shots(m),
    ensures
        forall|e: int, s: int|
            0 <= e < m.len() && 0 <= s < m[e].shots.len() && outs[offset(m, e) + s] is Hit && (#[trigger] m[e].shots[s]).assignment
                is Target ==> destroyed_upto(m, outs, m.len() as int).contains(m[e].shots[s].assignment->id),
{
    lemma_destroyed_cover(m, outs, m.len() as int);
}


/// Number of the first `n` shots that hit while chasing a threat.
pub open spec fn hit_count<P>(shots: Seq<Shot<P>>, outs: Seq<ShotOutcome<P>>, n: int) -> nat
    decreases n,
{
    if n <= 0 {
        0
    } else {
        hit_count(shots, outs, n - 1) + if outs[n - 1] is Hit && shots[n - 1].assignment is Target {
            1nat
        } else {
            0nat
        }
    }
}

/// Number of hits, while chasing a threat, of the shots of the first `k` engagers.
pub open spec fn kill_count<P>(m: Seq<EngagerView<P>>, outs: Seq<ShotOutcome<P>>, k: int) -> nat
    decreases k,
{
    if k <= 0 {
        0
    } else {
        kill_count(m, outs, k - 1) + hit_count(m[k - 1].shots, outcomes_of(m, outs, k - 1), m[k - 1].shots.len() as int)
    }
}

proof fn lemma_hits_exact<P>(shots: Seq<Shot<P>>, outs: Seq<ShotOutcome<P>>, n: int)
    requires
        0 <= n <= shots.len(),
    ensures
        hits(shots, outs, n).len() == hit_count(shots, outs, n),
        forall|i: int| #![trigger hits(shots, outs, n)[i]] 0 <= i < hits(shots, outs, n).len() ==> exists|s: int|
            0 <= s < n && outs[s] is Hit && (#[trigger] shots[s]).assignment is Target && shots[s].assignment->id
                == hits(shots, outs, n)[i],
    decreases n,
{
    if n > 0 {
        lemma_hits_exact(shots, outs, n - 1);
        let prev = hits(shots, outs, n - 1);
        let all = hits(shots, outs, n);
        assert forall|i: int| #![trigger all[i]] 0 <= i < all.len() implies exists|s: int|
            0 <= s < n && outs[s] is Hit && (#[trigger] shots[s]).assignment is Target && shots[s].assignment->id == all[i] by {
            if i < prev.len() {
                assert(all[i] == prev[i]);
                let s = choose|s: int| 0 <= s < n - 1 && outs[s] is Hit && (#[trigger] shots[s]).assignment is Target
                    && shots[s].assignment->id == prev[i];
                assert(shots[s] == shots[s]);
            } else {
                assert(shots[n - 1] == shots[n - 1]);
            }
        }
    }
}

/// Some shot of the first `k` engagers hit while chasing threat `t`.
pub open spec fn hit_while_chasing<P>(m: Seq<EngagerView<P>>, outs: Seq<ShotOutcome<P>>, k: int, t: u128) -> bool {
    exists|e: int, s: int|
        0 <= e < k && 0 <= s < m[e].shots.len() && outs[offset(m, e) + s] is Hit && (#[trigger] m[e].shots[s]).assignment
            is Target && m[e].shots[s].assignment->id == t
}

proof fn lemma_destroyed_exact<P>(m: Seq<EngagerView<P>>, outs: Seq<ShotOutcome<P>>, k: int)
    requires
        0 <= k <= m.len(),
        outs.len() == total_shots(m),
    ensures
        destroyed_upto(m, outs, k).len() == kill_count(m, outs, k),
        forall|i: int|
            0 <= i < destroyed_upto(m, outs, k).len() ==> hit_while_chasing(m, outs, k, #[trigger] destroyed_upto(m, outs, k)[i]),
    decreases k,
{
    if k > 0 {
        lemma_destroyed_exact(m, outs, k - 1);
        let prev = destroyed_upto(m, outs, k - 1);
        let sh = m[k - 1].shots;
        let o = outcomes_of(m, outs, k - 1);
        let h = hits(sh, o, sh.len() as int);
        lemma_hits_exact(sh, o, sh.len() as int);
        lemma_offset(m, k - 1, m.len() as int);
        let all = destroyed_upto(m, outs, k);
        assert(all == prev + h);
        assert forall|i: int| 0 <= i < all.len() implies hit_while_chasing(m, outs, k, #[trigger] all[i]) by {
            if i < prev.len() {
                assert(all[i] == prev[i]);
                assert(hit_while_chasing(m, outs, k - 1, prev[i]));
                let (e, s) = choose|e: int, s: int|
                    0 <= e < k - 1 && 0 <= s < m[e].shots.len() && outs[offset(m, e) + s] is Hit && (#[trigger] m[e].shots[s]).assignment
                        is Target && m[e].shots[s].assignment->id == prev[i];
                assert(m[e].shots[s] == m[e].shots[s]);
            } else {
                let j = i - prev.len();
                assert(all[i] == h[j]);
                let s = choose|s: int| 0 <= s < sh.len() && o[s] is Hit && (#[trigger] sh[s]).assignment is Target
                    && sh[s].assignment->id == h[j];
                assert(o[s] == outs[offset(m, k - 1) + s]);
                assert(m[k - 1].shots[s] == sh[s]);
            }
        }
    }
}

/// Only hits are reported, each once: every threat reported destroyed is the
/// target of a shot that hit, and there are as many reports as shots that hit
/// while chasing a threat.
pub proof fn only_hits_are_reported<P>(m: Seq<EngagerView<P>>, outs: Seq<ShotOutcome<P>>)
    requires
        outs.len() == total_shots(m),
    ensures
        destroyed_upto(m, outs, m.len() as int).len() == kill_count(m, outs, m.len() as int),
        forall|i: int|
            0 <= i < destroyed_upto(m, outs, m.len() as int).len() ==> hit_while_chasing(
                m,
                outs,
                m.len() as int,
                #[trigger] destroyed_upto(m, outs, m.len() as int)[i],
            ),
{
    lemma_destroyed_exact(m, outs, m.len() as int);
}

/// An automatic (not operator-locked) pursuit.
pub open spec fn is_auto(a: Assignment) -> bool {
    a matches Assignment::Target { locked: false, .. }
}

/// The threat chased by shot `s` of engager `e` when it was tasked automatically.
pub open spec fn auto_target<P>(f: Seq<EngagerView<P>>, e: int, s: int) -> Option<u128> {
    if 0 <= e < f.len() && 0 <= s < f[e].shots.len() {
        match f[e].shots[s].assignment {
            Assignment::Target { id, locked: false } => Some(id),
            _ => None,
        }
    } else {
        None
    }
}

/// No two automatically tasked interceptors chase the same threat.
pub open spec fn one_hunter_per_threat<P>(f: Seq<EngagerView<P>>) -> bool {
    forall|e1: int, s1: int, e2: int, s2: int|
        #[trigger] auto_target(f, e1, s1) is Some && auto_target(f, e1, s1) == #[trigger] auto_target(f, e2, s2)
            ==> e1 == e2 && s1 == s2
}

/// The hunting picture `f` embeds into `m`: each automatically tasked shot of
/// `f` is, by `g`, a distinct shot of `m` with the same automatic target.
proof fn lemma_one_hunter_embed<P>(m: Seq<EngagerView<P>>, f: Seq<EngagerView<P>>, g: spec_fn(int, int) -> (int, int))
    requires
        one_hunter_per_threat(m),
        forall|e: int, s: int|
            #[trigger] auto_target(f, e, s) is Some ==> auto_target(m, g(e, s).0, g(e, s).1) == auto_target(f, e, s),
        forall|e1: int, s1: int, e2: int, s2: int|
            #[trigger] auto_target(f, e1, s1) is Some && #[trigger] auto_target(f, e2, s2) is Some && g(e1, s1) == g(
                e2,
                s2,
            ) ==> e1 == e2 && s1 == s2,
    ensures
        one_hunter_per_threat(f),
{
    assert forall|e1: int, s1: int, e2: int, s2: int|
        #[trigger] auto_target(f, e1, s1) is Some && auto_target(f, e1, s1) == #[trigger] auto_target(f, e2, s2)
            implies e1 == e2 && s1 == s2 by {
        let a = g(e1, s1);
        let b = g(e2, s2);
        assert(auto_target(m, a.0, a.1) == auto_target(m, b.0, b.1));
        assert(a == b);
    }
}

/// Where shot `s` of `surviving(shots, outs, n)` came from.
spec fn survivor_origin<P>(shots: Seq<Shot<P>>, outs: Seq<ShotOutcome<P>>, n: int, s: int) -> int
    decreases n,
{
    if n <= 0 {
        0
    } else {
        match outs[n - 1] {
            ShotOutcome::Moved(_) => if s == surviving(shots, outs, n - 1).len() {
                n - 1
            } else {
                survivor_origin(shots, outs, n - 1, s)
            },
            _ => survivor_origin(shots, outs, n - 1, s),
        }
    }
}

proof fn lemma_survivor_origin<P>(shots: Seq<Shot<P>>, outs: Seq<ShotOutcome<P>>, n: int)
    requires
        0 <= n,
    ensures
        forall|s: int|
            #![trigger surviving(shots, outs, n)[s]]
            0 <= s < surviving(shots, outs, n).len() ==> 0 <= survivor_origin(shots, outs, n, s) < n
                && surviving(shots, outs, n)[s].assignment == shots[survivor_origin(shots, outs, n, s)].assignment,
        forall|s1: int, s2: int|
            0 <= s1 < s2 < surviving(shots, outs, n).len() ==> #[trigger] survivor_origin(shots, outs, n, s1)
                < #[trigger] survivor_origin(shots, outs, n, s2),
    decreases n,
{
    if n > 0 {
        lemma_survivor_origin(shots, outs, n - 1);
        lemma_surviving_len(shots, outs, n - 1);
        let prev = surviving(shots, outs, n - 1);
        let all = surviving(shots, outs, n);
        assert forall|s: int| #![trigger all[s]] 0 <= s < all.len() implies 0 <= survivor_origin(shots, outs, n, s) < n
            && all[s].assignment == shots[survivor_origin(shots, outs, n, s)].assignment by {
            if s < prev.len() {
                assert(all[s] == prev[s]);
            }
        }
        assert forall|s1: int, s2: int| 0 <= s1 < s2 < all.len() implies #[trigger] survivor_origin(shots, outs, n, s1)
            < #[trigger] survivor_origin(shots, outs, n, s2) by {
            if s2 < prev.len() {
                assert(survivor_origin(shots, outs, n - 1, s1) < survivor_origin(shots, outs, n - 1, s2));
            } else {
                assert(prev[s1] == all[s1]);
            }
        }
    }
}

/// Moving interceptors and taking spent ones out keeps one hunter per threat.
pub(crate) proof fn lemma_advanced_one_hunter<P>(m: Seq<EngagerView<P>>, outs: Seq<ShotOutcome<P>>)
    requires
        one_hunter_per_threat(m),
    ensures
        one_hunter_per_threat(advanced(m, outs)),
{
    let f = advanced(m, outs);
    let g = |e: int, s: int| (e, survivor_origin(m[e].shots, outcomes_of(m, outs, e), m[e].shots.len() as int, s));
    assert forall|e: int| 0 <= e < m.len() implies #[trigger] f[e].shots == surviving(
        m[e].shots,
        outcomes_of(m, outs, e),
        m[e].shots.len() as int,
    ) by {}
    assert forall|e: int, s: int| #[trigger] auto_target(f, e, s) is Some implies auto_target(m, g(e, s).0, g(e, s).1)
        == auto_target(f, e, s) by {
        lemma_survivor_origin(m[e].shots, outcomes_of(m, outs, e), m[e].shots.len() as int);
        assert(f[e].shots[s] == surviving(m[e].shots, outcomes_of(m, outs, e), m[e].shots.len() as int)[s]);
    }
    assert forall|e1: int, s1: int, e2: int, s2: int|
        #[trigger] auto_target(f, e1, s1) is Some && #[trigger] auto_target(f, e2, s2) is Some && g(e1, s1) == g(e2, s2)
            implies e1 == e2 && s1 == s2 by {
        lemma_survivor_origin(m[e1].shots, outcomes_of(m, outs, e1), m[e1].shots.len() as int);
        let o1 = survivor_origin(m[e1].shots, outcomes_of(m, outs, e1), m[e1].shots.len() as int, s1);
        let o2 = survivor_origin(m[e1].shots, outcomes_of(m, outs, e1), m[e1].shots.len() as int, s2);
        if s1 < s2 {
            assert(o1 < o2);
        } else if s2 < s1 {
            assert(o2 < o1);
        }
    }
    lemma_one_hunter_embed(m, f, g);
}

/// Which engager of `m` engager `e` of `retained(m, radars, k)` is.
spec fn retained_origin<P>(m: Seq<EngagerView<P>>, radars: Seq<RadarInfo<P>>, k: int, e: int) -> int
    decreases k,
{
    if k <= 0 {
        0
    } else if radar_of(radars, m[k - 1].platform_id) is Some && e == retained(m, radars, k - 1).len() {
        k - 1
    } else {
        retained_origin(m, radars, k - 1, e)
    }
}

proof fn lemma_retained_origin<P>(m: Seq<EngagerView<P>>, radars: Seq<RadarInfo<P>>, k: int)
    requires
        0 <= k <= m.len(),
    ensures
        forall|e: int|
            #![trigger retained(m, radars, k)[e]]
            #![trigger retained_origin(m, radars, k, e)]
            0 <= e < retained(m, radars, k).len() ==> 0 <= retained_origin(m, radars, k, e) && retained_origin(m, radars, k, e) < k
                && retained(m, radars, k)[e] == m[retained_origin(m, radars, k, e)],
        forall|e1: int, e2: int|
            0 <= e1 < e2 < retained(m, radars, k).len() ==> #[trigger] retained_origin(m, radars, k, e1)
                < #[trigger] retained_origin(m, radars, k, e2),
    decreases k,
{
    if k > 0 {
        lemma_retained_origin(m, radars, k - 1);
        let prev = retained(m, radars, k - 1);
        let all = retained(m, radars, k);
        assert forall|e: int| #![trigger all[e]] #![trigger retained_origin(m, radars, k, e)] 0 <= e < all.len() implies 0 <= retained_origin(m, radars, k, e) && retained_origin(m, radars, k, e) < k
            && all[e] == m[retained_origin(m, radars, k, e)] by {
            if e < prev.len() {
                assert(all[e] == prev[e]);
                assert(retained_origin(m, radars, k, e) == retained_origin(m, radars, k - 1, e));
            } else {
                assert(radar_of(radars, m[k - 1].platform_id) is Some);
                assert(retained_origin(m, radars, k, e) == k - 1);
            }
        }
        assert forall|e1: int, e2: int| 0 <= e1 < e2 < all.len() implies #[trigger] retained_origin(m, radars, k, e1)
            < #[trigger] retained_origin(m, radars, k, e2) by {
            if e2 < prev.len() {
                assert(retained_origin(m, radars, k - 1, e1) < retained_origin(m, radars, k - 1, e2));
            } else {
                assert(prev[e1] == all[e1]);
            }
        }
    } else {
        assert(retained(m, radars, k).len() == 0);
    }
}

proof fn lemma_with_new_radars<P>(base: Seq<EngagerView<P>>, radars: Seq<RadarInfo<P>>, k: int)
    requires
        0 <= k <= radars.len(),
    ensures
        with_new_radars(base, radars, k).len() >= base.len(),
        forall|e: int| 0 <= e < base.len() ==> #[trigger] with_new_radars(base, radars, k)[e] == base[e],
        forall|e: int|
            base.len() <= e < with_new_radars(base, radars, k).len() ==> (#[trigger] with_new_radars(base, radars, k)[e]).shots.len()
                == 0,
    decreases k,
{
    if k > 0 {
        lemma_with_new_radars(base, radars, k - 1);
        let prev = with_new_radars(base, radars, k - 1);
        let all = with_new_radars(base, radars, k);
        assert forall|e: int| 0 <= e < base.len() implies #[trigger] all[e] == base[e] by {
            assert(all[e] == prev[e]);
        }
        assert forall|e: int| base.len() <= e < all.len() implies (#[trigger] all[e]).shots.len() == 0 by {
            if e < prev.len() {
                assert(all[e] == prev[e]);
            }
        }
    }
}

/// Matching the engagers against the radars keeps one hunter per threat.
pub(crate) proof fn lemma_synced_one_hunter<P>(m: Seq<EngagerView<P>>, radars: Seq<RadarInfo<P>>)
    requires
        one_hunter_per_threat(m),
    ensures
        one_hunter_per_threat(synced(m, radars)),
{
    let k = m.len() as int;
    let r = retained(m, radars, k);
    let f = synced(m, radars);
    lemma_retained_origin(m, radars, k);
    lemma_with_new_radars(r, radars, radars.len() as int);
    let g = |e: int, s: int| (retained_origin(m, radars, k, e), s);
    assert forall|e: int, s: int| #[trigger] auto_target(f, e, s) is Some implies auto_target(m, g(e, s).0, g(e, s).1)
        == auto_target(f, e, s) by {
        assert(e < r.len());
        assert(f[e] == r[e]);
    }
    assert forall|e1: int, e2: int| 0 <= e1 < r.len() && 0 <= e2 < r.len() && e1 != e2 implies
        #[trigger] retained_origin(m, radars, k, e1) != #[trigger] retained_origin(m, radars, k, e2) by {
        if e1 < e2 {
            assert(retained_origin(m, radars, k, e1) < retained_origin(m, radars, k, e2));
        } else {
            assert(retained_origin(m, radars, k, e2) < retained_origin(m, radars, k, e1));
        }
    }
    assert forall|e1: int, s1: int, e2: int, s2: int|
        #[trigger] auto_target(f, e1, s1) is Some && #[trigger] auto_target(f, e2, s2) is Some && g(e1, s1) == g(e2, s2)
            implies e1 == e2 && s1 == s2 by {
        assert(e1 < r.len() && e2 < r.len());
    }
    lemma_one_hunter_embed(m, f, g);
}

/// Shot (e, s) is the mover of a row not yet applied.
pub open spec fn pending(movers: Seq<Mover>, k: int, e: int, s: int) -> bool {
    exists|r: int| k <= r < movers.len() && (#[trigger] movers[r]).engager == e && movers[r].shot == s
}

/// Some applied row took threat `t` as its column.
pub open spec fn claimed(targets: Seq<ThreatInfo>, a: Seq<usize>, k: int, t: u128) -> bool {
    exists|r: int| 0 <= r < k && #[trigger] a[r] < targets.len() && targets[a[r] as int].id == t
}

pub open spec fn hunters_inv<P>(
    m: Seq<EngagerView<P>>,
    f: Seq<EngagerView<P>>,
    movers: Seq<Mover>,
    targets: Seq<ThreatInfo>,
    a: Seq<usize>,
    k: int,
    strict: bool,
) -> bool {
    &&& forall|e: int, s: int|
        #[trigger] auto_target(f, e, s) is Some && !pending(movers, k, e, s) ==> claimed(
            targets,
            a,
            k,
            auto_target(f, e, s)->0,
        )
    &&& forall|e: int, s: int|
        #[trigger] pending(movers, k, e, s) ==> 0 <= e < m.len() && 0 <= s < m[e].shots.len() && f[e].shots[s]
            == m[e].shots[s]
    &&& strict ==> forall|e1: int, s1: int, e2: int, s2: int|
        #[trigger] auto_target(f, e1, s1) is Some && auto_target(f, e1, s1) == #[trigger] auto_target(f, e2, s2)
            && !pending(movers, k, e1, s1) && !pending(movers, k, e2, s2) ==> e1 == e2 && s1 == s2
}

proof fn lemma_shot_movers_complete<P>(e: int, shots: Seq<Shot<P>>, n: int)
    requires
        0 <= n <= shots.len(),
        0 <= e <= usize::MAX,
        shots.len() <= usize::MAX,
    ensures
        forall|s: int|
            0 <= s < n && is_auto((#[trigger] shots[s]).assignment) ==> exists|r: int|
                0 <= r < shot_movers(e, shots, n).len() && (#[trigger] shot_movers(e, shots, n)[r]).shot == s,
    decreases n,
{
    if n > 0 {
        lemma_shot_movers_complete(e, shots, n - 1);
        let prev = shot_movers(e, shots, n - 1);
        let all = shot_movers(e, shots, n);
        assert forall|s: int|
            0 <= s < n && is_auto((#[trigger] shots[s]).assignment)
                implies exists|r: int| 0 <= r < all.len() && (#[trigger] all[r]).shot == s by {
            if s < n - 1 {
                let r = choose|r: int| 0 <= r < prev.len() && (#[trigger] prev[r]).shot == s;
                assert(all[r] == prev[r]);
            } else {
                assert(all[all.len() - 1].shot == s);
            }
        }
    }
}

proof fn lemma_movers_complete<P>(m: Seq<EngagerView<P>>, k: int)
    requires
        0 <= k <= m.len(),
        m.len() <= usize::MAX,
        forall|e: int| 0 <= e < m.len() ==> #[trigger] m[e].shots.len() <= usize::MAX,
    ensures
        forall|e: int, s: int|
            0 <= e < k && 0 <= s < m[e].shots.len() && is_auto((#[trigger] m[e].shots[s]).assignment) ==> exists|r: int|
                0 <= r < movers_upto(m, k).len() && (#[trigger] movers_upto(m, k)[r]).engager == e
                    && movers_upto(m, k)[r].shot == s,
    decreases k,
{
    if k > 0 {
        lemma_movers_complete(m, k - 1);
        let prev = movers_upto(m, k - 1);
        let sh = m[k - 1].shots;
        let here = shot_movers(k - 1, sh, sh.len() as int);
        let all = movers_upto(m, k);
        assert(all == prev + here);
        lemma_shot_movers_complete(k - 1, sh, sh.len() as int);
        lemma_shot_movers(k - 1, sh, sh.len() as int);
        assert forall|e: int, s: int|
            0 <= e < k && 0 <= s < m[e].shots.len() && is_auto((#[trigger] m[e].shots[s]).assignment) implies exists|r: int| 0 <= r < all.len() && (#[trigger] all[r]).engager == e && all[r].shot == s by {
            if e < k - 1 {
                let r = choose|r: int| 0 <= r < prev.len() && (#[trigger] prev[r]).engager == e && prev[r].shot == s;
                assert(all[r] == prev[r]);
            } else {
                assert(sh[s] == m[e].shots[s]);
                let r = choose|r: int| 0 <= r < here.len() && (#[trigger] here[r]).shot == s;
                assert(all[prev.len() + r] == here[r]);
            }
        }
    }
}

proof fn lemma_hunters_step<P>(
    m: Seq<EngagerView<P>>,
    targets: Seq<ThreatInfo>,
    radars: Seq<RadarInfo<P>>,
    reach: Seq<Reach>,
    ranges: Seq<Range>,
    a: Seq<usize>,
    k: int,
    ids: Seq<u128>,
    strict: bool,
)
    requires
        well_formed_view(m),
        m.len() <= usize::MAX,
        forall|e: int| 0 <= e < m.len() ==> #[trigger] m[e].shots.len() <= usize::MAX,
        0 <= k < a.len(),
        is_matching(a, a.len() as int),
        strict ==> distinct_threat_ids(targets),
        hunters_inv(m, apply_rows(m, plan_movers(m), plan_tubes(m), targets, radars, reach, ranges, a, k, ids), plan_movers(m), targets, a, k, strict),
    ensures
        hunters_inv(m, apply_rows(m, plan_movers(m), plan_tubes(m), targets, radars, reach, ranges, a, k + 1, ids), plan_movers(m), targets, a, k + 1, strict),
{
    let movers = plan_movers(m);
    let tubes = plan_tubes(m);
    let f0 = apply_rows(m, movers, tubes, targets, radars, reach, ranges, a, k, ids);
    let f = apply_rows(m, movers, tubes, targets, radars, reach, ranges, a, k + 1, ids);
    assert(f == apply_row(f0, movers, tubes, targets, radars, reach, ranges, a, k, ids[k]));
    lemma_movers_upto(m, m.len() as int);
    lemma_apply_rows_keeps(m, targets, radars, reach, ranges, a, k, ids);
    let j = a[k] as int;
    // Rows other than `k` claim targets other than the one row `k` takes.
    assert forall|t: u128| strict && claimed(targets, a, k, t) && j < targets.len() implies t != targets[j].id by {
        let r = choose|r: int| 0 <= r < k && #[trigger] a[r] < targets.len() && targets[a[r] as int].id == t;
        assert(a[r] != a[k]);
    }
    assert forall|e: int, s: int| #[trigger] pending(movers, k + 1, e, s) implies pending(movers, k, e, s) by {
        let r = choose|r: int| k + 1 <= r < movers.len() && (#[trigger] movers[r]).engager == e && movers[r].shot == s;
    }
    assert forall|t: u128| claimed(targets, a, k, t) implies claimed(targets, a, k + 1, t) by {
        let r = choose|r: int| 0 <= r < k && #[trigger] a[r] < targets.len() && targets[a[r] as int].id == t;
    }
    if k < movers.len() {
        let mv = movers[k];
        let qe = mv.engager as int;
        let qs = mv.shot as int;
        assert(pending(movers, k, qe, qs));
        assert(!pending(movers, k + 1, qe, qs)) by {
            if pending(movers, k + 1, qe, qs) {
                let r = choose|r: int| k + 1 <= r < movers.len() && (#[trigger] movers[r]).engager == qe && movers[r].shot == qs;
                assert(movers[k].engager < movers[r].engager || (movers[k].engager == movers[r].engager && movers[k].shot < movers[r].shot));
            }
        }
        assert forall|e: int, s: int| !(e == qe && s == qs) && pending(movers, k, e, s) implies pending(movers, k + 1, e, s) by {
            let r = choose|r: int| k <= r < movers.len() && (#[trigger] movers[r]).engager == e && movers[r].shot == s;
            assert(r != k);
        }
        assert forall|e: int, s: int| !(e == qe && s == qs) implies #[trigger] auto_target(f, e, s) == auto_target(f0, e, s) by {
            if 0 <= e < f.len() && 0 <= s < f[e].shots.len() {
                assert(f[e].shots[s] == f0[e].shots[s]);
            }
        }
        if auto_target(f, qe, qs) is Some {
            assert(claimed(targets, a, k + 1, auto_target(f, qe, qs)->0)) by {
                assert(a[k] < targets.len() && targets[a[k] as int].id == auto_target(f, qe, qs)->0);
            }
        }
    } else if k - movers.len() < tubes.len() && j < targets.len() && f != f0 {
        let pid = tubes[k - movers.len()];
        let e0 = engager_index(f0, pid)->0;
        lemma_engager_index(f0, pid, f0.len() as int, f0.len() as int);
        let ns = f0[e0].shots.len() as int;
        assert(f == launched(f0, e0, f[e0].shots[ns]));
        assert(auto_target(f, e0, ns) == Some(targets[j].id));
        assert(claimed(targets, a, k + 1, targets[j].id)) by {
            assert(a[k] < targets.len() && targets[a[k] as int].id == targets[j].id);
        }
        assert(!pending(movers, k, e0, ns)) by {
            if pending(movers, k, e0, ns) {
                assert(ns < m[e0].shots.len());
            }
        }
        assert forall|e: int, s: int| !(e == e0 && s == ns) implies #[trigger] auto_target(f, e, s) == auto_target(f0, e, s) by {
            if 0 <= e < f.len() && 0 <= s < f[e].shots.len() {
                assert(f[e].shots[s] == f0[e].shots[s]);
            }
        }
        assert forall|e: int, s: int| #[trigger] pending(movers, k + 1, e, s) implies !(e == e0 && s == ns) by {
            assert(pending(movers, k, e, s));
        }
    } else {
        assert(f == f0);
    }
}

proof fn lemma_hunters<P>(
    m: Seq<EngagerView<P>>,
    targets: Seq<ThreatInfo>,
    radars: Seq<RadarInfo<P>>,
    reach: Seq<Reach>,
    ranges: Seq<Range>,
    a: Seq<usize>,
    k: int,
    ids: Seq<u128>,
    strict: bool,
)
    requires
        well_formed_view(m),
        m.len() <= usize::MAX,
        forall|e: int| 0 <= e < m.len() ==> #[trigger] m[e].shots.len() <= usize::MAX,
        0 <= k <= a.len(),
        is_matching(a, a.len() as int),
        strict ==> distinct_threat_ids(targets),
    ensures
        hunters_inv(m, apply_rows(m, plan_movers(m), plan_tubes(m), targets, radars, reach, ranges, a, k, ids), plan_movers(m), targets, a, k, strict),
    decreases k,
{
    if k > 0 {
        lemma_hunters(m, targets, radars, reach, ranges, a, k - 1, ids, strict);
        lemma_hunters_step(m, targets, radars, reach, ranges, a, k - 1, ids, strict);
    } else {
        let movers = plan_movers(m);
        lemma_movers_complete(m, m.len() as int);
        lemma_movers_upto(m, m.len() as int);
        let f = apply_rows(m, movers, plan_tubes(m), targets, radars, reach, ranges, a, 0, ids);
        assert(f == m);
        assert forall|e: int, s: int| #[trigger] auto_target(f, e, s) is Some implies pending(movers, 0, e, s) by {
            assert(is_auto(m[e].shots[s].assignment));
            let r = choose|r: int| 0 <= r < movers.len() && (#[trigger] movers[r]).engager == e && movers[r].shot == s;
        }
    }
}

/// Once the solver's matching has been applied, every automatically tasked
/// interceptor chases a threat that may be engaged and is not held by an
/// operator-locked interceptor; and when threat ids are distinct, no two
/// automatically tasked interceptors chase the same threat.
pub proof fn assigned_one_hunter_per_threat<P>(
    m: Seq<EngagerView<P>>,
    radars: Seq<RadarInfo<P>>,
    threats: Seq<ThreatInfo>,
    engageable: Seq<u128>,
    geo: Geometry,
    a: Seq<usize>,
    ids: Seq<u128>,
)
    requires
        well_formed_view(m),
        m.len() <= usize::MAX,
        forall|e: int| 0 <= e < m.len() ==> #[trigger] m[e].shots.len() <= usize::MAX,
        is_matching(a, a.len() as int),
        a.len() >= plan_movers(m).len(),
    ensures
        distinct_threat_ids(threats) ==> one_hunter_per_threat(assigned(m, radars, threats, engageable, geo, a, ids)),
        forall|e: int, s: int|
            #[trigger] auto_target(assigned(m, radars, threats, engageable, geo, a, ids), e, s) is Some
                ==> engageable.contains(auto_target(assigned(m, radars, threats, engageable, geo, a, ids), e, s)->0)
                && !locked_targets(m).contains(auto_target(assigned(m, radars, threats, engageable, geo, a, ids), e, s)->0)
                && threat_ids(threats).contains(auto_target(assigned(m, radars, threats, engageable, geo, a, ids), e, s)->0),
{
    let targets = plan_targets(m, threats, engageable);
    let movers = plan_movers(m);
    let f = assigned(m, radars, threats, engageable, geo, a, ids);
    let strict = distinct_threat_ids(threats);
    lemma_eligible(threats, engageable, locked_targets(m), threats.len() as int);
    lemma_hunters(m, targets, radars, geo.reach@, geo.ranges@, a, a.len() as int, ids, strict);
    assert forall|e: int, s: int| !#[trigger] pending(movers, a.len() as int, e, s) by {
        if pending(movers, a.len() as int, e, s) {
            let r = choose|r: int| a.len() <= r < movers.len() && (#[trigger] movers[r]).engager == e && movers[r].shot == s;
        }
    }
    assert forall|e: int, s: int| #[trigger] auto_target(f, e, s) is Some implies engageable.contains(auto_target(f, e, s)->0)
        && !locked_targets(m).contains(auto_target(f, e, s)->0) && threat_ids(threats).contains(auto_target(f, e, s)->0) by {
        let t = auto_target(f, e, s)->0;
        assert(!pending(movers, a.len() as int, e, s));
        let r = choose|r: int| 0 <= r < a.len() && #[trigger] a[r] < targets.len() && targets[a[r] as int].id == t;
        let x = a[r] as int;
        let i = choose|i: int| 0 <= i < threats.len() && threats[i] == #[trigger] targets[x];
        assert(threat_ids(threats)[i] == t);
    }
}

} // verus!
