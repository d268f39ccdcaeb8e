//! Engagement bookkeeping: which platform still has how many interceptors,
//! which interceptors are in flight, and what each of them is chasing.
//!
//! Positions are carried as an opaque payload `P`; the caller decides from its
//! own geometry when a shot has arrived and how far things are apart.

use crate::engagement_laws::{
    assigned_keeps_engagers, assigned_launches_in_reach, assigned_one_hunter_per_threat, auto_target, keeps_engagers,
    launches_in_reach, launches_within_capacity, kept_engagers_launch_within_capacity, lemma_advanced_one_hunter,
    engagers_match_radars, synced_matches_radars, lemma_match_radars_carries, targets_among, diverted_targets_alive,
    assigned_targets_among, launched_ids_fresh, lemma_synced_one_hunter, one_hunter_per_threat,
};
use crate::ids::{fresh_id, is_v4_id};
use crate::matching::{
    is_matching, kuhn_munkres_assignment, matching_value, matrix_from_rows, max_weight_assignment, rows_of,
    bounded_weights, rectangular, square, SIZE_LIMIT, WEIGHT_LIMIT,
};
use vstd::prelude::*;

verus! {

/// At most this many interceptors of one platform fly at the same time.
pub const MAX_IN_FLIGHT: usize = 3;

/// Base value of a feasible engagement.
pub const REACHABLE_BASE: i64 = 100_000;

/// Value of an engagement a platform cannot make.
pub const UNREACHABLE: i64 = -1_000_000;

/// Bonus that keeps an in-flight interceptor on its current target, so that it
/// does not flip between near-equal targets on every tick.
pub const HYST_BONUS: i64 = 5_000;

/// What an interceptor in flight is doing.
#[derive(Clone, Copy, Debug, PartialEq, Eq, Structural)]
pub enum Assignment {
    /// Chasing threat `id`; `locked` when an operator forced it (never re-tasked automatically).
    Target { id: u128, locked: bool },
    /// Aborted: flying to the safe zone, where it destroys itself.
    Divert,
}

/// An interceptor in flight.
#[derive(Clone, Copy, Debug)]
pub struct Shot<P> {
    pub id: u128,
    pub position: P,
    pub assignment: Assignment,
}

/// A platform as seen by the engagement layer.
pub struct Engager<P> {
    pub platform_id: u128,
    pub ammo: usize,
    pub shots: Vec<Shot<P>>,
}

/// Mathematical view of an engager.
#[verifier::ext_equal]
pub struct EngagerView<P> {
    pub platform_id: u128,
    pub ammo: usize,
    pub shots: Seq<Shot<P>>,
}

impl<P> View for Engager<P> {
    type V = EngagerView<P>;

    open spec fn view(&self) -> EngagerView<P> {
        EngagerView { platform_id: self.platform_id, ammo: self.ammo, shots: self.shots@ }
    }
}

/// A platform's sensor/launcher as the engagement layer needs it: its identity,
/// its magazine, and where a new shot starts from.
#[derive(Clone, Copy, Debug)]
pub struct RadarInfo<P> {
    pub id: u128,
    pub ammo: usize,
    pub position: P,
}

/// A threat as the engagement layer needs it.
#[derive(Clone, Copy, Debug, PartialEq, Eq, Structural)]
pub struct ThreatInfo {
    pub id: u128,
    pub threat_level: usize,
}

/// A launch line (platform to threat) for display.
#[derive(Clone, Copy, Debug, PartialEq, Eq, Structural)]
pub struct Engagement {
    pub platform_id: u128,
    pub threat_id: u128,
}

/// An interceptor in flight, for display. `target_id` is 0 (the nil UUID) when diverting.
#[derive(Clone, Copy, Debug)]
pub struct FlyingInterceptor<P> {
    pub id: u128,
    pub position: P,
    pub target_id: u128,
    pub diverting: bool,
}

/// What became of a shot during one tick, decided by the caller's geometry.
#[derive(Clone, Copy, Debug)]
pub enum ShotOutcome<P> {
    /// Close enough to its target: the target is destroyed, the shot is spent.
    Hit,
    /// Gone without a kill: reached the safe zone, or its target vanished.
    Expended,
    /// Still flying, now at this position.
    Moved(P),
}

/// Platform `platform_id` can reach threat `threat_id`, which is `distance`
/// (whole metres) away. Pairs out of reach are not listed.
#[derive(Clone, Copy, Debug)]
pub struct Reach {
    pub platform_id: u128,
    pub threat_id: u128,
    pub distance: i64,
}

/// Shot `shot_id` is `distance` (whole metres) away from threat `threat_id`.
#[derive(Clone, Copy, Debug)]
pub struct Range {
    pub shot_id: u128,
    pub threat_id: u128,
    pub distance: i64,
}

/// The distances the assignment needs, measured by the caller.
pub struct Geometry {
    pub reach: Vec<Reach>,
    pub ranges: Vec<Range>,
}

/// An in-flight, automatically tasked interceptor considered for re-tasking:
/// shot `shot` of engager `engager`, now chasing `current`.
#[derive(Clone, Copy, Debug, PartialEq, Eq, Structural)]
pub struct Mover {
    pub engager: usize,
    pub shot: usize,
    pub shot_id: u128,
    pub current: u128,
}

/// Rows (movers, then free launch tubes), columns (targets) and weights of one re-tasking.
pub struct RetaskPlan {
    pub movers: Vec<Mover>,
    pub tubes: Vec<u128>,
    pub targets: Vec<ThreatInfo>,
}

/// Largest threat level the assignment accepts.
pub const LEVEL_LIMIT: usize = 100_000_000;

/// Largest distance (metres) the assignment accepts.
pub const DISTANCE_LIMIT: i64 = 1_000_000_000_000;

/// Largest number of platforms the assignment accepts.
pub const PLATFORM_LIMIT: usize = 10_000;

/// The engagement state of the whole network.
pub struct Engagements<P> {
    engagers: Vec<Engager<P>>,
    last_pos: Vec<(u128, P)>,
    neutralized: usize,
}

// ---------------------------------------------------------------------------
// Specification helpers
// ---------------------------------------------------------------------------

/// Engager views of a vector of engagers.
pub open spec fn views_of<P>(v: Seq<Engager<P>>) -> Seq<EngagerView<P>> {
    Seq::new(v.len(), |i: int| v[i]@)
}

/// Platform ids are distinct and no platform flies more than `MAX_IN_FLIGHT` shots.
pub open spec fn well_formed_view<P>(m: Seq<EngagerView<P>>) -> bool {
    &&& forall|i: int, j: int|
        0 <= i < m.len() && 0 <= j < m.len() && i != j ==> #[trigger] m[i].platform_id
            != #[trigger] m[j].platform_id
    &&& forall|i: int| 0 <= i < m.len() ==> #[trigger] m[i].shots.len() <= MAX_IN_FLIGHT
}

/// Index of the engager of platform `pid` among the first `k`, the first one found.
pub open spec fn engager_index_upto<P>(m: Seq<EngagerView<P>>, pid: u128, k: int) -> Option<int>
    decreases k,
{
    if k <= 0 {
        None
    } else {
        match engager_index_upto(m, pid, k - 1) {
            Some(i) => Some(i),
            None => if m[k - 1].platform_id == pid {
                Some(k - 1)
            } else {
                None
            },
        }
    }
}

pub open spec fn engager_index<P>(m: Seq<EngagerView<P>>, pid: u128) -> Option<int> {
    engager_index_upto(m, pid, m.len() as int)
}

/// Index of the first shot with id `sid` among the first `n` shots.
pub open spec fn shot_index_upto<P>(shots: Seq<Shot<P>>, sid: u128, n: int) -> Option<int>
    decreases n,
{
    if n <= 0 {
        None
    } else {
        match shot_index_upto(shots, sid, n - 1) {
            Some(i) => Some(i),
            None => if shots[n - 1].id == sid {
                Some(n - 1)
            } else {
                None
            },
        }
    }
}

/// Location (engager, shot) of the first shot with id `sid` among the first `k` engagers.
pub open spec fn locate_shot_upto<P>(m: Seq<EngagerView<P>>, sid: u128, k: int) -> Option<(int, int)>
    decreases k,
{
    if k <= 0 {
        None
    } else {
        match locate_shot_upto(m, sid, k - 1) {
            Some(p) => Some(p),
            None => match shot_index_upto(m[k - 1].shots, sid, m[k - 1].shots.len() as int) {
                Some(s) => Some((k - 1, s)),
                None => None,
            },
        }
    }
}

pub open spec fn locate_shot<P>(m: Seq<EngagerView<P>>, sid: u128) -> Option<(int, int)> {
    locate_shot_upto(m, sid, m.len() as int)
}

/// `m` with the assignment of shot `s` of engager `e` replaced by `a`.
pub open spec fn with_assignment<P>(m: Seq<EngagerView<P>>, e: int, s: int, a: Assignment) -> Seq<
    EngagerView<P>,
> {
    m.update(
        e,
        EngagerView {
            shots: m[e].shots.update(s, Shot { assignment: a, ..m[e].shots[s] }),
            ..m[e]
        },
    )
}

/// `m` where the first shot with id `sid`, if any, gets assignment `a`.
pub open spec fn reassign<P>(m: Seq<EngagerView<P>>, sid: u128, a: Assignment) -> Seq<
    EngagerView<P>,
> {
    match locate_shot(m, sid) {
        Some(p) => with_assignment(m, p.0, p.1, a),
        None => m,
    }
}

/// The first radar among the first `k` with id `pid`.
pub open spec fn radar_upto<P>(radars: Seq<RadarInfo<P>>, pid: u128, k: int) -> Option<RadarInfo<P>>
    decreases k,
{
    if k <= 0 {
        None
    } else {
        match radar_upto(radars, pid, k - 1) {
            Some(r) => Some(r),
            None => if radars[k - 1].id == pid {
                Some(radars[k - 1])
            } else {
                None
            },
        }
    }
}

pub open spec fn radar_of<P>(radars: Seq<RadarInfo<P>>, pid: u128) -> Option<RadarInfo<P>> {
    radar_upto(radars, pid, radars.len() as int)
}

/// The first `k` engagers, keeping those whose platform still has a radar.
pub open spec fn retained<P>(m: Seq<EngagerView<P>>, radars: Seq<RadarInfo<P>>, k: int) -> Seq<
    EngagerView<P>,
>
    decreases k,
{
    if k <= 0 {
        Seq::empty()
    } else if radar_of(radars, m[k - 1].platform_id) is Some {
        retained(m, radars, k - 1).push(m[k - 1])
    } else {
        retained(m, radars, k - 1)
    }
}

/// `base` with a fresh engager (full magazine, nothing in flight) appended for
/// each of the first `k` radars that has none yet.
pub open spec fn with_new_radars<P>(base: Seq<EngagerView<P>>, radars: Seq<RadarInfo<P>>, k: int) -> Seq<
    EngagerView<P>,
>
    decreases k,
{
    if k <= 0 {
        base
    } else {
        let b = with_new_radars(base, radars, k - 1);
        if engager_index(b, radars[k - 1].id) is Some {
            b
        } else {
            b.push(EngagerView { platform_id: radars[k - 1].id, ammo: radars[k - 1].ammo, shots: Seq::empty() })
        }
    }
}

/// Engagers after matching them against the current radars.
pub open spec fn synced<P>(m: Seq<EngagerView<P>>, radars: Seq<RadarInfo<P>>) -> Seq<EngagerView<P>> {
    with_new_radars(retained(m, radars, m.len() as int), radars, radars.len() as int)
}

/// A shot whose target is no longer alive is diverted; others are unchanged.
pub open spec fn divert_if_lost<P>(s: Shot<P>, alive: Seq<u128>) -> Shot<P> {
    match s.assignment {
        Assignment::Target { id, .. } => if alive.contains(id) {
            s
        } else {
            Shot { assignment: Assignment::Divert, ..s }
        },
        Assignment::Divert => s,
    }
}

pub open spec fn diverted_lost<P>(m: Seq<EngagerView<P>>, alive: Seq<u128>) -> Seq<EngagerView<P>> {
    Seq::new(
        m.len(),
        |i: int|
            EngagerView {
                shots: Seq::new(m[i].shots.len(), |j: int| divert_if_lost(m[i].shots[j], alive)),
                ..m[i]
            },
    )
}

/// Launch lines of the first `n` shots of platform `pid`.
pub open spec fn shot_lines<P>(pid: u128, shots: Seq<Shot<P>>, n: int) -> Seq<Engagement>
    decreases n,
{
    if n <= 0 {
        Seq::empty()
    } else {
        match shots[n - 1].assignment {
            Assignment::Target { id, .. } => shot_lines(pid, shots, n - 1).push(
                Engagement { platform_id: pid, threat_id: id },
            ),
            Assignment::Divert => shot_lines(pid, shots, n - 1),
        }
    }
}

pub open spec fn lines_upto<P>(m: Seq<EngagerView<P>>, k: int) -> Seq<Engagement>
    decreases k,
{
    if k <= 0 {
        Seq::empty()
    } else {
        lines_upto(m, k - 1) + shot_lines(m[k - 1].platform_id, m[k - 1].shots, m[k - 1].shots.len() as int)
    }
}

/// Display record of a shot.
pub open spec fn flying<P>(s: Shot<P>) -> FlyingInterceptor<P> {
    FlyingInterceptor {
        id: s.id,
        position: s.position,
        target_id: match s.assignment {
            Assignment::Target { id, .. } => id,
            Assignment::Divert => 0,
        },
        diverting: s.assignment is Divert,
    }
}

pub open spec fn flying_upto<P>(m: Seq<EngagerView<P>>, k: int) -> Seq<FlyingInterceptor<P>>
    decreases k,
{
    if k <= 0 {
        Seq::empty()
    } else {
        flying_upto(m, k - 1) + m[k - 1].shots.map_values(|s: Shot<P>| flying(s))
    }
}

/// Number of shots of the first `k` engagers: where engager `k` starts in the flat order.
pub open spec fn offset<P>(m: Seq<EngagerView<P>>, k: int) -> int
    decreases k,
{
    if k <= 0 {
        0
    } else {
        offset(m, k - 1) + m[k - 1].shots.len()
    }
}

pub open spec fn total_shots<P>(m: Seq<EngagerView<P>>) -> int {
    offset(m, m.len() as int)
}

/// The first `n` shots after their outcomes: spent shots leave, the others move.
pub open spec fn surviving<P>(shots: Seq<Shot<P>>, outs: Seq<ShotOutcome<P>>, n: int) -> Seq<Shot<P>>
    decreases n,
{
    if n <= 0 {
        Seq::empty()
    } else {
        match outs[n - 1] {
            ShotOutcome::Moved(p) => surviving(shots, outs, n - 1).push(Shot { position: p, ..shots[n - 1] }),
            _ => surviving(shots, outs, n - 1),
        }
    }
}

/// Threats destroyed by the first `n` shots: those with a hit while chasing a target.
pub open spec fn hits<P>(shots: Seq<Shot<P>>, outs: Seq<ShotOutcome<P>>, n: int) -> Seq<u128>
    decreases n,
{
    if n <= 0 {
        Seq::empty()
    } else {
        match (outs[n - 1], shots[n - 1].assignment) {
            (ShotOutcome::Hit, Assignment::Target { id, .. }) => hits(shots, outs, n - 1).push(id),
            _ => hits(shots, outs, n - 1),
        }
    }
}

/// Outcomes of engager `e`'s shots, cut from the flat outcome list.
pub open spec fn outcomes_of<P>(m: Seq<EngagerView<P>>, outs: Seq<ShotOutcome<P>>, e: int) -> Seq<
    ShotOutcome<P>,
> {
    outs.subrange(offset(m, e), offset(m, e) + m[e].shots.len())
}

pub open spec fn advanced<P>(m: Seq<EngagerView<P>>, outs: Seq<ShotOutcome<P>>) -> Seq<EngagerView<P>> {
    Seq::new(
        m.len(),
        |e: int|
            EngagerView {
                shots: surviving(m[e].shots, outcomes_of(m, outs, e), m[e].shots.len() as int),
                ..m[e]
            },
    )
}

pub open spec fn destroyed_upto<P>(m: Seq<EngagerView<P>>, outs: Seq<ShotOutcome<P>>, k: int) -> Seq<u128>
    decreases k,
{
    if k <= 0 {
        Seq::empty()
    } else {
        destroyed_upto(m, outs, k - 1) + hits(m[k - 1].shots, outcomes_of(m, outs, k - 1), m[k - 1].shots.len() as int)
    }
}

pub(crate) proof fn lemma_engager_index<P>(m: Seq<EngagerView<P>>, pid: u128, k: int, k2: int)
    requires
        0 <= k <= k2 <= m.len(),
    ensures
        engager_index_upto(m, pid, k) matches Some(x) ==> 0 <= x < k && m[x].platform_id == pid
            && engager_index_upto(m, pid, k2) == Some(x),
        engager_index_upto(m, pid, k2) is None ==> engager_index_upto(m, pid, k) is None,
    decreases k2,
{
    if k2 > k {
        lemma_engager_index(m, pid, k, k2 - 1);
    } else if k > 0 {
        lemma_engager_index(m, pid, k - 1, k - 1);
    }
}

pub(crate) proof fn lemma_shot_index<P>(shots: Seq<Shot<P>>, sid: u128, n: int, n2: int)
    requires
        0 <= n <= n2 <= shots.len(),
    ensures
        shot_index_upto(shots, sid, n) matches Some(x) ==> 0 <= x < n && shots[x].id == sid
            && shot_index_upto(shots, sid, n2) == Some(x),
        shot_index_upto(shots, sid, n2) is None ==> shot_index_upto(shots, sid, n) is None,
    decreases n2,
{
    if n2 > n {
        lemma_shot_index(shots, sid, n, n2 - 1);
    } else if n > 0 {
        lemma_shot_index(shots, sid, n - 1, n - 1);
    }
}

pub(crate) proof fn lemma_locate_shot<P>(m: Seq<EngagerView<P>>, sid: u128, k: int, k2: int)
    requires
        0 <= k <= k2 <= m.len(),
    ensures
        locate_shot_upto(m, sid, k) matches Some(p) ==> 0 <= p.0 < k && 0 <= p.1 < m[p.0].shots.len()
            && m[p.0].shots[p.1].id == sid && locate_shot_upto(m, sid, k2) == Some(p),
        locate_shot_upto(m, sid, k2) is None ==> locate_shot_upto(m, sid, k) is None,
    decreases k2,
{
    if k2 > k {
        lemma_locate_shot(m, sid, k, k2 - 1);
    } else if k > 0 {
        lemma_locate_shot(m, sid, k - 1, k - 1);
        let shots = m[k - 1].shots;
        lemma_shot_index(shots, sid, shots.len() as int, shots.len() as int);
    }
}

/// Position recorded for threat `id` among the first `k` records, the latest one winning.
pub open spec fn position_upto<P>(v: Seq<(u128, P)>, id: u128, k: int) -> Option<P>
    decreases k,
{
    if k <= 0 {
        None
    } else if v[k - 1].0 == id {
        Some(v[k - 1].1)
    } else {
        position_upto(v, id, k - 1)
    }
}

pub(crate) proof fn lemma_offset<P>(m: Seq<EngagerView<P>>, a: int, b: int)
    requires
        0 <= a <= b <= m.len(),
    ensures
        offset(m, a) + (if a < b { m[a].shots.len() as int } else { 0 }) <= offset(m, b),
        0 <= offset(m, a),
    decreases b,
{
    if b > a {
        lemma_offset(m, a, b - 1);
    } else if a > 0 {
        lemma_offset(m, a - 1, a - 1);
    }
}

/// Whether `id` occurs in `v`.
pub fn contains_id(v: &Vec<u128>, id: u128) -> (r: bool)
    ensures
        r == v@.contains(id),
{
    let mut i: usize = 0;
    while i < v.len()
        invariant
            i <= v.len(),
            forall|j: int| 0 <= j < i ==> v@[j] != id,
        decreases v.len() - i,
    {
        if v[i] == id {
            assert(v@[i as int] == id);
            return true;
        }
        i += 1;
    }
    false
}

// ---------------------------------------------------------------------------
// Re-tasking
// ---------------------------------------------------------------------------

/// Distance from platform `pid` to threat `tid` among the first `k` reach records, first one found.
pub open spec fn reach_upto(s: Seq<Reach>, pid: u128, tid: u128, k: int) -> Option<i64>
    decreases k,
{
    if k <= 0 {
        None
    } else {
        match reach_upto(s, pid, tid, k - 1) {
            Some(d) => Some(d),
            None => if s[k - 1].platform_id == pid && s[k - 1].threat_id == tid {
                Some(s[k - 1].distance)
            } else {
                None
            },
        }
    }
}

pub open spec fn reach_of(s: Seq<Reach>, pid: u128, tid: u128) -> Option<i64> {
    reach_upto(s, pid, tid, s.len() as int)
}

/// Distance from shot `sid` to threat `tid` among the first `k` range records, first one found.
pub open spec fn range_upto(s: Seq<Range>, sid: u128, tid: u128, k: int) -> Option<i64>
    decreases k,
{
    if k <= 0 {
        None
    } else {
        match range_upto(s, sid, tid, k - 1) {
            Some(d) => Some(d),
            None => if s[k - 1].shot_id == sid && s[k - 1].threat_id == tid {
                Some(s[k - 1].distance)
            } else {
                None
            },
        }
    }
}

pub open spec fn range_of(s: Seq<Range>, sid: u128, tid: u128) -> Option<i64> {
    range_upto(s, sid, tid, s.len() as int)
}

/// Value of engaging a threat of level `level` at `distance`: closer and more
/// dangerous is better.
pub open spec fn engagement_value(level: usize, distance: i64) -> int {
    REACHABLE_BASE + level * 1000 - distance / 10
}

/// Value of launching from platform `pid` at threat `t`: unreachable without a
/// radar or out of reach.
pub open spec fn tube_score_spec<P>(radars: Seq<RadarInfo<P>>, reach: Seq<Reach>, pid: u128, t: ThreatInfo) -> int {
    if radar_of(radars, pid) is None {
        UNREACHABLE as int
    } else {
        match reach_of(reach, pid, t.id) {
            Some(d) => engagement_value(t.threat_level, d),
            None => UNREACHABLE as int,
        }
    }
}

/// Value of shot `sid`, now chasing `current`, engaging threat `t`; keeping its
/// current target earns `HYST_BONUS`. A shot with no measured range to the
/// threat cannot take it.
pub open spec fn mover_score_spec(ranges: Seq<Range>, sid: u128, t: ThreatInfo, current: u128) -> int {
    match range_of(ranges, sid, t.id) {
        Some(d) => engagement_value(t.threat_level, d) + if t.id == current {
            HYST_BONUS as int
        } else {
            0
        },
        None => UNREACHABLE as int,
    }
}

/// Targets held by operator-locked interceptors among the first `n` shots.
pub open spec fn shot_locks<P>(shots: Seq<Shot<P>>, n: int) -> Seq<u128>
    decreases n,
{
    if n <= 0 {
        Seq::empty()
    } else {
        match shots[n - 1].assignment {
            Assignment::Target { id, locked: true } => shot_locks(shots, n - 1).push(id),
            _ => shot_locks(shots, n - 1),
        }
    }
}

pub open spec fn locks_upto<P>(m: Seq<EngagerView<P>>, k: int) -> Seq<u128>
    decreases k,
{
    if k <= 0 {
        Seq::empty()
    } else {
        locks_upto(m, k - 1) + shot_locks(m[k - 1].shots, m[k - 1].shots.len() as int)
    }
}

/// Every target held by an operator-locked interceptor.
pub open spec fn locked_targets<P>(m: Seq<EngagerView<P>>) -> Seq<u128> {
    locks_upto(m, m.len() as int)
}

/// Automatically tasked interceptors of engager `e` among its first `n` shots.
pub open spec fn shot_movers<P>(e: int, shots: Seq<Shot<P>>, n: int) -> Seq<Mover>
    decreases n,
{
    if n <= 0 {
        Seq::empty()
    } else {
        match shots[n - 1].assignment {
            Assignment::Target { id, locked: false } => shot_movers(e, shots, n - 1).push(
                Mover { engager: e as usize, shot: (n - 1) as usize, shot_id: shots[n - 1].id, current: id },
            ),
            _ => shot_movers(e, shots, n - 1),
        }
    }
}

pub open spec fn movers_upto<P>(m: Seq<EngagerView<P>>, k: int) -> Seq<Mover>
    decreases k,
{
    if k <= 0 {
        Seq::empty()
    } else {
        movers_upto(m, k - 1) + shot_movers(k - 1, m[k - 1].shots, m[k - 1].shots.len() as int)
    }
}

/// Interceptors a platform may still launch now: free slots in flight, bounded by its magazine.
pub open spec fn capacity<P>(e: EngagerView<P>) -> nat {
    let free: nat = if e.shots.len() >= MAX_IN_FLIGHT { 0 } else { (MAX_IN_FLIGHT - e.shots.len()) as nat };
    if free <= e.ammo { free } else { e.ammo as nat }
}

pub open spec fn tubes_upto<P>(m: Seq<EngagerView<P>>, k: int) -> Seq<u128>
    decreases k,
{
    if k <= 0 {
        Seq::empty()
    } else {
        tubes_upto(m, k - 1) + Seq::new(capacity(m[k - 1]), |_i: int| m[k - 1].platform_id)
    }
}

/// The first `k` threats that may be engaged and are not held by a locked interceptor.
pub open spec fn eligible_upto(threats: Seq<ThreatInfo>, engageable: Seq<u128>, locked: Seq<u128>, k: int) -> Seq<
    ThreatInfo,
>
    decreases k,
{
    if k <= 0 {
        Seq::empty()
    } else if engageable.contains(threats[k - 1].id) && !locked.contains(threats[k - 1].id) {
        eligible_upto(threats, engageable, locked, k - 1).push(threats[k - 1])
    } else {
        eligible_upto(threats, engageable, locked, k - 1)
    }
}

pub open spec fn plan_movers<P>(m: Seq<EngagerView<P>>) -> Seq<Mover> {
    movers_upto(m, m.len() as int)
}

pub open spec fn plan_tubes<P>(m: Seq<EngagerView<P>>) -> Seq<u128> {
    tubes_upto(m, m.len() as int)
}

pub open spec fn plan_targets<P>(m: Seq<EngagerView<P>>, threats: Seq<ThreatInfo>, engageable: Seq<u128>) -> Seq<ThreatInfo> {
    eligible_upto(threats, engageable, locked_targets(m), threats.len() as int)
}

/// Weight of row `i` against column `j`: dummy rows and columns weigh nothing.
pub open spec fn weight<P>(
    movers: Seq<Mover>,
    tubes: Seq<u128>,
    targets: Seq<ThreatInfo>,
    radars: Seq<RadarInfo<P>>,
    reach: Seq<Reach>,
    ranges: Seq<Range>,
    i: int,
    j: int,
) -> int {
    if j >= targets.len() {
        0
    } else if i < movers.len() {
        mover_score_spec(ranges, movers[i].shot_id, targets[j], movers[i].current)
    } else if i - movers.len() < tubes.len() {
        tube_score_spec(radars, reach, tubes[i - movers.len()], targets[j])
    } else {
        0
    }
}

pub open spec fn weight_matrix<P>(
    movers: Seq<Mover>,
    tubes: Seq<u128>,
    targets: Seq<ThreatInfo>,
    radars: Seq<RadarInfo<P>>,
    reach: Seq<Reach>,
    ranges: Seq<Range>,
    n: int,
) -> Seq<Seq<i64>> {
    Seq::new(
        n as nat,
        |i: int| Seq::new(n as nat, |j: int| weight(movers, tubes, targets, radars, reach, ranges, i, j) as i64),
    )
}

/// `m` after engager `e` launches `shot`, spending one interceptor.
pub open spec fn launched<P>(m: Seq<EngagerView<P>>, e: int, shot: Shot<P>) -> Seq<EngagerView<P>> {
    m.update(e, EngagerView { ammo: (m[e].ammo - 1) as usize, shots: m[e].shots.push(shot), ..m[e] })
}

/// Effect of assignment row `i` (column `a[i]`) on `m`; a launch uses the id `fresh`.
pub open spec fn apply_row<P>(
    m: Seq<EngagerView<P>>,
    movers: Seq<Mover>,
    tubes: Seq<u128>,
    targets: Seq<ThreatInfo>,
    radars: Seq<RadarInfo<P>>,
    reach: Seq<Reach>,
    ranges: Seq<Range>,
    a: Seq<usize>,
    i: int,
    fresh: u128,
) -> Seq<EngagerView<P>> {
    let j = a[i] as int;
    if i < movers.len() {
        let mv = movers[i];
        let next = if j < targets.len() && mover_score_spec(ranges, mv.shot_id, targets[j], targets[j].id) > 0 {
            Assignment::Target { id: targets[j].id, locked: false }
        } else {
            Assignment::Divert
        };
        with_assignment(m, mv.engager as int, mv.shot as int, next)
    } else if i - movers.len() < tubes.len() && j < targets.len() {
        let pid = tubes[i - movers.len()];
        let t = targets[j];
        match radar_of(radars, pid) {
            None => m,
            Some(r) => if reach_of(reach, pid, t.id) is None {
                m
            } else {
                match engager_index(m, pid) {
                    None => m,
                    Some(e) => if m[e].ammo == 0 {
                        m
                    } else {
                        launched(
                            m,
                            e,
                            Shot {
                                id: fresh,
                                position: r.position,
                                assignment: Assignment::Target { id: t.id, locked: false },
                            },
                        )
                    },
                }
            },
        }
    } else {
        m
    }
}

/// Effect of the first `k` rows; row `i` launches, if it does, with id `ids[i]`.
pub open spec fn apply_rows<P>(
    m: Seq<EngagerView<P>>,
    movers: Seq<Mover>,
    tubes: Seq<u128>,
    targets: Seq<ThreatInfo>,
    radars: Seq<RadarInfo<P>>,
    reach: Seq<Reach>,
    ranges: Seq<Range>,
    a: Seq<usize>,
    k: int,
    ids: Seq<u128>,
) -> Seq<EngagerView<P>>
    decreases k,
{
    if k <= 0 {
        m
    } else {
        apply_row(
            apply_rows(m, movers, tubes, targets, radars, reach, ranges, a, k - 1, ids),
            movers,
            tubes,
            targets,
            radars,
            reach,
            ranges,
            a,
            k - 1,
            ids[k - 1],
        )
    }
}

/// Outcome of applying assignment `a` to `m`, with the plan `m` itself gives.
pub open spec fn assigned<P>(
    m: Seq<EngagerView<P>>,
    radars: Seq<RadarInfo<P>>,
    threats: Seq<ThreatInfo>,
    engageable: Seq<u128>,
    geo: Geometry,
    a: Seq<usize>,
    ids: Seq<u128>,
) -> Seq<EngagerView<P>> {
    apply_rows(
        m,
        plan_movers(m),
        plan_tubes(m),
        plan_targets(m, threats, engageable),
        radars,
        geo.reach@,
        geo.ranges@,
        a,
        a.len() as int,
        ids,
    )
}

/// The square weight matrix of re-tasking `m`: rows are its movers then its
/// free tubes, columns its eligible targets, padded with dummies to a square.
pub open spec fn plan_weights<P>(
    m: Seq<EngagerView<P>>,
    radars: Seq<RadarInfo<P>>,
    threats: Seq<ThreatInfo>,
    engageable: Seq<u128>,
    geo: Geometry,
) -> Seq<Seq<i64>> {
    let movers = plan_movers(m);
    let tubes = plan_tubes(m);
    let targets = plan_targets(m, threats, engageable);
    let rows = movers.len() + tubes.len();
    let n: int = if rows >= targets.len() { rows as int } else { targets.len() as int };
    weight_matrix(movers, tubes, targets, radars, geo.reach@, geo.ranges@, n)
}

/// `a` is a matching of the rows of `w` of greatest total weight.
pub open spec fn is_best_matching(w: Seq<Seq<i64>>, a: Seq<usize>) -> bool {
    &&& is_matching(a, w.len() as int)
    &&& forall|b: Seq<usize>|
        is_matching(b, w.len() as int) ==> #[trigger] matching_value(w, b, b.len() as int) <= matching_value(
            w,
            a,
            a.len() as int,
        )
}

/// Outcome of re-tasking `m`: nothing happens without rows or targets; otherwise
/// the solver's best matching over the weights is applied.
pub open spec fn retasked<P>(
    m: Seq<EngagerView<P>>,
    radars: Seq<RadarInfo<P>>,
    threats: Seq<ThreatInfo>,
    engageable: Seq<u128>,
    geo: Geometry,
    ids: Seq<u128>,
) -> Seq<EngagerView<P>> {
    if !retask_runs(m, threats, engageable) {
        m
    } else {
        let a = kuhn_munkres_assignment(plan_weights(m, radars, threats, engageable, geo));
        assigned(m, radars, threats, engageable, geo, a, ids)
    }
}

/// Engagers as re-tasking finds them in a tick: matched against the radars,
/// with interceptors whose target is not among `threats` diverted.
pub open spec fn prepared<P>(m: Seq<EngagerView<P>>, radars: Seq<RadarInfo<P>>, threats: Seq<ThreatInfo>) -> Seq<
    EngagerView<P>,
> {
    diverted_lost(synced(m, radars), threat_ids(threats))
}

/// Ids of the threats, in order.
pub open spec fn threat_ids(threats: Seq<ThreatInfo>) -> Seq<u128> {
    threats.map_values(|t: ThreatInfo| t.id)
}

/// Whether re-tasking has rows and targets to match.
pub open spec fn retask_runs<P>(m: Seq<EngagerView<P>>, threats: Seq<ThreatInfo>, engageable: Seq<u128>) -> bool {
    plan_movers(m).len() + plan_tubes(m).len() > 0 && plan_targets(m, threats, engageable).len() > 0
}

/// No two threats share an id.
pub open spec fn distinct_threat_ids(threats: Seq<ThreatInfo>) -> bool {
    forall|x: int, y: int|
        0 <= x < threats.len() && 0 <= y < threats.len() && x != y ==> (#[trigger] threats[x]).id
            != (#[trigger] threats[y]).id
}

/// Threat levels and distances small enough for the assignment arithmetic.
pub open spec fn within_limits(threats: Seq<ThreatInfo>, geo: Geometry) -> bool {
    &&& forall|i: int| 0 <= i < threats.len() ==> #[trigger] threats[i].threat_level <= LEVEL_LIMIT
    &&& forall|i: int|
        0 <= i < geo.reach@.len() ==> 0 <= #[trigger] geo.reach@[i].distance <= DISTANCE_LIMIT
    &&& forall|i: int|
        0 <= i < geo.ranges@.len() ==> 0 <= #[trigger] geo.ranges@[i].distance <= DISTANCE_LIMIT
}

pub(crate) proof fn lemma_reach_upto(s: Seq<Reach>, pid: u128, tid: u128, k: int, k2: int)
    requires
        0 <= k <= k2 <= s.len(),
    ensures
        reach_upto(s, pid, tid, k) matches Some(d) ==> reach_upto(s, pid, tid, k2) == Some(d),
    decreases k2,
{
    if k2 > k {
        lemma_reach_upto(s, pid, tid, k, k2 - 1);
    }
}

pub(crate) proof fn lemma_range_upto(s: Seq<Range>, sid: u128, tid: u128, k: int, k2: int)
    requires
        0 <= k <= k2 <= s.len(),
    ensures
        range_upto(s, sid, tid, k) matches Some(d) ==> range_upto(s, sid, tid, k2) == Some(d),
    decreases k2,
{
    if k2 > k {
        lemma_range_upto(s, sid, tid, k, k2 - 1);
    }
}

/// Distance from platform `pid` to threat `tid`, if it can reach it.
pub fn reach_lookup(reach: &Vec<Reach>, pid: u128, tid: u128) -> (r: Option<i64>)
    requires
        forall|i: int| 0 <= i < reach@.len() ==> 0 <= #[trigger] reach@[i].distance <= DISTANCE_LIMIT,
    ensures
        r == reach_of(reach@, pid, tid),
        r matches Some(d) ==> 0 <= d <= DISTANCE_LIMIT,
{
    let mut i: usize = 0;
    while i < reach.len()
        invariant
            i <= reach.len(),
            reach_upto(reach@, pid, tid, i as int) is None,
            forall|i: int| 0 <= i < reach@.len() ==> 0 <= #[trigger] reach@[i].distance <= DISTANCE_LIMIT,
        decreases reach.len() - i,
    {
        if reach[i].platform_id == pid && reach[i].threat_id == tid {
            proof {
                lemma_reach_upto(reach@, pid, tid, i as int + 1, reach@.len() as int);
            }
            assert(0 <= reach@[i as int].distance <= DISTANCE_LIMIT);
            return Some(reach[i].distance);
        }
        i += 1;
    }
    None
}

/// Distance from shot `sid` to threat `tid`, if measured.
pub fn range_lookup(ranges: &Vec<Range>, sid: u128, tid: u128) -> (r: Option<i64>)
    requires
        forall|i: int| 0 <= i < ranges@.len() ==> 0 <= #[trigger] ranges@[i].distance <= DISTANCE_LIMIT,
    ensures
        r == range_of(ranges@, sid, tid),
        r matches Some(d) ==> 0 <= d <= DISTANCE_LIMIT,
{
    let mut i: usize = 0;
    while i < ranges.len()
        invariant
            i <= ranges.len(),
            range_upto(ranges@, sid, tid, i as int) is None,
            forall|i: int| 0 <= i < ranges@.len() ==> 0 <= #[trigger] ranges@[i].distance <= DISTANCE_LIMIT,
        decreases ranges.len() - i,
    {
        if ranges[i].shot_id == sid && ranges[i].threat_id == tid {
            proof {
                lemma_range_upto(ranges@, sid, tid, i as int + 1, ranges@.len() as int);
            }
            assert(0 <= ranges@[i as int].distance <= DISTANCE_LIMIT);
            return Some(ranges[i].distance);
        }
        i += 1;
    }
    None
}

/// Value of engaging a threat of level `level` at `distance`.
fn engagement_value_of(level: usize, distance: i64) -> (r: i64)
    requires
        level <= LEVEL_LIMIT,
        0 <= distance <= DISTANCE_LIMIT,
    ensures
        r == engagement_value(level, distance),
        -WEIGHT_LIMIT <= r,
        r + HYST_BONUS <= WEIGHT_LIMIT,
{
    REACHABLE_BASE + (level as i64) * 1000 - distance / 10
}

/// Value of launching from platform `pid` at threat `t`.
pub fn tube_score<P: Copy>(radars: &Vec<RadarInfo<P>>, reach: &Vec<Reach>, pid: u128, t: ThreatInfo) -> (r: i64)
    requires
        t.threat_level <= LEVEL_LIMIT,
        forall|i: int| 0 <= i < reach@.len() ==> 0 <= #[trigger] reach@[i].distance <= DISTANCE_LIMIT,
    ensures
        r == tube_score_spec(radars@, reach@, pid, t),
        -WEIGHT_LIMIT <= r <= WEIGHT_LIMIT,
{
    if find_radar(radars, pid).is_none() {
        return UNREACHABLE;
    }
    match reach_lookup(reach, pid, t.id) {
        Some(d) => engagement_value_of(t.threat_level, d),
        None => UNREACHABLE,
    }
}

/// Value of shot `sid`, now chasing `current`, engaging threat `t`.
pub fn mover_score(ranges: &Vec<Range>, sid: u128, t: ThreatInfo, current: u128) -> (r: i64)
    requires
        t.threat_level <= LEVEL_LIMIT,
        forall|i: int| 0 <= i < ranges@.len() ==> 0 <= #[trigger] ranges@[i].distance <= DISTANCE_LIMIT,
    ensures
        r == mover_score_spec(ranges@, sid, t, current),
        -WEIGHT_LIMIT <= r <= WEIGHT_LIMIT,
{
    match range_lookup(ranges, sid, t.id) {
        Some(d) => {
            let base = engagement_value_of(t.threat_level, d);
            if t.id == current {
                base + HYST_BONUS
            } else {
                base
            }
        },
        None => UNREACHABLE,
    }
}

/// The threats that may be engaged and are not held by a locked interceptor, in order.
fn eligible(threats: &Vec<ThreatInfo>, engageable: &Vec<u128>, locked: &Vec<u128>) -> (r: Vec<ThreatInfo>)
    ensures
        r@ == eligible_upto(threats@, engageable@, locked@, threats@.len() as int),
{
    let mut r: Vec<ThreatInfo> = Vec::new();
    let mut k: usize = 0;
    while k < threats.len()
        invariant
            k <= threats.len(),
            r@ == eligible_upto(threats@, engageable@, locked@, k as int),
        decreases threats.len() - k,
    {
        let t = threats[k];
        if contains_id(engageable, t.id) && !contains_id(locked, t.id) {
            r.push(t);
        }
        k += 1;
    }
    r
}

pub(crate) proof fn lemma_shot_movers<P>(e: int, shots: Seq<Shot<P>>, n: int)
    requires
        0 <= n <= shots.len(),
        0 <= e <= usize::MAX,
        shots.len() <= usize::MAX,
    ensures
        shot_movers(e, shots, n).len() <= n,
        forall|r: int|
            #![trigger shot_movers(e, shots, n)[r]]
            0 <= r < shot_movers(e, shots, n).len() ==> {
                let mv = shot_movers(e, shots, n)[r];
                &&& mv.engager == e
                &&& 0 <= mv.shot < n
                &&& shots[mv.shot as int].id == mv.shot_id
                &&& shots[mv.shot as int].assignment == Assignment::Target { id: mv.current, locked: false }
            },
        forall|r1: int, r2: int|
            0 <= r1 < r2 < shot_movers(e, shots, n).len() ==> (#[trigger] shot_movers(e, shots, n)[r1]).shot
                < (#[trigger] shot_movers(e, shots, n)[r2]).shot,
    decreases n,
{
    if n > 0 {
        lemma_shot_movers(e, shots, n - 1);
        let prev = shot_movers(e, shots, n - 1);
        let all = shot_movers(e, shots, n);
        assert forall|r: int| #![trigger all[r]] 0 <= r < all.len() implies {
            let mv = all[r];
            &&& mv.engager == e
            &&& 0 <= mv.shot < n
            &&& shots[mv.shot as int].id == mv.shot_id
            &&& shots[mv.shot as int].assignment == Assignment::Target { id: mv.current, locked: false }
        } by {
            if r < prev.len() {
                assert(all[r] == prev[r]);
            }
        }
        assert forall|r1: int, r2: int| 0 <= r1 < r2 < all.len() implies (#[trigger] all[r1]).shot
            < (#[trigger] all[r2]).shot by {
            if r2 < prev.len() {
                assert(all[r1] == prev[r1] && all[r2] == prev[r2]);
            } else {
                assert(all[r1] == prev[r1]);
            }
        }
    }
}

pub(crate) proof fn lemma_movers_upto<P>(m: Seq<EngagerView<P>>, k: int)
    requires
        0 <= k <= m.len(),
        0 <= m.len() <= usize::MAX,
        forall|e: int| 0 <= e < m.len() ==> #[trigger] m[e].shots.len() <= usize::MAX,
    ensures
        movers_upto(m, k).len() <= offset(m, k),
        forall|r: int|
            #![trigger movers_upto(m, k)[r]]
            0 <= r < movers_upto(m, k).len() ==> {
                let mv = movers_upto(m, k)[r];
                &&& 0 <= mv.engager < k
                &&& 0 <= mv.shot < m[mv.engager as int].shots.len()
                &&& m[mv.engager as int].shots[mv.shot as int].id == mv.shot_id
                &&& m[mv.engager as int].shots[mv.shot as int].assignment == Assignment::Target {
                    id: mv.current,
                    locked: false,
                }
            },
        forall|r1: int, r2: int|
            0 <= r1 < r2 < movers_upto(m, k).len() ==> (#[trigger] movers_upto(m, k)[r1]).engager
                < (#[trigger] movers_upto(m, k)[r2]).engager || (movers_upto(m, k)[r1].engager
                == movers_upto(m, k)[r2].engager && movers_upto(m, k)[r1].shot < movers_upto(m, k)[r2].shot),
    decreases k,
{
    if k > 0 {
        lemma_movers_upto(m, k - 1);
        let prev = movers_upto(m, k - 1);
        let sh = m[k - 1].shots;
        let here = shot_movers(k - 1, sh, sh.len() as int);
        lemma_shot_movers(k - 1, sh, sh.len() as int);
        let all = movers_upto(m, k);
        assert(all == prev + here);
        assert forall|r: int| #![trigger all[r]] 0 <= r < all.len() implies {
            let mv = all[r];
            &&& 0 <= mv.engager < k
            &&& 0 <= mv.shot < m[mv.engager as int].shots.len()
            &&& m[mv.engager as int].shots[mv.shot as int].id == mv.shot_id
            &&& m[mv.engager as int].shots[mv.shot as int].assignment == Assignment::Target {
                id: mv.current,
                locked: false,
            }
        } by {
            if r < prev.len() {
                assert(all[r] == prev[r]);
            } else {
                assert(all[r] == here[r - prev.len()]);
            }
        }
        assert forall|r1: int, r2: int| 0 <= r1 < r2 < all.len() implies (#[trigger] all[r1]).engager
            < (#[trigger] all[r2]).engager || (all[r1].engager == all[r2].engager && all[r1].shot
            < all[r2].shot) by {
            if r2 < prev.len() {
                assert(all[r1] == prev[r1] && all[r2] == prev[r2]);
            } else if r1 < prev.len() {
                assert(all[r1] == prev[r1]);
                assert(all[r2] == here[r2 - prev.len()]);
            } else {
                assert(all[r1] == here[r1 - prev.len()]);
                assert(all[r2] == here[r2 - prev.len()]);
            }
        }
    }
}

pub(crate) proof fn lemma_offset_bound<P>(m: Seq<EngagerView<P>>, k: int)
    requires
        0 <= k <= m.len(),
        well_formed_view(m),
    ensures
        offset(m, k) <= MAX_IN_FLIGHT * k,
    decreases k,
{
    if k > 0 {
        lemma_offset_bound(m, k - 1);
        assert(m[k - 1].shots.len() <= MAX_IN_FLIGHT);
    }
}

pub(crate) proof fn lemma_tubes_len<P>(m: Seq<EngagerView<P>>, k: int)
    requires
        0 <= k <= m.len(),
    ensures
        tubes_upto(m, k).len() <= MAX_IN_FLIGHT * k,
    decreases k,
{
    if k > 0 {
        lemma_tubes_len(m, k - 1);
    }
}

pub(crate) proof fn lemma_eligible(threats: Seq<ThreatInfo>, engageable: Seq<u128>, locked: Seq<u128>, k: int)
    requires
        0 <= k <= threats.len(),
    ensures
        eligible_upto(threats, engageable, locked, k).len() <= k,
        forall|x: int|
            0 <= x < eligible_upto(threats, engageable, locked, k).len() ==> exists|i: int|
                0 <= i < k && threats[i] == #[trigger] eligible_upto(threats, engageable, locked, k)[x],
        forall|x: int|
            0 <= x < eligible_upto(threats, engageable, locked, k).len() ==> engageable.contains(
                (#[trigger] eligible_upto(threats, engageable, locked, k)[x]).id,
            ) && !locked.contains(eligible_upto(threats, engageable, locked, k)[x].id),
        distinct_threat_ids(threats) ==> distinct_threat_ids(eligible_upto(threats, engageable, locked, k)),
    decreases k,
{
    if k > 0 {
        lemma_eligible(threats, engageable, locked, k - 1);
        let prev = eligible_upto(threats, engageable, locked, k - 1);
        let all = eligible_upto(threats, engageable, locked, k);
        assert forall|x: int| 0 <= x < all.len() implies engageable.contains((#[trigger] all[x]).id)
            && !locked.contains(all[x].id) by {
            if x < prev.len() {
                assert(all[x] == prev[x]);
            }
        }
        if distinct_threat_ids(threats) && all != prev {
            assert forall|x: int, y: int| 0 <= x < all.len() && 0 <= y < all.len() && x != y implies (#[trigger] all[x]).id
                != (#[trigger] all[y]).id by {
                if x < prev.len() && y < prev.len() {
                    assert(all[x] == prev[x] && all[y] == prev[y]);
                } else if x < prev.len() {
                    assert(all[x] == prev[x]);
                    let i = choose|i: int| 0 <= i < k - 1 && threats[i] == prev[x];
                    assert(all[y] == threats[k - 1]);
                } else {
                    assert(all[y] == prev[y]);
                    let i = choose|i: int| 0 <= i < k - 1 && threats[i] == prev[y];
                    assert(all[x] == threats[k - 1]);
                }
            }
        }
        assert forall|x: int| 0 <= x < all.len() implies exists|i: int|
            0 <= i < k && threats[i] == #[trigger] all[x] by {
            if x < prev.len() {
                assert(all[x] == prev[x]);
                let i = choose|i: int| 0 <= i < k - 1 && threats[i] == prev[x];
            } else {
                assert(all[x] == threats[k - 1]);
            }
        }
    }
}

/// Row effects depend only on the ids of the rows applied.
pub(crate) proof fn lemma_apply_rows_ids<P>(
    m: Seq<EngagerView<P>>,
    movers: Seq<Mover>,
    tubes: Seq<u128>,
    targets: Seq<ThreatInfo>,
    radars: Seq<RadarInfo<P>>,
    reach: Seq<Reach>,
    ranges: Seq<Range>,
    a: Seq<usize>,
    k: int,
    ids1: Seq<u128>,
    ids2: Seq<u128>,
)
    requires
        0 <= k <= ids1.len(),
        k <= ids2.len(),
        forall|i: int| 0 <= i < k ==> ids1[i] == ids2[i],
    ensures
        apply_rows(m, movers, tubes, targets, radars, reach, ranges, a, k, ids1) == apply_rows(
            m,
            movers,
            tubes,
            targets,
            radars,
            reach,
            ranges,
            a,
            k,
            ids2,
        ),
    decreases k,
{
    if k > 0 {
        lemma_apply_rows_ids(m, movers, tubes, targets, radars, reach, ranges, a, k - 1, ids1, ids2);
    }
}

/// Applying rows keeps every engager and every old shot slot; shots are only appended.
pub(crate) proof fn lemma_apply_rows_shape<P>(
    m: Seq<EngagerView<P>>,
    movers: Seq<Mover>,
    tubes: Seq<u128>,
    targets: Seq<ThreatInfo>,
    radars: Seq<RadarInfo<P>>,
    reach: Seq<Reach>,
    ranges: Seq<Range>,
    a: Seq<usize>,
    k: int,
    ids: Seq<u128>,
)
    requires
        0 <= k <= a.len(),
        forall|r: int|
            0 <= r < movers.len() ==> 0 <= (#[trigger] movers[r]).engager < m.len() && 0
                <= movers[r].shot < m[movers[r].engager as int].shots.len(),
    ensures
        ({
            let f = apply_rows(m, movers, tubes, targets, radars, reach, ranges, a, k, ids);
            &&& f.len() == m.len()
            &&& forall|e: int|
                #![trigger f[e]]
                0 <= e < m.len() ==> f[e].platform_id == m[e].platform_id && f[e].shots.len()
                    >= m[e].shots.len()
        }),
    decreases k,
{
    if k > 0 {
        lemma_apply_rows_shape(m, movers, tubes, targets, radars, reach, ranges, a, k - 1, ids);
        let f0 = apply_rows(m, movers, tubes, targets, radars, reach, ranges, a, k - 1, ids);
        let f = apply_rows(m, movers, tubes, targets, radars, reach, ranges, a, k, ids);
        assert(f == apply_row(f0, movers, tubes, targets, radars, reach, ranges, a, k - 1, ids[k - 1]));
        if k - 1 < movers.len() {
            let mv = movers[k - 1];
            assert(f0[mv.engager as int].shots.len() >= m[mv.engager as int].shots.len());
        } else {
            let pid = tubes[k - 1 - movers.len()];
            if let Some(e) = engager_index(f0, pid) {
                lemma_engager_index(f0, pid, f0.len() as int, f0.len() as int);
            }
        }
        assert forall|e: int|
            #![trigger f[e]]
            0 <= e < m.len() implies f[e].platform_id == m[e].platform_id && f[e].shots.len()
                >= m[e].shots.len() by {
            assert(f0[e].platform_id == m[e].platform_id);
        }
    }
}

/// Targets whose levels fit the assignment arithmetic.
pub open spec fn levels_within_limit(targets: Seq<ThreatInfo>) -> bool {
    forall|i: int| 0 <= i < targets.len() ==> #[trigger] targets[i].threat_level <= LEVEL_LIMIT
}

/// Distances that fit the assignment arithmetic.
pub open spec fn distances_within_limit(geo: Geometry) -> bool {
    &&& forall|i: int|
        0 <= i < geo.reach@.len() ==> 0 <= #[trigger] geo.reach@[i].distance <= DISTANCE_LIMIT
    &&& forall|i: int|
        0 <= i < geo.ranges@.len() ==> 0 <= #[trigger] geo.ranges@[i].distance <= DISTANCE_LIMIT
}

/// The `n` by `n` weight matrix of a plan.
fn weight_rows<P: Copy>(plan: &RetaskPlan, radars: &Vec<RadarInfo<P>>, geo: &Geometry, n: usize) -> (r: Vec<
    Vec<i64>,
>)
    requires
        levels_within_limit(plan.targets@),
        distances_within_limit(*geo),
    ensures
        rows_of(r@) == weight_matrix(
            plan.movers@,
            plan.tubes@,
            plan.targets@,
            radars@,
            geo.reach@,
            geo.ranges@,
            n as int,
        ),
        bounded_weights(rows_of(r@)),
{
    let ghost w = weight_matrix(plan.movers@, plan.tubes@, plan.targets@, radars@, geo.reach@, geo.ranges@, n as int);
    let mut rows: Vec<Vec<i64>> = Vec::new();
    let mut i: usize = 0;
    while i < n
        invariant
            i <= n,
            levels_within_limit(plan.targets@),
            distances_within_limit(*geo),
            w == weight_matrix(plan.movers@, plan.tubes@, plan.targets@, radars@, geo.reach@, geo.ranges@, n as int),
            rows@.len() == i,
            forall|x: int| 0 <= x < i ==> #[trigger] rows@[x]@ == w[x],
            bounded_weights(rows_of(rows@)),
        decreases n - i,
    {
        let mut row: Vec<i64> = Vec::new();
        let mut j: usize = 0;
        while j < n
            invariant
                i < n,
                j <= n,
                levels_within_limit(plan.targets@),
                distances_within_limit(*geo),
                w == weight_matrix(plan.movers@, plan.tubes@, plan.targets@, radars@, geo.reach@, geo.ranges@, n as int),
                row@ == w[i as int].take(j as int),
                forall|y: int| 0 <= y < j ==> -WEIGHT_LIMIT <= #[trigger] row@[y] <= WEIGHT_LIMIT,
            decreases n - j,
        {
            let v: i64 = if j >= plan.targets.len() {
                0
            } else if i < plan.movers.len() {
                let mv = plan.movers[i];
                mover_score(&geo.ranges, mv.shot_id, plan.targets[j], mv.current)
            } else if i - plan.movers.len() < plan.tubes.len() {
                tube_score(radars, &geo.reach, plan.tubes[i - plan.movers.len()], plan.targets[j])
            } else {
                0
            };
            assert(v == w[i as int][j as int]);
            row.push(v);
            j += 1;
            assert(row@ =~= w[i as int].take(j as int));
        }
        assert(row@ =~= w[i as int]);
        let ghost before = rows@;
        rows.push(row);
        i += 1;
        assert forall|x: int, y: int|
            0 <= x < rows_of(rows@).len() && 0 <= y < rows_of(rows@)[x].len() implies -WEIGHT_LIMIT
            <= #[trigger] rows_of(rows@)[x][y] <= WEIGHT_LIMIT by {
            if x < i - 1 {
                assert(rows_of(rows@)[x] == rows_of(before)[x]);
            }
        }
    }
    assert(rows_of(rows@) =~= w);
    rows
}

pub(crate) proof fn lemma_retained_len<P>(m: Seq<EngagerView<P>>, radars: Seq<RadarInfo<P>>, k: int)
    requires
        0 <= k,
    ensures
        retained(m, radars, k).len() <= k,
    decreases k,
{
    if k > 0 {
        lemma_retained_len(m, radars, k - 1);
    }
}

/// An operator override (lock or abort) on one shot keeps well-formedness and
/// removes at most one automatic pursuit.
pub(crate) proof fn lemma_override_keeps<P>(m: Seq<EngagerView<P>>, e: int, s: int, a: Assignment)
    requires
        0 <= e < m.len(),
        0 <= s < m[e].shots.len(),
        !(a matches Assignment::Target { locked: false, .. }),
    ensures
        well_formed_view(m) ==> well_formed_view(with_assignment(m, e, s, a)),
        one_hunter_per_threat(m) ==> one_hunter_per_threat(with_assignment(m, e, s, a)),
{
    let f = with_assignment(m, e, s, a);
    let shot = Shot { assignment: a, ..m[e].shots[s] };
    assert(f.len() == m.len());
    assert(f[e].shots == m[e].shots.update(s, shot));
    assert(f[e].platform_id == m[e].platform_id);
    assert forall|i: int| 0 <= i < f.len() implies #[trigger] f[i].platform_id == m[i].platform_id && f[i].shots.len()
        == m[i].shots.len() by {
        if i == e {
        } else {
            assert(f[i] == m[i]);
        }
    }
    assert forall|x: int, y: int| #[trigger] auto_target(f, x, y) is Some implies auto_target(f, x, y) == auto_target(m, x, y) by {
        assert(f[x].platform_id == m[x].platform_id);
        assert(f[x].shots.len() == m[x].shots.len());
        if x == e && y == s {
            assert(f[x].shots[y].assignment == a);
        } else if x == e {
            assert(f[e].shots[y] == m[e].shots[y]);
        } else {
            assert(f[x] == m[x]);
        }
    }
    if well_formed_view(m) {
        assert forall|i: int, j: int| 0 <= i < f.len() && 0 <= j < f.len() && i != j implies #[trigger] f[i].platform_id
            != #[trigger] f[j].platform_id by {
            assert(f[i].platform_id == m[i].platform_id && f[j].platform_id == m[j].platform_id);
        }
        assert forall|i: int| 0 <= i < f.len() implies #[trigger] f[i].shots.len() <= MAX_IN_FLIGHT by {
            assert(f[i].shots.len() == m[i].shots.len());
        }
    }
}

pub(crate) proof fn lemma_keeps_itself<P>(m: Seq<EngagerView<P>>)
    ensures
        keeps_engagers(m, m),
{
}

pub(crate) proof fn lemma_surviving_len<P>(shots: Seq<Shot<P>>, outs: Seq<ShotOutcome<P>>, n: int)
    requires
        0 <= n,
    ensures
        surviving(shots, outs, n).len() <= n,
    decreases n,
{
    if n > 0 {
        lemma_surviving_len(shots, outs, n - 1);
    }
}

pub(crate) proof fn lemma_engager_index_none<P>(m: Seq<EngagerView<P>>, pid: u128, k: int)
    requires
        0 <= k <= m.len(),
        engager_index_upto(m, pid, k) is None,
    ensures
        forall|i: int| 0 <= i < k ==> #[trigger] m[i].platform_id != pid,
    decreases k,
{
    if k > 0 {
        lemma_engager_index_none(m, pid, k - 1);
    }
}

pub(crate) proof fn lemma_radar_upto<P>(radars: Seq<RadarInfo<P>>, pid: u128, k: int, k2: int)
    requires
        0 <= k <= k2 <= radars.len(),
    ensures
        radar_upto(radars, pid, k) matches Some(r) ==> r.id == pid && radar_upto(radars, pid, k2)
            == Some(r),
        radar_upto(radars, pid, k2) is None ==> radar_upto(radars, pid, k) is None,
    decreases k2,
{
    if k2 > k {
        lemma_radar_upto(radars, pid, k, k2 - 1);
    } else if k > 0 {
        lemma_radar_upto(radars, pid, k - 1, k - 1);
    }
}

/// The first radar with id `pid`.
pub fn find_radar<P: Copy>(radars: &Vec<RadarInfo<P>>, pid: u128) -> (r: Option<RadarInfo<P>>)
    ensures
        r == radar_of(radars@, pid),
{
    let mut i: usize = 0;
    while i < radars.len()
        invariant
            i <= radars.len(),
            radar_upto(radars@, pid, i as int) is None,
        decreases radars.len() - i,
    {
        if radars[i].id == pid {
            proof {
                lemma_radar_upto(radars@, pid, i as int + 1, radars@.len() as int);
            }
            return Some(radars[i]);
        }
        i += 1;
    }
    None
}

impl<P: Copy> Engagements<P> {
    /// The engagers, in the order the library keeps them.
    pub closed spec fn view(&self) -> Seq<EngagerView<P>> {
        views_of(self.engagers@)
    }

    /// Last known threat positions, as kept for velocity estimates.
    pub closed spec fn last_positions(&self) -> Seq<(u128, P)> {
        self.last_pos@
    }

    /// Threats destroyed so far.
    pub closed spec fn kills(&self) -> usize {
        self.neutralized
    }

    /// Threats destroyed so far.
    pub fn neutralized(&self) -> (r: usize)
        ensures
            r == self.kills(),
    {
        self.neutralized
    }

    pub open spec fn well_formed(&self) -> bool {
        well_formed_view(self.view())
    }

    /// No engager, no recorded positions, nothing neutralized.
    pub fn new() -> (r: Self)
        ensures
            r.view() == Seq::<EngagerView<P>>::empty(),
            r.last_positions() == Seq::<(u128, P)>::empty(),
            r.kills() == 0,
            r.well_formed(),
            one_hunter_per_threat(r.view()),
    {
        let r = Engagements { engagers: Vec::new(), last_pos: Vec::new(), neutralized: 0 };
        assert(r.view() =~= Seq::<EngagerView<P>>::empty());
        r
    }

    /// Forgets every engager, every recorded position and the kill count.
    pub fn reset(&mut self)
        ensures
            final(self).view() == Seq::<EngagerView<P>>::empty(),
            final(self).last_positions() == Seq::<(u128, P)>::empty(),
            final(self).kills() == 0,
            final(self).well_formed(),
            one_hunter_per_threat(final(self).view()),
    {
        self.engagers = Vec::new();
        self.last_pos = Vec::new();
        self.neutralized = 0;
        assert(self.view() =~= Seq::<EngagerView<P>>::empty());
    }

    proof fn lemma_view_bounds(&self)
        ensures
            self.view().len() <= usize::MAX,
            self.view().len() == self.engagers@.len(),
            forall|e: int| 0 <= e < self.view().len() ==> #[trigger] self.view()[e].shots.len() <= usize::MAX,
    {
        assert(self.engagers@.len() == self.engagers.len());
        assert forall|e: int| 0 <= e < self.view().len() implies #[trigger] self.view()[e].shots.len() <= usize::MAX by {
            assert(self.engagers@[e].shots@.len() == self.engagers@[e].shots.len());
        }
    }

    /// Index of the engager of platform `pid`.
    fn find_engager(&self, pid: u128) -> (r: Option<usize>)
        ensures
            r matches Some(i) ==> Some(i as int) == engager_index(self.view(), pid) && i
                < self.engagers.len(),
            r is None ==> engager_index(self.view(), pid) is None,
    {
        let mut i: usize = 0;
        while i < self.engagers.len()
            invariant
                i <= self.engagers.len(),
                engager_index_upto(self.view(), pid, i as int) is None,
            decreases self.engagers.len() - i,
        {
            if self.engagers[i].platform_id == pid {
                proof {
                    lemma_engager_index(self.view(), pid, i as int + 1, self.view().len() as int);
                }
                return Some(i);
            }
            i += 1;
        }
        proof {
            lemma_engager_index(self.view(), pid, i as int, i as int);
        }
        None
    }

    /// Number of platforms tracked.
    pub fn platform_count(&self) -> (r: usize)
        ensures
            r == self.view().len(),
    {
        self.engagers.len()
    }

    /// Remaining interceptors of platform `platform_id`; 0 for an unknown platform.
    pub fn ammo(&self, platform_id: u128) -> (r: usize)
        ensures
            r == match engager_index(self.view(), platform_id) {
                Some(i) => self.view()[i].ammo,
                None => 0,
            },
    {
        match self.find_engager(platform_id) {
            Some(i) => self.engagers[i].ammo,
            None => 0,
        }
    }

    /// Location of the first shot with id `sid`.
    fn find_shot(&self, sid: u128) -> (r: Option<(usize, usize)>)
        ensures
            r matches Some(p) ==> locate_shot(self.view(), sid) == Some((p.0 as int, p.1 as int))
                && p.0 < self.view().len() && p.1 < self.view()[p.0 as int].shots.len(),
            r is None ==> locate_shot(self.view(), sid) is None,
    {
        let ghost m = self.view();
        let mut e: usize = 0;
        while e < self.engagers.len()
            invariant
                e <= self.engagers.len(),
                m == self.view(),
                locate_shot_upto(m, sid, e as int) is None,
            decreases self.engagers.len() - e,
        {
            let mut s: usize = 0;
            while s < self.engagers[e].shots.len()
                invariant
                    e < self.engagers.len(),
                    s <= self.engagers[e as int].shots.len(),
                    m == self.view(),
                    m[e as int].shots == self.engagers[e as int].shots@,
                    locate_shot_upto(m, sid, e as int) is None,
                    shot_index_upto(m[e as int].shots, sid, s as int) is None,
                decreases self.engagers[e as int].shots.len() - s,
            {
                if self.engagers[e].shots[s].id == sid {
                    proof {
                        let sh = m[e as int].shots;
                        assert(shot_index_upto(sh, sid, s as int + 1) == Some(s as int));
                        lemma_shot_index(sh, sid, s as int + 1, sh.len() as int);
                        assert(locate_shot_upto(m, sid, e as int + 1) == Some((e as int, s as int)));
                        lemma_locate_shot(m, sid, e as int + 1, m.len() as int);
                    }
                    return Some((e, s));
                }
                s += 1;
            }
            proof {
                let sh = m[e as int].shots;
                lemma_shot_index(sh, sid, s as int, s as int);
            }
            e += 1;
        }
        proof {
            lemma_locate_shot(m, sid, e as int, e as int);
        }
        None
    }

    /// Replaces the assignment of shot `s` of engager `e`.
    fn set_assignment(&mut self, e: usize, s: usize, a: Assignment)
        requires
            e < old(self).view().len(),
            s < old(self).view()[e as int].shots.len(),
        ensures
            final(self).view() == with_assignment(old(self).view(), e as int, s as int, a),
            final(self).engagers@.len() == old(self).engagers@.len(),
            forall|i: int| 0 <= i < final(self).engagers@.len() ==> #[trigger] final(self).engagers@[i].shots@.len() == old(self).engagers@[i].shots@.len(),
            final(self).last_positions() == old(self).last_positions(),
            final(self).kills() == old(self).kills(),
    {
        let ghost m = self.view();
        let mut shot = self.engagers[e].shots[s];
        shot.assignment = a;
        self.engagers[e].shots.set(s, shot);
        assert(self.view() =~= with_assignment(m, e as int, s as int, a));
    }

    /// Matches the engagers against the current radars: platforms without a
    /// radar are dropped, each new platform starts with its full magazine.
    pub fn sync(&mut self, radars: &Vec<RadarInfo<P>>)
        requires
            old(self).well_formed(),
        ensures
            final(self).view() == synced(old(self).view(), radars@),
            final(self).view().len() <= old(self).view().len() + radars@.len(),
            final(self).well_formed(),
            engagers_match_radars(final(self).view(), radars@),
            one_hunter_per_threat(old(self).view()) ==> one_hunter_per_threat(final(self).view()),
            final(self).last_positions() == old(self).last_positions(),
            final(self).kills() == old(self).kills(),
    {
        let ghost m0 = self.view();
        proof {
            if one_hunter_per_threat(m0) {
                lemma_synced_one_hunter(m0, radars@);
            }
            synced_matches_radars(m0, radars@);
        }
        let mut rest: Vec<Engager<P>> = Vec::new();
        std::mem::swap(&mut rest, &mut self.engagers);
        let ghost orig = rest@;
        let total = rest.len();
        assert(views_of(orig) == m0);
        assert(self.view() =~= retained(m0, radars@, 0));
        let mut k: usize = 0;
        while rest.len() > 0
            invariant
                k <= orig.len(),
                orig.len() == total,
                rest@ == orig.subrange(k as int, orig.len() as int),
                views_of(orig) == m0,
                well_formed_view(m0),
                self.view() == retained(m0, radars@, k as int),
                well_formed_view(self.view()),
                forall|i: int|
                    0 <= i < self.view().len() ==> exists|j: int|
                        0 <= j < k && #[trigger] self.view()[i] == #[trigger] m0[j],
                self.last_pos == old(self).last_pos,
                self.neutralized == old(self).neutralized,
            decreases rest.len(),
        {
            assert(rest@.len() == orig.len() - k);
            let e = rest.remove(0);
            assert(e == orig[k as int]);
            assert(e@ == m0[k as int]);
            let ghost before = self.view();
            if find_radar(radars, e.platform_id).is_some() {
                self.engagers.push(e);
                assert(self.view() =~= before.push(m0[k as int]));
                assert forall|i: int| 0 <= i < before.len() implies #[trigger] before[i].platform_id
                    != m0[k as int].platform_id by {
                    let a = choose|a: int| 0 <= a < k && before[i] == m0[a];
                    assert(m0[a].platform_id != m0[k as int].platform_id);
                }
                assert forall|i: int| 0 <= i < self.view().len() implies exists|j: int|
                    0 <= j < k + 1 && #[trigger] self.view()[i] == #[trigger] m0[j] by {
                    if i == before.len() {
                        assert(self.view()[i] == m0[k as int]);
                    } else {
                        assert(self.view()[i] == before[i]);
                    }
                }
            } else {
                assert(self.view() =~= before);
            }
            k += 1;
            assert(rest@ =~= orig.subrange(k as int, orig.len() as int));
        }
        assert(k == orig.len());
        let ghost base = self.view();
        proof {
            lemma_retained_len(m0, radars@, m0.len() as int);
        }
        let mut r: usize = 0;
        while r < radars.len()
            invariant
                r <= radars.len(),
                self.view() == with_new_radars(base, radars@, r as int),
                self.view().len() <= base.len() + r,
                base.len() <= m0.len(),
                well_formed_view(self.view()),
                self.last_pos == old(self).last_pos,
                self.neutralized == old(self).neutralized,
            decreases radars.len() - r,
        {
            let id = radars[r].id;
            if self.find_engager(id).is_none() {
                let ghost before = self.view();
                proof {
                    lemma_engager_index_none(before, id, before.len() as int);
                }
                self.engagers.push(Engager { platform_id: id, ammo: radars[r].ammo, shots: Vec::new() });
                assert(self.view() =~= before.push(
                    EngagerView { platform_id: id, ammo: radars[r as int].ammo, shots: Seq::empty() },
                ));
            }
            r += 1;
        }
    }

    /// Sends every interceptor whose target is no longer alive to the safe zone.
    pub fn divert_lost_targets(&mut self, alive: &Vec<u128>)
        ensures
            final(self).view() == diverted_lost(old(self).view(), alive@),
            old(self).well_formed() ==> final(self).well_formed(),
            one_hunter_per_threat(old(self).view()) ==> one_hunter_per_threat(final(self).view()),
            final(self).last_positions() == old(self).last_positions(),
            final(self).kills() == old(self).kills(),
    {
        let ghost m0 = self.view();
        let ghost target = diverted_lost(m0, alive@);
        let mut e: usize = 0;
        while e < self.engagers.len()
            invariant
                e <= self.engagers.len(),
                self.engagers@.len() == m0.len(),
                self.view().len() == m0.len(),
                target == diverted_lost(m0, alive@),
                forall|i: int|
                    #![trigger self.view()[i]]
                    0 <= i < m0.len() ==> self.view()[i] == if i < e {
                        target[i]
                    } else {
                        m0[i]
                    },
                self.last_pos@ == old(self).last_pos@,
                self.neutralized == old(self).neutralized,
            decreases self.engagers.len() - e,
        {
            let ghost row = m0[e as int];
            assert(self.view()[e as int] == row);
            assert(self.engagers[e as int].shots@ == row.shots);
            let mut s: usize = 0;
            while s < self.engagers[e].shots.len()
                invariant
                    e < self.engagers.len(),
                    self.engagers@.len() == m0.len(),
                    self.view().len() == m0.len(),
                    row == m0[e as int],
                    target == diverted_lost(m0, alive@),
                    self.engagers[e as int].shots@.len() == row.shots.len(),
                    s <= row.shots.len(),
                    forall|i: int|
                        #![trigger self.view()[i]]
                        0 <= i < m0.len() && i != e ==> self.view()[i] == if i < e {
                            target[i]
                        } else {
                            m0[i]
                        },
                    self.view()[e as int].platform_id == row.platform_id,
                    self.view()[e as int].ammo == row.ammo,
                    self.view()[e as int].shots.len() == row.shots.len(),
                    forall|j: int|
                        #![trigger self.view()[e as int].shots[j]]
                        0 <= j < row.shots.len() ==> self.view()[e as int].shots[j] == if j < s {
                            divert_if_lost(row.shots[j], alive@)
                        } else {
                            row.shots[j]
                        },
                    self.last_pos@ == old(self).last_pos@,
                    self.neutralized == old(self).neutralized,
                decreases row.shots.len() - s,
            {
                let shot = self.engagers[e].shots[s];
                assert(shot == self.view()[e as int].shots[s as int]);
                if let Assignment::Target { id, .. } = shot.assignment {
                    if !contains_id(alive, id) {
                        let ghost before = self.view();
                        self.set_assignment(e, s, Assignment::Divert);
                        assert forall|i: int|
                            #![trigger self.view()[i]]
                            0 <= i < m0.len() && i != e implies self.view()[i] == before[i] by {}
                        assert forall|j: int|
                            #![trigger self.view()[e as int].shots[j]]
                            0 <= j < row.shots.len() && j != s implies self.view()[e as int].shots[j]
                                == before[e as int].shots[j] by {}
                    }
                }
                s += 1;
            }
            assert(self.view()[e as int] =~= target[e as int]);
            e += 1;
        }
        assert(self.view() =~= target);
        proof {
            assert forall|e: int, s: int| #[trigger] auto_target(target, e, s) is Some implies auto_target(target, e, s)
                == auto_target(m0, e, s) by {}
        }
    }

    /// Launch lines: one per interceptor chasing a target, with its platform.
    pub fn lines(&self) -> (r: Vec<Engagement>)
        ensures
            r@ == lines_upto(self.view(), self.view().len() as int),
    {
        let ghost m = self.view();
        let mut r: Vec<Engagement> = Vec::new();
        let mut e: usize = 0;
        while e < self.engagers.len()
            invariant
                e <= self.engagers.len(),
                m == self.view(),
                r@ == lines_upto(m, e as int),
            decreases self.engagers.len() - e,
        {
            let pid = self.engagers[e].platform_id;
            let ghost before = r@;
            let mut s: usize = 0;
            while s < self.engagers[e].shots.len()
                invariant
                    e < self.engagers.len(),
                    s <= self.engagers[e as int].shots.len(),
                    m == self.view(),
                    pid == m[e as int].platform_id,
                    r@ == before + shot_lines(pid, m[e as int].shots, s as int),
                decreases self.engagers[e as int].shots.len() - s,
            {
                let shot = self.engagers[e].shots[s];
                assert(shot == m[e as int].shots[s as int]);
                match shot.assignment {
                    Assignment::Target { id, .. } => {
                        r.push(Engagement { platform_id: pid, threat_id: id });
                    },
                    Assignment::Divert => {},
                }
                s += 1;
                assert(r@ =~= before + shot_lines(pid, m[e as int].shots, s as int));
            }
            e += 1;
        }
        r
    }

    /// Every interceptor in flight, platform by platform.
    pub fn interceptors(&self) -> (r: Vec<FlyingInterceptor<P>>)
        ensures
            r@ == flying_upto(self.view(), self.view().len() as int),
    {
        let ghost m = self.view();
        let mut r: Vec<FlyingInterceptor<P>> = Vec::new();
        let mut e: usize = 0;
        while e < self.engagers.len()
            invariant
                e <= self.engagers.len(),
                m == self.view(),
                r@ == flying_upto(m, e as int),
            decreases self.engagers.len() - e,
        {
            let ghost before = r@;
            let mut s: usize = 0;
            while s < self.engagers[e].shots.len()
                invariant
                    e < self.engagers.len(),
                    s <= self.engagers[e as int].shots.len(),
                    m == self.view(),
                    r@ == before + m[e as int].shots.take(s as int).map_values(|x: Shot<P>| flying(x)),
                decreases self.engagers[e as int].shots.len() - s,
            {
                let shot = self.engagers[e].shots[s];
                assert(shot == m[e as int].shots[s as int]);
                let target_id = match shot.assignment {
                    Assignment::Target { id, .. } => id,
                    Assignment::Divert => 0,
                };
                let diverting = match shot.assignment {
                    Assignment::Target { .. } => false,
                    Assignment::Divert => true,
                };
                r.push(FlyingInterceptor { id: shot.id, position: shot.position, target_id, diverting });
                s += 1;
                assert(m[e as int].shots.take(s as int) =~= m[e as int].shots.take(s - 1).push(shot));
                assert(r@ =~= before + m[e as int].shots.take(s as int).map_values(|x: Shot<P>| flying(x)));
            }
            assert(m[e as int].shots.take(s as int) =~= m[e as int].shots);
            e += 1;
        }
        r
    }

    /// Records the threat positions seen this tick, replacing the previous record.
    pub fn record_positions(&mut self, positions: Vec<(u128, P)>)
        ensures
            final(self).last_positions() == positions@,
            final(self).view() == old(self).view(),
            final(self).kills() == old(self).kills(),
    {
        self.last_pos = positions;
    }

    /// Position recorded for threat `id` at the previous tick (the latest record wins).
    pub fn last_position(&self, id: u128) -> (r: Option<P>)
        ensures
            r == position_upto(self.last_positions(), id, self.last_positions().len() as int),
    {
        let mut k: usize = self.last_pos.len();
        while k > 0
            invariant
                k <= self.last_pos.len(),
                position_upto(self.last_pos@, id, self.last_pos@.len() as int) == position_upto(
                    self.last_pos@,
                    id,
                    k as int,
                ),
            decreases k,
        {
            if self.last_pos[k - 1].0 == id {
                return Some(self.last_pos[k - 1].1);
            }
            k -= 1;
        }
        None
    }

    /// Applies this tick's outcomes, given for every shot in the order of
    /// `interceptors()`: spent shots leave, the others move. Returns the threats
    /// destroyed, in that order, and adds their number to the kill count.
    pub fn advance(&mut self, outcomes: &Vec<ShotOutcome<P>>) -> (destroyed: Vec<u128>)
        requires
            outcomes@.len() == total_shots(old(self).view()),
            old(self).kills() + total_shots(old(self).view()) <= usize::MAX,
        ensures
            final(self).view() == advanced(old(self).view(), outcomes@),
            destroyed@ == destroyed_upto(old(self).view(), outcomes@, old(self).view().len() as int),
            final(self).kills() == old(self).kills() + destroyed@.len(),
            final(self).last_positions() == old(self).last_positions(),
            old(self).well_formed() ==> final(self).well_formed(),
            one_hunter_per_threat(old(self).view()) ==> one_hunter_per_threat(final(self).view()),
    {
        let ghost m0 = self.view();
        let ghost target = advanced(m0, outcomes@);
        proof {
            if one_hunter_per_threat(m0) {
                lemma_advanced_one_hunter(m0, outcomes@);
            }
        }
        let mut destroyed: Vec<u128> = Vec::new();
        let total = outcomes.len();
        let mut k: usize = 0;
        let mut e: usize = 0;
        proof {
            lemma_offset(m0, 0, m0.len() as int);
        }
        while e < self.engagers.len()
            invariant
                e <= self.engagers.len(),
                self.engagers@.len() == m0.len(),
                self.view().len() == m0.len(),
                target == advanced(m0, outcomes@),
                outcomes@.len() == total_shots(m0),
                outcomes@.len() == total,
                k == offset(m0, e as int),
                destroyed@ == destroyed_upto(m0, outcomes@, e as int),
                destroyed@.len() <= k,
                self.neutralized == old(self).neutralized,
                self.neutralized + total_shots(m0) <= usize::MAX,
                forall|i: int|
                    #![trigger self.view()[i]]
                    0 <= i < m0.len() ==> self.view()[i] == if i < e {
                        target[i]
                    } else {
                        m0[i]
                    },
                self.last_pos@ == old(self).last_pos@,
            decreases self.engagers.len() - e,
        {
            let ghost row = m0[e as int];
            let ghost outs = outcomes_of(m0, outcomes@, e as int);
            assert(self.view()[e as int] == row);
            proof {
                lemma_offset(m0, e as int, m0.len() as int);
                lemma_offset(m0, e as int + 1, m0.len() as int);
            }
            let n = self.engagers[e].shots.len();
            let mut kept: Vec<Shot<P>> = Vec::new();
            let ghost d0 = destroyed@;
            let mut s: usize = 0;
            while s < n
                invariant
                    e < self.engagers.len(),
                    self.engagers@.len() == m0.len(),
                    self.view()[e as int] == row,
                    row == m0[e as int],
                    n == row.shots.len(),
                    s <= n,
                    outs == outcomes_of(m0, outcomes@, e as int),
                    outcomes@.len() == total_shots(m0),
                    outcomes@.len() == total,
                    offset(m0, e as int) + n <= total_shots(m0),
                    0 <= offset(m0, e as int),
                    k == offset(m0, e as int) + s,
                    kept@ == surviving(row.shots, outs, s as int),
                    destroyed@ == d0 + hits(row.shots, outs, s as int),
                    destroyed@.len() <= k,
                decreases n - s,
            {
                let shot = self.engagers[e].shots[s];
                assert(shot == row.shots[s as int]);
                assert(k < outcomes@.len());
                assert(outs.len() == n);
                assert(outs[s as int] == outcomes@[k as int]);
                match outcomes[k] {
                    ShotOutcome::Moved(p) => {
                        kept.push(Shot { id: shot.id, position: p, assignment: shot.assignment });
                    },
                    ShotOutcome::Hit => {
                        if let Assignment::Target { id, .. } = shot.assignment {
                            destroyed.push(id);
                        }
                    },
                    ShotOutcome::Expended => {},
                }
                s += 1;
                k += 1;
            }
            let ghost before = self.view();
            self.engagers[e].shots = kept;
            assert forall|i: int|
                #![trigger self.view()[i]]
                0 <= i < m0.len() && i != e implies self.view()[i] == before[i] by {}
            assert(self.view()[e as int] =~= target[e as int]);
            e += 1;
        }
        assert(self.view() =~= target);
        self.neutralized = self.neutralized + destroyed.len();
        proof {
            if well_formed_view(m0) {
                assert forall|i: int| 0 <= i < target.len() implies #[trigger] target[i].shots.len()
                    <= MAX_IN_FLIGHT by {
                    lemma_surviving_len(m0[i].shots, outcomes_of(m0, outcomes@, i), m0[i].shots.len() as int);
                }
            }
        }
        destroyed
    }

    /// Every target held by an operator-locked interceptor.
    fn locked_target_ids(&self) -> (r: Vec<u128>)
        ensures
            r@ == locked_targets(self.view()),
    {
        let ghost m = self.view();
        let mut r: Vec<u128> = Vec::new();
        let mut e: usize = 0;
        while e < self.engagers.len()
            invariant
                e <= self.engagers.len(),
                m == self.view(),
                r@ == locks_upto(m, e as int),
            decreases self.engagers.len() - e,
        {
            let ghost before = r@;
            let mut s: usize = 0;
            while s < self.engagers[e].shots.len()
                invariant
                    e < self.engagers.len(),
                    s <= self.engagers[e as int].shots.len(),
                    m == self.view(),
                    r@ == before + shot_locks(m[e as int].shots, s as int),
                decreases self.engagers[e as int].shots.len() - s,
            {
                let shot = self.engagers[e].shots[s];
                assert(shot == m[e as int].shots[s as int]);
                if let Assignment::Target { id, locked: true } = shot.assignment {
                    r.push(id);
                }
                s += 1;
                assert(r@ =~= before + shot_locks(m[e as int].shots, s as int));
            }
            e += 1;
        }
        r
    }

    /// In-flight interceptors open to automatic re-tasking, platform by platform.
    fn movers(&self) -> (r: Vec<Mover>)
        ensures
            r@ == plan_movers(self.view()),
    {
        let ghost m = self.view();
        let mut r: Vec<Mover> = Vec::new();
        let mut e: usize = 0;
        while e < self.engagers.len()
            invariant
                e <= self.engagers.len(),
                m == self.view(),
                r@ == movers_upto(m, e as int),
            decreases self.engagers.len() - e,
        {
            let ghost before = r@;
            let mut s: usize = 0;
            while s < self.engagers[e].shots.len()
                invariant
                    e < self.engagers.len(),
                    s <= self.engagers[e as int].shots.len(),
                    m == self.view(),
                    r@ == before + shot_movers(e as int, m[e as int].shots, s as int),
                decreases self.engagers[e as int].shots.len() - s,
            {
                let shot = self.engagers[e].shots[s];
                assert(shot == m[e as int].shots[s as int]);
                if let Assignment::Target { id, locked: false } = shot.assignment {
                    r.push(Mover { engager: e, shot: s, shot_id: shot.id, current: id });
                }
                s += 1;
                assert(r@ =~= before + shot_movers(e as int, m[e as int].shots, s as int));
            }
            e += 1;
        }
        r
    }

    /// One launch tube per interceptor each platform may still launch, platform by platform.
    fn tubes(&self) -> (r: Vec<u128>)
        ensures
            r@ == plan_tubes(self.view()),
    {
        let ghost m = self.view();
        let mut r: Vec<u128> = Vec::new();
        let mut e: usize = 0;
        while e < self.engagers.len()
            invariant
                e <= self.engagers.len(),
                m == self.view(),
                r@ == tubes_upto(m, e as int),
            decreases self.engagers.len() - e,
        {
            let len = self.engagers[e].shots.len();
            let free: usize = if len >= MAX_IN_FLIGHT { 0 } else { MAX_IN_FLIGHT - len };
            let ammo = self.engagers[e].ammo;
            let cap: usize = if free <= ammo { free } else { ammo };
            assert(cap == capacity(m[e as int]));
            let pid = self.engagers[e].platform_id;
            let ghost before = r@;
            let mut c: usize = 0;
            while c < cap
                invariant
                    c <= cap,
                    r@ == before + Seq::new(c as nat, |_i: int| pid),
                decreases cap - c,
            {
                r.push(pid);
                c += 1;
                assert(r@ =~= before + Seq::new(c as nat, |_i: int| pid));
            }
            e += 1;
            assert(r@ =~= tubes_upto(m, e as int));
        }
        r
    }

    /// The rows and columns of a re-tasking of the current state.
    pub fn plan(&self, threats: &Vec<ThreatInfo>, engageable: &Vec<u128>) -> (r: RetaskPlan)
        ensures
            r.movers@ == plan_movers(self.view()),
            r.tubes@ == plan_tubes(self.view()),
            r.targets@ == plan_targets(self.view(), threats@, engageable@),
    {
        let locked = self.locked_target_ids();
        RetaskPlan { movers: self.movers(), tubes: self.tubes(), targets: eligible(threats, engageable, &locked) }
    }

    /// Applies assignment `a` (a column per row) to the plan's rows: each mover
    /// takes its column's target if still worth it, else diverts; each free tube
    /// matched to a target it can reach launches a new shot and spends one
    /// interceptor.
    fn apply_plan(&mut self, plan: &RetaskPlan, radars: &Vec<RadarInfo<P>>, geo: &Geometry, a: &Vec<usize>)
        requires
            plan.movers@ == plan_movers(old(self).view()),
            levels_within_limit(plan.targets@),
            distances_within_limit(*geo),
        ensures
            exists|ids: Seq<u128>|
                ids.len() == a@.len() && final(self).view() == apply_rows(
                    old(self).view(),
                    plan.movers@,
                    plan.tubes@,
                    plan.targets@,
                    radars@,
                    geo.reach@,
                    geo.ranges@,
                    a@,
                    a@.len() as int,
                    ids,
                ),
            launched_ids_fresh(old(self).view(), final(self).view()),
            final(self).last_positions() == old(self).last_positions(),
            final(self).kills() == old(self).kills(),
    {
        let ghost m0 = self.view();
        let ghost movers = plan.movers@;
        let ghost tubes = plan.tubes@;
        let ghost targets = plan.targets@;
        let ghost mut ids: Seq<u128> = Seq::empty();
        proof {
            self.lemma_view_bounds();
            lemma_movers_upto(m0, m0.len() as int);
        }
        let mut i: usize = 0;
        while i < a.len()
            invariant
                i <= a.len(),
                ids.len() == i,
                movers == plan.movers@,
                tubes == plan.tubes@,
                targets == plan.targets@,
                movers == plan_movers(m0),
                levels_within_limit(targets),
                distances_within_limit(*geo),
                forall|r: int|
                    0 <= r < movers.len() ==> 0 <= (#[trigger] movers[r]).engager < m0.len() && 0
                        <= movers[r].shot < m0[movers[r].engager as int].shots.len(),
                self.view() == apply_rows(m0, movers, tubes, targets, radars@, geo.reach@, geo.ranges@, a@, i as int, ids),
                launched_ids_fresh(m0, self.view()),
                self.engagers@.len() == m0.len(),
                self.last_pos@ == old(self).last_pos@,
                self.neutralized == old(self).neutralized,
            decreases a.len() - i,
        {
            let ghost before = self.view();
            proof {
                lemma_apply_rows_shape(m0, movers, tubes, targets, radars@, geo.reach@, geo.ranges@, a@, i as int, ids);
            }
            let j = a[i];
            let ghost mut fresh: u128 = 0;
            if i < plan.movers.len() {
                let mv = plan.movers[i];
                let next = if j < plan.targets.len() && mover_score(
                    &geo.ranges,
                    mv.shot_id,
                    plan.targets[j],
                    plan.targets[j].id,
                ) > 0 {
                    Assignment::Target { id: plan.targets[j].id, locked: false }
                } else {
                    Assignment::Divert
                };
                self.set_assignment(mv.engager, mv.shot, next);
            } else if i - plan.movers.len() < plan.tubes.len() && j < plan.targets.len() {
                let pid = plan.tubes[i - plan.movers.len()];
                let t = plan.targets[j];
                if let Some(radar) = find_radar(radars, pid) {
                    if reach_lookup(&geo.reach, pid, t.id).is_some() {
                        if let Some(e) = self.find_engager(pid) {
                            if self.engagers[e].ammo > 0 {
                                let id = fresh_id();
                                proof {
                                    fresh = id;
                                }
                                let shot = Shot {
                                    id,
                                    position: radar.position,
                                    assignment: Assignment::Target { id: t.id, locked: false },
                                };
                                self.engagers[e].shots.push(shot);
                                self.engagers[e].ammo = self.engagers[e].ammo - 1;
                                assert(self.view() =~= launched(before, e as int, shot));
                                assert forall|x: int, y: int|
                                    0 <= x < m0.len() && m0[x].shots.len() <= y < self.view()[x].shots.len()
                                        implies is_v4_id((#[trigger] self.view()[x].shots[y]).id) by {
                                    if !(x == e && y == before[x].shots.len()) {
                                        assert(self.view()[x].shots[y] == before[x].shots[y]);
                                    }
                                }
                            }
                        }
                    }
                }
            }
            proof {
                let ids2 = ids.push(fresh);
                lemma_apply_rows_ids(m0, movers, tubes, targets, radars@, geo.reach@, geo.ranges@, a@, i as int, ids, ids2);
                ids = ids2;
            }
            i += 1;
        }
    }

    /// Applies a solved assignment (`assignment[i]` is the column of row `i`) to
    /// the rows and columns of the current state's plan.
    pub fn apply_assignment(
        &mut self,
        radars: &Vec<RadarInfo<P>>,
        threats: &Vec<ThreatInfo>,
        engageable: &Vec<u128>,
        geo: &Geometry,
        assignment: &Vec<usize>,
    )
        requires
            within_limits(threats@, *geo),
        ensures
            exists|ids: Seq<u128>|
                ids.len() == assignment@.len() && final(self).view() == assigned(
                    old(self).view(),
                    radars@,
                    threats@,
                    engageable@,
                    *geo,
                    assignment@,
                    ids,
                ),
            final(self).last_positions() == old(self).last_positions(),
            final(self).kills() == old(self).kills(),
    {
        let plan = self.plan(threats, engageable);
        proof {
            let m = self.view();
            lemma_eligible(threats@, engageable@, locked_targets(m), threats@.len() as int);
            assert forall|i: int| 0 <= i < plan.targets@.len() implies #[trigger] plan.targets@[i].threat_level
                <= LEVEL_LIMIT by {
                let x = choose|x: int| 0 <= x < threats@.len() && threats@[x] == plan.targets@[i];
            }
        }
        let ghost m0 = self.view();
        self.apply_plan(&plan, radars, geo, assignment);
        proof {
            let ids = choose|ids: Seq<u128>|
                ids.len() == assignment@.len() && self.view() == apply_rows(
                    m0,
                    plan.movers@,
                    plan.tubes@,
                    plan.targets@,
                    radars@,
                    geo.reach@,
                    geo.ranges@,
                    assignment@,
                    assignment@.len() as int,
                    ids,
                );
            assert(self.view() == assigned(m0, radars@, threats@, engageable@, *geo, assignment@, ids));
        }
    }

    /// Re-optimises assignments over {in-flight movers + free launch tubes} x
    /// engageable threats not held by a locked interceptor. Movers keep their
    /// target unless another one is clearly better; movers left without a
    /// worthwhile target divert; matched tubes launch.
    pub fn retask(&mut self, radars: &Vec<RadarInfo<P>>, threats: &Vec<ThreatInfo>, engageable: &Vec<u128>, geo: &Geometry)
        requires
            old(self).well_formed(),
            old(self).view().len() <= PLATFORM_LIMIT,
            threats@.len() <= SIZE_LIMIT,
            within_limits(threats@, *geo),
        ensures
            exists|ids: Seq<u128>|
                final(self).view() == retasked(old(self).view(), radars@, threats@, engageable@, *geo, ids),
            final(self).well_formed(),
            keeps_engagers(old(self).view(), final(self).view()),
            launches_within_capacity(old(self).view(), final(self).view()),
            launches_in_reach(old(self).view(), final(self).view(), radars@, geo.reach@),
            launched_ids_fresh(old(self).view(), final(self).view()),
            targets_among(old(self).view(), threat_ids(threats@)) ==> targets_among(final(self).view(), threat_ids(threats@)),
            engagers_match_radars(old(self).view(), radars@) ==> engagers_match_radars(final(self).view(), radars@),
            distinct_threat_ids(threats@) && (retask_runs(old(self).view(), threats@, engageable@)
                || one_hunter_per_threat(old(self).view())) ==> one_hunter_per_threat(final(self).view()),
            retask_runs(old(self).view(), threats@, engageable@) ==> exists|a: Seq<usize>, ids: Seq<u128>|
                is_best_matching(plan_weights(old(self).view(), radars@, threats@, engageable@, *geo), a)
                    && final(self).view() == #[trigger] assigned(old(self).view(), radars@, threats@, engageable@, *geo, a, ids),
            retask_runs(old(self).view(), threats@, engageable@) ==> forall|e: int, s: int|
                #[trigger] auto_target(final(self).view(), e, s) is Some ==> engageable@.contains(
                    auto_target(final(self).view(), e, s)->0,
                ) && !locked_targets(old(self).view()).contains(auto_target(final(self).view(), e, s)->0)
                    && threat_ids(threats@).contains(auto_target(final(self).view(), e, s)->0),
            final(self).last_positions() == old(self).last_positions(),
            final(self).kills() == old(self).kills(),
    {
        let ghost m0 = self.view();
        let plan = self.plan(threats, engageable);
        proof {
            self.lemma_view_bounds();
            lemma_movers_upto(m0, m0.len() as int);
            lemma_offset_bound(m0, m0.len() as int);
            lemma_tubes_len(m0, m0.len() as int);
            lemma_eligible(threats@, engageable@, locked_targets(m0), threats@.len() as int);
            assert forall|i: int| 0 <= i < plan.targets@.len() implies #[trigger] plan.targets@[i].threat_level
                <= LEVEL_LIMIT by {
                let x = choose|x: int| 0 <= x < threats@.len() && threats@[x] == plan.targets@[i];
            }
        }
        let rows = plan.movers.len() + plan.tubes.len();
        if rows == 0 || plan.targets.len() == 0 {
            assert(self.view() == retasked(m0, radars@, threats@, engageable@, *geo, Seq::empty()));
            proof {
                lemma_keeps_itself(m0);
                kept_engagers_launch_within_capacity(m0, m0);
            }
            return;
        }
        let n = if rows >= plan.targets.len() { rows } else { plan.targets.len() };
        let weights = weight_rows(&plan, radars, geo, n);
        let ghost w = rows_of(weights@);
        assert(square(w, n as int));
        assert(rectangular(w));
        match matrix_from_rows(weights) {
            Ok(matrix) => {
                let a = max_weight_assignment(&matrix);
                self.apply_plan(&plan, radars, geo, &a);
                proof {
                    let ids = choose|ids: Seq<u128>|
                        ids.len() == a@.len() && self.view() == apply_rows(
                            m0,
                            plan.movers@,
                            plan.tubes@,
                            plan.targets@,
                            radars@,
                            geo.reach@,
                            geo.ranges@,
                            a@,
                            a@.len() as int,
                            ids,
                        );
                    assert(self.view() == retasked(m0, radars@, threats@, engageable@, *geo, ids));
                    assert(self.view() == assigned(m0, radars@, threats@, engageable@, *geo, a@, ids));
                    assert(is_best_matching(plan_weights(m0, radars@, threats@, engageable@, *geo), a@));
                    assigned_keeps_engagers(m0, radars@, threats@, engageable@, *geo, a@, ids);
                    kept_engagers_launch_within_capacity(m0, self.view());
                    assigned_one_hunter_per_threat(m0, radars@, threats@, engageable@, *geo, a@, ids);
                    assigned_launches_in_reach(m0, radars@, threats@, engageable@, *geo, a@, ids);
                    if targets_among(m0, threat_ids(threats@)) {
                        assigned_targets_among(m0, radars@, threats@, engageable@, *geo, a@, ids);
                    }
                    if engagers_match_radars(m0, radars@) {
                        lemma_match_radars_carries(m0, self.view(), radars@);
                    }
                }
            },
            Err(_) => {
                assert(false);
            },
        }
    }

    /// One tick's decisions before the interceptors move: match the engagers
    /// against the radars, record the threats' positions, divert interceptors
    /// whose target is gone, and re-task.
    pub fn step_assign(
        &mut self,
        radars: &Vec<RadarInfo<P>>,
        threats: &Vec<ThreatInfo>,
        positions: Vec<(u128, P)>,
        engageable: &Vec<u128>,
        geo: &Geometry,
    )
        requires
            old(self).well_formed(),
            old(self).view().len() + radars@.len() <= PLATFORM_LIMIT,
            threats@.len() <= SIZE_LIMIT,
            within_limits(threats@, *geo),
        ensures
            exists|ids: Seq<u128>|
                final(self).view() == retasked(prepared(old(self).view(), radars@, threats@), radars@, threats@, engageable@, *geo, ids),
            final(self).well_formed(),
            engagers_match_radars(final(self).view(), radars@),
            targets_among(final(self).view(), threat_ids(threats@)),
            keeps_engagers(prepared(old(self).view(), radars@, threats@), final(self).view()),
            launches_within_capacity(prepared(old(self).view(), radars@, threats@), final(self).view()),
            launches_in_reach(prepared(old(self).view(), radars@, threats@), final(self).view(), radars@, geo.reach@),
            launched_ids_fresh(prepared(old(self).view(), radars@, threats@), final(self).view()),
            distinct_threat_ids(threats@) && one_hunter_per_threat(old(self).view()) ==> one_hunter_per_threat(
                final(self).view(),
            ),
            retask_runs(prepared(old(self).view(), radars@, threats@), threats@, engageable@) ==> exists|
                a: Seq<usize>,
                ids: Seq<u128>,
            |
                is_best_matching(plan_weights(prepared(old(self).view(), radars@, threats@), radars@, threats@, engageable@, *geo), a)
                    && final(self).view() == #[trigger] assigned(
                    prepared(old(self).view(), radars@, threats@),
                    radars@,
                    threats@,
                    engageable@,
                    *geo,
                    a,
                    ids,
                ),
            retask_runs(prepared(old(self).view(), radars@, threats@), threats@, engageable@) ==> forall|e: int, s: int|
                #[trigger] auto_target(final(self).view(), e, s) is Some ==> engageable@.contains(
                    auto_target(final(self).view(), e, s)->0,
                ) && !locked_targets(prepared(old(self).view(), radars@, threats@)).contains(
                    auto_target(final(self).view(), e, s)->0,
                ),
            final(self).last_positions() == positions@,
            final(self).kills() == old(self).kills(),
    {
        let ghost m_old = self.view();
        self.sync(radars);
        self.record_positions(positions);
        let mut alive: Vec<u128> = Vec::new();
        let mut i: usize = 0;
        while i < threats.len()
            invariant
                i <= threats.len(),
                alive@ == threat_ids(threats@).take(i as int),
            decreases threats.len() - i,
        {
            alive.push(threats[i].id);
            i += 1;
            assert(alive@ =~= threat_ids(threats@).take(i as int));
        }
        assert(alive@ =~= threat_ids(threats@));
        let ghost synced_view = self.view();
        self.divert_lost_targets(&alive);
        assert(self.view() == prepared(m_old, radars@, threats@));
        proof {
            diverted_targets_alive(synced_view, alive@);
            lemma_match_radars_carries(synced_view, self.view(), radars@);
        }
        self.retask(radars, threats, engageable, geo);
    }

    /// Operator override: lock interceptor `iid` onto threat `tid`.
    pub fn retarget(&mut self, iid: u128, tid: u128)
        ensures
            final(self).view() == reassign(
                old(self).view(),
                iid,
                Assignment::Target { id: tid, locked: true },
            ),
            old(self).well_formed() ==> final(self).well_formed(),
            one_hunter_per_threat(old(self).view()) ==> one_hunter_per_threat(final(self).view()),
            final(self).last_positions() == old(self).last_positions(),
            final(self).kills() == old(self).kills(),
    {
        if let Some(p) = self.find_shot(iid) {
            self.set_assignment(p.0, p.1, Assignment::Target { id: tid, locked: true });
            proof {
                lemma_override_keeps(old(self).view(), p.0 as int, p.1 as int, Assignment::Target { id: tid, locked: true });
            }
        }
    }

    /// Operator override: abort interceptor `iid`, sending it to the safe zone.
    pub fn abort(&mut self, iid: u128)
        ensures
            final(self).view() == reassign(old(self).view(), iid, Assignment::Divert),
            old(self).well_formed() ==> final(self).well_formed(),
            one_hunter_per_threat(old(self).view()) ==> one_hunter_per_threat(final(self).view()),
            final(self).last_positions() == old(self).last_positions(),
            final(self).kills() == old(self).kills(),
    {
        if let Some(p) = self.find_shot(iid) {
            self.set_assignment(p.0, p.1, Assignment::Divert);
            proof {
                lemma_override_keeps(old(self).view(), p.0 as int, p.1 as int, Assignment::Divert);
            }
        }
    }
}

} // verus!
