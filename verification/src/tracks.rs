//! Threat tracks: one record per tracked threat, fed by detections from the
//! platforms. Kinematics (filtered position, velocity, confidence, time of the
//! last update) are an opaque payload `K` computed by the caller.

use crate::kinds::TrackStatus;
use vstd::prelude::*;

verus! {

/// A tracked threat.
pub struct TrackRecord<K> {
    pub threat_id: u128,
    pub kinematics: K,
    pub threat_level: usize,
    pub source_platforms: Vec<u128>,
    pub status: TrackStatus,
    pub engaged_by: Option<u128>,
}

/// Mathematical view of a track.
#[verifier::ext_equal]
pub struct TrackView<K> {
    pub threat_id: u128,
    pub kinematics: K,
    pub threat_level: usize,
    pub source_platforms: Seq<u128>,
    pub status: TrackStatus,
    pub engaged_by: Option<u128>,
}

impl<K> View for TrackRecord<K> {
    type V = TrackView<K>;

    open spec fn view(&self) -> TrackView<K> {
        TrackView {
            threat_id: self.threat_id,
            kinematics: self.kinematics,
            threat_level: self.threat_level,
            source_platforms: self.source_platforms@,
            status: self.status,
            engaged_by: self.engaged_by,
        }
    }
}

/// All tracks, at most one per threat id.
pub struct TrackTable<K> {
    tracks: Vec<TrackRecord<K>>,
}

/// Index of the track of threat `id` among the first `k`.
pub open spec fn track_index_upto<K>(v: Seq<TrackView<K>>, id: u128, k: int) -> Option<int>
    decreases k,
{
    if k <= 0 {
        None
    } else {
        match track_index_upto(v, id, k - 1) {
            Some(i) => Some(i),
            None => if v[k - 1].threat_id == id {
                Some(k - 1)
            } else {
                None
            },
        }
    }
}

pub open spec fn track_index<K>(v: Seq<TrackView<K>>, id: u128) -> Option<int> {
    track_index_upto(v, id, v.len() as int)
}

/// Kinematics listed for track `id` among the first `k` entries, first one found.
pub open spec fn join_upto<K>(joins: Seq<(u128, K)>, id: u128, k: int) -> Option<K>
    decreases k,
{
    if k <= 0 {
        None
    } else {
        match join_upto(joins, id, k - 1) {
            Some(x) => Some(x),
            None => if joins[k - 1].0 == id {
                Some(joins[k - 1].1)
            } else {
                None
            },
        }
    }
}

pub open spec fn join_of<K>(joins: Seq<(u128, K)>, id: u128) -> Option<K> {
    join_upto(joins, id, joins.len() as int)
}

/// Index of the first of the first `k` tracks that the detection may join.
pub open spec fn first_joined_upto<K>(v: Seq<TrackView<K>>, joins: Seq<(u128, K)>, k: int) -> Option<int>
    decreases k,
{
    if k <= 0 {
        None
    } else {
        match first_joined_upto(v, joins, k - 1) {
            Some(i) => Some(i),
            None => if join_of(joins, v[k - 1].threat_id) is Some {
                Some(k - 1)
            } else {
                None
            },
        }
    }
}

pub open spec fn first_joined<K>(v: Seq<TrackView<K>>, joins: Seq<(u128, K)>) -> Option<int> {
    first_joined_upto(v, joins, v.len() as int)
}

/// Sources with `source` added if new.
pub open spec fn with_source(sources: Seq<u128>, source: u128) -> Seq<u128> {
    if sources.contains(source) {
        sources
    } else {
        sources.push(source)
    }
}

/// Track `t` after a detection merged into it: the kinematics become `kin`, the
/// level the higher of the two, and the reporting platform joins the sources.
pub open spec fn merged<K>(t: TrackView<K>, kin: K, level: usize, source: u128) -> TrackView<K> {
    TrackView {
        kinematics: kin,
        threat_level: if t.threat_level >= level { t.threat_level } else { level },
        source_platforms: with_source(t.source_platforms, source),
        ..t
    }
}

/// A fresh track for a first detection.
pub open spec fn new_track<K>(id: u128, kin: K, level: usize, source: u128) -> TrackView<K> {
    TrackView {
        threat_id: id,
        kinematics: kin,
        threat_level: level,
        source_platforms: seq![source],
        status: TrackStatus::Detected,
        engaged_by: None,
    }
}

/// Track ids are distinct.
pub open spec fn distinct_tracks<K>(v: Seq<TrackView<K>>) -> bool {
    forall|i: int, j: int|
        0 <= i < v.len() && 0 <= j < v.len() && i != j ==> #[trigger] v[i].threat_id != #[trigger] v[j].threat_id
}

/// Which track a detection of `threat_id` lands in: its own, else the first
/// track it may join, else none (a new track).
pub open spec fn landing<K>(v: Seq<TrackView<K>>, threat_id: u128, joins: Seq<(u128, K)>) -> Option<int> {
    match track_index(v, threat_id) {
        Some(i) => Some(i),
        None => first_joined(v, joins),
    }
}

/// Tracks after a detection of `threat_id` (level `level`, reported by
/// `source`): it is merged into the track it lands in, taking the kinematics
/// listed for that track in `joins` (kept as they were if none is listed),
/// or starts a new track with kinematics `fresh`.
pub open spec fn after_detection<K>(
    v: Seq<TrackView<K>>,
    threat_id: u128,
    level: usize,
    source: u128,
    joins: Seq<(u128, K)>,
    fresh: K,
) -> Seq<TrackView<K>> {
    match landing(v, threat_id, joins) {
        Some(i) => {
            let kin = match join_of(joins, v[i].threat_id) {
                Some(x) => x,
                None => v[i].kinematics,
            };
            v.update(i, merged(v[i], kin, level, source))
        },
        None => v.push(new_track(threat_id, fresh, level, source)),
    }
}

/// Tracks after a platform's own sighting of `threat_id`: an existing track
/// takes the kinematics `kin` and the sighting's level; otherwise a new track
/// reported by `own` starts.
pub open spec fn after_sighting<K>(v: Seq<TrackView<K>>, threat_id: u128, level: usize, own: u128, kin: K) -> Seq<
    TrackView<K>,
> {
    match track_index(v, threat_id) {
        Some(i) => v.update(i, TrackView { kinematics: kin, threat_level: level, ..v[i] }),
        None => v.push(new_track(threat_id, kin, level, own)),
    }
}

/// `v` without the track of `id`.
pub open spec fn without_track<K>(v: Seq<TrackView<K>>, id: u128) -> Seq<TrackView<K>> {
    match track_index(v, id) {
        Some(i) => v.remove(i),
        None => v,
    }
}

proof fn lemma_first_joined_char<K>(v: Seq<TrackView<K>>, joins: Seq<(u128, K)>, k: int)
    requires
        0 <= k <= v.len(),
    ensures
        match first_joined_upto(v, joins, k) {
            Some(x) => 0 <= x < k && join_of(joins, v[x].threat_id) is Some && forall|j: int|
                0 <= j < x ==> join_of(joins, (#[trigger] v[j]).threat_id) is None,
            None => forall|j: int| 0 <= j < k ==> join_of(joins, (#[trigger] v[j]).threat_id) is None,
        },
    decreases k,
{
    if k > 0 {
        lemma_first_joined_char(v, joins, k - 1);
    }
}

/// Where a detection lands: in the track of its own threat when there is one;
/// otherwise in the first track it may join (one the caller listed in
/// `joins`), none before it being joinable; and nowhere only when no track is
/// joinable.
pub proof fn detection_lands_in_own_else_first_joinable<K>(v: Seq<TrackView<K>>, threat_id: u128, joins: Seq<(u128, K)>)
    ensures
        (exists|i: int| 0 <= i < v.len() && (#[trigger] v[i]).threat_id == threat_id) ==> (landing(v, threat_id, joins) matches Some(j)
            && 0 <= j < v.len() && v[j].threat_id == threat_id),
        (forall|i: int| 0 <= i < v.len() ==> (#[trigger] v[i]).threat_id != threat_id) ==> match landing(v, threat_id, joins) {
            Some(j) => 0 <= j < v.len() && join_of(joins, v[j].threat_id) is Some && forall|k: int|
                0 <= k < j ==> join_of(joins, (#[trigger] v[k]).threat_id) is None,
            None => forall|k: int| 0 <= k < v.len() ==> join_of(joins, (#[trigger] v[k]).threat_id) is None,
        },
{
    lemma_track_index(v, threat_id, v.len() as int, v.len() as int);
    lemma_first_joined_char(v, joins, v.len() as int);
}

/// Fusing a detection into an existing track refreshes only what it measures:
/// the track keeps its threat, its status and the platform engaging it, keeps
/// every reporting platform (gaining the new one), and its level never drops.
/// Only a detection that lands nowhere starts a track, as `Detected` and
/// engaged by none. No other track changes.
pub proof fn detection_keeps_engagement<K>(
    v: Seq<TrackView<K>>,
    threat_id: u128,
    level: usize,
    source: u128,
    joins: Seq<(u128, K)>,
    fresh: K,
)
    ensures
        ({
            let after = after_detection(v, threat_id, level, source, joins, fresh);
            match landing(v, threat_id, joins) {
                Some(i) => {
                    &&& after.len() == v.len()
                    &&& after[i].threat_id == v[i].threat_id
                    &&& after[i].status == v[i].status
                    &&& after[i].engaged_by == v[i].engaged_by
                    &&& after[i].kinematics == match join_of(joins, v[i].threat_id) {
                        Some(x) => x,
                        None => v[i].kinematics,
                    }
                    &&& after[i].threat_level >= v[i].threat_level
                    &&& after[i].threat_level >= level
                    &&& forall|x: u128| v[i].source_platforms.contains(x) ==> #[trigger] after[i].source_platforms.contains(x)
                    &&& after[i].source_platforms.contains(source)
                    &&& forall|j: int| 0 <= j < v.len() && j != i ==> #[trigger] after[j] == v[j]
                },
                None => {
                    &&& after.len() == v.len() + 1
                    &&& after[v.len() as int].threat_id == threat_id
                    &&& after[v.len() as int].status == TrackStatus::Detected
                    &&& after[v.len() as int].engaged_by is None
                    &&& after[v.len() as int].kinematics == fresh
                    &&& after[v.len() as int].threat_level == level
                    &&& after[v.len() as int].source_platforms == seq![source]
                    &&& forall|j: int| 0 <= j < v.len() ==> #[trigger] after[j] == v[j]
                },
            }
        }),
{
    lemma_track_index(v, threat_id, v.len() as int, v.len() as int);
    lemma_first_joined(v, joins, v.len() as int, v.len() as int);
    match landing(v, threat_id, joins) {
        Some(i) => {
            let after = after_detection(v, threat_id, level, source, joins, fresh);
            let srcs = v[i].source_platforms;
            if !srcs.contains(source) {
                assert(srcs.push(source)[srcs.len() as int] == source);
                assert forall|x: u128| srcs.contains(x) implies #[trigger] srcs.push(source).contains(x) by {
                    let y = choose|y: int| 0 <= y < srcs.len() && srcs[y] == x;
                    assert(srcs.push(source)[y] == x);
                }
            }
        },
        None => {},
    }
}

/// A platform's own sighting of a threat it already tracks refreshes only the
/// kinematics and the level: the track keeps its threat, its status, the
/// platform engaging it and its reporting platforms. A sighting of an
/// untracked threat starts a track, `Detected`, engaged by none, reported by
/// the platform. No other track changes.
pub proof fn sighting_keeps_engagement<K>(v: Seq<TrackView<K>>, threat_id: u128, level: usize, own: u128, kin: K)
    ensures
        ({
            let after = after_sighting(v, threat_id, level, own, kin);
            match track_index(v, threat_id) {
                Some(i) => {
                    &&& after.len() == v.len()
                    &&& after[i].threat_id == v[i].threat_id
                    &&& after[i].status == v[i].status
                    &&& after[i].engaged_by == v[i].engaged_by
                    &&& after[i].source_platforms == v[i].source_platforms
                    &&& after[i].kinematics == kin
                    &&& after[i].threat_level == level
                    &&& forall|j: int| 0 <= j < v.len() && j != i ==> #[trigger] after[j] == v[j]
                },
                None => {
                    &&& after.len() == v.len() + 1
                    &&& after[v.len() as int].threat_id == threat_id
                    &&& after[v.len() as int].status == TrackStatus::Detected
                    &&& after[v.len() as int].engaged_by is None
                    &&& after[v.len() as int].source_platforms == seq![own]
                    &&& forall|j: int| 0 <= j < v.len() ==> #[trigger] after[j] == v[j]
                },
            }
        }),
{
    lemma_track_index(v, threat_id, v.len() as int, v.len() as int);
}

pub(crate) proof fn lemma_track_index<K>(v: Seq<TrackView<K>>, id: u128, k: int, k2: int)
    requires
        0 <= k <= k2 <= v.len(),
    ensures
        track_index_upto(v, id, k) matches Some(x) ==> 0 <= x < k && v[x].threat_id == id
            && track_index_upto(v, id, k2) == Some(x),
        track_index_upto(v, id, k2) is None ==> track_index_upto(v, id, k) is None,
        track_index_upto(v, id, k) is None ==> forall|i: int| 0 <= i < k ==> #[trigger] v[i].threat_id != id,
    decreases k2,
{
    if k2 > k {
        lemma_track_index(v, id, k, k2 - 1);
    } else if k > 0 {
        lemma_track_index(v, id, k - 1, k - 1);
    }
}

proof fn lemma_join_upto<K>(joins: Seq<(u128, K)>, id: u128, k: int, k2: int)
    requires
        0 <= k <= k2 <= joins.len(),
    ensures
        join_upto(joins, id, k) matches Some(x) ==> join_upto(joins, id, k2) == Some(x),
    decreases k2,
{
    if k2 > k {
        lemma_join_upto(joins, id, k, k2 - 1);
    }
}

proof fn lemma_first_joined<K>(v: Seq<TrackView<K>>, joins: Seq<(u128, K)>, k: int, k2: int)
    requires
        0 <= k <= k2 <= v.len(),
    ensures
        first_joined_upto(v, joins, k) matches Some(x) ==> 0 <= x < k && first_joined_upto(v, joins, k2) == Some(x),
    decreases k2,
{
    if k2 > k {
        lemma_first_joined(v, joins, k, k2 - 1);
    } else if k > 0 {
        lemma_first_joined(v, joins, k - 1, k - 1);
    }
}

/// Kinematics listed for track `id`.
pub fn join_lookup<K: Copy>(joins: &Vec<(u128, K)>, id: u128) -> (r: Option<K>)
    ensures
        r == join_of(joins@, id),
{
    let mut i: usize = 0;
    while i < joins.len()
        invariant
            i <= joins.len(),
            join_upto(joins@, id, i as int) is None,
        decreases joins.len() - i,
    {
        if joins[i].0 == id {
            proof {
                lemma_join_upto(joins@, id, i as int + 1, joins@.len() as int);
            }
            return Some(joins[i].1);
        }
        i += 1;
    }
    None
}

/// A list holding just `id`.
pub fn single(id: u128) -> (r: Vec<u128>)
    ensures
        r@ == seq![id],
{
    let mut r: Vec<u128> = Vec::new();
    r.push(id);
    assert(r@ =~= seq![id]);
    r
}

/// A copy of a list of ids.
pub fn copy_ids(v: &Vec<u128>) -> (r: Vec<u128>)
    ensures
        r@ == v@,
{
    let mut r: Vec<u128> = Vec::new();
    let mut i: usize = 0;
    while i < v.len()
        invariant
            i <= v.len(),
            r@ == v@.take(i as int),
        decreases v.len() - i,
    {
        r.push(v[i]);
        i += 1;
        assert(r@ =~= v@.take(i as int));
    }
    assert(r@ =~= v@);
    r
}

impl<K: Copy> TrackTable<K> {
    pub closed spec fn view(&self) -> Seq<TrackView<K>> {
        Seq::new(self.tracks@.len(), |i: int| self.tracks@[i]@)
    }

    pub open spec fn well_formed(&self) -> bool {
        distinct_tracks(self.view())
    }

    /// No track.
    pub fn new() -> (r: Self)
        ensures
            r.view() == Seq::<TrackView<K>>::empty(),
            r.well_formed(),
    {
        let r = TrackTable { tracks: Vec::new() };
        assert(r.view() =~= Seq::<TrackView<K>>::empty());
        r
    }

    /// Number of tracks.
    pub fn len(&self) -> (r: usize)
        ensures
            r == self.view().len(),
    {
        self.tracks.len()
    }

    /// Position of the track of threat `id`.
    pub fn find(&self, id: u128) -> (r: Option<usize>)
        ensures
            r matches Some(i) ==> track_index(self.view(), id) == Some(i as int) && i < self.view().len(),
            r is None ==> track_index(self.view(), id) is None,
    {
        let mut i: usize = 0;
        while i < self.tracks.len()
            invariant
                i <= self.tracks.len(),
                track_index_upto(self.view(), id, i as int) is None,
            decreases self.tracks.len() - i,
        {
            if self.tracks[i].threat_id == id {
                proof {
                    lemma_track_index(self.view(), id, i as int + 1, self.view().len() as int);
                }
                return Some(i);
            }
            i += 1;
        }
        proof {
            lemma_track_index(self.view(), id, i as int, i as int);
        }
        None
    }

    /// A copy of the track at position `i`.
    pub fn at(&self, i: usize) -> (r: TrackRecord<K>)
        requires
            i < self.view().len(),
        ensures
            r@ == self.view()[i as int],
    {
        let t = &self.tracks[i];
        TrackRecord {
            threat_id: t.threat_id,
            kinematics: t.kinematics,
            threat_level: t.threat_level,
            source_platforms: copy_ids(&t.source_platforms),
            status: t.status,
            engaged_by: t.engaged_by,
        }
    }

    /// A copy of the track of threat `id`.
    pub fn get(&self, id: u128) -> (r: Option<TrackRecord<K>>)
        ensures
            r matches Some(t) ==> track_index(self.view(), id) matches Some(i) && t@ == self.view()[i],
            r is None ==> track_index(self.view(), id) is None,
    {
        match self.find(id) {
            Some(i) => Some(self.at(i)),
            None => None,
        }
    }

    /// Copies of all tracks, in order.
    pub fn all(&self) -> (r: Vec<TrackRecord<K>>)
        ensures
            r@.len() == self.view().len(),
            forall|i: int| 0 <= i < r@.len() ==> #[trigger] r@[i]@ == self.view()[i],
    {
        let mut r: Vec<TrackRecord<K>> = Vec::new();
        let mut i: usize = 0;
        while i < self.tracks.len()
            invariant
                i <= self.tracks.len(),
                r@.len() == i,
                forall|x: int| 0 <= x < i ==> #[trigger] r@[x]@ == self.view()[x],
            decreases self.tracks.len() - i,
        {
            r.push(self.at(i));
            i += 1;
        }
        r
    }

    /// Index of the first track the detection may join.
    fn first_joined(&self, joins: &Vec<(u128, K)>) -> (r: Option<usize>)
        ensures
            r matches Some(i) ==> first_joined(self.view(), joins@) == Some(i as int) && i < self.view().len(),
            r is None ==> first_joined(self.view(), joins@) is None,
    {
        let mut i: usize = 0;
        while i < self.tracks.len()
            invariant
                i <= self.tracks.len(),
                first_joined_upto(self.view(), joins@, i as int) is None,
            decreases self.tracks.len() - i,
        {
            if join_lookup(joins, self.tracks[i].threat_id).is_some() {
                assert(self.view()[i as int].threat_id == self.tracks[i as int].threat_id);
                proof {
                    lemma_first_joined(self.view(), joins@, i as int + 1, self.view().len() as int);
                }
                return Some(i);
            }
            i += 1;
        }
        None
    }

    /// Merges a detection into track `i`.
    fn merge_at(&mut self, i: usize, kin: K, level: usize, source: u128)
        requires
            i < old(self).view().len(),
        ensures
            final(self).view() == old(self).view().update(i as int, merged(old(self).view()[i as int], kin, level, source)),
    {
        let ghost v0 = self.view();
        self.tracks[i].kinematics = kin;
        if self.tracks[i].threat_level < level {
            self.tracks[i].threat_level = level;
        }
        let mut present = false;
        let mut k: usize = 0;
        while k < self.tracks[i].source_platforms.len()
            invariant
                i < self.tracks.len(),
                k <= self.tracks[i as int].source_platforms.len(),
                self.tracks[i as int].source_platforms@ == v0[i as int].source_platforms,
                present <==> exists|x: int| 0 <= x < k && v0[i as int].source_platforms[x] == source,
            decreases self.tracks[i as int].source_platforms.len() - k,
        {
            if self.tracks[i].source_platforms[k] == source {
                present = true;
            }
            k += 1;
        }
        if !present {
            self.tracks[i].source_platforms.push(source);
        }
        assert(self.view() =~= v0.update(i as int, merged(v0[i as int], kin, level, source)));
    }

    /// Orchestrator fusion of a detection of `threat_id` (level `level`)
    /// reported by `source`: it lands in its own track, else in the first
    /// track it may join (those listed in `joins`, with their kinematics
    /// updated by the detection), else it starts a new track with kinematics
    /// `fresh`. Returns the resulting track.
    pub fn update_track(
        &mut self,
        threat_id: u128,
        level: usize,
        source: u128,
        joins: &Vec<(u128, K)>,
        fresh: K,
    ) -> (r: TrackRecord<K>)
        requires
            old(self).well_formed(),
        ensures
            final(self).view() == after_detection(old(self).view(), threat_id, level, source, joins@, fresh),
            final(self).well_formed(),
            r@ == match landing(old(self).view(), threat_id, joins@) {
                Some(i) => final(self).view()[i],
                None => final(self).view().last(),
            },
    {
        let ghost v0 = self.view();
        let slot = match self.find(threat_id) {
            Some(i) => Some(i),
            None => self.first_joined(joins),
        };
        match slot {
            Some(i) => {
                let kin = match join_lookup(joins, self.tracks[i].threat_id) {
                    Some(x) => x,
                    None => self.tracks[i].kinematics,
                };
                assert(v0[i as int].threat_id == self.tracks[i as int].threat_id);
                self.merge_at(i, kin, level, source);
                proof {
                    assert forall|a: int, b: int|
                        0 <= a < self.view().len() && 0 <= b < self.view().len() && a != b implies #[trigger] self.view()[a].threat_id
                        != #[trigger] self.view()[b].threat_id by {
                        assert(self.view()[a].threat_id == v0[a].threat_id);
                        assert(self.view()[b].threat_id == v0[b].threat_id);
                    }
                }
                self.at(i)
            },
            None => {
                proof {
                    lemma_track_index(v0, threat_id, v0.len() as int, v0.len() as int);
                }
                self.tracks.push(
                    TrackRecord {
                        threat_id,
                        kinematics: fresh,
                        threat_level: level,
                        source_platforms: single(source),
                        status: TrackStatus::Detected,
                        engaged_by: None,
                    },
                );
                assert(self.view() =~= v0.push(new_track(threat_id, fresh, level, source)));
                self.at(self.tracks.len() - 1)
            },
        }
    }

    /// A platform's own sighting of `threat_id`: an existing track takes the
    /// kinematics `kin` and the sighting's level; otherwise a new track
    /// reported by `own` starts. Returns whether the track is new.
    pub fn observe(&mut self, threat_id: u128, level: usize, own: u128, kin: K) -> (is_new: bool)
        requires
            old(self).well_formed(),
        ensures
            final(self).view() == after_sighting(old(self).view(), threat_id, level, own, kin),
            final(self).well_formed(),
            is_new == (track_index(old(self).view(), threat_id) is None),
    {
        let ghost v0 = self.view();
        match self.find(threat_id) {
            Some(i) => {
                self.tracks[i].kinematics = kin;
                self.tracks[i].threat_level = level;
                assert(self.view() =~= v0.update(i as int, TrackView { kinematics: kin, threat_level: level, ..v0[i as int] }));
                assert forall|a: int, b: int|
                    0 <= a < self.view().len() && 0 <= b < self.view().len() && a != b implies #[trigger] self.view()[a].threat_id
                    != #[trigger] self.view()[b].threat_id by {
                    assert(self.view()[a].threat_id == v0[a].threat_id);
                    assert(self.view()[b].threat_id == v0[b].threat_id);
                }
                false
            },
            None => {
                proof {
                    lemma_track_index(v0, threat_id, v0.len() as int, v0.len() as int);
                }
                self.tracks.push(
                    TrackRecord {
                        threat_id,
                        kinematics: kin,
                        threat_level: level,
                        source_platforms: single(own),
                        status: TrackStatus::Detected,
                        engaged_by: None,
                    },
                );
                assert(self.view() =~= v0.push(new_track(threat_id, kin, level, own)));
                true
            },
        }
    }

    /// Sets the status of the track of `id` (and, when `engaged_by` is given,
    /// who engages it); returns the updated track, if there is one.
    pub fn set_status(&mut self, id: u128, status: TrackStatus, engaged_by: Option<Option<u128>>) -> (r: Option<
        TrackRecord<K>,
    >)
        requires
            old(self).well_formed(),
        ensures
            final(self).well_formed(),
            match track_index(old(self).view(), id) {
                Some(i) => {
                    let t = TrackView {
                        status,
                        engaged_by: match engaged_by {
                            Some(e) => e,
                            None => old(self).view()[i].engaged_by,
                        },
                        ..old(self).view()[i]
                    };
                    &&& final(self).view() == old(self).view().update(i, t)
                    &&& r matches Some(x) && x@ == t
                },
                None => final(self).view() == old(self).view() && r is None,
            },
    {
        let ghost v0 = self.view();
        match self.find(id) {
            Some(i) => {
                self.tracks[i].status = status;
                if let Some(e) = engaged_by {
                    self.tracks[i].engaged_by = e;
                }
                assert(self.view() =~= v0.update(
                    i as int,
                    TrackView {
                        status,
                        engaged_by: match engaged_by {
                            Some(e) => e,
                            None => v0[i as int].engaged_by,
                        },
                        ..v0[i as int]
                    },
                ));
                assert forall|a: int, b: int|
                    0 <= a < self.view().len() && 0 <= b < self.view().len() && a != b implies #[trigger] self.view()[a].threat_id
                    != #[trigger] self.view()[b].threat_id by {
                    assert(self.view()[a].threat_id == v0[a].threat_id);
                    assert(self.view()[b].threat_id == v0[b].threat_id);
                }
                Some(self.at(i))
            },
            None => None,
        }
    }

    /// Replaces the kinematics of the track of `id`, if any.
    pub fn set_kinematics(&mut self, id: u128, kin: K)
        requires
            old(self).well_formed(),
        ensures
            final(self).well_formed(),
            final(self).view() == match track_index(old(self).view(), id) {
                Some(i) => old(self).view().update(i, TrackView { kinematics: kin, ..old(self).view()[i] }),
                None => old(self).view(),
            },
    {
        let ghost v0 = self.view();
        if let Some(i) = self.find(id) {
            self.tracks[i].kinematics = kin;
            assert(self.view() =~= v0.update(i as int, TrackView { kinematics: kin, ..v0[i as int] }));
            assert forall|a: int, b: int|
                0 <= a < self.view().len() && 0 <= b < self.view().len() && a != b implies #[trigger] self.view()[a].threat_id
                != #[trigger] self.view()[b].threat_id by {
                assert(self.view()[a].threat_id == v0[a].threat_id);
                assert(self.view()[b].threat_id == v0[b].threat_id);
            }
        }
    }

    /// Drops the track of `id`, if any.
    pub fn remove(&mut self, id: u128)
        requires
            old(self).well_formed(),
        ensures
            final(self).view() == without_track(old(self).view(), id),
            final(self).well_formed(),
            track_index(final(self).view(), id) is None,
            forall|x: u128| #[trigger] track_index(final(self).view(), x) is Some ==> track_index(old(self).view(), x) is Some,
    {
        let ghost v0 = self.view();
        if let Some(i) = self.find(id) {
            proof {
                lemma_track_index(v0, id, v0.len() as int, v0.len() as int);
            }
            self.tracks.remove(i);
            assert(self.view() =~= v0.remove(i as int));
            assert forall|a: int, b: int|
                0 <= a < self.view().len() && 0 <= b < self.view().len() && a != b implies #[trigger] self.view()[a].threat_id
                != #[trigger] self.view()[b].threat_id by {
                let a0 = if a < i { a } else { a + 1 };
                let b0 = if b < i { b } else { b + 1 };
                assert(self.view()[a].threat_id == v0[a0].threat_id);
                assert(self.view()[b].threat_id == v0[b0].threat_id);
            }
            assert forall|x: int| 0 <= x < self.view().len() implies #[trigger] self.view()[x].threat_id != id by {
                let x0 = if x < i { x } else { x + 1 };
                assert(self.view()[x].threat_id == v0[x0].threat_id);
            }
        }
        proof {
            let v = self.view();
            if track_index(v, id) is Some {
                lemma_track_index(v, id, v.len() as int, v.len() as int);
            }
            assert forall|x: u128| #[trigger] track_index(v, x) is Some implies track_index(v0, x) is Some by {
                lemma_track_index(v, x, v.len() as int, v.len() as int);
                let y = track_index(v, x)->0;
                if track_index(v0, x) is None {
                    lemma_track_index(v0, x, v0.len() as int, v0.len() as int);
                    if let Some(i) = track_index(v0, id) {
                        lemma_track_index(v0, id, v0.len() as int, v0.len() as int);
                        let y0 = if y < i { y } else { y + 1 };
                        assert(v[y] == v0.remove(i)[y]);
                        assert(v[y] == v0[y0]);
                    } else {
                        assert(v[y] == v0[y]);
                    }
                }
            }
        }
    }
}

} // verus!
