//! One interception platform's view of the battle: its own launchers, its
//! neighbours, the threats it has seen, the tracks it keeps, and the threats
//! already being engaged; with its reaction to every network event.
//!
//! Geometry is opaque here: `P` is where a platform stands, `R` how far it
//! reaches, `G` an interceptor's position, `K` a track's kinematics, `T` a raw
//! detection.

use crate::kinds::TrackStatus;
use crate::registry::Registry;
use crate::tracks::{after_sighting, track_index, TrackRecord, TrackTable, TrackView};
use vstd::prelude::*;

verus! {

/// What an interceptor is doing.
#[derive(Clone, Copy, Debug)]
pub enum InterceptorState<G> {
    Idle,
    MovingTo(G),
    Searching(u128),
    Intercepting(u128),
    Destroyed,
}

/// An interceptor as the network knows it.
#[derive(Clone, Copy, Debug)]
pub struct Interceptor<G> {
    pub id: u128,
    pub position: G,
    pub state: InterceptorState<G>,
    pub assigned_track: Option<u128>,
}

/// Another platform, as last reported.
#[derive(Clone, Copy, Debug)]
pub struct NeighborPlatform<P, R> {
    pub id: u128,
    pub position: P,
    pub reach: R,
    pub interceptors_remaining: usize,
}

/// A platform's description.
pub struct PlatformInterceptor<P, R, G> {
    pub id: u128,
    pub name: String,
    pub position: P,
    pub reach: R,
    pub interceptors: Vec<Interceptor<G>>,
    pub neighbor_platforms: Vec<NeighborPlatform<P, R>>,
}

/// What came of a neighbour report.
#[derive(Clone, Copy, Debug, PartialEq, Eq, Structural)]
pub enum NeighborChange {
    /// The report was about this platform itself.
    Ignored,
    /// A known neighbour was updated.
    Updated,
    /// A new neighbour was added.
    Added,
}

/// What came of a local detection.
#[derive(Clone, Copy, Debug, PartialEq, Eq, Structural)]
pub struct DetectOutcome {
    /// The detection started a new track.
    pub is_new_track: bool,
    /// The interceptor launched at it, if this platform engaged it.
    pub engaged_with: Option<u128>,
}

/// A network event as the platform handles it. Detections arrive with the
/// kinematics their track takes (computed by the caller's filter).
pub enum PlatformEvent<P, R, G, K> {
    ThreatDetected { threat_id: u128, threat_level: usize, kinematics: K },
    ThreatDestroyed { threat_id: u128, interceptor_id: u128 },
    ThreatEngaged { threat_id: u128, interceptor_id: u128 },
    NeighborUpdate { platform_id: u128, position: P, reach: R, interceptors_remaining: usize },
    TrackUpdated { threat_id: u128, status: TrackStatus, engaged_by: Option<u128> },
    InterceptorUpdate { interceptor: Interceptor<G> },
    Other,
}

/// Index of the first idle interceptor among the first `n`.
pub open spec fn first_idle_upto<G>(v: Seq<Interceptor<G>>, n: int) -> Option<int>
    decreases n,
{
    if n <= 0 {
        None
    } else {
        match first_idle_upto(v, n - 1) {
            Some(i) => Some(i),
            None => if v[n - 1].state is Idle {
                Some(n - 1)
            } else {
                None
            },
        }
    }
}

pub open spec fn first_idle<G>(v: Seq<Interceptor<G>>) -> Option<int> {
    first_idle_upto(v, v.len() as int)
}

/// Number of idle interceptors among the first `n`.
pub open spec fn idle_count<G>(v: Seq<Interceptor<G>>, n: int) -> nat
    decreases n,
{
    if n <= 0 {
        0
    } else {
        idle_count(v, n - 1) + if v[n - 1].state is Idle {
            1nat
        } else {
            0nat
        }
    }
}

/// Index of the first interceptor with id `id` among the first `n`.
pub open spec fn interceptor_index_upto<G>(v: Seq<Interceptor<G>>, id: u128, n: int) -> Option<int>
    decreases n,
{
    if n <= 0 {
        None
    } else {
        match interceptor_index_upto(v, id, n - 1) {
            Some(i) => Some(i),
            None => if v[n - 1].id == id {
                Some(n - 1)
            } else {
                None
            },
        }
    }
}

pub open spec fn interceptor_index<G>(v: Seq<Interceptor<G>>, id: u128) -> Option<int> {
    interceptor_index_upto(v, id, v.len() as int)
}

/// Index of the first neighbour with id `id` among the first `n`.
pub open spec fn neighbor_index_upto<P, R>(v: Seq<NeighborPlatform<P, R>>, id: u128, n: int) -> Option<int>
    decreases n,
{
    if n <= 0 {
        None
    } else {
        match neighbor_index_upto(v, id, n - 1) {
            Some(i) => Some(i),
            None => if v[n - 1].id == id {
                Some(n - 1)
            } else {
                None
            },
        }
    }
}

pub open spec fn neighbor_index<P, R>(v: Seq<NeighborPlatform<P, R>>, id: u128) -> Option<int> {
    neighbor_index_upto(v, id, v.len() as int)
}

/// The platform is the one to engage: the threat is within its reach, and no
/// neighbour with interceptors left is closer (`no_closer[i]` tells, for
/// neighbour `i`, that it is at least as far from the threat).
pub open spec fn best_platform<P, R>(in_reach: bool, neighbors: Seq<NeighborPlatform<P, R>>, no_closer: Seq<bool>) -> bool {
    in_reach && forall|i: int|
        0 <= i < neighbors.len() && #[trigger] neighbors[i].interceptors_remaining > 0 ==> no_closer[i]
}

/// Which platform engages: never one out of reach, never one with an armed
/// neighbour (interceptors left) closer to the threat; otherwise it is the one.
pub proof fn best_platform_has_no_armed_neighbor_closer<P, R>(
    in_reach: bool,
    neighbors: Seq<NeighborPlatform<P, R>>,
    no_closer: Seq<bool>,
)
    requires
        no_closer.len() == neighbors.len(),
    ensures
        !in_reach ==> !best_platform(in_reach, neighbors, no_closer),
        forall|i: int|
            0 <= i < neighbors.len() && #[trigger] neighbors[i].interceptors_remaining > 0 && !no_closer[i]
                ==> !best_platform(in_reach, neighbors, no_closer),
        in_reach && (forall|i: int|
            0 <= i < neighbors.len() && #[trigger] neighbors[i].interceptors_remaining > 0 ==> no_closer[i])
            ==> best_platform(in_reach, neighbors, no_closer),
{
}

proof fn lemma_first_idle<G>(v: Seq<Interceptor<G>>, n: int, n2: int)
    requires
        0 <= n <= n2 <= v.len(),
    ensures
        first_idle_upto(v, n) matches Some(x) ==> 0 <= x < n && v[x].state is Idle && first_idle_upto(v, n2) == Some(x),
    decreases n2,
{
    if n2 > n {
        lemma_first_idle(v, n, n2 - 1);
    } else if n > 0 {
        lemma_first_idle(v, n - 1, n - 1);
    }
}

proof fn lemma_interceptor_index<G>(v: Seq<Interceptor<G>>, id: u128, n: int, n2: int)
    requires
        0 <= n <= n2 <= v.len(),
    ensures
        interceptor_index_upto(v, id, n) matches Some(x) ==> 0 <= x < n && v[x].id == id
            && interceptor_index_upto(v, id, n2) == Some(x),
    decreases n2,
{
    if n2 > n {
        lemma_interceptor_index(v, id, n, n2 - 1);
    } else if n > 0 {
        lemma_interceptor_index(v, id, n - 1, n - 1);
    }
}

proof fn lemma_neighbor_index<P, R>(v: Seq<NeighborPlatform<P, R>>, id: u128, n: int, n2: int)
    requires
        0 <= n <= n2 <= v.len(),
    ensures
        neighbor_index_upto(v, id, n) matches Some(x) ==> 0 <= x < n && v[x].id == id
            && neighbor_index_upto(v, id, n2) == Some(x),
    decreases n2,
{
    if n2 > n {
        lemma_neighbor_index(v, id, n, n2 - 1);
    } else if n > 0 {
        lemma_neighbor_index(v, id, n - 1, n - 1);
    }
}

/// Position of the first idle interceptor.
pub fn first_idle_position<G: Copy>(v: &Vec<Interceptor<G>>) -> (r: Option<usize>)
    ensures
        r matches Some(i) ==> first_idle(v@) == Some(i as int) && i < v@.len(),
        r is None ==> first_idle(v@) is None,
{
    let mut i: usize = 0;
    while i < v.len()
        invariant
            i <= v.len(),
            first_idle_upto(v@, i as int) is None,
        decreases v.len() - i,
    {
        if let InterceptorState::Idle = v[i].state {
            proof {
                lemma_first_idle(v@, i as int + 1, v@.len() as int);
            }
            return Some(i);
        }
        i += 1;
    }
    None
}

/// Position of the first interceptor with id `id`.
pub fn interceptor_position<G: Copy>(v: &Vec<Interceptor<G>>, id: u128) -> (r: Option<usize>)
    ensures
        r matches Some(i) ==> interceptor_index(v@, id) == Some(i as int) && i < v@.len(),
        r is None ==> interceptor_index(v@, id) is None,
{
    let mut i: usize = 0;
    while i < v.len()
        invariant
            i <= v.len(),
            interceptor_index_upto(v@, id, i as int) is None,
        decreases v.len() - i,
    {
        if v[i].id == id {
            proof {
                lemma_interceptor_index(v@, id, i as int + 1, v@.len() as int);
            }
            return Some(i);
        }
        i += 1;
    }
    None
}

/// Position of the first neighbour with id `id`.
pub fn neighbor_position<P: Copy, R: Copy>(v: &Vec<NeighborPlatform<P, R>>, id: u128) -> (r: Option<usize>)
    ensures
        r matches Some(i) ==> neighbor_index(v@, id) == Some(i as int) && i < v@.len(),
        r is None ==> neighbor_index(v@, id) is None,
{
    let mut i: usize = 0;
    while i < v.len()
        invariant
            i <= v.len(),
            neighbor_index_upto(v@, id, i as int) is None,
        decreases v.len() - i,
    {
        if v[i].id == id {
            proof {
                lemma_neighbor_index(v@, id, i as int + 1, v@.len() as int);
            }
            return Some(i);
        }
        i += 1;
    }
    None
}

/// Everything a platform keeps.
pub struct PlatformState<P, R, G, K, T> {
    id: u128,
    name: String,
    position: P,
    reach: R,
    interceptors: Vec<Interceptor<G>>,
    neighbors: Vec<NeighborPlatform<P, R>>,
    threats: Registry<T>,
    engaged: Registry<()>,
    tracks: TrackTable<K>,
    known_interceptors: Registry<Interceptor<G>>,
}

impl<P: Copy, R: Copy, G: Copy, K: Copy, T: Copy> PlatformState<P, R, G, K, T> {
    pub closed spec fn own_id(&self) -> u128 {
        self.id
    }

    pub closed spec fn own_position(&self) -> P {
        self.position
    }

    pub closed spec fn own_reach(&self) -> R {
        self.reach
    }

    pub closed spec fn name_view(&self) -> Seq<char> {
        self.name@
    }

    /// The platform's interceptors.
    pub closed spec fn fleet(&self) -> Seq<Interceptor<G>> {
        self.interceptors@
    }

    /// Known neighbours.
    pub closed spec fn neighborhood(&self) -> Seq<NeighborPlatform<P, R>> {
        self.neighbors@
    }

    /// Raw detections by threat id.
    pub closed spec fn threat_log(&self) -> Registry<T> {
        self.threats
    }

    /// Threats known to be engaged.
    pub closed spec fn engaged_set(&self) -> Registry<()> {
        self.engaged
    }

    /// Whether threat `id` is known to be engaged.
    pub open spec fn is_engaged(&self, id: u128) -> bool {
        self.engaged_set().lookup(id) is Some
    }

    /// The tracks.
    pub closed spec fn track_view(&self) -> Seq<TrackView<K>> {
        self.tracks.view()
    }

    /// Interceptors heard of on the network, by id.
    pub closed spec fn known(&self) -> Registry<Interceptor<G>> {
        self.known_interceptors
    }

    pub closed spec fn well_formed(&self) -> bool {
        &&& self.threats.well_formed()
        &&& self.engaged.well_formed()
        &&& self.tracks.well_formed()
        &&& self.known_interceptors.well_formed()
    }

    /// A platform that has seen nothing yet.
    pub fn new(platform: PlatformInterceptor<P, R, G>) -> (r: Self)
        ensures
            r.well_formed(),
            r.own_id() == platform.id,
            r.own_position() == platform.position,
            r.own_reach() == platform.reach,
            r.name_view() == platform.name@,
            r.fleet() == platform.interceptors@,
            r.neighborhood() == platform.neighbor_platforms@,
            r.threat_log().view() == Seq::<(u128, T)>::empty(),
            r.engaged_set().view() == Seq::<(u128, ())>::empty(),
            r.track_view() == Seq::<TrackView<K>>::empty(),
            r.known().view() == Seq::<(u128, Interceptor<G>)>::empty(),
    {
        PlatformState {
            id: platform.id,
            name: platform.name,
            position: platform.position,
            reach: platform.reach,
            interceptors: platform.interceptors,
            neighbors: platform.neighbor_platforms,
            threats: Registry::new(),
            engaged: Registry::new(),
            tracks: TrackTable::new(),
            known_interceptors: Registry::new(),
        }
    }

    /// The platform's id.
    pub fn id(&self) -> (r: u128)
        ensures
            r == self.own_id(),
    {
        self.id
    }

    /// The platform's name.
    pub fn name(&self) -> (r: &String)
        ensures
            r@ == self.name_view(),
    {
        &self.name
    }

    /// Where the platform stands.
    pub fn position(&self) -> (r: P)
        ensures
            r == self.own_position(),
    {
        self.position
    }

    /// How far the platform reaches.
    pub fn reach(&self) -> (r: R)
        ensures
            r == self.own_reach(),
    {
        self.reach
    }

    /// The platform's interceptors.
    pub fn interceptors(&self) -> (r: &Vec<Interceptor<G>>)
        ensures
            r@ == self.fleet(),
    {
        &self.interceptors
    }

    /// Known neighbours.
    pub fn neighbors(&self) -> (r: &Vec<NeighborPlatform<P, R>>)
        ensures
            r@ == self.neighborhood(),
    {
        &self.neighbors
    }

    /// Copies of all tracks, in order.
    pub fn tracks(&self) -> (r: Vec<TrackRecord<K>>)
        ensures
            r@.len() == self.track_view().len(),
            forall|i: int| 0 <= i < r@.len() ==> #[trigger] r@[i]@ == self.track_view()[i],
    {
        self.tracks.all()
    }

    /// A copy of the track of threat `id`.
    pub fn track(&self, id: u128) -> (r: Option<TrackRecord<K>>)
        ensures
            r matches Some(t) ==> track_index(self.track_view(), id) matches Some(i) && t@ == self.track_view()[i],
            r is None ==> track_index(self.track_view(), id) is None,
    {
        self.tracks.get(id)
    }

    /// Whether threat `id` is known to be engaged.
    pub fn engaged(&self, id: u128) -> (r: bool)
        ensures
            r == self.is_engaged(id),
    {
        self.engaged.contains(id)
    }

    /// The raw detection of threat `id`, if kept.
    pub fn threat(&self, id: u128) -> (r: Option<T>)
        ensures
            r == self.threat_log().lookup(id),
    {
        self.threats.get(id)
    }

    /// The interceptor `id` as last heard of on the network.
    pub fn known_interceptor(&self, id: u128) -> (r: Option<Interceptor<G>>)
        ensures
            r == self.known().lookup(id),
    {
        self.known_interceptors.get(id)
    }

    /// Number of idle interceptors: what the platform advertises to its neighbours.
    pub fn available_interceptors(&self) -> (r: usize)
        ensures
            r == idle_count(self.fleet(), self.fleet().len() as int),
    {
        let mut c: usize = 0;
        let mut i: usize = 0;
        while i < self.interceptors.len()
            invariant
                i <= self.interceptors.len(),
                c == idle_count(self.fleet(), i as int),
                c <= i,
            decreases self.interceptors.len() - i,
        {
            if let InterceptorState::Idle = self.interceptors[i].state {
                c += 1;
            }
            i += 1;
        }
        c
    }

    /// Whether this platform should engage a threat: it is within reach and no
    /// neighbour with interceptors left is closer (`no_closer[i]` for neighbour `i`).
    pub fn is_best_platform(&self, in_reach: bool, no_closer: &Vec<bool>) -> (r: bool)
        requires
            no_closer@.len() == self.neighborhood().len(),
        ensures
            r == best_platform(in_reach, self.neighborhood(), no_closer@),
    {
        if !in_reach {
            return false;
        }
        let mut i: usize = 0;
        while i < self.neighbors.len()
            invariant
                i <= self.neighbors.len(),
                no_closer@.len() == self.neighbors@.len(),
                forall|x: int|
                    0 <= x < i && #[trigger] self.neighbors@[x].interceptors_remaining > 0 ==> no_closer@[x],
            decreases self.neighbors.len() - i,
        {
            if self.neighbors[i].interceptors_remaining > 0 && !no_closer[i] {
                return false;
            }
            i += 1;
        }
        true
    }

    /// Engages threat `threat_id` with the first idle interceptor, unless it is
    /// already engaged or no interceptor is idle. Returns the interceptor used.
    pub fn engage_threat(&mut self, threat_id: u128) -> (r: Option<u128>)
        requires
            old(self).well_formed(),
        ensures
            final(self).well_formed(),
            r == if old(self).is_engaged(threat_id) {
                None::<u128>
            } else {
                match first_idle(old(self).fleet()) {
                    Some(i) => Some(old(self).fleet()[i].id),
                    None => None,
                }
            },
            forall|k: u128| #[trigger] final(self).is_engaged(k) == (old(self).is_engaged(k) || (k == threat_id && r is Some)),
            final(self).engaged_set().view() == if r is Some {
                old(self).engaged_set().view().push((threat_id, ()))
            } else {
                old(self).engaged_set().view()
            },
            final(self).fleet() == old(self).fleet(),
            final(self).neighborhood() == old(self).neighborhood(),
            final(self).track_view() == old(self).track_view(),
            final(self).threat_log() == old(self).threat_log(),
            final(self).known() == old(self).known(),
            final(self).own_id() == old(self).own_id(),
            final(self).name_view() == old(self).name_view(),
            final(self).own_position() == old(self).own_position(),
            final(self).own_reach() == old(self).own_reach(),
    {
        if self.engaged.contains(threat_id) {
            return None;
        }
        match first_idle_position(&self.interceptors) {
            Some(i) => {
                let iid = self.interceptors[i].id;
                proof {
                    crate::registry::lemma_key_index(self.engaged.view(), threat_id, self.engaged.view().len() as int, self.engaged.view().len() as int);
                }
                self.engaged.insert(threat_id, ());
                Some(iid)
            },
            None => None,
        }
    }

    /// A local sighting: the track of `threat_id` takes the kinematics `kin` and
    /// the sighting's level, or starts. Returns whether the track is new.
    pub fn handle_threat_detected(&mut self, threat_id: u128, threat_level: usize, kin: K) -> (is_new: bool)
        requires
            old(self).well_formed(),
        ensures
            final(self).well_formed(),
            final(self).track_view() == after_sighting(old(self).track_view(), threat_id, threat_level, old(self).own_id(), kin),
            is_new == (track_index(old(self).track_view(), threat_id) is None),
            final(self).fleet() == old(self).fleet(),
            final(self).neighborhood() == old(self).neighborhood(),
            final(self).engaged_set() == old(self).engaged_set(),
            final(self).threat_log() == old(self).threat_log(),
            final(self).known() == old(self).known(),
            final(self).own_id() == old(self).own_id(),
            final(self).name_view() == old(self).name_view(),
            final(self).own_position() == old(self).own_position(),
            final(self).own_reach() == old(self).own_reach(),
    {
        self.tracks.observe(threat_id, threat_level, self.id, kin)
    }

    /// A threat seen by this platform's own sensor: the track is updated or
    /// started, the raw detection kept, and, when the track is new and this
    /// platform is the best placed (`in_reach`, `no_closer` as for
    /// `is_best_platform`), the threat is engaged.
    pub fn detect_threat(
        &mut self,
        threat_id: u128,
        threat_level: usize,
        detection: T,
        kin: K,
        in_reach: bool,
        no_closer: &Vec<bool>,
    ) -> (r: DetectOutcome)
        requires
            old(self).well_formed(),
            no_closer@.len() == old(self).neighborhood().len(),
        ensures
            final(self).well_formed(),
            r.is_new_track == (track_index(old(self).track_view(), threat_id) is None),
            final(self).track_view() == after_sighting(old(self).track_view(), threat_id, threat_level, old(self).own_id(), kin),
            forall|k: u128| #[trigger] final(self).threat_log().lookup(k) == if k == threat_id {
                Some(detection)
            } else {
                old(self).threat_log().lookup(k)
            },
            r.engaged_with == if r.is_new_track && best_platform(in_reach, old(self).neighborhood(), no_closer@)
                && !old(self).is_engaged(threat_id) {
                match first_idle(old(self).fleet()) {
                    Some(i) => Some(old(self).fleet()[i].id),
                    None => None,
                }
            } else {
                None::<u128>
            },
            forall|k: u128| #[trigger] final(self).is_engaged(k) == (old(self).is_engaged(k) || (k == threat_id
                && r.engaged_with is Some)),
            final(self).fleet() == old(self).fleet(),
            final(self).neighborhood() == old(self).neighborhood(),
            final(self).known() == old(self).known(),
            final(self).own_id() == old(self).own_id(),
            final(self).name_view() == old(self).name_view(),
            final(self).own_position() == old(self).own_position(),
            final(self).own_reach() == old(self).own_reach(),
    {
        let is_new = self.handle_threat_detected(threat_id, threat_level, kin);
        self.threats.insert(threat_id, detection);
        let engaged_with = if is_new && self.is_best_platform(in_reach, no_closer) {
            self.engage_threat(threat_id)
        } else {
            None
        };
        DetectOutcome { is_new_track: is_new, engaged_with }
    }

    /// Another platform engaged threat `threat_id`: it is marked engaged, its raw
    /// detection dropped, and its track marked `Engaged`.
    pub fn handle_threat_engaged(&mut self, threat_id: u128, _interceptor_id: u128)
        requires
            old(self).well_formed(),
        ensures
            final(self).well_formed(),
            forall|k: u128| #[trigger] final(self).is_engaged(k) == (old(self).is_engaged(k) || k == threat_id),
            forall|k: u128| #[trigger] final(self).threat_log().lookup(k) == if k == threat_id {
                None
            } else {
                old(self).threat_log().lookup(k)
            },
            final(self).track_view() == match track_index(old(self).track_view(), threat_id) {
                Some(i) => old(self).track_view().update(i, TrackView { status: TrackStatus::Engaged, ..old(self).track_view()[i] }),
                None => old(self).track_view(),
            },
            final(self).fleet() == old(self).fleet(),
            final(self).neighborhood() == old(self).neighborhood(),
            final(self).known() == old(self).known(),
            final(self).own_id() == old(self).own_id(),
            final(self).name_view() == old(self).name_view(),
            final(self).own_position() == old(self).own_position(),
            final(self).own_reach() == old(self).own_reach(),
    {
        self.engaged.insert(threat_id, ());
        self.threats.remove(threat_id);
        let _ = self.tracks.set_status(threat_id, TrackStatus::Engaged, None);
    }

    /// A neighbour's report: ignored when about this platform, otherwise the
    /// neighbour is updated, or added when new.
    pub fn handle_neighbor_update(
        &mut self,
        platform_id: u128,
        position: P,
        reach: R,
        interceptors_remaining: usize,
    ) -> (r: NeighborChange)
        requires
            old(self).well_formed(),
        ensures
            final(self).well_formed(),
            final(self).neighborhood() == if platform_id == old(self).own_id() {
                old(self).neighborhood()
            } else {
                let n = NeighborPlatform { id: platform_id, position, reach, interceptors_remaining };
                match neighbor_index(old(self).neighborhood(), platform_id) {
                    Some(i) => old(self).neighborhood().update(i, n),
                    None => old(self).neighborhood().push(n),
                }
            },
            r == if platform_id == old(self).own_id() {
                NeighborChange::Ignored
            } else if neighbor_index(old(self).neighborhood(), platform_id) is Some {
                NeighborChange::Updated
            } else {
                NeighborChange::Added
            },
            final(self).fleet() == old(self).fleet(),
            final(self).engaged_set() == old(self).engaged_set(),
            final(self).threat_log() == old(self).threat_log(),
            final(self).track_view() == old(self).track_view(),
            final(self).known() == old(self).known(),
            final(self).own_id() == old(self).own_id(),
            final(self).name_view() == old(self).name_view(),
            final(self).own_position() == old(self).own_position(),
            final(self).own_reach() == old(self).own_reach(),
    {
        if platform_id == self.id {
            return NeighborChange::Ignored;
        }
        let n = NeighborPlatform { id: platform_id, position, reach, interceptors_remaining };
        match neighbor_position(&self.neighbors, platform_id) {
            Some(i) => {
                self.neighbors.set(i, n);
                NeighborChange::Updated
            },
            None => {
                self.neighbors.push(n);
                NeighborChange::Added
            },
        }
    }

    /// A track report from the network: the local track (if any) takes its
    /// status and engaging platform; an engaged threat is marked engaged; a
    /// destroyed one is forgotten entirely.
    pub fn handle_track_updated(&mut self, threat_id: u128, status: TrackStatus, engaged_by: Option<u128>)
        requires
            old(self).well_formed(),
        ensures
            final(self).well_formed(),
            ({
                let marked = match track_index(old(self).track_view(), threat_id) {
                    Some(i) => old(self).track_view().update(
                        i,
                        TrackView { status, engaged_by, ..old(self).track_view()[i] },
                    ),
                    None => old(self).track_view(),
                };
                final(self).track_view() == if status == TrackStatus::Destroyed {
                    crate::tracks::without_track(marked, threat_id)
                } else {
                    marked
                }
            }),
            status == TrackStatus::Destroyed ==> track_index(final(self).track_view(), threat_id) is None,
            forall|k: u128| #[trigger] final(self).is_engaged(k) == if k == threat_id {
                match status {
                    TrackStatus::Detected => old(self).is_engaged(k),
                    TrackStatus::Engaged => true,
                    TrackStatus::Destroyed => false,
                }
            } else {
                old(self).is_engaged(k)
            },
            forall|k: u128| #[trigger] final(self).threat_log().lookup(k) == if k == threat_id && status
                == TrackStatus::Destroyed {
                None
            } else {
                old(self).threat_log().lookup(k)
            },
            final(self).fleet() == old(self).fleet(),
            final(self).neighborhood() == old(self).neighborhood(),
            final(self).known() == old(self).known(),
            final(self).own_id() == old(self).own_id(),
            final(self).name_view() == old(self).name_view(),
            final(self).own_position() == old(self).own_position(),
            final(self).own_reach() == old(self).own_reach(),
    {
        let _ = self.tracks.set_status(threat_id, status, Some(engaged_by));
        match status {
            TrackStatus::Detected => {},
            TrackStatus::Engaged => {
                self.engaged.insert(threat_id, ());
            },
            TrackStatus::Destroyed => {
                self.engaged.remove(threat_id);
                self.tracks.remove(threat_id);
                self.threats.remove(threat_id);
            },
        }
    }

    /// An interceptor report: the platform's own interceptor with that id (the
    /// first one) is replaced, and the report is remembered.
    pub fn handle_interceptor_update(&mut self, interceptor: Interceptor<G>)
        requires
            old(self).well_formed(),
        ensures
            final(self).well_formed(),
            final(self).fleet() == match interceptor_index(old(self).fleet(), interceptor.id) {
                Some(i) => old(self).fleet().update(i, interceptor),
                None => old(self).fleet(),
            },
            forall|k: u128| #[trigger] final(self).known().lookup(k) == if k == interceptor.id {
                Some(interceptor)
            } else {
                old(self).known().lookup(k)
            },
            final(self).neighborhood() == old(self).neighborhood(),
            final(self).engaged_set() == old(self).engaged_set(),
            final(self).threat_log() == old(self).threat_log(),
            final(self).track_view() == old(self).track_view(),
            final(self).own_id() == old(self).own_id(),
            final(self).name_view() == old(self).name_view(),
            final(self).own_position() == old(self).own_position(),
            final(self).own_reach() == old(self).own_reach(),
    {
        if let Some(i) = interceptor_position(&self.interceptors, interceptor.id) {
            self.interceptors.set(i, interceptor);
        }
        self.known_interceptors.insert(interceptor.id, interceptor);
    }

    /// Threat `threat_id` was destroyed by `interceptor_id`: the threat is
    /// forgotten, and that interceptor (the first with that id) is idle again.
    pub fn handle_threat_destroyed(&mut self, threat_id: u128, interceptor_id: u128)
        requires
            old(self).well_formed(),
        ensures
            final(self).well_formed(),
            forall|k: u128| #[trigger] final(self).is_engaged(k) == (old(self).is_engaged(k) && k != threat_id),
            final(self).track_view() == crate::tracks::without_track(old(self).track_view(), threat_id),
            track_index(final(self).track_view(), threat_id) is None,
            forall|k: u128| #[trigger] final(self).threat_log().lookup(k) == if k == threat_id {
                None
            } else {
                old(self).threat_log().lookup(k)
            },
            final(self).fleet() == match interceptor_index(old(self).fleet(), interceptor_id) {
                Some(i) => old(self).fleet().update(
                    i,
                    Interceptor { state: InterceptorState::Idle, assigned_track: None, ..old(self).fleet()[i] },
                ),
                None => old(self).fleet(),
            },
            final(self).neighborhood() == old(self).neighborhood(),
            final(self).known() == old(self).known(),
            final(self).own_id() == old(self).own_id(),
            final(self).name_view() == old(self).name_view(),
            final(self).own_position() == old(self).own_position(),
            final(self).own_reach() == old(self).own_reach(),
    {
        self.engaged.remove(threat_id);
        self.tracks.remove(threat_id);
        self.threats.remove(threat_id);
        if let Some(i) = interceptor_position(&self.interceptors, interceptor_id) {
            let mut x = self.interceptors[i];
            x.state = InterceptorState::Idle;
            x.assigned_track = None;
            self.interceptors.set(i, x);
        }
    }

    /// Dispatches a network event to its handler; other events change nothing.
    pub fn handle_message(&mut self, event: PlatformEvent<P, R, G, K>)
        requires
            old(self).well_formed(),
        ensures
            final(self).well_formed(),
            final(self).own_id() == old(self).own_id(),
            final(self).name_view() == old(self).name_view(),
            final(self).own_position() == old(self).own_position(),
            final(self).own_reach() == old(self).own_reach(),
            match event {
                PlatformEvent::ThreatDetected { threat_id, threat_level, kinematics } => {
                    &&& final(self).track_view() == after_sighting(old(self).track_view(), threat_id, threat_level, old(self).own_id(), kinematics)
                    &&& final(self).fleet() == old(self).fleet()
                    &&& final(self).neighborhood() == old(self).neighborhood()
                    &&& final(self).engaged_set() == old(self).engaged_set()
                    &&& final(self).threat_log() == old(self).threat_log()
                    &&& final(self).known() == old(self).known()
                },
                PlatformEvent::ThreatDestroyed { threat_id, interceptor_id } => {
                    &&& forall|k: u128| #[trigger] final(self).is_engaged(k) == (old(self).is_engaged(k) && k != threat_id)
                    &&& final(self).track_view() == crate::tracks::without_track(old(self).track_view(), threat_id)
                    &&& track_index(final(self).track_view(), threat_id) is None
                    &&& forall|k: u128| #[trigger] final(self).threat_log().lookup(k) == if k == threat_id {
                        None
                    } else {
                        old(self).threat_log().lookup(k)
                    }
                    &&& final(self).fleet() == match interceptor_index(old(self).fleet(), interceptor_id) {
                        Some(i) => old(self).fleet().update(
                            i,
                            Interceptor { state: InterceptorState::Idle, assigned_track: None, ..old(self).fleet()[i] },
                        ),
                        None => old(self).fleet(),
                    }
                    &&& final(self).neighborhood() == old(self).neighborhood()
                    &&& final(self).known() == old(self).known()
                },
                PlatformEvent::ThreatEngaged { threat_id, .. } => {
                    &&& forall|k: u128| #[trigger] final(self).is_engaged(k) == (old(self).is_engaged(k) || k == threat_id)
                    &&& forall|k: u128| #[trigger] final(self).threat_log().lookup(k) == if k == threat_id {
                        None
                    } else {
                        old(self).threat_log().lookup(k)
                    }
                    &&& final(self).track_view() == match track_index(old(self).track_view(), threat_id) {
                        Some(i) => old(self).track_view().update(i, TrackView { status: TrackStatus::Engaged, ..old(self).track_view()[i] }),
                        None => old(self).track_view(),
                    }
                    &&& final(self).fleet() == old(self).fleet()
                    &&& final(self).neighborhood() == old(self).neighborhood()
                    &&& final(self).known() == old(self).known()
                },
                PlatformEvent::NeighborUpdate { platform_id, position, reach, interceptors_remaining } => {
                    &&& final(self).neighborhood() == if platform_id == old(self).own_id() {
                        old(self).neighborhood()
                    } else {
                        let n = NeighborPlatform { id: platform_id, position, reach, interceptors_remaining };
                        match neighbor_index(old(self).neighborhood(), platform_id) {
                            Some(i) => old(self).neighborhood().update(i, n),
                            None => old(self).neighborhood().push(n),
                        }
                    }
                    &&& final(self).fleet() == old(self).fleet()
                    &&& final(self).engaged_set() == old(self).engaged_set()
                    &&& final(self).threat_log() == old(self).threat_log()
                    &&& final(self).track_view() == old(self).track_view()
                    &&& final(self).known() == old(self).known()
                },
                PlatformEvent::TrackUpdated { threat_id, status, engaged_by } => {
                    &&& ({
                        let marked = match track_index(old(self).track_view(), threat_id) {
                            Some(i) => old(self).track_view().update(
                                i,
                                TrackView { status, engaged_by, ..old(self).track_view()[i] },
                            ),
                            None => old(self).track_view(),
                        };
                        final(self).track_view() == if status == TrackStatus::Destroyed {
                            crate::tracks::without_track(marked, threat_id)
                        } else {
                            marked
                        }
                    })
                    &&& status == TrackStatus::Destroyed ==> track_index(final(self).track_view(), threat_id) is None
                    &&& forall|k: u128| #[trigger] final(self).is_engaged(k) == if k == threat_id {
                        match status {
                            TrackStatus::Detected => old(self).is_engaged(k),
                            TrackStatus::Engaged => true,
                            TrackStatus::Destroyed => false,
                        }
                    } else {
                        old(self).is_engaged(k)
                    }
                    &&& forall|k: u128| #[trigger] final(self).threat_log().lookup(k) == if k == threat_id && status
                        == TrackStatus::Destroyed {
                        None
                    } else {
                        old(self).threat_log().lookup(k)
                    }
                    &&& final(self).fleet() == old(self).fleet()
                    &&& final(self).neighborhood() == old(self).neighborhood()
                    &&& final(self).known() == old(self).known()
                },
                PlatformEvent::InterceptorUpdate { interceptor } => {
                    &&& final(self).fleet() == match interceptor_index(old(self).fleet(), interceptor.id) {
                        Some(i) => old(self).fleet().update(i, interceptor),
                        None => old(self).fleet(),
                    }
                    &&& forall|k: u128| #[trigger] final(self).known().lookup(k) == if k == interceptor.id {
                        Some(interceptor)
                    } else {
                        old(self).known().lookup(k)
                    }
                    &&& final(self).neighborhood() == old(self).neighborhood()
                    &&& final(self).engaged_set() == old(self).engaged_set()
                    &&& final(self).threat_log() == old(self).threat_log()
                    &&& final(self).track_view() == old(self).track_view()
                },
                PlatformEvent::Other => {
                    &&& final(self).fleet() == old(self).fleet()
                    &&& final(self).neighborhood() == old(self).neighborhood()
                    &&& final(self).engaged_set() == old(self).engaged_set()
                    &&& final(self).threat_log() == old(self).threat_log()
                    &&& final(self).track_view() == old(self).track_view()
                    &&& final(self).known() == old(self).known()
                },
            },
    {
        match event {
            PlatformEvent::ThreatDetected { threat_id, threat_level, kinematics } => {
                let _ = self.handle_threat_detected(threat_id, threat_level, kinematics);
            },
            PlatformEvent::ThreatDestroyed { threat_id, interceptor_id } => {
                self.handle_threat_destroyed(threat_id, interceptor_id);
            },
            PlatformEvent::ThreatEngaged { threat_id, interceptor_id } => {
                self.handle_threat_engaged(threat_id, interceptor_id);
            },
            PlatformEvent::NeighborUpdate { platform_id, position, reach, interceptors_remaining } => {
                let _ = self.handle_neighbor_update(platform_id, position, reach, interceptors_remaining);
            },
            PlatformEvent::TrackUpdated { threat_id, status, engaged_by } => {
                self.handle_track_updated(threat_id, status, engaged_by);
            },
            PlatformEvent::InterceptorUpdate { interceptor } => {
                self.handle_interceptor_update(interceptor);
            },
            PlatformEvent::Other => {},
        }
    }

    /// Replaces the kinematics of the track of `id` (the caller's filter has
    /// advanced it), if there is one.
    pub fn set_track_kinematics(&mut self, id: u128, kin: K)
        requires
            old(self).well_formed(),
        ensures
            final(self).well_formed(),
            final(self).track_view() == match track_index(old(self).track_view(), id) {
                Some(i) => old(self).track_view().update(i, TrackView { kinematics: kin, ..old(self).track_view()[i] }),
                None => old(self).track_view(),
            },
            final(self).fleet() == old(self).fleet(),
            final(self).neighborhood() == old(self).neighborhood(),
            final(self).engaged_set() == old(self).engaged_set(),
            final(self).threat_log() == old(self).threat_log(),
            final(self).known() == old(self).known(),
            final(self).own_id() == old(self).own_id(),
            final(self).name_view() == old(self).name_view(),
            final(self).own_position() == old(self).own_position(),
            final(self).own_reach() == old(self).own_reach(),
    {
        self.tracks.set_kinematics(id, kin);
    }
}

} // verus!
