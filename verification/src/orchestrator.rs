//! The orchestrator's picture of the network: fused tracks, registered
//! platforms and reported interceptors, and its reaction to each event.

use crate::kinds::TrackStatus;
use crate::platform::{Interceptor, NeighborPlatform};
use crate::registry::{key_index, Registry};
use crate::tracks::{after_detection, landing, track_index, without_track, TrackRecord, TrackTable, TrackView};
use vstd::prelude::*;

verus! {

/// One order of the orchestrator's strategy: interceptor `interceptor_id` of
/// platform `platform_id` is to engage the threat of track `track_id`.
#[derive(Clone, Copy, Debug, PartialEq, Eq, Structural)]
pub struct Assignment {
    pub platform_id: u128,
    pub interceptor_id: u128,
    pub track_id: u128,
}

/// An interceptor and the platform it belongs to.
#[derive(Clone, Copy, Debug)]
pub struct InterceptorInfo<G> {
    pub platform_id: u128,
    pub interceptor: Interceptor<G>,
}

/// Platforms among the first `n` registered ones that are in range of a new one.
pub open spec fn in_range_upto<P, R>(platforms: Seq<(u128, NeighborPlatform<P, R>)>, in_range: Seq<bool>, n: int) -> Seq<
    NeighborPlatform<P, R>,
>
    decreases n,
{
    if n <= 0 {
        Seq::empty()
    } else if in_range[n - 1] {
        in_range_upto(platforms, in_range, n - 1).push(platforms[n - 1].1)
    } else {
        in_range_upto(platforms, in_range, n - 1)
    }
}

/// `v` without the tracks whose ids are listed in `ids[0..n)`.
pub open spec fn without_tracks<K>(v: Seq<TrackView<K>>, ids: Seq<u128>, n: int) -> Seq<TrackView<K>>
    decreases n,
{
    if n <= 0 {
        v
    } else {
        without_track(without_tracks(v, ids, n - 1), ids[n - 1])
    }
}

/// The orchestrator's state.
pub struct OrchestratorState<P, R, G, K> {
    tracks: TrackTable<K>,
    interceptors: Registry<InterceptorInfo<G>>,
    platforms: Registry<NeighborPlatform<P, R>>,
}

impl<P: Copy, R: Copy, G: Copy, K: Copy> OrchestratorState<P, R, G, K> {
    pub closed spec fn track_view(&self) -> Seq<TrackView<K>> {
        self.tracks.view()
    }

    pub closed spec fn interceptor_registry(&self) -> Registry<InterceptorInfo<G>> {
        self.interceptors
    }

    pub closed spec fn platform_registry(&self) -> Registry<NeighborPlatform<P, R>> {
        self.platforms
    }

    pub closed spec fn well_formed(&self) -> bool {
        &&& self.tracks.well_formed()
        &&& self.interceptors.well_formed()
        &&& self.platforms.well_formed()
    }

    /// Nothing known yet.
    pub fn new() -> (r: Self)
        ensures
            r.well_formed(),
            r.track_view() == Seq::<TrackView<K>>::empty(),
            r.interceptor_registry().view() == Seq::<(u128, InterceptorInfo<G>)>::empty(),
            r.platform_registry().view() == Seq::<(u128, NeighborPlatform<P, R>)>::empty(),
    {
        OrchestratorState { tracks: TrackTable::new(), interceptors: Registry::new(), platforms: Registry::new() }
    }

    /// Copies of all tracks, in order.
    pub fn tracks(&self) -> (r: Vec<TrackRecord<K>>)
        ensures
            r@.len() == self.track_view().len(),
            forall|i: int| 0 <= i < r@.len() ==> #[trigger] r@[i]@ == self.track_view()[i],
    {
        self.tracks.all()
    }

    /// All reported interceptors, in order of first report.
    pub fn interceptors(&self) -> (r: Vec<InterceptorInfo<G>>)
        ensures
            r@ == self.interceptor_registry().view().map_values(|e: (u128, InterceptorInfo<G>)| e.1),
    {
        self.interceptors.values()
    }

    /// All registered platforms, in order of registration.
    pub fn platforms(&self) -> (r: Vec<NeighborPlatform<P, R>>)
        ensures
            r@ == self.platform_registry().view().map_values(|e: (u128, NeighborPlatform<P, R>)| e.1),
    {
        self.platforms.values()
    }

    /// The platform registered as `id`.
    pub fn platform(&self, id: u128) -> (r: Option<NeighborPlatform<P, R>>)
        ensures
            r == self.platform_registry().lookup(id),
    {
        self.platforms.get(id)
    }

    /// A detection reported by platform `source`: fused into the tracks
    /// (see `TrackTable::update_track`). Returns the resulting track, to be
    /// published.
    pub fn on_threat_detected(
        &mut self,
        threat_id: u128,
        threat_level: usize,
        source: u128,
        joins: &Vec<(u128, K)>,
        fresh: K,
    ) -> (r: TrackRecord<K>)
        requires
            old(self).well_formed(),
        ensures
            final(self).well_formed(),
            final(self).track_view() == after_detection(old(self).track_view(), threat_id, threat_level, source, joins@, fresh),
            r@ == match landing(old(self).track_view(), threat_id, joins@) {
                Some(i) => final(self).track_view()[i],
                None => final(self).track_view().last(),
            },
            final(self).interceptor_registry() == old(self).interceptor_registry(),
            final(self).platform_registry() == old(self).platform_registry(),
    {
        self.tracks.update_track(threat_id, threat_level, source, joins, fresh)
    }

    /// Threat `threat_id` destroyed: its track, if any, is reported as
    /// `Destroyed` (the returned copy, to be published) and then dropped.
    pub fn on_threat_destroyed(&mut self, threat_id: u128) -> (r: Option<TrackRecord<K>>)
        requires
            old(self).well_formed(),
        ensures
            final(self).well_formed(),
            final(self).track_view() == without_track(old(self).track_view(), threat_id),
            track_index(final(self).track_view(), threat_id) is None,
            match track_index(old(self).track_view(), threat_id) {
                Some(i) => r matches Some(t) && t@ == TrackView {
                    status: TrackStatus::Destroyed,
                    ..old(self).track_view()[i]
                },
                None => r is None,
            },
            final(self).interceptor_registry() == old(self).interceptor_registry(),
            final(self).platform_registry() == old(self).platform_registry(),
    {
        let ghost v0 = self.tracks.view();
        let r = self.tracks.set_status(threat_id, TrackStatus::Destroyed, None);
        let ghost v1 = self.tracks.view();
        self.tracks.remove(threat_id);
        proof {
            if let Some(i) = track_index(v0, threat_id) {
                crate::tracks::lemma_track_index(v0, threat_id, v0.len() as int, v0.len() as int);
                assert(v1[i].threat_id == threat_id);
                if let Some(x) = track_index(v1, threat_id) {
                    crate::tracks::lemma_track_index(v1, threat_id, v1.len() as int, v1.len() as int);
                    assert(v1[x].threat_id == v0[x].threat_id);
                    assert(x == i);
                } else {
                    crate::tracks::lemma_track_index(v1, threat_id, v1.len() as int, v1.len() as int);
                }
                assert(v1.remove(i) =~= v0.remove(i));
            }
        }
        r
    }

    /// Threat `threat_id` engaged by platform `platform_id`: its track, if any,
    /// is marked `Engaged` by that platform; the returned copy is to be published.
    pub fn on_threat_engaged(&mut self, threat_id: u128, platform_id: u128) -> (r: Option<TrackRecord<K>>)
        requires
            old(self).well_formed(),
        ensures
            final(self).well_formed(),
            match track_index(old(self).track_view(), threat_id) {
                Some(i) => {
                    let t = TrackView {
                        status: TrackStatus::Engaged,
                        engaged_by: Some(platform_id),
                        ..old(self).track_view()[i]
                    };
                    &&& final(self).track_view() == old(self).track_view().update(i, t)
                    &&& r matches Some(x) && x@ == t
                },
                None => final(self).track_view() == old(self).track_view() && r is None,
            },
            final(self).interceptor_registry() == old(self).interceptor_registry(),
            final(self).platform_registry() == old(self).platform_registry(),
    {
        self.tracks.set_status(threat_id, TrackStatus::Engaged, Some(Some(platform_id)))
    }

    /// A platform's status report: a registered platform takes the new position
    /// and interceptor count; an unknown one is ignored. Returns whether it was known.
    pub fn on_neighbor_update(&mut self, platform_id: u128, position: P, interceptors_remaining: usize) -> (known: bool)
        requires
            old(self).well_formed(),
        ensures
            final(self).well_formed(),
            known == (old(self).platform_registry().lookup(platform_id) is Some),
            final(self).platform_registry().view() == match key_index(old(self).platform_registry().view(), platform_id) {
                Some(i) => old(self).platform_registry().view().update(
                    i,
                    (platform_id, NeighborPlatform { position, interceptors_remaining, ..old(self).platform_registry().view()[i].1 }),
                ),
                None => old(self).platform_registry().view(),
            },
            forall|k: u128| #[trigger] final(self).platform_registry().lookup(k) == if k == platform_id && known {
                Some(NeighborPlatform { position, interceptors_remaining, ..old(self).platform_registry().lookup(k)->0 })
            } else {
                old(self).platform_registry().lookup(k)
            },
            final(self).track_view() == old(self).track_view(),
            final(self).interceptor_registry() == old(self).interceptor_registry(),
    {
        proof {
            let v = self.platforms.view();
            crate::registry::lemma_key_index(v, platform_id, v.len() as int, v.len() as int);
        }
        match self.platforms.get(platform_id) {
            Some(p) => {
                self.platforms.insert(platform_id, NeighborPlatform { position, interceptors_remaining, ..p });
                true
            },
            None => false,
        }
    }

    /// A new platform announces itself at `position`, reaching `reach`. `in_range[i]` tells whether
    /// the `i`-th registered platform is close enough to be its neighbour. The
    /// platform is registered (with no interceptor reported yet) and the
    /// neighbours found are returned, in registration order, for both sides
    /// to be told about each other.
    pub fn on_new_platform(
        &mut self,
        platform_id: u128,
        position: P,
        reach: R,
        in_range: &Vec<bool>,
    ) -> (r: Vec<NeighborPlatform<P, R>>)
        requires
            old(self).well_formed(),
            in_range@.len() == old(self).platform_registry().view().len(),
        ensures
            final(self).well_formed(),
            r@ == in_range_upto(old(self).platform_registry().view(), in_range@, in_range@.len() as int),
            final(self).platform_registry().view() == match key_index(old(self).platform_registry().view(), platform_id) {
                Some(i) => old(self).platform_registry().view().update(
                    i,
                    (platform_id, NeighborPlatform { id: platform_id, position, reach, interceptors_remaining: 0 }),
                ),
                None => old(self).platform_registry().view().push(
                    (platform_id, NeighborPlatform { id: platform_id, position, reach, interceptors_remaining: 0 }),
                ),
            },
            forall|k: u128| #[trigger] final(self).platform_registry().lookup(k) == if k == platform_id {
                Some(NeighborPlatform { id: platform_id, position, reach, interceptors_remaining: 0 })
            } else {
                old(self).platform_registry().lookup(k)
            },
            final(self).track_view() == old(self).track_view(),
            final(self).interceptor_registry() == old(self).interceptor_registry(),
    {
        let mut found: Vec<NeighborPlatform<P, R>> = Vec::new();
        let mut i: usize = 0;
        while i < in_range.len()
            invariant
                i <= in_range.len(),
                in_range@.len() == self.platforms.view().len(),
                found@ == in_range_upto(self.platforms.view(), in_range@, i as int),
            decreases in_range.len() - i,
        {
            if in_range[i] {
                let e = self.platforms.at(i);
                found.push(e.1);
            }
            i += 1;
        }
        self.platforms.insert(platform_id, NeighborPlatform { id: platform_id, position, reach, interceptors_remaining: 0 });
        found
    }

    /// An interceptor's report, filed under its id.
    pub fn on_interceptor_update(&mut self, platform_id: u128, interceptor: Interceptor<G>)
        requires
            old(self).well_formed(),
        ensures
            final(self).well_formed(),
            final(self).interceptor_registry().view() == match key_index(old(self).interceptor_registry().view(), interceptor.id) {
                Some(i) => old(self).interceptor_registry().view().update(i, (interceptor.id, InterceptorInfo { platform_id, interceptor })),
                None => old(self).interceptor_registry().view().push((interceptor.id, InterceptorInfo { platform_id, interceptor })),
            },
            forall|k: u128| #[trigger] final(self).interceptor_registry().lookup(k) == if k == interceptor.id {
                Some(InterceptorInfo { platform_id, interceptor })
            } else {
                old(self).interceptor_registry().lookup(k)
            },
            final(self).track_view() == old(self).track_view(),
            final(self).platform_registry() == old(self).platform_registry(),
    {
        self.interceptors.insert(interceptor.id, InterceptorInfo { platform_id, interceptor });
    }

    /// Drops the tracks of the listed threats (those gone stale).
    pub fn remove_tracks(&mut self, ids: &Vec<u128>)
        requires
            old(self).well_formed(),
        ensures
            final(self).well_formed(),
            final(self).track_view() == without_tracks(old(self).track_view(), ids@, ids@.len() as int),
            forall|k: int| 0 <= k < ids@.len() ==> track_index(final(self).track_view(), #[trigger] ids@[k]) is None,
            final(self).interceptor_registry() == old(self).interceptor_registry(),
            final(self).platform_registry() == old(self).platform_registry(),
    {
        let ghost v0 = self.tracks.view();
        let mut i: usize = 0;
        while i < ids.len()
            invariant
                i <= ids.len(),
                self.tracks.well_formed(),
                self.interceptors == old(self).interceptors,
                self.platforms == old(self).platforms,
                self.tracks.view() == without_tracks(v0, ids@, i as int),
                forall|k: int| 0 <= k < i ==> track_index(self.tracks.view(), #[trigger] ids@[k]) is None,
            decreases ids.len() - i,
        {
            let ghost before = self.tracks.view();
            self.tracks.remove(ids[i]);
            proof {
                assert forall|k: int| 0 <= k < i + 1 implies track_index(self.tracks.view(), #[trigger] ids@[k]) is None by {
                    if k < i {
                        if track_index(self.tracks.view(), ids@[k]) is Some {
                            assert(track_index(before, ids@[k]) is Some);
                        }
                    }
                }
            }
            i += 1;
        }
    }
}

} // verus!
