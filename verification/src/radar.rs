//! What a radar remembers between sweeps: the last sighting of each threat
//! still present, from which the caller estimates velocities.

use crate::registry::Registry;
use vstd::prelude::*;

verus! {

/// One threat as a sweep meets it: its id, whether it is within the radar's
/// reach, and what the radar records of it (position and time, for the caller).
#[derive(Clone, Copy, Debug)]
pub struct Sighting<S> {
    pub id: u128,
    pub in_reach: bool,
    pub seen: S,
}

/// A threat the radar reports: its id and its previous sighting, if any.
#[derive(Clone, Copy, Debug)]
pub struct Contact<S> {
    pub id: u128,
    pub previous: Option<S>,
}

/// Index of the last sighting of `id` within reach among the first `n`.
pub open spec fn latest_in_reach<S>(sweep: Seq<Sighting<S>>, id: u128, n: int) -> Option<int>
    decreases n,
{
    if n <= 0 {
        None
    } else if sweep[n - 1].id == id && sweep[n - 1].in_reach {
        Some(n - 1)
    } else {
        latest_in_reach(sweep, id, n - 1)
    }
}

/// What the radar knows of `id` once the first `n` sightings of a sweep are
/// taken in: the latest of them within reach, else what it knew before.
pub open spec fn remembered<S: Copy>(log: Registry<S>, sweep: Seq<Sighting<S>>, id: u128, n: int) -> Option<S> {
    match latest_in_reach(sweep, id, n) {
        Some(j) => Some(sweep[j].seen),
        None => log.lookup(id),
    }
}

/// The contacts reported for the first `n` sightings: one per sighting within
/// reach, in order, each with what the radar knew of it just before.
pub open spec fn contacts<S: Copy>(log: Registry<S>, sweep: Seq<Sighting<S>>, n: int) -> Seq<Contact<S>>
    decreases n,
{
    if n <= 0 {
        Seq::empty()
    } else if sweep[n - 1].in_reach {
        contacts(log, sweep, n - 1).push(
            Contact { id: sweep[n - 1].id, previous: remembered(log, sweep, sweep[n - 1].id, n - 1) },
        )
    } else {
        contacts(log, sweep, n - 1)
    }
}

/// Ids of all threats of a sweep, in reach or not.
pub open spec fn sweep_ids<S>(sweep: Seq<Sighting<S>>) -> Seq<u128> {
    sweep.map_values(|s: Sighting<S>| s.id)
}

/// Last sighting of each threat, in order of first sighting.
pub struct SightingLog<S> {
    seen: Registry<S>,
}

impl<S: Copy> SightingLog<S> {
    pub closed spec fn registry(&self) -> Registry<S> {
        self.seen
    }

    pub closed spec fn well_formed(&self) -> bool {
        self.seen.well_formed()
    }

    /// Nothing seen yet.
    pub fn new() -> (r: Self)
        ensures
            r.well_formed(),
            forall|id: u128| #[trigger] r.registry().lookup(id) is None,
    {
        SightingLog { seen: Registry::new() }
    }

    /// The last sighting of `id`.
    pub fn last_seen(&self, id: u128) -> (r: Option<S>)
        ensures
            r == self.registry().lookup(id),
    {
        self.seen.get(id)
    }

    /// Takes in one sweep: every threat within reach is reported with its
    /// previous sighting and its new one is remembered; threats absent from
    /// the sweep are forgotten, so the log does not grow without bound.
    pub fn sweep(&mut self, sweep: &Vec<Sighting<S>>) -> (r: Vec<Contact<S>>)
        requires
            old(self).well_formed(),
        ensures
            final(self).well_formed(),
            r@ == contacts(old(self).registry(), sweep@, sweep@.len() as int),
            forall|id: u128| #[trigger] final(self).registry().lookup(id) == if sweep_ids(sweep@).contains(id) {
                remembered(old(self).registry(), sweep@, id, sweep@.len() as int)
            } else {
                None
            },
    {
        let ghost log = self.seen;
        let mut r: Vec<Contact<S>> = Vec::new();
        let mut alive: Vec<u128> = Vec::new();
        let mut i: usize = 0;
        while i < sweep.len()
            invariant
                i <= sweep.len(),
                self.seen.well_formed(),
                forall|id: u128| #[trigger] self.seen.lookup(id) == remembered(log, sweep@, id, i as int),
                r@ == contacts(log, sweep@, i as int),
                alive@ == sweep_ids(sweep@).take(i as int),
            decreases sweep.len() - i,
        {
            let s = sweep[i];
            alive.push(s.id);
            if s.in_reach {
                let previous = self.seen.get(s.id);
                r.push(Contact { id: s.id, previous });
                self.seen.insert(s.id, s.seen);
            }
            i += 1;
            assert(alive@ =~= sweep_ids(sweep@).take(i as int));
        }
        assert(alive@ =~= sweep_ids(sweep@));
        self.seen.retain(&alive);
        r
    }
}

} // verus!
