//! An interceptor agent's own picture of the situation.

use crate::platform::Interceptor;
use crate::tracks::{TrackTable, TrackView};
use vstd::prelude::*;

verus! {

/// What an interceptor agent keeps: itself, the platform it belongs to, the
/// threat it is after, and the tracks it follows.
pub struct InterceptorRuntimeState<G, K> {
    pub interceptor: Interceptor<G>,
    pub platform_id: u128,
    pub target_id: Option<u128>,
    pub tracks: TrackTable<K>,
}

impl<G: Copy, K: Copy> InterceptorRuntimeState<G, K> {
    /// A freshly started agent of platform `platform_id` (the nil id 0 when
    /// it is attached to none yet), with no target and no track.
    pub fn new(interceptor: Interceptor<G>, platform_id: u128) -> (r: Self)
        ensures
            r.interceptor == interceptor,
            r.platform_id == platform_id,
            r.target_id is None,
            r.tracks.well_formed(),
            r.tracks@ == Seq::<TrackView<K>>::empty(),
    {
        InterceptorRuntimeState { interceptor, platform_id, target_id: None, tracks: TrackTable::new() }
    }
}

} // verus!
