//! Message subjects on the network.

use crate::ids::{uuid_text, uuid_text_spec};
use vstd::prelude::*;
use vstd::string::StringExecFns;

verus! {

/// A platform announcing itself.
pub const NEW_PLATFORM: &'static str = "vanguard.platform.new";

/// Ground-truth threats from the world simulation.
pub const WORLD_THREAT_DETECTED: &'static str = "world.threat.detected";

/// A threat destroyed.
pub const THREAT_DESTROYED: &'static str = "vanguard.threat.destroyed";

/// A platform's detection.
pub const THREAT_DETECTED: &'static str = "vanguard.threat.detected";

/// A platform engaging a threat.
pub const THREAT_ENGAGED: &'static str = "vanguard.threat.engaged";

/// A platform's status for its neighbours.
pub const NEIGHBOR_UPDATE: &'static str = "vanguard.neighbor.update";

/// The orchestrator's assignments.
pub const STRATEGY_UPDATE: &'static str = "vanguard.strategy.update";

/// A fused or updated track.
pub const TRACK_UPDATED: &'static str = "vanguard.track.updated";

/// An interceptor's status.
pub const INTERCEPTOR_UPDATE: &'static str = "vanguard.interceptor.update";

/// An interceptor given a target.
pub const INTERCEPTOR_TARGET_ASSIGNED: &'static str = "vanguard.interceptor.target.assigned";

/// The subject on which platform `platform_id` hears about its neighbours:
/// `platform.<uuid>.neighbor`.
pub fn neighbor_subject(platform_id: u128) -> (s: String)
    ensures
        s@ == "platform."@ + uuid_text_spec(platform_id) + ".neighbor"@,
{
    let mut s = String::from_str("platform.");
    let id = uuid_text(platform_id);
    s.append(id.as_str());
    s.append(".neighbor");
    s
}

} // verus!
