//! What a sensor believes a contact to be, and the life cycle of a track.

use vstd::prelude::*;

verus! {

/// Classification of a detected contact.
#[derive(Clone, Copy, Debug, PartialEq, Eq, Structural)]
pub enum ThreatClassification {
    Unknown,
    Drone,
    FPVDrone,
    Helicopter,
    Aircraft,
    CruiseMissile,
    BallisticMissile,
    Friendly,
    Civilian,
    Decoy,
}

/// Where a track stands: seen, being engaged, or gone.
#[derive(Clone, Copy, Debug, PartialEq, Eq, Structural)]
pub enum TrackStatus {
    Detected,
    Engaged,
    Destroyed,
}

/// What a radar concludes about a contact. A contact can only be told apart
/// (decoy, cruise missile or drone) inside the classification range, and then
/// with high confidence; farther out it stays `Unknown` with low confidence.
///
/// Returns the class and whether the confidence is the high one.
pub fn classify(within_classification_range: bool, is_decoy: bool, at_missile_speed: bool) -> (r: (
    ThreatClassification,
    bool,
))
    ensures
        r.1 == within_classification_range,
        !within_classification_range ==> r.0 == ThreatClassification::Unknown,
        within_classification_range && is_decoy ==> r.0 == ThreatClassification::Decoy,
        within_classification_range && !is_decoy && at_missile_speed ==> r.0
            == ThreatClassification::CruiseMissile,
        within_classification_range && !is_decoy && !at_missile_speed ==> r.0
            == ThreatClassification::Drone,
{
    if within_classification_range {
        let class = if is_decoy {
            ThreatClassification::Decoy
        } else if at_missile_speed {
            ThreatClassification::CruiseMissile
        } else {
            ThreatClassification::Drone
        };
        (class, true)
    } else {
        (ThreatClassification::Unknown, false)
    }
}

} // verus!
