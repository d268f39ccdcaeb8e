use vanguard::kinds::{classify, ThreatClassification, TrackStatus};
use vanguard::subjects::{neighbor_subject, NEW_PLATFORM, THREAT_DESTROYED, WORLD_THREAT_DETECTED};

#[test]
fn classify_far_contact_is_unknown() {
    assert_eq!(classify(false, true, true), (ThreatClassification::Unknown, false));
    assert_eq!(classify(false, false, false), (ThreatClassification::Unknown, false));
}

#[test]
fn classify_close_contacts() {
    assert_eq!(classify(true, true, true), (ThreatClassification::Decoy, true));
    assert_eq!(classify(true, false, true), (ThreatClassification::CruiseMissile, true));
    assert_eq!(classify(true, false, false), (ThreatClassification::Drone, true));
}

#[test]
fn track_status_equality() {
    assert_eq!(TrackStatus::Engaged, TrackStatus::Engaged);
    assert_ne!(TrackStatus::Detected, TrackStatus::Destroyed);
}

#[test]
fn uuid_text_is_hyphenated_lower_hex() {
    assert_eq!(neighbor_subject(0), "platform.00000000-0000-0000-0000-000000000000.neighbor");
    assert_eq!(
        neighbor_subject(0x0123456789abcdef0fedcba987654321),
        "platform.01234567-89ab-cdef-0fed-cba987654321.neighbor"
    );
}

#[test]
fn neighbor_subject_names_the_platform() {
    assert_eq!(
        neighbor_subject(0xa1a2a3a4b1b2c1c2d1d2d3d4d5d6d7d8),
        "platform.a1a2a3a4-b1b2-c1c2-d1d2-d3d4d5d6d7d8.neighbor"
    );
}

#[test]
fn subjects_are_fixed() {
    assert_eq!(NEW_PLATFORM, "vanguard.platform.new");
    assert_eq!(WORLD_THREAT_DETECTED, "world.threat.detected");
    assert_eq!(THREAT_DESTROYED, "vanguard.threat.destroyed");
}
