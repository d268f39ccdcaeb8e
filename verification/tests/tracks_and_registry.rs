use vanguard::kinds::TrackStatus;
use vanguard::registry::Registry;
use vanguard::tracks::TrackTable;

#[test]
fn first_detection_starts_a_track() {
    let mut t: TrackTable<u32> = TrackTable::new();
    let r = t.update_track(10, 3, 100, &vec![], 7);
    assert_eq!(r.threat_id, 10);
    assert_eq!(r.kinematics, 7);
    assert_eq!(r.threat_level, 3);
    assert_eq!(r.source_platforms, vec![100]);
    assert_eq!(r.status, TrackStatus::Detected);
    assert_eq!(r.engaged_by, None);
    assert_eq!(t.len(), 1);
}

#[test]
fn redetection_merges_into_its_own_track() {
    let mut t: TrackTable<u32> = TrackTable::new();
    t.update_track(10, 3, 100, &vec![], 7);
    let r = t.update_track(10, 1, 200, &vec![(10, 8)], 9);
    assert_eq!(r.kinematics, 8);
    assert_eq!(r.threat_level, 3);
    assert_eq!(r.source_platforms, vec![100, 200]);
    let r = t.update_track(10, 5, 100, &vec![(10, 6)], 9);
    assert_eq!(r.threat_level, 5);
    assert_eq!(r.source_platforms, vec![100, 200]);
    assert_eq!(t.len(), 1);
}

#[test]
fn redetection_without_new_kinematics_keeps_them() {
    let mut t: TrackTable<u32> = TrackTable::new();
    t.update_track(10, 3, 100, &vec![], 7);
    let r = t.update_track(10, 3, 100, &vec![], 9);
    assert_eq!(r.kinematics, 7);
}

#[test]
fn a_nearby_detection_joins_the_first_close_track() {
    let mut t: TrackTable<u32> = TrackTable::new();
    t.update_track(10, 1, 100, &vec![], 1);
    t.update_track(11, 1, 100, &vec![], 2);
    // A new id, close to tracks 11 and 10: it joins the first in table order (10).
    let r = t.update_track(12, 4, 200, &vec![(11, 22), (10, 11)], 3);
    assert_eq!(r.threat_id, 10);
    assert_eq!(r.kinematics, 11);
    assert_eq!(r.threat_level, 4);
    assert_eq!(t.len(), 2);
    assert!(t.get(12).is_none());
}

#[test]
fn sightings_set_level_and_report_new_tracks() {
    let mut t: TrackTable<u32> = TrackTable::new();
    assert!(t.observe(10, 5, 100, 1));
    assert!(!t.observe(10, 2, 200, 4));
    let r = t.get(10).unwrap();
    assert_eq!(r.threat_level, 2);
    assert_eq!(r.kinematics, 4);
    assert_eq!(r.source_platforms, vec![100]);
}

#[test]
fn status_and_removal() {
    let mut t: TrackTable<u32> = TrackTable::new();
    t.observe(10, 5, 100, 1);
    let r = t.set_status(10, TrackStatus::Engaged, Some(Some(200))).unwrap();
    assert_eq!(r.status, TrackStatus::Engaged);
    assert_eq!(r.engaged_by, Some(200));
    let r = t.set_status(10, TrackStatus::Detected, None).unwrap();
    assert_eq!(r.engaged_by, Some(200));
    assert!(t.set_status(11, TrackStatus::Engaged, None).is_none());
    t.set_kinematics(10, 9);
    assert_eq!(t.get(10).unwrap().kinematics, 9);
    t.remove(10);
    assert!(t.get(10).is_none());
    assert_eq!(t.len(), 0);
}

#[test]
fn registry_insert_replace_remove() {
    let mut r: Registry<u32> = Registry::new();
    r.insert(5, 1);
    r.insert(6, 2);
    r.insert(5, 3);
    assert_eq!(r.len(), 2);
    assert_eq!(r.get(5), Some(3));
    assert_eq!(r.values(), vec![3, 2]);
    r.remove(5);
    assert_eq!(r.get(5), None);
    assert!(r.contains(6));
    r.insert(7, 4);
    r.retain(&vec![7]);
    assert_eq!(r.values(), vec![4]);
    assert_eq!(r.at(0), (7, 4));
}
