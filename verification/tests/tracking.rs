use surveillance::binary64::Binary64;
use surveillance::geometry::Rect;
use surveillance::tracking::{
    is_update_in_range, update_tracks, CandidateFace, DetectedFace, FaceTrack,
};

fn candidate(name: &str, x: i32) -> CandidateFace {
    let rect = Rect { x, y: 50, width: 100, height: 100 };
    CandidateFace {
        face: DetectedFace {
            name: name.to_string(),
            confidence: Binary64 { bits: 0.5f64.to_bits() },
            left: x,
            top: 50,
            right: x + 100,
            bottom: 150,
        },
        rect,
    }
}

fn names(faces: &[DetectedFace]) -> Vec<&str> {
    faces.iter().map(|f| f.name.as_str()).collect()
}

#[test]
fn a_face_is_reported_at_once_when_one_detection_is_enough() {
    let mut tracks: Vec<FaceTrack> = Vec::new();
    let faces = update_tracks(&mut tracks, vec![candidate("ann", 100), candidate("bob", 400)], 1);
    assert_eq!(names(&faces), ["ann", "bob"]);
    assert_eq!(tracks.len(), 2);
    assert_eq!((tracks[0].streak, tracks[0].missed_count), (1, 0));
}

#[test]
fn a_face_is_reported_when_it_was_seen_often_enough() {
    let mut tracks: Vec<FaceTrack> = Vec::new();
    assert!(update_tracks(&mut tracks, vec![candidate("ann", 100)], 3).is_empty());
    assert!(update_tracks(&mut tracks, vec![candidate("ann", 110)], 3).is_empty());
    assert_eq!(names(&update_tracks(&mut tracks, vec![candidate("eve", 120)], 3)), ["eve"]);
    assert_eq!(tracks.len(), 1);
    assert_eq!(tracks[0].streak, 3);
    assert_eq!(tracks[0].rect.x, 120);
}

#[test]
fn a_track_is_lost_after_three_misses() {
    let mut tracks: Vec<FaceTrack> = Vec::new();
    update_tracks(&mut tracks, vec![candidate("ann", 100)], 1);
    for missed in 1..=2 {
        assert!(update_tracks(&mut tracks, vec![], 1).is_empty());
        assert_eq!(tracks[0].missed_count, missed);
    }
    assert!(update_tracks(&mut tracks, vec![], 1).is_empty());
    assert!(tracks.is_empty());
}

#[test]
fn a_face_that_comes_back_keeps_its_track() {
    let mut tracks: Vec<FaceTrack> = Vec::new();
    update_tracks(&mut tracks, vec![candidate("ann", 100)], 1);
    update_tracks(&mut tracks, vec![], 1);
    update_tracks(&mut tracks, vec![candidate("ann", 105)], 1);
    assert_eq!(tracks.len(), 1);
    assert_eq!((tracks[0].streak, tracks[0].missed_count), (2, 0));
}

#[test]
fn a_detection_goes_to_the_track_that_it_overlaps_most() {
    let mut tracks: Vec<FaceTrack> = Vec::new();
    update_tracks(&mut tracks, vec![candidate("left", 100), candidate("right", 180)], 1);
    let faces = update_tracks(&mut tracks, vec![candidate("new", 170)], 1);
    assert_eq!(names(&faces), ["new"]);
    assert_eq!(tracks[0].face.name, "left");
    assert_eq!(tracks[0].missed_count, 1);
    assert_eq!(tracks[1].face.name, "new");
    assert_eq!(tracks[1].streak, 2);
}

#[test]
fn of_equal_overlaps_the_first_track_is_taken_and_each_track_once() {
    let mut tracks: Vec<FaceTrack> = Vec::new();
    update_tracks(&mut tracks, vec![candidate("a", 100), candidate("b", 300)], 1);
    update_tracks(&mut tracks, vec![candidate("c", 100), candidate("d", 100)], 1);
    assert_eq!(tracks.len(), 3);
    assert_eq!(tracks[0].face.name, "c");
    assert_eq!(tracks[2].face.name, "d");
    assert_eq!(tracks[2].streak, 1);
}

#[test]
fn a_small_overlap_begins_a_new_track() {
    let mut tracks: Vec<FaceTrack> = Vec::new();
    update_tracks(&mut tracks, vec![candidate("a", 100)], 1);
    update_tracks(&mut tracks, vec![candidate("b", 182)], 1);
    assert_eq!(tracks.len(), 2);
    let mut tracks: Vec<FaceTrack> = Vec::new();
    update_tracks(&mut tracks, vec![candidate("a", 100)], 1);
    update_tracks(&mut tracks, vec![candidate("b", 181)], 1);
    assert_eq!(tracks.len(), 1);
}

#[test]
fn every_detection_has_a_track_of_its_own() {
    let mut tracks: Vec<FaceTrack> = Vec::new();
    update_tracks(&mut tracks, vec![candidate("a", 100), candidate("b", 300), candidate("c", 500)], 1);
    let detected = [("x", 505), ("y", 110), ("z", 112), ("w", 900)];
    let faces =
        update_tracks(&mut tracks, detected.iter().map(|d| candidate(d.0, d.1)).collect(), 2);
    let seen: Vec<(&str, i32)> = tracks
        .iter()
        .filter(|t| t.missed_count == 0)
        .map(|t| (t.face.name.as_str(), t.rect.x))
        .collect();
    assert_eq!(seen, [("y", 110), ("x", 505), ("z", 112), ("w", 900)]);
    assert_eq!(names(&faces), ["y", "x"]);
    assert_eq!(tracks.len(), 5);
    assert_eq!((tracks[1].face.name.as_str(), tracks[1].missed_count), ("b", 1));
}

#[test]
fn nothing_is_reported_where_nothing_is_detected() {
    for min_consecutive in [-1, 0, 1, 2] {
        let mut tracks: Vec<FaceTrack> = Vec::new();
        update_tracks(&mut tracks, vec![candidate("a", 100)], 1);
        tracks[0].streak = -5;
        tracks[0].missed_count = 7;
        assert!(update_tracks(&mut tracks, vec![], min_consecutive).is_empty());
        assert!(tracks.is_empty());
    }
}

#[test]
fn updates_that_overflow_are_told() {
    let mut tracks: Vec<FaceTrack> = Vec::new();
    update_tracks(&mut tracks, vec![candidate("a", 100), candidate("b", 400)], 1);
    tracks[0].streak = i32::MAX;
    assert!(is_update_in_range(&tracks, &vec![]));
    assert!(is_update_in_range(&tracks, &vec![candidate("c", 400)]));
    assert!(!is_update_in_range(&tracks, &vec![candidate("c", 400), candidate("d", 100)]));
    tracks[0].streak = 1;
    assert!(is_update_in_range(&tracks, &vec![candidate("c", 400), candidate("d", 100)]));
    let mut far = candidate("far", 100);
    far.rect = Rect { x: 100, y: 50, width: i32::MAX, height: 100 };
    assert!(!is_update_in_range(&tracks, &vec![far.clone()]));
    tracks.clear();
    assert!(is_update_in_range(&tracks, &vec![far.clone(), far]));
    update_tracks(&mut tracks, vec![candidate("a", 100)], 1);
    tracks[0].missed_count = i32::MAX;
    assert!(!is_update_in_range(&tracks, &vec![]));
}

#[test]
fn a_track_with_a_detection_is_not_compared_again() {
    let large = |name: &str, x: i32| {
        let mut c = candidate(name, x);
        c.rect = Rect { x, y: 0, width: 40000, height: 40000 };
        c
    };
    let mut tracks: Vec<FaceTrack> = Vec::new();
    update_tracks(&mut tracks, vec![candidate("a", 100)], 1);
    let detected = vec![candidate("b", 100), large("c", 0), large("d", 0)];
    assert!(is_update_in_range(&tracks, &detected));
    update_tracks(&mut tracks, detected, 1);
    assert_eq!(tracks.len(), 3);
    assert!(!is_update_in_range(&tracks, &vec![large("e", 0)]));
}
