use surveillance::binary64::Binary64;
use surveillance::geometry::Rect;
use surveillance::service::{ExaminedFace, FaceDetectionResult, FaceService};

fn service(enabled: bool, every: i32, max_faces: i32, consecutive: i32) -> FaceService {
    FaceService::new(
        enabled,
        "/home/pi/known_faces".to_string(),
        "/opt/cascade.xml".to_string(),
        every,
        Binary64 { bits: 0.6f64.to_bits() },
        max_faces,
        consecutive,
    )
}

fn ready(every: i32) -> FaceService {
    let mut s = service(true, every, 8, 1);
    assert!(s.begin_load().is_some());
    s.finish_load(3);
    s
}

fn examined(x: i32, name: Option<&str>) -> ExaminedFace {
    ExaminedFace {
        rect: Rect { x, y: 50, width: 100, height: 100 },
        identity: name.map(|n| (n.to_string(), Binary64 { bits: 0.75f64.to_bits() })),
    }
}

#[test]
fn a_new_service_has_loaded_nothing() {
    let s = service(true, 0, 8, -5);
    assert!(s.init());
    let status = s.get_status();
    assert_eq!(status.message, "not initialized");
    assert_eq!(status.backend, "opencv-haar-template");
    assert_eq!(status.detect_every_n_frames, 1);
    assert_eq!(s.min_consecutive_frames, 1);
    assert!(!status.available && !status.initializing && status.enabled);
    assert!(status.result.faces.is_empty());
    let off = service(false, 2, 8, 1);
    assert!(!off.init());
    assert_eq!(off.get_status().message, "disabled");
    assert_eq!(off.get_status().detect_every_n_frames, 2);
}

#[test]
fn the_queue_is_bounded_and_keeps_the_order() {
    let mut s = ready(1);
    for n in 1..=4u64 {
        assert!(s.process_frame(vec![n as u8], n));
    }
    assert!(!s.process_frame(vec![5], 5));
    for n in 1..=4u64 {
        let job = s.next_job().unwrap();
        assert_eq!((job.jpeg, job.frame_seq), (vec![n as u8], n));
    }
    assert!(s.next_job().is_none());
    assert!(s.process_frame(vec![6], 6));
}

#[test]
fn one_frame_is_examined_at_a_time() {
    let mut s = ready(1);
    assert!(s.admit_frame());
    assert!(!s.admit_frame());
    assert_eq!(s.frame_counter, 1);
    s.release();
    assert!(s.admit_frame());
    assert_eq!(s.frame_counter, 2);
}

#[test]
fn every_third_frame_is_examined() {
    let mut s = ready(3);
    let admitted: Vec<bool> = (0..9)
        .map(|_| {
            let a = s.admit_frame();
            s.release();
            a
        })
        .collect();
    assert_eq!(admitted, [false, false, true, false, false, true, false, false, true]);
}

#[test]
fn frames_are_not_examined_unless_ready() {
    let mut s = service(true, 1, 8, 1);
    assert!(!s.admit_frame());
    s.begin_load();
    assert!(!s.admit_frame());
    s.finish_load(0);
    assert!(s.admit_frame());
    s.release();
    s.set_enabled(false);
    assert!(!s.admit_frame());
    assert_eq!(s.frame_counter, 1);
}

#[test]
fn models_are_loaded_once_at_a_time() {
    let mut s = service(true, 1, 8, 1);
    assert!(s.reload_known_faces());
    let paths = s.begin_load();
    assert_eq!(paths, Some(("/home/pi/known_faces".to_string(), "/opt/cascade.xml".to_string())));
    assert_eq!(s.get_status().message, "loading OpenCV classifier");
    assert!(s.begin_load().is_none());
    s.finish_load(2);
    assert_eq!(s.get_status().message, "ready (2 known face sample(s))");
    assert_eq!(s.get_status().known_faces_count, 2);
    assert!(s.begin_load().is_some());
    s.finish_init_error("no such file");
    assert_eq!(s.get_status().message, "initialization failed: no such file");
    assert!(!s.available && !s.initializing);
}

#[test]
fn enabling_asks_for_the_models_when_needed() {
    let mut s = service(false, 1, 8, 1);
    assert!(s.set_enabled(true));
    assert_eq!(s.get_status().message, "initializing");
    assert!(!s.set_enabled(true));
    s.begin_load();
    assert!(!s.set_enabled(false));
    assert!(!s.set_enabled(true));
    assert_eq!(s.get_status().message, "disabled");
    s.set_enabled(false);
    s.finish_load(5);
    assert_eq!(s.get_status().message, "disabled");
    assert!(!s.set_enabled(true));
    assert_eq!(s.get_status().message, "ready (5 known face sample(s))");
}

#[test]
fn disabling_wipes_the_result() {
    let mut s = ready(1);
    s.complete_detection(vec![examined(100, Some("ann"))], 640, 360, 7, 1000);
    assert_eq!(s.get_status().result.faces.len(), 1);
    s.set_enabled(false);
    let status = s.get_status();
    assert!(status.result.faces.is_empty());
    assert_eq!(status.result.image_width, 0);
    assert_eq!(status.message, "disabled");
}

#[test]
fn plausible_rectangles_are_examined_up_to_the_limit() {
    let r = |x: i32, width: i32| Rect { x, y: 50, width, height: 100 };
    let detected = vec![r(100, 100), r(200, 10), r(300, 100), r(400, 100)];
    let limited = service(true, 1, 3, 1);
    assert_eq!(limited.faces_to_examine(&detected, 640, 360), vec![r(100, 100), r(300, 100)]);
    let unlimited = service(true, 1, 0, 1);
    assert_eq!(
        unlimited.faces_to_examine(&detected, 640, 360),
        vec![r(100, 100), r(300, 100), r(400, 100)],
    );
}

#[test]
fn a_detection_is_reported() {
    let mut s = ready(1);
    assert!(s.admit_frame());
    let status = s.complete_detection(
        vec![examined(100, Some("ann")), examined(300, None), examined(500, Some("bob"))],
        640,
        360,
        42,
        123456,
    );
    s.release();
    assert_eq!(status.result.updated_at, 123456);
    assert_eq!(status.result.frame_index, 1);
    assert_eq!(status.result.broadcast_frame_seq, 42);
    assert_eq!((status.result.image_width, status.result.image_height), (640, 360));
    let faces = &status.result.faces;
    assert_eq!(faces.len(), 2);
    assert_eq!(faces[0].name, "ann");
    assert_eq!((faces[0].left, faces[0].top, faces[0].right, faces[0].bottom), (100, 50, 200, 150));
    assert_eq!(faces[1].name, "bob");
    assert_eq!((faces[1].left, faces[1].right), (500, 600));
    assert_eq!(f64::from_bits(faces[0].confidence.bits), 0.75);
}

#[test]
fn loading_forgets_the_tracks() {
    let mut s = ready(1);
    s.complete_detection(vec![examined(100, Some("ann"))], 640, 360, 1, 1);
    assert_eq!(s.tracks.len(), 1);
    s.begin_load();
    assert_eq!(s.tracks.len(), 1);
    s.finish_load(1);
    assert!(s.tracks.is_empty());
    assert_eq!(s.get_status().result.faces.len(), 1);
    s.shutdown();
    assert_eq!(s.get_status().result.faces.len(), 1);
}

#[test]
fn the_result_before_any_detection_is_empty() {
    let r = FaceDetectionResult::default().clone();
    assert_eq!((r.updated_at, r.frame_index, r.broadcast_frame_seq), (0, 0, 0));
    assert!(r.faces.is_empty());
}

#[test]
fn detections_in_large_images_are_taken_where_nothing_overflows() {
    let face = |x: i32, side: i32| ExaminedFace {
        rect: Rect { x, y: 1000, width: side, height: side },
        identity: Some(("ann".to_string(), Binary64 { bits: 0 })),
    };
    let mut s = ready(1);
    let first = vec![face(1000, 30000)];
    assert!(s.is_detection_in_range(&first, 60000, 60000));
    s.complete_detection(first, 60000, 60000, 1, 1);
    assert!(s.is_detection_in_range(&vec![face(2000, 30000)], 60000, 60000));
    assert!(!s.is_detection_in_range(&vec![face(2000, 40000)], 60000, 60000));
    s.tracks[0].streak = i32::MAX;
    assert!(s.is_detection_in_range(&vec![face(40000, 10000)], 60000, 60000));
    assert!(!s.is_detection_in_range(&vec![face(2000, 30000)], 60000, 60000));
}
