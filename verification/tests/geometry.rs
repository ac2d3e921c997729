use surveillance::geometry::{
    detection_sizes, intersect, is_plausible_face_rect, rect_iou, Rect,
};

fn rect(x: i32, y: i32, width: i32, height: i32) -> Rect {
    Rect { x, y, width, height }
}

#[test]
fn rectangles_share_what_both_cover() {
    assert_eq!(intersect(&rect(0, 0, 10, 10), &rect(5, 6, 10, 10)), rect(5, 6, 5, 4));
    assert_eq!(intersect(&rect(0, 0, 10, 10), &rect(10, 0, 5, 5)), rect(0, 0, 0, 0));
    assert_eq!(intersect(&rect(-5, -5, 10, 10), &rect(0, 0, 3, 3)), rect(0, 0, 3, 3));
}

#[test]
fn overlap_is_the_shared_part_of_the_joint_area() {
    let iou = |a: &Rect, b: &Rect| f64::from_bits(rect_iou(a, b).bits);
    let a = rect(10, 10, 100, 100);
    let b = rect(60, 10, 100, 100);
    assert_eq!(iou(&a, &a), 1.0);
    assert_eq!(iou(&a, &b), 5000.0 / 15000.0);
    assert_eq!(iou(&a, &b), iou(&b, &a));
    assert_eq!(iou(&a, &rect(500, 500, 10, 10)), 0.0);
}

#[test]
fn faces_have_a_shape_and_keep_clear_of_the_edges() {
    let plausible = |r: Rect| is_plausible_face_rect(&r, 640, 360);
    assert!(plausible(rect(100, 100, 80, 80)));
    assert!(!plausible(rect(100, 100, 0, 80)));
    assert!(!plausible(rect(100, 100, 80, -1)));
    assert!(!plausible(rect(100, 100, 37, 37)));
    assert!(plausible(rect(100, 100, 38, 38)));
    assert!(!plausible(rect(6, 100, 80, 80)));
    assert!(plausible(rect(7, 100, 80, 80)));
    assert!(!plausible(rect(100, 3, 80, 80)));
    assert!(!plausible(rect(554, 100, 80, 80)));
    assert!(plausible(rect(553, 100, 80, 80)));
    assert!(!plausible(rect(100, 277, 80, 80)));
    assert!(plausible(rect(100, 276, 80, 80)));
}

#[test]
fn the_shape_of_a_face_is_decided_as_in_floats() {
    for w in 30..140 {
        for h in 30..140 {
            let aspect = w as f64 / h as f64;
            let expected = w * h >= 1400 && !(aspect < 0.70 || aspect > 1.45);
            assert_eq!(is_plausible_face_rect(&rect(300, 300, w, h), 1920, 1080), expected);
        }
    }
}

#[test]
fn margins_are_those_of_floats() {
    for side in 0..5000 {
        let margin = (side as f64 * 0.01) as i32;
        let inside = rect(margin + 1, 2500, 50, 50);
        assert!(!is_plausible_face_rect(&rect(margin, 2500, 50, 50), side, 10000));
        assert_eq!(
            is_plausible_face_rect(&inside, side, 10000),
            margin + 51 < side - margin,
        );
    }
}

#[test]
fn face_sizes_follow_the_shorter_side() {
    assert_eq!(detection_sizes(640, 360), (36, 288));
    assert_eq!(detection_sizes(1080, 1920), (108, 864));
    for side in 1..5000 {
        let expected = ((side as f64 * 0.10).max(36.0) as i32, (side as f64 * 0.80) as i32);
        assert_eq!(detection_sizes(side, 5000), expected);
        assert_eq!(detection_sizes(5000, side), expected);
    }
}
