use surveillance::binary64::Binary64;
use surveillance::geometry::Rect;
use surveillance::recognition::{best_sample_match, face_region, identify, largest_rect};

fn number(x: f64) -> Binary64 {
    Binary64 { bits: x.to_bits() }
}

fn scored(list: &[(&str, Option<f64>)]) -> Vec<(String, Option<Binary64>)> {
    list.iter().map(|(n, s)| (n.to_string(), s.map(number))).collect()
}

#[test]
fn the_best_sample_wins_and_the_first_of_equals() {
    let list = scored(&[("a", Some(0.5)), ("b", None), ("c", Some(0.9)), ("d", Some(0.9))]);
    assert_eq!(best_sample_match(&list), ("c".to_string(), number(0.9)));
}

#[test]
fn without_a_score_above_zero_nobody_is_recognized() {
    let unknown = ("Unknown".to_string(), number(0.0));
    assert_eq!(best_sample_match(&scored(&[])), unknown);
    assert_eq!(best_sample_match(&scored(&[("a", Some(0.0)), ("b", None)])), unknown);
    assert_eq!(best_sample_match(&scored(&[("a", Some(f64::NAN)), ("b", Some(-0.0))])), unknown);
}

#[test]
fn a_name_is_given_from_the_threshold_on() {
    let list = scored(&[("ann", Some(0.6))]);
    assert_eq!(identify(&list, number(0.6)), ("ann".to_string(), number(0.6)));
    assert_eq!(identify(&list, number(0.61)), ("Unknown".to_string(), number(0.6)));
    assert_eq!(identify(&list, number(f64::NAN)), ("Unknown".to_string(), number(0.6)));
    assert_eq!(identify(&scored(&[]), number(0.0)), ("Unknown".to_string(), number(0.0)));
}

#[test]
fn the_part_of_the_image_is_cut_out() {
    let r = Rect { x: -10, y: 5, width: 30, height: 100 };
    assert_eq!(face_region(50, 40, &r), Some(Rect { x: 0, y: 5, width: 20, height: 35 }));
    let outside = Rect { x: 60, y: 5, width: 30, height: 100 };
    assert_eq!(face_region(50, 40, &outside), None);
}

#[test]
fn the_last_of_the_largest_faces_is_taken() {
    let r = |x: i32, width: i32, height: i32| Rect { x, y: 0, width, height };
    let rects = vec![r(1, 10, 10), r(2, 20, 20), r(3, 40, 10), r(4, 5, 5)];
    assert_eq!(largest_rect(&rects), Some(r(3, 40, 10)));
    assert_eq!(
        largest_rect(&rects),
        rects.iter().max_by_key(|r| r.width * r.height).copied(),
    );
    assert_eq!(largest_rect(&vec![]), None);
}
