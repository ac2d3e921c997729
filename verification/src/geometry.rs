//! Rectangles in image coordinates: intersection, overlap, and the plausibility of a face.

use vstd::prelude::*;

use vstd::arithmetic::div_mod::{lemma_div_nonincreasing, lemma_div_pos_is_pos};

use crate::binary64::{
    law_quotient_above_one_tenth, law_quotient_monotone, law_quotient_order_is_exact,
    law_quotient_range, quotient, quotient_bits, Binary64,
};

verus! {

/// An axis-parallel rectangle; `x` and `y` are its upper left corner.
#[derive(Clone, Copy, Debug, PartialEq, Eq, Structural)]
pub struct Rect {
    pub x: i32,
    pub y: i32,
    pub width: i32,
    pub height: i32,
}

/// The lesser of two integers.
pub open spec fn min_of(a: int, b: int) -> int {
    if a <= b {
        a
    } else {
        b
    }
}

/// The greater of two integers.
pub open spec fn max_of(a: int, b: int) -> int {
    if a >= b {
        a
    } else {
        b
    }
}

/// `v` is an `i32`.
pub open spec fn fits_i32(v: int) -> bool {
    i32::MIN <= v <= i32::MAX
}

impl Rect {
    /// The column behind the last one.
    pub open spec fn right(self) -> int {
        self.x + self.width
    }

    /// The row behind the last one.
    pub open spec fn bottom(self) -> int {
        self.y + self.height
    }

    /// Width times height.
    pub open spec fn area(self) -> int {
        self.width * self.height
    }

    /// The rectangle covers no point.
    pub open spec fn empty(self) -> bool {
        self.width <= 0 || self.height <= 0
    }

    /// The rectangle covers the point.
    pub open spec fn covers(self, x: int, y: int) -> bool {
        self.x <= x < self.right() && self.y <= y < self.bottom()
    }
}

/// Width of what two rectangles share; not positive when they share nothing.
pub open spec fn shared_width(a: Rect, b: Rect) -> int {
    min_of(a.right(), b.right()) - max_of(a.x as int, b.x as int)
}

/// Height of what two rectangles share; not positive when they share nothing.
pub open spec fn shared_height(a: Rect, b: Rect) -> int {
    min_of(a.bottom(), b.bottom()) - max_of(a.y as int, b.y as int)
}

/// The two rectangles share a point.
pub open spec fn overlap(a: Rect, b: Rect) -> bool {
    shared_width(a, b) > 0 && shared_height(a, b) > 0
}

/// The intersection of the two rectangles is computed without overflow.
pub open spec fn intersection_in_range(a: Rect, b: Rect) -> bool {
    &&& fits_i32(a.right())
    &&& fits_i32(a.bottom())
    &&& fits_i32(b.right())
    &&& fits_i32(b.bottom())
    &&& fits_i32(shared_width(a, b))
    &&& fits_i32(shared_height(a, b))
}

/// What two rectangles share; the rectangle of four zeros when they share nothing.
pub open spec fn intersection(a: Rect, b: Rect) -> Rect {
    if overlap(a, b) {
        Rect {
            x: max_of(a.x as int, b.x as int) as i32,
            y: max_of(a.y as int, b.y as int) as i32,
            width: shared_width(a, b) as i32,
            height: shared_height(a, b) as i32,
        }
    } else {
        Rect { x: 0, y: 0, width: 0, height: 0 }
    }
}

/// Intersects two rectangles.
pub fn intersect(a: &Rect, b: &Rect) -> (res: Rect)
    requires
        intersection_in_range(*a, *b),
    ensures
        res == intersection(*a, *b),
{
    let x1: i32 = if b.x >= a.x {
        b.x
    } else {
        a.x
    };
    let y1: i32 = if b.y >= a.y {
        b.y
    } else {
        a.y
    };
    let a_right: i32 = a.x + a.width;
    let b_right: i32 = b.x + b.width;
    let a_bottom: i32 = a.y + a.height;
    let b_bottom: i32 = b.y + b.height;
    let width: i32 = if a_right <= b_right {
        a_right - x1
    } else {
        b_right - x1
    };
    let height: i32 = if a_bottom <= b_bottom {
        a_bottom - y1
    } else {
        b_bottom - y1
    };
    if width <= 0 || height <= 0 {
        Rect { x: 0, y: 0, width: 0, height: 0 }
    } else {
        Rect { x: x1, y: y1, width, height }
    }
}

/// The intersection covers exactly the points that both rectangles cover.
pub proof fn law_intersection_covers_the_shared_points(a: Rect, b: Rect, x: int, y: int)
    requires
        intersection_in_range(a, b),
    ensures
        intersection(a, b).covers(x, y) <==> a.covers(x, y) && b.covers(x, y),
{
}

/// The overlap of the two rectangles is computed without overflow.
pub open spec fn iou_in_range(a: Rect, b: Rect) -> bool {
    intersection_in_range(a, b) && (overlap(a, b) ==> a.area() + b.area() <= i32::MAX)
}

/// Whether the overlap of two rectangles is computed without overflow.
pub fn is_iou_in_range(a: &Rect, b: &Rect) -> (res: bool)
    ensures
        res == iou_in_range(*a, *b),
{
    let a_right: i64 = a.x as i64 + a.width as i64;
    let a_bottom: i64 = a.y as i64 + a.height as i64;
    let b_right: i64 = b.x as i64 + b.width as i64;
    let b_bottom: i64 = b.y as i64 + b.height as i64;
    let left: i64 = if a.x >= b.x {
        a.x as i64
    } else {
        b.x as i64
    };
    let top: i64 = if a.y >= b.y {
        a.y as i64
    } else {
        b.y as i64
    };
    let width: i64 = if a_right <= b_right {
        a_right - left
    } else {
        b_right - left
    };
    let height: i64 = if a_bottom <= b_bottom {
        a_bottom - top
    } else {
        b_bottom - top
    };
    if !(is_i32(a_right) && is_i32(a_bottom) && is_i32(b_right) && is_i32(b_bottom) && is_i32(width)
        && is_i32(height)) {
        return false;
    }
    if width <= 0 || height <= 0 {
        return true;
    }
    proof {
        lemma_area_bound(*a);
        lemma_area_bound(*b);
    }
    a.width as i64 * a.height as i64 + b.width as i64 * b.height as i64 <= 0x7FFF_FFFF
}

/// Whether an integer is an `i32`.
fn is_i32(v: i64) -> (res: bool)
    ensures
        res == fits_i32(v as int),
{
    -0x8000_0000 <= v && v <= 0x7FFF_FFFF
}

/// The area of a rectangle that covers a point is less than half of the greatest `i64`.
proof fn lemma_area_bound(r: Rect)
    requires
        !r.empty(),
    ensures
        0 < r.area() <= 0x3FFF_FFFF_FFFF_FFFF,
{
    let w = r.width as int;
    let h = r.height as int;
    assert(0 < w * h <= 0x7FFF_FFFF * 0x7FFF_FFFF) by (nonlinear_arith)
        requires
            0 < w <= 0x7FFF_FFFF,
            0 < h <= 0x7FFF_FFFF,
    ;
}

/// Number of points that both rectangles cover.
pub open spec fn shared_area(a: Rect, b: Rect) -> int {
    if overlap(a, b) {
        shared_width(a, b) * shared_height(a, b)
    } else {
        0
    }
}

/// Number of points that one of two overlapping rectangles covers.
pub open spec fn joint_area(a: Rect, b: Rect) -> int {
    a.area() + b.area() - shared_area(a, b)
}

/// The shared part of the joint area, in double precision.
pub open spec fn iou_of(a: Rect, b: Rect) -> Binary64 {
    if overlap(a, b) {
        Binary64 { bits: quotient_bits(shared_area(a, b) as nat, joint_area(a, b) as nat) as u64 }
    } else {
        Binary64 { bits: 0 }
    }
}

/// Overlapping rectangles share part of each.
proof fn lemma_shared_area(a: Rect, b: Rect)
    requires
        overlap(a, b),
    ensures
        0 < shared_area(a, b) <= a.area(),
        shared_area(a, b) <= b.area(),
        shared_area(a, b) <= joint_area(a, b),
{
    let w = shared_width(a, b);
    let h = shared_height(a, b);
    assert(0 < w * h) by (nonlinear_arith)
        requires
            w > 0,
            h > 0,
    ;
    assert(w * h <= a.width * a.height) by (nonlinear_arith)
        requires
            0 < w <= a.width,
            0 < h <= a.height,
    ;
    assert(w * h <= b.width * b.height) by (nonlinear_arith)
        requires
            0 < w <= b.width,
            0 < h <= b.height,
    ;
}

/// Intersection over union of two rectangles.
pub fn rect_iou(a: &Rect, b: &Rect) -> (res: Binary64)
    requires
        iou_in_range(*a, *b),
    ensures
        res == iou_of(*a, *b),
        res.bits <= 0x3FF0_0000_0000_0000,
{
    let inter = intersect(a, b);
    if inter.width <= 0 || inter.height <= 0 {
        return Binary64 { bits: 0 };
    }
    proof {
        lemma_shared_area(*a, *b);
    }
    let inter_area: i32 = inter.width * inter.height;
    let union_area: i32 = a.width * a.height + b.width * b.height - inter_area;
    quotient(inter_area as u64, union_area as u64)
}

/// The bit pattern of 0.10: the overlap above which two rectangles may show one face.
pub const MIN_OVERLAP: u64 = 0x3FB9_9999_9999_999A;

/// The overlap is enough for the two rectangles to show one face.
pub open spec fn overlap_enough(a: Rect, b: Rect) -> bool {
    iou_of(a, b).above(Binary64 { bits: MIN_OVERLAP })
}

proof fn lemma_iou_bits(a: Rect, b: Rect)
    requires
        iou_in_range(a, b),
    ensures
        iou_of(a, b).bits <= 0x3FF0_0000_0000_0000,
        overlap(a, b) ==> iou_of(a, b).bits == quotient_bits(
            shared_area(a, b) as nat,
            joint_area(a, b) as nat,
        ),
{
    if overlap(a, b) {
        lemma_shared_area(a, b);
        law_quotient_range(shared_area(a, b) as nat, joint_area(a, b) as nat);
    }
}

/// Intersection over union does not depend on the order of the rectangles.
pub proof fn law_iou_symmetric(a: Rect, b: Rect)
    ensures
        iou_of(a, b) == iou_of(b, a),
{
    assert(shared_width(a, b) == shared_width(b, a));
    assert(shared_height(a, b) == shared_height(b, a));
}

/// A rectangle that covers a point overlaps itself by 1, and nothing overlaps more.
pub proof fn law_iou_at_most_one(a: Rect, b: Rect)
    requires
        iou_in_range(a, b),
    ensures
        (Binary64 { bits: 0x3FF0_0000_0000_0000 }).at_least(iou_of(a, b)),
        !a.empty() ==> iou_of(a, a).bits == 0x3FF0_0000_0000_0000,
{
    lemma_iou_bits(a, b);
    if !a.empty() {
        lemma_shared_area(a, a);
        let n = a.area() as nat;
        assert(joint_area(a, a) == n && shared_area(a, a) == n);
        law_quotient_monotone(n, n, 1, 1);
        law_quotient_monotone(1, 1, n, n);
        assert(quotient_bits(1, 1) == 0x3FF0_0000_0000_0000);
    }
}

/// The overlap is enough exactly where the shared area is more than a tenth of the joint one.
pub proof fn law_overlap_enough_is_one_tenth(a: Rect, b: Rect)
    requires
        iou_in_range(a, b),
    ensures
        overlap_enough(a, b) <==> 10 * shared_area(a, b) > joint_area(a, b) && overlap(a, b),
{
    lemma_iou_bits(a, b);
    if overlap(a, b) {
        lemma_shared_area(a, b);
        law_quotient_above_one_tenth(shared_area(a, b) as nat, joint_area(a, b) as nat);
    }
}

/// For areas up to some millions of points, the rectangle with the greater exact share is the one
/// with the greater overlap.
pub proof fn law_iou_order_is_exact(a: Rect, b: Rect, c: Rect, d: Rect)
    requires
        iou_in_range(a, b),
        iou_in_range(c, d),
        overlap(a, b),
        overlap(c, d),
        joint_area(a, b) * joint_area(c, d) <= 0x8_0000_0000_0000,
    ensures
        iou_of(c, d).above(iou_of(a, b)) <==> shared_area(a, b) * joint_area(c, d) < shared_area(
            c,
            d,
        ) * joint_area(a, b),
{
    lemma_iou_bits(a, b);
    lemma_iou_bits(c, d);
    lemma_shared_area(a, b);
    lemma_shared_area(c, d);
    law_quotient_order_is_exact(
        shared_area(a, b) as nat,
        joint_area(a, b) as nat,
        shared_area(c, d) as nat,
        joint_area(c, d) as nat,
    );
}

/// `v / d`, rounded towards zero.
pub open spec fn truncated(v: int, d: int) -> int {
    if v >= 0 {
        v / d
    } else {
        -((-v) / d)
    }
}

/// Divides towards zero.
fn divide_truncated(v: i64, d: i64) -> (res: i64)
    requires
        0 < d,
        -0x4_0000_0000 <= v <= 0x4_0000_0000,
    ensures
        res == truncated(v as int, d as int),
        v >= 0 ==> 0 <= res <= v,
        v < 0 ==> v <= res <= 0,
{
    proof {
        if v >= 0 {
            lemma_div_pos_is_pos(v as int, d as int);
            lemma_div_nonincreasing(v as int, d as int);
        } else {
            lemma_div_pos_is_pos(-v as int, d as int);
            lemma_div_nonincreasing(-v as int, d as int);
        }
    }
    if v >= 0 {
        v / d
    } else {
        -((-v) / d)
    }
}

/// A face has at least this many points.
pub const MIN_FACE_AREA: i32 = 1400;

/// The shape of a face: large enough, and its width between 0.70 and 1.45 of its height. (Two
/// `i32` have a quotient on the same side of 0.70 in double precision as exactly, and of 1.45.)
pub open spec fn face_shaped(r: Rect) -> bool {
    &&& r.width > 0
    &&& r.height > 0
    &&& r.area() >= MIN_FACE_AREA
    &&& 10 * r.width >= 7 * r.height
    &&& 20 * r.width <= 29 * r.height
}

/// One hundredth of a side of the frame: a face keeps this distance from the edge.
pub open spec fn margin(side: i32) -> int {
    truncated(side as int, 100)
}

/// The rectangle can be a face in a frame of the given size: it has the shape of one and keeps
/// clear of the edges.
pub open spec fn plausible_face(r: Rect, frame_w: i32, frame_h: i32) -> bool {
    &&& face_shaped(r)
    &&& r.x > margin(frame_w)
    &&& r.y > margin(frame_h)
    &&& r.right() < frame_w - margin(frame_w)
    &&& r.bottom() < frame_h - margin(frame_h)
}

/// Plausibility is decided without overflow.
pub open spec fn plausible_in_range(r: Rect, frame_w: i32, frame_h: i32) -> bool {
    &&& r.width > 0 && r.height > 0 ==> r.area() <= i32::MAX
    &&& face_shaped(r) && r.x > margin(frame_w) && r.y > margin(frame_h) ==> {
        &&& r.right() <= i32::MAX
        &&& r.right() < frame_w - margin(frame_w) ==> r.bottom() <= i32::MAX
    }
}

/// Whether a detected rectangle can be a face.
pub fn is_plausible_face_rect(rect: &Rect, frame_w: i32, frame_h: i32) -> (res: bool)
    requires
        plausible_in_range(*rect, frame_w, frame_h),
    ensures
        res == plausible_face(*rect, frame_w, frame_h),
{
    let w: i32 = rect.width;
    let h: i32 = rect.height;
    if w <= 0 || h <= 0 {
        return false;
    }
    assert(0 < w * h) by (nonlinear_arith)
        requires
            w > 0,
            h > 0,
    ;
    let area: i32 = w * h;
    if area < MIN_FACE_AREA {
        return false;
    }
    if 10 * (w as i64) < 7 * (h as i64) || 20 * (w as i64) > 29 * (h as i64) {
        return false;
    }
    let mx: i64 = divide_truncated(frame_w as i64, 100);
    let my: i64 = divide_truncated(frame_h as i64, 100);
    if (rect.x as i64) <= mx || (rect.y as i64) <= my {
        return false;
    }
    if (rect.x + rect.width) as i64 >= frame_w as i64 - mx {
        return false;
    }
    if (rect.y + rect.height) as i64 >= frame_h as i64 - my {
        return false;
    }
    true
}

/// A plausible face lies inside of its frame, which is then not empty.
pub proof fn law_plausible_face_lies_in_the_frame(r: Rect, frame_w: i32, frame_h: i32)
    requires
        plausible_face(r, frame_w, frame_h),
    ensures
        0 < frame_w,
        0 < frame_h,
        0 < r.x,
        0 < r.y,
        r.right() < frame_w,
        r.bottom() < frame_h,
        r.area() <= frame_w * frame_h,
{
    lemma_margins(frame_w);
    lemma_margins(frame_h);
    assert(r.width * r.height <= frame_w * frame_h) by (nonlinear_arith)
        requires
            0 <= r.width <= frame_w,
            0 <= r.height <= frame_h,
    ;
}

/// Only between the margins of a side of positive length there is room.
proof fn lemma_margins(side: i32)
    ensures
        side > 0 ==> margin(side) >= 0,
        side <= 0 ==> 2 * margin(side) >= side,
{
    if side >= 0 {
        lemma_div_pos_is_pos(side as int, 100);
    } else {
        lemma_div_nonincreasing(-side, 100);
        lemma_div_pos_is_pos(-side, 100);
        assert(2 * ((-side) / 100) <= -side);
    }
}

/// The smallest and the largest side of a face that the detector is asked for in a frame.
pub open spec fn face_sizes(frame_w: i32, frame_h: i32) -> (int, int) {
    let side = min_of(frame_w as int, frame_h as int);
    (max_of(truncated(side, 10), 36), truncated(4 * side, 5))
}

/// The smallest and the largest side of a face to look for: a tenth of the shorter side of the
/// frame, but at least 36, and four fifths of it.
pub fn detection_sizes(frame_w: i32, frame_h: i32) -> (res: (i32, i32))
    ensures
        (res.0 as int, res.1 as int) == face_sizes(frame_w, frame_h),
{
    let side: i64 = if frame_w <= frame_h {
        frame_w as i64
    } else {
        frame_h as i64
    };
    let tenth: i64 = divide_truncated(side, 10);
    let smallest: i64 = if tenth >= 36 {
        tenth
    } else {
        36
    };
    proof {
        if side >= 0 {
            assert((4 * side) / 5 <= side);
        } else {
            assert((4 * -side) / 5 <= -side);
        }
    }
    let largest: i64 = divide_truncated(4 * side, 5);
    (smallest as i32, largest as i32)
}

/// The lesser and the greater of two integers are these two, in order.
pub proof fn law_lesser_and_greater(a: int, b: int)
    ensures
        min_of(a, b) <= a,
        min_of(a, b) <= b,
        max_of(a, b) >= a,
        max_of(a, b) >= b,
        min_of(a, b) + max_of(a, b) == a + b,
        min_of(a, b) == a || min_of(a, b) == b,
{
}

/// Two rectangles overlap exactly where both cover some point; and then the part of the joint area
/// that they share is the area of their intersection, of which both areas together count it twice.
pub proof fn law_overlap_is_a_shared_point(a: Rect, b: Rect, x: int, y: int)
    requires
        intersection_in_range(a, b),
    ensures
        a.x <= x < a.x + a.width && b.x <= x < b.x + b.width && a.y <= y < a.y + a.height && b.y <= y
            < b.y + b.height ==> overlap(a, b),
        overlap(a, b) ==> {
            let part = intersection(a, b);
            &&& a.x <= part.x && b.x <= part.x && a.y <= part.y && b.y <= part.y
            &&& part.x < a.x + a.width && part.x < b.x + b.width
            &&& part.y < a.y + a.height && part.y < b.y + b.height
        },
        shared_area(a, b) == intersection(a, b).width * intersection(a, b).height,
        shared_area(a, b) + joint_area(a, b) == a.width * a.height + b.width * b.height,
        !overlap(a, b) ==> iou_of(a, b).bits == 0,
{
}

/// The greater the part of the joint area is that two rectangles share, the greater is their overlap;
/// it is above zero where they share a point, and at most one.
pub proof fn law_iou_grows_with_the_shared_part(a: Rect, b: Rect, c: Rect, d: Rect)
    requires
        iou_in_range(a, b),
        iou_in_range(c, d),
        overlap(a, b),
        overlap(c, d),
        shared_area(a, b) * joint_area(c, d) <= shared_area(c, d) * joint_area(a, b),
    ensures
        0 < iou_of(a, b).bits <= iou_of(c, d).bits <= 0x3FF0_0000_0000_0000,
{
    lemma_iou_bits(a, b);
    lemma_iou_bits(c, d);
    lemma_shared_area(a, b);
    lemma_shared_area(c, d);
    law_quotient_monotone(
        shared_area(a, b) as nat,
        joint_area(a, b) as nat,
        shared_area(c, d) as nat,
        joint_area(c, d) as nat,
    );
    law_quotient_range(shared_area(a, b) as nat, joint_area(a, b) as nat);
}

/// A rectangle can be a face exactly where it has at least 1400 points, is between 0.70 and 1.45 times
/// as wide as it is high, and keeps more than a hundredth of the sides of the frame away from each of
/// its edges.
pub proof fn law_what_can_be_a_face(r: Rect, frame_w: i32, frame_h: i32)
    requires
        0 <= frame_w,
        0 <= frame_h,
    ensures
        plausible_face(r, frame_w, frame_h) <==> {
            &&& r.width > 0
            &&& r.height > 0
            &&& r.width * r.height >= 1400
            &&& 100 * r.width >= 70 * r.height
            &&& 100 * r.width <= 145 * r.height
            &&& 100 * r.x > frame_w
            &&& 100 * r.y > frame_h
            &&& 100 * (frame_w - (r.x + r.width)) > frame_w
            &&& 100 * (frame_h - (r.y + r.height)) > frame_h
        },
{
    assert(forall|v: int| #![trigger v / 100] 0 <= v ==> 100 * (v / 100) <= v < 100 * (v / 100) + 100);
    let mw = frame_w as int / 100;
    let mh = frame_h as int / 100;
    assert(margin(frame_w) == mw && margin(frame_h) == mh);
    assert(100 * mw <= frame_w < 100 * mw + 100);
    assert(100 * mh <= frame_h < 100 * mh + 100);
}

/// Faces are looked for from a tenth to four fifths of the shorter side of the frame, rounded down,
/// but not below 36 points.
pub proof fn law_faces_are_sought_by_the_shorter_side(frame_w: i32, frame_h: i32)
    requires
        0 <= frame_w,
        0 <= frame_h,
    ensures
        ({
            let (smallest, largest) = face_sizes(frame_w, frame_h);
            &&& smallest >= 36
            &&& smallest > 36 ==> 10 * smallest <= frame_w && 10 * smallest <= frame_h
            &&& 10 * (smallest + 1) > frame_w || 10 * (smallest + 1) > frame_h
            &&& 5 * largest <= 4 * frame_w && 5 * largest <= 4 * frame_h
            &&& 5 * (largest + 1) > 4 * frame_w || 5 * (largest + 1) > 4 * frame_h
        }),
        face_sizes(frame_w, frame_h) == face_sizes(frame_h, frame_w),
{
}

} // verus!
