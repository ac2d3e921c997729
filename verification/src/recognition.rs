//! Recognizing a face: which known sample it is most like, and which part of an image it is.

use vstd::prelude::*;

use crate::binary64::Binary64;
use crate::geometry::{
    intersect, intersection, intersection_in_range, law_intersection_covers_the_shared_points, Rect,
};

verus! {

/// Zero.
pub const ZERO: u64 = 0;

/// The name of a known sample and how much a face is like it, where that could be found out.
pub open spec fn scored_views(s: Seq<(String, Option<Binary64>)>) -> Seq<
    (Seq<char>, Option<Binary64>),
> {
    s.map_values(|p: (String, Option<Binary64>)| (p.0@, p.1))
}

/// The sample `i` has a score above zero that no sample exceeds, and no earlier one reaches.
pub open spec fn scores_best(scored: Seq<(Seq<char>, Option<Binary64>)>, i: int) -> bool {
    &&& 0 <= i < scored.len()
    &&& scored[i].1 matches Some(mine) && {
        &&& mine.above(Binary64 { bits: ZERO })
        &&& forall|j: int|
            0 <= j < scored.len() ==> ((#[trigger] scored[j]).1 matches Some(other)
                ==> !other.above(mine) && (j < i ==> !other.at_least(mine)))
    }
}

/// The name and the score of the best sample; nobody and zero where no score is above zero.
pub open spec fn best_match(scored: Seq<(Seq<char>, Option<Binary64>)>) -> (Seq<char>, Binary64) {
    if exists|i: int| scores_best(scored, i) {
        let i = choose|i: int| scores_best(scored, i);
        (scored[i].0, scored[i].1->0)
    } else {
        ("Unknown"@, Binary64 { bits: ZERO })
    }
}

/// The best sample is unique.
proof fn lemma_best_match_is(scored: Seq<(Seq<char>, Option<Binary64>)>, i: int)
    requires
        scores_best(scored, i),
    ensures
        best_match(scored) == (scored[i].0, scored[i].1->0),
{
    let k = choose|k: int| scores_best(scored, k);
    assert(scores_best(scored, k));
    assert(scored[k].1 is Some && scored[i].1 is Some);
}

/// Finds the sample that a face is most like, by its score with each sample.
pub fn best_sample_match(scored: &Vec<(String, Option<Binary64>)>) -> (res: (String, Binary64))
    ensures
        (res.0@, res.1) == best_match(scored_views(scored@)),
{
    let ghost views = scored_views(scored@);
    let mut best: Option<usize> = None;
    let mut best_score: Binary64 = Binary64 { bits: ZERO };
    for i in 0..scored.len()
        invariant
            views == scored_views(scored@),
            !best_score.nan(),
            forall|j: int|
                0 <= j < i ==> ((#[trigger] views[j]).1 matches Some(other) ==> !other.above(
                    best_score,
                )),
            match best {
                None => best_score.bits == ZERO,
                Some(b) => {
                    &&& b < i
                    &&& views[b as int].1 == Some(best_score)
                    &&& best_score.above(Binary64 { bits: ZERO })
                    &&& forall|j: int|
                        0 <= j < b ==> ((#[trigger] views[j]).1 matches Some(other)
                            ==> !other.at_least(best_score))
                },
            },
    {
        assert(views[i as int] == (scored@[i as int].0@, scored@[i as int].1));
        if let Some(score) = scored[i].1 {
            if score.gt(best_score) {
                best_score = score;
                best = Some(i);
            }
        }
    }
    match best {
        Some(b) => {
            proof {
                assert(scores_best(views, b as int));
                lemma_best_match_is(views, b as int);
            }
            (scored[b].0.clone(), best_score)
        },
        None => {
            proof {
                assert forall|i: int| !scores_best(views, i) by {
                    if scores_best(views, i) {
                        assert(views[i].1 is Some);
                    }
                }
            }
            ("Unknown".to_owned(), best_score)
        },
    }
}

/// Who a face is said to be: the best sample's name where its score reaches the threshold.
pub open spec fn identified(
    scored: Seq<(Seq<char>, Option<Binary64>)>,
    threshold: Binary64,
) -> (Seq<char>, Binary64) {
    let (name, score) = best_match(scored);
    if score.at_least(threshold) {
        (name, score)
    } else {
        ("Unknown"@, score)
    }
}

/// Tells who a face is, by its score with each known sample, and the score that says so.
pub fn identify(scored: &Vec<(String, Option<Binary64>)>, threshold: Binary64) -> (res: (
    String,
    Binary64,
))
    ensures
        (res.0@, res.1) == identified(scored_views(scored@), threshold),
{
    let (name, score) = best_sample_match(scored);
    if score.ge(threshold) {
        (name, score)
    } else {
        ("Unknown".to_owned(), score)
    }
}

/// A face gets a name only where its score with a sample of that name reaches the threshold and is
/// above zero; without such a sample it stays unknown.
pub proof fn law_named_only_above_the_threshold(
    scored: Seq<(Seq<char>, Option<Binary64>)>,
    threshold: Binary64,
)
    ensures
        ({
            let (name, score) = identified(scored, threshold);
            name != "Unknown"@ ==> {
                &&& score.at_least(threshold)
                &&& exists|i: int| #[trigger]
                    scores_best(scored, i) && scored[i] == (name, Some(score))
            }
        }),
{
    if exists|i: int| scores_best(scored, i) {
        let i = choose|i: int| scores_best(scored, i);
        assert(scores_best(scored, i));
        assert(scored[i].1 is Some);
    }
}

/// The part of an image that a rectangle covers; none where it covers no point of it.
pub open spec fn region(cols: i32, rows: i32, rect: Rect) -> Option<Rect> {
    let part = intersection(Rect { x: 0, y: 0, width: cols, height: rows }, rect);
    if part.empty() {
        None
    } else {
        Some(part)
    }
}

/// The part of an image to cut out for a face.
pub fn face_region(cols: i32, rows: i32, rect: &Rect) -> (res: Option<Rect>)
    requires
        intersection_in_range(Rect { x: 0, y: 0, width: cols, height: rows }, *rect),
    ensures
        res == region(cols, rows, *rect),
{
    let part = intersect(&Rect { x: 0, y: 0, width: cols, height: rows }, rect);
    if part.width <= 0 || part.height <= 0 {
        None
    } else {
        Some(part)
    }
}

/// The rectangle `i` is the largest one, and the last of those.
pub open spec fn is_largest(rects: Seq<Rect>, i: int) -> bool {
    &&& 0 <= i < rects.len()
    &&& forall|j: int|
        0 <= j < rects.len() ==> {
            let other = (#[trigger] rects[j]).area();
            other <= rects[i].area() && (j > i ==> other < rects[i].area())
        }
}

/// The largest of the faces that were found in an image; the last one where several are.
pub fn largest_rect(rects: &Vec<Rect>) -> (res: Option<Rect>)
    requires
        forall|i: int|
            0 <= i < rects@.len() ==> i32::MIN <= (#[trigger] rects@[i]).area() <= i32::MAX,
    ensures
        match res {
            Some(r) => exists|i: int| #[trigger] is_largest(rects@, i) && rects@[i] == r,
            None => rects@.len() == 0,
        },
{
    if rects.len() == 0 {
        return None;
    }
    let mut best: usize = 0;
    assert(rects@[0].area() <= i32::MAX);
    let mut best_area: i32 = rects[0].width * rects[0].height;
    let mut i: usize = 1;
    while i < rects.len()
        invariant
            1 <= i <= rects@.len(),
            best < i,
            best_area == rects@[best as int].area(),
            forall|j: int|
                0 <= j < rects@.len() ==> i32::MIN <= (#[trigger] rects@[j]).area() <= i32::MAX,
            forall|j: int|
                0 <= j < i ==> {
                    let other = (#[trigger] rects@[j]).area();
                    other <= best_area && (j > best ==> other < best_area)
                },
        decreases rects@.len() - i,
    {
        assert(rects@[i as int].area() <= i32::MAX);
        let area: i32 = rects[i].width * rects[i].height;
        if area >= best_area {
            best_area = area;
            best = i;
        }
        i = i + 1;
    }
    assert(is_largest(rects@, best as int));
    Some(rects[best])
}

/// A face that is most like the sample `i`, by a score above zero that no sample exceeds and no
/// earlier one reaches, is that person exactly where the score reaches the threshold, whatever the
/// scores with the other samples are. The score is given in any case.
pub proof fn law_the_best_sample_decides(
    scored: Seq<(Seq<char>, Option<Binary64>)>,
    threshold: Binary64,
    i: int,
    mine: Binary64,
)
    requires
        0 <= i < scored.len(),
        scored[i].1 == Some(mine),
        mine.above(Binary64 { bits: 0 }),
        forall|j: int|
            0 <= j < scored.len() ==> ((#[trigger] scored[j]).1 matches Some(other)
                ==> !other.above(mine)),
        forall|j: int|
            0 <= j < i ==> ((#[trigger] scored[j]).1 matches Some(other) ==> !other.at_least(mine)),
    ensures
        best_match(scored) == (scored[i].0, mine),
        mine.at_least(threshold) ==> identified(scored, threshold) == (scored[i].0, mine),
        !mine.at_least(threshold) ==> identified(scored, threshold) == ("Unknown"@, mine),
{
    assert(scores_best(scored, i));
    lemma_best_match_is(scored, i);
}

/// A face that is like no sample, none of its scores being above zero, is nobody's, with the score
/// zero.
pub proof fn law_like_nobody(scored: Seq<(Seq<char>, Option<Binary64>)>, threshold: Binary64)
    requires
        forall|j: int|
            0 <= j < scored.len() ==> ((#[trigger] scored[j]).1 matches Some(other)
                ==> !other.above(Binary64 { bits: 0 })),
    ensures
        best_match(scored) == ("Unknown"@, Binary64 { bits: 0 }),
        identified(scored, threshold) == ("Unknown"@, Binary64 { bits: 0 }),
{
    assert forall|i: int| !scores_best(scored, i) by {
        if scores_best(scored, i) {
            assert(scored[i].1 is Some);
        }
    }
}

/// A further sample that is not more like the face changes nothing.
pub proof fn law_a_lesser_sample_changes_nothing(
    scored: Seq<(Seq<char>, Option<Binary64>)>,
    threshold: Binary64,
    name: Seq<char>,
    score: Option<Binary64>,
)
    requires
        score matches Some(s) ==> !s.above(identified(scored, threshold).1),
    ensures
        identified(scored.push((name, score)), threshold) == identified(scored, threshold),
{
    let more = scored.push((name, score));
    if exists|i: int| scores_best(scored, i) {
        let i = choose|i: int| scores_best(scored, i);
        lemma_best_match_is(scored, i);
        assert(scored[i].1 is Some);
        assert forall|j: int| 0 <= j < more.len() implies ((#[trigger] more[j]).1 matches Some(other)
            ==> !other.above(scored[i].1->0) && (j < i ==> !other.at_least(scored[i].1->0))) by {
            if j < scored.len() {
                assert(more[j] == scored[j]);
            }
        }
        assert(scores_best(more, i));
        lemma_best_match_is(more, i);
    } else {
        assert forall|i: int| !scores_best(more, i) by {
            if scores_best(more, i) {
                assert(more[i].1 is Some);
                if i < scored.len() {
                    assert(more[i] == scored[i]);
                    assert forall|j: int| 0 <= j < scored.len() implies ((
                    #[trigger] scored[j]).1 matches Some(other) ==> !other.above(scored[i].1->0) && (
                    j < i ==> !other.at_least(scored[i].1->0))) by {
                        assert(more[j] == scored[j]);
                    }
                    assert(scores_best(scored, i));
                }
            }
        }
    }
}

/// The part of an image that a rectangle covers holds exactly the points of the image that lie in the
/// rectangle; there is none where there is no such point.
pub proof fn law_region_is_what_lies_in_the_image(cols: i32, rows: i32, rect: Rect, x: int, y: int)
    requires
        intersection_in_range(Rect { x: 0, y: 0, width: cols, height: rows }, rect),
    ensures
        (0 <= x < cols && 0 <= y < rows && rect.x <= x < rect.x + rect.width && rect.y <= y < rect.y
            + rect.height) <==> (region(cols, rows, rect) matches Some(part) && part.x <= x < part.x
            + part.width && part.y <= y < part.y + part.height),
        region(cols, rows, rect) matches Some(part) ==> part.width > 0 && part.height > 0,
{
    law_intersection_covers_the_shared_points(
        Rect { x: 0, y: 0, width: cols, height: rows },
        rect,
        x,
        y,
    );
}

/// The largest rectangle has no fewer points than any other, and more than all that follow it.
pub proof fn law_no_rectangle_is_larger(rects: Seq<Rect>, i: int, j: int)
    requires
        is_largest(rects, i),
        0 <= j < rects.len(),
    ensures
        0 <= i < rects.len(),
        rects[j].width * rects[j].height <= rects[i].width * rects[i].height,
        j > i ==> rects[j].width * rects[j].height < rects[i].width * rects[i].height,
{
    assert(rects[j].area() <= rects[i].area());
}

/// What is said of scored samples is what they hold, one by one.
pub proof fn law_views_of_scores(scored: Seq<(String, Option<Binary64>)>, i: int)
    requires
        0 <= i < scored.len(),
    ensures
        scored_views(scored).len() == scored.len(),
        scored_views(scored)[i].0 == scored[i].0@,
        scored_views(scored)[i].1 == scored[i].1,
{
}

} // verus!
