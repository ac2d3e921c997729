//! Following faces from one detection to the next.
//!
//! A face that is seen in consecutive detections is one track. A detection is given to the track
//! that it overlaps most; one that overlaps no free track enough begins a track of its own.

use vstd::prelude::*;

use crate::binary64::Binary64;
use crate::geometry::{
    iou_in_range, iou_of, is_iou_in_range, joint_area, law_iou_order_is_exact,
    law_overlap_enough_is_one_tenth, overlap, overlap_enough, rect_iou, shared_area, Rect,
    MIN_OVERLAP,
};
use crate::ordering::lemma_filter_selects;

verus! {

/// A track that has been missed in more detections than this is dropped.
pub const MAX_MISSED: i32 = 2;

/// A face in a frame: who it is, how sure that is, and its box.
#[derive(Debug)]
pub struct DetectedFace {
    pub name: String,
    pub confidence: Binary64,
    pub left: i32,
    pub top: i32,
    pub right: i32,
    pub bottom: i32,
}

/// What a [`DetectedFace`] says.
#[verifier::ext_equal]
pub struct DetectedFaceView {
    pub name: Seq<char>,
    pub confidence: Binary64,
    pub left: i32,
    pub top: i32,
    pub right: i32,
    pub bottom: i32,
}

impl View for DetectedFace {
    type V = DetectedFaceView;

    open spec fn view(&self) -> DetectedFaceView {
        DetectedFaceView {
            name: self.name@,
            confidence: self.confidence,
            left: self.left,
            top: self.top,
            right: self.right,
            bottom: self.bottom,
        }
    }
}

impl Clone for DetectedFace {
    fn clone(&self) -> (res: DetectedFace)
        ensures
            res@ == self@,
    {
        DetectedFace {
            name: self.name.clone(),
            confidence: self.confidence,
            left: self.left,
            top: self.top,
            right: self.right,
            bottom: self.bottom,
        }
    }
}

/// A face that is followed.
#[derive(Debug)]
pub struct FaceTrack {
    /// The face as it was seen last.
    pub face: DetectedFace,
    /// Where it was seen last.
    pub rect: Rect,
    /// In how many detections it was seen.
    pub streak: i32,
    /// How many detections have passed since.
    pub missed_count: i32,
}

/// What a [`FaceTrack`] says.
#[verifier::ext_equal]
pub struct FaceTrackView {
    pub face: DetectedFaceView,
    pub rect: Rect,
    pub streak: int,
    pub missed_count: int,
}

impl View for FaceTrack {
    type V = FaceTrackView;

    open spec fn view(&self) -> FaceTrackView {
        FaceTrackView {
            face: self.face@,
            rect: self.rect,
            streak: self.streak as int,
            missed_count: self.missed_count as int,
        }
    }
}

impl Clone for FaceTrack {
    fn clone(&self) -> (res: FaceTrack)
        ensures
            res@ == self@,
    {
        FaceTrack {
            face: self.face.clone(),
            rect: self.rect,
            streak: self.streak,
            missed_count: self.missed_count,
        }
    }
}

/// A face that was detected, before it is given to a track.
#[derive(Debug)]
pub struct CandidateFace {
    pub face: DetectedFace,
    pub rect: Rect,
}

/// What a [`CandidateFace`] says.
#[verifier::ext_equal]
pub struct CandidateFaceView {
    pub face: DetectedFaceView,
    pub rect: Rect,
}

impl View for CandidateFace {
    type V = CandidateFaceView;

    open spec fn view(&self) -> CandidateFaceView {
        CandidateFaceView { face: self.face@, rect: self.rect }
    }
}

impl Clone for CandidateFace {
    fn clone(&self) -> (res: CandidateFace)
        ensures
            res@ == self@,
    {
        CandidateFace { face: self.face.clone(), rect: self.rect }
    }
}

/// The views of tracks.
pub open spec fn track_views(s: Seq<FaceTrack>) -> Seq<FaceTrackView> {
    s.map_values(|t: FaceTrack| t@)
}

/// The views of candidates.
pub open spec fn candidate_views(s: Seq<CandidateFace>) -> Seq<CandidateFaceView> {
    s.map_values(|c: CandidateFace| c@)
}

/// The views of faces.
pub open spec fn face_views(s: Seq<DetectedFace>) -> Seq<DetectedFaceView> {
    s.map_values(|f: DetectedFace| f@)
}

/// Tracks in the course of an update, and which of them have been given a detection in it.
#[verifier::ext_equal]
pub struct Matching {
    pub tracks: Seq<FaceTrackView>,
    pub used: Seq<bool>,
}

impl Matching {
    /// The track `i` can be given a detection at `rect`.
    pub open spec fn open_to(self, rect: Rect, i: int) -> bool {
        &&& 0 <= i < self.tracks.len()
        &&& !self.used[i]
        &&& overlap_enough(rect, self.tracks[i].rect)
    }

    /// The track `i` is the one that `rect` overlaps most among those that are open to it, and the
    /// first such one.
    pub open spec fn is_best(self, rect: Rect, i: int) -> bool {
        &&& self.open_to(rect, i)
        &&& forall|j: int| #[trigger]
            self.open_to(rect, j) ==> {
                let mine = iou_of(rect, self.tracks[i].rect);
                let other = iou_of(rect, self.tracks[j].rect);
                !other.above(mine) && (j < i ==> mine.above(other))
            }
    }

    /// The track that a detection at `rect` is given to; none when no track is open to it.
    pub open spec fn best(self, rect: Rect) -> Option<int> {
        if forall|i: int| !#[trigger] self.open_to(rect, i) {
            None
        } else {
            Some(choose|i: int| self.is_best(rect, i))
        }
    }

    /// Gives a detection to its track, or begins a track with it.
    pub open spec fn assign(self, c: CandidateFaceView) -> Matching {
        match self.best(c.rect) {
            Some(i) => Matching {
                tracks: self.tracks.update(
                    i,
                    FaceTrackView {
                        face: c.face,
                        rect: c.rect,
                        streak: self.tracks[i].streak + 1,
                        missed_count: 0,
                    },
                ),
                used: self.used.update(i, true),
            },
            None => Matching {
                tracks: self.tracks.push(
                    FaceTrackView { face: c.face, rect: c.rect, streak: 1, missed_count: 0 },
                ),
                used: self.used.push(true),
            },
        }
    }

    /// A detection is given away without overflow: it can be compared with every track that has none
    /// yet, and the track that it is given to, if any, can be seen once more.
    pub open spec fn takes(self, c: CandidateFaceView) -> bool {
        &&& forall|i: int|
            0 <= i < self.tracks.len() && !self.used[i] ==> iou_in_range(
                c.rect,
                (#[trigger] self.tracks[i]).rect,
            )
        &&& self.best(c.rect) matches Some(i) ==> self.tracks[i].streak < i32::MAX
    }

    /// Gives the detections to their tracks, one after the other.
    pub open spec fn assign_all(self, candidates: Seq<CandidateFaceView>) -> Matching
        decreases candidates.len(),
    {
        if candidates.len() == 0 {
            self
        } else {
            self.assign_all(candidates.drop_last()).assign(candidates.last())
        }
    }
}

/// The track, missed once more.
pub open spec fn aged(t: FaceTrackView) -> FaceTrackView {
    FaceTrackView { missed_count: t.missed_count + 1, ..t }
}

/// The tracks at the beginning of an update: each missed once more, none given a detection.
pub open spec fn fresh_matching(tracks: Seq<FaceTrackView>) -> Matching {
    Matching {
        tracks: tracks.map_values(|t: FaceTrackView| aged(t)),
        used: Seq::new(tracks.len(), |i: int| false),
    }
}

/// An update overflows nowhere: every track can be missed once more, and the detections can be given
/// away one after the other.
pub open spec fn update_in_range(
    tracks: Seq<FaceTrackView>,
    candidates: Seq<CandidateFaceView>,
) -> bool {
    &&& forall|i: int| 0 <= i < tracks.len() ==> (#[trigger] tracks[i]).missed_count < i32::MAX
    &&& forall|k: int|
        0 <= k < candidates.len() ==> fresh_matching(tracks).assign_all(
            #[trigger] candidates.take(k),
        ).takes(candidates[k])
}

/// The track is still followed.
pub open spec fn alive(t: FaceTrackView) -> bool {
    t.missed_count <= MAX_MISSED
}

/// The track was seen in the last detection, and often enough to be reported.
pub open spec fn reported(t: FaceTrackView, min_consecutive: int) -> bool {
    t.missed_count == 0 && t.streak >= min_consecutive
}

/// The tracks behind a detection.
pub open spec fn tracks_after(
    tracks: Seq<FaceTrackView>,
    candidates: Seq<CandidateFaceView>,
) -> Seq<FaceTrackView> {
    fresh_matching(tracks).assign_all(candidates).tracks.filter(|t: FaceTrackView| alive(t))
}

/// The faces that are reported of tracks.
pub open spec fn reported_faces(tracks: Seq<FaceTrackView>, min_consecutive: int) -> Seq<
    DetectedFaceView,
> {
    tracks.filter(|t: FaceTrackView| reported(t, min_consecutive)).map_values(
        |t: FaceTrackView| t.face,
    )
}

/// The best track is unique.
proof fn lemma_best_is(m: Matching, rect: Rect, i: int)
    requires
        m.is_best(rect, i),
    ensures
        m.best(rect) == Some(i),
{
    assert(m.open_to(rect, i));
    let k = choose|k: int| m.is_best(rect, k);
    assert(m.is_best(rect, k));
    assert(m.open_to(rect, k));
}

/// Finds the track that a detection at `rect` is given to.
fn find_best(rect: &Rect, tracks: &Vec<FaceTrack>, used: &Vec<bool>) -> (res: Option<usize>)
    requires
        used@.len() == tracks@.len(),
        forall|i: int|
            0 <= i < tracks@.len() && !used@[i] ==> iou_in_range(*rect, (#[trigger] tracks@[i]).rect),
    ensures
        ({
            let m = (Matching { tracks: track_views(tracks@), used: used@ });
            match res {
                Some(i) => i < tracks@.len() && !used@[i as int] && m.best(*rect) == Some(i as int),
                None => m.best(*rect) is None,
            }
        }),
{
    let ghost m = Matching { tracks: track_views(tracks@), used: used@ };
    let mut best_idx: Option<usize> = None;
    let mut best_iou: Binary64 = Binary64 { bits: 0 };
    let mut n: usize = 0;
    while n < tracks.len()
        invariant
            used@.len() == tracks@.len(),
            n <= tracks@.len(),
            m == (Matching { tracks: track_views(tracks@), used: used@ }),
            forall|i: int|
                0 <= i < tracks@.len() && !used@[i] ==> iou_in_range(
                    *rect,
                    (#[trigger] tracks@[i]).rect,
                ),
            best_iou.bits <= 0x3FF0_0000_0000_0000,
            match best_idx {
                None => best_iou.bits == 0 && (forall|j: int|
                    0 <= j < n ==> !#[trigger] m.open_to(*rect, j)),
                Some(b) => {
                    &&& b < n
                    &&& m.open_to(*rect, b as int)
                    &&& best_iou == iou_of(*rect, tracks@[b as int].rect)
                    &&& forall|j: int|
                        0 <= j < n && #[trigger] m.open_to(*rect, j) ==> {
                            let other = iou_of(*rect, tracks@[j].rect);
                            !other.above(best_iou) && (j < b ==> best_iou.above(other))
                        }
                },
            },
        decreases tracks@.len() - n,
    {
        if !used[n] {
            assert(iou_in_range(*rect, tracks@[n as int].rect));
            let iou = rect_iou(rect, &tracks[n].rect);
            assert(m.tracks[n as int].rect == tracks@[n as int].rect);
            if iou.gt(Binary64 { bits: MIN_OVERLAP }) && iou.gt(best_iou) {
                assert(m.open_to(*rect, n as int));
                best_iou = iou;
                best_idx = Some(n);
            }
        }
        n = n + 1;
    }
    proof {
        match best_idx {
            Some(b) => {
                assert forall|j: int| #[trigger] m.open_to(*rect, j) implies {
                    let mine = iou_of(*rect, m.tracks[b as int].rect);
                    let other = iou_of(*rect, m.tracks[j].rect);
                    !other.above(mine) && (j < b ==> mine.above(other))
                } by {
                    assert(m.tracks[j].rect == tracks@[j].rect);
                }
                assert(m.is_best(*rect, b as int));
                lemma_best_is(m, *rect, b as int);
            },
            None => {},
        }
    }
    best_idx
}

/// Drops the tracks that are followed no longer.
fn drop_lost(tracks: &mut Vec<FaceTrack>)
    ensures
        track_views(final(tracks)@) == track_views(old(tracks)@).filter(
            |t: FaceTrackView| alive(t),
        ),
{
    let mut all: Vec<FaceTrack> = Vec::new();
    std::mem::swap(&mut all, tracks);
    let ghost found = all@;
    let ghost views = track_views(found);
    let ghost keep = |t: FaceTrackView| alive(t);
    let mut kept: Vec<FaceTrack> = Vec::new();
    assert(views.take(0).filter(keep) =~= Seq::<FaceTrackView>::empty());
    assert(track_views(kept@) =~= Seq::<FaceTrackView>::empty());
    for t in it: all
        invariant
            it.seq() == found,
            views == track_views(found),
            keep == (|t: FaceTrackView| alive(t)),
            track_views(kept@) == views.take(it.index()).filter(keep),
    {
        let ghost k = it.index();
        let ghost before = kept@;
        proof {
            assert(views[k] == t@);
            assert(views.take(k + 1) =~= views.take(k).push(views[k]));
            views.take(k).lemma_filter_push(views[k], keep);
        }
        if t.missed_count <= MAX_MISSED {
            kept.push(t);
            assert(track_views(kept@) =~= track_views(before).push(t@));
        }
    }
    assert(views.take(views.len() as int) =~= views);
    *tracks = kept;
}

/// The faces to report of tracks.
fn faces_to_report(tracks: &Vec<FaceTrack>, min_consecutive: i32) -> (res: Vec<DetectedFace>)
    ensures
        face_views(res@) == reported_faces(track_views(tracks@), min_consecutive as int),
{
    let ghost views = track_views(tracks@);
    let ghost shown = |t: FaceTrackView| reported(t, min_consecutive as int);
    let ghost face = |t: FaceTrackView| t.face;
    let mut faces: Vec<DetectedFace> = Vec::new();
    assert(views.take(0).filter(shown) =~= Seq::<FaceTrackView>::empty());
    assert(face_views(faces@) =~= views.take(0).filter(shown).map_values(face));
    for k in 0..tracks.len()
        invariant
            views == track_views(tracks@),
            shown == (|t: FaceTrackView| reported(t, min_consecutive as int)),
            face == (|t: FaceTrackView| t.face),
            face_views(faces@) == views.take(k as int).filter(shown).map_values(face),
    {
        let t = &tracks[k];
        let ghost before = faces@;
        proof {
            assert(views[k as int] == t@);
            assert(views.take(k + 1) =~= views.take(k as int).push(views[k as int]));
            views.take(k as int).lemma_filter_push(views[k as int], shown);
        }
        if t.missed_count == 0 && t.streak >= min_consecutive {
            faces.push(t.face.clone());
            assert(face_views(faces@) =~= face_views(before).push(t@.face));
            assert(views.take(k + 1).filter(shown).map_values(face) =~= views.take(
                k as int,
            ).filter(shown).map_values(face).push(t@.face));
        }
    }
    assert(views.take(views.len() as int) =~= views);
    faces
}

/// Tracks in the course of an update.
spec fn matching(tracks: Seq<FaceTrack>, used: Seq<bool>) -> Matching {
    Matching { tracks: track_views(tracks), used }
}

/// Begins an update: every track is missed once more, and none has been given a detection.
fn begin_update(tracks: &mut Vec<FaceTrack>) -> (used: Vec<bool>)
    requires
        forall|i: int|
            0 <= i < old(tracks)@.len() ==> (#[trigger] old(tracks)@[i]).missed_count < i32::MAX,
    ensures
        used@.len() == final(tracks)@.len(),
        matching(final(tracks)@, used@) == fresh_matching(track_views(old(tracks)@)),
{
    let ghost start = tracks@;
    let mut used: Vec<bool> = Vec::new();
    let n: usize = tracks.len();
    for i in 0..n
        invariant
            n == start.len(),
            tracks@.len() == start.len(),
            used@.len() == i,
            forall|j: int| 0 <= j < start.len() ==> (#[trigger] start[j]).missed_count < i32::MAX,
            forall|j: int| 0 <= j < i ==> !#[trigger] used@[j],
            forall|j: int| 0 <= j < i ==> (#[trigger] tracks@[j])@ == aged(start[j]@),
            forall|j: int| i <= j < start.len() ==> #[trigger] tracks@[j] == start[j],
    {
        assert(tracks@[i as int] == start[i as int]);
        assert(start[i as int].missed_count < i32::MAX);
        tracks[i].missed_count = tracks[i].missed_count + 1;
        used.push(false);
    }
    let ghost fresh = fresh_matching(track_views(start));
    assert(track_views(tracks@) =~= fresh.tracks);
    assert(used@ =~= fresh.used);
    used
}

/// Gives a detection to its track, or begins a track with it.
fn give_away(tracks: &mut Vec<FaceTrack>, used: &mut Vec<bool>, cand: CandidateFace)
    requires
        old(used)@.len() == old(tracks)@.len(),
        matching(old(tracks)@, old(used)@).takes(cand@),
    ensures
        final(used)@.len() == final(tracks)@.len(),
        matching(final(tracks)@, final(used)@) == matching(old(tracks)@, old(used)@).assign(cand@),
{
    let ghost m = matching(tracks@, used@);
    let ghost seen = cand@;
    assert forall|i: int| 0 <= i < tracks@.len() && !used@[i] implies iou_in_range(
        cand.rect,
        (#[trigger] tracks@[i]).rect,
    ) by {
        assert(m.tracks[i].rect == tracks@[i].rect);
    }
    match find_best(&cand.rect, tracks, used) {
        Some(i) => {
            assert(m.tracks[i as int].streak == tracks@[i as int].streak);
            let streak: i32 = tracks[i].streak + 1;
            used.set(i, true);
            tracks.set(i, FaceTrack { face: cand.face, rect: cand.rect, streak, missed_count: 0 });
        },
        None => {
            tracks.push(FaceTrack { face: cand.face, rect: cand.rect, streak: 1, missed_count: 0 });
            used.push(true);
        },
    }
    assert(track_views(tracks@) =~= m.assign(seen).tracks);
    assert(used@ =~= m.assign(seen).used);
}

/// Takes the faces of a detection into the tracks; gives the faces to report: those of the tracks
/// that were seen in it and have been seen often enough.
pub fn update_tracks(
    tracks: &mut Vec<FaceTrack>,
    candidates: Vec<CandidateFace>,
    min_consecutive: i32,
) -> (res: Vec<DetectedFace>)
    requires
        update_in_range(track_views(old(tracks)@), candidate_views(candidates@)),
    ensures
        track_views(final(tracks)@) == tracks_after(
            track_views(old(tracks)@),
            candidate_views(candidates@),
        ),
        face_views(res@) == reported_faces(track_views(final(tracks)@), min_consecutive as int),
{
    let ghost start = track_views(tracks@);
    let ghost cands = candidates@;
    let ghost cv = candidate_views(cands);
    let ghost fresh = fresh_matching(start);
    assert forall|i: int| 0 <= i < tracks@.len() implies (#[trigger] tracks@[i]).missed_count
        < i32::MAX by {
        assert(start[i].missed_count < i32::MAX);
    }
    let mut used = begin_update(tracks);
    assert(cv.take(0) =~= Seq::<CandidateFaceView>::empty());
    for cand in it: candidates
        invariant
            it.seq() == cands,
            cv == candidate_views(cands),
            fresh == fresh_matching(start),
            update_in_range(start, cv),
            used@.len() == tracks@.len(),
            matching(tracks@, used@) == fresh.assign_all(cv.take(it.index())),
    {
        proof {
            let k = it.index();
            assert(cand == cands[k]);
            assert(cv[k] == cand@);
            assert(fresh.assign_all(cv.take(k)).takes(cv[k]));
            assert(cv.take(k + 1).drop_last() =~= cv.take(k));
        }
        give_away(tracks, &mut used, cand);
    }
    assert(cv.take(cv.len() as int) =~= cv);
    drop_lost(tracks);
    faces_to_report(tracks, min_consecutive)
}

/// Whether a detection is given away without overflow.
fn can_give_away(cand: &CandidateFace, tracks: &Vec<FaceTrack>, used: &Vec<bool>) -> (res: bool)
    requires
        used@.len() == tracks@.len(),
    ensures
        res == matching(tracks@, used@).takes(cand@),
{
    let ghost m = matching(tracks@, used@);
    for i in 0..tracks.len()
        invariant
            used@.len() == tracks@.len(),
            m == matching(tracks@, used@),
            forall|j: int|
                0 <= j < i && !used@[j] ==> iou_in_range(cand.rect, (#[trigger] tracks@[j]).rect),
    {
        if !used[i] && !is_iou_in_range(&cand.rect, &tracks[i].rect) {
            assert(!iou_in_range(cand@.rect, m.tracks[i as int].rect));
            return false;
        }
    }
    assert forall|i: int| 0 <= i < m.tracks.len() && !m.used[i] implies iou_in_range(
        cand@.rect,
        (#[trigger] m.tracks[i]).rect,
    ) by {
        assert(m.tracks[i].rect == tracks@[i].rect);
    }
    match find_best(&cand.rect, tracks, used) {
        Some(i) => tracks[i].streak < i32::MAX,
        None => true,
    }
}

/// Whether an update overflows nowhere.
pub fn is_update_in_range(tracks: &Vec<FaceTrack>, candidates: &Vec<CandidateFace>) -> (res: bool)
    ensures
        res == update_in_range(track_views(tracks@), candidate_views(candidates@)),
{
    let ghost start = track_views(tracks@);
    let ghost cv = candidate_views(candidates@);
    let ghost fresh = fresh_matching(start);
    let mut followed: Vec<FaceTrack> = Vec::new();
    for i in 0..tracks.len()
        invariant
            start == track_views(tracks@),
            track_views(followed@) =~= start.take(i as int),
            forall|j: int| 0 <= j < i ==> (#[trigger] start[j]).missed_count < i32::MAX,
    {
        if tracks[i].missed_count == i32::MAX {
            assert(start[i as int].missed_count == i32::MAX);
            return false;
        }
        let ghost before = followed@;
        followed.push(tracks[i].clone());
        assert(track_views(followed@) =~= track_views(before).push(start[i as int]));
    }
    assert(track_views(followed@) =~= start);
    assert forall|i: int| 0 <= i < followed@.len() implies (#[trigger] followed@[i]).missed_count
        < i32::MAX by {
        assert(track_views(followed@)[i].missed_count == followed@[i].missed_count);
    }
    let mut used = begin_update(&mut followed);
    assert(cv.take(0) =~= Seq::<CandidateFaceView>::empty());
    for k in 0..candidates.len()
        invariant
            start == track_views(tracks@),
            cv == candidate_views(candidates@),
            fresh == fresh_matching(start),
            forall|j: int| 0 <= j < start.len() ==> (#[trigger] start[j]).missed_count < i32::MAX,
            used@.len() == followed@.len(),
            matching(followed@, used@) == fresh.assign_all(cv.take(k as int)),
            forall|j: int|
                0 <= j < k ==> fresh.assign_all(#[trigger] cv.take(j)).takes(cv[j]),
    {
        proof {
            assert(cv[k as int] == candidates@[k as int]@);
            assert(cv.take(k + 1).drop_last() =~= cv.take(k as int));
        }
        if !can_give_away(&candidates[k], &followed, &used) {
            assert(!fresh.assign_all(cv.take(k as int)).takes(cv[k as int]));
            return false;
        }
        give_away(&mut followed, &mut used, candidates[k].clone());
    }
    true
}

/// The track was seen in the last detection.
pub open spec fn seen(t: FaceTrackView) -> bool {
    t.missed_count == 0
}

/// Tracks as every update leaves them: each seen at least once, and missed at most
/// [`MAX_MISSED`] times since.
pub open spec fn tracks_ok(tracks: Seq<FaceTrackView>) -> bool {
    forall|i: int|
        0 <= i < tracks.len() ==> 0 <= (#[trigger] tracks[i]).missed_count <= MAX_MISSED
            && tracks[i].streak >= 1
}

/// No track has been missed less than never.
pub open spec fn ages_ok(tracks: Seq<FaceTrackView>) -> bool {
    forall|i: int| 0 <= i < tracks.len() ==> (#[trigger] tracks[i]).missed_count >= 0
}

/// Replacing a track that was not seen by one that was makes one more of those.
proof fn lemma_one_more_seen(s: Seq<FaceTrackView>, i: int, v: FaceTrackView)
    requires
        0 <= i < s.len(),
        !seen(s[i]),
        seen(v),
    ensures
        s.update(i, v).filter(|t: FaceTrackView| seen(t)).len() == s.filter(
            |t: FaceTrackView| seen(t),
        ).len() + 1,
    decreases s.len(),
{
    let p = |t: FaceTrackView| seen(t);
    let front = s.drop_last();
    assert(s =~= front.push(s.last()));
    front.lemma_filter_push(s.last(), p);
    if i == s.len() - 1 {
        assert(s.update(i, v) =~= front.push(v));
        front.lemma_filter_push(v, p);
    } else {
        lemma_one_more_seen(front, i, v);
        assert(s.update(i, v) =~= front.update(i, v).push(s.last()));
        front.update(i, v).lemma_filter_push(s.last(), p);
    }
}

/// What is left of a filtered sequence passed the filter and stands in the sequence.
proof fn lemma_filtered(s: Seq<FaceTrackView>, p: spec_fn(FaceTrackView) -> bool, i: int)
    requires
        0 <= i < s.filter(p).len(),
    ensures
        p(s.filter(p)[i]),
        exists|k: int| 0 <= k < s.len() && #[trigger] s[k] == s.filter(p)[i],
{
    s.lemma_filter_pred(p, i);
    assert(s.filter(p).contains(s.filter(p)[i]));
    s.lemma_filter_contains_rev(p, s.filter(p)[i]);
}

/// What holds in the course of an update, when the candidates `c` have been given away.
spec fn in_order(m: Matching, c: Seq<CandidateFaceView>) -> bool {
    &&& m.used.len() == m.tracks.len()
    &&& m.tracks.filter(|t: FaceTrackView| seen(t)).len() == c.len()
    &&& forall|i: int|
        0 <= i < m.tracks.len() ==> {
            let t = #[trigger] m.tracks[i];
            &&& t.missed_count >= 0
            &&& m.used[i] <==> seen(t)
            &&& m.used[i] ==> exists|k: int| 0 <= k < c.len() && (#[trigger] c[k]).face == t.face
        }
}

proof fn lemma_best(m: Matching, rect: Rect, n: int, k: int) -> (b: int)
    requires
        0 <= k < n <= m.tracks.len(),
        m.open_to(rect, k),
        forall|i: int| #[trigger] m.open_to(rect, i) ==> !iou_of(rect, m.tracks[i].rect).nan(),
    ensures
        0 <= b < n,
        m.open_to(rect, b),
        forall|j: int| 0 <= j < n && #[trigger] m.open_to(rect, j) ==> {
            let mine = iou_of(rect, m.tracks[b].rect);
            let other = iou_of(rect, m.tracks[j].rect);
            !other.above(mine) && (j < b ==> mine.above(other))
        },
    decreases n,
{
    let last = n - 1;
    if exists|i: int| 0 <= i < last && m.open_to(rect, i) {
        let i = choose|i: int| 0 <= i < last && m.open_to(rect, i);
        let b = lemma_best(m, rect, last, i);
        if m.open_to(rect, last) && iou_of(rect, m.tracks[last].rect).above(
            iou_of(rect, m.tracks[b].rect),
        ) {
            last
        } else {
            b
        }
    } else {
        k
    }
}

/// A best track is open to the detection.
proof fn lemma_best_open(m: Matching, rect: Rect)
    requires
        m.best(rect) is Some,
    ensures
        m.is_best(rect, m.best(rect)->0),
{
    let k = choose|k: int| m.open_to(rect, k);
    let b = lemma_best(m, rect, m.tracks.len() as int, k);
    assert(m.is_best(rect, b));
}

proof fn lemma_assign_in_order(m: Matching, c: Seq<CandidateFaceView>, v: CandidateFaceView)
    requires
        in_order(m, c),
    ensures
        in_order(m.assign(v), c.push(v)),
{
    let p = |t: FaceTrackView| seen(t);
    let after = m.assign(v);
    let d = c.push(v);
    match m.best(v.rect) {
        Some(b) => {
            lemma_best_open(m, v.rect);
            assert(m.open_to(v.rect, b));
            lemma_one_more_seen(m.tracks, b, after.tracks[b]);
        },
        None => {
            m.tracks.lemma_filter_push(after.tracks.last(), p);
        },
    }
    assert forall|i: int| 0 <= i < after.tracks.len() implies {
        let t = #[trigger] after.tracks[i];
        &&& t.missed_count >= 0
        &&& after.used[i] <==> seen(t)
        &&& after.used[i] ==> exists|k: int| 0 <= k < d.len() && (#[trigger] d[k]).face == t.face
    } by {
        if i < m.tracks.len() && after.tracks[i] == m.tracks[i] && after.used[i] == m.used[i] {
            if m.used[i] {
                let k = choose|k: int|
                    0 <= k < c.len() && (#[trigger] c[k]).face == m.tracks[i].face;
                assert(d[k] == c[k]);
            }
        } else {
            assert(d[c.len() as int] == v);
        }
    }
}

proof fn lemma_assign_all_in_order(m: Matching, c: Seq<CandidateFaceView>)
    requires
        in_order(m, Seq::empty()),
    ensures
        in_order(m.assign_all(c), c),
    decreases c.len(),
{
    if c.len() == 0 {
        assert(c =~= Seq::<CandidateFaceView>::empty());
    } else {
        lemma_assign_all_in_order(m, c.drop_last());
        lemma_assign_in_order(m.assign_all(c.drop_last()), c.drop_last(), c.last());
        assert(c.drop_last().push(c.last()) =~= c);
    }
}

proof fn lemma_none_seen(s: Seq<FaceTrackView>)
    requires
        forall|i: int| 0 <= i < s.len() ==> !seen(#[trigger] s[i]),
    ensures
        s.filter(|t: FaceTrackView| seen(t)).len() == 0,
    decreases s.len(),
{
    let p = |t: FaceTrackView| seen(t);
    if s.len() > 0 {
        lemma_none_seen(s.drop_last());
        s.drop_last().lemma_filter_push(s.last(), p);
        assert(s.drop_last().push(s.last()) =~= s);
    } else {
        s.lemma_filter_len(p);
    }
}

proof fn lemma_fresh_in_order(tracks: Seq<FaceTrackView>)
    requires
        ages_ok(tracks),
    ensures
        in_order(fresh_matching(tracks), Seq::empty()),
{
    let m = fresh_matching(tracks);
    assert forall|i: int| 0 <= i < m.tracks.len() implies {
        let t = #[trigger] m.tracks[i];
        t.missed_count >= 1 && !m.used[i]
    } by {
        assert(m.tracks[i] == aged(tracks[i]));
    }
    lemma_none_seen(m.tracks);
}

/// Filtering with a weaker condition first changes nothing.
proof fn lemma_filter_filter(s: Seq<FaceTrackView>)
    ensures
        s.filter(|t: FaceTrackView| alive(t)).filter(|t: FaceTrackView| seen(t)) == s.filter(
            |t: FaceTrackView| seen(t),
        ),
    decreases s.len(),
{
    let a = |t: FaceTrackView| alive(t);
    let p = |t: FaceTrackView| seen(t);
    if s.len() == 0 {
        assert(s.filter(a) =~= s);
    } else {
        let front = s.drop_last();
        lemma_filter_filter(front);
        assert(front.push(s.last()) =~= s);
        front.lemma_filter_push(s.last(), a);
        front.lemma_filter_push(s.last(), p);
        front.filter(a).lemma_filter_push(s.last(), p);
    }
}

/// Tracks that were seen at least once stay so when detections are given away.
proof fn lemma_assigned_streaks(m: Matching, candidates: Seq<CandidateFaceView>)
    requires
        forall|i: int| 0 <= i < m.tracks.len() ==> (#[trigger] m.tracks[i]).streak >= 1,
    ensures
        forall|i: int|
            0 <= i < m.assign_all(candidates).tracks.len() ==> (#[trigger] m.assign_all(
                candidates,
            ).tracks[i]).streak >= 1,
    decreases candidates.len(),
{
    if candidates.len() > 0 {
        let c = candidates.last();
        lemma_assigned_streaks(m, candidates.drop_last());
        let before = m.assign_all(candidates.drop_last());
        let after = before.assign(c);
        assert forall|i: int| 0 <= i < after.tracks.len() implies (#[trigger] after.tracks[i]).streak
            >= 1 by {
            if before.best(c.rect) is Some {
                lemma_best_open(before, c.rect);
                assert(before.tracks[i].streak >= 1);
            } else if i < before.tracks.len() {
                assert(before.tracks[i].streak >= 1);
            }
        }
    }
}

/// An update leaves tracks that have been missed at most [`MAX_MISSED`] times.
pub proof fn law_misses_stay_bounded(
    tracks: Seq<FaceTrackView>,
    candidates: Seq<CandidateFaceView>,
    i: int,
)
    requires
        ages_ok(tracks),
        0 <= i < tracks_after(tracks, candidates).len(),
    ensures
        0 <= tracks_after(tracks, candidates)[i].missed_count <= MAX_MISSED,
{
    lemma_fresh_in_order(tracks);
    let m = fresh_matching(tracks).assign_all(candidates);
    lemma_assign_all_in_order(fresh_matching(tracks), candidates);
    lemma_filtered(m.tracks, |t: FaceTrackView| alive(t), i);
}

/// An update leaves tracks that were seen at least once and missed at most [`MAX_MISSED`] times.
pub proof fn law_tracks_stay_ok(tracks: Seq<FaceTrackView>, candidates: Seq<CandidateFaceView>)
    requires
        tracks_ok(tracks),
    ensures
        tracks_ok(tracks_after(tracks, candidates)),
{
    let fresh = fresh_matching(tracks);
    assert forall|i: int| 0 <= i < fresh.tracks.len() implies (#[trigger] fresh.tracks[i]).streak
        >= 1 by {
        assert(fresh.tracks[i] == aged(tracks[i]));
    }
    lemma_assigned_streaks(fresh, candidates);
    let m = fresh.assign_all(candidates);
    let p = |t: FaceTrackView| alive(t);
    let kept = m.tracks.filter(p);
    assert forall|i: int| 0 <= i < kept.len() implies 0 <= (#[trigger] kept[i]).missed_count
        <= MAX_MISSED && kept[i].streak >= 1 by {
        law_misses_stay_bounded(tracks, candidates, i);
        lemma_filtered(m.tracks, p, i);
    }
}

/// The track `i` has just been seen, with the face and at the place of the detection.
pub open spec fn shows(tracks: Seq<FaceTrackView>, i: int, c: CandidateFaceView) -> bool {
    &&& 0 <= i < tracks.len()
    &&& seen(tracks[i])
    &&& tracks[i].face == c.face
    &&& tracks[i].rect == c.rect
}

/// `at` pairs detections and tracks, one to one: the detection `k` is shown by the track `at[k]`, no
/// track shows two detections, and every track that has just been seen shows one.
pub open spec fn pairs_up(
    tracks: Seq<FaceTrackView>,
    candidates: Seq<CandidateFaceView>,
    at: Seq<int>,
) -> bool {
    &&& at.len() == candidates.len()
    &&& forall|k: int| 0 <= k < at.len() ==> shows(tracks, #[trigger] at[k], candidates[k])
    &&& at.no_duplicates()
    &&& forall|i: int| 0 <= i < tracks.len() && seen(#[trigger] tracks[i]) ==> at.contains(i)
}

proof fn lemma_assign_pairs(
    m: Matching,
    c: Seq<CandidateFaceView>,
    v: CandidateFaceView,
    at: Seq<int>,
) -> (res: Seq<int>)
    requires
        in_order(m, c),
        pairs_up(m.tracks, c, at),
    ensures
        pairs_up(m.assign(v).tracks, c.push(v), res),
{
    let after = m.assign(v).tracks;
    let new: int = match m.best(v.rect) {
        Some(b) => b,
        None => m.tracks.len() as int,
    };
    if m.best(v.rect) is Some {
        lemma_best_open(m, v.rect);
        assert(m.open_to(v.rect, new));
        assert(!m.used[new]);
        assert(!seen(m.tracks[new]));
    }
    let res = at.push(new);
    assert forall|k: int| 0 <= k < res.len() implies shows(
        after,
        #[trigger] res[k],
        c.push(v)[k],
    ) by {
        if k < at.len() {
            assert(shows(m.tracks, at[k], c[k]));
            assert(at[k] != new);
        }
    }
    assert forall|i: int, j: int| 0 <= i < res.len() && 0 <= j < res.len() && i != j implies res[i]
        != res[j] by {
        if i < at.len() {
            assert(shows(m.tracks, at[i], c[i]));
        }
        if j < at.len() {
            assert(shows(m.tracks, at[j], c[j]));
        }
    }
    assert forall|i: int| 0 <= i < after.len() && seen(#[trigger] after[i]) implies res.contains(
        i,
    ) by {
        if i == new {
            assert(res[at.len() as int] == i);
        } else {
            assert(after[i] == m.tracks[i]);
            assert(at.contains(i));
            let k = choose|k: int| 0 <= k < at.len() && at[k] == i;
            assert(res[k] == i);
        }
    }
    res
}

proof fn lemma_assign_all_pairs(m: Matching, c: Seq<CandidateFaceView>) -> (res: Seq<int>)
    requires
        in_order(m, Seq::empty()),
        forall|i: int| 0 <= i < m.tracks.len() ==> !seen(#[trigger] m.tracks[i]),
    ensures
        pairs_up(m.assign_all(c).tracks, c, res),
    decreases c.len(),
{
    if c.len() == 0 {
        let none = Seq::<int>::empty();
        assert(pairs_up(m.tracks, c, none));
        none
    } else {
        let front = c.drop_last();
        let at = lemma_assign_all_pairs(m, front);
        lemma_assign_all_in_order(m, front);
        let res = lemma_assign_pairs(m.assign_all(front), front, c.last(), at);
        assert(front.push(c.last()) =~= c);
        res
    }
}

/// The tracks that are still followed.
spec fn followed(s: Seq<FaceTrackView>) -> Seq<FaceTrackView> {
    s.filter(|t: FaceTrackView| alive(t))
}

/// How many tracks in front of `i` are still followed.
spec fn rank(s: Seq<FaceTrackView>, i: int) -> int {
    followed(s.take(i)).len() as int
}

/// Some track that is still followed has `k` such tracks in front of it.
spec fn is_rank(s: Seq<FaceTrackView>, k: int) -> bool {
    exists|i: int| 0 <= i < s.len() && alive(#[trigger] s[i]) && rank(s, i) == k
}

/// Dropping tracks keeps the others, each at its rank.
proof fn lemma_rank(s: Seq<FaceTrackView>)
    ensures
        forall|i: int|
            0 <= i < s.len() && alive(#[trigger] s[i]) ==> 0 <= rank(s, i) < followed(s).len()
                && followed(s)[rank(s, i)] == s[i],
        forall|i: int, j: int|
            0 <= i < j < s.len() && alive(#[trigger] s[i]) && alive(#[trigger] s[j]) ==> rank(s, i)
                < rank(s, j),
        forall|k: int| 0 <= k < followed(s).len() ==> #[trigger] is_rank(s, k),
    decreases s.len(),
{
    let p = |t: FaceTrackView| alive(t);
    let kept = followed(s);
    if s.len() == 0 {
        assert(kept =~= s);
    } else {
        let front = s.drop_last();
        let last = s.last();
        lemma_rank(front);
        assert(s =~= front.push(last));
        front.lemma_filter_push(last, p);
        let f = followed(front);
        assert(s.take(s.len() - 1) =~= front);
        assert forall|i: int| 0 <= i < front.len() implies #[trigger] rank(s, i) == rank(
            front,
            i,
        ) by {
            assert(s.take(i) =~= front.take(i));
        }
        assert forall|i: int| 0 <= i < s.len() && alive(#[trigger] s[i]) implies 0 <= rank(s, i)
            < kept.len() && kept[rank(s, i)] == s[i] by {
            if i < front.len() {
                assert(front[i] == s[i]);
                assert(rank(s, i) == rank(front, i));
            }
        }
        assert forall|i: int, j: int|
            0 <= i < j < s.len() && alive(#[trigger] s[i]) && alive(#[trigger] s[j]) implies rank(
            s,
            i,
        ) < rank(s, j) by {
            assert(front[i] == s[i]);
            assert(rank(s, i) == rank(front, i));
            if j < front.len() {
                assert(front[j] == s[j]);
                assert(rank(s, j) == rank(front, j));
            }
        }
        assert forall|k: int| 0 <= k < kept.len() implies #[trigger] is_rank(s, k) by {
            if k < f.len() {
                assert(is_rank(front, k));
                let i = choose|i: int|
                    0 <= i < front.len() && alive(#[trigger] front[i]) && rank(front, i) == k;
                assert(alive(s[i]) && rank(s, i) == k);
            } else {
                assert(alive(s[s.len() - 1]));
                assert(rank(s, s.len() - 1) == k);
            }
        }
    }
}

/// The tracks that have just been seen and the detections belong together one to one, each track with
/// the face and the place of its detection.
pub proof fn law_one_track_per_detection(
    tracks: Seq<FaceTrackView>,
    candidates: Seq<CandidateFaceView>,
)
    requires
        ages_ok(tracks),
    ensures
        exists|at: Seq<int>| pairs_up(tracks_after(tracks, candidates), candidates, at),
        tracks_after(tracks, candidates).filter(|t: FaceTrackView| seen(t)).len()
            == candidates.len(),
{
    let fresh = fresh_matching(tracks);
    lemma_fresh_in_order(tracks);
    lemma_assign_all_in_order(fresh, candidates);
    let all = fresh.assign_all(candidates).tracks;
    let kept = tracks_after(tracks, candidates);
    lemma_filter_filter(all);
    let at = lemma_assign_all_pairs(fresh, candidates);
    lemma_rank(all);
    let res = at.map_values(|i: int| rank(all, i));
    assert forall|k: int| 0 <= k < res.len() implies shows(
        kept,
        #[trigger] res[k],
        candidates[k],
    ) by {
        assert(shows(all, at[k], candidates[k]));
        assert(alive(all[at[k]]));
    }
    assert forall|i: int, j: int| 0 <= i < res.len() && 0 <= j < res.len() && i != j implies res[i]
        != res[j] by {
        assert(shows(all, at[i], candidates[i]));
        assert(shows(all, at[j], candidates[j]));
        assert(at[i] != at[j]);
        assert(alive(all[at[i]]) && alive(all[at[j]]));
    }
    assert forall|k: int| 0 <= k < kept.len() && seen(#[trigger] kept[k]) implies res.contains(
        k,
    ) by {
        assert(is_rank(all, k));
        let i = choose|i: int| 0 <= i < all.len() && alive(#[trigger] all[i]) && rank(all, i) == k;
        assert(kept[k] == all[i]);
        assert(at.contains(i));
        let j = choose|j: int| 0 <= j < at.len() && at[j] == i;
        assert(res[j] == k);
    }
    assert(pairs_up(kept, candidates, res));
}

/// No more faces are reported than were detected.
pub proof fn law_no_more_faces_than_detections(
    tracks: Seq<FaceTrackView>,
    candidates: Seq<CandidateFaceView>,
    min_consecutive: int,
)
    requires
        ages_ok(tracks),
    ensures
        reported_faces(tracks_after(tracks, candidates), min_consecutive).len()
            <= candidates.len(),
{
    law_one_track_per_detection(tracks, candidates);
    lemma_reported_at_most_seen(tracks_after(tracks, candidates), min_consecutive);
}

proof fn lemma_reported_at_most_seen(tracks: Seq<FaceTrackView>, min_consecutive: int)
    ensures
        tracks.filter(|t: FaceTrackView| reported(t, min_consecutive)).len() <= tracks.filter(
            |t: FaceTrackView| seen(t),
        ).len(),
    decreases tracks.len(),
{
    let r = |t: FaceTrackView| reported(t, min_consecutive);
    let p = |t: FaceTrackView| seen(t);
    if tracks.len() == 0 {
        assert(tracks.filter(r) =~= tracks);
    } else {
        let front = tracks.drop_last();
        lemma_reported_at_most_seen(front, min_consecutive);
        assert(front.push(tracks.last()) =~= tracks);
        front.lemma_filter_push(tracks.last(), r);
        front.lemma_filter_push(tracks.last(), p);
    }
}

/// Only faces of the last detection are reported.
pub proof fn law_reported_faces_were_detected(
    tracks: Seq<FaceTrackView>,
    candidates: Seq<CandidateFaceView>,
    min_consecutive: int,
    i: int,
)
    requires
        ages_ok(tracks),
        0 <= i < reported_faces(tracks_after(tracks, candidates), min_consecutive).len(),
    ensures
        exists|k: int|
            0 <= k < candidates.len() && (#[trigger] candidates[k]).face == reported_faces(
                tracks_after(tracks, candidates),
                min_consecutive,
            )[i],
{
    lemma_fresh_in_order(tracks);
    let m = fresh_matching(tracks).assign_all(candidates);
    lemma_assign_all_in_order(fresh_matching(tracks), candidates);
    let a = |t: FaceTrackView| alive(t);
    let r = |t: FaceTrackView| reported(t, min_consecutive);
    let kept = m.tracks.filter(a);
    let t = kept.filter(r)[i];
    lemma_filtered(kept, r, i);
    let k = choose|k: int| 0 <= k < kept.len() && kept[k] == t;
    lemma_filtered(m.tracks, a, k);
    let j = choose|j: int| 0 <= j < m.tracks.len() && m.tracks[j] == t;
    assert(m.used[j]);
}

/// Where one sighting is enough, every detection is reported.
pub proof fn law_all_detections_are_reported_at_once(
    tracks: Seq<FaceTrackView>,
    candidates: Seq<CandidateFaceView>,
    min_consecutive: int,
)
    requires
        tracks_ok(tracks),
        min_consecutive <= 1,
    ensures
        reported_faces(tracks_after(tracks, candidates), min_consecutive).len()
            == candidates.len(),
{
    law_tracks_stay_ok(tracks, candidates);
    law_one_track_per_detection(tracks, candidates);
    let after = tracks_after(tracks, candidates);
    lemma_reported_is_seen(after, min_consecutive);
}

proof fn lemma_reported_is_seen(tracks: Seq<FaceTrackView>, min_consecutive: int)
    requires
        tracks_ok(tracks),
        min_consecutive <= 1,
    ensures
        tracks.filter(|t: FaceTrackView| reported(t, min_consecutive)) == tracks.filter(
            |t: FaceTrackView| seen(t),
        ),
    decreases tracks.len(),
{
    let r = |t: FaceTrackView| reported(t, min_consecutive);
    let p = |t: FaceTrackView| seen(t);
    if tracks.len() == 0 {
        assert(tracks.filter(r) =~= tracks.filter(p));
    } else {
        let front = tracks.drop_last();
        assert forall|i: int| 0 <= i < front.len() implies 0 <= (#[trigger] front[i]).missed_count
            <= MAX_MISSED && front[i].streak >= 1 by {
            assert(front[i] == tracks[i]);
        }
        lemma_reported_is_seen(front, min_consecutive);
        assert(front.push(tracks.last()) =~= tracks);
        front.lemma_filter_push(tracks.last(), r);
        front.lemma_filter_push(tracks.last(), p);
    }
}

/// A detection without faces reports none; it ages every track and drops those that it makes too
/// old.
pub proof fn law_nothing_detected(tracks: Seq<FaceTrackView>, min_consecutive: int)
    requires
        ages_ok(tracks),
    ensures
        tracks_after(tracks, Seq::empty()) == tracks.map_values(
            |t: FaceTrackView| aged(t),
        ).filter(|t: FaceTrackView| alive(t)),
        reported_faces(tracks_after(tracks, Seq::empty()), min_consecutive).len() == 0,
{
    let none = Seq::<CandidateFaceView>::empty();
    if reported_faces(tracks_after(tracks, none), min_consecutive).len() > 0 {
        law_reported_faces_were_detected(tracks, none, min_consecutive, 0);
    }
}

/// A track is gone after three detections in a row without a face, and none of them reports any.
pub proof fn law_lost_after_three_misses(tracks: Seq<FaceTrackView>, min_consecutive: int)
    requires
        ages_ok(tracks),
    ensures
        ({
            let one = tracks_after(tracks, Seq::empty());
            let two = tracks_after(one, Seq::empty());
            &&& reported_faces(one, min_consecutive).len() == 0
            &&& reported_faces(two, min_consecutive).len() == 0
            &&& reported_faces(tracks_after(two, Seq::empty()), min_consecutive).len() == 0
        }),
        tracks_after(
            tracks_after(tracks_after(tracks, Seq::empty()), Seq::empty()),
            Seq::empty(),
        ).len() == 0,
{
    let none = Seq::<CandidateFaceView>::empty();
    let one = tracks_after(tracks, none);
    let two = tracks_after(one, none);
    let three = tracks_after(two, none);
    lemma_missed_at_least(tracks, 0);
    lemma_missed_at_least(one, 1);
    lemma_missed_at_least(two, 2);
    law_nothing_detected(tracks, min_consecutive);
    law_nothing_detected(one, min_consecutive);
    law_nothing_detected(two, min_consecutive);
    if three.len() > 0 {
        assert(three[0].missed_count >= 3);
        law_misses_stay_bounded(two, none, 0);
    }
}

proof fn lemma_missed_at_least(tracks: Seq<FaceTrackView>, n: int)
    requires
        forall|i: int| 0 <= i < tracks.len() ==> (#[trigger] tracks[i]).missed_count >= n,
    ensures
        ({
            let after = tracks_after(tracks, Seq::empty());
            forall|i: int| 0 <= i < after.len() ==> (#[trigger] after[i]).missed_count >= n + 1
        }),
{
    let older = tracks.map_values(|t: FaceTrackView| aged(t));
    let a = |t: FaceTrackView| alive(t);
    let after = tracks_after(tracks, Seq::empty());
    assert(after == older.filter(a));
    assert forall|i: int| 0 <= i < after.len() implies (#[trigger] after[i]).missed_count >= n
        + 1 by {
        lemma_filtered(older, a, i);
        let j = choose|j: int| 0 <= j < older.len() && older[j] == after[i];
        assert(older[j] == aged(tracks[j]));
    }
}

/// A lone face that is seen again where it was, or near enough, stays one track, seen once more.
pub proof fn law_lone_face_is_followed(t: FaceTrackView, c: CandidateFaceView)
    requires
        overlap_enough(c.rect, t.rect),
    ensures
        tracks_after(seq![t], seq![c]) == seq![
            FaceTrackView { face: c.face, rect: c.rect, streak: t.streak + 1, missed_count: 0 },
        ],
{
    let m = fresh_matching(seq![t]);
    assert(m.tracks =~= seq![aged(t)]);
    assert(m.is_best(c.rect, 0)) by {
        assert(m.open_to(c.rect, 0));
    }
    lemma_best_is(m, c.rect, 0);
    let v = FaceTrackView { face: c.face, rect: c.rect, streak: t.streak + 1, missed_count: 0 };
    reveal_with_fuel(Matching::assign_all, 2);
    assert(seq![c].drop_last() =~= Seq::<CandidateFaceView>::empty());
    assert(m.assign_all(seq![c]) == m.assign(c));
    assert(m.assign(c).tracks =~= seq![v]);
    let a = |t: FaceTrackView| alive(t);
    assert(seq![v] =~= Seq::<FaceTrackView>::empty().push(v));
    Seq::<FaceTrackView>::empty().lemma_filter_push(v, a);
    assert(Seq::<FaceTrackView>::empty().filter(a) =~= Seq::empty());
}

/// A track stands where it stood, or where a face was detected: what holds of all these places holds
/// of the places of the tracks behind the detection.
pub proof fn law_tracks_stand_where_faces_were(
    tracks: Seq<FaceTrackView>,
    candidates: Seq<CandidateFaceView>,
    place: spec_fn(Rect) -> bool,
)
    requires
        ages_ok(tracks),
        forall|i: int| 0 <= i < tracks.len() ==> place((#[trigger] tracks[i]).rect),
        forall|i: int| 0 <= i < candidates.len() ==> place((#[trigger] candidates[i]).rect),
    ensures
        forall|i: int|
            0 <= i < tracks_after(tracks, candidates).len() ==> place(
                (#[trigger] tracks_after(tracks, candidates)[i]).rect,
            ),
{
    lemma_fresh_in_order(tracks);
    let m = fresh_matching(tracks);
    assert forall|i: int| 0 <= i < m.tracks.len() implies place((#[trigger] m.tracks[i]).rect) by {
        assert(m.tracks[i].rect == tracks[i].rect);
    }
    lemma_assigned_places(m, candidates, place);
    let all = m.assign_all(candidates).tracks;
    let p = |t: FaceTrackView| alive(t);
    assert forall|i: int| 0 <= i < all.filter(p).len() implies place(
        (#[trigger] all.filter(p)[i]).rect,
    ) by {
        lemma_filtered(all, p, i);
    }
}

proof fn lemma_assigned_places(
    m: Matching,
    candidates: Seq<CandidateFaceView>,
    place: spec_fn(Rect) -> bool,
)
    requires
        in_order(m, Seq::empty()),
        forall|i: int| 0 <= i < m.tracks.len() ==> place((#[trigger] m.tracks[i]).rect),
        forall|i: int| 0 <= i < candidates.len() ==> place((#[trigger] candidates[i]).rect),
    ensures
        forall|i: int|
            0 <= i < m.assign_all(candidates).tracks.len() ==> place(
                (#[trigger] m.assign_all(candidates).tracks[i]).rect,
            ),
    decreases candidates.len(),
{
    if candidates.len() > 0 {
        let front = candidates.drop_last();
        let c = candidates.last();
        assert(place(candidates[candidates.len() - 1].rect));
        assert forall|i: int| 0 <= i < front.len() implies place((#[trigger] front[i]).rect) by {
            assert(place(candidates[i].rect));
        }
        lemma_assigned_places(m, front, place);
        let before = m.assign_all(front);
        let after = before.assign(c);
        assert forall|i: int| 0 <= i < after.tracks.len() implies place(
            (#[trigger] after.tracks[i]).rect,
        ) by {
            if before.best(c.rect) is Some {
                lemma_best_open(before, c.rect);
                let b = before.best(c.rect)->0;
                if i != b {
                    assert(place(before.tracks[i].rect));
                }
            } else if i < before.tracks.len() {
                assert(place(before.tracks[i].rect));
            }
        }
    }
}

/// The track `t` is the one that stands at index `i` of `m`.
spec fn stands_in(t: FaceTrackView, m: Matching, i: int) -> bool {
    i < m.tracks.len() && t == m.tracks[i]
}

/// The tracks of `after` that have not been given a detection are those of `m`.
spec fn free_tracks_kept(m: Matching, after: Matching) -> bool {
    &&& after.used.len() == after.tracks.len()
    &&& forall|i: int|
        0 <= i < after.tracks.len() && !after.used[i] ==> stands_in(#[trigger] after.tracks[i], m, i)
}

/// A track that has not been given a detection is as it was at the beginning.
proof fn lemma_free_tracks(m: Matching, candidates: Seq<CandidateFaceView>)
    requires
        m.used.len() == m.tracks.len(),
    ensures
        free_tracks_kept(m, m.assign_all(candidates)),
    decreases candidates.len(),
{
    if candidates.len() > 0 {
        let before = m.assign_all(candidates.drop_last());
        let c = candidates.last();
        lemma_free_tracks(m, candidates.drop_last());
        let after = before.assign(c);
        if before.best(c.rect) is Some {
            lemma_best_open(before, c.rect);
            assert(before.open_to(c.rect, before.best(c.rect)->0));
        }
        assert forall|i: int| 0 <= i < after.tracks.len() && !after.used[i] implies stands_in(
            #[trigger] after.tracks[i],
            m,
            i,
        ) by {
            assert(after.tracks[i] == before.tracks[i]);
        }
    }
}

/// An update overflows nowhere where no count of a track is at its end and every detection can be
/// compared with every track.
pub proof fn law_update_is_in_range(
    tracks: Seq<FaceTrackView>,
    candidates: Seq<CandidateFaceView>,
)
    requires
        forall|i: int|
            0 <= i < tracks.len() ==> (#[trigger] tracks[i]).missed_count < i32::MAX
                && tracks[i].streak < i32::MAX,
        forall|c: int, i: int|
            0 <= c < candidates.len() && 0 <= i < tracks.len() ==> iou_in_range(
                (#[trigger] candidates[c]).rect,
                (#[trigger] tracks[i]).rect,
            ),
    ensures
        update_in_range(tracks, candidates),
{
    let fresh = fresh_matching(tracks);
    assert forall|k: int| 0 <= k < candidates.len() implies fresh.assign_all(
        #[trigger] candidates.take(k),
    ).takes(candidates[k]) by {
        let c = candidates[k];
        let m = fresh.assign_all(candidates.take(k));
        lemma_free_tracks(fresh, candidates.take(k));
        assert forall|i: int| 0 <= i < m.tracks.len() && !m.used[i] implies iou_in_range(
            c.rect,
            (#[trigger] m.tracks[i]).rect,
        ) && m.tracks[i].streak < i32::MAX by {
            assert(m.tracks[i] == aged(tracks[i]));
        }
        if m.best(c.rect) is Some {
            lemma_best_open(m, c.rect);
            assert(m.open_to(c.rect, m.best(c.rect)->0));
        }
    }
}

/// `faces` are the faces of the tracks at the places `at`: of exactly those that were seen in the last
/// detection, and in at least so many detections, in the order of the tracks.
pub open spec fn are_faces_at(
    tracks: Seq<FaceTrackView>,
    min_consecutive: int,
    faces: Seq<DetectedFaceView>,
    at: Seq<int>,
) -> bool {
    &&& at.len() == faces.len()
    &&& forall|i: int|
        0 <= i < at.len() ==> 0 <= (#[trigger] at[i]) < tracks.len() && faces[i]
            == tracks[at[i]].face && tracks[at[i]].missed_count == 0 && tracks[at[i]].streak
            >= min_consecutive
    &&& forall|i: int, j: int| 0 <= i < j < at.len() ==> (#[trigger] at[i]) < (#[trigger] at[j])
    &&& forall|k: int|
        0 <= k < tracks.len() && (#[trigger] tracks[k]).missed_count == 0 && tracks[k].streak
            >= min_consecutive ==> at.contains(k)
}

/// The faces that are reported are those of the tracks that were seen in the last detection and in at
/// least so many detections: each of them, whatever its count is, and no other.
pub proof fn law_faces_seen_often_enough_are_reported(
    tracks: Seq<FaceTrackView>,
    min_consecutive: int,
)
    ensures
        exists|at: Seq<int>|
            are_faces_at(tracks, min_consecutive, reported_faces(tracks, min_consecutive), at),
        forall|k: int|
            0 <= k < tracks.len() && (#[trigger] tracks[k]).missed_count == 0 && tracks[k].streak
                >= min_consecutive ==> reported_faces(tracks, min_consecutive).contains(
                tracks[k].face,
            ),
{
    let shown = |t: FaceTrackView| reported(t, min_consecutive);
    let wanted = |t: FaceTrackView| t.missed_count == 0 && t.streak >= min_consecutive;
    let at = lemma_filter_selects(tracks, shown, wanted);
    let kept = tracks.filter(shown);
    let faces = reported_faces(tracks, min_consecutive);
    assert forall|i: int| 0 <= i < at.len() implies 0 <= (#[trigger] at[i]) < tracks.len() && faces[i]
        == tracks[at[i]].face && tracks[at[i]].missed_count == 0 && tracks[at[i]].streak
        >= min_consecutive by {
        assert(kept[i] == tracks[at[i]]);
        assert(wanted(tracks[at[i]]));
    }
    assert forall|k: int|
        0 <= k < tracks.len() && (#[trigger] tracks[k]).missed_count == 0 && tracks[k].streak
            >= min_consecutive implies at.contains(k) && faces.contains(tracks[k].face) by {
        assert(wanted(tracks[k]));
        let i = choose|i: int| 0 <= i < at.len() && at[i] == k;
        assert(faces[i] == tracks[k].face);
    }
    assert(are_faces_at(tracks, min_consecutive, faces, at));
}

/// A lone face that is seen again, where it shares more than a tenth of the joint area, is reported
/// exactly where it has then been seen often enough; so a face that was reported is reported as long
/// as it stays in view.
pub proof fn law_face_in_view_stays_reported(
    t: FaceTrackView,
    c: CandidateFaceView,
    min_consecutive: int,
)
    requires
        iou_in_range(c.rect, t.rect),
        overlap(c.rect, t.rect),
        10 * shared_area(c.rect, t.rect) > joint_area(c.rect, t.rect),
    ensures
        t.streak + 1 >= min_consecutive ==> reported_faces(
            tracks_after(seq![t], seq![c]),
            min_consecutive,
        ) == seq![c.face],
        t.streak + 1 < min_consecutive ==> reported_faces(
            tracks_after(seq![t], seq![c]),
            min_consecutive,
        ) == Seq::<DetectedFaceView>::empty(),
        reported_faces(seq![t], min_consecutive).len() == 1 ==> reported_faces(
            tracks_after(seq![t], seq![c]),
            min_consecutive,
        ) == seq![c.face],
{
    law_overlap_enough_is_one_tenth(c.rect, t.rect);
    law_lone_face_is_followed(t, c);
    let after = tracks_after(seq![t], seq![c]);
    law_faces_seen_often_enough_are_reported(after, min_consecutive);
    law_faces_seen_often_enough_are_reported(seq![t], min_consecutive);
    let faces = reported_faces(after, min_consecutive);
    let at = choose|at: Seq<int>| are_faces_at(after, min_consecutive, faces, at);
    assert(after[0].missed_count == 0 && after[0].streak == t.streak + 1);
    if at.len() > 1 {
        assert(at[0] < at[1]);
    }
    if t.streak + 1 >= min_consecutive {
        assert(at.contains(0));
        assert(faces[0] == c.face);
        assert(faces =~= seq![c.face]);
    } else {
        if at.len() > 0 {
            assert(at[0] == 0);
        }
        assert(faces =~= Seq::<DetectedFaceView>::empty());
    }
    let before = reported_faces(seq![t], min_consecutive);
    let was = choose|was: Seq<int>| are_faces_at(seq![t], min_consecutive, before, was);
    if before.len() == 1 {
        assert(seq![t][was[0]].streak >= min_consecutive);
    }
}

/// Dropping lost tracks changes nothing where none is lost.
proof fn lemma_all_followed(tracks: Seq<FaceTrackView>)
    requires
        forall|i: int| 0 <= i < tracks.len() ==> alive(#[trigger] tracks[i]),
    ensures
        followed(tracks) == tracks,
    decreases tracks.len(),
{
    let a = |t: FaceTrackView| alive(t);
    if tracks.len() == 0 {
        assert(tracks.filter(a) =~= tracks);
    } else {
        let front = tracks.drop_last();
        assert forall|i: int| 0 <= i < front.len() implies alive(#[trigger] front[i]) by {
            assert(front[i] == tracks[i]);
        }
        lemma_all_followed(front);
        assert(front.push(tracks.last()) =~= tracks);
        front.lemma_filter_push(tracks.last(), a);
        assert(alive(tracks[tracks.len() - 1]));
    }
}

/// The track, with one detection more in which it was not seen.
pub open spec fn is_missed_once_more(after: FaceTrackView, before: FaceTrackView) -> bool {
    &&& after.face == before.face
    &&& after.rect == before.rect
    &&& after.streak == before.streak
    &&& after.missed_count == before.missed_count + 1
}

/// A detection is given to the track with which it shares the greatest part of the joint area, if it
/// is more than a tenth, and to the first of equal ones: that track stands where the face is now and
/// has been seen once more; all others have been missed once more.
pub proof fn law_detection_goes_to_the_closest_track(
    tracks: Seq<FaceTrackView>,
    c: CandidateFaceView,
    b: int,
)
    requires
        0 <= b < tracks.len(),
        forall|j: int|
            0 <= j < tracks.len() ==> (#[trigger] tracks[j]).missed_count <= 1 && iou_in_range(
                c.rect,
                tracks[j].rect,
            ),
        overlap(c.rect, tracks[b].rect),
        10 * shared_area(c.rect, tracks[b].rect) > joint_area(c.rect, tracks[b].rect),
        forall|j: int|
            0 <= j < tracks.len() && overlap(c.rect, (#[trigger] tracks[j]).rect) ==> {
                let mine = shared_area(c.rect, tracks[b].rect) * joint_area(c.rect, tracks[j].rect);
                let other = shared_area(c.rect, tracks[j].rect) * joint_area(
                    c.rect,
                    tracks[b].rect,
                );
                &&& other <= mine
                &&& j < b ==> other < mine
                &&& joint_area(c.rect, tracks[b].rect) * joint_area(c.rect, tracks[j].rect)
                    <= 0x8_0000_0000_0000
            },
    ensures
        tracks_after(tracks, seq![c]).len() == tracks.len(),
        tracks_after(tracks, seq![c])[b] == (FaceTrackView {
            face: c.face,
            rect: c.rect,
            streak: tracks[b].streak + 1,
            missed_count: 0,
        }),
        forall|j: int|
            0 <= j < tracks.len() && j != b ==> is_missed_once_more(
                #[trigger] tracks_after(tracks, seq![c])[j],
                tracks[j],
            ),
{
    let m = fresh_matching(tracks);
    law_overlap_enough_is_one_tenth(c.rect, tracks[b].rect);
    assert(m.tracks[b].rect == tracks[b].rect);
    assert(m.open_to(c.rect, b));
    assert forall|j: int| #[trigger] m.open_to(c.rect, j) implies {
        let mine = iou_of(c.rect, m.tracks[b].rect);
        let other = iou_of(c.rect, m.tracks[j].rect);
        !other.above(mine) && (j < b ==> mine.above(other))
    } by {
        assert(m.tracks[j].rect == tracks[j].rect);
        law_overlap_enough_is_one_tenth(c.rect, tracks[j].rect);
        let jb = joint_area(c.rect, tracks[b].rect);
        let jj = joint_area(c.rect, tracks[j].rect);
        assert(jb * jj == jj * jb) by (nonlinear_arith);
        law_iou_order_is_exact(c.rect, tracks[b].rect, c.rect, tracks[j].rect);
        law_iou_order_is_exact(c.rect, tracks[j].rect, c.rect, tracks[b].rect);
    }
    assert(m.is_best(c.rect, b));
    lemma_best_is(m, c.rect, b);
    lemma_one_detection(tracks, c);
    let all = m.assign(c).tracks;
    assert forall|i: int| 0 <= i < all.len() implies alive(#[trigger] all[i]) by {
        if i != b {
            assert(all[i] == aged(tracks[i]));
        }
    }
    lemma_all_followed(all);
}

/// Giving one detection away.
proof fn lemma_one_detection(tracks: Seq<FaceTrackView>, c: CandidateFaceView)
    ensures
        tracks_after(tracks, seq![c]) == followed(fresh_matching(tracks).assign(c).tracks),
{
    let m = fresh_matching(tracks);
    reveal_with_fuel(Matching::assign_all, 2);
    assert(seq![c].drop_last() =~= Seq::<CandidateFaceView>::empty());
    assert(m.assign_all(seq![c]) == m.assign(c));
}

/// A face that shares at most a tenth of the joint area with every track begins a track: it has been
/// seen once; all others have been missed once more.
pub proof fn law_new_face_begins_a_track(tracks: Seq<FaceTrackView>, c: CandidateFaceView)
    requires
        forall|j: int|
            0 <= j < tracks.len() ==> (#[trigger] tracks[j]).missed_count <= 1 && iou_in_range(
                c.rect,
                tracks[j].rect,
            ) && (overlap(c.rect, tracks[j].rect) ==> 10 * shared_area(c.rect, tracks[j].rect)
                <= joint_area(c.rect, tracks[j].rect)),
    ensures
        tracks_after(tracks, seq![c]).len() == tracks.len() + 1,
        tracks_after(tracks, seq![c]).last() == (FaceTrackView {
            face: c.face,
            rect: c.rect,
            streak: 1,
            missed_count: 0,
        }),
        forall|j: int|
            0 <= j < tracks.len() ==> is_missed_once_more(
                #[trigger] tracks_after(tracks, seq![c])[j],
                tracks[j],
            ),
{
    let m = fresh_matching(tracks);
    assert forall|i: int| !#[trigger] m.open_to(c.rect, i) by {
        if 0 <= i < tracks.len() {
            assert(m.tracks[i].rect == tracks[i].rect);
            law_overlap_enough_is_one_tenth(c.rect, tracks[i].rect);
        }
    }
    lemma_one_detection(tracks, c);
    let all = m.assign(c).tracks;
    assert forall|i: int| 0 <= i < all.len() implies alive(#[trigger] all[i]) by {
        if i < tracks.len() {
            assert(all[i] == aged(tracks[i]));
        }
    }
    lemma_all_followed(all);
}

/// The face and the place of the track are those of one of the detections.
pub open spec fn shows_one_of(t: FaceTrackView, candidates: Seq<CandidateFaceView>) -> bool {
    t.missed_count == 0 && exists|k: int|
        0 <= k < candidates.len() && (#[trigger] candidates[k]).face == t.face && candidates[k].rect
            == t.rect
}

/// The track `after` is the track `before` behind a detection: seen once more, with one of the faces
/// that were detected, or missed once more.
pub open spec fn is_continued(
    after: FaceTrackView,
    before: FaceTrackView,
    candidates: Seq<CandidateFaceView>,
) -> bool {
    ||| shows_one_of(after, candidates) && after.streak == before.streak + 1
    ||| is_missed_once_more(after, before)
}

/// What has become of the tracks when detections have been given away.
spec fn accounted(tracks: Seq<FaceTrackView>, c: Seq<CandidateFaceView>, m: Matching) -> bool {
    &&& m.tracks.len() >= tracks.len()
    &&& m.used.len() == m.tracks.len()
    &&& forall|i: int|
        0 <= i < tracks.len() ==> is_continued(#[trigger] m.tracks[i], tracks[i], c)
    &&& forall|i: int|
        0 <= i < tracks.len() && !m.used[i] ==> is_missed_once_more(
            #[trigger] m.tracks[i],
            tracks[i],
        )
    &&& forall|i: int|
        tracks.len() <= i < m.tracks.len() ==> begins(#[trigger] m.tracks[i], m.used[i], c)
}

/// The track has begun with one of the detections.
spec fn begins(t: FaceTrackView, used: bool, c: Seq<CandidateFaceView>) -> bool {
    used && shows_one_of(t, c) && t.streak == 1
}

proof fn lemma_shows_one_more(
    t: FaceTrackView,
    c: Seq<CandidateFaceView>,
    v: CandidateFaceView,
)
    ensures
        shows_one_of(t, c) ==> shows_one_of(t, c.push(v)),
        t.missed_count == 0 && t.face == v.face && t.rect == v.rect ==> shows_one_of(t, c.push(v)),
{
    let d = c.push(v);
    assert(d[c.len() as int] == v);
    if shows_one_of(t, c) {
        let k = choose|k: int|
            0 <= k < c.len() && (#[trigger] c[k]).face == t.face && c[k].rect == t.rect;
        assert(d[k] == c[k]);
    }
}

proof fn lemma_accounted(tracks: Seq<FaceTrackView>, c: Seq<CandidateFaceView>)
    ensures
        accounted(tracks, c, fresh_matching(tracks).assign_all(c)),
    decreases c.len(),
{
    let fresh = fresh_matching(tracks);
    if c.len() == 0 {
        assert(fresh.assign_all(c) == fresh);
        assert forall|i: int| 0 <= i < tracks.len() implies is_missed_once_more(
            #[trigger] fresh.tracks[i],
            tracks[i],
        ) by {
            assert(fresh.tracks[i] == aged(tracks[i]));
        }
    } else {
        let front = c.drop_last();
        let v = c.last();
        lemma_accounted(tracks, front);
        let m = fresh.assign_all(front);
        let after = m.assign(v);
        assert(front.push(v) =~= c);
        if m.best(v.rect) is Some {
            lemma_best_open(m, v.rect);
            assert(m.open_to(v.rect, m.best(v.rect)->0));
        }
        assert forall|i: int| 0 <= i < tracks.len() implies is_continued(
            #[trigger] after.tracks[i],
            tracks[i],
            c,
        ) by {
            lemma_shows_one_more(after.tracks[i], front, v);
            assert(is_continued(m.tracks[i], tracks[i], front));
            if after.tracks[i] != m.tracks[i] {
                assert(!m.used[i]);
                assert(is_missed_once_more(m.tracks[i], tracks[i]));
            }
        }
        assert forall|i: int| 0 <= i < tracks.len() && !after.used[i] implies is_missed_once_more(
            #[trigger] after.tracks[i],
            tracks[i],
        ) by {
            assert(is_missed_once_more(m.tracks[i], tracks[i]));
        }
        assert forall|i: int| tracks.len() <= i < after.tracks.len() implies begins(
            #[trigger] after.tracks[i],
            after.used[i],
            c,
        ) by {
            lemma_shows_one_more(after.tracks[i], front, v);
            if i < m.tracks.len() {
                assert(begins(m.tracks[i], m.used[i], front));
            }
        }
    }
}

/// Every track behind a detection is one of those before it, seen or missed once more, or begins with
/// one of the faces that were detected; none of them has been missed more than twice.
pub proof fn law_where_tracks_come_from(
    tracks: Seq<FaceTrackView>,
    candidates: Seq<CandidateFaceView>,
    i: int,
)
    requires
        0 <= i < tracks_after(tracks, candidates).len(),
    ensures
        ({
            let t = tracks_after(tracks, candidates)[i];
            &&& t.missed_count <= 2
            &&& {
                ||| shows_one_of(t, candidates) && t.streak == 1
                ||| exists|k: int|
                    0 <= k < tracks.len() && is_continued(t, #[trigger] tracks[k], candidates)
            }
        }),
{
    lemma_accounted(tracks, candidates);
    let all = fresh_matching(tracks).assign_all(candidates).tracks;
    lemma_filtered(all, |t: FaceTrackView| alive(t), i);
    let t = tracks_after(tracks, candidates)[i];
    let k = choose|k: int| 0 <= k < all.len() && #[trigger] all[k] == t;
    if k < tracks.len() {
        assert(is_continued(t, tracks[k], candidates));
    } else {
        let m = fresh_matching(tracks).assign_all(candidates);
        assert(begins(m.tracks[k], m.used[k], candidates));
    }
}

/// No track is given up before it has been missed three times: one that has been missed at most once
/// before is still there behind a detection, seen or missed once more.
pub proof fn law_no_track_is_given_up_early(
    tracks: Seq<FaceTrackView>,
    candidates: Seq<CandidateFaceView>,
    k: int,
)
    requires
        0 <= k < tracks.len(),
        tracks[k].missed_count <= 1,
    ensures
        exists|i: int|
            0 <= i < tracks_after(tracks, candidates).len() && is_continued(
                #[trigger] tracks_after(tracks, candidates)[i],
                tracks[k],
                candidates,
            ),
{
    lemma_accounted(tracks, candidates);
    let all = fresh_matching(tracks).assign_all(candidates).tracks;
    let kept = tracks_after(tracks, candidates);
    assert(is_continued(all[k], tracks[k], candidates));
    assert(alive(all[k]));
    lemma_rank(all);
    assert(kept == followed(all));
    assert(kept[rank(all, k)] == all[k]);
    assert(is_continued(kept[rank(all, k)], tracks[k], candidates));
}

/// A detection without faces leaves exactly the tracks that have then been missed at most twice, in
/// their order, each missed once more and otherwise as it was.
pub proof fn law_tracks_wait_for_two_detections(tracks: Seq<FaceTrackView>, i: int)
    requires
        0 <= i < tracks.len(),
    ensures
        tracks_after(seq![tracks[i]], Seq::empty()) == if tracks[i].missed_count <= 1 {
            seq![FaceTrackView { missed_count: tracks[i].missed_count + 1, ..tracks[i] }]
        } else {
            Seq::empty()
        },
        tracks_after(tracks, Seq::empty()) == tracks_after(tracks.take(i), Seq::empty())
            + tracks_after(tracks.skip(i), Seq::empty()),
{
    let none = Seq::<CandidateFaceView>::empty();
    let a = |t: FaceTrackView| alive(t);
    let age = |t: FaceTrackView| aged(t);
    let t = tracks[i];
    let one = seq![t].map_values(age);
    assert(one =~= Seq::<FaceTrackView>::empty().push(aged(t)));
    Seq::<FaceTrackView>::empty().lemma_filter_push(aged(t), a);
    assert(Seq::<FaceTrackView>::empty().filter(a) =~= Seq::<FaceTrackView>::empty());
    assert(fresh_matching(seq![t]).assign_all(none).tracks == one);
    assert(tracks.map_values(age) =~= tracks.take(i).map_values(age) + tracks.skip(i).map_values(
        age,
    ));
    Seq::filter_distributes_over_add(
        tracks.take(i).map_values(age),
        tracks.skip(i).map_values(age),
        a,
    );
}

/// The detections are taken in turn: each is given away as the ones before it have left the tracks, so
/// later ones do not change what the earlier ones are given to.
pub proof fn law_detections_are_taken_in_turn(
    m: Matching,
    candidates: Seq<CandidateFaceView>,
    c: CandidateFaceView,
)
    ensures
        m.assign_all(candidates.push(c)) == m.assign_all(candidates).assign(c),
        m.assign_all(Seq::empty()) == m,
        m.assign_all(seq![c]) == m.assign(c),
{
    assert(candidates.push(c).drop_last() =~= candidates);
    reveal_with_fuel(Matching::assign_all, 2);
    assert(seq![c].drop_last() =~= Seq::<CandidateFaceView>::empty());
}

/// The tracks behind as many detections of one face that stands still, at first without any track.
pub open spec fn tracks_after_sightings(c: CandidateFaceView, sightings: nat) -> Seq<FaceTrackView>
    decreases sightings,
{
    if sightings == 0 {
        Seq::empty()
    } else {
        tracks_after(tracks_after_sightings(c, (sightings - 1) as nat), seq![c])
    }
}

/// A face that stands still is one track, and is reported in every detection from the one on in which
/// it has been seen often enough.
pub proof fn law_standing_face_is_reported_from_then_on(
    c: CandidateFaceView,
    sightings: nat,
    min_consecutive: int,
)
    requires
        sightings >= 1,
        iou_in_range(c.rect, c.rect),
        c.rect.width > 0,
        c.rect.height > 0,
    ensures
        tracks_after_sightings(c, sightings) == seq![
            FaceTrackView {
                face: c.face,
                rect: c.rect,
                streak: sightings as int,
                missed_count: 0,
            },
        ],
        sightings >= min_consecutive ==> reported_faces(
            tracks_after_sightings(c, sightings),
            min_consecutive,
        ) == seq![c.face],
        sightings < min_consecutive ==> reported_faces(
            tracks_after_sightings(c, sightings),
            min_consecutive,
        ) == Seq::<DetectedFaceView>::empty(),
    decreases sightings,
{
    let after = tracks_after_sightings(c, sightings);
    let t = FaceTrackView {
        face: c.face,
        rect: c.rect,
        streak: sightings as int,
        missed_count: 0,
    };
    if sightings == 1 {
        assert(tracks_after_sightings(c, 0) == Seq::<FaceTrackView>::empty());
        law_new_face_begins_a_track(Seq::empty(), c);
        assert(after =~= seq![t]);
    } else {
        let before = FaceTrackView { streak: sightings - 1, ..t };
        law_standing_face_is_reported_from_then_on(c, (sightings - 1) as nat, min_consecutive);
        lemma_own_overlap(c.rect);
        law_overlap_enough_is_one_tenth(c.rect, c.rect);
        law_lone_face_is_followed(before, c);
        assert(after =~= seq![t]);
    }
    law_faces_seen_often_enough_are_reported(after, min_consecutive);
    let faces = reported_faces(after, min_consecutive);
    let at = choose|at: Seq<int>| are_faces_at(after, min_consecutive, faces, at);
    if at.len() > 1 {
        assert(at[0] < at[1]);
    }
    if sightings >= min_consecutive {
        assert(after[0].missed_count == 0 && after[0].streak == sightings);
        assert(at.contains(0));
        assert(faces =~= seq![c.face]);
    } else {
        if at.len() > 0 {
            assert(after[at[0]].streak >= min_consecutive);
        }
        assert(faces =~= Seq::<DetectedFaceView>::empty());
    }
}

/// A rectangle that covers a point shares all of its area with itself.
proof fn lemma_own_overlap(r: Rect)
    requires
        r.width > 0,
        r.height > 0,
    ensures
        overlap(r, r),
        shared_area(r, r) == joint_area(r, r),
        shared_area(r, r) > 0,
{
    assert(r.width * r.height > 0) by (nonlinear_arith)
        requires
            r.width > 0,
            r.height > 0,
    ;
}

/// What is said of tracks, candidates and faces is what they hold, one by one.
pub proof fn law_views_of_tracks(
    tracks: Seq<FaceTrack>,
    candidates: Seq<CandidateFace>,
    faces: Seq<DetectedFace>,
    i: int,
)
    ensures
        track_views(tracks).len() == tracks.len(),
        candidate_views(candidates).len() == candidates.len(),
        face_views(faces).len() == faces.len(),
        0 <= i < tracks.len() ==> {
            let t = track_views(tracks)[i];
            &&& t.face == tracks[i].face@
            &&& t.rect == tracks[i].rect
            &&& t.streak == tracks[i].streak
            &&& t.missed_count == tracks[i].missed_count
        },
        0 <= i < candidates.len() ==> candidate_views(candidates)[i].face == candidates[i].face@
            && candidate_views(candidates)[i].rect == candidates[i].rect,
        0 <= i < faces.len() ==> {
            let f = face_views(faces)[i];
            &&& f.name == faces[i].name@
            &&& f.confidence == faces[i].confidence
            &&& f.left == faces[i].left
            &&& f.top == faces[i].top
            &&& f.right == faces[i].right
            &&& f.bottom == faces[i].bottom
        },
{
}

/// In the course of an update a detection is given to the closest one of the tracks that have none yet,
/// if it shares more than a tenth of the joint area with it, and to the first of equal ones; tracks that
/// have a detection do not count, and no other track changes.
pub proof fn law_each_detection_goes_to_the_closest_free_track(
    m: Matching,
    c: CandidateFaceView,
    b: int,
)
    requires
        m.used.len() == m.tracks.len(),
        0 <= b < m.tracks.len(),
        !m.used[b],
        forall|j: int|
            0 <= j < m.tracks.len() && !m.used[j] ==> iou_in_range(
                c.rect,
                (#[trigger] m.tracks[j]).rect,
            ),
        overlap(c.rect, m.tracks[b].rect),
        10 * shared_area(c.rect, m.tracks[b].rect) > joint_area(c.rect, m.tracks[b].rect),
        forall|j: int|
            0 <= j < m.tracks.len() && !m.used[j] && overlap(c.rect, (#[trigger] m.tracks[j]).rect)
                ==> {
                let mine = shared_area(c.rect, m.tracks[b].rect) * joint_area(
                    c.rect,
                    m.tracks[j].rect,
                );
                let other = shared_area(c.rect, m.tracks[j].rect) * joint_area(
                    c.rect,
                    m.tracks[b].rect,
                );
                &&& other <= mine
                &&& j < b ==> other < mine
                &&& joint_area(c.rect, m.tracks[b].rect) * joint_area(c.rect, m.tracks[j].rect)
                    <= 0x8_0000_0000_0000
            },
    ensures
        m.assign(c).tracks.len() == m.tracks.len(),
        m.assign(c).used.len() == m.tracks.len(),
        m.assign(c).used[b],
        m.assign(c).tracks[b].face == c.face,
        m.assign(c).tracks[b].rect == c.rect,
        m.assign(c).tracks[b].streak == m.tracks[b].streak + 1,
        m.assign(c).tracks[b].missed_count == 0,
        forall|j: int|
            0 <= j < m.tracks.len() && j != b ==> (#[trigger] m.assign(c).tracks[j]) == m.tracks[j]
                && m.assign(c).used[j] == m.used[j],
{
    law_overlap_enough_is_one_tenth(c.rect, m.tracks[b].rect);
    assert(m.open_to(c.rect, b));
    assert forall|j: int| #[trigger] m.open_to(c.rect, j) implies {
        let mine = iou_of(c.rect, m.tracks[b].rect);
        let other = iou_of(c.rect, m.tracks[j].rect);
        !other.above(mine) && (j < b ==> mine.above(other))
    } by {
        law_overlap_enough_is_one_tenth(c.rect, m.tracks[j].rect);
        let jb = joint_area(c.rect, m.tracks[b].rect);
        let jj = joint_area(c.rect, m.tracks[j].rect);
        assert(jb * jj == jj * jb) by (nonlinear_arith);
        law_iou_order_is_exact(c.rect, m.tracks[b].rect, c.rect, m.tracks[j].rect);
        law_iou_order_is_exact(c.rect, m.tracks[j].rect, c.rect, m.tracks[b].rect);
    }
    assert(m.is_best(c.rect, b));
    lemma_best_is(m, c.rect, b);
}

/// In the course of an update a detection that shares at most a tenth of the joint area with every track
/// that has none yet begins a track of its own, which has one then; no other track changes.
pub proof fn law_other_detections_begin_tracks(m: Matching, c: CandidateFaceView)
    requires
        m.used.len() == m.tracks.len(),
        forall|j: int|
            0 <= j < m.tracks.len() && !m.used[j] ==> iou_in_range(
                c.rect,
                (#[trigger] m.tracks[j]).rect,
            ) && (overlap(c.rect, m.tracks[j].rect) ==> 10 * shared_area(c.rect, m.tracks[j].rect)
                <= joint_area(c.rect, m.tracks[j].rect)),
    ensures
        m.assign(c).tracks == m.tracks.push(
            FaceTrackView { face: c.face, rect: c.rect, streak: 1, missed_count: 0 },
        ),
        m.assign(c).used == m.used.push(true),
{
    assert forall|i: int| !#[trigger] m.open_to(c.rect, i) by {
        if 0 <= i < m.tracks.len() && !m.used[i] {
            assert(iou_in_range(c.rect, m.tracks[i].rect));
            law_overlap_enough_is_one_tenth(c.rect, m.tracks[i].rect);
        }
    }
}

} // verus!
