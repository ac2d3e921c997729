//! The face recognition service: its state, which frames it takes, and what it reports.
//!
//! Frames are queued, and a worker takes them out one by one. Of the frames that come while the
//! service is ready, every n-th one is examined, never two at a time. The models are loaded in the
//! background, never twice at a time.

use std::collections::VecDeque;

use vstd::prelude::*;

use crate::binary64::Binary64;
use crate::decimal::{signed_decimal, signed_text};
use crate::geometry::{
    fits_i32, intersection_in_range, iou_in_range, is_plausible_face_rect,
    law_plausible_face_lies_in_the_frame, max_of, min_of, plausible_face, plausible_in_range, Rect,
};
use crate::ordering::{is_selection, lemma_filter_map_makes, lemma_filter_selects};
use crate::text::joined;
use crate::tracking::{
    candidate_views, face_views, is_update_in_range, law_all_detections_are_reported_at_once,
    law_faces_seen_often_enough_are_reported, law_one_track_per_detection,
    law_reported_faces_were_detected, law_tracks_stand_where_faces_were, law_tracks_stay_ok,
    law_update_is_in_range, pairs_up, reported_faces, shows, track_views, tracks_after, tracks_ok, update_in_range, update_tracks, CandidateFace,
    CandidateFaceView, DetectedFace, DetectedFaceView, FaceTrack, FaceTrackView,
};

verus! {

/// So many frames wait at most.
pub const QUEUE_LIMIT: usize = 4;

/// An image has at most this many points: OpenCV decodes no larger one, unless its environment
/// (`OPENCV_IO_MAX_IMAGE_PIXELS`) allows more.
pub const MAX_IMAGE_AREA: i64 = 0x4000_0000;

/// The faces of a detection.
#[derive(Debug)]
pub struct FaceDetectionResult {
    /// When, in milliseconds since the epoch.
    pub updated_at: i64,
    pub frame_index: i64,
    pub broadcast_frame_seq: u64,
    pub image_width: i32,
    pub image_height: i32,
    pub faces: Vec<DetectedFace>,
}

/// What a [`FaceDetectionResult`] says.
#[verifier::ext_equal]
pub struct FaceDetectionResultView {
    pub updated_at: i64,
    pub frame_index: i64,
    pub broadcast_frame_seq: u64,
    pub image_width: i32,
    pub image_height: i32,
    pub faces: Seq<DetectedFaceView>,
}

impl View for FaceDetectionResult {
    type V = FaceDetectionResultView;

    open spec fn view(&self) -> FaceDetectionResultView {
        FaceDetectionResultView {
            updated_at: self.updated_at,
            frame_index: self.frame_index,
            broadcast_frame_seq: self.broadcast_frame_seq,
            image_width: self.image_width,
            image_height: self.image_height,
            faces: face_views(self.faces@),
        }
    }
}

/// The result before any detection.
pub open spec fn no_result() -> FaceDetectionResultView {
    FaceDetectionResultView {
        updated_at: 0,
        frame_index: 0,
        broadcast_frame_seq: 0,
        image_width: 0,
        image_height: 0,
        faces: Seq::empty(),
    }
}

impl Default for FaceDetectionResult {
    fn default() -> (res: FaceDetectionResult)
        ensures
            res@ == no_result(),
    {
        let res = FaceDetectionResult {
            updated_at: 0,
            frame_index: 0,
            broadcast_frame_seq: 0,
            image_width: 0,
            image_height: 0,
            faces: Vec::new(),
        };
        assert(face_views(res.faces@) =~= Seq::<DetectedFaceView>::empty());
        res
    }
}

impl Clone for FaceDetectionResult {
    fn clone(&self) -> (res: FaceDetectionResult)
        ensures
            res@ == self@,
    {
        let mut faces: Vec<DetectedFace> = Vec::new();
        for i in 0..self.faces.len()
            invariant
                face_views(faces@) =~= face_views(self.faces@).take(i as int),
        {
            let ghost before = faces@;
            faces.push(self.faces[i].clone());
            assert(face_views(faces@) =~= face_views(before).push(self.faces@[i as int]@));
        }
        assert(face_views(faces@) =~= face_views(self.faces@));
        FaceDetectionResult {
            updated_at: self.updated_at,
            frame_index: self.frame_index,
            broadcast_frame_seq: self.broadcast_frame_seq,
            image_width: self.image_width,
            image_height: self.image_height,
            faces,
        }
    }
}

/// How the service stands.
#[derive(Debug)]
pub struct FaceStatus {
    pub enabled: bool,
    pub available: bool,
    pub initializing: bool,
    pub backend: String,
    pub message: String,
    pub known_faces_count: i32,
    pub detect_every_n_frames: i32,
    pub match_threshold: Binary64,
    pub max_faces: i32,
    pub result: FaceDetectionResult,
}

/// What a [`FaceStatus`] says.
#[verifier::ext_equal]
pub struct FaceStatusView {
    pub enabled: bool,
    pub available: bool,
    pub initializing: bool,
    pub backend: Seq<char>,
    pub message: Seq<char>,
    pub known_faces_count: i32,
    pub detect_every_n_frames: i32,
    pub match_threshold: Binary64,
    pub max_faces: i32,
    pub result: FaceDetectionResultView,
}

impl View for FaceStatus {
    type V = FaceStatusView;

    open spec fn view(&self) -> FaceStatusView {
        FaceStatusView {
            enabled: self.enabled,
            available: self.available,
            initializing: self.initializing,
            backend: self.backend@,
            message: self.message@,
            known_faces_count: self.known_faces_count,
            detect_every_n_frames: self.detect_every_n_frames,
            match_threshold: self.match_threshold,
            max_faces: self.max_faces,
            result: self.result@,
        }
    }
}

/// A frame that waits to be examined.
#[derive(Debug)]
pub struct FrameJob {
    pub jpeg: Vec<u8>,
    pub frame_seq: u64,
}

/// What a [`FrameJob`] holds.
#[verifier::ext_equal]
pub struct FrameJobView {
    pub jpeg: Seq<u8>,
    pub frame_seq: u64,
}

impl View for FrameJob {
    type V = FrameJobView;

    open spec fn view(&self) -> FrameJobView {
        FrameJobView { jpeg: self.jpeg@, frame_seq: self.frame_seq }
    }
}

/// The views of jobs.
pub open spec fn job_views(s: Seq<FrameJob>) -> Seq<FrameJobView> {
    s.map_values(|j: FrameJob| j@)
}

/// A rectangle that was examined: who was recognized there and how surely; nobody where no face
/// could be cut out.
#[derive(Debug)]
pub struct ExaminedFace {
    pub rect: Rect,
    pub identity: Option<(String, Binary64)>,
}

/// What an [`ExaminedFace`] says.
#[verifier::ext_equal]
pub struct ExaminedFaceView {
    pub rect: Rect,
    pub identity: Option<(Seq<char>, Binary64)>,
}

impl View for ExaminedFace {
    type V = ExaminedFaceView;

    open spec fn view(&self) -> ExaminedFaceView {
        ExaminedFaceView {
            rect: self.rect,
            identity: match self.identity {
                Some(i) => Some((i.0@, i.1)),
                None => None,
            },
        }
    }
}

/// The views of examined rectangles.
pub open spec fn examined_views(s: Seq<ExaminedFace>) -> Seq<ExaminedFaceView> {
    s.map_values(|e: ExaminedFace| e@)
}

/// The box of a face in an image: the rectangle, as far as it lies in the image.
pub open spec fn boxed_face(
    name: Seq<char>,
    confidence: Binary64,
    rect: Rect,
    width: i32,
    height: i32,
) -> DetectedFaceView {
    DetectedFaceView {
        name,
        confidence,
        left: max_of(rect.x as int, 0) as i32,
        top: max_of(rect.y as int, 0) as i32,
        right: min_of(rect.right(), width - 1) as i32,
        bottom: min_of(rect.bottom(), height - 1) as i32,
    }
}

/// The face that was recognized in a rectangle.
pub open spec fn candidate_of(e: ExaminedFaceView, width: i32, height: i32) -> Option<
    CandidateFaceView,
> {
    match e.identity {
        Some((name, confidence)) => Some(
            CandidateFaceView {
                face: boxed_face(name, confidence, e.rect, width, height),
                rect: e.rect,
            },
        ),
        None => None,
    }
}

/// The faces that were recognized in an image.
pub open spec fn candidates_of(examined: Seq<ExaminedFaceView>, width: i32, height: i32) -> Seq<
    CandidateFaceView,
> {
    examined.filter_map(|e: ExaminedFaceView| candidate_of(e, width, height))
}

/// The face recognition service.
#[derive(Debug)]
pub struct FaceService {
    pub enabled: bool,
    pub available: bool,
    pub initializing: bool,
    pub message: String,
    pub known_faces_count: i32,
    pub detect_every_n_frames: i32,
    pub match_threshold: Binary64,
    pub max_faces: i32,
    pub min_consecutive_frames: i32,
    pub last_result: FaceDetectionResult,
    pub tracks: Vec<FaceTrack>,
    pub frame_counter: i64,
    pub process_in_flight: bool,
    pub known_faces_dir: String,
    pub cascade_path_override: String,
    pub queue: VecDeque<FrameJob>,
}

/// The state of a [`FaceService`].
#[verifier::ext_equal]
pub struct FaceServiceView {
    pub enabled: bool,
    pub available: bool,
    pub initializing: bool,
    pub message: Seq<char>,
    pub known_faces_count: i32,
    pub detect_every_n_frames: i32,
    pub match_threshold: Binary64,
    pub max_faces: i32,
    pub min_consecutive_frames: i32,
    pub last_result: FaceDetectionResultView,
    pub tracks: Seq<FaceTrackView>,
    pub frame_counter: int,
    pub process_in_flight: bool,
    pub known_faces_dir: Seq<char>,
    pub cascade_path_override: Seq<char>,
    pub queue: Seq<FrameJobView>,
}

impl View for FaceService {
    type V = FaceServiceView;

    open spec fn view(&self) -> FaceServiceView {
        FaceServiceView {
            enabled: self.enabled,
            available: self.available,
            initializing: self.initializing,
            message: self.message@,
            known_faces_count: self.known_faces_count,
            detect_every_n_frames: self.detect_every_n_frames,
            match_threshold: self.match_threshold,
            max_faces: self.max_faces,
            min_consecutive_frames: self.min_consecutive_frames,
            last_result: self.last_result@,
            tracks: track_views(self.tracks@),
            frame_counter: self.frame_counter as int,
            process_in_flight: self.process_in_flight,
            known_faces_dir: self.known_faces_dir@,
            cascade_path_override: self.cascade_path_override@,
            queue: job_views(self.queue@),
        }
    }
}

/// The rectangle is one of an image: it does not begin left of it or above it, and it has no more
/// points than an image can have.
pub open spec fn in_some_image(r: Rect) -> bool {
    &&& r.x >= 0
    &&& r.y >= 0
    &&& r.width > 0
    &&& r.height > 0
    &&& fits_i32(r.right())
    &&& fits_i32(r.bottom())
    &&& r.area() < MAX_IMAGE_AREA
}

/// All tracks stand in images.
pub open spec fn tracks_in_images(tracks: Seq<FaceTrackView>) -> bool {
    forall|i: int| 0 <= i < tracks.len() ==> in_some_image((#[trigger] tracks[i]).rect)
}

/// The message of a service that is ready.
pub open spec fn ready_message(known_faces_count: i32) -> Seq<char> {
    "ready ("@ + signed_decimal(known_faces_count as int) + " known face sample(s))"@
}

fn ready_text(known_faces_count: i32) -> (res: String)
    ensures
        res@ == ready_message(known_faces_count),
{
    joined(
        joined("ready (", signed_text(known_faces_count).as_str()).as_str(),
        " known face sample(s))",
    )
}

impl FaceServiceView {
    /// What every operation keeps.
    pub open spec fn wf(self) -> bool {
        &&& self.detect_every_n_frames >= 1
        &&& self.min_consecutive_frames >= 1
        &&& self.frame_counter >= 0
        &&& !(self.available && self.initializing)
        &&& self.queue.len() <= QUEUE_LIMIT
        &&& tracks_ok(self.tracks)
    }

    /// The faces that were recognized in an image are taken into the tracks without overflow.
    pub open spec fn detection_in_range(
        self,
        examined: Seq<ExaminedFaceView>,
        width: i32,
        height: i32,
    ) -> bool {
        update_in_range(self.tracks, candidates_of(examined, width, height))
    }

    /// The service examines frames, and none is being examined.
    pub open spec fn ready(self) -> bool {
        self.enabled && self.available && !self.initializing && !self.process_in_flight
    }

    /// The state behind a frame that a worker has taken out, before it is examined. While the
    /// service is ready, frames are counted, and each whose number is a multiple of n is examined.
    pub open spec fn admission(self) -> (bool, FaceServiceView) {
        if !self.ready() {
            (false, self)
        } else {
            let counter = self.frame_counter + 1;
            let due = counter % (self.detect_every_n_frames as int) == 0;
            (due, FaceServiceView { frame_counter: counter, process_in_flight: due, ..self })
        }
    }

    /// How the service stands.
    pub open spec fn status(self) -> FaceStatusView {
        FaceStatusView {
            enabled: self.enabled,
            available: self.available,
            initializing: self.initializing,
            backend: "opencv-haar-template"@,
            message: self.message,
            known_faces_count: self.known_faces_count,
            detect_every_n_frames: self.detect_every_n_frames,
            match_threshold: self.match_threshold,
            max_faces: self.max_faces,
            result: self.last_result,
        }
    }

    /// The state behind a request to enable or disable the service.
    pub open spec fn switched(self, enabled: bool) -> FaceServiceView {
        FaceServiceView {
            enabled,
            message: if !enabled {
                "disabled"@
            } else if self.available {
                ready_message(self.known_faces_count)
            } else if !self.initializing {
                "initializing"@
            } else {
                self.message
            },
            last_result: if enabled {
                self.last_result
            } else {
                no_result()
            },
            ..self
        }
    }

    /// The models have to be loaded when the service is switched so: it was off and is on now, and
    /// they are neither loaded nor being loaded.
    pub open spec fn switch_loads(self, enabled: bool) -> bool {
        !self.enabled && enabled && !self.available && !self.initializing
    }

    /// The state when the models are being loaded.
    pub open spec fn loading(self) -> FaceServiceView {
        FaceServiceView {
            initializing: true,
            available: false,
            message: "loading OpenCV classifier"@,
            ..self
        }
    }

    /// The state when the models have been loaded, with so many samples.
    pub open spec fn loaded(self, samples: usize) -> FaceServiceView {
        FaceServiceView {
            initializing: false,
            available: true,
            known_faces_count: samples as i32,
            tracks: Seq::empty(),
            message: if self.enabled {
                ready_message(samples as i32)
            } else {
                "disabled"@
            },
            ..self
        }
    }

    /// The state when the models could not be loaded.
    pub open spec fn load_failed(self, reason: Seq<char>) -> FaceServiceView {
        FaceServiceView {
            initializing: false,
            available: false,
            message: "initialization failed: "@ + reason,
            ..self
        }
    }

    /// The state behind a detection.
    pub open spec fn detected(
        self,
        examined: Seq<ExaminedFaceView>,
        width: i32,
        height: i32,
        frame_seq: u64,
        now_ms: i64,
    ) -> FaceServiceView {
        let tracks = tracks_after(self.tracks, candidates_of(examined, width, height));
        FaceServiceView {
            tracks,
            last_result: FaceDetectionResultView {
                updated_at: now_ms,
                frame_index: self.frame_counter as i64,
                broadcast_frame_seq: frame_seq,
                image_width: width,
                image_height: height,
                faces: reported_faces(tracks, self.min_consecutive_frames as int),
            },
            ..self
        }
    }
}

/// The rectangles that a detector found, up to the number of faces that is asked for, where one is.
pub open spec fn first_rects(detected: Seq<Rect>, max_faces: i32) -> Seq<Rect> {
    if 0 < max_faces < detected.len() {
        detected.take(max_faces as int)
    } else {
        detected
    }
}

/// The rectangles to examine in an image: the plausible ones among the first.
pub open spec fn rects_to_examine(
    detected: Seq<Rect>,
    max_faces: i32,
    width: i32,
    height: i32,
) -> Seq<Rect> {
    first_rects(detected, max_faces).filter(|r: Rect| plausible_face(r, width, height))
}

impl FaceService {
    /// What every operation keeps.
    pub open spec fn wf(&self) -> bool {
        self@.wf()
    }

    /// A service that has loaded nothing yet.
    pub fn new(
        enabled: bool,
        known_faces_dir: String,
        cascade_path_override: String,
        detect_every_n_frames: i32,
        match_threshold: Binary64,
        max_faces: i32,
        min_consecutive_frames: i32,
    ) -> (res: FaceService)
        ensures
            res.wf(),
            res@ == (FaceServiceView {
                enabled,
                available: false,
                initializing: false,
                message: if enabled {
                    "not initialized"@
                } else {
                    "disabled"@
                },
                known_faces_count: 0,
                detect_every_n_frames: max_of(detect_every_n_frames as int, 1) as i32,
                match_threshold,
                max_faces,
                min_consecutive_frames: max_of(min_consecutive_frames as int, 1) as i32,
                last_result: no_result(),
                tracks: Seq::empty(),
                frame_counter: 0,
                process_in_flight: false,
                known_faces_dir: known_faces_dir@,
                cascade_path_override: cascade_path_override@,
                queue: Seq::empty(),
            }),
    {
        let message = if enabled {
            "not initialized".to_owned()
        } else {
            "disabled".to_owned()
        };
        let res = FaceService {
            enabled,
            available: false,
            initializing: false,
            message,
            known_faces_count: 0,
            detect_every_n_frames: if detect_every_n_frames >= 1 {
                detect_every_n_frames
            } else {
                1
            },
            match_threshold,
            max_faces,
            min_consecutive_frames: if min_consecutive_frames >= 1 {
                min_consecutive_frames
            } else {
                1
            },
            last_result: FaceDetectionResult::default(),
            tracks: Vec::new(),
            frame_counter: 0,
            process_in_flight: false,
            known_faces_dir,
            cascade_path_override,
            queue: VecDeque::new(),
        };
        assert(res@.tracks =~= Seq::<FaceTrackView>::empty());
        assert(res@.queue =~= Seq::<FrameJobView>::empty());
        res
    }

    /// Whether the models have to be loaded at the start.
    pub fn init(&self) -> (res: bool)
        ensures
            res == self@.enabled,
    {
        self.enabled
    }

    /// Queues a frame. Returns false if the queue is full.
    pub fn process_frame(&mut self, jpeg: Vec<u8>, frame_seq: u64) -> (res: bool)
        requires
            old(self).wf(),
        ensures
            final(self).wf(),
            res == (old(self)@.queue.len() < QUEUE_LIMIT),
            res <==> old(self)@.queue.len() < 4,
            final(self)@ == (FaceServiceView {
                queue: if old(self)@.queue.len() < QUEUE_LIMIT {
                    old(self)@.queue.push(FrameJobView { jpeg: jpeg@, frame_seq })
                } else {
                    old(self)@.queue
                },
                ..old(self)@
            }),
    {
        if self.queue.len() >= QUEUE_LIMIT {
            return false;
        }
        let ghost before = self.queue@;
        self.queue.push_back(FrameJob { jpeg, frame_seq });
        assert(job_views(self.queue@) =~= job_views(before).push(
            FrameJobView { jpeg: jpeg@, frame_seq },
        ));
        true
    }

    /// Takes the frame that has waited longest out of the queue.
    pub fn next_job(&mut self) -> (res: Option<FrameJob>)
        requires
            old(self).wf(),
        ensures
            final(self).wf(),
            match res {
                Some(job) => old(self)@.queue.len() > 0 && job@ == old(self)@.queue[0]
                    && final(self)@ == (FaceServiceView {
                    queue: old(self)@.queue.drop_first(),
                    ..old(self)@
                }),
                None => old(self)@.queue.len() == 0 && final(self)@ == old(self)@,
            },
    {
        let ghost before = self.queue@;
        let job = self.queue.pop_front();
        proof {
            if before.len() > 0 {
                assert(job_views(self.queue@) =~= job_views(before).drop_first());
            } else {
                assert(job_views(self.queue@) =~= job_views(before));
            }
        }
        job
    }

    /// Counts a frame that was taken out of the queue, and tells whether it is to be examined. If it
    /// is, no other frame is examined before [`FaceService::release`].
    pub fn admit_frame(&mut self) -> (res: bool)
        requires
            old(self).wf(),
            old(self)@.frame_counter < i64::MAX,
        ensures
            final(self).wf(),
            (res, final(self)@) == old(self)@.admission(),
    {
        if !self.enabled || !self.available || self.initializing || self.process_in_flight {
            return false;
        }
        self.frame_counter = self.frame_counter + 1;
        if self.detect_every_n_frames > 1 && self.frame_counter % (self.detect_every_n_frames as i64)
            != 0 {
            return false;
        }
        self.process_in_flight = true;
        true
    }

    /// The frame that was being examined is done with.
    pub fn release(&mut self)
        requires
            old(self).wf(),
        ensures
            final(self).wf(),
            final(self)@ == (FaceServiceView { process_in_flight: false, ..old(self)@ }),
    {
        self.process_in_flight = false;
    }

    /// The rectangles to examine of those that a detector found in an image.
    pub fn faces_to_examine(&self, detected: &Vec<Rect>, width: i32, height: i32) -> (res: Vec<Rect>)
        requires
            forall|i: int|
                0 <= i < first_rects(detected@, self@.max_faces).len() ==> plausible_in_range(
                    #[trigger] detected@[i],
                    width,
                    height,
                ),
        ensures
            res@ == rects_to_examine(detected@, self@.max_faces, width, height),
    {
        let n: usize = if self.max_faces > 0 && (self.max_faces as usize) < detected.len() {
            self.max_faces as usize
        } else {
            detected.len()
        };
        let ghost first = first_rects(detected@, self@.max_faces);
        let ghost keep = |r: Rect| plausible_face(r, width, height);
        let mut rects: Vec<Rect> = Vec::new();
        assert(first.take(0).filter(keep) =~= Seq::<Rect>::empty());
        for i in 0..n
            invariant
                n == first.len(),
                n <= detected@.len(),
                first == first_rects(detected@, self@.max_faces),
                keep == (|r: Rect| plausible_face(r, width, height)),
                forall|i: int|
                    0 <= i < first.len() ==> plausible_in_range(#[trigger] detected@[i], width, height),
                rects@ == first.take(i as int).filter(keep),
        {
            proof {
                assert(first[i as int] == detected@[i as int]);
                assert(first.take(i + 1) =~= first.take(i as int).push(first[i as int]));
                first.take(i as int).lemma_filter_push(first[i as int], keep);
            }
            if is_plausible_face_rect(&detected[i], width, height) {
                rects.push(detected[i]);
            }
        }
        assert(first.take(n as int) =~= first);
        rects
    }

    /// Whether the faces that were recognized in an image are taken into the tracks without overflow.
    pub fn is_detection_in_range(
        &self,
        examined: &Vec<ExaminedFace>,
        width: i32,
        height: i32,
    ) -> (res: bool)
        requires
            forall|i: int|
                0 <= i < examined@.len() ==> plausible_face(
                    (#[trigger] examined@[i]).rect,
                    width,
                    height,
                ),
        ensures
            res == self@.detection_in_range(examined_views(examined@), width, height),
    {
        is_update_in_range(&self.tracks, &make_candidates(examined, width, height))
    }

    /// Takes the faces that were recognized in an image into the tracks and reports them.
    pub fn complete_detection(
        &mut self,
        examined: Vec<ExaminedFace>,
        width: i32,
        height: i32,
        frame_seq: u64,
        now_ms: i64,
    ) -> (res: FaceStatus)
        requires
            old(self).wf(),
            forall|i: int|
                0 <= i < examined@.len() ==> plausible_face(
                    (#[trigger] examined@[i]).rect,
                    width,
                    height,
                ),
            old(self)@.detection_in_range(examined_views(examined@), width, height),
        ensures
            final(self).wf(),
            final(self)@ == old(self)@.detected(
                examined_views(examined@),
                width,
                height,
                frame_seq,
                now_ms,
            ),
            res@ == final(self)@.status(),
    {
        let candidates = make_candidates(&examined, width, height);
        proof {
            law_tracks_stay_ok(self@.tracks, candidate_views(candidates@));
        }
        let faces = update_tracks(&mut self.tracks, candidates, self.min_consecutive_frames);
        self.last_result =
        FaceDetectionResult {
            updated_at: now_ms,
            frame_index: self.frame_counter,
            broadcast_frame_seq: frame_seq,
            image_width: width,
            image_height: height,
            faces,
        };
        self.get_status()
    }

    /// How the service stands.
    pub fn get_status(&self) -> (res: FaceStatus)
        ensures
            res@ == self@.status(),
    {
        FaceStatus {
            enabled: self.enabled,
            available: self.available,
            initializing: self.initializing,
            backend: "opencv-haar-template".to_owned(),
            message: self.message.clone(),
            known_faces_count: self.known_faces_count,
            detect_every_n_frames: self.detect_every_n_frames,
            match_threshold: self.match_threshold,
            max_faces: self.max_faces,
            result: self.last_result.clone(),
        }
    }

    /// Enables or disables the service; tells whether the models have to be loaded now.
    pub fn set_enabled(&mut self, enabled: bool) -> (res: bool)
        requires
            old(self).wf(),
        ensures
            final(self).wf(),
            final(self)@ == old(self)@.switched(enabled),
            res == old(self)@.switch_loads(enabled),
    {
        let was: bool = self.enabled;
        self.enabled = enabled;
        if !enabled {
            self.message = "disabled".to_owned();
            self.last_result = FaceDetectionResult::default();
        } else if self.available {
            self.message = ready_text(self.known_faces_count);
        } else if !self.initializing {
            self.message = "initializing".to_owned();
        }
        !was && enabled && !self.available && !self.initializing
    }

    /// Whether the models have to be loaded when the known faces have changed: always.
    pub fn reload_known_faces(&self) -> (res: bool)
        ensures
            res,
    {
        true
    }

    /// Begins to load the models; tells where the known faces and the classifier are. Does nothing
    /// while they are being loaded already.
    pub fn begin_load(&mut self) -> (res: Option<(String, String)>)
        requires
            old(self).wf(),
        ensures
            final(self).wf(),
            match res {
                Some(paths) => !old(self)@.initializing && final(self)@ == old(self)@.loading()
                    && paths.0@ == old(self)@.known_faces_dir && paths.1@
                    == old(self)@.cascade_path_override,
                None => old(self)@.initializing && final(self)@ == old(self)@,
            },
    {
        if self.initializing {
            return None;
        }
        self.initializing = true;
        self.available = false;
        self.message = "loading OpenCV classifier".to_owned();
        Some((self.known_faces_dir.clone(), self.cascade_path_override.clone()))
    }

    /// The models have been loaded, with so many samples.
    pub fn finish_load(&mut self, samples: usize)
        requires
            old(self).wf(),
        ensures
            final(self).wf(),
            final(self)@ == old(self)@.loaded(samples),
    {
        self.initializing = false;
        self.available = true;
        self.known_faces_count = samples as i32;
        self.tracks = Vec::new();
        self.message =
        if self.enabled {
            ready_text(self.known_faces_count)
        } else {
            "disabled".to_owned()
        };
        assert(self@.tracks =~= Seq::<FaceTrackView>::empty());
    }

    /// The models could not be loaded.
    pub fn finish_init_error(&mut self, reason: &str)
        requires
            old(self).wf(),
        ensures
            final(self).wf(),
            final(self)@ == old(self)@.load_failed(reason@),
    {
        self.initializing = false;
        self.available = false;
        self.message = joined("initialization failed: ", reason);
    }

    /// Shuts the service down. There is nothing to undo: the workers end when no frame can come any
    /// more.
    pub fn shutdown(&mut self)
        ensures
            final(self)@ == old(self)@,
    {
    }
}

/// Two rectangles of images are small enough to be compared.
proof fn lemma_images_overlap(a: Rect, b: Rect)
    requires
        in_some_image(a),
        in_some_image(b),
    ensures
        iou_in_range(a, b),
{
    assert(intersection_in_range(a, b));
}

/// A rectangle in which a face was recognized is one of those that were examined.
proof fn lemma_candidate_source(
    examined: Seq<ExaminedFaceView>,
    width: i32,
    height: i32,
    i: int,
) -> (k: int)
    requires
        0 <= i < candidates_of(examined, width, height).len(),
    ensures
        0 <= k < examined.len(),
        candidate_of(examined[k], width, height) == Some(candidates_of(examined, width, height)[i]),
    decreases examined.len(),
{
    let f = |e: ExaminedFaceView| candidate_of(e, width, height);
    if examined.len() == 0 {
        assert(examined.filter_map(f) =~= Seq::<CandidateFaceView>::empty());
        0
    } else {
        let front = examined.drop_last();
        if i < candidates_of(front, width, height).len() {
            let k = lemma_candidate_source(front, width, height, i);
            assert(examined[k] == front[k]);
            k
        } else {
            examined.len() - 1
        }
    }
}

proof fn lemma_candidate_rect(examined: Seq<ExaminedFaceView>, width: i32, height: i32, i: int)
    requires
        0 <= i < candidates_of(examined, width, height).len(),
        width * height <= MAX_IMAGE_AREA,
        forall|k: int|
            0 <= k < examined.len() ==> plausible_face((#[trigger] examined[k]).rect, width, height),
    ensures
        in_some_image(candidates_of(examined, width, height)[i].rect),
{
    let k = lemma_candidate_source(examined, width, height, i);
    let r = examined[k].rect;
    law_plausible_face_lies_in_the_frame(r, width, height);
    assert(r.width * r.height < width * height) by (nonlinear_arith)
        requires
            0 < r.width < width,
            0 < r.height < height,
    ;
}

/// A detection in an image of at most [`MAX_IMAGE_AREA`] points overflows nowhere where the tracks come
/// from such images and no track has been seen too often to be counted; and the tracks behind it come
/// from such images again.
pub proof fn law_detections_are_in_range(
    s: FaceServiceView,
    examined: Seq<ExaminedFaceView>,
    width: i32,
    height: i32,
    frame_seq: u64,
    now_ms: i64,
)
    requires
        s.wf(),
        width * height <= MAX_IMAGE_AREA,
        forall|k: int|
            0 <= k < examined.len() ==> plausible_face((#[trigger] examined[k]).rect, width, height),
        tracks_in_images(s.tracks),
        forall|i: int| 0 <= i < s.tracks.len() ==> (#[trigger] s.tracks[i]).streak < i32::MAX,
    ensures
        s.detection_in_range(examined, width, height),
        tracks_in_images(s.detected(examined, width, height, frame_seq, now_ms).tracks),
{
    let cands = candidates_of(examined, width, height);
    assert forall|i: int| 0 <= i < cands.len() implies in_some_image((#[trigger] cands[i]).rect) by {
        lemma_candidate_rect(examined, width, height, i);
    }
    assert forall|c: int, i: int| 0 <= c < cands.len() && 0 <= i < s.tracks.len() implies iou_in_range(
        (#[trigger] cands[c]).rect,
        (#[trigger] s.tracks[i]).rect,
    ) by {
        lemma_images_overlap(cands[c].rect, s.tracks[i].rect);
    }
    law_update_is_in_range(s.tracks, cands);
    law_tracks_stand_where_faces_were(s.tracks, cands, |r: Rect| in_some_image(r));
}

/// The faces that were recognized in an image.
fn make_candidates(examined: &Vec<ExaminedFace>, width: i32, height: i32) -> (res: Vec<CandidateFace>)
    requires
        forall|i: int|
            0 <= i < examined@.len() ==> plausible_face(
                (#[trigger] examined@[i]).rect,
                width,
                height,
            ),
    ensures
        candidate_views(res@) == candidates_of(examined_views(examined@), width, height),
{
    let ghost all = examined@;
    let ghost views = examined_views(all);
    let ghost f = |e: ExaminedFaceView| candidate_of(e, width, height);
    let mut candidates: Vec<CandidateFace> = Vec::new();
    assert(views.take(0).filter_map(f) =~= Seq::<CandidateFaceView>::empty());
    for k in 0..examined.len()
        invariant
            all == examined@,
            views == examined_views(all),
            f == (|e: ExaminedFaceView| candidate_of(e, width, height)),
            forall|i: int|
                0 <= i < all.len() ==> plausible_face((#[trigger] all[i]).rect, width, height),
            candidate_views(candidates@) =~= views.take(k as int).filter_map(f),
    {
        let e = &examined[k];
        let ghost before = candidates@;
        proof {
            assert(views[k as int] == e@);
            assert(views.take(k + 1).drop_last() =~= views.take(k as int));
            assert(views.take(k + 1).last() == e@);
            law_plausible_face_lies_in_the_frame(e.rect, width, height);
        }
        let ghost seen = e@;
        let rect = e.rect;
        if let Some(identity) = &e.identity {
            let right: i32 = rect.x + rect.width;
            let bottom: i32 = rect.y + rect.height;
            let face = DetectedFace {
                name: identity.0.clone(),
                confidence: identity.1,
                left: if rect.x >= 0 {
                    rect.x
                } else {
                    0
                },
                top: if rect.y >= 0 {
                    rect.y
                } else {
                    0
                },
                right: if right <= width - 1 {
                    right
                } else {
                    width - 1
                },
                bottom: if bottom <= height - 1 {
                    bottom
                } else {
                    height - 1
                },
            };
            candidates.push(CandidateFace { face, rect });
            assert(candidate_views(candidates@) =~= candidate_views(before).push(
                candidate_of(seen, width, height)->0,
            ));
        }
    }
    assert(views.take(views.len() as int) =~= views);
    candidates
}

/// A frame is examined only when the one before it is done with.
pub proof fn law_one_detection_at_a_time(s: FaceServiceView)
    requires
        s.admission().0,
    ensures
        !s.process_in_flight,
        s.admission().1.process_in_flight,
        !s.admission().1.admission().0,
        s.admission().1.admission().1 == s.admission().1,
{
}

/// The state when a number of frames have been taken out one after the other, each done with before
/// the next one; and how many of them were examined.
pub open spec fn after_frames(s: FaceServiceView, frames: nat) -> (nat, FaceServiceView)
    decreases frames,
{
    if frames == 0 {
        (0, s)
    } else {
        let (examined, before) = after_frames(s, (frames - 1) as nat);
        let (admitted, after) = before.admission();
        (
            if admitted {
                examined + 1
            } else {
                examined
            },
            FaceServiceView { process_in_flight: false, ..after },
        )
    }
}

/// Of the frames that a ready service takes out, one in n is examined: from a count of c frames to
/// a count of c + k, as many as there are multiples of n in between.
pub proof fn law_every_nth_frame_is_examined(s: FaceServiceView, frames: nat)
    requires
        s.wf(),
        s.ready(),
    ensures
        after_frames(s, frames).0 == (s.frame_counter + frames) / (s.detect_every_n_frames as int)
            - s.frame_counter / (s.detect_every_n_frames as int),
        after_frames(s, frames).1 == (FaceServiceView {
            frame_counter: s.frame_counter + frames,
            ..s
        }),
    decreases frames,
{
    if frames > 0 {
        law_every_nth_frame_is_examined(s, (frames - 1) as nat);
        lemma_next_multiple(s.frame_counter + frames - 1, s.detect_every_n_frames as int);
        assert(after_frames(s, frames).1 =~= (FaceServiceView {
            frame_counter: s.frame_counter + frames,
            ..s
        }));
    } else {
        assert(after_frames(s, 0).1 =~= (FaceServiceView { frame_counter: s.frame_counter + 0, ..s }));
    }
}

/// Counting on by one reaches a multiple of `n` or stays between two.
proof fn lemma_next_multiple(c: int, n: int)
    requires
        c >= 0,
        n >= 1,
    ensures
        (c + 1) / n == c / n + if (c + 1) % n == 0 {
            1int
        } else {
            0int
        },
{
    let q = c / n;
    let r = c % n;
    vstd::arithmetic::div_mod::lemma_fundamental_div_mod(c, n);
    if r + 1 < n {
        vstd::arithmetic::div_mod::lemma_fundamental_div_mod_converse(c + 1, n, q, r + 1);
    } else {
        assert(c + 1 == (q + 1) * n + 0) by (nonlinear_arith)
            requires
                c == n * q + r,
                r + 1 == n,
        ;
        vstd::arithmetic::div_mod::lemma_fundamental_div_mod_converse(c + 1, n, q + 1, 0);
    }
}

/// While it is off, or has no models, or is loading them, the service examines and counts no frame.
pub proof fn law_no_frame_is_examined_unless_ready(s: FaceServiceView)
    requires
        !s.enabled || !s.available || s.initializing,
    ensures
        s.admission() == (false, s),
{
}

/// Enabling and disabling a service again and again asks for the models at most once: a request that
/// asks for them is answered by loading, and no request asks while they are loaded or being loaded.
pub proof fn law_models_are_asked_for_once(s: FaceServiceView, enabled: bool, samples: usize)
    ensures
        !s.loading().switch_loads(enabled),
        !s.loading().loaded(samples).switch_loads(enabled),
        !s.switched(true).switch_loads(enabled),
{
}

/// Disabling wipes the result, and the status says so.
pub proof fn law_disabled_service_shows_no_faces(s: FaceServiceView)
    ensures
        s.switched(false).status().result == no_result(),
        !s.switched(false).status().enabled,
        s.switched(false).status().message == "disabled"@,
{
}

/// The boxes of the faces that are reported lie in the image, and have their edges in order.
pub proof fn law_reported_boxes_lie_in_the_image(
    s: FaceServiceView,
    examined: Seq<ExaminedFaceView>,
    width: i32,
    height: i32,
    frame_seq: u64,
    now_ms: i64,
    i: int,
)
    requires
        s.wf(),
        forall|k: int|
            0 <= k < examined.len() ==> plausible_face((#[trigger] examined[k]).rect, width, height),
        0 <= i < s.detected(examined, width, height, frame_seq, now_ms).last_result.faces.len(),
    ensures
        ({
            let face = s.detected(
                examined,
                width,
                height,
                frame_seq,
                now_ms,
            ).last_result.faces[i];
            0 < face.left < face.right < width && 0 < face.top < face.bottom < height
        }),
{
    let cands = candidates_of(examined, width, height);
    law_reported_faces_were_detected(s.tracks, cands, s.min_consecutive_frames as int, i);
    let face = s.detected(examined, width, height, frame_seq, now_ms).last_result.faces[i];
    let c = choose|c: int| 0 <= c < cands.len() && (#[trigger] cands[c]).face == face;
    let k = lemma_candidate_source(examined, width, height, c);
    law_plausible_face_lies_in_the_frame(examined[k].rect, width, height);
}

/// The face has the name and the score that were recognized, and its box is the rectangle.
pub open spec fn is_face_in(
    face: DetectedFaceView,
    name: Seq<char>,
    confidence: Binary64,
    rect: Rect,
) -> bool {
    &&& face.name == name
    &&& face.confidence == confidence
    &&& face.left == rect.x
    &&& face.top == rect.y
    &&& face.right == rect.x + rect.width
    &&& face.bottom == rect.y + rect.height
}

/// The candidates come from the rectangles at the places `at`: exactly those in which a face was
/// recognized, in their order, each with its rectangle, its name and its score.
pub open spec fn are_candidates_at(
    examined: Seq<ExaminedFaceView>,
    candidates: Seq<CandidateFaceView>,
    at: Seq<int>,
) -> bool {
    &&& at.len() == candidates.len()
    &&& forall|i: int|
        0 <= i < at.len() ==> 0 <= (#[trigger] at[i]) < examined.len() && candidates[i].rect
            == examined[at[i]].rect && (examined[at[i]].identity matches Some((name, confidence))
            && is_face_in(candidates[i].face, name, confidence, examined[at[i]].rect))
    &&& forall|i: int, j: int| 0 <= i < j < at.len() ==> (#[trigger] at[i]) < (#[trigger] at[j])
    &&& forall|k: int|
        0 <= k < examined.len() && (#[trigger] examined[k]).identity is Some ==> at.contains(k)
}

/// Every rectangle in which a face was recognized gives a candidate, whatever the name is, with that
/// name and score and with the rectangle; no other rectangle does, and the order stays.
pub proof fn law_every_recognized_face_is_a_candidate(
    examined: Seq<ExaminedFaceView>,
    width: i32,
    height: i32,
)
    requires
        forall|k: int|
            0 <= k < examined.len() ==> plausible_face((#[trigger] examined[k]).rect, width, height),
    ensures
        exists|at: Seq<int>|
            are_candidates_at(examined, candidates_of(examined, width, height), at),
{
    let f = |e: ExaminedFaceView| candidate_of(e, width, height);
    let at = lemma_filter_map_makes(examined, f);
    let cands = candidates_of(examined, width, height);
    assert forall|i: int| 0 <= i < at.len() implies 0 <= (#[trigger] at[i]) < examined.len()
        && cands[i].rect == examined[at[i]].rect && (examined[at[i]].identity matches Some(
        (name, confidence),
    ) && is_face_in(cands[i].face, name, confidence, examined[at[i]].rect)) by {
        assert(f(examined[at[i]]) == Some(cands[i]));
        law_plausible_face_lies_in_the_frame(examined[at[i]].rect, width, height);
    }
    assert forall|k: int| 0 <= k < examined.len() && (#[trigger] examined[k]).identity is Some implies at.contains(
        k,
    ) by {
        assert(f(examined[k]) is Some);
    }
    assert(are_candidates_at(examined, cands, at));
}

/// Where one sighting is enough, every face that was recognized is reported, whatever its name is:
/// with its name, its score and the rectangle as its box; and as many faces are reported as were
/// recognized.
pub proof fn law_every_recognized_face_is_reported(
    s: FaceServiceView,
    examined: Seq<ExaminedFaceView>,
    width: i32,
    height: i32,
    frame_seq: u64,
    now_ms: i64,
    k: int,
    name: Seq<char>,
    confidence: Binary64,
)
    requires
        s.wf(),
        s.min_consecutive_frames == 1,
        forall|k: int|
            0 <= k < examined.len() ==> plausible_face((#[trigger] examined[k]).rect, width, height),
        0 <= k < examined.len(),
        examined[k].identity == Some((name, confidence)),
    ensures
        s.detected(examined, width, height, frame_seq, now_ms).last_result.faces.len()
            == candidates_of(examined, width, height).len(),
        exists|i: int|
            0 <= i < s.detected(examined, width, height, frame_seq, now_ms).last_result.faces.len()
                && is_face_in(
                #[trigger] s.detected(
                    examined,
                    width,
                    height,
                    frame_seq,
                    now_ms,
                ).last_result.faces[i],
                name,
                confidence,
                examined[k].rect,
            ),
{
    let cands = candidates_of(examined, width, height);
    law_every_recognized_face_is_a_candidate(examined, width, height);
    let at = choose|at: Seq<int>| are_candidates_at(examined, cands, at);
    assert(at.contains(k));
    let j = choose|j: int| 0 <= j < at.len() && at[j] == k;
    let after = tracks_after(s.tracks, cands);
    law_one_track_per_detection(s.tracks, cands);
    law_tracks_stay_ok(s.tracks, cands);
    law_all_detections_are_reported_at_once(s.tracks, cands, 1);
    law_faces_seen_often_enough_are_reported(after, 1);
    let place = choose|place: Seq<int>| pairs_up(after, cands, place);
    assert(shows(after, place[j], cands[j]));
    let faces = s.detected(examined, width, height, frame_seq, now_ms).last_result.faces;
    assert(faces == reported_faces(after, 1));
    assert(after[place[j]].streak >= 1);
    assert(faces.contains(cands[j].face));
    let i = choose|i: int| 0 <= i < faces.len() && faces[i] == cands[j].face;
    assert(examined[at[j]].identity is Some);
    assert(is_face_in(
        faces[i],
        name,
        confidence,
        examined[k].rect,
    ));
}

/// `rects` are exactly those of the first `n` rectangles of `detected` that can be a face, in their
/// order.
pub open spec fn are_faces_among(
    detected: Seq<Rect>,
    n: int,
    width: i32,
    height: i32,
    rects: Seq<Rect>,
    at: Seq<int>,
) -> bool {
    &&& at.len() == rects.len()
    &&& forall|i: int|
        0 <= i < at.len() ==> 0 <= (#[trigger] at[i]) < n && rects[i] == detected[at[i]]
            && plausible_face(rects[i], width, height)
    &&& forall|i: int, j: int| 0 <= i < j < at.len() ==> (#[trigger] at[i]) < (#[trigger] at[j])
    &&& forall|k: int|
        0 <= k < n && plausible_face(#[trigger] detected[k], width, height) ==> at.contains(k)
}

/// Of the rectangles that a detector found, exactly those that can be a face are examined, in their
/// order, among the first so many as are asked for; where no number is asked for, among all.
pub proof fn law_which_rectangles_are_examined(
    detected: Seq<Rect>,
    max_faces: i32,
    width: i32,
    height: i32,
)
    ensures
        max_faces <= 0 || max_faces >= detected.len() ==> exists|at: Seq<int>|
            are_faces_among(
                detected,
                detected.len() as int,
                width,
                height,
                rects_to_examine(detected, max_faces, width, height),
                at,
            ),
        0 < max_faces < detected.len() ==> exists|at: Seq<int>|
            are_faces_among(
                detected,
                max_faces as int,
                width,
                height,
                rects_to_examine(detected, max_faces, width, height),
                at,
            ),
{
    let keep = |r: Rect| plausible_face(r, width, height);
    let first = first_rects(detected, max_faces);
    let at = lemma_filter_selects(first, keep, keep);
    let rects = rects_to_examine(detected, max_faces, width, height);
    assert(is_selection(first, rects, at, keep));
    let n = if 0 < max_faces < detected.len() {
        max_faces as int
    } else {
        detected.len() as int
    };
    assert forall|k: int| 0 <= k < n && plausible_face(#[trigger] detected[k], width, height) implies at.contains(
        k,
    ) by {
        assert(first[k] == detected[k]);
        assert(keep(first[k]));
    }
    assert forall|i: int| 0 <= i < at.len() implies 0 <= (#[trigger] at[i]) < n && rects[i]
        == detected[at[i]] && plausible_face(rects[i], width, height) by {
        assert(first[at[i]] == detected[at[i]]);
        assert(keep(first[at[i]]));
    }
    assert(are_faces_among(detected, n, width, height, rects, at));
}

/// The settings of a service that nothing but its making decides.
pub open spec fn same_settings(a: FaceServiceView, b: FaceServiceView) -> bool {
    &&& a.detect_every_n_frames == b.detect_every_n_frames
    &&& a.match_threshold == b.match_threshold
    &&& a.max_faces == b.max_faces
    &&& a.min_consecutive_frames == b.min_consecutive_frames
    &&& a.known_faces_dir == b.known_faces_dir
    &&& a.cascade_path_override == b.cascade_path_override
}

/// Neither the frames that wait, nor their count, nor whether one is being examined has changed.
pub open spec fn same_frames(a: FaceServiceView, b: FaceServiceView) -> bool {
    &&& a.queue == b.queue
    &&& a.frame_counter == b.frame_counter
    &&& a.process_in_flight == b.process_in_flight
}

/// The status tells how the service stands.
pub proof fn law_status_tells_the_state(s: FaceServiceView)
    ensures
        s.status().enabled == s.enabled,
        s.status().available == s.available,
        s.status().initializing == s.initializing,
        s.status().backend == "opencv-haar-template"@,
        s.status().message == s.message,
        s.status().known_faces_count == s.known_faces_count,
        s.status().detect_every_n_frames == s.detect_every_n_frames,
        s.status().match_threshold == s.match_threshold,
        s.status().max_faces == s.max_faces,
        s.status().result == s.last_result,
{
}

/// A result without a detection holds no face and no number.
pub proof fn law_no_result_is_empty()
    ensures
        no_result().faces.len() == 0,
        no_result().updated_at == 0,
        no_result().frame_index == 0,
        no_result().broadcast_frame_seq == 0,
        no_result().image_width == 0,
        no_result().image_height == 0,
{
}

/// Enabling and disabling switches the service and nothing of what it has loaded, follows or waits
/// for. Disabled, it says so and shows no result; enabled, it shows the result that it has, says how
/// many samples it knows where it is ready, that it begins where it neither is nor is getting ready,
/// and goes on saying what it said where it is getting ready.
pub proof fn law_switching_the_service(s: FaceServiceView, enabled: bool)
    ensures
        ({
            let after = s.switched(enabled);
            &&& after.enabled == enabled
            &&& after.available == s.available
            &&& after.initializing == s.initializing
            &&& after.known_faces_count == s.known_faces_count
            &&& after.tracks == s.tracks
            &&& same_settings(after, s)
            &&& same_frames(after, s)
            &&& !enabled ==> after.message == "disabled"@ && after.last_result == no_result()
            &&& enabled ==> after.last_result == s.last_result
            &&& enabled && s.available ==> after.message == "ready ("@ + signed_decimal(
                s.known_faces_count as int,
            ) + " known face sample(s))"@
            &&& enabled && !s.available && !s.initializing ==> after.message == "initializing"@
            &&& enabled && !s.available && s.initializing ==> after.message == s.message
        }),
        s.switch_loads(enabled) <==> !s.enabled && enabled && !s.available && !s.initializing,
{
}

/// Loading the models: while they are being loaded the service is not available; when they have been
/// loaded it is, knows so many samples and follows no face; when they could not be loaded it is not,
/// and says why. Nothing else changes: not whether it is enabled, nor its result, nor what waits.
pub proof fn law_loading_the_models(s: FaceServiceView, samples: usize, reason: Seq<char>)
    ensures
        ({
            let after = s.loading();
            &&& after.initializing && !after.available
            &&& after.message == "loading OpenCV classifier"@
            &&& after.enabled == s.enabled
            &&& after.known_faces_count == s.known_faces_count
            &&& after.tracks == s.tracks
            &&& after.last_result == s.last_result
            &&& same_settings(after, s)
            &&& same_frames(after, s)
        }),
        ({
            let after = s.loaded(samples);
            &&& !after.initializing && after.available
            &&& after.enabled == s.enabled
            &&& samples <= i32::MAX ==> after.known_faces_count == samples
            &&& samples <= i32::MAX && s.enabled ==> after.message == "ready ("@ + signed_decimal(
                samples as int,
            ) + " known face sample(s))"@
            &&& !s.enabled ==> after.message == "disabled"@
            &&& after.tracks.len() == 0
            &&& after.last_result == s.last_result
            &&& same_settings(after, s)
            &&& same_frames(after, s)
        }),
        ({
            let after = s.load_failed(reason);
            &&& !after.initializing && !after.available
            &&& after.message == "initialization failed: "@ + reason
            &&& after.enabled == s.enabled
            &&& after.known_faces_count == s.known_faces_count
            &&& after.tracks == s.tracks
            &&& after.last_result == s.last_result
            &&& same_settings(after, s)
            &&& same_frames(after, s)
        }),
{
}

/// A detection is kept with its time, the number of the examined frame, the number of the frame that
/// the viewers see and the size of the image; it changes the tracks and the result and nothing else.
pub proof fn law_result_of_a_detection(
    s: FaceServiceView,
    examined: Seq<ExaminedFaceView>,
    width: i32,
    height: i32,
    frame_seq: u64,
    now_ms: i64,
)
    requires
        i64::MIN <= s.frame_counter <= i64::MAX,
    ensures
        ({
            let after = s.detected(examined, width, height, frame_seq, now_ms);
            &&& after.last_result.updated_at == now_ms
            &&& after.last_result.frame_index == s.frame_counter
            &&& after.last_result.broadcast_frame_seq == frame_seq
            &&& after.last_result.image_width == width
            &&& after.last_result.image_height == height
            &&& after.last_result.faces == reported_faces(
                after.tracks,
                s.min_consecutive_frames as int,
            )
            &&& after.enabled == s.enabled
            &&& after.available == s.available
            &&& after.initializing == s.initializing
            &&& after.message == s.message
            &&& after.known_faces_count == s.known_faces_count
            &&& same_settings(after, s)
            &&& same_frames(after, s)
        }),
{
}

/// Taking a frame out changes nothing but the count and whether one is being examined: the count goes
/// on by one exactly where the service is enabled, has its models, is not loading and examines no
/// frame; and the frame is then examined exactly where the new count is a multiple of n.
pub proof fn law_which_frames_are_examined(s: FaceServiceView)
    requires
        s.detect_every_n_frames >= 1,
    ensures
        ({
            let (admitted, after) = s.admission();
            let free = s.enabled && s.available && !s.initializing && !s.process_in_flight;
            &&& after.frame_counter == s.frame_counter + if free {
                1int
            } else {
                0int
            }
            &&& admitted <==> free && (s.frame_counter + 1) % (s.detect_every_n_frames as int) == 0
            &&& after.process_in_flight == (s.process_in_flight || admitted)
            &&& after.queue == s.queue
            &&& after.enabled == s.enabled
            &&& after.available == s.available
            &&& after.initializing == s.initializing
            &&& after.message == s.message
            &&& after.known_faces_count == s.known_faces_count
            &&& after.tracks == s.tracks
            &&& after.last_result == s.last_result
            &&& same_settings(after, s)
        }),
{
}

/// What is said of examined rectangles is what they hold, one by one: the rectangle, and the name and
/// the score where there are any.
pub proof fn law_views_of_examined_faces(examined: Seq<ExaminedFace>, k: int)
    requires
        0 <= k < examined.len(),
    ensures
        examined_views(examined).len() == examined.len(),
        examined_views(examined)[k].rect == examined[k].rect,
        examined[k].identity matches Some(i) ==> examined_views(examined)[k].identity == Some(
            (i.0@, i.1),
        ),
        examined[k].identity is None ==> examined_views(examined)[k].identity is None,
{
}

/// What is said of a service is what it holds.
pub proof fn law_view_of_a_service(s: FaceService)
    ensures
        s@.enabled == s.enabled,
        s@.available == s.available,
        s@.initializing == s.initializing,
        s@.message == s.message@,
        s@.known_faces_count == s.known_faces_count,
        s@.detect_every_n_frames == s.detect_every_n_frames,
        s@.match_threshold == s.match_threshold,
        s@.max_faces == s.max_faces,
        s@.min_consecutive_frames == s.min_consecutive_frames,
        s@.frame_counter == s.frame_counter,
        s@.process_in_flight == s.process_in_flight,
        s@.known_faces_dir == s.known_faces_dir@,
        s@.cascade_path_override == s.cascade_path_override@,
        s@.tracks.len() == s.tracks@.len(),
        s@.queue.len() == s.queue@.len(),
        forall|i: int|
            0 <= i < s.queue@.len() ==> (#[trigger] s@.queue[i]).jpeg == s.queue@[i].jpeg@
                && s@.queue[i].frame_seq == s.queue@[i].frame_seq,
        s@.last_result.updated_at == s.last_result.updated_at,
        s@.last_result.frame_index == s.last_result.frame_index,
        s@.last_result.broadcast_frame_seq == s.last_result.broadcast_frame_seq,
        s@.last_result.image_width == s.last_result.image_width,
        s@.last_result.image_height == s.last_result.image_height,
        s@.last_result.faces == face_views(s.last_result.faces@),
{
}

} // verus!
