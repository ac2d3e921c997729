//! Connecting a viewer: from the offer of a session description to its answer.
//!
//! A connection is made in steps. Each is carried out outside, and what came of it decides what comes
//! next: another step, or the answer to the viewer.

use vstd::prelude::*;
use webrtc::peer_connection::sdp::session_description::RTCSessionDescription;

use crate::text::{joined, same_text};

verus! {

/// The request cannot be understood.
pub const BAD_REQUEST: u16 = 400;

/// Something went wrong in answering it.
pub const SERVER_ERROR: u16 = 500;

/// A request to connect.
#[derive(Debug)]
pub struct ConnectRequest {
    pub sdp: Option<String>,
    pub type_: Option<String>,
}

/// What a viewer is answered.
#[derive(Debug)]
pub enum Answer {
    /// The request failed, with a status code and a message.
    Refused { status: u16, message: String },
    /// The session description that answers the offer.
    Accepted { sdp: String },
}

/// What an [`Answer`] says.
#[verifier::ext_equal]
pub enum AnswerView {
    Refused { status: u16, message: Seq<char> },
    Accepted { sdp: Seq<char> },
}

impl View for Answer {
    type V = AnswerView;

    open spec fn view(&self) -> AnswerView {
        match *self {
            Answer::Refused { status, message } => AnswerView::Refused { status, message: message@ },
            Answer::Accepted { sdp } => AnswerView::Accepted { sdp: sdp@ },
        }
    }
}

/// Why a request is refused right away: it lacks the session description or its type, or the type is
/// not that of an offer.
pub open spec fn refusal(request: ConnectRequest) -> Option<Seq<char>> {
    match (request.sdp, request.type_) {
        (None, _) => Some("missing sdp"@),
        (Some(_), None) => Some("missing type"@),
        (Some(_), Some(t)) => if t@ == "offer"@ {
            None
        } else {
            Some("expected offer type"@)
        },
    }
}

/// Checks a request; gives the session description that is offered.
pub fn check_request(request: ConnectRequest) -> (res: Result<String, Answer>)
    ensures
        match res {
            Ok(sdp) => refusal(request) is None && request.sdp == Some(sdp),
            Err(answer) => refusal(request) is Some && answer@ == (AnswerView::Refused {
                status: BAD_REQUEST,
                message: refusal(request)->0,
            }),
        },
{
    match request.sdp {
        None => Err(Answer::Refused { status: BAD_REQUEST, message: "missing sdp".to_owned() }),
        Some(sdp) => match request.type_ {
            None => Err(Answer::Refused { status: BAD_REQUEST, message: "missing type".to_owned() }),
            Some(t) => {
                if same_text(t.as_str(), "offer") {
                    Ok(sdp)
                } else {
                    Err(
                        Answer::Refused {
                            status: BAD_REQUEST,
                            message: "expected offer type".to_owned(),
                        },
                    )
                }
            },
        },
    }
}

/// A step in making a connection.
#[derive(Clone, Copy, Debug, PartialEq, Eq, Structural)]
pub enum Step {
    RegisterCodecs,
    OpenPeer,
    AddVideoTrack,
    AddAudioTrack,
    FindPipeline,
    StopPipeline,
    StartPipeline,
    RestartPipeline,
    SharePipeline,
    RegisterTracks,
    ReadOffer,
    SetRemoteDescription,
    CreateAnswer,
    SetLocalDescription,
    ReadLocalDescription,
    AddSession,
}

/// What there is of a media pipeline.
#[derive(Clone, Copy, Debug, PartialEq, Eq, Structural)]
pub enum PipelineState {
    Absent,
    Healthy,
    Unhealthy,
}

/// What came of a step.
#[derive(Debug)]
pub enum Event {
    Done,
    Failed(String),
    Pipeline(PipelineState),
    LocalDescription(Option<String>),
}

/// What an [`Event`] says.
#[verifier::ext_equal]
pub enum EventView {
    Done,
    Failed(Seq<char>),
    Pipeline(PipelineState),
    LocalDescription(Option<Seq<char>>),
}

impl View for Event {
    type V = EventView;

    open spec fn view(&self) -> EventView {
        match *self {
            Event::Done => EventView::Done,
            Event::Failed(e) => EventView::Failed(e@),
            Event::Pipeline(p) => EventView::Pipeline(p),
            Event::LocalDescription(None) => EventView::LocalDescription(None),
            Event::LocalDescription(Some(sdp)) => EventView::LocalDescription(Some(sdp@)),
        }
    }
}

/// How the message begins that tells that a step failed; none where it cannot fail.
pub open spec fn failure_prefix(step: Step) -> Option<Seq<char>> {
    match step {
        Step::RegisterCodecs => Some("media engine error: "@),
        Step::OpenPeer => Some("peer init error: "@),
        Step::AddVideoTrack => Some("video track init error: "@),
        Step::AddAudioTrack => Some("audio track init error: "@),
        Step::StartPipeline => Some("media pipeline init error: "@),
        Step::RestartPipeline => Some("media pipeline restart error: "@),
        Step::ReadOffer => Some("offer parse error: "@),
        Step::SetRemoteDescription => Some("remote description error: "@),
        Step::CreateAnswer => Some("answer creation error: "@),
        Step::SetLocalDescription => Some("local description error: "@),
        _ => None,
    }
}

/// The step can end so.
pub open spec fn possible(step: Step, event: EventView) -> bool {
    match event {
        EventView::Done => step != Step::FindPipeline && step != Step::ReadLocalDescription,
        EventView::Failed(_) => failure_prefix(step) is Some,
        EventView::Pipeline(_) => step == Step::FindPipeline,
        EventView::LocalDescription(_) => step == Step::ReadLocalDescription,
    }
}

/// The step behind one that was done.
pub open spec fn following(step: Step) -> Step {
    match step {
        Step::RegisterCodecs => Step::OpenPeer,
        Step::OpenPeer => Step::AddVideoTrack,
        Step::AddVideoTrack => Step::AddAudioTrack,
        Step::AddAudioTrack => Step::FindPipeline,
        Step::StopPipeline => Step::RestartPipeline,
        Step::StartPipeline => Step::SharePipeline,
        Step::RestartPipeline => Step::SharePipeline,
        Step::SharePipeline => Step::RegisterTracks,
        Step::RegisterTracks => Step::ReadOffer,
        Step::ReadOffer => Step::SetRemoteDescription,
        Step::SetRemoteDescription => Step::CreateAnswer,
        Step::CreateAnswer => Step::SetLocalDescription,
        Step::SetLocalDescription => Step::ReadLocalDescription,
        _ => Step::AddSession,
    }
}

/// A connection in the making: the step that is carried out, and the answer, once there is one.
#[derive(Debug)]
pub struct Connecting {
    pub step: Step,
    pub local: Option<String>,
}

/// What a [`Connecting`] says.
#[verifier::ext_equal]
pub struct ConnectingView {
    pub step: Step,
    pub local: Option<Seq<char>>,
}

impl View for Connecting {
    type V = ConnectingView;

    open spec fn view(&self) -> ConnectingView {
        ConnectingView {
            step: self.step,
            local: match self.local {
                Some(sdp) => Some(sdp@),
                None => None,
            },
        }
    }
}

/// What comes behind a step: another one, or the answer.
#[verifier::ext_equal]
pub enum Progress {
    Next(ConnectingView),
    Finished(AnswerView),
}

impl ConnectingView {
    /// The answer is known when the session is added, and only then.
    pub open spec fn wf(self) -> bool {
        self.local is Some <==> self.step == Step::AddSession
    }

    /// What comes behind the step that is carried out.
    pub open spec fn advanced(self, event: EventView) -> Progress {
        match event {
            EventView::Failed(reason) => Progress::Finished(
                AnswerView::Refused {
                    status: SERVER_ERROR,
                    message: failure_prefix(self.step)->0 + reason,
                },
            ),
            EventView::Pipeline(found) => Progress::Next(
                ConnectingView {
                    step: match found {
                        PipelineState::Healthy => Step::RegisterTracks,
                        PipelineState::Unhealthy => Step::StopPipeline,
                        PipelineState::Absent => Step::StartPipeline,
                    },
                    ..self
                },
            ),
            EventView::LocalDescription(None) => Progress::Finished(
                AnswerView::Refused {
                    status: SERVER_ERROR,
                    message: "missing local description"@,
                },
            ),
            EventView::LocalDescription(Some(sdp)) => Progress::Next(
                ConnectingView { step: Step::AddSession, local: Some(sdp) },
            ),
            EventView::Done => if self.step == Step::AddSession {
                Progress::Finished(AnswerView::Accepted { sdp: self.local->0 })
            } else {
                Progress::Next(ConnectingView { step: following(self.step), ..self })
            },
        }
    }
}

/// How the message begins that tells that a step failed.
fn failure_start(step: Step) -> (res: &'static str)
    requires
        failure_prefix(step) is Some,
    ensures
        Some(res@) == failure_prefix(step),
{
    match step {
        Step::RegisterCodecs => "media engine error: ",
        Step::OpenPeer => "peer init error: ",
        Step::AddVideoTrack => "video track init error: ",
        Step::AddAudioTrack => "audio track init error: ",
        Step::StartPipeline => "media pipeline init error: ",
        Step::RestartPipeline => "media pipeline restart error: ",
        Step::ReadOffer => "offer parse error: ",
        Step::SetRemoteDescription => "remote description error: ",
        Step::CreateAnswer => "answer creation error: ",
        _ => "local description error: ",
    }
}

fn following_step(step: Step) -> (res: Step)
    ensures
        res == following(step),
{
    match step {
        Step::RegisterCodecs => Step::OpenPeer,
        Step::OpenPeer => Step::AddVideoTrack,
        Step::AddVideoTrack => Step::AddAudioTrack,
        Step::AddAudioTrack => Step::FindPipeline,
        Step::StopPipeline => Step::RestartPipeline,
        Step::StartPipeline => Step::SharePipeline,
        Step::RestartPipeline => Step::SharePipeline,
        Step::SharePipeline => Step::RegisterTracks,
        Step::RegisterTracks => Step::ReadOffer,
        Step::ReadOffer => Step::SetRemoteDescription,
        Step::SetRemoteDescription => Step::CreateAnswer,
        Step::CreateAnswer => Step::SetLocalDescription,
        Step::SetLocalDescription => Step::ReadLocalDescription,
        _ => Step::AddSession,
    }
}

impl Connecting {
    /// A connection of which nothing has been made.
    pub fn begin() -> (res: Connecting)
        ensures
            res@ == (ConnectingView { step: Step::RegisterCodecs, local: None }),
            res@.wf(),
    {
        Connecting { step: Step::RegisterCodecs, local: None }
    }

    /// Goes on with what came of the step; gives the answer where there is nothing more to do.
    pub fn advance(&mut self, event: Event) -> (res: Option<Answer>)
        requires
            old(self)@.wf(),
            possible(old(self)@.step, event@),
        ensures
            match old(self)@.advanced(event@) {
                Progress::Next(state) => res is None && final(self)@ == state && final(self)@.wf(),
                Progress::Finished(answer) => res matches Some(a) && a@ == answer,
            },
    {
        match event {
            Event::Failed(reason) => Some(
                Answer::Refused {
                    status: SERVER_ERROR,
                    message: joined(failure_start(self.step), reason.as_str()),
                },
            ),
            Event::Pipeline(found) => {
                self.step =
                match found {
                    PipelineState::Healthy => Step::RegisterTracks,
                    PipelineState::Unhealthy => Step::StopPipeline,
                    PipelineState::Absent => Step::StartPipeline,
                };
                None
            },
            Event::LocalDescription(None) => Some(
                Answer::Refused {
                    status: SERVER_ERROR,
                    message: "missing local description".to_owned(),
                },
            ),
            Event::LocalDescription(Some(sdp)) => {
                self.step = Step::AddSession;
                self.local = Some(sdp);
                None
            },
            Event::Done => {
                if let Some(sdp) = self.local.take() {
                    Some(Answer::Accepted { sdp })
                } else {
                    self.step = following_step(self.step);
                    None
                }
            },
        }
    }
}

/// A session description of the crate webrtc.
#[verifier::external_type_specification]
#[verifier::external_body]
pub struct ExSessionDescription(RTCSessionDescription);

/// The description that `RTCSessionDescription::offer` of the crate webrtc makes of a session
/// description, or else the text of its error.
pub uninterp spec fn offer_result(sdp: Seq<char>) -> Result<RTCSessionDescription, Seq<char>>;

/// `RTCSessionDescription::offer` of the crate webrtc, with the text that the description it makes
/// holds, or else the text of its error. The description and the text of the error are functions of
/// the session description; the text that is held is that one unchanged.
#[verifier::external_body]
fn parse_offer(sdp: String) -> (res: Result<(RTCSessionDescription, String), String>)
    ensures
        match res {
            Ok(offer) => offer_result(sdp@) == Ok::<RTCSessionDescription, Seq<char>>(offer.0)
                && offer.1@ == sdp@,
            Err(e) => offer_result(sdp@) == Err::<RTCSessionDescription, Seq<char>>(e@),
        },
{
    match RTCSessionDescription::offer(sdp) {
        Ok(offer) => {
            let text = offer.sdp.clone();
            Ok((offer, text))
        },
        Err(e) => Err(e.to_string()),
    }
}

/// What comes of reading the offer.
pub open spec fn offer_event(read: Result<RTCSessionDescription, Seq<char>>) -> EventView {
    match read {
        Ok(_) => EventView::Done,
        Err(e) => EventView::Failed(e),
    }
}

/// Reads the offer: gives the description, with the text that it holds, and what came of the step.
pub fn read_offer(sdp: String) -> (res: (Option<(RTCSessionDescription, String)>, Event))
    ensures
        res.1@ == offer_event(offer_result(sdp@)),
        match res.0 {
            Some(offer) => offer_result(sdp@) == Ok::<RTCSessionDescription, Seq<char>>(offer.0)
                && offer.1@ == sdp@,
            None => offer_result(sdp@) is Err,
        },
{
    match parse_offer(sdp) {
        Ok(offer) => (Some(offer), Event::Done),
        Err(e) => (None, Event::Failed(e)),
    }
}

/// Puts a new pipeline into the place that all sessions share, where there is none yet; gives the
/// one that is there then.
pub fn share_pipeline<P: Clone>(shared: &mut Option<P>, pipeline: P) -> (res: P)
    ensures
        match *old(shared) {
            None => *final(shared) == Some(pipeline) && cloned(pipeline, res),
            Some(there) => *final(shared) == *old(shared) && cloned(there, res),
        },
{
    match shared {
        Some(there) => there.clone(),
        None => {
            let res = pipeline.clone();
            *shared = Some(pipeline);
            res
        },
    }
}

/// Messages on frames and faces are sent over data channels with these labels.
pub open spec fn metadata_label(label: Seq<char>) -> bool {
    label == "video-text"@ || label == "face-data"@
}

/// Whether messages are sent over a data channel, by its label.
pub fn is_metadata_label(label: &str) -> (res: bool)
    ensures
        res == metadata_label(label@),
{
    same_text(label, "video-text") || same_text(label, "face-data")
}

/// How far a step is from the first one.
pub open spec fn distance(step: Step) -> nat {
    match step {
        Step::RegisterCodecs => 0,
        Step::OpenPeer => 1,
        Step::AddVideoTrack => 2,
        Step::AddAudioTrack => 3,
        Step::FindPipeline => 4,
        Step::StopPipeline => 5,
        Step::StartPipeline => 6,
        Step::RestartPipeline => 6,
        Step::SharePipeline => 7,
        Step::RegisterTracks => 8,
        Step::ReadOffer => 9,
        Step::SetRemoteDescription => 10,
        Step::CreateAnswer => 11,
        Step::SetLocalDescription => 12,
        Step::ReadLocalDescription => 13,
        Step::AddSession => 14,
    }
}

/// Every step leads to one that is further on, or to the answer: no step is carried out twice, and a
/// request is answered after fifteen steps at most.
pub proof fn law_steps_lead_on(state: ConnectingView, event: EventView)
    requires
        state.wf(),
        possible(state.step, event),
    ensures
        state.advanced(event) matches Progress::Next(next) ==> next.wf() && distance(state.step)
            < distance(next.step) <= 14,
{
}

/// A step that fails ends the request, with a message that tells which step and why.
pub proof fn law_failed_step_is_answered(state: ConnectingView, reason: Seq<char>)
    requires
        state.wf(),
        possible(state.step, EventView::Failed(reason)),
    ensures
        failure_prefix(state.step) is Some,
        state.advanced(EventView::Failed(reason)) == Progress::Finished(
            AnswerView::Refused {
                status: SERVER_ERROR,
                message: failure_prefix(state.step)->0 + reason,
            },
        ),
{
}

/// What comes of a connection when the steps end so, one after the other.
pub open spec fn outcome(state: ConnectingView, events: Seq<EventView>) -> Progress
    decreases events.len(),
{
    if events.len() == 0 {
        Progress::Next(state)
    } else {
        match state.advanced(events[0]) {
            Progress::Next(next) => outcome(next, events.drop_first()),
            Progress::Finished(answer) => Progress::Finished(answer),
        }
    }
}

/// The steps can end so, one after the other.
pub open spec fn all_possible(state: ConnectingView, events: Seq<EventView>) -> bool
    decreases events.len(),
{
    if events.len() == 0 {
        true
    } else {
        possible(state.step, events[0]) && match state.advanced(events[0]) {
            Progress::Next(next) => all_possible(next, events.drop_first()),
            Progress::Finished(_) => events.len() == 1,
        }
    }
}

/// A viewer is answered with a session description only where no step failed, and the description is
/// the one that the peer connection has.
pub proof fn law_accepted_only_when_nothing_failed(state: ConnectingView, events: Seq<EventView>)
    requires
        state.wf(),
        all_possible(state, events),
        outcome(state, events) matches Progress::Finished(AnswerView::Accepted { .. }),
    ensures
        forall|i: int| 0 <= i < events.len() ==> !(#[trigger] events[i] is Failed),
        outcome(state, events) matches Progress::Finished(AnswerView::Accepted { sdp }) && (
        state.local == Some(sdp) || events.contains(EventView::LocalDescription(Some(sdp)))),
    decreases events.len(),
{
    let rest = events.drop_first();
    match state.advanced(events[0]) {
        Progress::Next(next) => {
            law_steps_lead_on(state, events[0]);
            law_accepted_only_when_nothing_failed(next, rest);
            assert forall|i: int| 0 <= i < events.len() implies !(#[trigger] events[i] is Failed) by {
                if i > 0 {
                    assert(events[i] == rest[i - 1]);
                }
            }
            if let Progress::Finished(AnswerView::Accepted { sdp }) = outcome(state, events) {
                let local = EventView::LocalDescription(Some(sdp));
                if rest.contains(local) {
                    let k = choose|k: int| 0 <= k < rest.len() && rest[k] == local;
                    assert(events[k + 1] == local);
                } else if state.local != Some(sdp) {
                    assert(events[0] == local);
                }
            }
        },
        Progress::Finished(_) => {},
    }
}

/// When every step succeeds, a viewer is answered, whatever there was of a pipeline.
pub proof fn law_accepted_when_everything_succeeds(found: PipelineState, sdp: Seq<char>)
    ensures
        ({
            let done = EventView::Done;
            let start = ConnectingView { step: Step::RegisterCodecs, local: None };
            let pipeline = match found {
                PipelineState::Healthy => Seq::empty(),
                PipelineState::Unhealthy => seq![done, done, done],
                PipelineState::Absent => seq![done, done],
            };
            let events = seq![done, done, done, done, EventView::Pipeline(found)] + pipeline + seq![
                done,
                done,
                done,
                done,
                done,
                EventView::LocalDescription(Some(sdp)),
                done,
            ];
            all_possible(start, events) && outcome(start, events) == Progress::Finished(
                AnswerView::Accepted { sdp },
            )
        }),
{
    reveal_with_fuel(outcome, 17);
    reveal_with_fuel(all_possible, 17);
}

/// A request is refused exactly where it has no session description, no type, or another type than
/// `offer`, and the first of these is told.
pub proof fn law_refused_requests(request: ConnectRequest)
    ensures
        request.sdp is None <==> refusal(request) == Some("missing sdp"@),
        request.sdp is Some && request.type_ is None <==> refusal(request) == Some("missing type"@),
        request.sdp is Some && (request.type_ matches Some(t) && t@ != "offer"@) <==> refusal(request)
            == Some("expected offer type"@),
        request.sdp is Some && (request.type_ matches Some(t) && t@ == "offer"@) <==> refusal(request)
            is None,
        BAD_REQUEST == 400,
        SERVER_ERROR == 500,
{
    reveal_strlit("missing sdp");
    reveal_strlit("missing type");
    reveal_strlit("expected offer type");
    assert("missing sdp"@.len() == 11 && "missing type"@.len() == 12
        && "expected offer type"@.len() == 19);
}

/// The order of the steps, each behind one that was done: the codecs, the peer, the two tracks, the
/// search for a pipeline; then, with a pipeline, the tracks are registered in it, the offer is read
/// and set, the answer is made, set and read back, and the session is added. A pipeline that was
/// started is shared before the tracks are registered; one that does not serve is stopped and started
/// anew.
pub proof fn law_order_of_the_steps(state: ConnectingView)
    requires
        state.local is None,
    ensures
        ({
            let done = EventView::Done;
            let goes_to = |from: Step, event: EventView, to: Step|
                (ConnectingView { step: from, ..state }).advanced(event) == Progress::Next(
                    ConnectingView { step: to, ..state },
                );
            &&& goes_to(Step::RegisterCodecs, done, Step::OpenPeer)
            &&& goes_to(Step::OpenPeer, done, Step::AddVideoTrack)
            &&& goes_to(Step::AddVideoTrack, done, Step::AddAudioTrack)
            &&& goes_to(Step::AddAudioTrack, done, Step::FindPipeline)
            &&& goes_to(
                Step::FindPipeline,
                EventView::Pipeline(PipelineState::Healthy),
                Step::RegisterTracks,
            )
            &&& goes_to(
                Step::FindPipeline,
                EventView::Pipeline(PipelineState::Unhealthy),
                Step::StopPipeline,
            )
            &&& goes_to(
                Step::FindPipeline,
                EventView::Pipeline(PipelineState::Absent),
                Step::StartPipeline,
            )
            &&& goes_to(Step::StopPipeline, done, Step::RestartPipeline)
            &&& goes_to(Step::StartPipeline, done, Step::SharePipeline)
            &&& goes_to(Step::RestartPipeline, done, Step::SharePipeline)
            &&& goes_to(Step::SharePipeline, done, Step::RegisterTracks)
            &&& goes_to(Step::RegisterTracks, done, Step::ReadOffer)
            &&& goes_to(Step::ReadOffer, done, Step::SetRemoteDescription)
            &&& goes_to(Step::SetRemoteDescription, done, Step::CreateAnswer)
            &&& goes_to(Step::CreateAnswer, done, Step::SetLocalDescription)
            &&& goes_to(Step::SetLocalDescription, done, Step::ReadLocalDescription)
        }),
{
}

/// The end of a connection: the description that the peer has is kept while the session is added and
/// is then the answer, unchanged; without one the request fails.
pub proof fn law_answer_is_the_local_description(state: ConnectingView, sdp: Seq<char>)
    ensures
        (ConnectingView { step: Step::ReadLocalDescription, ..state }).advanced(
            EventView::LocalDescription(Some(sdp)),
        ) == Progress::Next(ConnectingView { step: Step::AddSession, local: Some(sdp) }),
        (ConnectingView { step: Step::AddSession, local: Some(sdp) }).advanced(EventView::Done)
            == Progress::Finished(AnswerView::Accepted { sdp }),
        (ConnectingView { step: Step::ReadLocalDescription, ..state }).advanced(
            EventView::LocalDescription(None),
        ) == Progress::Finished(
            AnswerView::Refused { status: 500, message: "missing local description"@ },
        ),
{
}

/// A step that fails ends the request with the status 500 and a message that names the step and gives
/// the reason.
pub proof fn law_failures_are_told(state: ConnectingView, reason: Seq<char>)
    ensures
        ({
            let tells = |step: Step, start: Seq<char>|
                possible(step, EventView::Failed(reason)) && (ConnectingView {
                    step,
                    ..state
                }).advanced(EventView::Failed(reason)) == Progress::Finished(
                    AnswerView::Refused { status: 500, message: start + reason },
                );
            &&& tells(Step::RegisterCodecs, "media engine error: "@)
            &&& tells(Step::OpenPeer, "peer init error: "@)
            &&& tells(Step::AddVideoTrack, "video track init error: "@)
            &&& tells(Step::AddAudioTrack, "audio track init error: "@)
            &&& tells(Step::StartPipeline, "media pipeline init error: "@)
            &&& tells(Step::RestartPipeline, "media pipeline restart error: "@)
            &&& tells(Step::ReadOffer, "offer parse error: "@)
            &&& tells(Step::SetRemoteDescription, "remote description error: "@)
            &&& tells(Step::CreateAnswer, "answer creation error: "@)
            &&& tells(Step::SetLocalDescription, "local description error: "@)
        }),
{
}

/// Reading the offer succeeds exactly where it can be read; else the step fails, with the reason.
pub proof fn law_offer_that_cannot_be_read(sdp: Seq<char>, reason: Seq<char>)
    ensures
        offer_result(sdp) is Ok ==> offer_event(offer_result(sdp)) == EventView::Done,
        offer_result(sdp) == Err::<RTCSessionDescription, Seq<char>>(reason) ==> offer_event(
            offer_result(sdp),
        ) == EventView::Failed(reason),
{
}

/// Messages are sent over the two data channels for texts and for faces, and over no other.
pub proof fn law_channels_of_messages(label: Seq<char>)
    ensures
        metadata_label("video-text"@),
        metadata_label("face-data"@),
        label != "video-text"@ && label != "face-data"@ ==> !metadata_label(label),
{
}

/// What is said of events, answers and connections is what they hold.
pub proof fn law_views_of_a_connection(event: Event, answer: Answer, state: Connecting)
    ensures
        event is Done <==> event@ == EventView::Done,
        event matches Event::Failed(e) ==> event@ == EventView::Failed(e@),
        event matches Event::Pipeline(p) ==> event@ == EventView::Pipeline(p),
        event matches Event::LocalDescription(Some(sdp)) ==> event@ == EventView::LocalDescription(
            Some(sdp@),
        ),
        event == Event::LocalDescription(None) ==> event@ == EventView::LocalDescription(None),
        answer matches Answer::Accepted { sdp } ==> answer@ == (AnswerView::Accepted { sdp: sdp@ }),
        answer matches Answer::Refused { status, message } ==> answer@ == (AnswerView::Refused {
            status,
            message: message@,
        }),
        state@.step == state.step,
        state.local matches Some(sdp) ==> state@.local == Some(sdp@),
        state.local is None ==> state@.local is None,
{
}

} // verus!
