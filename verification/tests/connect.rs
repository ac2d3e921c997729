use surveillance::connect::{
    check_request, is_metadata_label, read_offer, share_pipeline, Answer, ConnectRequest,
    Connecting, Event, PipelineState, Step,
};
use webrtc::api::media_engine::MediaEngine;
use webrtc::api::APIBuilder;
use webrtc::peer_connection::configuration::RTCConfiguration;
use webrtc::rtp_transceiver::rtp_codec::RTPCodecType;

fn request(sdp: Option<&str>, type_: Option<&str>) -> ConnectRequest {
    ConnectRequest { sdp: sdp.map(str::to_string), type_: type_.map(str::to_string) }
}

fn refused(answer: Answer) -> (u16, String) {
    match answer {
        Answer::Refused { status, message } => (status, message),
        Answer::Accepted { sdp } => panic!("{sdp}"),
    }
}

fn advance_to(step: Step) -> Connecting {
    let mut c = Connecting::begin();
    while c.step != step {
        let event = match c.step {
            Step::FindPipeline => Event::Pipeline(match step {
                Step::StartPipeline => PipelineState::Absent,
                Step::StopPipeline | Step::RestartPipeline => PipelineState::Unhealthy,
                _ => PipelineState::Healthy,
            }),
            _ => Event::Done,
        };
        assert!(c.advance(event).is_none());
    }
    c
}

#[test]
fn requests_are_checked() {
    assert_eq!(check_request(request(Some("v=0"), Some("offer"))).unwrap(), "v=0");
    let error = |r: ConnectRequest| refused(check_request(r).unwrap_err());
    assert_eq!(error(request(None, Some("offer"))), (400, "missing sdp".to_string()));
    assert_eq!(error(request(None, None)), (400, "missing sdp".to_string()));
    assert_eq!(error(request(Some(""), None)), (400, "missing type".to_string()));
    assert_eq!(
        error(request(Some("v=0"), Some("answer"))),
        (400, "expected offer type".to_string()),
    );
}

#[test]
fn a_connection_is_made_step_by_step() {
    for (found, extra) in [
        (PipelineState::Healthy, 0),
        (PipelineState::Absent, 2),
        (PipelineState::Unhealthy, 3),
    ] {
        let mut c = Connecting::begin();
        let mut steps = 0;
        loop {
            steps += 1;
            let event = match c.step {
                Step::FindPipeline => Event::Pipeline(found),
                Step::ReadLocalDescription => Event::LocalDescription(Some("v=0 answer".to_string())),
                _ => Event::Done,
            };
            if let Some(answer) = c.advance(event) {
                match answer {
                    Answer::Accepted { sdp } => assert_eq!(sdp, "v=0 answer"),
                    other => panic!("{other:?}"),
                }
                break;
            }
        }
        assert_eq!(steps, 12 + extra);
    }
}

#[test]
fn failures_are_answered() {
    for (step, prefix) in [
        (Step::RegisterCodecs, "media engine error: "),
        (Step::OpenPeer, "peer init error: "),
        (Step::AddVideoTrack, "video track init error: "),
        (Step::AddAudioTrack, "audio track init error: "),
        (Step::StartPipeline, "media pipeline init error: "),
        (Step::RestartPipeline, "media pipeline restart error: "),
        (Step::ReadOffer, "offer parse error: "),
        (Step::SetRemoteDescription, "remote description error: "),
        (Step::CreateAnswer, "answer creation error: "),
        (Step::SetLocalDescription, "local description error: "),
    ] {
        let mut c = advance_to(step);
        let answer = c.advance(Event::Failed("why".to_string())).unwrap();
        assert_eq!(refused(answer), (500, format!("{prefix}why")));
    }
    let mut c = advance_to(Step::ReadLocalDescription);
    let answer = c.advance(Event::LocalDescription(None)).unwrap();
    assert_eq!(refused(answer), (500, "missing local description".to_string()));
}

#[test]
fn an_unhealthy_pipeline_is_stopped_before_a_new_one_is_started() {
    let mut c = advance_to(Step::StopPipeline);
    assert!(c.advance(Event::Done).is_none());
    assert_eq!(c.step, Step::RestartPipeline);
    assert!(c.advance(Event::Done).is_none());
    assert_eq!(c.step, Step::SharePipeline);
    assert!(c.advance(Event::Done).is_none());
    assert_eq!(c.step, Step::RegisterTracks);
}

#[test]
fn pipelines_are_shared() {
    let mut shared: Option<String> = None;
    assert_eq!(share_pipeline(&mut shared, "one".to_string()), "one");
    assert_eq!(share_pipeline(&mut shared, "two".to_string()), "one");
    assert_eq!(shared.as_deref(), Some("one"));
}

#[test]
fn messages_go_over_two_channels() {
    assert!(is_metadata_label("video-text") && is_metadata_label("face-data"));
    assert!(!is_metadata_label("chat") && !is_metadata_label(""));
}

#[test]
fn offers_that_cannot_be_read_are_refused() {
    let (offer, event) = read_offer("hello".to_string());
    assert!(offer.is_none());
    let expected = webrtc::peer_connection::sdp::session_description::RTCSessionDescription::offer(
        "hello".to_string(),
    )
    .unwrap_err()
    .to_string();
    match event {
        Event::Failed(e) => assert_eq!(e, expected),
        other => panic!("{other:?}"),
    }
}

#[test]
fn offers_of_a_peer_are_read() {
    let runtime = tokio::runtime::Builder::new_multi_thread().enable_all().build().unwrap();
    let sdp = runtime.block_on(async {
        let mut media_engine = MediaEngine::default();
        media_engine.register_default_codecs().unwrap();
        let api = APIBuilder::new().with_media_engine(media_engine).build();
        let pc = api.new_peer_connection(RTCConfiguration::default()).await.unwrap();
        pc.create_data_channel("face-data", None).await.unwrap();
        pc.add_transceiver_from_kind(RTPCodecType::Video, None).await.unwrap();
        pc.add_transceiver_from_kind(RTPCodecType::Audio, None).await.unwrap();
        let offer = pc.create_offer(None).await.unwrap();
        offer.sdp
    });
    assert!(sdp.starts_with("v=0"));
    let (offer, event) = read_offer(sdp.clone());
    let (description, text) = offer.unwrap();
    assert_eq!(description.sdp, sdp);
    assert_eq!(text, sdp);
    assert!(matches!(event, Event::Done));
}
