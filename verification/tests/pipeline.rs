use surveillance::pipeline::{
    check_camera_restart, child_debug_info, child_running, has_live_media_workers,
    report_without_pipeline, ChildProbe, Media, MediaRegistry,
};

type Registry = MediaRegistry<&'static str, &'static str>;

fn packet(marker: bool) -> Vec<u8> {
    vec![0x80, if marker { 0xE0 } else { 0x60 }, 0, 1, 0, 0, 0, 2, 0, 0, 0, 3, 9]
}

#[test]
fn sessions_are_registered_and_removed() {
    let mut r: Registry = MediaRegistry::new();
    r.register_tracks(1, "v1", "a1");
    r.register_tracks(2, "v2", "a2");
    r.register_metadata_channel(1, "face-data".to_string(), "c1");
    r.register_metadata_channel(2, "face-data".to_string(), "c2");
    r.record_writes(Media::Video, &vec![1, 2, 1]);
    r.record_writes(Media::Audio, &vec![1]);
    r.unregister_tracks(1);
    assert_eq!(r.video_tracks, vec![(2, "v2")]);
    assert_eq!(r.audio_tracks, vec![(2, "a2")]);
    assert_eq!(r.metadata_channels, vec![(2, "face-data".to_string(), "c2")]);
    assert_eq!(r.video_packets_written.get(&1), None);
    assert_eq!(r.video_packets_written.get(&2), Some(&1));
    assert!(r.audio_packets_written.is_empty());
}

#[test]
fn removing_undoes_registering() {
    let mut r: Registry = MediaRegistry::new();
    r.register_tracks(1, "v1", "a1");
    r.register_tracks(2, "v2", "a2");
    r.unregister_tracks(2);
    assert_eq!(r.video_tracks, vec![(1, "v1")]);
    assert_eq!(r.audio_tracks, vec![(1, "a1")]);
    assert!(r.metadata_channels.is_empty() && r.video_packets_written.is_empty());
}

#[test]
fn a_channel_replaces_the_one_of_the_same_label() {
    let mut r: Registry = MediaRegistry::new();
    r.register_metadata_channel(1, "video-text".to_string(), "old");
    r.register_metadata_channel(1, "face-data".to_string(), "other");
    r.register_metadata_channel(1, "video-text".to_string(), "new");
    assert_eq!(
        r.metadata_channels,
        vec![(1, "face-data".to_string(), "other"), (1, "video-text".to_string(), "new")],
    );
    r.unregister_metadata_channel(1, "face-data");
    r.unregister_metadata_channel(2, "video-text");
    assert_eq!(r.metadata_channels, vec![(1, "video-text".to_string(), "new")]);
}

#[test]
fn stale_channels_are_pruned() {
    let mut r: Registry = MediaRegistry::new();
    for s in 1..=3 {
        r.register_metadata_channel(s, "a".to_string(), "x");
        r.register_metadata_channel(s, "b".to_string(), "y");
    }
    r.prune_channels(&vec![(1, "a".to_string()), (3, "b".to_string()), (9, "a".to_string())]);
    let left: Vec<(u64, &str)> =
        r.metadata_channels.iter().map(|(s, l, _)| (*s, l.as_str())).collect();
    assert_eq!(left, [(1, "b"), (2, "a"), (2, "b"), (3, "a")]);
}

#[test]
fn packets_are_counted_and_frames_numbered() {
    let mut r: Registry = MediaRegistry::new();
    let (_, ends) = r.receive_packet(Media::Video, &packet(false)).unwrap();
    assert!(!ends);
    let (_, ends) = r.receive_packet(Media::Video, &packet(true)).unwrap();
    assert!(ends);
    let (_, ends) = r.receive_packet(Media::Audio, &packet(true)).unwrap();
    assert!(!ends);
    assert!(r.receive_packet(Media::Audio, &[1, 2, 3]).is_none());
    assert_eq!((r.video_packets_in, r.audio_packets_in), (2, 1));
    assert_eq!(r.next_frame(), "{\"type\":\"frame_meta\",\"broadcast_frame_seq\":1}");
    assert_eq!(r.next_frame(), "{\"type\":\"frame_meta\",\"broadcast_frame_seq\":2}");
    assert_eq!(r.video_frame_seq, 2);
    r.video_packets_in = u64::MAX;
    r.receive_packet(Media::Video, &packet(false)).unwrap();
    assert_eq!(r.video_packets_in, 0);
}

#[test]
fn sessions_are_reported_in_order() {
    let mut r: Registry = MediaRegistry::new();
    r.register_tracks(7, "v", "a");
    r.register_metadata_channel(3, "a".to_string(), "x");
    r.register_metadata_channel(3, "b".to_string(), "x");
    r.record_writes(Media::Video, &vec![7, 9, 7]);
    r.record_writes(Media::Audio, &vec![7]);
    let report = r.report(&vec![12, 7]);
    let ids: Vec<u64> = report.sessions.iter().map(|s| s.session_id).collect();
    assert_eq!(ids, [3, 7, 9, 12]);
    let seven = &report.sessions[1];
    assert!(seven.active_webrtc_session);
    assert_eq!((seven.video_tracks, seven.audio_tracks, seven.metadata_channels), (1, 1, 0));
    assert_eq!((seven.video_packets_written, seven.audio_packets_written), (2, 1));
    assert_eq!(report.sessions[0].metadata_channels, 2);
    assert!(!report.sessions[2].active_webrtc_session);
    assert!(report.sessions[3].active_webrtc_session);
    assert_eq!(report.metadata_channel_total, 2);
    assert_eq!((report.video_total, report.audio_total), (1, 1));
    assert_eq!(report.active_webrtc_total, 2);
}

#[test]
fn without_a_pipeline_there_is_nothing_to_report() {
    let report = report_without_pipeline(&vec![1, 2, 3]);
    assert_eq!(report.active_webrtc_total, 3);
    assert!(report.sessions.is_empty());
    assert_eq!(report.video_packets_in + report.audio_packets_in + report.video_frame_seq, 0);
}

#[test]
fn programs_must_run() {
    let (absent, exited) = (ChildProbe::Absent, ChildProbe::Exited);
    let (running, unknown) = (ChildProbe::Running, ChildProbe::Unknown);
    assert!(child_running(running) && child_running(unknown));
    assert!(!child_running(absent) && !child_running(exited));
    assert!(has_live_media_workers(running, running, running));
    assert!(has_live_media_workers(running, running, absent));
    assert!(!has_live_media_workers(running, running, exited));
    assert!(!has_live_media_workers(absent, running, running));
    assert!(!has_live_media_workers(running, exited, running));
    assert_eq!(child_debug_info(5, running), (Some(5), true));
    assert_eq!(child_debug_info(5, exited), (Some(5), false));
    assert_eq!(child_debug_info(5, absent), (None, false));
    assert_eq!(check_camera_restart(running, running, "x"), Ok(()));
    assert_eq!(
        check_camera_restart(running, exited, "/dev/video1"),
        Err("camera capture process exited while starting /dev/video1".to_string()),
    );
    assert!(check_camera_restart(exited, running, "x").is_err());
}
