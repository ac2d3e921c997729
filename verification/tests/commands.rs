use surveillance::camera::Probe;
use surveillance::commands::{
    audio_capture_command, camera_capture_command, count_listed_workers, is_talkback_file,
    talkback_file_name, talkback_play_command, talkback_sdp, talkback_target,
    video_encoder_command, worker_patterns, TALKBACK_RTP_PORT,
};
use surveillance::config::{Config, EnvVars};

fn config(device: &str, width: i32, height: i32, fps: i32) -> Config {
    let vars = EnvVars {
        home: None,
        server_host: None,
        server_port: None,
        ssl_cert_path: None,
        ssl_key_path: None,
        camera_device: None,
        camera_width: None,
        camera_height: None,
        camera_fps: None,
        pulse_sink_name: None,
        pulse_capture_source_name: None,
        face_recognition_enabled: None,
        face_recognition_known_faces_dir: None,
        face_recognition_match_threshold: None,
        face_recognition_max_faces: None,
        face_recognition_detect_every_n_frames: None,
        face_recognition_cascade_path: None,
        face_recognition_min_consecutive_frames: None,
    };
    Config::from_env(&vars, String::new()).with_camera(device, width, height, fps)
}

#[test]
fn the_encoder_is_called_so() {
    let c = video_encoder_command(&config("/dev/video0", 1920, 1080, 25), 40000);
    assert_eq!(c.program, "ffmpeg");
    assert_eq!(
        c.args.join(" "),
        "-hide_banner -loglevel error -f mjpeg -framerate 25 -i pipe:0 -an -c:v libvpx -deadline \
         realtime -cpu-used 5 -pix_fmt yuv420p -f rtp rtp://127.0.0.1:40000 -an -vf \
         fps=2,scale=640:-2 -c:v mjpeg -q:v 5 -f image2pipe pipe:1",
    );
    assert_eq!(video_encoder_command(&config("", 1, 1, -3), 1).args[6], "1");
}

#[test]
fn cameras_are_captured_so() {
    let c = camera_capture_command(&config("/dev/video2", 1280, 720, 30));
    assert_eq!(c.program, "ffmpeg");
    assert_eq!(
        c.args.join(" "),
        "-hide_banner -loglevel error -f v4l2 -input_format mjpeg -video_size 1280x720 -framerate \
         30 -i /dev/video2 -vcodec copy -f mjpeg pipe:1",
    );
    let c = camera_capture_command(&config("rpicam://1", 0, -5, 0));
    assert_eq!(c.program, "rpicam-vid");
    assert_eq!(
        c.args.join(" "),
        "--camera 1 --codec mjpeg --width 2 --height 2 --framerate 1 --timeout 0 --nopreview \
         --output -",
    );
}

#[test]
fn sound_is_captured_so() {
    let c = audio_capture_command("mic", 40002);
    assert_eq!(c.program, "ffmpeg");
    assert_eq!(
        c.args.join(" "),
        "-hide_banner -loglevel error -fflags nobuffer -f pulse -i mic -ar 48000 -ac 1 -af \
         volume=18dB,acompressor=threshold=-24dB:ratio=8:attack=5:release=100:makeup=6dB -c:a \
         libopus -application lowdelay -frame_duration 20 -f rtp rtp://127.0.0.1:40002",
    );
    assert_eq!(audio_capture_command("", 1).args[8], "default");
    assert_eq!(audio_capture_command("@DEFAULT_SOURCE@", 1).args[8], "default");
    assert_eq!(audio_capture_command("@DEFAULT_SINK@", 1).args[8], "@DEFAULT_SINK@");
}

#[test]
fn sound_is_played_so() {
    let c = talkback_play_command("/tmp/x.sdp", "@DEFAULT_SINK@");
    assert_eq!(
        c.args.join(" "),
        "-hide_banner -loglevel error -protocol_whitelist file,udp,rtp -f sdp -i /tmp/x.sdp -af \
         volume=5.0 -f pulse default",
    );
    assert_eq!(talkback_play_command("/tmp/x.sdp", "hdmi").args[13], "hdmi");
    assert_eq!(talkback_target(), "127.0.0.1:5010");
    assert_eq!(
        talkback_sdp(TALKBACK_RTP_PORT),
        "v=0\no=- 0 0 IN IP4 127.0.0.1\ns=Surveillance Rust Talkback\nc=IN IP4 127.0.0.1\nt=0 0\n\
         m=audio 5010 RTP/AVP 111\na=rtpmap:111 opus/48000/2\n",
    );
}

#[test]
fn session_descriptions_are_found_by_their_names() {
    assert_eq!(talkback_file_name(1700000000000), "surveillance-rust-talkback-1700000000000.sdp");
    assert!(is_talkback_file(&talkback_file_name(0)));
    assert!(is_talkback_file(&talkback_file_name(u128::MAX)));
    assert!(!is_talkback_file("surveillance-rust-talkback-1.txt"));
    assert!(!is_talkback_file("x-surveillance-rust-talkback-1.sdp"));
}

#[test]
fn programs_are_counted() {
    let count = |s: &str| count_listed_workers(&Probe::Output(s.to_string()));
    assert_eq!(count("12\n 34 \n\n  \n56"), 3);
    assert_eq!(count(""), 0);
    assert_eq!(count_listed_workers(&Probe::Failed), 0);
    assert_eq!(count_listed_workers(&Probe::Unavailable), 0);
    let patterns = worker_patterns();
    assert_eq!(patterns, ["rtp://127.0.0.1:", "surveillance-rust-talkback-"]);
    assert!(audio_capture_command("", 9).args[23].starts_with(&patterns[0]));
    assert!(talkback_file_name(9).starts_with(&patterns[1]));
}
