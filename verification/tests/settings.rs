use surveillance::config::{Config, EnvVars};
use surveillance::settings::{
    camera_restart_failed, content_type, microphones, select_audio, set_camera, set_volume,
    speakers, static_path, AudioSelectionRequest, AudioState, CameraSettingsRequest, Manager,
    SettingsError,
};

fn config() -> Config {
    let vars = EnvVars {
        home: None,
        server_host: None,
        server_port: None,
        ssl_cert_path: None,
        ssl_key_path: None,
        camera_device: Some("/dev/video0".to_string()),
        camera_width: None,
        camera_height: None,
        camera_fps: None,
        pulse_sink_name: None,
        pulse_capture_source_name: Some("mic".to_string()),
        face_recognition_enabled: Some("true".to_string()),
        face_recognition_known_faces_dir: None,
        face_recognition_match_threshold: None,
        face_recognition_max_faces: None,
        face_recognition_detect_every_n_frames: Some("0".to_string()),
        face_recognition_cascade_path: None,
        face_recognition_min_consecutive_frames: None,
    };
    Config::from_env(&vars, String::new())
}

fn request(width: i32, height: i32, fps: i32, device: Option<&str>) -> CameraSettingsRequest {
    CameraSettingsRequest { width, height, fps, camera_device: device.map(str::to_string) }
}

#[test]
fn settings_begin_as_configured() {
    let m = Manager::from_config(&config());
    assert_eq!((m.camera.width, m.camera.height, m.camera.fps), (1920, 1080, 25));
    assert_eq!(m.camera.camera_device, "/dev/video0");
    assert_eq!(m.audio.selected_microphone, "mic");
    assert_eq!(m.audio.selected_speaker, "@DEFAULT_SINK@");
    assert_eq!(m.audio.volume, 70);
    assert_eq!(m.face.message, "not initialized");
    assert_eq!(m.face.detect_every_n_frames, 0);
    let audio = AudioState::default();
    assert_eq!(audio.selected_microphone, "@DEFAULT_SOURCE@");
    assert_eq!((audio.selected_speaker.as_str(), audio.volume), ("@DEFAULT_SINK@", 70));
}

#[test]
fn cameras_are_set() {
    let config = config();
    let mut m = Manager::from_config(&config);
    let change = set_camera(&mut m, &config, &request(1280, 720, 60, Some("rpicam://0"))).unwrap();
    assert_eq!(change.selected_camera_device, "rpicam://0");
    assert_eq!(change.camera_source_type, "CSI");
    assert_eq!(change.pipeline_config.camera_device, "rpicam://0");
    assert_eq!((m.camera.width, m.camera.height, m.camera.fps), (1280, 720, 60));
    assert_eq!(m.camera.camera_device, "rpicam://0");
    let run = m.pipeline_config(&config);
    assert_eq!((run.camera_device.as_str(), run.camera_width), ("rpicam://0", 1280));
    for blank in [None, Some("  ")] {
        let change = set_camera(&mut m, &config, &request(640, 480, 1, blank)).unwrap();
        assert_eq!(change.selected_camera_device, "/dev/video0");
        assert_eq!(change.camera_source_type, "V4L2");
        assert_eq!(change.pipeline_config.camera_fps, 1);
        assert_eq!(m.camera.camera_device, "rpicam://0");
    }
}

#[test]
fn requests_on_the_camera_are_checked() {
    let config = config();
    let mut m = Manager::from_config(&config);
    let mut error = |w: i32, h: i32, f: i32| {
        set_camera(&mut m, &config, &request(w, h, f, Some("/dev/video5"))).unwrap_err()
    };
    assert_eq!(error(0, 480, 25), SettingsError::NotPositive);
    assert_eq!(error(640, -1, 25), SettingsError::NotPositive);
    assert_eq!(error(640, 480, 0), SettingsError::NotPositive);
    assert_eq!(error(640, 480, 61), SettingsError::FrameRate);
    let unsupported = error(800, 600, 61);
    assert_eq!(unsupported, SettingsError::UnsupportedResolution { width: 800, height: 600 });
    assert_eq!(unsupported.message(), "unsupported resolution 800x600");
    assert_eq!(SettingsError::NotPositive.message(), "width, height and fps must be integers");
    assert_eq!(SettingsError::FrameRate.message(), "fps must be between 1 and 60");
    assert_eq!(m.camera.camera_device, "/dev/video0");
    assert_eq!(m.camera.width, 1920);
    assert_eq!(camera_restart_failed("x"), "camera restart failed: x");
}

#[test]
fn sound_devices_are_selected() {
    let mut audio = AudioState::default();
    let request = AudioSelectionRequest {
        microphone: Some("usb".to_string()),
        speaker: Some(" ".to_string()),
    };
    select_audio(&mut audio, &request);
    assert_eq!(audio.selected_microphone, "usb");
    assert_eq!(audio.selected_speaker, "@DEFAULT_SINK@");
    select_audio(&mut audio, &AudioSelectionRequest { microphone: None, speaker: Some("hdmi".to_string()) });
    assert_eq!((audio.selected_microphone.as_str(), audio.selected_speaker.as_str()), ("usb", "hdmi"));
    assert_eq!(microphones()[0].id, "@DEFAULT_SOURCE@");
    assert_eq!(microphones()[1].kind, "pulseaudio-source");
    assert_eq!(speakers()[0].name, "Default speaker");
    assert_eq!(speakers()[1].id, "alsa_output.pci-0000_00_1f.3.analog-stereo");
}

#[test]
fn the_volume_is_in_percent() {
    let mut audio = AudioState::default();
    for v in [-5, 0, 33, 100, 101, i32::MAX, i32::MIN] {
        set_volume(&mut audio, v);
        assert_eq!(audio.volume, v.clamp(0, 100));
    }
}

#[test]
fn files_are_served_with_their_types() {
    assert_eq!(static_path("//js/app.js"), "js/app.js");
    assert_eq!(static_path("index.html"), "index.html");
    assert_eq!(static_path("///"), "");
    for (extension, mime) in [
        ("html", "text/html; charset=utf-8"),
        ("js", "application/javascript; charset=utf-8"),
        ("css", "text/css; charset=utf-8"),
        ("png", "image/png"),
        ("jpg", "image/jpeg"),
        ("jpeg", "image/jpeg"),
        ("svg", "image/svg+xml"),
        ("json", "application/json; charset=utf-8"),
        ("bin", "application/octet-stream"),
        ("HTML", "application/octet-stream"),
    ] {
        assert_eq!(content_type(Some(extension)), mime);
    }
    assert_eq!(content_type(None), "application/octet-stream");
}
