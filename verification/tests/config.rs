use surveillance::binary64::Binary64;
use surveillance::config::{Config, EnvVars};

fn unset() -> EnvVars {
    EnvVars {
        home: None,
        server_host: None,
        server_port: None,
        ssl_cert_path: None,
        ssl_key_path: None,
        camera_device: None,
        camera_width: None,
        camera_height: None,
        camera_fps: None,
        pulse_sink_name: None,
        pulse_capture_source_name: None,
        face_recognition_enabled: None,
        face_recognition_known_faces_dir: None,
        face_recognition_match_threshold: None,
        face_recognition_max_faces: None,
        face_recognition_detect_every_n_frames: None,
        face_recognition_cascade_path: None,
        face_recognition_min_consecutive_frames: None,
    }
}

fn some(s: &str) -> Option<String> {
    Some(s.to_string())
}

fn read(vars: &EnvVars) -> Config {
    Config::from_env(vars, "/dev/video9".to_string())
}

#[test]
fn unset_variables_mean_defaults() {
    let c = read(&unset());
    assert_eq!(c.server_host, "0.0.0.0");
    assert_eq!(c.server_port, 5000);
    assert_eq!(c.ssl_cert_path, "/certs/cert.pem");
    assert_eq!(c.ssl_key_path, "/certs/key.pem");
    assert_eq!(c.camera_device, "/dev/video9");
    assert_eq!((c.camera_width, c.camera_height, c.camera_fps), (1920, 1080, 25));
    assert_eq!(c.pulse_sink_name, "@DEFAULT_SINK@");
    assert_eq!(c.pulse_capture_source_name, "@DEFAULT_SOURCE@");
    assert!(!c.face_recognition_enabled);
    assert_eq!(c.face_recognition_known_faces_dir, "/known_faces");
    assert_eq!(f64::from_bits(c.face_recognition_match_threshold.bits), 0.6);
    assert_eq!(c.face_recognition_max_faces, 8);
    assert_eq!(c.face_recognition_detect_every_n_frames, 1);
    assert_eq!(c.face_recognition_cascade_path, "");
    assert_eq!(c.face_recognition_min_consecutive_frames, 1);
    assert_eq!(c.address(), "0.0.0.0:5000");
}

#[test]
fn variables_are_read() {
    let mut v = unset();
    v.home = some("/home/pi");
    v.server_host = some("cam.local");
    v.server_port = some("8443");
    v.ssl_cert_path = some("${HOME}/x/${HOME}.pem");
    v.camera_device = some(" rpicam://1 ");
    v.camera_width = some("-640");
    v.camera_height = some("+480");
    v.camera_fps = some("30");
    v.pulse_sink_name = some("sink");
    v.pulse_capture_source_name = some("");
    v.face_recognition_enabled = some("true");
    v.face_recognition_match_threshold = Some(Binary64 { bits: 0.8f64.to_bits() });
    v.face_recognition_max_faces = some("0");
    v.face_recognition_cascade_path = some("/c.xml");
    let c = read(&v);
    assert_eq!(c.address(), "cam.local:8443");
    assert_eq!(c.ssl_cert_path, "/home/pi/x//home/pi.pem");
    assert_eq!(c.ssl_key_path, "/home/pi/certs/key.pem");
    assert_eq!(c.camera_device, "rpicam://1");
    assert_eq!((c.camera_width, c.camera_height, c.camera_fps), (-640, 480, 30));
    assert_eq!(c.pulse_sink_name, "sink");
    assert_eq!(c.pulse_capture_source_name, "");
    assert!(c.face_recognition_enabled);
    assert_eq!(c.face_recognition_known_faces_dir, "/home/pi/known_faces");
    assert_eq!(f64::from_bits(c.face_recognition_match_threshold.bits), 0.8);
    assert_eq!(c.face_recognition_max_faces, 0);
    assert_eq!(c.face_recognition_cascade_path, "/c.xml");
}

#[test]
fn variables_that_cannot_be_read_mean_defaults() {
    let mut v = unset();
    v.server_port = some("65536");
    v.camera_device = some("  \t");
    v.camera_width = some("1920px");
    v.camera_fps = some("");
    v.face_recognition_enabled = some("True");
    v.face_recognition_max_faces = some("2147483648");
    let c = read(&v);
    assert_eq!(c.server_port, 5000);
    assert_eq!(c.camera_device, "/dev/video9");
    assert_eq!((c.camera_width, c.camera_fps), (1920, 25));
    assert!(!c.face_recognition_enabled);
    assert_eq!(c.face_recognition_max_faces, 8);
}

#[test]
fn another_camera_can_be_put_in() {
    let c = read(&unset()).with_camera("rpicam://0", 640, 480, 15);
    assert_eq!(c.camera_device, "rpicam://0");
    assert_eq!((c.camera_width, c.camera_height, c.camera_fps), (640, 480, 15));
    assert_eq!(c.server_port, 5000);
}
