use surveillance::camera::{
    available_camera_devices, camera_source_type_for_device, check_capabilities, csi_device,
    is_supported_v4l2_camera, list_video_nodes, rpicam_camera_available, rpicam_camera_indices,
    rpicam_index, select_default_camera_device, supported_resolutions, tells_motion_jpeg,
    tells_video_capture, CameraCheck, Probe,
};

fn output(text: &str) -> Probe {
    Probe::Output(text.to_string())
}

#[test]
fn csi_cameras_are_named_by_their_numbers() {
    assert_eq!(rpicam_index("rpicam://0").as_deref(), Some("0"));
    assert_eq!(rpicam_index("  rpicam://12\n").as_deref(), Some("12"));
    assert_eq!(rpicam_index("rpicam://007").as_deref(), Some("007"));
    for s in ["", "rpicam://", "rpicam://1a", "rpicam://+1", "/dev/video0", "xrpicam://1"] {
        assert_eq!(rpicam_index(s), None, "{s}");
    }
    assert_eq!(rpicam_index(&csi_device(4294967295)).as_deref(), Some("4294967295"));
}

#[test]
fn devices_tell_their_kind() {
    assert_eq!(camera_source_type_for_device("rpicam://0"), "CSI");
    assert_eq!(camera_source_type_for_device("/dev/video10"), "V4L2");
    assert_eq!(camera_source_type_for_device(" rpicam://0"), "Unknown");
    assert_eq!(camera_source_type_for_device("/dev/null"), "Unknown");
    assert_eq!(camera_source_type_for_device(&csi_device(3)), "CSI");
}

#[test]
fn the_list_of_csi_cameras_is_read() {
    let text = "Available cameras\n-----------------\n1 : ov5647 [2592x1944 10-bit] (/base/x)\n    \
                Modes: 'SGBRG10_CSI2P' : 640x480\n0 : imx708 [4608x2592]\n1 : again [1x1]\n\
                2 : [no name]\n 3:plain \n";
    let cameras = rpicam_camera_indices(&output(text));
    let expected: Vec<(u32, String)> =
        vec![(0, "imx708".into()), (1, "ov5647".into()), (3, "plain".into())];
    assert_eq!(cameras, expected);
    assert!(rpicam_camera_indices(&Probe::Failed).is_empty());
    assert!(rpicam_camera_indices(&Probe::Unavailable).is_empty());
    assert!(rpicam_camera_indices(&output("No cameras available!")).is_empty());
}

#[test]
fn video_nodes_are_listed_by_their_numbers() {
    let names: Vec<String> = ["video10", "video2", "videoX", "tty0", "video", "video0", "video02", "media0"]
        .iter()
        .map(|s| s.to_string())
        .collect();
    assert_eq!(
        list_video_nodes(&names),
        ["/dev/video0", "/dev/video2", "/dev/video02", "/dev/video10"],
    );
}

#[test]
fn a_camera_must_capture_motion_jpeg() {
    let video = output("Device Caps: Video Capture, Streaming");
    let meta = output("Device Caps: Metadata Capture");
    let mjpg = output("[0]: 'MJPG' (Motion-JPEG, compressed)");
    let yuyv = output("[0]: 'YUYV' (YUYV 4:2:2)");
    assert!(!is_supported_v4l2_camera(false, &video, &mjpg));
    assert!(is_supported_v4l2_camera(true, &video, &mjpg));
    assert!(!is_supported_v4l2_camera(true, &video, &yuyv));
    assert!(!is_supported_v4l2_camera(true, &video, &Probe::Failed));
    assert!(!is_supported_v4l2_camera(true, &video, &Probe::Unavailable));
    assert!(!is_supported_v4l2_camera(true, &meta, &mjpg));
    assert!(!is_supported_v4l2_camera(true, &Probe::Failed, &mjpg));
    assert!(is_supported_v4l2_camera(true, &Probe::Unavailable, &Probe::Unavailable));
    assert_eq!(check_capabilities(true, &video), CameraCheck::AskFormats);
    assert_eq!(check_capabilities(true, &meta), CameraCheck::Unsupported);
    assert_eq!(check_capabilities(true, &Probe::Unavailable), CameraCheck::Supported);
    assert_eq!(check_capabilities(false, &video), CameraCheck::Unsupported);
    assert!(tells_video_capture("metadata capture, video capture"));
    assert!(!tells_video_capture("Video Capture"));
    assert!(tells_motion_jpeg("motion-jpeg"));
    assert!(!tells_motion_jpeg("MJPG"));
}

#[test]
fn the_default_device_is_the_first_that_can_be_used() {
    let nodes = |flags: [bool; 2]| {
        vec![("/dev/video0".to_string(), flags[0]), ("/dev/video1".to_string(), flags[1])]
    };
    let cameras = vec![(2u32, "imx".to_string())];
    assert_eq!(select_default_camera_device(&nodes([false, true]), true, &cameras), "/dev/video1");
    assert_eq!(select_default_camera_device(&nodes([false, false]), true, &cameras), "rpicam://2");
    assert_eq!(select_default_camera_device(&nodes([false, false]), false, &cameras), "/dev/video0");
    assert_eq!(select_default_camera_device(&vec![], true, &vec![]), "/dev/video0");
    assert!(rpicam_camera_available(true, true, &cameras));
    assert!(!rpicam_camera_available(true, false, &cameras));
    assert!(!rpicam_camera_available(false, true, &cameras));
    assert!(!rpicam_camera_available(true, true, &vec![]));
}

#[test]
fn devices_that_can_be_used_are_listed() {
    let nodes = vec![("/dev/video0".to_string(), false), ("/dev/video3".to_string(), true)];
    let cameras = vec![(0u32, "imx708".to_string())];
    let devices = available_camera_devices(&nodes, true, true, &cameras);
    assert_eq!(devices.len(), 2);
    assert_eq!(devices[0].path, "/dev/video3");
    assert_eq!(devices[0].name, "/dev/video3");
    assert_eq!(devices[0].reason, "v4l2");
    assert!(devices[0].supported);
    assert_eq!(devices[1].path, "rpicam://0");
    assert_eq!(devices[1].name, "CSI Camera 0: imx708");
    assert_eq!(devices[1].reason, "CSI camera via rpicam-vid mjpeg stream");
    assert_eq!(devices[1].supported_resolutions, supported_resolutions());
    assert_eq!(available_camera_devices(&nodes, true, false, &cameras).len(), 1);
    assert_eq!(
        select_default_camera_device(&nodes, true, &cameras),
        available_camera_devices(&nodes, true, true, &cameras)[0].path,
    );
    assert_eq!(
        supported_resolutions(),
        [(640, 480), (1280, 720), (1920, 1080), (2560, 1440)],
    );
}

#[test]
fn devices_stand_by_kind_and_number() {
    let names: Vec<String> = ["video10", "video1", "video+1", "video0", "video2"]
        .iter()
        .map(|s| s.to_string())
        .collect();
    let nodes: Vec<(String, bool)> = list_video_nodes(&names)
        .into_iter()
        .map(|path| {
            let usable = path != "/dev/video2";
            (path, usable)
        })
        .collect();
    let cameras = rpicam_camera_indices(&output("11 : b [x]\n2 : a [x]\n11 : c [x]\n"));
    let devices = available_camera_devices(&nodes, true, true, &cameras);
    let paths: Vec<&str> = devices.iter().map(|d| d.path.as_str()).collect();
    assert_eq!(
        paths,
        [
            "/dev/video0", "/dev/video1", "/dev/video+1", "/dev/video10", "rpicam://2",
            "rpicam://11",
        ],
    );
    assert!(devices.iter().all(|d| d.supported));
    assert!(paths.iter().all(|p| camera_source_type_for_device(p) != "Unknown"));
}
