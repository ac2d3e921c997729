//! What viewers can set: the camera, the sound devices and the volume; and what files they are served.

use vstd::prelude::*;

use crate::camera::{camera_source_type_for_device, resolutions, source_type};
use crate::config::{Config, ConfigView};
use crate::decimal::{signed_decimal, signed_text};
use crate::service::{no_result, FaceDetectionResult, FaceStatus, FaceStatusView};
use crate::text::{
    chars_of, is_blank, joined, law_trimming_takes_the_white_space_off, same_text, string_of, trimmed,
    white_space,
};

verus! {

/// The lowest frame rate.
pub const MIN_FPS: i32 = 1;

/// The highest frame rate.
pub const MAX_FPS: i32 = 60;

/// The volume of the speaker at the start, in percent.
pub const DEFAULT_VOLUME: i32 = 70;

/// The camera and how it is used.
#[derive(Debug)]
pub struct CameraState {
    pub width: i32,
    pub height: i32,
    pub fps: i32,
    pub camera_device: String,
}

/// What a [`CameraState`] says.
#[verifier::ext_equal]
pub struct CameraStateView {
    pub width: int,
    pub height: int,
    pub fps: int,
    pub camera_device: Seq<char>,
}

impl View for CameraState {
    type V = CameraStateView;

    open spec fn view(&self) -> CameraStateView {
        CameraStateView {
            width: self.width as int,
            height: self.height as int,
            fps: self.fps as int,
            camera_device: self.camera_device@,
        }
    }
}

/// The sound devices and the volume.
#[derive(Debug)]
pub struct AudioState {
    pub selected_microphone: String,
    pub selected_speaker: String,
    pub volume: i32,
}

/// What an [`AudioState`] says.
#[verifier::ext_equal]
pub struct AudioStateView {
    pub selected_microphone: Seq<char>,
    pub selected_speaker: Seq<char>,
    pub volume: int,
}

impl View for AudioState {
    type V = AudioStateView;

    open spec fn view(&self) -> AudioStateView {
        AudioStateView {
            selected_microphone: self.selected_microphone@,
            selected_speaker: self.selected_speaker@,
            volume: self.volume as int,
        }
    }
}

impl Default for AudioState {
    fn default() -> (res: AudioState)
        ensures
            res@ == (AudioStateView {
                selected_microphone: "@DEFAULT_SOURCE@"@,
                selected_speaker: "@DEFAULT_SINK@"@,
                volume: DEFAULT_VOLUME as int,
            }),
    {
        AudioState {
            selected_microphone: "@DEFAULT_SOURCE@".to_owned(),
            selected_speaker: "@DEFAULT_SINK@".to_owned(),
            volume: DEFAULT_VOLUME,
        }
    }
}

/// What is set.
#[derive(Debug)]
pub struct Manager {
    pub camera: CameraState,
    pub audio: AudioState,
    /// The face recognition as it was at the start.
    pub face: FaceStatus,
}

/// What a [`Manager`] says.
#[verifier::ext_equal]
pub struct ManagerView {
    pub camera: CameraStateView,
    pub audio: AudioStateView,
    pub face: FaceStatusView,
}

impl View for Manager {
    type V = ManagerView;

    open spec fn view(&self) -> ManagerView {
        ManagerView { camera: self.camera@, audio: self.audio@, face: self.face@ }
    }
}

/// What is set at the start.
pub open spec fn initial_settings(config: ConfigView) -> ManagerView {
    ManagerView {
        camera: CameraStateView {
            width: config.camera_width,
            height: config.camera_height,
            fps: config.camera_fps,
            camera_device: config.camera_device,
        },
        audio: AudioStateView {
            selected_microphone: config.pulse_capture_source_name,
            selected_speaker: config.pulse_sink_name,
            volume: DEFAULT_VOLUME as int,
        },
        face: FaceStatusView {
            enabled: config.face_recognition_enabled,
            available: false,
            initializing: false,
            backend: "opencv-haar-template"@,
            message: if config.face_recognition_enabled {
                "not initialized"@
            } else {
                "disabled"@
            },
            known_faces_count: 0,
            detect_every_n_frames: config.face_recognition_detect_every_n_frames as i32,
            match_threshold: config.face_recognition_match_threshold,
            max_faces: config.face_recognition_max_faces as i32,
            result: no_result(),
        },
    }
}

impl Manager {
    /// What is set at the start.
    pub fn from_config(config: &Config) -> (res: Manager)
        ensures
            res@ == initial_settings(config@),
    {
        let res = Manager {
            camera: CameraState {
                width: config.camera_width,
                height: config.camera_height,
                fps: config.camera_fps,
                camera_device: config.camera_device.clone(),
            },
            audio: AudioState {
                selected_microphone: config.pulse_capture_source_name.clone(),
                selected_speaker: config.pulse_sink_name.clone(),
                volume: DEFAULT_VOLUME,
            },
            face: FaceStatus {
                enabled: config.face_recognition_enabled,
                available: false,
                initializing: false,
                backend: "opencv-haar-template".to_owned(),
                message: if config.face_recognition_enabled {
                    "not initialized".to_owned()
                } else {
                    "disabled".to_owned()
                },
                known_faces_count: 0,
                detect_every_n_frames: config.face_recognition_detect_every_n_frames,
                match_threshold: config.face_recognition_match_threshold,
                max_faces: config.face_recognition_max_faces,
                result: FaceDetectionResult::default(),
            },
        };
        assert(res@ =~= initial_settings(config@));
        res
    }

    /// The configuration with the camera that is set.
    pub fn pipeline_config(&self, config: &Config) -> (res: Config)
        ensures
            res@ == with_camera_state(config@, self@.camera),
    {
        config.with_camera(
            self.camera.camera_device.as_str(),
            self.camera.width,
            self.camera.height,
            self.camera.fps,
        )
    }
}

/// The configuration with a camera.
pub open spec fn with_camera_state(config: ConfigView, camera: CameraStateView) -> ConfigView {
    ConfigView {
        camera_device: camera.camera_device,
        camera_width: camera.width,
        camera_height: camera.height,
        camera_fps: camera.fps,
        ..config
    }
}

/// A request to use a camera so.
#[derive(Debug)]
pub struct CameraSettingsRequest {
    pub width: i32,
    pub height: i32,
    pub fps: i32,
    pub camera_device: Option<String>,
}

/// Why a request on the camera is refused.
#[derive(Clone, Copy, Debug, PartialEq, Eq, Structural)]
pub enum SettingsError {
    /// A number is not positive.
    NotPositive,
    /// The resolution is not one of those that can be selected.
    UnsupportedResolution { width: i32, height: i32 },
    /// The frame rate is too high.
    FrameRate,
}

/// What is said of a refused request.
pub open spec fn settings_error_text(e: SettingsError) -> Seq<char> {
    match e {
        SettingsError::NotPositive => "width, height and fps must be integers"@,
        SettingsError::UnsupportedResolution { width, height } => "unsupported resolution "@
            + signed_decimal(width as int) + "x"@ + signed_decimal(height as int),
        SettingsError::FrameRate => "fps must be between 1 and 60"@,
    }
}

impl SettingsError {
    /// What is said of a refused request.
    pub fn message(&self) -> (res: String)
        ensures
            res@ == settings_error_text(*self),
    {
        match self {
            SettingsError::NotPositive => "width, height and fps must be integers".to_owned(),
            SettingsError::UnsupportedResolution { width, height } => joined(
                joined(
                    joined("unsupported resolution ", signed_text(*width).as_str()).as_str(),
                    "x",
                ).as_str(),
                signed_text(*height).as_str(),
            ),
            SettingsError::FrameRate => "fps must be between 1 and 60".to_owned(),
        }
    }
}

/// Why a request on the camera is refused; none where it is not.
pub open spec fn camera_refusal(width: i32, height: i32, fps: i32) -> Option<SettingsError> {
    if width <= 0 || height <= 0 || fps <= 0 {
        Some(SettingsError::NotPositive)
    } else if !resolutions().contains((width, height)) {
        Some(SettingsError::UnsupportedResolution { width, height })
    } else if fps > MAX_FPS {
        Some(SettingsError::FrameRate)
    } else {
        None
    }
}

/// Checks a request on the camera.
fn check_camera(width: i32, height: i32, fps: i32) -> (res: Option<SettingsError>)
    ensures
        res == camera_refusal(width, height, fps),
{
    if width <= 0 || height <= 0 || fps <= 0 {
        return Some(SettingsError::NotPositive);
    }
    let supported: bool = (width == 640 && height == 480) || (width == 1280 && height == 720) || (width
        == 1920 && height == 1080) || (width == 2560 && height == 1440);
    proof {
        let all = resolutions();
        assert(all[0] == (640i32, 480i32));
        assert(all[1] == (1280i32, 720i32));
        assert(all[2] == (1920i32, 1080i32));
        assert(all[3] == (2560i32, 1440i32));
        assert(all.contains((width, height)) == supported);
    }
    if !supported {
        return Some(SettingsError::UnsupportedResolution { width, height });
    }
    if fps < MIN_FPS || fps > MAX_FPS {
        return Some(SettingsError::FrameRate);
    }
    None
}

/// The text, where there is one that is not blank.
pub open spec fn not_blank(v: Option<String>) -> Option<Seq<char>> {
    match v {
        Some(s) => if trimmed(s@).len() > 0 {
            Some(s@)
        } else {
            None
        },
        None => None,
    }
}

fn take_not_blank(v: &Option<String>) -> (res: Option<String>)
    ensures
        match res {
            Some(s) => not_blank(*v) == Some(s@),
            None => not_blank(*v) is None,
        },
{
    match v {
        Some(s) => {
            if is_blank(s.as_str()) {
                None
            } else {
                Some(s.clone())
            }
        },
        None => None,
    }
}

/// The camera that is used when a request asks for one or for none: then it is the configured one.
pub open spec fn selected_device(request: Option<String>, configured: Seq<char>) -> Seq<char> {
    match not_blank(request) {
        Some(device) => device,
        None => configured,
    }
}

/// What came of a request on the camera.
#[derive(Debug)]
pub struct CameraChange {
    /// What the pipeline is to be run with.
    pub pipeline_config: Config,
    pub selected_camera_device: String,
    pub camera_source_type: String,
}

/// Sets the camera. A request that asks for no camera leaves the one that is set, but is answered
/// with the configured one, and that one is run.
pub fn set_camera(manager: &mut Manager, config: &Config, request: &CameraSettingsRequest) -> (res:
    Result<CameraChange, SettingsError>)
    ensures
        match res {
            Err(e) => camera_refusal(request.width, request.height, request.fps) == Some(e)
                && final(manager)@ == old(manager)@,
            Ok(change) => {
                let device = selected_device(request.camera_device, config@.camera_device);
                &&& camera_refusal(request.width, request.height, request.fps) is None
                &&& final(manager)@ == (ManagerView {
                    camera: CameraStateView {
                        width: request.width as int,
                        height: request.height as int,
                        fps: request.fps as int,
                        camera_device: selected_device(
                            request.camera_device,
                            old(manager)@.camera.camera_device,
                        ),
                    },
                    ..old(manager)@
                })
                &&& change.selected_camera_device@ == device
                &&& change.camera_source_type@ == source_type(device)
                &&& change.pipeline_config@ == (ConfigView {
                    camera_device: device,
                    camera_width: request.width as int,
                    camera_height: request.height as int,
                    camera_fps: request.fps as int,
                    ..config@
                })
            },
        },
{
    if let Some(e) = check_camera(request.width, request.height, request.fps) {
        return Err(e);
    }
    let device = match take_not_blank(&request.camera_device) {
        Some(device) => {
            manager.camera.camera_device = device.clone();
            device
        },
        None => config.camera_device.clone(),
    };
    manager.camera.width = request.width;
    manager.camera.height = request.height;
    manager.camera.fps = request.fps;
    let pipeline_config = config.with_camera(
        device.as_str(),
        request.width,
        request.height,
        request.fps,
    );
    let camera_source_type = camera_source_type_for_device(device.as_str()).to_owned();
    Ok(CameraChange { pipeline_config, selected_camera_device: device, camera_source_type })
}

/// What is said when the camera could not be started.
pub fn camera_restart_failed(reason: &str) -> (res: String)
    ensures
        res@ == "camera restart failed: "@ + reason@,
{
    joined("camera restart failed: ", reason)
}

/// A camera is accepted exactly with a resolution that can be selected and a frame rate from one to
/// sixty.
pub proof fn law_accepted_cameras(width: i32, height: i32, fps: i32)
    ensures
        camera_refusal(width, height, fps) is None <==> resolutions().contains((width, height))
            && MIN_FPS <= fps <= MAX_FPS,
{
    if resolutions().contains((width, height)) {
        let i = choose|i: int| 0 <= i < resolutions().len() && resolutions()[i] == (width, height);
        assert(i == 0 || i == 1 || i == 2 || i == 3);
    }
}

/// A request to use sound devices.
#[derive(Debug)]
pub struct AudioSelectionRequest {
    pub microphone: Option<String>,
    pub speaker: Option<String>,
}

/// Selects sound devices; one that is not asked for stays.
pub fn select_audio(audio: &mut AudioState, request: &AudioSelectionRequest)
    ensures
        final(audio)@ == (AudioStateView {
            selected_microphone: selected_device(
                request.microphone,
                old(audio)@.selected_microphone,
            ),
            selected_speaker: selected_device(request.speaker, old(audio)@.selected_speaker),
            ..old(audio)@
        }),
{
    if let Some(microphone) = take_not_blank(&request.microphone) {
        audio.selected_microphone = microphone;
    }
    if let Some(speaker) = take_not_blank(&request.speaker) {
        audio.selected_speaker = speaker;
    }
}

/// A volume in percent: the nearest one from zero to a hundred.
pub open spec fn percent(volume: int) -> int {
    if volume < 0 {
        0
    } else if volume > 100 {
        100
    } else {
        volume
    }
}

/// Sets the volume.
pub fn set_volume(audio: &mut AudioState, volume: i32)
    ensures
        final(audio)@ == (AudioStateView { volume: percent(volume as int), ..old(audio)@ }),
{
    audio.volume =
    if volume < 0 {
        0
    } else if volume > 100 {
        100
    } else {
        volume
    };
}

/// A sound device.
#[derive(Debug)]
pub struct AudioDevice {
    pub id: String,
    pub name: String,
    pub kind: String,
}

/// What an [`AudioDevice`] says.
#[verifier::ext_equal]
pub struct AudioDeviceView {
    pub id: Seq<char>,
    pub name: Seq<char>,
    pub kind: Seq<char>,
}

impl View for AudioDevice {
    type V = AudioDeviceView;

    open spec fn view(&self) -> AudioDeviceView {
        AudioDeviceView { id: self.id@, name: self.name@, kind: self.kind@ }
    }
}

/// The views of sound devices.
pub open spec fn audio_device_views(s: Seq<AudioDevice>) -> Seq<AudioDeviceView> {
    s.map_values(|d: AudioDevice| d@)
}

fn audio_device(id: &str, name: &str, kind: &str) -> (res: AudioDevice)
    ensures
        res@ == (AudioDeviceView { id: id@, name: name@, kind: kind@ }),
{
    AudioDevice { id: id.to_owned(), name: name.to_owned(), kind: kind.to_owned() }
}

/// The microphones that can be selected.
pub fn microphones() -> (res: Vec<AudioDevice>)
    ensures
        audio_device_views(res@) == seq![
            AudioDeviceView {
                id: "@DEFAULT_SOURCE@"@,
                name: "Default microphone"@,
                kind: "default"@,
            },
            AudioDeviceView {
                id: "alsa_input.pci-0000_00_1f.3.analog-stereo"@,
                name: "alsa_input.pci-0000_00_1f.3.analog-stereo"@,
                kind: "pulseaudio-source"@,
            },
        ],
{
    let mut list: Vec<AudioDevice> = Vec::new();
    list.push(audio_device("@DEFAULT_SOURCE@", "Default microphone", "default"));
    list.push(
        audio_device(
            "alsa_input.pci-0000_00_1f.3.analog-stereo",
            "alsa_input.pci-0000_00_1f.3.analog-stereo",
            "pulseaudio-source",
        ),
    );
    list
}

/// The speakers that can be selected.
pub fn speakers() -> (res: Vec<AudioDevice>)
    ensures
        audio_device_views(res@) == seq![
            AudioDeviceView { id: "@DEFAULT_SINK@"@, name: "Default speaker"@, kind: "default"@ },
            AudioDeviceView {
                id: "alsa_output.pci-0000_00_1f.3.analog-stereo"@,
                name: "alsa_output.pci-0000_00_1f.3.analog-stereo"@,
                kind: "pulseaudio-sink"@,
            },
        ],
{
    let mut list: Vec<AudioDevice> = Vec::new();
    list.push(audio_device("@DEFAULT_SINK@", "Default speaker", "default"));
    list.push(
        audio_device(
            "alsa_output.pci-0000_00_1f.3.analog-stereo",
            "alsa_output.pci-0000_00_1f.3.analog-stereo",
            "pulseaudio-sink",
        ),
    );
    list
}

/// A path without the slashes in front.
pub open spec fn without_slashes(path: Seq<char>) -> Seq<char>
    decreases path.len(),
{
    if path.len() > 0 && path[0] == '/' {
        without_slashes(path.drop_first())
    } else {
        path
    }
}

/// The path of a file below the directory of public files: the one that is asked for, without the
/// slashes in front.
pub fn static_path(path: &str) -> (res: String)
    ensures
        res@ == without_slashes(path@),
{
    let chars = chars_of(path);
    let mut from: usize = 0;
    assert(path@.skip(0) =~= path@);
    while from < chars.len() && chars[from] == '/'
        invariant
            chars@ == path@,
            from <= chars@.len(),
            without_slashes(path@.skip(from as int)) == without_slashes(path@),
        decreases chars@.len() - from,
    {
        assert(path@.skip(from as int).drop_first() =~= path@.skip(from + 1));
        from = from + 1;
    }
    assert(path@.skip(from as int) =~= path@.subrange(from as int, path@.len() as int));
    string_of(vstd::slice::slice_subrange(chars.as_slice(), from, chars.len()))
}

/// The path of a public file never begins with a slash, so it stays relative.
pub proof fn law_static_path_is_relative(path: Seq<char>)
    ensures
        without_slashes(path).len() == 0 || without_slashes(path)[0] != '/',
    decreases path.len(),
{
    if path.len() > 0 && path[0] == '/' {
        law_static_path_is_relative(path.drop_first());
    }
}

/// The type of a file, by the extension of its name.
pub open spec fn mime_type(extension: Option<Seq<char>>) -> Seq<char> {
    match extension {
        None => "application/octet-stream"@,
        Some(e) => if e == "html"@ {
            "text/html; charset=utf-8"@
        } else if e == "js"@ {
            "application/javascript; charset=utf-8"@
        } else if e == "css"@ {
            "text/css; charset=utf-8"@
        } else if e == "png"@ {
            "image/png"@
        } else if e == "jpg"@ || e == "jpeg"@ {
            "image/jpeg"@
        } else if e == "svg"@ {
            "image/svg+xml"@
        } else if e == "json"@ {
            "application/json; charset=utf-8"@
        } else {
            "application/octet-stream"@
        },
    }
}

/// The type of a file, by the extension of its name.
pub fn content_type(extension: Option<&str>) -> (res: &'static str)
    ensures
        res@ == mime_type(
            match extension {
                Some(e) => Some(e@),
                None => None,
            },
        ),
{
    match extension {
        None => "application/octet-stream",
        Some(e) => {
            if same_text(e, "html") {
                "text/html; charset=utf-8"
            } else if same_text(e, "js") {
                "application/javascript; charset=utf-8"
            } else if same_text(e, "css") {
                "text/css; charset=utf-8"
            } else if same_text(e, "png") {
                "image/png"
            } else if same_text(e, "jpg") || same_text(e, "jpeg") {
                "image/jpeg"
            } else if same_text(e, "svg") {
                "image/svg+xml"
            } else if same_text(e, "json") {
                "application/json; charset=utf-8"
            } else {
                "application/octet-stream"
            }
        },
    }
}

/// At the start everything is set as configured: the camera with its resolution and frame rate, the
/// microphone and the speaker; the volume is 70. The face recognition is as configured and has loaded
/// nothing.
pub proof fn law_settings_at_the_start(config: ConfigView)
    requires
        i32::MIN <= config.face_recognition_detect_every_n_frames <= i32::MAX,
        i32::MIN <= config.face_recognition_max_faces <= i32::MAX,
    ensures
        ({
            let set = initial_settings(config);
            &&& set.camera.width == config.camera_width
            &&& set.camera.height == config.camera_height
            &&& set.camera.fps == config.camera_fps
            &&& set.camera.camera_device == config.camera_device
            &&& set.audio.selected_microphone == config.pulse_capture_source_name
            &&& set.audio.selected_speaker == config.pulse_sink_name
            &&& set.audio.volume == 70
            &&& set.face.enabled == config.face_recognition_enabled
            &&& !set.face.available && !set.face.initializing
            &&& set.face.backend == "opencv-haar-template"@
            &&& config.face_recognition_enabled ==> set.face.message == "not initialized"@
            &&& !config.face_recognition_enabled ==> set.face.message == "disabled"@
            &&& set.face.known_faces_count == 0
            &&& set.face.detect_every_n_frames == config.face_recognition_detect_every_n_frames
            &&& set.face.match_threshold == config.face_recognition_match_threshold
            &&& set.face.max_faces == config.face_recognition_max_faces
            &&& set.face.result.faces.len() == 0
        }),
{
}

/// The pipeline is run with the camera that is set, in its resolution and frame rate; everything else
/// is as configured. Setting the camera as configured changes nothing.
pub proof fn law_pipeline_uses_the_camera_that_is_set(config: ConfigView, camera: CameraStateView)
    ensures
        ({
            let run = with_camera_state(config, camera);
            &&& run.camera_device == camera.camera_device
            &&& run.camera_width == camera.width
            &&& run.camera_height == camera.height
            &&& run.camera_fps == camera.fps
            &&& (ConfigView {
                camera_device: config.camera_device,
                camera_width: config.camera_width,
                camera_height: config.camera_height,
                camera_fps: config.camera_fps,
                ..run
            }) == config
        }),
        with_camera_state(config, initial_settings(config).camera) == config,
{
}

/// A request on the camera is refused for a number that is not positive; else for a resolution other
/// than 640x480, 1280x720, 1920x1080 and 2560x1440; else for a frame rate above 60; and for nothing
/// else. The refusal tells why, and of a resolution which one.
pub proof fn law_refused_cameras(width: i32, height: i32, fps: i32)
    ensures
        ({
            let positive = width > 0 && height > 0 && fps > 0;
            let known = (width == 640 && height == 480) || (width == 1280 && height == 720) || (width
                == 1920 && height == 1080) || (width == 2560 && height == 1440);
            let refusal = camera_refusal(width, height, fps);
            &&& !positive <==> refusal == Some(SettingsError::NotPositive)
            &&& positive && !known <==> refusal == Some(
                SettingsError::UnsupportedResolution { width, height },
            )
            &&& positive && known && fps > 60 <==> refusal == Some(SettingsError::FrameRate)
            &&& positive && known && fps <= 60 <==> refusal is None
        }),
        settings_error_text(SettingsError::NotPositive) == "width, height and fps must be integers"@,
        settings_error_text(SettingsError::UnsupportedResolution { width, height })
            == "unsupported resolution "@ + signed_decimal(width as int) + "x"@ + signed_decimal(
            height as int,
        ),
        settings_error_text(SettingsError::FrameRate) == "fps must be between 1 and 60"@,
{
    let all = resolutions();
    assert(all.len() == 4);
    assert(all[0] == (640i32, 480i32));
    assert(all[1] == (1280i32, 720i32));
    assert(all[2] == (1920i32, 1080i32));
    assert(all[3] == (2560i32, 1440i32));
    if all.contains((width, height)) {
        let i = choose|i: int| 0 <= i < all.len() && all[i] == (width, height);
        assert(i == 0 || i == 1 || i == 2 || i == 3);
    }
}

/// A device that is asked for is selected exactly as it is asked for, unless there is nothing but
/// white space in it, or none is asked for: then the other one stays.
pub proof fn law_device_that_is_asked_for(request: Option<String>, other: Seq<char>)
    ensures
        request is None ==> selected_device(request, other) == other,
        request matches Some(s) ==> ((forall|i: int|
            0 <= i < s@.len() ==> white_space(#[trigger] s@[i])) ==> selected_device(request, other)
            == other),
        request matches Some(s) ==> ((exists|i: int|
            0 <= i < s@.len() && !white_space(#[trigger] s@[i])) ==> selected_device(request, other)
            == s@),
{
    if let Some(s) = request {
        law_trimming_takes_the_white_space_off(s@);
    }
}

/// The volume that is set is the one from zero to a hundred that is nearest to the one that is asked
/// for.
pub proof fn law_volume_is_the_nearest_percentage(volume: int, other: int)
    ensures
        0 <= percent(volume) <= 100,
        0 <= volume <= 100 ==> percent(volume) == volume,
        volume > 100 ==> percent(volume) == 100,
        volume < 0 ==> percent(volume) == 0,
        volume <= other ==> percent(volume) <= percent(other),
{
}

/// What is left of a path is everything behind the slashes in front: these are slashes only, and what
/// is left does not begin with one.
pub proof fn law_only_slashes_are_taken_off(path: Seq<char>)
    ensures
        without_slashes(path).len() <= path.len(),
        without_slashes(path) == path.skip(path.len() - without_slashes(path).len()),
        forall|i: int| 0 <= i < path.len() - without_slashes(path).len() ==> #[trigger] path[i] == '/',
        without_slashes(path).len() > 0 ==> without_slashes(path)[0] != '/',
    decreases path.len(),
{
    if path.len() > 0 && path[0] == '/' {
        let t = path.drop_first();
        law_only_slashes_are_taken_off(t);
        assert(without_slashes(path) =~= path.skip(path.len() - without_slashes(path).len()));
        assert forall|i: int| 0 <= i < path.len() - without_slashes(path).len() implies
            #[trigger] path[i] == '/' by {
            if i > 0 {
                assert(t[i - 1] == path[i]);
            }
        }
    } else {
        assert(path =~= path.skip(0));
    }
}

/// The types of the files that are served, by their extensions; any other file is served as bytes.
pub proof fn law_types_of_files(extension: Seq<char>)
    ensures
        mime_type(Some("html"@)) == "text/html; charset=utf-8"@,
        mime_type(Some("js"@)) == "application/javascript; charset=utf-8"@,
        mime_type(Some("css"@)) == "text/css; charset=utf-8"@,
        mime_type(Some("png"@)) == "image/png"@,
        mime_type(Some("jpg"@)) == "image/jpeg"@,
        mime_type(Some("jpeg"@)) == "image/jpeg"@,
        mime_type(Some("svg"@)) == "image/svg+xml"@,
        mime_type(Some("json"@)) == "application/json; charset=utf-8"@,
        mime_type(None) == "application/octet-stream"@,
        extension != "html"@ && extension != "js"@ && extension != "css"@ && extension != "png"@
            && extension != "jpg"@ && extension != "jpeg"@ && extension != "svg"@ && extension
            != "json"@ ==> mime_type(Some(extension)) == "application/octet-stream"@,
{
    reveal_strlit("html");
    reveal_strlit("js");
    reveal_strlit("css");
    reveal_strlit("png");
    reveal_strlit("jpg");
    reveal_strlit("jpeg");
    reveal_strlit("svg");
    reveal_strlit("json");
    assert("js"@.len() == 2 && "css"@.len() == 3 && "png"@.len() == 3 && "jpg"@.len() == 3
        && "svg"@.len() == 3 && "html"@.len() == 4 && "jpeg"@.len() == 4 && "json"@.len() == 4);
    assert("css"@[0] == 'c' && "png"@[0] == 'p' && "jpg"@[0] == 'j' && "svg"@[0] == 's');
    assert("html"@[0] == 'h' && "jpeg"@[1] == 'p' && "json"@[1] == 's');
}

/// What is said of the settings is what is set.
pub proof fn law_view_of_the_settings(m: Manager)
    ensures
        m@.camera.width == m.camera.width,
        m@.camera.height == m.camera.height,
        m@.camera.fps == m.camera.fps,
        m@.camera.camera_device == m.camera.camera_device@,
        m@.audio.selected_microphone == m.audio.selected_microphone@,
        m@.audio.selected_speaker == m.audio.selected_speaker@,
        m@.audio.volume == m.audio.volume,
        m@.face == m.face@,
{
}

} // verus!
