//! The configuration: what the environment variables say, and what holds without them.

use vstd::prelude::*;

use crate::binary64::Binary64;
use crate::decimal::{
    decimal, decimal_text, i32_of, law_decimal_read_back, law_i32_read_back, parse_i32, parse_u16,
    signed_decimal, unsigned_of,
};
use crate::text::{
    holds, is_blank, joined, law_parts_are_replaced, law_trimming_takes_the_white_space_off, replace,
    replaced, same_text, trim, trimmed, white_space,
};

verus! {

/// The bit pattern of 0.6: the score from which on a face is recognized.
pub const DEFAULT_MATCH_THRESHOLD: u64 = 0x3FE3_3333_3333_3333;

/// What a variable holds.
pub open spec fn value_of(v: Option<String>) -> Option<Seq<char>> {
    match v {
        Some(s) => Some(s@),
        None => None,
    }
}

/// The environment variables. One that is not set, or holds no text, is `None`.
#[derive(Debug)]
pub struct EnvVars {
    pub home: Option<String>,
    pub server_host: Option<String>,
    pub server_port: Option<String>,
    pub ssl_cert_path: Option<String>,
    pub ssl_key_path: Option<String>,
    pub camera_device: Option<String>,
    pub camera_width: Option<String>,
    pub camera_height: Option<String>,
    pub camera_fps: Option<String>,
    pub pulse_sink_name: Option<String>,
    pub pulse_capture_source_name: Option<String>,
    pub face_recognition_enabled: Option<String>,
    pub face_recognition_known_faces_dir: Option<String>,
    /// The number that the variable holds, where it holds one.
    pub face_recognition_match_threshold: Option<Binary64>,
    pub face_recognition_max_faces: Option<String>,
    pub face_recognition_detect_every_n_frames: Option<String>,
    pub face_recognition_cascade_path: Option<String>,
    pub face_recognition_min_consecutive_frames: Option<String>,
}

/// What [`EnvVars`] say.
#[verifier::ext_equal]
pub struct EnvVarsView {
    pub home: Option<Seq<char>>,
    pub server_host: Option<Seq<char>>,
    pub server_port: Option<Seq<char>>,
    pub ssl_cert_path: Option<Seq<char>>,
    pub ssl_key_path: Option<Seq<char>>,
    pub camera_device: Option<Seq<char>>,
    pub camera_width: Option<Seq<char>>,
    pub camera_height: Option<Seq<char>>,
    pub camera_fps: Option<Seq<char>>,
    pub pulse_sink_name: Option<Seq<char>>,
    pub pulse_capture_source_name: Option<Seq<char>>,
    pub face_recognition_enabled: Option<Seq<char>>,
    pub face_recognition_known_faces_dir: Option<Seq<char>>,
    pub face_recognition_match_threshold: Option<Binary64>,
    pub face_recognition_max_faces: Option<Seq<char>>,
    pub face_recognition_detect_every_n_frames: Option<Seq<char>>,
    pub face_recognition_cascade_path: Option<Seq<char>>,
    pub face_recognition_min_consecutive_frames: Option<Seq<char>>,
}

impl View for EnvVars {
    type V = EnvVarsView;

    open spec fn view(&self) -> EnvVarsView {
        EnvVarsView {
            home: value_of(self.home),
            server_host: value_of(self.server_host),
            server_port: value_of(self.server_port),
            ssl_cert_path: value_of(self.ssl_cert_path),
            ssl_key_path: value_of(self.ssl_key_path),
            camera_device: value_of(self.camera_device),
            camera_width: value_of(self.camera_width),
            camera_height: value_of(self.camera_height),
            camera_fps: value_of(self.camera_fps),
            pulse_sink_name: value_of(self.pulse_sink_name),
            pulse_capture_source_name: value_of(self.pulse_capture_source_name),
            face_recognition_enabled: value_of(self.face_recognition_enabled),
            face_recognition_known_faces_dir: value_of(self.face_recognition_known_faces_dir),
            face_recognition_match_threshold: self.face_recognition_match_threshold,
            face_recognition_max_faces: value_of(self.face_recognition_max_faces),
            face_recognition_detect_every_n_frames: value_of(
                self.face_recognition_detect_every_n_frames,
            ),
            face_recognition_cascade_path: value_of(self.face_recognition_cascade_path),
            face_recognition_min_consecutive_frames: value_of(
                self.face_recognition_min_consecutive_frames,
            ),
        }
    }
}

/// The configuration.
#[derive(Debug)]
pub struct Config {
    pub server_host: String,
    pub server_port: u16,
    pub ssl_cert_path: String,
    pub ssl_key_path: String,
    pub camera_device: String,
    pub camera_width: i32,
    pub camera_height: i32,
    pub camera_fps: i32,
    pub pulse_sink_name: String,
    pub pulse_capture_source_name: String,
    pub face_recognition_enabled: bool,
    pub face_recognition_known_faces_dir: String,
    pub face_recognition_match_threshold: Binary64,
    pub face_recognition_max_faces: i32,
    pub face_recognition_detect_every_n_frames: i32,
    pub face_recognition_cascade_path: String,
    pub face_recognition_min_consecutive_frames: i32,
}

/// What a [`Config`] says.
#[verifier::ext_equal]
pub struct ConfigView {
    pub server_host: Seq<char>,
    pub server_port: int,
    pub ssl_cert_path: Seq<char>,
    pub ssl_key_path: Seq<char>,
    pub camera_device: Seq<char>,
    pub camera_width: int,
    pub camera_height: int,
    pub camera_fps: int,
    pub pulse_sink_name: Seq<char>,
    pub pulse_capture_source_name: Seq<char>,
    pub face_recognition_enabled: bool,
    pub face_recognition_known_faces_dir: Seq<char>,
    pub face_recognition_match_threshold: Binary64,
    pub face_recognition_max_faces: int,
    pub face_recognition_detect_every_n_frames: int,
    pub face_recognition_cascade_path: Seq<char>,
    pub face_recognition_min_consecutive_frames: int,
}

impl View for Config {
    type V = ConfigView;

    open spec fn view(&self) -> ConfigView {
        ConfigView {
            server_host: self.server_host@,
            server_port: self.server_port as int,
            ssl_cert_path: self.ssl_cert_path@,
            ssl_key_path: self.ssl_key_path@,
            camera_device: self.camera_device@,
            camera_width: self.camera_width as int,
            camera_height: self.camera_height as int,
            camera_fps: self.camera_fps as int,
            pulse_sink_name: self.pulse_sink_name@,
            pulse_capture_source_name: self.pulse_capture_source_name@,
            face_recognition_enabled: self.face_recognition_enabled,
            face_recognition_known_faces_dir: self.face_recognition_known_faces_dir@,
            face_recognition_match_threshold: self.face_recognition_match_threshold,
            face_recognition_max_faces: self.face_recognition_max_faces as int,
            face_recognition_detect_every_n_frames: self.face_recognition_detect_every_n_frames as int,
            face_recognition_cascade_path: self.face_recognition_cascade_path@,
            face_recognition_min_consecutive_frames:
                self.face_recognition_min_consecutive_frames as int,
        }
    }
}

impl Clone for Config {
    fn clone(&self) -> (res: Config)
        ensures
            res@ == self@,
    {
        Config {
            server_host: self.server_host.clone(),
            server_port: self.server_port,
            ssl_cert_path: self.ssl_cert_path.clone(),
            ssl_key_path: self.ssl_key_path.clone(),
            camera_device: self.camera_device.clone(),
            camera_width: self.camera_width,
            camera_height: self.camera_height,
            camera_fps: self.camera_fps,
            pulse_sink_name: self.pulse_sink_name.clone(),
            pulse_capture_source_name: self.pulse_capture_source_name.clone(),
            face_recognition_enabled: self.face_recognition_enabled,
            face_recognition_known_faces_dir: self.face_recognition_known_faces_dir.clone(),
            face_recognition_match_threshold: self.face_recognition_match_threshold,
            face_recognition_max_faces: self.face_recognition_max_faces,
            face_recognition_detect_every_n_frames: self.face_recognition_detect_every_n_frames,
            face_recognition_cascade_path: self.face_recognition_cascade_path.clone(),
            face_recognition_min_consecutive_frames: self.face_recognition_min_consecutive_frames,
        }
    }
}

/// What a variable holds, or else a default.
pub open spec fn text_or(v: Option<Seq<char>>, default: Seq<char>) -> Seq<char> {
    match v {
        Some(s) => s,
        None => default,
    }
}

/// The integer that a variable holds, or else a default.
pub open spec fn i32_or(v: Option<Seq<char>>, default: int) -> int {
    match v {
        Some(s) => match i32_of(s) {
            Some(n) => n,
            None => default,
        },
        None => default,
    }
}

/// The port that a variable holds, or else a default.
pub open spec fn u16_or(v: Option<Seq<char>>, default: int) -> int {
    match v {
        Some(s) => match unsigned_of(s, u16::MAX as int) {
            Some(n) => n,
            None => default,
        },
        None => default,
    }
}

fn read_text(v: &Option<String>, default: &str) -> (res: String)
    ensures
        res@ == text_or(value_of(*v), default@),
{
    match v {
        Some(s) => s.clone(),
        None => default.to_owned(),
    }
}

fn read_i32(v: &Option<String>, default: i32) -> (res: i32)
    ensures
        res == i32_or(value_of(*v), default as int),
{
    match v {
        Some(s) => match parse_i32(s.as_str()) {
            Some(n) => n,
            None => default,
        },
        None => default,
    }
}

fn read_u16(v: &Option<String>, default: u16) -> (res: u16)
    ensures
        res == u16_or(value_of(*v), default as int),
{
    match v {
        Some(s) => match parse_u16(s.as_str()) {
            Some(n) => n,
            None => default,
        },
        None => default,
    }
}

/// Only `true` switches something on.
fn read_switch(v: &Option<String>) -> (res: bool)
    ensures
        res == (value_of(*v) == Some("true"@)),
{
    match v {
        Some(s) => same_text(s.as_str(), "true"),
        None => false,
    }
}

fn read_home_path(v: &Option<String>, default: &str, home: &str) -> (res: String)
    ensures
        res@ == replaced(text_or(value_of(*v), default@), "${HOME}"@, home@),
{
    proof {
        reveal_strlit("${HOME}");
    }
    let path = read_text(v, default);
    replace(path.as_str(), "${HOME}", home)
}

/// The camera to use: the one that is asked for, where one is.
pub open spec fn camera_or(v: Option<Seq<char>>, default: Seq<char>) -> Seq<char> {
    match v {
        Some(s) => if trimmed(s).len() > 0 {
            trimmed(s)
        } else {
            default
        },
        None => default,
    }
}

/// The configuration that environment variables make. `camera` is the camera to use where they name
/// none.
pub open spec fn config_of(v: EnvVarsView, camera: Seq<char>) -> ConfigView {
    let home = text_or(v.home, Seq::empty());
    ConfigView {
        server_host: text_or(v.server_host, "0.0.0.0"@),
        server_port: u16_or(v.server_port, 5000),
        ssl_cert_path: replaced(
            text_or(v.ssl_cert_path, "${HOME}/certs/cert.pem"@),
            "${HOME}"@,
            home,
        ),
        ssl_key_path: replaced(text_or(v.ssl_key_path, "${HOME}/certs/key.pem"@), "${HOME}"@, home),
        camera_device: camera_or(v.camera_device, camera),
        camera_width: i32_or(v.camera_width, 1920),
        camera_height: i32_or(v.camera_height, 1080),
        camera_fps: i32_or(v.camera_fps, 25),
        pulse_sink_name: text_or(v.pulse_sink_name, "@DEFAULT_SINK@"@),
        pulse_capture_source_name: text_or(v.pulse_capture_source_name, "@DEFAULT_SOURCE@"@),
        face_recognition_enabled: v.face_recognition_enabled == Some("true"@),
        face_recognition_known_faces_dir: text_or(
            v.face_recognition_known_faces_dir,
            home + "/known_faces"@,
        ),
        face_recognition_match_threshold: match v.face_recognition_match_threshold {
            Some(t) => t,
            None => Binary64 { bits: DEFAULT_MATCH_THRESHOLD },
        },
        face_recognition_max_faces: i32_or(v.face_recognition_max_faces, 8),
        face_recognition_detect_every_n_frames: i32_or(v.face_recognition_detect_every_n_frames, 1),
        face_recognition_cascade_path: text_or(v.face_recognition_cascade_path, Seq::empty()),
        face_recognition_min_consecutive_frames: i32_or(
            v.face_recognition_min_consecutive_frames,
            1,
        ),
    }
}

impl Config {
    /// Makes the configuration of environment variables.
    pub fn from_env(vars: &EnvVars, default_camera_device: String) -> (res: Config)
        ensures
            res@ == config_of(vars@, default_camera_device@),
    {
        let home = match &vars.home {
            Some(h) => h.clone(),
            None => String::new(),
        };
        let camera_device = match &vars.camera_device {
            Some(d) => {
                if is_blank(d.as_str()) {
                    default_camera_device
                } else {
                    trim(d.as_str())
                }
            },
            None => default_camera_device,
        };
        let known_faces_dir = match &vars.face_recognition_known_faces_dir {
            Some(d) => d.clone(),
            None => joined(home.as_str(), "/known_faces"),
        };
        let cascade_path = match &vars.face_recognition_cascade_path {
            Some(p) => p.clone(),
            None => String::new(),
        };
        let match_threshold = match vars.face_recognition_match_threshold {
            Some(t) => t,
            None => Binary64 { bits: DEFAULT_MATCH_THRESHOLD },
        };
        let res = Config {
            server_host: read_text(&vars.server_host, "0.0.0.0"),
            server_port: read_u16(&vars.server_port, 5000),
            ssl_cert_path: read_home_path(
                &vars.ssl_cert_path,
                "${HOME}/certs/cert.pem",
                home.as_str(),
            ),
            ssl_key_path: read_home_path(&vars.ssl_key_path, "${HOME}/certs/key.pem", home.as_str()),
            camera_device,
            camera_width: read_i32(&vars.camera_width, 1920),
            camera_height: read_i32(&vars.camera_height, 1080),
            camera_fps: read_i32(&vars.camera_fps, 25),
            pulse_sink_name: read_text(&vars.pulse_sink_name, "@DEFAULT_SINK@"),
            pulse_capture_source_name: read_text(
                &vars.pulse_capture_source_name,
                "@DEFAULT_SOURCE@",
            ),
            face_recognition_enabled: read_switch(&vars.face_recognition_enabled),
            face_recognition_known_faces_dir: known_faces_dir,
            face_recognition_match_threshold: match_threshold,
            face_recognition_max_faces: read_i32(&vars.face_recognition_max_faces, 8),
            face_recognition_detect_every_n_frames: read_i32(
                &vars.face_recognition_detect_every_n_frames,
                1,
            ),
            face_recognition_cascade_path: cascade_path,
            face_recognition_min_consecutive_frames: read_i32(
                &vars.face_recognition_min_consecutive_frames,
                1,
            ),
        };
        assert(res@ =~= config_of(vars@, default_camera_device@));
        res
    }

    /// The host and the port of the server.
    pub fn address(&self) -> (res: String)
        ensures
            res@ == self@.server_host + ":"@ + decimal(self@.server_port as nat),
    {
        joined(
            joined(self.server_host.as_str(), ":").as_str(),
            decimal_text(self.server_port as u64).as_str(),
        )
    }

    /// The configuration with another camera, resolution and frame rate.
    pub fn with_camera(&self, camera_device: &str, width: i32, height: i32, fps: i32) -> (res: Config)
        ensures
            res@ == (ConfigView {
                camera_device: camera_device@,
                camera_width: width as int,
                camera_height: height as int,
                camera_fps: fps as int,
                ..self@
            }),
    {
        let mut res = self.clone();
        res.camera_device = camera_device.to_owned();
        res.camera_width = width;
        res.camera_height = height;
        res.camera_fps = fps;
        res
    }
}

/// A number that is written into a variable is the number that is used.
pub proof fn law_numbers_are_read_as_written(n: i32, port: u16, default: int)
    ensures
        i32_or(Some(signed_decimal(n as int)), default) == n,
        u16_or(Some(decimal(port as nat)), default) == port,
{
    law_i32_read_back(n);
    law_decimal_read_back(port as nat);
    let d = decimal(port as nat);
    assert(crate::decimal::is_digit(d[0]));
}

/// A variable that is set is used as it is; one that is not set leaves what holds without it.
pub open spec fn text_is(value: Seq<char>, v: Option<Seq<char>>, default: Seq<char>) -> bool {
    &&& v matches Some(s) ==> value == s
    &&& v is None ==> value == default
}

/// A variable that holds an integer is that integer; one that is not set, or holds anything else,
/// leaves what holds without it.
pub open spec fn number_is(value: int, v: Option<Seq<char>>, default: int) -> bool {
    &&& v is None ==> value == default
    &&& v matches Some(s) ==> (i32_of(s) matches Some(n) ==> value == n)
    &&& v matches Some(s) ==> (i32_of(s) is None ==> value == default)
}

/// The text variables: each that is set is what the configuration holds. The directory of the known
/// faces is below the home directory only where it is not set.
pub proof fn law_text_variables_are_used(v: EnvVarsView, camera: Seq<char>)
    ensures
        ({
            let config = config_of(v, camera);
            &&& text_is(config.server_host, v.server_host, "0.0.0.0"@)
            &&& text_is(config.pulse_sink_name, v.pulse_sink_name, "@DEFAULT_SINK@"@)
            &&& text_is(
                config.pulse_capture_source_name,
                v.pulse_capture_source_name,
                "@DEFAULT_SOURCE@"@,
            )
            &&& text_is(
                config.face_recognition_cascade_path,
                v.face_recognition_cascade_path,
                Seq::empty(),
            )
            &&& v.face_recognition_known_faces_dir matches Some(d)
                ==> config.face_recognition_known_faces_dir == d
            &&& v.face_recognition_known_faces_dir is None ==> (v.home matches Some(home)
                ==> config.face_recognition_known_faces_dir == home + "/known_faces"@)
            &&& v.face_recognition_known_faces_dir is None && v.home is None
                ==> config.face_recognition_known_faces_dir == "/known_faces"@
        }),
{
    assert(Seq::<char>::empty() + "/known_faces"@ =~= "/known_faces"@);
}

/// The numbers: each variable that holds one is what the configuration holds, and no other variable
/// decides it. Only `true` enables the face recognition.
pub proof fn law_number_variables_are_used(v: EnvVarsView, camera: Seq<char>)
    ensures
        ({
            let config = config_of(v, camera);
            &&& number_is(config.camera_width, v.camera_width, 1920)
            &&& number_is(config.camera_height, v.camera_height, 1080)
            &&& number_is(config.camera_fps, v.camera_fps, 25)
            &&& number_is(config.face_recognition_max_faces, v.face_recognition_max_faces, 8)
            &&& number_is(
                config.face_recognition_detect_every_n_frames,
                v.face_recognition_detect_every_n_frames,
                1,
            )
            &&& number_is(
                config.face_recognition_min_consecutive_frames,
                v.face_recognition_min_consecutive_frames,
                1,
            )
            &&& v.server_port is None ==> config.server_port == 5000
            &&& v.server_port matches Some(s) ==> (unsigned_of(s, 0xFFFF) matches Some(n)
                ==> config.server_port == n)
            &&& v.server_port matches Some(s) ==> (unsigned_of(s, 0xFFFF) is None
                ==> config.server_port == 5000)
            &&& config.face_recognition_enabled <==> v.face_recognition_enabled == Some("true"@)
            &&& v.face_recognition_match_threshold matches Some(t)
                ==> config.face_recognition_match_threshold == t
            &&& v.face_recognition_match_threshold is None
                ==> config.face_recognition_match_threshold.bits == 0x3FE3_3333_3333_3333
        }),
{
}

/// The camera is the one that is named, without the white space around it; where none is named, or
/// only white space, it is the one that was selected.
pub proof fn law_camera_variable_is_used(v: EnvVarsView, camera: Seq<char>)
    ensures
        v.camera_device is None ==> config_of(v, camera).camera_device == camera,
        v.camera_device matches Some(d) ==> ((forall|i: int|
            0 <= i < d.len() ==> white_space(#[trigger] d[i])) ==> config_of(v, camera).camera_device
            == camera),
        v.camera_device matches Some(d) ==> ((exists|i: int|
            0 <= i < d.len() && !white_space(#[trigger] d[i])) ==> config_of(v, camera).camera_device
            == trimmed(d)),
{
    if let Some(d) = v.camera_device {
        law_trimming_takes_the_white_space_off(d);
    }
}

/// In the paths of the certificate and of the key, `${HOME}` stands for the home directory; a path
/// that does not hold it is used as it is. Without the variables they are in `certs` below the home
/// directory.
pub proof fn law_paths_are_below_the_home(v: EnvVarsView, camera: Seq<char>, rest: Seq<char>)
    requires
        !holds(rest, "${HOME}"@),
    ensures
        ({
            let config = config_of(v, camera);
            let home = match v.home {
                Some(h) => h,
                None => Seq::empty(),
            };
            &&& v.ssl_cert_path == Some(rest) ==> config.ssl_cert_path == rest
            &&& v.ssl_key_path == Some(rest) ==> config.ssl_key_path == rest
            &&& v.ssl_cert_path == Some("${HOME}"@ + rest) ==> config.ssl_cert_path == home + rest
            &&& v.ssl_key_path == Some("${HOME}"@ + rest) ==> config.ssl_key_path == home + rest
            &&& v.ssl_cert_path is None ==> config.ssl_cert_path == home + "/certs/cert.pem"@
            &&& v.ssl_key_path is None ==> config.ssl_key_path == home + "/certs/key.pem"@
        }),
{
    reveal_strlit("${HOME}");
    reveal_strlit("${HOME}/certs/cert.pem");
    reveal_strlit("${HOME}/certs/key.pem");
    reveal_strlit("/certs/cert.pem");
    reveal_strlit("/certs/key.pem");
    let part = "${HOME}"@;
    let home = match v.home {
        Some(h) => h,
        None => Seq::empty(),
    };
    law_parts_are_replaced(rest, part, home, rest);
    let cert = "/certs/cert.pem"@;
    let key = "/certs/key.pem"@;
    assert("${HOME}/certs/cert.pem"@ =~= part + cert);
    assert("${HOME}/certs/key.pem"@ =~= part + key);
    assert(!holds(cert, part)) by {
        if holds(cert, part) {
            let i = choose|i: int| crate::text::stands_at(cert, part, i);
            assert(cert.subrange(i, i + part.len())[0] == cert[i]);
        }
    }
    assert(!holds(key, part)) by {
        if holds(key, part) {
            let i = choose|i: int| crate::text::stands_at(key, part, i);
            assert(key.subrange(i, i + part.len())[0] == key[i]);
        }
    }
    law_parts_are_replaced(cert, part, home, cert);
    law_parts_are_replaced(key, part, home, key);
}

/// What is said of the variables is what they hold, each under its name.
pub proof fn law_view_of_the_variables(v: EnvVars)
    ensures
        v@.home == value_of(v.home),
        v@.server_host == value_of(v.server_host),
        v@.server_port == value_of(v.server_port),
        v@.ssl_cert_path == value_of(v.ssl_cert_path),
        v@.ssl_key_path == value_of(v.ssl_key_path),
        v@.camera_device == value_of(v.camera_device),
        v@.camera_width == value_of(v.camera_width),
        v@.camera_height == value_of(v.camera_height),
        v@.camera_fps == value_of(v.camera_fps),
        v@.pulse_sink_name == value_of(v.pulse_sink_name),
        v@.pulse_capture_source_name == value_of(v.pulse_capture_source_name),
        v@.face_recognition_enabled == value_of(v.face_recognition_enabled),
        v@.face_recognition_known_faces_dir == value_of(v.face_recognition_known_faces_dir),
        v@.face_recognition_match_threshold == v.face_recognition_match_threshold,
        v@.face_recognition_max_faces == value_of(v.face_recognition_max_faces),
        v@.face_recognition_detect_every_n_frames == value_of(
            v.face_recognition_detect_every_n_frames,
        ),
        v@.face_recognition_cascade_path == value_of(v.face_recognition_cascade_path),
        v@.face_recognition_min_consecutive_frames == value_of(
            v.face_recognition_min_consecutive_frames,
        ),
        v.home matches Some(home) ==> value_of(v.home) == Some(home@),
        v.home is None ==> value_of(v.home) is None,
{
}

/// What is said of a configuration is what it holds, each setting under its name.
pub proof fn law_view_of_a_configuration(c: Config)
    ensures
        c@.server_host == c.server_host@,
        c@.server_port == c.server_port,
        c@.ssl_cert_path == c.ssl_cert_path@,
        c@.ssl_key_path == c.ssl_key_path@,
        c@.camera_device == c.camera_device@,
        c@.camera_width == c.camera_width,
        c@.camera_height == c.camera_height,
        c@.camera_fps == c.camera_fps,
        c@.pulse_sink_name == c.pulse_sink_name@,
        c@.pulse_capture_source_name == c.pulse_capture_source_name@,
        c@.face_recognition_enabled == c.face_recognition_enabled,
        c@.face_recognition_known_faces_dir == c.face_recognition_known_faces_dir@,
        c@.face_recognition_match_threshold == c.face_recognition_match_threshold,
        c@.face_recognition_max_faces == c.face_recognition_max_faces,
        c@.face_recognition_detect_every_n_frames == c.face_recognition_detect_every_n_frames,
        c@.face_recognition_cascade_path == c.face_recognition_cascade_path@,
        c@.face_recognition_min_consecutive_frames == c.face_recognition_min_consecutive_frames,
{
}

} // verus!
