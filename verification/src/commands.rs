//! The programs that are run: what they are called with, and what their files are.

use vstd::prelude::*;

use crate::camera::{csi_number, law_names_of_csi_cameras, printed, rpicam_index, Probe};
use crate::config::{Config, ConfigView};
use crate::decimal::{
    decimal, decimal_text, law_decimal_read_back, signed_decimal, signed_text, wide_decimal_text,
};
use crate::geometry::max_of;
use crate::text::{
    begins_with, ends_with, finishes_with, is_blank, joined, law_lines_are_cut_at_line_feeds, lines,
    lines_of, same_text, starts_with, text_views, trimmed, without_carriage_return,
};

verus! {

/// The port on which the sound for the speaker arrives.
pub const TALKBACK_RTP_PORT: u16 = 5010;

/// A program and what it is called with.
#[derive(Debug)]
pub struct CommandLine {
    pub program: String,
    pub args: Vec<String>,
}

/// What a [`CommandLine`] says.
#[verifier::ext_equal]
pub struct CommandLineView {
    pub program: Seq<char>,
    pub args: Seq<Seq<char>>,
}

impl View for CommandLine {
    type V = CommandLineView;

    open spec fn view(&self) -> CommandLineView {
        CommandLineView { program: self.program@, args: text_views(self.args@) }
    }
}

/// The views of words.
pub open spec fn word_views(s: Seq<&str>) -> Seq<Seq<char>> {
    s.map_values(|w: &str| w@)
}

/// Texts of words.
fn texts(words: &Vec<&str>) -> (res: Vec<String>)
    ensures
        text_views(res@) == word_views(words@),
{
    let mut out: Vec<String> = Vec::new();
    for i in 0..words.len()
        invariant
            text_views(out@) =~= word_views(words@).take(i as int),
    {
        let ghost before = out@;
        out.push(words[i].to_owned());
        assert(text_views(out@) =~= text_views(before).push(words@[i as int]@));
    }
    assert(text_views(out@) =~= word_views(words@));
    out
}

/// An address on this machine that RTP packets are sent to.
pub open spec fn rtp_url(port: int) -> Seq<char> {
    "rtp://127.0.0.1:"@ + decimal(port as nat)
}

fn rtp_url_text(port: u16) -> (res: String)
    ensures
        res@ == rtp_url(port as int),
{
    joined("rtp://127.0.0.1:", decimal_text(port as u64).as_str())
}

/// `v` in decimal, but at least `least`.
fn at_least_text(v: i32, least: i32) -> (res: String)
    ensures
        res@ == signed_decimal(max_of(v as int, least as int)),
{
    if v >= least {
        signed_text(v)
    } else {
        signed_text(least)
    }
}

/// The video encoder: reads JPEG frames, sends VP8 over RTP and writes two small JPEG frames a second
/// for the face recognition.
pub open spec fn encoder_command(config: ConfigView, rtp_port: int) -> CommandLineView {
    CommandLineView {
        program: "ffmpeg"@,
        args: seq![
            "-hide_banner"@,
            "-loglevel"@,
            "error"@,
            "-f"@,
            "mjpeg"@,
            "-framerate"@,
            signed_decimal(max_of(config.camera_fps, 1)),
            "-i"@,
            "pipe:0"@,
            "-an"@,
            "-c:v"@,
            "libvpx"@,
            "-deadline"@,
            "realtime"@,
            "-cpu-used"@,
            "5"@,
            "-pix_fmt"@,
            "yuv420p"@,
            "-f"@,
            "rtp"@,
            rtp_url(rtp_port),
            "-an"@,
            "-vf"@,
            "fps=2,scale=640:-2"@,
            "-c:v"@,
            "mjpeg"@,
            "-q:v"@,
            "5"@,
            "-f"@,
            "image2pipe"@,
            "pipe:1"@,
        ],
    }
}

/// The command line of the video encoder.
pub fn video_encoder_command(config: &Config, rtp_port: u16) -> (res: CommandLine)
    ensures
        res@ == encoder_command(config@, rtp_port as int),
{
    let fps = at_least_text(config.camera_fps, 1);
    let url = rtp_url_text(rtp_port);
    let words: Vec<&str> = vec![
        "-hide_banner", "-loglevel", "error", "-f", "mjpeg", "-framerate", fps.as_str(), "-i",
        "pipe:0", "-an", "-c:v", "libvpx", "-deadline", "realtime", "-cpu-used", "5", "-pix_fmt",
        "yuv420p", "-f", "rtp", url.as_str(), "-an", "-vf", "fps=2,scale=640:-2", "-c:v", "mjpeg",
        "-q:v", "5", "-f", "image2pipe", "pipe:1",
    ];
    let res = CommandLine { program: "ffmpeg".to_owned(), args: texts(&words) };
    assert(res@.args =~= encoder_command(config@, rtp_port as int).args);
    res
}

/// The capture of a camera: writes JPEG frames. A CSI camera is read by `rpicam-vid`, any other by
/// `ffmpeg`.
pub open spec fn capture_command(config: ConfigView) -> CommandLineView {
    let width = signed_decimal(max_of(config.camera_width, 2));
    let height = signed_decimal(max_of(config.camera_height, 2));
    let fps = signed_decimal(max_of(config.camera_fps, 1));
    match csi_number(config.camera_device) {
        Some(number) => CommandLineView {
            program: "rpicam-vid"@,
            args: seq![
                "--camera"@,
                number,
                "--codec"@,
                "mjpeg"@,
                "--width"@,
                width,
                "--height"@,
                height,
                "--framerate"@,
                fps,
                "--timeout"@,
                "0"@,
                "--nopreview"@,
                "--output"@,
                "-"@,
            ],
        },
        None => CommandLineView {
            program: "ffmpeg"@,
            args: seq![
                "-hide_banner"@,
                "-loglevel"@,
                "error"@,
                "-f"@,
                "v4l2"@,
                "-input_format"@,
                "mjpeg"@,
                "-video_size"@,
                width + "x"@ + height,
                "-framerate"@,
                fps,
                "-i"@,
                config.camera_device,
                "-vcodec"@,
                "copy"@,
                "-f"@,
                "mjpeg"@,
                "pipe:1"@,
            ],
        },
    }
}

/// The command line of the capture of the configured camera.
pub fn camera_capture_command(config: &Config) -> (res: CommandLine)
    ensures
        res@ == capture_command(config@),
{
    let width = at_least_text(config.camera_width, 2);
    let height = at_least_text(config.camera_height, 2);
    let fps = at_least_text(config.camera_fps, 1);
    match rpicam_index(config.camera_device.as_str()) {
        Some(number) => {
            let words: Vec<&str> = vec![
                "--camera", number.as_str(), "--codec", "mjpeg", "--width", width.as_str(),
                "--height", height.as_str(), "--framerate", fps.as_str(), "--timeout", "0",
                "--nopreview", "--output", "-",
            ];
            let res = CommandLine { program: "rpicam-vid".to_owned(), args: texts(&words) };
            assert(res@.args =~= capture_command(config@).args);
            res
        },
        None => {
            let size = joined(joined(width.as_str(), "x").as_str(), height.as_str());
            let words: Vec<&str> = vec![
                "-hide_banner", "-loglevel", "error", "-f", "v4l2", "-input_format", "mjpeg",
                "-video_size", size.as_str(), "-framerate", fps.as_str(), "-i",
                config.camera_device.as_str(), "-vcodec", "copy", "-f", "mjpeg", "pipe:1",
            ];
            let res = CommandLine { program: "ffmpeg".to_owned(), args: texts(&words) };
            assert(res@.args =~= capture_command(config@).args);
            res
        },
    }
}

/// The name by which PulseAudio knows a device: `default` for none and for the one that stands for
/// the default.
pub open spec fn pulse_name(name: Seq<char>, default: Seq<char>) -> Seq<char> {
    if name.len() == 0 || name == default {
        "default"@
    } else {
        name
    }
}

fn pulse_name_text(name: &str, default: &str) -> (res: String)
    ensures
        res@ == pulse_name(name@, default@),
{
    if name.is_empty() || same_text(name, default) {
        "default".to_owned()
    } else {
        name.to_owned()
    }
}

/// The sound of the microphone: amplified, evened out, and sent as Opus over RTP.
pub open spec fn audio_command(source: Seq<char>, rtp_port: int) -> CommandLineView {
    CommandLineView {
        program: "ffmpeg"@,
        args: seq![
            "-hide_banner"@,
            "-loglevel"@,
            "error"@,
            "-fflags"@,
            "nobuffer"@,
            "-f"@,
            "pulse"@,
            "-i"@,
            pulse_name(source, "@DEFAULT_SOURCE@"@),
            "-ar"@,
            "48000"@,
            "-ac"@,
            "1"@,
            "-af"@,
            "volume=18dB,acompressor=threshold=-24dB:ratio=8:attack=5:release=100:makeup=6dB"@,
            "-c:a"@,
            "libopus"@,
            "-application"@,
            "lowdelay"@,
            "-frame_duration"@,
            "20"@,
            "-f"@,
            "rtp"@,
            rtp_url(rtp_port),
        ],
    }
}

/// The command line for the sound of the microphone.
pub fn audio_capture_command(source: &str, rtp_port: u16) -> (res: CommandLine)
    ensures
        res@ == audio_command(source@, rtp_port as int),
{
    let input = pulse_name_text(source, "@DEFAULT_SOURCE@");
    let url = rtp_url_text(rtp_port);
    let words: Vec<&str> = vec![
        "-hide_banner", "-loglevel", "error", "-fflags", "nobuffer", "-f", "pulse", "-i",
        input.as_str(), "-ar", "48000", "-ac", "1", "-af",
        "volume=18dB,acompressor=threshold=-24dB:ratio=8:attack=5:release=100:makeup=6dB", "-c:a",
        "libopus", "-application", "lowdelay", "-frame_duration", "20", "-f", "rtp", url.as_str(),
    ];
    let res = CommandLine { program: "ffmpeg".to_owned(), args: texts(&words) };
    assert(res@.args =~= audio_command(source@, rtp_port as int).args);
    res
}

/// The sound for the speaker: received as the session description says, amplified and played.
pub open spec fn talkback_command(sdp_path: Seq<char>, sink: Seq<char>) -> CommandLineView {
    CommandLineView {
        program: "ffmpeg"@,
        args: seq![
            "-hide_banner"@,
            "-loglevel"@,
            "error"@,
            "-protocol_whitelist"@,
            "file,udp,rtp"@,
            "-f"@,
            "sdp"@,
            "-i"@,
            sdp_path,
            "-af"@,
            "volume=5.0"@,
            "-f"@,
            "pulse"@,
            pulse_name(sink, "@DEFAULT_SINK@"@),
        ],
    }
}

/// The command line for the sound for the speaker.
pub fn talkback_play_command(sdp_path: &str, sink_name: &str) -> (res: CommandLine)
    ensures
        res@ == talkback_command(sdp_path@, sink_name@),
{
    let sink = pulse_name_text(sink_name, "@DEFAULT_SINK@");
    let words: Vec<&str> = vec![
        "-hide_banner", "-loglevel", "error", "-protocol_whitelist", "file,udp,rtp", "-f", "sdp",
        "-i", sdp_path, "-af", "volume=5.0", "-f", "pulse", sink.as_str(),
    ];
    let res = CommandLine { program: "ffmpeg".to_owned(), args: texts(&words) };
    assert(res@.args =~= talkback_command(sdp_path@, sink_name@).args);
    res
}

/// Where the sound for the speaker is sent to.
pub fn talkback_target() -> (res: String)
    ensures
        res@ == "127.0.0.1:"@ + decimal(TALKBACK_RTP_PORT as nat),
{
    joined("127.0.0.1:", decimal_text(TALKBACK_RTP_PORT as u64).as_str())
}

/// The session description of the sound for the speaker.
pub open spec fn talkback_description(port: int) -> Seq<char> {
    "v=0\no=- 0 0 IN IP4 127.0.0.1\ns=Surveillance Rust Talkback\nc=IN IP4 127.0.0.1\nt=0 0\nm=audio "@
        + decimal(port as nat) + " RTP/AVP 111\na=rtpmap:111 opus/48000/2\n"@
}

/// The session description of the sound for the speaker.
pub fn talkback_sdp(port: u16) -> (res: String)
    ensures
        res@ == talkback_description(port as int),
{
    joined(
        joined(
            "v=0\no=- 0 0 IN IP4 127.0.0.1\ns=Surveillance Rust Talkback\nc=IN IP4 127.0.0.1\nt=0 0\nm=audio ",
            decimal_text(port as u64).as_str(),
        ).as_str(),
        " RTP/AVP 111\na=rtpmap:111 opus/48000/2\n",
    )
}

/// The name of the file of the session description that is written at the given time, in
/// milliseconds since the epoch.
pub open spec fn talkback_name(stamp: u128) -> Seq<char> {
    "surveillance-rust-talkback-"@ + decimal(stamp as nat) + ".sdp"@
}

/// The name of the file of a session description.
pub fn talkback_file_name(stamp: u128) -> (res: String)
    ensures
        res@ == talkback_name(stamp),
{
    joined(
        joined("surveillance-rust-talkback-", wide_decimal_text(stamp).as_str()).as_str(),
        ".sdp",
    )
}

/// The name is one of the file of a session description.
pub open spec fn names_talkback(name: Seq<char>) -> bool {
    begins_with(name, "surveillance-rust-talkback-"@) && finishes_with(name, ".sdp"@)
}

/// Whether a file is a session description, by its name.
pub fn is_talkback_file(name: &str) -> (res: bool)
    ensures
        res == names_talkback(name@),
{
    starts_with(name, "surveillance-rust-talkback-") && ends_with(name, ".sdp")
}

/// Every file of a session description is found by its name.
pub proof fn law_talkback_files_are_found(stamp: u128)
    ensures
        names_talkback(talkback_name(stamp)),
{
    let name = talkback_name(stamp);
    let start = "surveillance-rust-talkback-"@;
    let end = ".sdp"@;
    assert(name.take(start.len() as int) =~= start);
    assert(name.skip(name.len() - end.len()) =~= end);
}

/// What the command lines of the programs that serve media have in common with nothing else: the
/// address that they send to, or the file that they read.
pub open spec fn worker_marks() -> Seq<Seq<char>> {
    seq!["rtp://127.0.0.1:"@, "surveillance-rust-talkback-"@]
}

/// The patterns by which programs that serve media are found.
pub fn worker_patterns() -> (res: Vec<String>)
    ensures
        text_views(res@) == worker_marks(),
{
    let words: Vec<&str> = vec!["rtp://127.0.0.1:", "surveillance-rust-talkback-"];
    let res = texts(&words);
    assert(text_views(res@) =~= worker_marks());
    res
}

/// The programs that `pgrep` lists, one in each line that is not blank.
pub open spec fn listed_workers(output: Seq<char>) -> nat {
    lines_of(output).filter(|line: Seq<char>| trimmed(line).len() > 0).len()
}

/// How many programs `pgrep` lists.
pub fn count_listed_workers(listing: &Probe) -> (res: usize)
    ensures
        res == listed_workers(printed(*listing)),
{
    let text = match listing {
        Probe::Output(text) => text.as_str(),
        _ => {
            proof {
                reveal_strlit("");
                assert(""@ =~= Seq::<char>::empty());
            }
            ""
        },
    };
    assert(text@ == printed(*listing));
    let all = lines(text);
    let ghost ls = lines_of(text@);
    let ghost shown = |line: Seq<char>| trimmed(line).len() > 0;
    let mut count: usize = 0;
    assert(ls.take(0).filter(shown).len() == 0);
    for i in 0..all.len()
        invariant
            text_views(all@) == ls,
            shown == (|line: Seq<char>| trimmed(line).len() > 0),
            count <= i,
            count == ls.take(i as int).filter(shown).len(),
    {
        proof {
            assert(ls[i as int] == all@[i as int]@);
            assert(ls.take(i + 1) =~= ls.take(i as int).push(ls[i as int]));
            ls.take(i as int).lemma_filter_push(ls[i as int], shown);
        }
        if !is_blank(all[i].as_str()) {
            count = count + 1;
        }
    }
    assert(ls.take(all@.len() as int) =~= ls);
    count
}

/// The programs that send media can be found by the patterns: the address that they send to begins
/// with the first one, and the name of the file that is read begins with the second one.
pub proof fn law_workers_bear_their_marks(port: int, stamp: u128)
    ensures
        begins_with(rtp_url(port), worker_marks()[0]),
        begins_with(talkback_name(stamp), worker_marks()[1]),
{
    law_talkback_files_are_found(stamp);
    let url = rtp_url(port);
    assert(url.take("rtp://127.0.0.1:"@.len() as int) =~= "rtp://127.0.0.1:"@);
}

/// Behind the word `option` at the place `i` of a command line stands the word `value`.
pub open spec fn option_at(args: Seq<Seq<char>>, i: int, option: Seq<char>, value: Seq<char>) -> bool {
    0 <= i && i + 1 < args.len() && args[i] == option && args[i + 1] == value
}

/// The number in decimal digits, where it is at least `least`; else `least`.
pub open spec fn written_at_least(text: Seq<char>, v: int, least: nat) -> bool {
    &&& v >= least ==> text == decimal(v as nat)
    &&& v < least ==> text == decimal(least)
}

/// A CSI camera is captured by `rpicam-vid`, by its number, as JPEG frames to the standard output,
/// without end and without a window: behind `--width` stands the configured width, behind `--height`
/// the height, both at least 2, and behind `--framerate` the frame rate, at least 1.
pub proof fn law_capture_of_a_csi_camera(config: ConfigView, number: Seq<char>)
    requires
        trimmed(config.camera_device) == "rpicam://"@ + number,
        number.len() > 0,
        forall|i: int| 0 <= i < number.len() ==> '0' <= #[trigger] number[i] <= '9',
    ensures
        ({
            let command = capture_command(config);
            let args = command.args;
            &&& command.program == "rpicam-vid"@
            &&& args.len() == 15
            &&& option_at(args, 0, "--camera"@, number)
            &&& option_at(args, 2, "--codec"@, "mjpeg"@)
            &&& args[4] == "--width"@ && written_at_least(args[5], config.camera_width, 2)
            &&& args[6] == "--height"@ && written_at_least(args[7], config.camera_height, 2)
            &&& args[8] == "--framerate"@ && written_at_least(args[9], config.camera_fps, 1)
            &&& option_at(args, 10, "--timeout"@, "0"@)
            &&& args[12] == "--nopreview"@
            &&& option_at(args, 13, "--output"@, "-"@)
        }),
{
    law_names_of_csi_cameras(config.camera_device, number);
}

/// Any other camera is captured by `ffmpeg` from Video4Linux, as JPEG frames that are copied to the
/// standard output: behind `-video_size` stand the configured width and height, both at least 2,
/// behind `-framerate` the frame rate, at least 1, and behind `-i` the camera.
pub proof fn law_capture_of_a_video_node(config: ConfigView)
    requires
        csi_number(config.camera_device) is None,
    ensures
        ({
            let command = capture_command(config);
            let args = command.args;
            &&& command.program == "ffmpeg"@
            &&& args.len() == 18
            &&& args[0] == "-hide_banner"@
            &&& option_at(args, 1, "-loglevel"@, "error"@)
            &&& option_at(args, 3, "-f"@, "v4l2"@)
            &&& option_at(args, 5, "-input_format"@, "mjpeg"@)
            &&& args[7] == "-video_size"@
            &&& exists|width: Seq<char>, height: Seq<char>|
                args[8] == #[trigger] (width + "x"@ + height) && written_at_least(
                    width,
                    config.camera_width,
                    2,
                ) && written_at_least(height, config.camera_height, 2)
            &&& args[9] == "-framerate"@ && written_at_least(args[10], config.camera_fps, 1)
            &&& option_at(args, 11, "-i"@, config.camera_device)
            &&& option_at(args, 13, "-vcodec"@, "copy"@)
            &&& option_at(args, 15, "-f"@, "mjpeg"@)
            &&& args[17] == "pipe:1"@
        }),
{
    let width = signed_decimal(max_of(config.camera_width, 2));
    let height = signed_decimal(max_of(config.camera_height, 2));
    assert(capture_command(config).args[8] == width + "x"@ + height);
    assert(written_at_least(width, config.camera_width, 2));
}

/// The video encoder reads JPEG frames at the configured frame rate, at least 1, from the standard
/// input, sends VP8 to the port, and writes two JPEG frames a second, 640 points wide, to the standard
/// output.
pub proof fn law_encoding_of_the_video(config: ConfigView, rtp_port: nat)
    ensures
        ({
            let command = encoder_command(config, rtp_port as int);
            let args = command.args;
            &&& command.program == "ffmpeg"@
            &&& args.len() == 31
            &&& args[0] == "-hide_banner"@
            &&& option_at(args, 1, "-loglevel"@, "error"@)
            &&& option_at(args, 3, "-f"@, "mjpeg"@)
            &&& args[5] == "-framerate"@ && written_at_least(args[6], config.camera_fps, 1)
            &&& option_at(args, 7, "-i"@, "pipe:0"@)
            &&& args[9] == "-an"@
            &&& option_at(args, 10, "-c:v"@, "libvpx"@)
            &&& option_at(args, 12, "-deadline"@, "realtime"@)
            &&& option_at(args, 14, "-cpu-used"@, "5"@)
            &&& option_at(args, 16, "-pix_fmt"@, "yuv420p"@)
            &&& option_at(args, 18, "-f"@, "rtp"@)
            &&& args[20] == "rtp://127.0.0.1:"@ + decimal(rtp_port)
            &&& args[21] == "-an"@
            &&& option_at(args, 22, "-vf"@, "fps=2,scale=640:-2"@)
            &&& option_at(args, 24, "-c:v"@, "mjpeg"@)
            &&& option_at(args, 26, "-q:v"@, "5"@)
            &&& option_at(args, 28, "-f"@, "image2pipe"@)
            &&& args[30] == "pipe:1"@
        }),
{
}

/// The sound of the microphone is read from PulseAudio, from the selected source or, where none is
/// selected, from the default one; it is amplified, evened out, and sent as Opus, in one channel at
/// 48000 samples a second, to the port.
pub proof fn law_capture_of_the_sound(source: Seq<char>, rtp_port: nat)
    ensures
        ({
            let command = audio_command(source, rtp_port as int);
            let args = command.args;
            &&& command.program == "ffmpeg"@
            &&& args.len() == 24
            &&& args[0] == "-hide_banner"@
            &&& option_at(args, 1, "-loglevel"@, "error"@)
            &&& option_at(args, 3, "-fflags"@, "nobuffer"@)
            &&& option_at(args, 5, "-f"@, "pulse"@)
            &&& args[7] == "-i"@
            &&& source.len() == 0 || source == "@DEFAULT_SOURCE@"@ ==> args[8] == "default"@
            &&& source.len() > 0 && source != "@DEFAULT_SOURCE@"@ ==> args[8] == source
            &&& option_at(args, 9, "-ar"@, "48000"@)
            &&& option_at(args, 11, "-ac"@, "1"@)
            &&& option_at(
                args,
                13,
                "-af"@,
                "volume=18dB,acompressor=threshold=-24dB:ratio=8:attack=5:release=100:makeup=6dB"@,
            )
            &&& option_at(args, 15, "-c:a"@, "libopus"@)
            &&& option_at(args, 17, "-application"@, "lowdelay"@)
            &&& option_at(args, 19, "-frame_duration"@, "20"@)
            &&& option_at(args, 21, "-f"@, "rtp"@)
            &&& args[23] == "rtp://127.0.0.1:"@ + decimal(rtp_port)
        }),
{
}

/// The sound for the speaker is received as the file of the session description says, amplified, and
/// played by PulseAudio on the selected sink or, where none is selected, on the default one.
pub proof fn law_playing_of_the_sound(sdp_path: Seq<char>, sink: Seq<char>)
    ensures
        ({
            let command = talkback_command(sdp_path, sink);
            let args = command.args;
            &&& command.program == "ffmpeg"@
            &&& args.len() == 14
            &&& args[0] == "-hide_banner"@
            &&& option_at(args, 1, "-loglevel"@, "error"@)
            &&& option_at(args, 3, "-protocol_whitelist"@, "file,udp,rtp"@)
            &&& option_at(args, 5, "-f"@, "sdp"@)
            &&& option_at(args, 7, "-i"@, sdp_path)
            &&& option_at(args, 9, "-af"@, "volume=5.0"@)
            &&& option_at(args, 11, "-f"@, "pulse"@)
            &&& sink.len() == 0 || sink == "@DEFAULT_SINK@"@ ==> args[13] == "default"@
            &&& sink.len() > 0 && sink != "@DEFAULT_SINK@"@ ==> args[13] == sink
        }),
{
}

/// The session description of the sound for the speaker tells the port, and that Opus comes there; two
/// ports have different descriptions. The name of its file tells when it was written; the files of two
/// times have different names.
pub proof fn law_talkback_is_told_apart(port1: nat, port2: nat, stamp1: u128, stamp2: u128)
    ensures
        talkback_description(port1 as int)
            == "v=0\no=- 0 0 IN IP4 127.0.0.1\ns=Surveillance Rust Talkback\nc=IN IP4 127.0.0.1\nt=0 0\nm=audio "@
            + decimal(port1) + " RTP/AVP 111\na=rtpmap:111 opus/48000/2\n"@,
        talkback_description(port1 as int) == talkback_description(port2 as int) ==> port1 == port2,
        talkback_name(stamp1) == "surveillance-rust-talkback-"@ + decimal(stamp1 as nat) + ".sdp"@,
        talkback_name(stamp1) == talkback_name(stamp2) ==> stamp1 == stamp2,
        TALKBACK_RTP_PORT == 5010,
{
    if talkback_description(port1 as int) == talkback_description(port2 as int) {
        lemma_middle(
            "v=0\no=- 0 0 IN IP4 127.0.0.1\ns=Surveillance Rust Talkback\nc=IN IP4 127.0.0.1\nt=0 0\nm=audio "@,
            decimal(port1),
            decimal(port2),
            " RTP/AVP 111\na=rtpmap:111 opus/48000/2\n"@,
        );
        law_decimal_read_back(port1);
        law_decimal_read_back(port2);
    }
    if talkback_name(stamp1) == talkback_name(stamp2) {
        lemma_middle(
            "surveillance-rust-talkback-"@,
            decimal(stamp1 as nat),
            decimal(stamp2 as nat),
            ".sdp"@,
        );
        law_decimal_read_back(stamp1 as nat);
        law_decimal_read_back(stamp2 as nat);
    }
}

/// A file is one of a session description exactly where its name begins and ends like theirs; the
/// programs that serve media are found by the beginning of that name and by the address that they
/// send to.
pub proof fn law_marks_of_workers(name: Seq<char>)
    ensures
        names_talkback(name) <==> begins_with(name, "surveillance-rust-talkback-"@) && finishes_with(
            name,
            ".sdp"@,
        ),
        worker_marks().len() == 2,
        worker_marks()[0] == "rtp://127.0.0.1:"@,
        worker_marks()[1] == "surveillance-rust-talkback-"@,
{
}

/// What stands between the same words is the same where the whole is.
proof fn lemma_middle(before: Seq<char>, a: Seq<char>, b: Seq<char>, after: Seq<char>)
    requires
        before + a + after == before + b + after,
    ensures
        a == b,
{
    let s = before + a + after;
    let t = before + b + after;
    assert(s.len() == t.len());
    assert(a =~= s.subrange(before.len() as int, s.len() - after.len()));
    assert(b =~= t.subrange(before.len() as int, t.len() - after.len()));
}

/// A line of the list of programs counts exactly where it holds more than white space; the other lines
/// are counted as if it were not there.
pub proof fn law_listed_programs_are_counted(line: Seq<char>, rest: Seq<char>)
    requires
        !line.contains('\n'),
    ensures
        listed_workers(line + seq!['\n'] + rest) == listed_workers(rest) + if trimmed(
            without_carriage_return(line),
        ).len() > 0 {
            1nat
        } else {
            0nat
        },
        listed_workers(Seq::empty()) == 0,
{
    let shown = |line: Seq<char>| trimmed(line).len() > 0;
    law_lines_are_cut_at_line_feeds(line, rest);
    let first = without_carriage_return(line);
    let all = lines_of(line + seq!['\n'] + rest);
    assert(all == seq![first] + lines_of(rest));
    Seq::filter_distributes_over_add(seq![first], lines_of(rest), shown);
    assert(seq![first] =~= Seq::<Seq<char>>::empty().push(first));
    Seq::<Seq<char>>::empty().lemma_filter_push(first, shown);
    Seq::<Seq<char>>::empty().lemma_filter_len(shown);
    assert(lines_of(Seq::<char>::empty()) =~= Seq::<Seq<char>>::empty());
}

/// What is said of a command line is the program and its words, one by one.
pub proof fn law_view_of_a_command_line(c: CommandLine, i: int)
    ensures
        c@.program == c.program@,
        c@.args.len() == c.args@.len(),
        0 <= i < c.args@.len() ==> c@.args[i] == c.args@[i]@,
{
}

} // verus!
