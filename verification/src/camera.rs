//! Camera devices: how they are named, found and chosen.
//!
//! A camera is a Video4Linux node (`/dev/video0`) or a CSI camera (`rpicam://0`).

use vstd::prelude::*;

use crate::decimal::{
    all_digits, decimal, decimal_text, is_digit, law_decimal_read_back, lemma_digits_value, parse_u32,
    unsigned_of,
};
use crate::ordering::{
    comes_first, is_made_of, is_stable_order, lemma_filter_map_makes, rearranged, stable_order,
};
use crate::text::{
    before_char, begins_with, behind_prefix, chars_of, contains, holds, joined,
    law_lines_are_cut_at_line_feeds, law_only_parts_are_held, law_split_at_the_first,
    law_texts_hold_their_parts, lines, lines_of, lowercased, split_at_char, split_once, starts_with, strip_prefix, text_views, trim, trimmed,
    trimmed_start, up_to_char,
};

verus! {

/// The number of the CSI camera that a device name names.
pub open spec fn csi_number(device: Seq<char>) -> Option<Seq<char>> {
    match behind_prefix(trimmed(device), "rpicam://"@) {
        Some(number) => if number.len() > 0 && all_digits(number) {
            Some(number)
        } else {
            None
        },
        None => None,
    }
}

/// The number of the CSI camera that a device name names.
pub fn rpicam_index(camera_device: &str) -> (res: Option<String>)
    ensures
        match res {
            Some(number) => csi_number(camera_device@) == Some(number@),
            None => csi_number(camera_device@) is None,
        },
{
    let device = trim(camera_device);
    let number = match strip_prefix(device.as_str(), "rpicam://") {
        Some(number) => number,
        None => {
            return None;
        },
    };
    let chars = chars_of(number.as_str());
    if chars.len() == 0 {
        return None;
    }
    for i in 0..chars.len()
        invariant
            chars@ == number@,
            csi_number(camera_device@) == (if number@.len() > 0 && all_digits(number@) {
                Some(number@)
            } else {
                None
            }),
            forall|j: int| 0 <= j < i ==> '0' <= #[trigger] chars@[j] <= '9',
    {
        let c: char = chars[i];
        if !('0' <= c && c <= '9') {
            assert(number@[i as int] == c);
            assert(!all_digits(number@));
            return None;
        }
    }
    Some(number)
}

/// What kind of camera a device name names.
pub open spec fn source_type(device: Seq<char>) -> Seq<char> {
    if begins_with(device, "rpicam://"@) {
        "CSI"@
    } else if begins_with(device, "/dev/video"@) {
        "V4L2"@
    } else {
        "Unknown"@
    }
}

/// What kind of camera a device name names.
pub fn camera_source_type_for_device(camera_device: &str) -> (res: &'static str)
    ensures
        res@ == source_type(camera_device@),
{
    if starts_with(camera_device, "rpicam://") {
        "CSI"
    } else if starts_with(camera_device, "/dev/video") {
        "V4L2"
    } else {
        "Unknown"
    }
}

/// A CSI camera as the list of `rpicam-hello` shows it: its number and its name, which ends in
/// front of a bracket.
pub open spec fn listed_camera(line: Seq<char>) -> Option<(int, Seq<char>)> {
    match split_at_char(trimmed(line), ':') {
        None => None,
        Some((number, rest)) => match unsigned_of(trimmed(number), u32::MAX as int) {
            None => None,
            Some(index) => {
                let name = trimmed(before_char(trimmed(rest), '['));
                if name.len() > 0 {
                    Some((index, name))
                } else {
                    None
                }
            },
        },
    }
}

/// Reads one line of the camera list.
fn read_listed_camera(line: &str) -> (res: Option<(u32, String)>)
    ensures
        match res {
            Some(c) => listed_camera(line@) == Some((c.0 as int, c.1@)),
            None => listed_camera(line@) is None,
        },
{
    let line = trim(line);
    match split_once(line.as_str(), ':') {
        None => None,
        Some((number, rest)) => match parse_u32(trim(number.as_str()).as_str()) {
            None => None,
            Some(index) => {
                let name = trim(up_to_char(trim(rest.as_str()).as_str(), '[').as_str());
                if name.as_str().is_empty() {
                    None
                } else {
                    Some((index, name))
                }
            },
        },
    }
}

/// The cameras that the lines of a list show, line by line.
pub open spec fn listed_cameras(output: Seq<char>) -> Seq<(int, Seq<char>)> {
    lines_of(output).filter_map(|line: Seq<char>| listed_camera(line))
}

/// `found[k]` is the first camera of `found` with its number.
pub open spec fn first_with_number(found: Seq<(int, Seq<char>)>, k: int) -> bool {
    0 <= k < found.len() && forall|j: int| 0 <= j < k ==> (#[trigger] found[j]).0 != found[k].0
}

/// The camera `c` is the first of `found` with its number.
pub open spec fn is_first_of_number(found: Seq<(int, Seq<char>)>, c: (int, Seq<char>)) -> bool {
    exists|k: int| #[trigger] first_with_number(found, k) && found[k] == c
}

/// One of the cameras has the number `n`.
pub open spec fn has_number(list: Seq<(int, Seq<char>)>, n: int) -> bool {
    exists|i: int| 0 <= i < list.len() && (#[trigger] list[i]).0 == n
}

/// `list` holds the cameras of `found` in the order of their numbers, for each number the first
/// camera that has it.
pub open spec fn is_camera_list(
    found: Seq<(int, Seq<char>)>,
    list: Seq<(int, Seq<char>)>,
) -> bool {
    &&& forall|i: int, j: int| 0 <= i < j < list.len() ==> (#[trigger] list[i]).0 < (
        #[trigger] list[j]).0
    &&& forall|i: int| 0 <= i < list.len() ==> is_first_of_number(found, #[trigger] list[i])
    &&& forall|k: int| 0 <= k < found.len() ==> has_number(list, (#[trigger] found[k]).0)
}

/// The views of cameras.
pub open spec fn camera_views(s: Seq<(u32, String)>) -> Seq<(int, Seq<char>)> {
    s.map_values(|c: (u32, String)| (c.0 as int, c.1@))
}

/// Reads the cameras of a list, line by line.
fn read_listed_cameras(output: &str) -> (res: Vec<(u32, String)>)
    ensures
        camera_views(res@) == listed_cameras(output@),
{
    let all = lines(output);
    let ghost ls = lines_of(output@);
    let ghost read = |line: Seq<char>| listed_camera(line);
    let mut found: Vec<(u32, String)> = Vec::new();
    assert(camera_views(found@) =~= ls.take(0).filter_map(read));
    for i in 0..all.len()
        invariant
            text_views(all@) == ls,
            read == (|line: Seq<char>| listed_camera(line)),
            camera_views(found@) == ls.take(i as int).filter_map(read),
    {
        let ghost before = found@;
        assert(ls[i as int] == all@[i as int]@);
        assert(ls.take(i + 1).drop_last() =~= ls.take(i as int));
        assert(ls.take(i + 1).last() == ls[i as int]);
        match read_listed_camera(all[i].as_str()) {
            Some(c) => {
                found.push(c);
                assert(camera_views(found@) =~= camera_views(before) + seq![(c.0 as int, c.1@)]);
            },
            None => {},
        }
    }
    assert(ls.take(all@.len() as int) =~= ls);
    found
}

/// What came of running a command.
#[derive(Debug)]
pub enum Probe {
    /// The command could not be run.
    Unavailable,
    /// The command ended with an error.
    Failed,
    /// What the command printed.
    Output(String),
}

/// What a command printed; nothing when it did not run or ended with an error.
pub open spec fn printed(probe: Probe) -> Seq<char> {
    match probe {
        Probe::Output(text) => text@,
        _ => Seq::empty(),
    }
}

/// The numbers of cameras.
pub open spec fn camera_numbers(found: Seq<(u32, String)>) -> Seq<u32> {
    found.map_values(|c: (u32, String)| c.0)
}

/// The CSI cameras that a list of `rpicam-hello` shows, in the order of their numbers, each number
/// once.
pub fn rpicam_camera_indices(listing: &Probe) -> (res: Vec<(u32, String)>)
    ensures
        is_camera_list(listed_cameras(printed(*listing)), camera_views(res@)),
{
    let found = match listing {
        Probe::Output(text) => read_listed_cameras(text.as_str()),
        _ => {
            let none: Vec<(u32, String)> = Vec::new();
            assert(lines_of(printed(*listing)) =~= Seq::<Seq<char>>::empty());
            assert(listed_cameras(printed(*listing)) =~= camera_views(none@));
            none
        },
    };
    sort_by_number(&found)
}

/// Puts cameras in the order of their numbers, for each number the first camera that has it.
fn sort_by_number(found: &Vec<(u32, String)>) -> (res: Vec<(u32, String)>)
    ensures
        is_camera_list(camera_views(found@), camera_views(res@)),
{
    let ghost fv = camera_views(found@);
    let mut numbers: Vec<u32> = Vec::new();
    for i in 0..found.len()
        invariant
            numbers@ =~= camera_numbers(found@).take(i as int),
    {
        numbers.push(found[i].0);
    }
    assert(numbers@ =~= camera_numbers(found@));
    let order = stable_order(&numbers);
    let mut list: Vec<(u32, String)> = Vec::new();
    for i in 0..order.len()
        invariant
            fv == camera_views(found@),
            numbers@ == camera_numbers(found@),
            is_stable_order(numbers@, order@),
            list@.len() <= i,
            i > 0 ==> list@.len() > 0 && list@.last().0 == numbers@[order@[i - 1] as int],
            forall|a: int, b: int|
                0 <= a < b < list@.len() ==> (#[trigger] list@[a]).0 < (#[trigger] list@[b]).0,
            forall|a: int|
                0 <= a < list@.len() ==> is_first_of_number(
                    fv,
                    ((#[trigger] list@[a]).0 as int, list@[a].1@),
                ),
            forall|p: int|
                0 <= p < i ==> exists|a: int|
                    0 <= a < list@.len() && (#[trigger] list@[a]).0
                        == numbers@[(#[trigger] order@[p]) as int],
    {
        let k: usize = order[i];
        assert(order@[i as int] < numbers@.len());
        let number: u32 = found[k].0;
        let ghost before = list@;
        proof {
            if i > 0 {
                assert(comes_first(
                    numbers@,
                    order@[i - 1] as int,
                    order@[i as int] as int,
                ));
            }
        }
        if list.len() == 0 || list[list.len() - 1].0 != number {
            list.push((number, found[k].1.clone()));
            proof {
                assert(first_with_number(fv, k as int)) by {
                    assert forall|j: int| 0 <= j < k implies (#[trigger] fv[j]).0
                        != fv[k as int].0 by {
                        if numbers@[j] == number {
                            assert(order@.contains(j as usize));
                            let p = choose|p: int| 0 <= p < order@.len() && order@[p] == j;
                            if p > i {
                                assert(comes_first(
                                    numbers@,
                                    order@[i as int] as int,
                                    order@[p] as int,
                                ));
                            } else if p < i {
                                if p < i - 1 {
                                    assert(comes_first(
                                        numbers@,
                                        order@[p] as int,
                                        order@[i - 1] as int,
                                    ));
                                }
                                assert(numbers@[order@[i - 1] as int] == number);
                                assert(false);
                            }
                        }
                        assert(fv[j].0 == numbers@[j] as int);
                    }
                }
                let after = list@;
                assert forall|a: int| 0 <= a < after.len() implies is_first_of_number(
                    fv,
                    ((#[trigger] after[a]).0 as int, after[a].1@),
                ) by {
                    if a < before.len() {
                        assert(after[a] == before[a]);
                    } else {
                        assert(first_with_number(fv, k as int));
                    }
                }
                assert forall|a: int, b: int| 0 <= a < b < after.len() implies (#[trigger] after[a]).0
                    < (#[trigger] after[b]).0 by {
                    assert(after[a] == before[a]);
                    if b < before.len() {
                        assert(after[b] == before[b]);
                    } else if a < before.len() - 1 {
                        assert(before[a].0 < before[before.len() - 1].0);
                    }
                }
            }
        }
        proof {
            let after = list@;
            assert forall|p: int| 0 <= p < i + 1 implies exists|a: int|
                0 <= a < after.len() && (#[trigger] after[a]).0
                    == numbers@[(#[trigger] order@[p]) as int] by {
                if p < i {
                    let w = choose|w: int|
                        0 <= w < before.len() && (#[trigger] before[w]).0
                            == numbers@[order@[p] as int];
                    assert(after[w] == before[w]);
                } else {
                    assert(after[after.len() - 1].0 == numbers@[order@[p] as int]);
                }
            }
        }
    }
    proof {
        let lv = camera_views(list@);
        assert forall|i: int, j: int| 0 <= i < j < lv.len() implies (#[trigger] lv[i]).0 < (
        #[trigger] lv[j]).0 by {
            assert(list@[i].0 < list@[j].0);
        }
        assert forall|i: int| 0 <= i < lv.len() implies is_first_of_number(
            fv,
            #[trigger] lv[i],
        ) by {
            assert(lv[i] == (list@[i].0 as int, list@[i].1@));
        }
        assert forall|k: int| 0 <= k < fv.len() implies has_number(lv, (#[trigger] fv[k]).0) by {
            assert(order@.contains(k as usize));
            let p = choose|p: int| 0 <= p < order@.len() && order@[p] == k;
            let w = choose|w: int|
                0 <= w < list@.len() && (#[trigger] list@[w]).0 == numbers@[order@[p] as int];
            assert(lv[w].0 == fv[k].0);
        }
    }
    list
}

/// A Video4Linux node: its path and its number. The node's name is `video` and the number.
pub open spec fn video_node(name: Seq<char>) -> Option<(Seq<char>, u32)> {
    match behind_prefix(name, "video"@) {
        None => None,
        Some(suffix) => match unsigned_of(suffix, u32::MAX as int) {
            None => None,
            Some(n) => Some(("/dev/"@ + name, n as u32)),
        },
    }
}

/// The nodes among the names of a directory.
pub open spec fn video_nodes(names: Seq<Seq<char>>) -> Seq<(Seq<char>, u32)> {
    names.filter_map(|name: Seq<char>| video_node(name))
}

/// The paths of nodes.
pub open spec fn node_paths(nodes: Seq<(Seq<char>, u32)>) -> Seq<Seq<char>> {
    nodes.map_values(|n: (Seq<char>, u32)| n.0)
}

/// The numbers of nodes.
pub open spec fn node_numbers(nodes: Seq<(Seq<char>, u32)>) -> Seq<u32> {
    nodes.map_values(|n: (Seq<char>, u32)| n.1)
}

/// The paths of the Video4Linux nodes among the names of a directory, in the order of their
/// numbers.
pub fn list_video_nodes(names: &Vec<String>) -> (res: Vec<String>)
    ensures
        exists|order: Seq<usize>| #[trigger]
            is_stable_order(node_numbers(video_nodes(text_views(names@))), order) && text_views(res@)
                == rearranged(node_paths(video_nodes(text_views(names@))), order),
{
    let ghost ns = text_views(names@);
    let ghost read = |name: Seq<char>| video_node(name);
    let mut paths: Vec<String> = Vec::new();
    let mut numbers: Vec<u32> = Vec::new();
    assert(ns.take(0).filter_map(read) =~= Seq::<(Seq<char>, u32)>::empty());
    for i in 0..names.len()
        invariant
            ns == text_views(names@),
            read == (|name: Seq<char>| video_node(name)),
            text_views(paths@) =~= node_paths(ns.take(i as int).filter_map(read)),
            numbers@ =~= node_numbers(ns.take(i as int).filter_map(read)),
    {
        assert(ns[i as int] == names@[i as int]@);
        assert(ns.take(i + 1).drop_last() =~= ns.take(i as int));
        assert(ns.take(i + 1).last() == ns[i as int]);
        if let Some(suffix) = strip_prefix(names[i].as_str(), "video") {
            if let Some(n) = parse_u32(suffix.as_str()) {
                let ghost before = paths@;
                paths.push(joined("/dev/", names[i].as_str()));
                numbers.push(n);
                assert(text_views(paths@) =~= text_views(before).push("/dev/"@ + ns[i as int]));
                assert(node_paths(ns.take(i + 1).filter_map(read)) =~= node_paths(
                    ns.take(i as int).filter_map(read),
                ).push("/dev/"@ + ns[i as int]));
            }
        }
    }
    assert(ns.take(names@.len() as int) =~= ns);
    let order = stable_order(&numbers);
    let mut nodes: Vec<String> = Vec::new();
    for i in 0..order.len()
        invariant
            paths@.len() == numbers@.len(),
            is_stable_order(numbers@, order@),
            text_views(nodes@) =~= rearranged(text_views(paths@), order@.take(i as int)),
    {
        assert(order@[i as int] < numbers@.len());
        let ghost before = nodes@;
        nodes.push(paths[order[i]].clone());
        assert(text_views(nodes@) =~= text_views(before).push(paths@[order@[i as int] as int]@));
        assert(rearranged(text_views(paths@), order@.take(i + 1)) =~= rearranged(
            text_views(paths@),
            order@.take(i as int),
        ).push(paths@[order@[i as int] as int]@));
    }
    assert(order@.take(order@.len() as int) =~= order@);
    assert(is_stable_order(node_numbers(video_nodes(ns)), order@));
    nodes
}

/// What is known of a Video4Linux camera from its capabilities.
#[derive(Clone, Copy, Debug, PartialEq, Eq, Structural)]
pub enum CameraCheck {
    Supported,
    Unsupported,
    /// It captures video; its formats decide.
    AskFormats,
}

/// What the capabilities of a device, in lower case, say: it can be used where it captures video
/// and not only metadata.
pub open spec fn captures_video(capabilities: Seq<char>) -> bool {
    holds(capabilities, "video capture"@)
}

/// Whether a device captures video, by its capabilities in lower case.
pub fn tells_video_capture(capabilities: &str) -> (res: bool)
    ensures
        res == captures_video(capabilities@),
{
    if contains(capabilities, "metadata capture") && !contains(capabilities, "video capture") {
        return false;
    }
    contains(capabilities, "video capture")
}

/// A device can deliver Motion JPEG, by its formats in lower case.
pub open spec fn delivers_motion_jpeg(formats: Seq<char>) -> bool {
    holds(formats, "mjpg"@) || holds(formats, "motion-jpeg"@)
}

/// Whether a device can deliver Motion JPEG, by its formats in lower case.
pub fn tells_motion_jpeg(formats: &str) -> (res: bool)
    ensures
        res == delivers_motion_jpeg(formats@),
{
    contains(formats, "mjpg") || contains(formats, "motion-jpeg")
}

/// What is known of a device from its capabilities. Where they cannot be asked for, the device is
/// taken as it is.
pub open spec fn capability_check(exists_: bool, capabilities: Probe) -> CameraCheck {
    if !exists_ {
        CameraCheck::Unsupported
    } else {
        match capabilities {
            Probe::Unavailable => CameraCheck::Supported,
            Probe::Failed => CameraCheck::Unsupported,
            Probe::Output(text) => if captures_video(lowercased(text@)) {
                CameraCheck::AskFormats
            } else {
                CameraCheck::Unsupported
            },
        }
    }
}

/// Checks the capabilities of a device.
pub fn check_capabilities(device_exists: bool, capabilities: &Probe) -> (res: CameraCheck)
    ensures
        res == capability_check(device_exists, *capabilities),
{
    if !device_exists {
        return CameraCheck::Unsupported;
    }
    match capabilities {
        Probe::Unavailable => CameraCheck::Supported,
        Probe::Failed => CameraCheck::Unsupported,
        Probe::Output(text) => {
            if tells_video_capture(text.as_str().to_lowercase().as_str()) {
                CameraCheck::AskFormats
            } else {
                CameraCheck::Unsupported
            }
        },
    }
}

/// A device can be used: its capabilities say so, or they leave it to the formats and one of these
/// is Motion JPEG.
pub open spec fn supported_camera(exists_: bool, capabilities: Probe, formats: Probe) -> bool {
    match capability_check(exists_, capabilities) {
        CameraCheck::Supported => true,
        CameraCheck::Unsupported => false,
        CameraCheck::AskFormats => formats matches Probe::Output(text) && delivers_motion_jpeg(
            lowercased(text@),
        ),
    }
}

/// Whether a device can be used.
pub fn is_supported_v4l2_camera(device_exists: bool, capabilities: &Probe, formats: &Probe) -> (res:
    bool)
    ensures
        res == supported_camera(device_exists, *capabilities, *formats),
{
    match check_capabilities(device_exists, capabilities) {
        CameraCheck::Supported => true,
        CameraCheck::Unsupported => false,
        CameraCheck::AskFormats => match formats {
            Probe::Output(text) => tells_motion_jpeg(text.as_str().to_lowercase().as_str()),
            _ => false,
        },
    }
}

/// The views of candidates: the path of a node, and whether it can be used.
pub open spec fn candidate_nodes(s: Seq<(String, bool)>) -> Seq<(Seq<char>, bool)> {
    s.map_values(|c: (String, bool)| (c.0@, c.1))
}

/// The device name of a CSI camera.
pub open spec fn csi_path(index: int) -> Seq<char> {
    "rpicam://"@ + decimal(index as nat)
}

/// The device name of a CSI camera.
pub fn csi_device(index: u32) -> (res: String)
    ensures
        res@ == csi_path(index as int),
{
    joined("rpicam://", decimal_text(index as u64).as_str())
}

/// The device to use when none is asked for: the first node that can be used, or else the first CSI
/// camera, or else `/dev/video0`.
pub open spec fn default_device(
    nodes: Seq<(Seq<char>, bool)>,
    rpicam_available: bool,
    cameras: Seq<(int, Seq<char>)>,
) -> Seq<char>
    decreases nodes.len(),
{
    if nodes.len() > 0 {
        if nodes[0].1 {
            nodes[0].0
        } else {
            default_device(nodes.drop_first(), rpicam_available, cameras)
        }
    } else if rpicam_available && cameras.len() > 0 {
        csi_path(cameras[0].0)
    } else {
        "/dev/video0"@
    }
}

/// Selects the device to use when none is asked for.
pub fn select_default_camera_device(
    nodes: &Vec<(String, bool)>,
    rpicam_available: bool,
    cameras: &Vec<(u32, String)>,
) -> (res: String)
    ensures
        res@ == default_device(candidate_nodes(nodes@), rpicam_available, camera_views(cameras@)),
{
    let ghost ns = candidate_nodes(nodes@);
    let ghost cs = camera_views(cameras@);
    assert(ns.skip(0) =~= ns);
    for i in 0..nodes.len()
        invariant
            ns == candidate_nodes(nodes@),
            cs == camera_views(cameras@),
            default_device(ns, rpicam_available, cs) == default_device(
                ns.skip(i as int),
                rpicam_available,
                cs,
            ),
    {
        assert(ns.skip(i as int)[0] == (nodes@[i as int].0@, nodes@[i as int].1));
        if nodes[i].1 {
            return nodes[i].0.clone();
        }
        assert(ns.skip(i as int).drop_first() =~= ns.skip(i + 1));
    }
    if rpicam_available && cameras.len() > 0 {
        return csi_device(cameras[0].0);
    }
    "/dev/video0".to_owned()
}

/// CSI cameras can be used: both commands are there, and there is a camera.
pub open spec fn csi_available(hello: bool, vid: bool, cameras: int) -> bool {
    hello && vid && cameras > 0
}

/// Whether CSI cameras can be used, by whether `rpicam-hello` and `rpicam-vid` are there and by the
/// list of cameras.
pub fn rpicam_camera_available(hello: bool, vid: bool, cameras: &Vec<(u32, String)>) -> (res: bool)
    ensures
        res == csi_available(hello, vid, cameras@.len() as int),
{
    hello && vid && cameras.len() > 0
}

/// A camera that can be selected.
#[derive(Debug)]
pub struct CameraDevice {
    pub path: String,
    pub name: String,
    pub supported: bool,
    pub reason: String,
    pub supported_resolutions: Vec<(i32, i32)>,
}

/// What a [`CameraDevice`] says.
#[verifier::ext_equal]
pub struct CameraDeviceView {
    pub path: Seq<char>,
    pub name: Seq<char>,
    pub supported: bool,
    pub reason: Seq<char>,
    pub supported_resolutions: Seq<(i32, i32)>,
}

impl View for CameraDevice {
    type V = CameraDeviceView;

    open spec fn view(&self) -> CameraDeviceView {
        CameraDeviceView {
            path: self.path@,
            name: self.name@,
            supported: self.supported,
            reason: self.reason@,
            supported_resolutions: self.supported_resolutions@,
        }
    }
}

/// The resolutions that can be selected, as width and height.
pub open spec fn resolutions() -> Seq<(i32, i32)> {
    seq![(640i32, 480i32), (1280i32, 720i32), (1920i32, 1080i32), (2560i32, 1440i32)]
}

/// The resolutions that can be selected, as width and height.
pub fn supported_resolutions() -> (res: Vec<(i32, i32)>)
    ensures
        res@ == resolutions(),
{
    let list: Vec<(i32, i32)> = vec![(640, 480), (1280, 720), (1920, 1080), (2560, 1440)];
    assert(list@ =~= resolutions());
    list
}

/// A Video4Linux node as a device.
pub open spec fn node_device(path: Seq<char>) -> CameraDeviceView {
    CameraDeviceView {
        path,
        name: path,
        supported: true,
        reason: "v4l2"@,
        supported_resolutions: resolutions(),
    }
}

/// A CSI camera as a device.
pub open spec fn csi_camera_device(camera: (int, Seq<char>)) -> CameraDeviceView {
    CameraDeviceView {
        path: csi_path(camera.0),
        name: "CSI Camera "@ + decimal(camera.0 as nat) + ": "@ + camera.1,
        supported: true,
        reason: "CSI camera via rpicam-vid mjpeg stream"@,
        supported_resolutions: resolutions(),
    }
}

/// The node as a device where it can be used.
pub open spec fn usable_node(node: (Seq<char>, bool)) -> Option<CameraDeviceView> {
    if node.1 {
        Some(node_device(node.0))
    } else {
        None
    }
}

/// The devices that can be selected: the nodes that can be used, then the CSI cameras where both
/// commands are there.
pub open spec fn devices_of(
    nodes: Seq<(Seq<char>, bool)>,
    commands: bool,
    cameras: Seq<(int, Seq<char>)>,
) -> Seq<CameraDeviceView> {
    nodes.filter_map(|n: (Seq<char>, bool)| usable_node(n)) + if commands {
        cameras.map_values(|c: (int, Seq<char>)| csi_camera_device(c))
    } else {
        Seq::empty()
    }
}

/// The views of devices.
pub open spec fn device_views(s: Seq<CameraDevice>) -> Seq<CameraDeviceView> {
    s.map_values(|d: CameraDevice| d@)
}

/// Lists the devices that can be selected.
pub fn available_camera_devices(
    nodes: &Vec<(String, bool)>,
    hello: bool,
    vid: bool,
    cameras: &Vec<(u32, String)>,
) -> (res: Vec<CameraDevice>)
    ensures
        device_views(res@) == devices_of(
            candidate_nodes(nodes@),
            hello && vid,
            camera_views(cameras@),
        ),
{
    let ghost ns = candidate_nodes(nodes@);
    let ghost cs = camera_views(cameras@);
    let ghost usable = |n: (Seq<char>, bool)| usable_node(n);
    let ghost csi = |c: (int, Seq<char>)| csi_camera_device(c);
    let mut devices: Vec<CameraDevice> = Vec::new();
    assert(ns.take(0).filter_map(usable) =~= Seq::<CameraDeviceView>::empty());
    for i in 0..nodes.len()
        invariant
            ns == candidate_nodes(nodes@),
            usable == (|n: (Seq<char>, bool)| usable_node(n)),
            device_views(devices@) =~= ns.take(i as int).filter_map(usable),
    {
        assert(ns[i as int] == (nodes@[i as int].0@, nodes@[i as int].1));
        assert(ns.take(i + 1).drop_last() =~= ns.take(i as int));
        assert(ns.take(i + 1).last() == ns[i as int]);
        if nodes[i].1 {
            devices.push(
                CameraDevice {
                    path: nodes[i].0.clone(),
                    name: nodes[i].0.clone(),
                    supported: true,
                    reason: "v4l2".to_owned(),
                    supported_resolutions: supported_resolutions(),
                },
            );
        }
    }
    assert(ns.take(nodes@.len() as int) =~= ns);
    if hello && vid {
        let ghost found = device_views(devices@);
        assert(found + cs.take(0).map_values(csi) =~= found);
        for i in 0..cameras.len()
            invariant
                cs == camera_views(cameras@),
                csi == (|c: (int, Seq<char>)| csi_camera_device(c)),
                device_views(devices@) =~= found + cs.take(i as int).map_values(csi),
        {
            let number = decimal_text(cameras[i].0 as u64);
            let start = joined(joined("CSI Camera ", number.as_str()).as_str(), ": ");
            assert(cs[i as int] == (cameras@[i as int].0 as int, cameras@[i as int].1@));
            let ghost before = devices@;
            devices.push(
                CameraDevice {
                    path: csi_device(cameras[i].0),
                    name: joined(start.as_str(), cameras[i].1.as_str()),
                    supported: true,
                    reason: "CSI camera via rpicam-vid mjpeg stream".to_owned(),
                    supported_resolutions: supported_resolutions(),
                },
            );
            assert(devices@.last()@ =~= csi_camera_device(cs[i as int]));
            assert(device_views(devices@) =~= device_views(before).push(devices@.last()@));
            assert(cs.take(i + 1).map_values(csi) =~= cs.take(i as int).map_values(csi).push(
                csi_camera_device(cs[i as int]),
            ));
        }
        assert(cs.take(cameras@.len() as int) =~= cs);
    }
    devices
}

/// The device that is used when none is asked for is the first one that can be selected; only where
/// there is none it is `/dev/video0`.
pub proof fn law_default_device_is_the_first(
    nodes: Seq<(Seq<char>, bool)>,
    hello: bool,
    vid: bool,
    cameras: Seq<(int, Seq<char>)>,
)
    ensures
        ({
            let devices = devices_of(nodes, hello && vid, cameras);
            default_device(nodes, csi_available(hello, vid, cameras.len() as int), cameras) == if devices.len()
                > 0 {
                devices[0].path
            } else {
                "/dev/video0"@
            }
        }),
    decreases nodes.len(),
{
    let usable = |n: (Seq<char>, bool)| usable_node(n);
    let devices = devices_of(nodes, hello && vid, cameras);
    if nodes.len() == 0 {
        assert(nodes.filter_map(usable) =~= Seq::<CameraDeviceView>::empty());
    } else {
        let rest = nodes.drop_first();
        law_default_device_is_the_first(rest, hello, vid, cameras);
        lemma_filter_map_front(nodes, usable);
        if nodes[0].1 {
            assert(devices[0] == node_device(nodes[0].0));
        } else {
            assert(devices =~= devices_of(rest, hello && vid, cameras));
        }
    }
}

/// `filter_map` begins with what comes of the first item.
proof fn lemma_filter_map_front<A, B>(s: Seq<A>, f: spec_fn(A) -> Option<B>)
    requires
        s.len() > 0,
    ensures
        s.filter_map(f) == (match f(s[0]) {
            Some(b) => seq![b],
            None => Seq::empty(),
        }) + s.drop_first().filter_map(f),
    decreases s.len(),
{
    if s.len() == 1 {
        assert(s.drop_last() =~= Seq::<A>::empty());
        assert(s.drop_first() =~= Seq::<A>::empty());
    } else {
        lemma_filter_map_front(s.drop_last(), f);
        assert(s.drop_last().drop_first() =~= s.drop_first().drop_last());
        assert(s.drop_first().last() == s.last());
    }
}

/// The device name of a CSI camera names that camera, and is known to name a CSI camera.
pub proof fn law_csi_device_names_its_camera(index: u32)
    ensures
        csi_number(csi_path(index as int)) == Some(decimal(index as nat)),
        source_type(csi_path(index as int)) == "CSI"@,
{
    reveal_strlit("rpicam://");
    let d = decimal(index as nat);
    let p = csi_path(index as int);
    law_decimal_read_back(index as nat);
    assert(p[0] == 'r');
    assert(trimmed_start(p) == p);
    assert(p.last() == d.last());
    assert(is_digit(d.last()));
    assert(trimmed(p) == p);
    assert(p.take("rpicam://"@.len() as int) =~= "rpicam://"@);
    assert(p.skip("rpicam://"@.len() as int) =~= d);
}

/// The number of the camera that a device name names.
pub open spec fn device_number(device: Seq<char>) -> Option<int> {
    match behind_prefix(device, "rpicam://"@) {
        Some(number) => unsigned_of(number, u32::MAX as int),
        None => match behind_prefix(device, "/dev/video"@) {
            Some(number) => unsigned_of(number, u32::MAX as int),
            None => None,
        },
    }
}

/// Device names in the order in which the devices are listed: Video4Linux nodes in front of CSI
/// cameras, both by their numbers.
pub open spec fn in_list_order(a: Seq<char>, b: Seq<char>) -> bool {
    if source_type(a) == source_type(b) {
        device_number(a)->0 <= device_number(b)->0
    } else {
        source_type(a) == "V4L2"@ && source_type(b) == "CSI"@
    }
}

/// All devices are supported, of a known kind, and have a number.
pub open spec fn all_known(devices: Seq<CameraDeviceView>) -> bool {
    forall|i: int|
        0 <= i < devices.len() ==> (#[trigger] devices[i]).supported && source_type(devices[i].path)
            != "Unknown"@ && device_number(devices[i].path) is Some
}

/// No two devices have one path, and all stand in order.
pub open spec fn listed_in_order(devices: Seq<CameraDeviceView>) -> bool {
    forall|i: int, j: int|
        0 <= i < j < devices.len() ==> (#[trigger] devices[i]).path != (#[trigger] devices[j]).path
            && in_list_order(devices[i].path, devices[j].path)
}

/// The paths of candidates.
pub open spec fn candidate_paths(nodes: Seq<(Seq<char>, bool)>) -> Seq<Seq<char>> {
    nodes.map_values(|n: (Seq<char>, bool)| n.0)
}

/// Every item of `filter_map` comes of an item, in the same order.
proof fn lemma_filter_map_sources<A, B>(s: Seq<A>, f: spec_fn(A) -> Option<B>) -> (at: Seq<int>)
    ensures
        at.len() == s.filter_map(f).len(),
        forall|i: int|
            0 <= i < at.len() ==> 0 <= (#[trigger] at[i]) < s.len() && f(s[at[i]]) == Some(
                s.filter_map(f)[i],
            ),
        forall|i: int, j: int| 0 <= i < j < at.len() ==> (#[trigger] at[i]) < (#[trigger] at[j]),
    decreases s.len(),
{
    if s.len() == 0 {
        Seq::empty()
    } else {
        let front = s.drop_last();
        let at = lemma_filter_map_sources(front, f);
        assert forall|i: int| 0 <= i < at.len() implies s[#[trigger] at[i]] == front[at[i]] by {}
        match f(s.last()) {
            Some(b) => at.push(s.len() - 1),
            None => at,
        }
    }
}

/// The path of a node is known to name a Video4Linux node, and tells its number.
proof fn lemma_node_path(name: Seq<char>)
    requires
        video_node(name) is Some,
    ensures
        video_node(name) matches Some(node) && source_type(node.0) == "V4L2"@ && device_number(node.0)
            == Some(node.1 as int),
{
    reveal_strlit("rpicam://");
    reveal_strlit("/dev/");
    reveal_strlit("video");
    reveal_strlit("/dev/video");
    let path = "/dev/"@ + name;
    let suffix = name.skip(5);
    assert(behind_prefix(name, "video"@) == Some(suffix));
    assert forall|i: int| 0 <= i < 5 implies #[trigger] name[i] == "video"@[i] by {
        assert(name.take(5)[i] == name[i]);
    }
    assert(path[0] == '/');
    assert(path.take(9)[0] == '/');
    assert(!begins_with(path, "rpicam://"@));
    assert(path.take(10) =~= "/dev/video"@);
    assert(path.skip(10) =~= suffix);
    let n = unsigned_of(suffix, u32::MAX as int)->0;
    lemma_unsigned_in_range(suffix);
    assert(n as u32 == n);
}

/// A number that was read is a natural number within its limit.
proof fn lemma_unsigned_in_range(s: Seq<char>)
    requires
        unsigned_of(s, u32::MAX as int) is Some,
    ensures
        0 <= unsigned_of(s, u32::MAX as int)->0 <= u32::MAX,
{
    if s[0] == '+' {
        lemma_digits_value(s.skip(1));
    } else {
        lemma_digits_value(s);
    }
}

/// The device name of a CSI camera tells its number.
proof fn lemma_csi_path(index: int)
    requires
        0 <= index <= u32::MAX,
    ensures
        source_type(csi_path(index)) == "CSI"@,
        device_number(csi_path(index)) == Some(index),
{
    law_csi_device_names_its_camera(index as u32);
    law_decimal_read_back(index as nat);
    let p = csi_path(index);
    assert(p.take("rpicam://"@.len() as int) =~= "rpicam://"@);
    assert(p.skip("rpicam://"@.len() as int) =~= decimal(index as nat));
    assert(is_digit(decimal(index as nat)[0]));
}

/// The numbers of listed cameras fit into a `u32`.
proof fn lemma_listed_number(output: Seq<char>, k: int)
    requires
        0 <= k < listed_cameras(output).len(),
    ensures
        0 <= listed_cameras(output)[k].0 <= u32::MAX,
{
    let read = |line: Seq<char>| listed_camera(line);
    let at = lemma_filter_map_sources(lines_of(output), read);
    let line = lines_of(output)[at[k]];
    assert(listed_camera(line) == Some(listed_cameras(output)[k]));
    let (number, rest) = split_at_char(trimmed(line), ':')->0;
    lemma_unsigned_in_range(trimmed(number));
}

/// The paths of the nodes among different names differ, stand by their numbers and name nodes.
proof fn lemma_sorted_nodes(names: Seq<Seq<char>>, order: Seq<usize>)
    requires
        names.no_duplicates(),
        is_stable_order(node_numbers(video_nodes(names)), order),
    ensures
        ({
            let paths = rearranged(node_paths(video_nodes(names)), order);
            &&& forall|k: int|
                0 <= k < paths.len() ==> source_type(#[trigger] paths[k]) == "V4L2"@
                    && device_number(paths[k]) is Some
            &&& forall|k: int, l: int|
                0 <= k < l < paths.len() ==> (#[trigger] paths[k]) != (#[trigger] paths[l])
                    && device_number(paths[k])->0 <= device_number(paths[l])->0
        }),
{
    let found = video_nodes(names);
    let numbers = node_numbers(found);
    let paths = rearranged(node_paths(found), order);
    let at = lemma_filter_map_sources(names, |name: Seq<char>| video_node(name));
    assert forall|k: int| 0 <= k < paths.len() implies {
        let p = order[k] as int;
        &&& 0 <= p < found.len()
        &&& #[trigger] paths[k] == "/dev/"@ + names[at[p]]
        &&& source_type(paths[k]) == "V4L2"@
        &&& device_number(paths[k]) == Some(numbers[p] as int)
    } by {
        let p = order[k] as int;
        assert(order[k] < numbers.len());
        assert(video_node(names[at[p]]) == Some(found[p]));
        lemma_node_path(names[at[p]]);
    }
    assert forall|k: int, l: int| 0 <= k < l < paths.len() implies (#[trigger] paths[k]) != (
    #[trigger] paths[l]) && device_number(paths[k])->0 <= device_number(paths[l])->0 by {
        let p = order[k] as int;
        let q = order[l] as int;
        assert(comes_first(numbers, p, q));
        assert(p != q);
        assert(at[p] != at[q]) by {
            if p < q {
                assert(at[p] < at[q]);
            } else {
                assert(at[q] < at[p]);
            }
        }
        let a = names[at[p]];
        let b = names[at[q]];
        assert(a != b);
        if paths[k] == paths[l] {
            let n = "/dev/"@.len() as int;
            assert(a =~= ("/dev/"@ + a).skip(n));
            assert(b =~= ("/dev/"@ + b).skip(n));
        }
    }
}

/// Of the nodes that [`list_video_nodes`] finds among different names, and the cameras that
/// [`rpicam_camera_indices`] reads from a list, the devices that can be selected are all supported
/// and of a known kind, no two have one path, and they stand in order: the nodes by their numbers,
/// then the CSI cameras by theirs.
pub proof fn law_devices_are_listed_in_order(
    names: Seq<Seq<char>>,
    order: Seq<usize>,
    nodes: Seq<(Seq<char>, bool)>,
    commands: bool,
    output: Seq<char>,
    cameras: Seq<(int, Seq<char>)>,
)
    requires
        names.no_duplicates(),
        is_stable_order(node_numbers(video_nodes(names)), order),
        candidate_paths(nodes) == rearranged(node_paths(video_nodes(names)), order),
        is_camera_list(listed_cameras(output), cameras),
    ensures
        all_known(devices_of(nodes, commands, cameras)),
        listed_in_order(devices_of(nodes, commands, cameras)),
{
    reveal_strlit("CSI");
    reveal_strlit("V4L2");
    reveal_strlit("Unknown");
    lemma_sorted_nodes(names, order);
    let paths = rearranged(node_paths(video_nodes(names)), order);
    let usable = |n: (Seq<char>, bool)| usable_node(n);
    let at = lemma_filter_map_sources(nodes, usable);
    let found = nodes.filter_map(usable);
    let devices = devices_of(nodes, commands, cameras);
    assert forall|i: int| 0 <= i < found.len() implies {
        &&& #[trigger] devices[i] == node_device(paths[at[i]])
        &&& 0 <= at[i] < paths.len()
    } by {
        assert(usable(nodes[at[i]]) == Some(found[i]));
        assert(candidate_paths(nodes)[at[i]] == nodes[at[i]].0);
    }
    assert forall|i: int| found.len() <= i < devices.len() implies {
        let number = cameras[i - found.len()].0;
        &&& (#[trigger] devices[i]).supported
        &&& devices[i].path == csi_path(number)
        &&& source_type(devices[i].path) == "CSI"@
        &&& device_number(devices[i].path) == Some(number)
    } by {
        let c = i - found.len();
        assert(devices[i] == csi_camera_device(cameras[c]));
        assert(is_first_of_number(listed_cameras(output), cameras[c]));
        let k = choose|k: int| #[trigger]
            first_with_number(listed_cameras(output), k) && listed_cameras(output)[k]
                == cameras[c];
        lemma_listed_number(output, k);
        lemma_csi_path(cameras[c].0);
    }
    assert forall|i: int| 0 <= i < devices.len() implies (#[trigger] devices[i]).supported
        && source_type(devices[i].path) != "Unknown"@ && device_number(devices[i].path) is Some by {
        if i < found.len() {
            assert(source_type(paths[at[i]]) == "V4L2"@);
        }
        assert("V4L2"@.len() != "Unknown"@.len() && "CSI"@.len() != "Unknown"@.len());
    }
    assert forall|i: int, j: int| 0 <= i < j < devices.len() implies (#[trigger] devices[i]).path
        != (#[trigger] devices[j]).path && in_list_order(devices[i].path, devices[j].path) by {
        if j < found.len() {
            assert(at[i] < at[j]);
            assert(paths[at[i]] != paths[at[j]]);
        } else if i >= found.len() {
            assert(cameras[i - found.len()].0 < cameras[j - found.len()].0);
        } else {
            assert(source_type(paths[at[i]]) == "V4L2"@);
        }
    }
}

/// A device name names a CSI camera exactly where it is, but for white space around it, `rpicam://` and
/// one or more digits; these are the number.
pub proof fn law_names_of_csi_cameras(device: Seq<char>, number: Seq<char>)
    ensures
        csi_number(device) == Some(number) <==> trimmed(device) == "rpicam://"@ + number && number.len()
            > 0 && forall|i: int| 0 <= i < number.len() ==> '0' <= #[trigger] number[i] <= '9',
        (forall|n: Seq<char>| trimmed(device) != #[trigger] ("rpicam://"@ + n)) ==> csi_number(device)
            is None,
{
    let t = trimmed(device);
    let p = "rpicam://"@;
    if t == p + number {
        assert(t.take(p.len() as int) =~= p);
        assert(t.skip(p.len() as int) =~= number);
        if all_digits(number) {
            assert forall|i: int| 0 <= i < number.len() implies '0' <= #[trigger] number[i] <= '9' by {
                assert(is_digit(number[i]));
            }
        }
        if forall|i: int| 0 <= i < number.len() ==> '0' <= #[trigger] number[i] <= '9' {
            assert forall|i: int| 0 <= i < number.len() implies is_digit(#[trigger] number[i]) by {}
        }
    }
    if begins_with(t, p) {
        assert(t =~= p + t.skip(p.len() as int));
        let n = t.skip(p.len() as int);
        if all_digits(n) {
            assert forall|i: int| 0 <= i < n.len() implies '0' <= #[trigger] n[i] <= '9' by {
                assert(is_digit(n[i]));
            }
        }
    }
}

/// A name that begins with `rpicam://` is that of a CSI camera, one that begins with `/dev/video` that
/// of a Video4Linux node; any other one is unknown.
pub proof fn law_kinds_of_cameras(device: Seq<char>, rest: Seq<char>)
    ensures
        source_type("rpicam://"@ + rest) == "CSI"@,
        source_type("/dev/video"@ + rest) == "V4L2"@,
        (forall|r: Seq<char>| device != #[trigger] ("rpicam://"@ + r)) && (forall|r: Seq<char>|
            device != #[trigger] ("/dev/video"@ + r)) ==> source_type(device) == "Unknown"@,
{
    reveal_strlit("rpicam://");
    reveal_strlit("/dev/video");
    law_texts_hold_their_parts(Seq::empty(), "rpicam://"@, rest);
    law_texts_hold_their_parts(Seq::empty(), "/dev/video"@, rest);
    let v = "/dev/video"@ + rest;
    assert(v.take(9)[0] == '/');
    law_only_parts_are_held(device, "rpicam://"@);
    law_only_parts_are_held(device, "/dev/video"@);
}

/// A line of the list shows a camera exactly where, but for white space around them, a number stands in
/// front of its first colon and a name behind that; the name ends in front of the first bracket.
pub proof fn law_lines_of_the_camera_list(
    line: Seq<char>,
    number: Seq<char>,
    rest: Seq<char>,
    name: Seq<char>,
    more: Seq<char>,
)
    requires
        trimmed(line) == number + seq![':'] + rest,
        !number.contains(':'),
        trimmed(rest) == name + more,
        !name.contains('['),
        more.len() == 0 || more[0] == '[',
    ensures
        trimmed(name).len() > 0 ==> (unsigned_of(trimmed(number), 0xFFFF_FFFF) matches Some(index)
            ==> listed_camera(line) == Some((index, trimmed(name)))),
        unsigned_of(trimmed(number), 0xFFFF_FFFF) is None || trimmed(name).len() == 0
            ==> listed_camera(line) is None,
{
    law_split_at_the_first(number, ':', rest);
    if more.len() > 0 {
        let behind = more.drop_first();
        law_split_at_the_first(name, '[', behind);
        assert(name + seq!['['] + behind =~= name + more);
    } else {
        law_split_at_the_first(name, '[', more);
        assert(name + more =~= name);
    }
}

/// A line without a colon shows no camera.
pub proof fn law_other_lines_show_no_camera(line: Seq<char>)
    requires
        !trimmed(line).contains(':'),
    ensures
        listed_camera(line) is None,
{
}

/// Of the cameras that the lines show, the list has for each number the one that was shown first, in
/// the order of the numbers; every number that was shown is there.
pub proof fn law_first_camera_of_each_number(
    found: Seq<(int, Seq<char>)>,
    list: Seq<(int, Seq<char>)>,
    k: int,
)
    requires
        is_camera_list(found, list),
        0 <= k < found.len(),
        forall|j: int| 0 <= j < k ==> (#[trigger] found[j]).0 != found[k].0,
    ensures
        list.contains(found[k]),
        forall|i: int| 0 <= i < list.len() && (#[trigger] list[i]).0 == found[k].0 ==> list[i] == found[k],
        forall|i: int, j: int| 0 <= i < j < list.len() ==> (#[trigger] list[i]).0 < (#[trigger] list[j]).0,
        forall|i: int| 0 <= i < list.len() ==> found.contains(#[trigger] list[i]),
{
    assert(has_number(list, found[k].0));
    let i = choose|i: int| 0 <= i < list.len() && (#[trigger] list[i]).0 == found[k].0;
    assert forall|i: int| 0 <= i < list.len() && (#[trigger] list[i]).0 == found[k].0 implies list[i]
        == found[k] by {
        assert(is_first_of_number(found, list[i]));
        let m = choose|m: int| #[trigger] first_with_number(found, m) && found[m] == list[i];
        if m < k {
            assert(found[m].0 != found[k].0);
        }
        if k < m {
            assert(found[k].0 != found[m].0);
        }
    }
    assert(list[i] == found[k]);
    assert forall|i: int| 0 <= i < list.len() implies found.contains(#[trigger] list[i]) by {
        assert(is_first_of_number(found, list[i]));
        let m = choose|m: int| #[trigger] first_with_number(found, m) && found[m] == list[i];
        assert(found[m] == list[i]);
    }
}

/// The cameras are those that the lines show, line by line: nothing for a line that shows none.
pub proof fn law_cameras_of_the_lines(line: Seq<char>, rest: Seq<char>)
    requires
        !line.contains('\n'),
        line.len() == 0 || line.last() != '\r',
    ensures
        listed_camera(line) matches Some(c) ==> listed_cameras(line + seq!['\n'] + rest) == seq![c]
            + listed_cameras(rest),
        listed_camera(line) is None ==> listed_cameras(line + seq!['\n'] + rest) == listed_cameras(
            rest,
        ),
        listed_cameras(Seq::empty()) == Seq::<(int, Seq<char>)>::empty(),
{
    law_lines_are_cut_at_line_feeds(line, rest);
    let all = lines_of(line + seq!['\n'] + rest);
    let read = |line: Seq<char>| listed_camera(line);
    assert(all[0] == line);
    assert(all.drop_first() =~= lines_of(rest));
    lemma_filter_map_front(all, read);
    assert(Seq::<(int, Seq<char>)>::empty() + listed_cameras(rest) =~= listed_cameras(rest));
}

/// A name is that of a node exactly where it is `video` and a number; the node is then below `/dev`.
pub proof fn law_names_of_nodes(name: Seq<char>, suffix: Seq<char>)
    ensures
        unsigned_of(suffix, 0xFFFF_FFFF) matches Some(n) ==> video_node("video"@ + suffix) == Some(
            ("/dev/"@ + ("video"@ + suffix), n as u32),
        ) && 0 <= n <= u32::MAX,
        unsigned_of(suffix, 0xFFFF_FFFF) is None ==> video_node("video"@ + suffix) is None,
        (forall|s: Seq<char>| name != #[trigger] ("video"@ + s)) ==> video_node(name) is None,
{
    law_texts_hold_their_parts(Seq::empty(), "video"@, suffix);
    law_only_parts_are_held(name, "video"@);
    if unsigned_of(suffix, 0xFFFF_FFFF) is Some {
        lemma_unsigned_in_range(suffix);
    }
}

/// The nodes among the names of a directory are those of all names that are names of nodes, in their
/// order, each with its path and its number.
pub proof fn law_nodes_of_a_directory(names: Seq<Seq<char>>) -> (at: Seq<int>)
    ensures
        is_made_of(names, video_nodes(names), at, |name: Seq<char>| video_node(name)),
        forall|i: int|
            0 <= i < video_nodes(names).len() ==> #[trigger] node_paths(video_nodes(names))[i]
                == video_nodes(names)[i].0,
        forall|i: int|
            0 <= i < video_nodes(names).len() ==> #[trigger] node_numbers(video_nodes(names))[i]
                == video_nodes(names)[i].1,
{
    lemma_filter_map_makes(names, |name: Seq<char>| video_node(name))
}

/// A node can be used exactly where it is there and either its capabilities cannot be asked for, or they
/// tell that it captures video and its formats tell of Motion JPEG; capabilities that could not be read
/// rule it out.
pub proof fn law_nodes_that_can_be_used(there: bool, capabilities: Probe, formats: Probe)
    ensures
        supported_camera(there, capabilities, formats) <==> there && (capabilities is Unavailable || (
        capabilities matches Probe::Output(c) && holds(lowercased(c@), "video capture"@) && (
        formats matches Probe::Output(f) && (holds(lowercased(f@), "mjpg"@) || holds(
            lowercased(f@),
            "motion-jpeg"@,
        ))))),
        capability_check(there, capabilities) is Supported <==> there && capabilities is Unavailable,
        capability_check(there, capabilities) is AskFormats <==> there && (
        capabilities matches Probe::Output(c) && holds(lowercased(c@), "video capture"@)),
        printed(capabilities) == (match capabilities {
            Probe::Output(c) => c@,
            _ => Seq::empty(),
        }),
{
}

/// The devices come from the nodes at the places `at`, exactly those that can be used, in their order,
/// and behind them from all the CSI cameras, in their order, where these can be used. Each tells its
/// path, its name and how it is read, and offers the four resolutions.
pub open spec fn are_devices_at(
    nodes: Seq<(Seq<char>, bool)>,
    cameras: Seq<(int, Seq<char>)>,
    devices: Seq<CameraDeviceView>,
    at: Seq<int>,
) -> bool {
    &&& devices.len() == at.len() + cameras.len()
    &&& forall|i: int|
        0 <= i < at.len() ==> 0 <= (#[trigger] at[i]) < nodes.len() && nodes[at[i]].1
            && devices[i].path == nodes[at[i]].0 && devices[i].name == nodes[at[i]].0
            && devices[i].reason == "v4l2"@
    &&& forall|i: int, j: int| 0 <= i < j < at.len() ==> (#[trigger] at[i]) < (#[trigger] at[j])
    &&& forall|k: int| 0 <= k < nodes.len() && (#[trigger] nodes[k]).1 ==> at.contains(k)
    &&& forall|j: int|
        0 <= j < cameras.len() ==> {
            let d = devices[at.len() + j];
            let c = #[trigger] cameras[j];
            &&& d.path == "rpicam://"@ + decimal(c.0 as nat)
            &&& d.name == "CSI Camera "@ + decimal(c.0 as nat) + ": "@ + c.1
            &&& d.reason == "CSI camera via rpicam-vid mjpeg stream"@
        }
    &&& forall|i: int|
        0 <= i < devices.len() ==> (#[trigger] devices[i]).supported
            && devices[i].supported_resolutions == seq![
            (640i32, 480i32),
            (1280i32, 720i32),
            (1920i32, 1080i32),
            (2560i32, 1440i32),
        ]
}

/// All devices that can be used are listed, and no other.
pub proof fn law_all_devices_are_listed(
    nodes: Seq<(Seq<char>, bool)>,
    cameras: Seq<(int, Seq<char>)>,
)
    ensures
        exists|at: Seq<int>| are_devices_at(nodes, cameras, devices_of(nodes, true, cameras), at),
        exists|at: Seq<int>|
            are_devices_at(nodes, Seq::empty(), devices_of(nodes, false, cameras), at),
{
    let usable = |n: (Seq<char>, bool)| usable_node(n);
    let at = lemma_filter_map_makes(nodes, usable);
    let found = nodes.filter_map(usable);
    assert(is_made_of(nodes, found, at, usable));
    assert forall|i: int| 0 <= i < at.len() implies 0 <= (#[trigger] at[i]) < nodes.len()
        && nodes[at[i]].1 && found[i] == node_device(nodes[at[i]].0) by {
        assert(usable(nodes[at[i]]) == Some(found[i]));
    }
    assert forall|k: int| 0 <= k < nodes.len() && (#[trigger] nodes[k]).1 implies at.contains(k) by {
        assert(usable(nodes[k]) is Some);
    }
    let with = devices_of(nodes, true, cameras);
    let without = devices_of(nodes, false, cameras);
    assert(without =~= found);
    assert forall|j: int| 0 <= j < cameras.len() implies with[at.len() + j] == csi_camera_device(
        #[trigger] cameras[j],
    ) by {}
    assert forall|i: int| 0 <= i < with.len() implies (#[trigger] with[i]).supported
        && with[i].supported_resolutions == resolutions() by {
        if i >= at.len() {
            assert(with[i] == csi_camera_device(cameras[i - at.len()]));
        } else {
            assert(with[i] == found[i]);
            assert(0 <= at[i] < nodes.len());
        }
    }
    assert forall|i: int| 0 <= i < without.len() implies (#[trigger] without[i]).supported
        && without[i].supported_resolutions == resolutions() by {
        assert(0 <= at[i] < nodes.len());
    }
    assert(are_devices_at(nodes, cameras, with, at));
    assert(are_devices_at(nodes, Seq::empty(), without, at));
}

/// CSI cameras can be used exactly where both commands are there and there is a camera; the name of a
/// CSI camera tells its number.
pub proof fn law_when_csi_cameras_can_be_used(hello: bool, vid: bool, cameras: nat, index: nat)
    ensures
        csi_available(hello, vid, cameras as int) <==> hello && vid && cameras >= 1,
        csi_path(index as int) == "rpicam://"@ + decimal(index),
{
}

/// What is said of devices, cameras and nodes is what they hold, one by one.
pub proof fn law_views_of_devices(
    d: CameraDevice,
    cameras: Seq<(u32, String)>,
    nodes: Seq<(String, bool)>,
    i: int,
)
    ensures
        d@.path == d.path@,
        d@.name == d.name@,
        d@.supported == d.supported,
        d@.reason == d.reason@,
        d@.supported_resolutions == d.supported_resolutions@,
        camera_views(cameras).len() == cameras.len(),
        0 <= i < cameras.len() ==> camera_views(cameras)[i] == (cameras[i].0 as int, cameras[i].1@),
        candidate_nodes(nodes).len() == nodes.len(),
        0 <= i < nodes.len() ==> candidate_nodes(nodes)[i] == (nodes[i].0@, nodes[i].1),
{
}

} // verus!
