//! RTP packets as they come from the encoders, and the message that goes with each video frame.

use vstd::prelude::*;
use webrtc::rtp::packet::Packet;
use webrtc_util::Unmarshal;

use crate::decimal::{decimal, decimal_text, law_decimal_read_back};
use crate::geometry::max_of;
use crate::text::joined;

verus! {

/// An RTP packet of the crate webrtc.
#[verifier::external_type_specification]
#[verifier::external_body]
pub struct ExPacket(Packet);

/// An error of the crate webrtc-util.
#[verifier::external_type_specification]
#[verifier::external_body]
pub struct ExUtilError(webrtc_util::Error);

/// The packet that `Packet::unmarshal` of the crate webrtc reads in bytes; none where it refuses them.
pub uninterp spec fn rtp_packet(data: Seq<u8>) -> Option<Packet>;

/// The length of the fixed part of the header: twelve bytes, and four for each contributing source.
pub open spec fn fixed_header(data: Seq<u8>) -> int {
    12 + 4 * (data[0] as int % 16)
}

/// The header says that an extension follows the fixed part.
pub open spec fn has_extension(data: Seq<u8>) -> bool {
    (data[0] as int / 16) % 2 == 1
}

/// The header says that the packet ends with padding.
pub open spec fn has_padding(data: Seq<u8>) -> bool {
    (data[0] as int / 32) % 2 == 1
}

/// The number that two bytes write.
pub open spec fn two_bytes(data: Seq<u8>, at: int) -> int {
    256 * data[at] + data[at + 1]
}

/// The items of an extension with headers of one byte stay inside of the packet: from `at` to `end`,
/// each a header with an identifier and a length, and the data. A zero byte is padding; the
/// identifier fifteen ends the list.
pub open spec fn short_items_fit(data: Seq<u8>, at: int, end: int) -> bool
    decreases max_of(end, data.len() as int) - at,
{
    if at >= end {
        true
    } else if data[at] == 0 {
        short_items_fit(data, at + 1, end)
    } else if data[at] / 16 == 15 {
        true
    } else {
        let next = at + 2 + data[at] as int % 16;
        next <= data.len() && short_items_fit(data, next, end)
    }
}

/// The items of an extension with headers of two bytes stay inside of the packet: from `at` to `end`,
/// each a header with an identifier and a length, and the data. A zero byte is padding.
pub open spec fn long_items_fit(data: Seq<u8>, at: int, end: int) -> bool
    decreases max_of(end, data.len() as int) - at,
{
    if at >= end {
        true
    } else if data[at] == 0 {
        long_items_fit(data, at + 1, end)
    } else if at + 1 >= data.len() {
        false
    } else {
        let next = at + 2 + data[at + 1];
        next <= data.len() && long_items_fit(data, next, end)
    }
}

/// Where the packet has an extension with items, these stay inside of the packet.
pub open spec fn items_fit(data: Seq<u8>) -> bool {
    if data.len() < 12 || data.len() < fixed_header(data) + 4 || !has_extension(data) {
        true
    } else {
        let start = fixed_header(data) + 4;
        let end = start + 4 * two_bytes(data, fixed_header(data) + 2);
        let profile = two_bytes(data, fixed_header(data));
        if data.len() < end {
            true
        } else if profile == 0xBEDE {
            short_items_fit(data, start, end)
        } else if profile == 0x1000 {
            long_items_fit(data, start, end)
        } else {
            true
        }
    }
}

/// Bytes without an extension are a packet: the fixed part of the header is there, and where the
/// packet ends with padding, what follows the header is at least as long as its last byte says, and
/// not empty.
pub open spec fn whole_packet(data: Seq<u8>) -> bool {
    &&& data.len() >= 12
    &&& data.len() >= fixed_header(data)
    &&& has_padding(data) ==> data.len() > fixed_header(data) && data.last() <= data.len()
        - fixed_header(data)
}

/// The bytes have no header, or one that says that no extension follows.
pub open spec fn without_extension(data: Seq<u8>) -> bool {
    data.len() < 12 || !has_extension(data)
}

/// The packet is the last one of a frame: the topmost bit of its second byte.
pub open spec fn marked(data: Seq<u8>) -> bool {
    data[1] >= 128
}

/// `Packet::unmarshal` of the crate webrtc, with the marker bit of the packet's header. Whether it
/// takes the bytes for a packet, and which packet it reads, is a function of the bytes. It takes
/// nothing shorter than twelve bytes; of bytes without an extension it takes exactly the whole
/// packets. It panics where an item of an extension leaves the packet.
#[verifier::external_body]
fn unmarshal_packet(data: &[u8]) -> (res: Result<(Packet, bool), webrtc_util::Error>)
    requires
        items_fit(data@),
    ensures
        match res {
            Ok(read) => rtp_packet(data@) == Some(read.0) && data@.len() >= 12 && read.1 == marked(
                data@,
            ),
            Err(_) => rtp_packet(data@) is None,
        },
        without_extension(data@) ==> (res is Ok <==> whole_packet(data@)),
{
    let mut rest = data;
    let packet = Packet::unmarshal(&mut rest)?;
    let marker = packet.header.marker;
    Ok((packet, marker))
}

fn short_items(data: &[u8], from: usize, end: usize) -> (res: bool)
    requires
        end <= data@.len(),
    ensures
        res == short_items_fit(data@, from as int, end as int),
{
    let mut at: usize = from;
    while at < end
        invariant
            end <= data.len(),
            from <= at <= data.len() || at == from,
            short_items_fit(data@, from as int, end as int) == short_items_fit(
                data@,
                at as int,
                end as int,
            ),
        decreases data.len() - at,
    {
        let b: u8 = data[at];
        if b == 0 {
            at = at + 1;
        } else if b / 16 == 15 {
            return true;
        } else {
            let size: usize = 2 + (b % 16) as usize;
            if size > data.len() - at {
                return false;
            }
            at = at + size;
        }
    }
    true
}

fn long_items(data: &[u8], from: usize, end: usize) -> (res: bool)
    requires
        end <= data@.len(),
    ensures
        res == long_items_fit(data@, from as int, end as int),
{
    let mut at: usize = from;
    while at < end
        invariant
            end <= data.len(),
            from <= at <= data.len() || at == from,
            long_items_fit(data@, from as int, end as int) == long_items_fit(
                data@,
                at as int,
                end as int,
            ),
        decreases data.len() - at,
    {
        if data[at] == 0 {
            at = at + 1;
        } else {
            if data.len() - at < 2 {
                return false;
            }
            let size: usize = 2 + data[at + 1] as usize;
            if size > data.len() - at {
                return false;
            }
            at = at + size;
        }
    }
    true
}

/// Whether the items of an extension stay inside of the packet.
pub fn extension_fits(data: &[u8]) -> (res: bool)
    ensures
        res == items_fit(data@),
{
    if data.len() < 12 {
        return true;
    }
    let fixed: usize = 12 + 4 * (data[0] % 16) as usize;
    if data.len() < fixed + 4 || (data[0] / 16) % 2 != 1 {
        return true;
    }
    let profile: usize = 256 * (data[fixed] as usize) + data[fixed + 1] as usize;
    let words: usize = 256 * (data[fixed + 2] as usize) + data[fixed + 3] as usize;
    let start: usize = fixed + 4;
    if data.len() - start < 4 * words {
        return true;
    }
    let end: usize = start + 4 * words;
    if profile == 0xBEDE {
        short_items(data, start, end)
    } else if profile == 0x1000 {
        long_items(data, start, end)
    } else {
        true
    }
}

/// Reads an RTP packet; tells whether it is the last one of a frame.
pub fn read_rtp(data: &[u8]) -> (res: Option<(Packet, bool)>)
    requires
        items_fit(data@),
    ensures
        match res {
            Some(read) => rtp_packet(data@) == Some(read.0) && data@.len() >= 12 && read.1
                == marked(data@),
            None => rtp_packet(data@) is None,
        },
        without_extension(data@) ==> (res is Some <==> whole_packet(data@)),
{
    match unmarshal_packet(data) {
        Ok(read) => Some(read),
        Err(_) => None,
    }
}

/// The message that goes with a video frame.
pub open spec fn frame_message(seq: int) -> Seq<char> {
    "{\"type\":\"frame_meta\",\"broadcast_frame_seq\":"@ + decimal(seq as nat) + "}"@
}

/// The message that goes with a video frame.
pub fn frame_meta(seq: u64) -> (res: String)
    ensures
        res@ == frame_message(seq as int),
{
    joined(
        joined(
            "{\"type\":\"frame_meta\",\"broadcast_frame_seq\":",
            decimal_text(seq).as_str(),
        ).as_str(),
        "}",
    )
}

/// The message of a frame is a JSON object that tells its kind and the number of the frame; two frames
/// have different messages.
pub proof fn law_messages_of_frames(a: nat, b: nat)
    ensures
        frame_message(a as int) == "{\"type\":\"frame_meta\",\"broadcast_frame_seq\":"@ + decimal(a)
            + "}"@,
        frame_message(a as int) == frame_message(b as int) ==> a == b,
{
    let start = "{\"type\":\"frame_meta\",\"broadcast_frame_seq\":"@;
    let s = frame_message(a as int);
    let t = frame_message(b as int);
    if s == t {
        assert(decimal(a) =~= s.subrange(start.len() as int, s.len() - "}"@.len()));
        assert(decimal(b) =~= t.subrange(start.len() as int, t.len() - "}"@.len()));
        law_decimal_read_back(a);
        law_decimal_read_back(b);
    }
}

/// What the first two bytes of a packet say: whether it ends a frame is the topmost bit of the second
/// one; of the first one, the lowest four bits count the contributing sources, and the bits above them
/// tell of an extension and of padding. Without an extension nothing can leave the packet.
pub proof fn law_what_the_first_bytes_say(data: Seq<u8>)
    requires
        data.len() >= 2,
    ensures
        marked(data) <==> data[1] & 0x80 != 0,
        has_extension(data) <==> data[0] & 0x10 != 0,
        has_padding(data) <==> data[0] & 0x20 != 0,
        fixed_header(data) == 12 + 4 * (data[0] & 0x0F),
        !has_extension(data) ==> items_fit(data),
{
    let a = data[0];
    let b = data[1];
    assert(b >= 128 <==> b & 0x80 != 0) by (bit_vector);
    assert((a / 16) % 2 == 1 <==> a & 0x10 != 0) by (bit_vector);
    assert((a / 32) % 2 == 1 <==> a & 0x20 != 0) by (bit_vector);
    assert(a % 16 == a & 0x0F) by (bit_vector);
}

} // verus!
