use surveillance::rtp::{extension_fits, frame_meta, read_rtp};

fn header(b0: u8, b1: u8) -> Vec<u8> {
    vec![b0, b1, 0, 1, 0, 0, 0, 2, 0, 0, 0, 3]
}

#[test]
fn plain_packets_are_read() {
    let mut data = header(0x80, 0x60);
    data.extend_from_slice(&[9, 8, 7]);
    let (packet, marker) = read_rtp(&data).unwrap();
    assert!(!marker);
    assert_eq!(packet.header.sequence_number, 1);
    assert_eq!(packet.header.ssrc, 3);
    assert_eq!(&packet.payload[..], &[9, 8, 7]);
    let (packet, marker) = read_rtp(&header(0x80, 0xE0)).unwrap();
    assert!(marker && packet.header.marker);
    assert!(packet.payload.is_empty());
}

#[test]
fn what_is_no_packet_is_refused() {
    assert!(read_rtp(&[]).is_none());
    assert!(read_rtp(&header(0x80, 0x60)[..11]).is_none());
    assert!(read_rtp(&header(0x81, 0x60)).is_none());
    assert!(read_rtp(&header(0xA0, 0x60)).is_none());
    let mut padded = header(0xA0, 0x60);
    padded.extend_from_slice(&[5, 1]);
    let (packet, _) = read_rtp(&padded).unwrap();
    assert_eq!(&packet.payload[..], &[5]);
    *padded.last_mut().unwrap() = 3;
    assert!(read_rtp(&padded).is_none());
}

#[test]
fn packets_without_an_extension_are_read_where_they_are_whole() {
    let mut sources = header(0x82, 0x60);
    sources.extend_from_slice(&[0, 0, 0, 4, 0, 0, 0, 5, 42]);
    let (packet, _) = read_rtp(&sources).unwrap();
    assert_eq!(packet.header.csrc, [4, 5]);
    assert_eq!(&packet.payload[..], &[42]);
    assert!(read_rtp(&sources[..20]).is_some());
    assert!(read_rtp(&sources[..19]).is_none());
    for (padding, payload) in [(0u8, Some(3usize)), (1, Some(2)), (3, Some(0)), (4, None)] {
        let mut padded = header(0xA0, 0x60);
        padded.extend_from_slice(&[6, 6, padding]);
        assert_eq!(read_rtp(&padded).map(|r| r.0.payload.len()), payload);
    }
}

#[test]
fn extensions_that_fit_are_read() {
    let mut data = header(0x90, 0x60);
    data.extend_from_slice(&[0xBE, 0xDE, 0, 1, 0x10, 0xAA, 0, 0, 42]);
    assert!(extension_fits(&data));
    let (packet, _) = read_rtp(&data).unwrap();
    assert_eq!(packet.header.extensions.len(), 1);
    assert_eq!(&packet.payload[..], &[42]);
    let mut data = header(0x90, 0x60);
    data.extend_from_slice(&[0x10, 0x00, 0, 1, 1, 2, 7, 7]);
    assert!(extension_fits(&data));
    assert_eq!(read_rtp(&data).unwrap().0.header.extensions.len(), 1);
    let mut data = header(0x90, 0x60);
    data.extend_from_slice(&[1, 2, 0, 1, 0xFF, 0xFF, 0xFF, 0xFF]);
    assert!(extension_fits(&data));
    assert!(read_rtp(&data).is_some());
    let mut short = header(0x90, 0x60);
    short.extend_from_slice(&[0xBE, 0xDE, 0, 2, 0x10, 0xAA, 0, 0]);
    assert!(extension_fits(&short));
    assert!(read_rtp(&short).is_none());
    let mut ended = header(0x90, 0x60);
    ended.extend_from_slice(&[0xBE, 0xDE, 0, 1, 0xFF, 1, 2, 3]);
    assert!(extension_fits(&ended));
    assert!(read_rtp(&ended).is_some());
}

#[test]
fn extensions_that_leave_the_packet_are_told() {
    let mut data = header(0x90, 0x60);
    data.extend_from_slice(&[0xBE, 0xDE, 0, 1, 0x1F, 0, 0, 0]);
    assert!(!extension_fits(&data));
    let mut data = header(0x90, 0x60);
    data.extend_from_slice(&[0x10, 0x00, 0, 1, 0, 0, 0, 5]);
    assert!(!extension_fits(&data));
    let mut data = header(0x90, 0x60);
    data.extend_from_slice(&[0x10, 0x00, 0, 1, 5, 9, 0, 0]);
    assert!(!extension_fits(&data));
}

#[test]
fn frames_have_a_message() {
    assert_eq!(frame_meta(7), "{\"type\":\"frame_meta\",\"broadcast_frame_seq\":7}");
}
