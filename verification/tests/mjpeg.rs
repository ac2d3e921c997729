use surveillance::mjpeg::{extract_jpeg_frames, MjpegStream, MAX_PENDING};

const FRAME: [u8; 6] = [0xFF, 0xD8, 1, 2, 0xFF, 0xD9];

#[test]
fn frames_are_cut_out_of_a_buffer() {
    let mut buf = vec![9, 9];
    buf.extend_from_slice(&FRAME);
    buf.push(7);
    buf.extend_from_slice(&FRAME);
    buf.extend_from_slice(&[0xFF, 0xD8, 5]);
    let (frames, rest) = extract_jpeg_frames(&buf);
    assert_eq!(frames, vec![FRAME.to_vec(), FRAME.to_vec()]);
    assert_eq!(rest, vec![0xFF, 0xD8, 5]);
}

#[test]
fn a_buffer_without_a_start_is_kept() {
    assert_eq!(extract_jpeg_frames(&[1, 2, 3]), (vec![], vec![1, 2, 3]));
    assert_eq!(extract_jpeg_frames(&[]), (vec![], vec![]));
    assert_eq!(extract_jpeg_frames(&[1, 0xFF]), (vec![], vec![1, 0xFF]));
    assert_eq!(extract_jpeg_frames(&[1, 0xFF, 0xD8]), (vec![], vec![0xFF, 0xD8]));
}

#[test]
fn markers_may_share_no_byte() {
    let (frames, rest) = extract_jpeg_frames(&[0xFF, 0xD8, 0xD9, 0xFF, 0xD9]);
    assert_eq!(frames, vec![vec![0xFF, 0xD8, 0xD9, 0xFF, 0xD9]]);
    assert!(rest.is_empty());
}

#[test]
fn chunks_do_not_matter() {
    let mut data = Vec::new();
    for n in 0..5u8 {
        data.extend_from_slice(&[0xFF, 0xD8, n, n, 0xFF, 0xD9, 0]);
    }
    for size in 1..data.len() {
        let mut stream = MjpegStream::new();
        let mut frames = Vec::new();
        for chunk in data.chunks(size) {
            frames.extend(stream.feed(chunk));
        }
        assert_eq!(frames.len(), 5);
        for (i, (frame, seq)) in frames.iter().enumerate() {
            assert_eq!(frame, &vec![0xFF, 0xD8, i as u8, i as u8, 0xFF, 0xD9]);
            assert_eq!(*seq, i as u64 + 1);
        }
    }
}

#[test]
fn an_endless_frame_is_dropped() {
    let mut stream = MjpegStream::new();
    let mut chunk = vec![0xFF, 0xD8];
    chunk.resize(MAX_PENDING, 0);
    assert!(stream.feed(&chunk).is_empty());
    assert_eq!(stream.pending.len(), MAX_PENDING);
    assert!(stream.feed(&[0]).is_empty());
    assert!(stream.pending.is_empty());
    assert_eq!(stream.feed(&FRAME), vec![(FRAME.to_vec(), 1)]);
}

#[test]
fn frames_end_with_the_chunk_that_completes_them() {
    let mut stream = MjpegStream::new();
    let mut chunk = vec![0xFF, 0xD8];
    chunk.resize(MAX_PENDING, 0);
    assert!(stream.feed(&chunk).is_empty());
    let mut last = vec![0u8; 65534];
    last.extend_from_slice(&[0xFF, 0xD9]);
    let frames = stream.feed(&last);
    assert_eq!(frames.len(), 1);
    assert_eq!(frames[0].0.len(), MAX_PENDING + 65536);
    assert!(stream.pending.is_empty());
}

#[test]
fn frames_in_front_of_a_rest_that_is_given_up_are_handed_out() {
    let mut stream = MjpegStream::new();
    let mut chunk = FRAME.to_vec();
    chunk.extend_from_slice(&[0xFF, 0xD8]);
    chunk.resize(FRAME.len() + MAX_PENDING + 1, 0);
    assert_eq!(stream.feed(&chunk), vec![(FRAME.to_vec(), 1)]);
    assert!(stream.pending.is_empty());
    chunk.pop();
    assert_eq!(stream.feed(&chunk), vec![(FRAME.to_vec(), 2)]);
    assert_eq!(stream.pending.len(), MAX_PENDING);
}
