use bytes::{Bytes, BytesMut};
use wslpty::bridge::{data_frame, pty_action, Poller, PtyAction, Watch};
use wslpty::frame::{encode, Frame, FrameDecoder, FrameError};

fn encoded(frame: Frame) -> Vec<u8> {
    let mut buf = BytesMut::new();
    encode(frame, &mut buf).unwrap();
    buf.to_vec()
}

fn describe(frame: &Frame) -> (u8, Vec<u8>) {
    match frame {
        Frame::Data(b) => (0, b.to_vec()),
        Frame::Size(c, r) => (1, vec![(c >> 8) as u8, *c as u8, (r >> 8) as u8, *r as u8]),
        Frame::Name(b) => (2, b.to_vec()),
        Frame::Cwd(b) => (3, b.to_vec()),
    }
}

fn sample_frames() -> Vec<Frame> {
    vec![
        Frame::Data(Bytes::from_static(b"hello")),
        Frame::Size(123, 45),
        Frame::Name(Bytes::from_static(b"bash")),
        Frame::Cwd(Bytes::from_static(b"/home/user")),
        Frame::Data(Bytes::new()),
    ]
}

fn feed_in_chunks(bytes: &[u8], sizes: &[usize]) -> (Vec<Frame>, Option<FrameError>, usize) {
    let mut decoder = FrameDecoder::new();
    let mut buf = BytesMut::new();
    let mut out = Vec::new();
    let mut start = 0;
    let mut k = 0;
    while start < bytes.len() {
        let size = sizes[k % sizes.len()].max(1);
        let end = (start + size).min(bytes.len());
        let (frames, err) = decoder.feed(&mut buf, &bytes[start..end]);
        out.extend(frames);
        if err.is_some() {
            return (out, err, buf.len());
        }
        start = end;
        k += 1;
    }
    (out, None, buf.len())
}

#[test]
fn data_frame_wire_bytes() {
    assert_eq!(encoded(Frame::Data(Bytes::from_static(b"ab"))), vec![0, 0, 0, 3, 0, b'a', b'b']);
}

#[test]
fn size_frame_wire_bytes_cols_first() {
    assert_eq!(encoded(Frame::Size(123, 45)), vec![0, 0, 0, 5, 1, 0, 123, 0, 45]);
    assert_eq!(encoded(Frame::Size(0x0102, 0x0304)), vec![0, 0, 0, 5, 1, 1, 2, 3, 4]);
}

#[test]
fn name_and_cwd_wire_bytes() {
    assert_eq!(encoded(Frame::Name(Bytes::from_static(b"vim"))), vec![0, 0, 0, 4, 2, b'v', b'i', b'm']);
    assert_eq!(encoded(Frame::Cwd(Bytes::from_static(b"/"))), vec![0, 0, 0, 2, 3, b'/']);
}

#[test]
fn encode_appends_to_existing_bytes() {
    let mut buf = BytesMut::from(&b"xy"[..]);
    encode(Frame::Data(Bytes::from_static(b"z")), &mut buf).unwrap();
    assert_eq!(&buf[..], &[b'x', b'y', 0, 0, 0, 2, 0, b'z'][..]);
}

#[test]
fn round_trip_every_variant() {
    for frame in sample_frames() {
        let want = describe(&frame);
        let mut buf = BytesMut::from(&encoded(frame)[..]);
        let mut decoder = FrameDecoder::new();
        let got = decoder.decode(&mut buf).unwrap().unwrap();
        assert_eq!(describe(&got), want);
        assert_eq!(buf.len(), 0);
        assert!(decoder.decode(&mut buf).unwrap().is_none());
    }
}

#[test]
fn decode_waits_for_whole_frame() {
    let bytes = encoded(Frame::Data(Bytes::from_static(b"abc")));
    let mut decoder = FrameDecoder::new();
    let mut buf = BytesMut::from(&bytes[..2]);
    assert!(decoder.decode(&mut buf).unwrap().is_none());
    assert_eq!(buf.len(), 2);
    buf.extend_from_slice(&bytes[2..6]);
    assert!(decoder.decode(&mut buf).unwrap().is_none());
    assert_eq!(buf.len(), 2);
    buf.extend_from_slice(&bytes[6..]);
    let got = decoder.decode(&mut buf).unwrap().unwrap();
    assert_eq!(describe(&got), (0, b"abc".to_vec()));
    assert_eq!(buf.len(), 0);
}

#[test]
fn one_frame_split_at_every_boundary() {
    for frame in sample_frames() {
        let want = describe(&frame);
        let bytes = encoded(frame);
        for cut in 1..bytes.len() {
            let mut decoder = FrameDecoder::new();
            let mut buf = BytesMut::new();
            let (first, err) = decoder.feed(&mut buf, &bytes[..cut]);
            assert!(first.is_empty());
            assert!(err.is_none());
            let (second, err) = decoder.feed(&mut buf, &bytes[cut..]);
            assert!(err.is_none());
            assert_eq!(second.len(), 1);
            assert_eq!(describe(&second[0]), want);
            assert_eq!(buf.len(), 0);
        }
        for size in 1..=bytes.len() {
            let (frames, err, left) = feed_in_chunks(&bytes, &[size]);
            assert!(err.is_none());
            assert_eq!(frames.len(), 1);
            assert_eq!(describe(&frames[0]), want);
            assert_eq!(left, 0);
        }
    }
}

#[test]
fn concatenated_frames_in_order_under_any_chunking() {
    let wants: Vec<(u8, Vec<u8>)> = sample_frames().iter().map(describe).collect();
    let mut bytes = Vec::new();
    for frame in sample_frames() {
        bytes.extend(encoded(frame));
    }
    for sizes in [vec![1], vec![2], vec![3, 7], vec![5], vec![9, 1, 4], vec![bytes.len()]] {
        let (frames, err, left) = feed_in_chunks(&bytes, &sizes);
        assert!(err.is_none());
        assert_eq!(frames.iter().map(describe).collect::<Vec<_>>(), wants);
        assert_eq!(left, 0);
    }
}

#[test]
fn unknown_type_is_error_and_stream_stays_aligned() {
    let mut bytes = vec![0, 0, 0, 3, 0xFF, 9, 9];
    bytes.extend(encoded(Frame::Data(Bytes::from_static(b"ok"))));
    let mut decoder = FrameDecoder::new();
    let mut buf = BytesMut::from(&bytes[..]);
    assert_eq!(decoder.decode(&mut buf).err(), Some(FrameError::UnknownType(0xFF)));
    let next = decoder.decode(&mut buf).unwrap().unwrap();
    assert_eq!(describe(&next), (0, b"ok".to_vec()));
    assert_eq!(buf.len(), 0);
}

#[test]
fn unknown_type_stops_feed_after_earlier_frames() {
    let mut bytes = encoded(Frame::Data(Bytes::from_static(b"a")));
    bytes.extend([0, 0, 0, 1, 0xFF]);
    bytes.extend(encoded(Frame::Data(Bytes::from_static(b"b"))));
    let mut decoder = FrameDecoder::new();
    let mut buf = BytesMut::new();
    let (frames, err) = decoder.feed(&mut buf, &bytes);
    assert_eq!(frames.len(), 1);
    assert_eq!(err, Some(FrameError::UnknownType(0xFF)));
    let (frames, err) = decoder.feed(&mut buf, &[]);
    assert!(err.is_none());
    assert_eq!(describe(&frames[0]), (0, b"b".to_vec()));
}

#[test]
fn zero_length_prefix_is_error() {
    let mut decoder = FrameDecoder::new();
    let mut buf = BytesMut::from(&[0u8, 0, 0, 0, 0, 0, 0, 1, 0][..]);
    assert_eq!(decoder.decode(&mut buf).err(), Some(FrameError::ZeroLength));
    let next = decoder.decode(&mut buf).unwrap().unwrap();
    assert_eq!(describe(&next), (0, Vec::new()));
}

#[test]
fn size_frame_with_wrong_length_is_error() {
    let mut decoder = FrameDecoder::new();
    let mut buf = BytesMut::from(&[0u8, 0, 0, 3, 1, 0, 80][..]);
    assert_eq!(decoder.decode(&mut buf).err(), Some(FrameError::BadSizeLength(3)));
    assert_eq!(buf.len(), 0);
}

#[test]
fn size_round_trip_reaches_resize_untransposed() {
    let bytes = encoded(Frame::Size(123, 45));
    let mut decoder = FrameDecoder::new();
    let mut buf = BytesMut::new();
    let (frames, err) = decoder.feed(&mut buf, &bytes);
    assert!(err.is_none());
    assert_eq!(frames.len(), 1);
    match pty_action(frames.into_iter().next().unwrap()) {
        Some(PtyAction::Resize(cols, rows)) => {
            assert_eq!(cols, 123);
            assert_eq!(rows, 45);
        }
        _ => panic!("expected a resize"),
    }
}

#[test]
fn name_and_cwd_call_for_no_pty_action() {
    assert!(pty_action(Frame::Name(Bytes::from_static(b"x"))).is_none());
    assert!(pty_action(Frame::Cwd(Bytes::from_static(b"/"))).is_none());
    match pty_action(Frame::Data(Bytes::from_static(b"q"))) {
        Some(PtyAction::Write(b)) => assert_eq!(&b[..], b"q"),
        _ => panic!("expected a write"),
    }
}

#[test]
fn data_frame_wraps_exactly_what_was_read() {
    let out = data_frame(b"out\n".to_vec()).unwrap();
    assert_eq!(&out[..], &[0, 0, 0, 5, 0, b'o', b'u', b't', b'\n'][..]);
}

#[test]
fn poller_emits_only_on_change() {
    let mut poller = Poller::new(Watch::ProcessName);
    let mut sent = Vec::new();
    for name in ["bash", "bash", "vim", "vim"] {
        if let Some(frame) = poller.observe(name.as_bytes().to_vec()).unwrap() {
            sent.push(frame.to_vec());
        }
    }
    assert_eq!(sent, vec![encoded(Frame::Name(Bytes::from_static(b"bash"))), encoded(Frame::Name(Bytes::from_static(b"vim")))]);
}

#[test]
fn cwd_poller_sends_cwd_frames() {
    let mut poller = Poller::new(Watch::WorkingDir);
    assert!(poller.observe(Vec::new()).unwrap().is_none());
    let first = poller.observe(b"/tmp".to_vec()).unwrap().unwrap();
    assert_eq!(&first[..], &[0, 0, 0, 5, 3, b'/', b't', b'm', b'p'][..]);
    assert!(poller.observe(b"/tmp".to_vec()).unwrap().is_none());
    let back = poller.observe(b"/".to_vec()).unwrap().unwrap();
    assert_eq!(&back[..], &[0, 0, 0, 2, 3, b'/'][..]);
}

#[test]
fn end_to_end_command_and_output() {
    let from_client = encoded(Frame::Data(Bytes::from_static(b"ls\n")));
    let mut decoder = FrameDecoder::new();
    let mut buf = BytesMut::new();
    let (frames, err) = decoder.feed(&mut buf, &from_client);
    assert!(err.is_none());
    let mut pty_input = Vec::new();
    for frame in frames {
        match pty_action(frame) {
            Some(PtyAction::Write(b)) => pty_input.extend_from_slice(&b),
            _ => panic!("expected a write"),
        }
    }
    assert_eq!(pty_input, b"ls\n".to_vec());

    let mut to_client = Vec::new();
    for chunk in [&b"ls\r\n"[..], &b"file.txt\r\n"[..]] {
        to_client.extend_from_slice(&data_frame(chunk.to_vec()).unwrap());
    }
    let (frames, err, left) = feed_in_chunks(&to_client, &[3]);
    assert!(err.is_none());
    assert_eq!(left, 0);
    let got: Vec<(u8, Vec<u8>)> = frames.iter().map(describe).collect();
    assert_eq!(got, vec![(0, b"ls\r\n".to_vec()), (0, b"file.txt\r\n".to_vec())]);
}
