use symposium_rust_analyzer::framing::{encode_frame, next_frame, FrameDecoder, FrameStep};

#[test]
fn encode_writes_header_then_payload() {
    assert_eq!(encode_frame(b"{}"), b"Content-Length: 2\r\n\r\n{}".to_vec());
    let payload = vec![b'x'; 1234];
    let frame = encode_frame(&payload);
    assert!(frame.starts_with(b"Content-Length: 1234\r\n\r\n"));
    assert_eq!(frame.len(), 24 + 1234);
}

#[test]
fn encode_empty_payload() {
    assert_eq!(encode_frame(b""), b"Content-Length: 0\r\n\r\n".to_vec());
}

#[test]
fn frame_round_trip() {
    let payload = r#"{"jsonrpc":"2.0","id":7,"result":"été"}"#.as_bytes();
    let frame = encode_frame(payload);
    match next_frame(&frame) {
        FrameStep::Frame { start, len } => {
            assert_eq!(len, payload.len());
            assert_eq!(&frame[start..start + len], &payload[..]);
            assert_eq!(start + len, frame.len());
        }
        other => panic!("expected a frame, got {:?}", other),
    }
}

#[test]
fn next_frame_positions() {
    assert_eq!(
        next_frame(b"Content-Length: 2\r\n\r\n{}"),
        FrameStep::Frame { start: 21, len: 2 }
    );
    assert_eq!(
        next_frame(b"Content-Length: +3\r\n\r\nabc"),
        FrameStep::Frame { start: 22, len: 3 }
    );
    assert_eq!(
        next_frame(b"Content-Length:7 \r\n\r\n1234567"),
        FrameStep::Frame { start: 21, len: 7 }
    );
}

#[test]
fn noise_and_bad_headers_are_skipped() {
    assert_eq!(next_frame(b"hello\r\nContent-Length: 2\r\n\r\n{}"), FrameStep::Skip(7));
    assert_eq!(next_frame(b"\r\n"), FrameStep::Skip(2));
    assert_eq!(next_frame(b"Content-Length: 0\r\n"), FrameStep::Skip(19));
    assert_eq!(next_frame(b"Content-Length: x\r\n"), FrameStep::Skip(19));
    assert_eq!(next_frame(b"Content-Length: \r\n"), FrameStep::Skip(18));
    assert_eq!(
        next_frame(b"Content-Length: 99999999999999999999999\r\n"),
        FrameStep::Skip(41)
    );
    assert_eq!(next_frame(b"content-length: 2\r\n"), FrameStep::Skip(19));
}

#[test]
fn partial_input_is_incomplete() {
    assert_eq!(next_frame(b""), FrameStep::Incomplete);
    assert_eq!(next_frame(b"Content-Len"), FrameStep::Incomplete);
    assert_eq!(next_frame(b"Content-Length: 5\r\n"), FrameStep::Incomplete);
    assert_eq!(next_frame(b"Content-Length: 5\r\n\r\n{}"), FrameStep::Incomplete);
}

#[test]
fn decoder_takes_frames_in_order() {
    let mut decoder = FrameDecoder::new();
    assert_eq!(decoder.next_payload(), None);
    let mut bytes = b"noise\n".to_vec();
    bytes.extend(encode_frame(b"first"));
    bytes.extend(b"Content-Length: 0\r\n".to_vec());
    bytes.extend(encode_frame(b"second"));
    let (a, b) = bytes.split_at(17);
    decoder.push_bytes(a);
    assert_eq!(decoder.next_payload(), None);
    decoder.push_bytes(b);
    assert_eq!(decoder.next_payload(), Some(b"first".to_vec()));
    assert_eq!(decoder.next_payload(), Some(b"second".to_vec()));
    assert_eq!(decoder.next_payload(), None);
}
