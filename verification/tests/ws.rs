use rvnc::ws::{accept_key, base64, WsError, WsRead, WsSink, WsSource};
use rvnc::ws::{OP_BINARY, OP_CLOSE, OP_PING, OP_PONG, OP_TEXT};

#[test]
fn base64_matches_known_values() {
    assert_eq!(base64(b""), "");
    assert_eq!(base64(b"f"), "Zg==");
    assert_eq!(base64(b"fo"), "Zm8=");
    assert_eq!(base64(b"foo"), "Zm9v");
    assert_eq!(base64(b"foobar"), "Zm9vYmFy");
}

#[test]
fn accept_key_matches_rfc6455_example() {
    assert_eq!(
        accept_key("dGhlIHNhbXBsZSBub25jZQ=="),
        "s3pPLMBiTxaQ9kYGzzhZRbK+xOo="
    );
}

/// Build a masked client frame the way a browser would.
fn client_frame(opcode: u8, payload: &[u8]) -> Vec<u8> {
    let mask = [0x11u8, 0x22, 0x33, 0x44];
    let mut out = vec![0x80 | opcode];
    assert!(payload.len() < 126);
    out.push(0x80 | payload.len() as u8);
    out.extend_from_slice(&mask);
    for (i, b) in payload.iter().enumerate() {
        out.push(b ^ mask[i % 4]);
    }
    out
}

fn read_to_end(src: &mut WsSource, sink: &mut WsSink) -> Result<Vec<u8>, WsError> {
    let mut out = Vec::new();
    loop {
        match src.read(32, sink)? {
            WsRead::Bytes(b) => out.extend(b),
            WsRead::NeedMore => src.feed(&[]),
            WsRead::End => return Ok(out),
        }
    }
}

#[test]
fn reads_unmasked_payload_across_frames() {
    let mut wire = client_frame(OP_BINARY, b"RFB 003.008\n");
    wire.extend(client_frame(OP_BINARY, b"hello"));
    let mut sink = WsSink::new(Vec::new());
    let mut src = WsSource::new(wire);
    let out = read_to_end(&mut src, &mut sink).unwrap();
    assert_eq!(out, b"RFB 003.008\nhello");
}

#[test]
fn ping_is_answered_and_close_ends_the_stream() {
    let mut wire = client_frame(OP_PING, b"hi");
    wire.extend(client_frame(OP_BINARY, b"data"));
    wire.extend(client_frame(OP_CLOSE, &[]));
    wire.extend(client_frame(OP_BINARY, b"ignored"));
    let mut sink = WsSink::new(Vec::new());
    let mut src = WsSource::new(wire);
    let out = read_to_end(&mut src, &mut sink).unwrap();
    assert_eq!(out, b"data");
    let written = sink.take_output();
    assert_eq!(written[0], 0x80 | OP_PONG);
    assert_eq!(&written[2..4], b"hi");
}

#[test]
fn writes_are_single_binary_frames() {
    let mut sink = WsSink::new(Vec::new());
    sink.write(&[1, 2, 3]).unwrap();
    assert_eq!(sink.inner, vec![0x82, 3, 1, 2, 3]);

    let mut big = WsSink::new(Vec::new());
    big.write(&vec![0u8; 200]).unwrap();
    assert_eq!(big.inner[0], 0x82);
    assert_eq!(big.inner[1], 126);
    assert_eq!(u16::from_be_bytes([big.inner[2], big.inner[3]]), 200);
}

#[test]
fn oversized_frames_are_rejected() {
    let wire = vec![0x82, 0xff, 0, 0, 0, 1, 0, 0, 0, 0];
    let mut sink = WsSink::new(Vec::new());
    let mut src = WsSource::new(wire);
    assert!(read_to_end(&mut src, &mut sink).is_err());
}

#[test]
fn what_was_written_reads_back() {
    // A server's frames are not masked, which the reader accepts too.
    for n in [1usize, 125, 126, 65535, 65536] {
        let data: Vec<u8> = (0..n).map(|i| i as u8).collect();
        let mut sink = WsSink::new(Vec::new());
        assert_eq!(sink.write(&data), Ok(n));
        let wire = sink.take_output();
        assert!(sink.inner.is_empty());
        let mut src = WsSource::new(wire);
        assert_eq!(read_to_end(&mut src, &mut sink).unwrap(), data);
    }
}

#[test]
fn a_frame_may_arrive_in_pieces() {
    let wire = client_frame(OP_TEXT, b"abc");
    let mut sink = WsSink::new(Vec::new());
    let mut src = WsSource::new(Vec::new());
    for b in &wire {
        assert!(matches!(src.read(9, &mut sink), Ok(WsRead::NeedMore)));
        src.feed(&[*b]);
    }
    assert!(matches!(src.read(2, &mut sink), Ok(WsRead::Bytes(b)) if b == b"ab"));
    assert!(matches!(src.read(2, &mut sink), Ok(WsRead::Bytes(b)) if b == b"c"));
    src.feed(&[]);
    assert!(matches!(src.read(2, &mut sink), Ok(WsRead::End)));
    assert!(matches!(src.read(2, &mut sink), Ok(WsRead::End)));
}

#[test]
fn a_frame_cut_off_and_an_unknown_one_are_errors() {
    let mut sink = WsSink::new(Vec::new());
    let mut wire = client_frame(OP_BINARY, b"abc");
    wire.pop();
    assert_eq!(read_to_end(&mut WsSource::new(wire), &mut sink), Err(WsError::UnexpectedEof));
    let odd = client_frame(3, b"x");
    assert_eq!(read_to_end(&mut WsSource::new(odd), &mut sink), Err(WsError::UnknownOpcode));
    let huge = vec![0x82, 127, 0, 0, 0, 1, 0, 0, 0, 0];
    assert_eq!(read_to_end(&mut WsSource::new(huge), &mut sink), Err(WsError::FrameTooLarge));
}

#[test]
fn reading_goes_on_behind_an_error() {
    let mut sink = WsSink::new(Vec::new());
    let mut cut = client_frame(OP_BINARY, b"abc");
    cut.pop();
    let mut src = WsSource::new(cut);
    assert_eq!(read_to_end(&mut src, &mut sink), Err(WsError::UnexpectedEof));
    assert_eq!(read_to_end(&mut src, &mut sink), Ok(Vec::new()));
    // Of a frame that is too large the head is gone, and the rest is read on.
    let mut huge = vec![0x82, 127, 0, 0, 0, 1, 0, 0, 0, 0];
    huge.extend(client_frame(OP_BINARY, b"next"));
    let mut src = WsSource::new(huge);
    assert_eq!(read_to_end(&mut src, &mut sink), Err(WsError::FrameTooLarge));
    assert_eq!(read_to_end(&mut src, &mut sink), Ok(b"next".to_vec()));
    let mut odd = client_frame(3, b"x");
    odd.extend(client_frame(OP_BINARY, b"y"));
    let mut src = WsSource::new(odd);
    assert_eq!(read_to_end(&mut src, &mut sink), Err(WsError::UnknownOpcode));
    assert_eq!(read_to_end(&mut src, &mut sink), Ok(b"y".to_vec()));
}

#[test]
fn a_closed_sink_takes_nothing_more() {
    let mut sink = WsSink::new(Vec::new());
    sink.close();
    sink.close();
    assert_eq!(sink.inner, [0x88, 2, 3, 232]);
    assert_eq!(sink.write(b"x"), Err(WsError::Closed));
    assert_eq!(sink.pong(b"x"), Err(WsError::Closed));
    assert_eq!(sink.write(b""), Ok(0));
    assert_eq!(sink.take_output(), [0x88, 2, 3, 232]);
}

#[test]
fn a_close_frame_is_answered() {
    let mut sink = WsSink::new(Vec::new());
    let mut src = WsSource::new(client_frame(OP_CLOSE, &[]));
    assert_eq!(read_to_end(&mut src, &mut sink).unwrap(), []);
    assert_eq!(sink.inner, [0x88, 2, 3, 232]);
    assert!(sink.closed);
}

#[test]
fn chunks_come_back_whole_whatever_room_reads_have() {
    let chunks: Vec<Vec<u8>> = (1..60).map(|n| vec![n as u8; n * 3]).collect();
    let mut sink = WsSink::new(Vec::new());
    for c in &chunks {
        sink.write(c).unwrap();
        sink.pong(b"between").unwrap();
    }
    let wire = sink.take_output();
    for room in [1, 2, 7, 100, 100_000] {
        let mut src = WsSource::new(wire.clone());
        src.feed(&[]);
        let mut got = Vec::new();
        while let Ok(WsRead::Bytes(b)) = src.read(room, &mut sink) {
            assert!(1 <= b.len() && b.len() <= room);
            got.extend(b);
        }
        assert_eq!(got, chunks.concat());
        for _ in 0..3 {
            assert!(matches!(src.read(room, &mut sink), Ok(WsRead::End)));
        }
    }
}
