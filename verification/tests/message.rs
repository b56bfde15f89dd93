use rvnc::pixel::PixelFormat;
use rvnc::rfb::message::{decode_message, ClientMessage, Decoded, ProtocolError};
use rvnc::screen::Caps;

fn decode(b: &[u8]) -> (ClientMessage, usize) {
    match decode_message(b, false) {
        Decoded::Message { msg, used } => (msg, used),
        _ => panic!("no message in {b:?}"),
    }
}

fn refusal(b: &[u8], extended: bool) -> ProtocolError {
    match decode_message(b, extended) {
        Decoded::Refused(e) => e,
        _ => panic!("{b:?} was not refused"),
    }
}

/// Every proper prefix of a message is incomplete, and what follows a message
/// does not change it.
fn check_framing(b: &[u8]) {
    for n in 0..b.len() {
        assert!(matches!(decode_message(&b[..n], false), Decoded::Incomplete), "{n} of {b:?}");
    }
    let mut more = b.to_vec();
    more.extend([9, 9, 9]);
    assert_eq!(decode(&more).1, b.len());
}

#[test]
fn messages_are_framed_by_their_own_bytes() {
    let mut format = vec![0, 0, 0, 0];
    PixelFormat::default_rgb().write(&mut format);
    check_framing(&format);
    check_framing(&[2, 0, 0, 2, 0, 0, 0, 16, 0, 0, 0, 0]);
    check_framing(&[3, 1, 0, 0, 0, 0, 0, 8, 0, 8]);
    check_framing(&[4, 1, 0, 0, 0, 0, 0xff, 0xe1]);
    check_framing(&[5, 1, 0, 10, 0, 20]);
    check_framing(b"\x06\x00\x00\x00\x00\x00\x00\x02hi");
    let mut size = vec![251, 0, 3, 32, 2, 88, 1, 0];
    size.extend([0; 16]);
    check_framing(&size);
}

#[test]
fn fields_are_read_from_their_places() {
    let mut format = vec![0, 0, 0, 0];
    PixelFormat::default_rgb().write(&mut format);
    let (msg, _) = decode(&format);
    assert!(matches!(msg, ClientMessage::SetPixelFormat(pf) if pf == PixelFormat::default_rgb()));

    let (msg, _) = decode(&[3, 0, 0, 0, 0, 0, 0, 8, 0, 8]);
    assert!(matches!(msg, ClientMessage::UpdateRequest { incremental: false }));
    let (msg, _) = decode(&[4, 1, 0, 0, 0, 0, 0xff, 0xe1]);
    assert!(matches!(msg, ClientMessage::Key { down: true, keysym: 0xffe1 }));
    let (msg, _) = decode(&[5, 3, 1, 10, 2, 20]);
    assert!(matches!(msg, ClientMessage::Pointer { mask: 3, x: 266, y: 532 }));
    let (msg, _) = decode(b"\x06\x00\x00\x00\x00\x00\x00\x02hi");
    assert!(matches!(msg, ClientMessage::CutText(t) if t == b"hi"));
    let (msg, used) = decode(&[251, 0, 3, 32, 2, 88, 0, 0]);
    assert!(matches!(msg, ClientMessage::SetDesktopSize { width: 800, height: 600 }));
    assert_eq!(used, 8);
}

#[test]
fn encodings_become_capabilities() {
    let wire: [i32; 8] = [7, 16, -239, -224, -223, -308, 1, 0xc0a1_e5ce_u32 as i32];
    let mut b = vec![2, 0, 0, 8];
    for e in wire {
        b.extend(e.to_be_bytes());
    }
    let all = Caps {
        zrle: true,
        cursor: true,
        last_rect: true,
        desktop_size: true,
        ext_desktop_size: true,
        ext_clipboard: true,
        copy_rect: true,
    };
    assert!(matches!(decode(&b).0, ClientMessage::SetEncodings(c) if c == all));
    let raw = decode(&[2, 0, 0, 1, 0, 0, 0, 0]).0;
    assert!(matches!(raw, ClientMessage::SetEncodings(c) if c == Caps::default()));
}

#[test]
fn nonsense_is_refused() {
    let mut palette = vec![0, 0, 0, 0];
    PixelFormat { true_colour: false, ..PixelFormat::default_rgb() }.write(&mut palette);
    assert_eq!(refusal(&palette, false), ProtocolError::UnsupportedPixelFormat);
    assert_eq!(refusal(&[2, 0, 0x10, 1], false), ProtocolError::AbsurdEncodingCount);
    assert!(matches!(decode_message(&[2, 0, 0x10, 0], false), Decoded::Incomplete));
    assert_eq!(
        refusal(&[6, 0, 0, 0, 0, 0x10, 0, 1], false),
        ProtocolError::OversizedClipboard
    );
    assert_eq!(refusal(&[77], false), ProtocolError::UnknownMessage(77));
}

#[test]
fn a_negative_length_is_for_the_extended_clipboard_alone() {
    let b = [6, 0, 0, 0, 0xff, 0xff, 0xff, 0xfa, 0x10, 0, 0, 1, 42, 43];
    assert_eq!(refusal(&b, false), ProtocolError::OversizedClipboard);
    match decode_message(&b, true) {
        Decoded::Message { msg: ClientMessage::Extended { flags, data }, used } => {
            assert_eq!(flags, 0x1000_0001);
            assert_eq!(data, [42, 43]);
            assert_eq!(used, 14);
        }
        _ => panic!("not an extended message"),
    }
    assert!(matches!(decode_message(&b[..13], true), Decoded::Incomplete));
    assert_eq!(
        refusal(&[6, 0, 0, 0, 0xff, 0xff, 0xff, 0xfd], true),
        ProtocolError::MalformedClipboard
    );
    assert_eq!(
        refusal(&[6, 0, 0, 0, 0xff, 0xef, 0xff, 0xff], true),
        ProtocolError::OversizedClipboard
    );
}
