use rvnc::pixel::PixelFormat;
use rvnc::rfb::session::Plan;
use rvnc::rfb::update::{cut_text_message, Writer};
use rvnc::screen::hub::ExtPending;
use rvnc::screen::{Caps, CursorImage, Frame, Rect};

fn empty_plan() -> Plan {
    Plan {
        pf: PixelFormat::default_rgb(),
        caps: Caps::default(),
        rects: Vec::new(),
        send_cursor: false,
        resize: None,
        clipboard: None,
        ext: ExtPending::none(),
        text: None,
    }
}

fn message(writer: &mut Writer, plan: &Plan, frame: &Frame, cursor: &Option<CursorImage>) -> Vec<u8> {
    let mut msg = Vec::new();
    assert!(writer.update_message(plan, frame, cursor, &mut msg));
    msg
}

fn painted(w: u32, h: u32) -> Frame {
    let mut frame = Frame::new(w, h);
    for y in 0..h {
        for x in 0..w {
            frame.put(x, y, x * 0x1_0101 + y * 0x300);
        }
    }
    frame
}

#[test]
fn raw_rectangles_are_cut_to_the_frame() {
    let frame = painted(4, 4);
    let mut plan = empty_plan();
    plan.rects = vec![
        Rect { x: 2, y: 3, w: 9, h: 9 },
        Rect { x: 4, y: 0, w: 1, h: 1 },
    ];
    let msg = message(&mut Writer::new(), &plan, &frame, &None);
    let mut want = vec![0, 0, 0, 1, 0, 2, 0, 3, 0, 2, 0, 1, 0, 0, 0, 0];
    want.extend(0x0002_0b02u32.to_le_bytes());
    want.extend(0x0003_0c03u32.to_le_bytes());
    assert_eq!(msg, want);
}

#[test]
fn a_new_size_comes_as_a_rectangle_with_its_reason() {
    let mut plan = empty_plan();
    plan.resize = Some(2);
    let msg = message(&mut Writer::new(), &plan, &Frame::new(800, 600), &None);
    assert_eq!(
        msg,
        [
            0, 0, 0, 1, 0, 2, 0, 0, 3, 32, 2, 88, 0xff, 0xff, 0xfe, 0xcc, 1, 0, 0, 0, 0, 0, 0, 1,
            0, 0, 0, 0, 3, 32, 2, 88, 0, 0, 0, 0
        ]
    );
}

#[test]
fn cursors_are_unmultiplied_and_masked() {
    let mut plan = empty_plan();
    plan.send_cursor = true;
    let cursor = CursorImage {
        width: 3,
        height: 2,
        hot_x: 1,
        hot_y: 0,
        // Opaque, half transparent, clear; faint, opaque, opaque.
        argb: vec![0xff10_2030, 0x8040_2000, 0, 0x7f7f_0000, 0xff00_0000, 0xffff_ffff],
    };
    let msg = message(&mut Writer::new(), &plan, &Frame::new(8, 8), &Some(cursor));
    let mut want = vec![0, 0, 0, 1, 0, 1, 0, 0, 0, 3, 0, 2, 0xff, 0xff, 0xff, 0x11];
    for px in [0x10_2030u32, 0x7f_3f00, 0, 0xff_0000, 0, 0xff_ffff] {
        want.extend(px.to_le_bytes());
    }
    want.extend([0b1100_0000, 0b0110_0000]);
    assert_eq!(msg, want);
}

#[test]
fn no_cursor_is_an_empty_rectangle() {
    let mut plan = empty_plan();
    plan.send_cursor = true;
    let msg = message(&mut Writer::new(), &plan, &Frame::new(8, 8), &None);
    assert_eq!(msg, [0, 0, 0, 1, 0, 0, 0, 0, 0, 0, 0, 0, 0xff, 0xff, 0xff, 0x11]);
}

#[test]
fn cut_text_has_its_length() {
    assert_eq!(cut_text_message(b"abc"), b"\x03\x00\x00\x00\x00\x00\x00\x03abc");
}

#[test]
fn one_zlib_stream_lives_as_long_as_the_session() {
    let mut plan = empty_plan();
    plan.caps.zrle = true;
    plan.rects = vec![Rect { x: 0, y: 0, w: 8, h: 8 }];
    let mut frame = Frame::new(8, 8);
    let mut writer = Writer::new();
    let mut stream = flate2::Decompress::new(true);
    for colour in [0x11_2233u32, 0x44_5566, 0x77_8899] {
        for i in 0..64 {
            frame.put(i % 8, i / 8, colour);
        }
        let msg = message(&mut writer, &plan, &frame, &None);
        assert_eq!(msg[..16], [0, 0, 0, 1, 0, 0, 0, 0, 0, 8, 0, 8, 0, 0, 0, 16]);
        let len = u32::from_be_bytes([msg[16], msg[17], msg[18], msg[19]]) as usize;
        assert_eq!(msg.len(), 20 + len);
        let mut plain = Vec::with_capacity(64);
        stream.decompress_vec(&msg[20..], &mut plain, flate2::FlushDecompress::Sync).unwrap();
        let b = colour.to_le_bytes();
        assert_eq!(plain, [1, b[0], b[1], b[2]]);
    }
}
