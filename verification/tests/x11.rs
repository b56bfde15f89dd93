use rvnc::screen::{Frame, Hub, Rect};
use rvnc::x11::capture::{
    CaptureError, CursorReply, PixmapFormat, ScreenSetup, Visual, XRect,
};
use rvnc::x11::capture_loop::{CaptureEvent, CaptureLoop, Turn};
use rvnc::x11::image::Channel;
use rvnc::x11::input::{FakeEvent, Keymap, SHIFT_L};
use rvnc::x11::resize::{find_mode, largest, Mode, ResizeStep, SizeRange};
use rvnc::x11::{Capture, Grab, Input, Resizer};

#[test]
fn channel_scales_to_eight_bits() {
    let c = Channel::new(0x00ff_0000);
    assert_eq!(c.take(0x00ab_0000), 0xab);
    let c565 = Channel::new(0xf800);
    assert_eq!(c565.take(0xf800), 255);
    assert_eq!(c565.take(0), 0);
}

#[test]
fn channels_are_read_from_their_mask() {
    let none = Channel::new(0);
    assert_eq!(none.take(0xffff_ffff), 255);
    let c555 = Channel::new(0x03e0);
    assert_eq!(c555.take(0x03e0), 255);
    assert_eq!(c555.take(0x0200), 132);
    let c10 = Channel::new(0x3ff0_0000);
    assert_eq!(c10.take(0x3ff0_0000), 255);
    assert_eq!(c10.take(0x2000_0000), 128);
}

fn setup() -> ScreenSetup {
    ScreenSetup {
        root: 7,
        width: 40,
        height: 30,
        root_visual: 33,
        visuals: vec![
            Visual { depth: 8, id: 32, red_mask: 0, green_mask: 0, blue_mask: 0 },
            Visual {
                depth: 24,
                id: 33,
                red_mask: 0xff_0000,
                green_mask: 0xff00,
                blue_mask: 0xff,
            },
            Visual { depth: 16, id: 34, red_mask: 0xf800, green_mask: 0x7e0, blue_mask: 0x1f },
        ],
        pixmap_formats: vec![
            PixmapFormat { depth: 1, bits_per_pixel: 1, scanline_pad: 32 },
            PixmapFormat { depth: 8, bits_per_pixel: 8, scanline_pad: 32 },
            PixmapFormat { depth: 24, bits_per_pixel: 32, scanline_pad: 32 },
            PixmapFormat { depth: 16, bits_per_pixel: 16, scanline_pad: 32 },
        ],
        msb_first: false,
    }
}

fn capture(s: &ScreenSetup) -> Capture {
    Capture::open(s).unwrap_or_else(|e| panic!("{}", e.text()))
}

fn failure(s: &ScreenSetup) -> CaptureError {
    match Capture::open(s) {
        Ok(_) => panic!("the screen should not do"),
        Err(e) => e,
    }
}

#[test]
fn screens_that_cannot_be_read_are_refused() {
    let mut s = setup();
    s.root_visual = 99;
    assert_eq!(failure(&s), CaptureError::NoRootVisual);
    assert_eq!(failure(&s).text(), "root visual not found in the server setup");

    s = setup();
    s.pixmap_formats.truncate(2);
    assert_eq!(failure(&s), CaptureError::NoPixmapFormat);

    s = setup();
    s.root_visual = 32;
    assert_eq!(failure(&s), CaptureError::UnsupportedPixelSize(8));
    assert_eq!(
        failure(&s).text(),
        "unsupported X server pixel size: 8 bits (need 16, 24 or 32)"
    );

    s = setup();
    s.visuals[1].red_mask = 0;
    assert_eq!(failure(&s), CaptureError::NotTrueColour);
}

#[test]
fn a_grab_stores_what_the_screen_shows() {
    let cap = capture(&setup());
    assert!(cap.fmt.fast_bgrx);
    let mut frame = Frame::new(40, 30);
    let r = cap.region(&frame, Rect { x: 38, y: 29, w: 9, h: 9 }).unwrap();
    assert_eq!(r, Rect { x: 38, y: 29, w: 2, h: 1 });
    let image = Some(vec![0x33, 0x22, 0x11, 0xff, 0x66, 0x55, 0x44, 0]);
    assert_eq!(cap.grab(&mut frame, r, &image), Grab::Done);
    assert_eq!(frame.row(29, 37, 3), [0, 0x11_2233, 0x44_5566]);
    assert_eq!(cap.region(&frame, Rect { x: 40, y: 0, w: 1, h: 1 }), None);
}

#[test]
fn a_grab_that_raced_a_resize_changes_nothing() {
    let cap = capture(&setup());
    let mut frame = Frame::new(40, 30);
    let r = Rect { x: 0, y: 0, w: 2, h: 1 };
    assert_eq!(cap.grab(&mut frame, r, &None), Grab::Raced);
    assert_eq!(cap.grab(&mut frame, r, &Some(vec![255; 7])), Grab::Raced);
    assert!(frame.px.iter().all(|&px| px == 0));
}

#[test]
fn other_layouts_are_converted() {
    let mut s = setup();
    s.root_visual = 34;
    s.msb_first = true;
    let cap = capture(&s);
    assert!(!cap.fmt.fast_bgrx);
    let mut frame = Frame::new(40, 30);
    // One pixel a row, padded to four bytes.
    let image = Some(vec![0xf8, 0x00, 9, 9, 0x07, 0xe0, 9, 9]);
    let r = Rect { x: 3, y: 0, w: 1, h: 2 };
    assert_eq!(cap.grab(&mut frame, r, &image), Grab::Done);
    assert_eq!(frame.row(0, 3, 1), [0xff_0000]);
    assert_eq!(frame.row(1, 3, 1), [0x00_ff00]);
}

#[test]
fn damage_is_clamped_to_the_screen() {
    let mut cap = capture(&setup());
    let reported = [
        XRect { x: -5, y: 28, width: 10, height: 10 },
        XRect { x: 40, y: 0, width: 5, height: 5 },
        XRect { x: 1, y: 2, width: 3, height: 4 },
    ];
    assert!(cap.take_damage(&reported).is_empty());
    cap.setup_extensions(true, true, true);
    assert!(cap.has_damage());
    assert_eq!(
        cap.take_damage(&reported),
        [Rect { x: 0, y: 28, w: 5, h: 2 }, Rect { x: 1, y: 2, w: 3, h: 4 }]
    );
    cap.set_size(4, 4);
    assert_eq!(cap.full_rect(), Rect { x: 0, y: 0, w: 4, h: 4 });
    assert_eq!(cap.resync_size(5, 6), (5, 6));
}

#[test]
fn a_cursor_needs_xfixes_and_an_area() {
    let reply = |width| CursorReply { width, height: 1, xhot: 0, yhot: 0, pixels: vec![1] };
    let mut cap = capture(&setup());
    assert!(cap.cursor(reply(1)).is_none());
    cap.setup_extensions(true, false, false);
    assert!(!cap.has_damage());
    assert_eq!(cap.cursor(reply(1)).unwrap().argb, [1]);
    assert!(cap.cursor(reply(0)).is_none());
}

fn watching() -> (CaptureLoop, Hub) {
    let mut cap = capture(&setup());
    cap.setup_extensions(true, true, true);
    let mut hub = Hub::new(40, 30);
    hub.register();
    (CaptureLoop::new(cap, 30, Grab::Done), hub)
}

#[test]
fn nobody_watching_means_draining_and_a_fresh_start() {
    let (mut turns, _) = watching();
    let mut hub = Hub::new(40, 30);
    let seen = turns.look(&[CaptureEvent::Damage]);
    assert_eq!(turns.begin(&mut hub, &seen), Turn::Sleep { drain: true });
    hub.register();
    let quiet = turns.look(&[CaptureEvent::Other]);
    assert_eq!(turns.begin(&mut hub, &quiet), Turn::Watch { fetch: false });
    // What was damaged meanwhile is read with the whole screen.
    assert_eq!(turns.choose_rects(&quiet, Vec::new()), [Rect { x: 0, y: 0, w: 40, h: 30 }]);
    assert!(turns.choose_rects(&quiet, Vec::new()).is_empty());
}

#[test]
fn damage_is_read_and_reported() {
    let (mut turns, mut hub) = watching();
    hub.clients[0].state.dirty.clear_all();
    let seen = turns.look(&[CaptureEvent::Cursor, CaptureEvent::Damage]);
    assert!(seen.cursor_changed);
    assert_eq!(turns.begin(&mut hub, &seen), Turn::Watch { fetch: true });
    let damaged = vec![Rect { x: 1, y: 2, w: 3, h: 4 }];
    let rects = turns.choose_rects(&seen, damaged.clone());
    assert_eq!(rects, damaged);
    turns.finish(&mut hub, &rects, None);
    assert!(!hub.clients[0].state.dirty.is_empty());
}

#[test]
fn the_screens_size_is_followed() {
    let (mut turns, mut hub) = watching();
    let events = [
        CaptureEvent::Configure { window: 7, width: 20, height: 10 },
        CaptureEvent::Configure { window: 8, width: 1, height: 1 },
    ];
    let seen = turns.look(&events);
    assert_eq!(seen.resized, Some((20, 10)));
    turns.begin(&mut hub, &seen);
    assert_eq!(hub.dimensions(), (20, 10));
    assert_eq!(turns.choose_rects(&seen, Vec::new()), [Rect { x: 0, y: 0, w: 20, h: 10 }]);

    // A resize that a client brought about is at the hub first.
    hub.resize(30, 30, None);
    let quiet = turns.look(&[]);
    turns.begin(&mut hub, &quiet);
    assert_eq!((turns.cap.width, turns.cap.height), (30, 30));
    assert!(turns.stale);

    // One that is noticed only while reading starts over.
    turns.finish(&mut hub, &[], Some((16, 17)));
    assert_eq!(hub.dimensions(), (16, 17));
    assert!(turns.stale);
}

#[test]
fn the_pace_slows_down_but_never_exceeds_the_limit() {
    let (mut turns, _) = watching();
    assert_eq!(turns.pause_us(0), 33_333);
    assert_eq!(turns.pause_us(33_000), 333);
    assert_eq!(turns.pause_us(40_000), 0);
    turns.idle_frames = 16;
    assert_eq!(turns.pause_us(0), 50_000);
    turns.idle_frames = 46;
    assert_eq!(turns.pause_us(0), 100_000);

    let mut slow = CaptureLoop::new(capture(&setup()), 1, Grab::Done);
    slow.idle_frames = 46;
    assert_eq!(slow.pause_us(0), 1_000_000);
    assert_eq!(CaptureLoop::new(capture(&setup()), 0, Grab::Done).pause_us(0), 1_000_000);
    assert_eq!(CaptureLoop::new(capture(&setup()), 500, Grab::Done).pause_us(0), 8_333);
}

/// Keycodes 8 to 12: "a" and "A", shift, "1" and nothing, and two without
/// symbols.
fn keymap() -> Keymap {
    Keymap {
        min_keycode: 8,
        max_keycode: 12,
        keysyms_per_keycode: 2,
        keysyms: vec![97, 65, SHIFT_L, 0, 49, 0, 0, 0, 0, 0],
        keycodes_per_modifier: 2,
        modifiers: vec![0, 9, 0, 0],
    }
}

#[test]
fn keys_are_pressed_with_the_shift_they_need() {
    let mut input = Input::open(&keymap());
    assert_eq!(input.key(97, true), [FakeEvent::KeyPress(8)]);
    assert_eq!(input.key(97, false), [FakeEvent::KeyRelease(8)]);
    assert!(input.key(97, false).is_empty());
    assert_eq!(
        input.key(65, true),
        [FakeEvent::KeyPress(9), FakeEvent::KeyPress(8), FakeEvent::KeyRelease(9)]
    );
    // A repeat is a release and another press.
    assert_eq!(
        input.key(65, true),
        [
            FakeEvent::KeyRelease(8),
            FakeEvent::KeyPress(9),
            FakeEvent::KeyPress(8),
            FakeEvent::KeyRelease(9)
        ]
    );
    input.key(65, false);
    // The client holds shift itself.
    assert_eq!(input.key(SHIFT_L, true), [FakeEvent::KeyPress(9)]);
    assert_eq!(input.key(65, true), [FakeEvent::KeyPress(8)]);
}

#[test]
fn unmapped_keysyms_borrow_spare_keycodes_in_turn() {
    let mut input = Input::open(&keymap());
    let remap = |keycode, keysym| FakeEvent::Remap { keycode, keysym, count: 2 };
    assert_eq!(input.key(0xe9, true), [remap(11, 0xe9), FakeEvent::KeyPress(11)]);
    assert_eq!(input.key(0xe9, false), [FakeEvent::KeyRelease(11)]);
    // Once is enough.
    assert_eq!(input.key(0xe9, true), [FakeEvent::KeyPress(11)]);
    input.key(0xe9, false);
    assert_eq!(input.key(0xe8, true), [remap(12, 0xe8), FakeEvent::KeyPress(12)]);
    input.key(0xe8, false);
    // A third evicts the first, which then evicts the second.
    assert_eq!(input.key(0xe7, true), [remap(11, 0xe7), FakeEvent::KeyPress(11)]);
    input.key(0xe7, false);
    assert_eq!(input.key(0xe9, true), [remap(12, 0xe9), FakeEvent::KeyPress(12)]);
}

#[test]
fn without_spare_keycodes_unmapped_keysyms_are_dropped() {
    let mut k = keymap();
    k.max_keycode = 10;
    let mut input = Input::open(&k);
    assert!(input.key(0xe9, true).is_empty());
    assert!(input.key(0xe9, false).is_empty());
}

#[test]
fn only_buttons_that_change_are_reported() {
    let mut input = Input::open(&keymap());
    assert_eq!(
        input.pointer(3, 4, 0b101),
        [
            FakeEvent::Motion { x: 3, y: 4 },
            FakeEvent::ButtonPress(1),
            FakeEvent::ButtonPress(3)
        ]
    );
    assert_eq!(
        input.pointer(3, 5, 0b1000_0100),
        [
            FakeEvent::Motion { x: 3, y: 5 },
            FakeEvent::ButtonRelease(1),
            FakeEvent::ButtonPress(8)
        ]
    );
    input.key(97, true);
    let mut released = input.release_all();
    assert_eq!(
        released.split_off(1),
        [FakeEvent::ButtonRelease(3), FakeEvent::ButtonRelease(8)]
    );
    assert_eq!(released, [FakeEvent::KeyRelease(8)]);
    assert!(input.release_all().is_empty());
}

#[test]
fn sizes_are_granted_within_the_range() {
    let range = SizeRange { min_width: 8, min_height: 100, max_width: 4096, max_height: 1000 };
    let r = Resizer::open(&range, (1920, 1200));
    assert_eq!((r.min, r.max), ((16, 100), (1920, 1000)));
    assert_eq!(
        r.resize(4000, 50, (800, 600)),
        ResizeStep::Change { width: 1920, height: 100, mm_width: 508, mm_height: 26 }
    );
    assert_eq!(r.resize(1, 200, (16, 200)), ResizeStep::Keep { width: 16, height: 200 });
    assert_eq!(largest((1440, 1300), (1920, 1200)), (1920, 1300));
}

#[test]
fn the_first_matching_mode_is_set() {
    let modes = [
        Mode { id: 1, width: 640, height: 480 },
        Mode { id: 2, width: 800, height: 600 },
        Mode { id: 3, width: 800, height: 600 },
    ];
    assert_eq!(find_mode(&modes, 800, 600), Some(2));
    assert_eq!(find_mode(&modes, 800, 601), None);
}

#[test]
fn only_the_padding_that_is_used_matters() {
    let mut s = setup();
    s.pixmap_formats[0].scanline_pad = 3;
    assert!(s.has_known_padding());
    assert_eq!(capture(&s).fmt.scanline_pad, 32);
    s.pixmap_formats[2].scanline_pad = 4;
    assert!(!s.has_known_padding());
    s.root_visual = 99;
    assert!(s.has_known_padding());
}

#[test]
fn rows_may_be_padded_to_any_whole_bytes() {
    let mut s = setup();
    s.root_visual = 34;
    s.pixmap_formats[3].scanline_pad = 24;
    assert!(s.has_known_padding());
    let cap = capture(&s);
    let mut frame = Frame::new(40, 30);
    // Two pixels a row take four bytes, padded to six.
    let image = Some(vec![0x1f, 0, 0, 0xf8, 9, 9, 0xe0, 7, 0xff, 0xff, 9, 9]);
    let r = Rect { x: 0, y: 0, w: 2, h: 2 };
    assert_eq!(cap.grab(&mut frame, r, &image), Grab::Done);
    assert_eq!(frame.row(0, 0, 2), [0x00_00ff, 0xff_0000]);
    assert_eq!(frame.row(1, 0, 2), [0x00_ff00, 0xff_ffff]);
    assert_eq!(cap.grab(&mut frame, r, &Some(vec![0; 11])), Grab::Raced);
}
