use rvnc::pixel::PixelFormat;
use rvnc::rfb::ext_clipboard::{end_in_lf, read_action, read_provided, ExtAction};
use rvnc::rfb::message::ClientMessage;
use rvnc::rfb::session::{finish_resize, handle_message, next_step, Effect, Plan, Step};
use rvnc::rfb::update::{clipboard_messages, Writer};
use rvnc::screen::{Caps, Hub, LinkState, Rect};

fn hub_with(n: usize) -> (Hub, Vec<u64>) {
    let mut hub = Hub::new(128, 64);
    let ids = (0..n).map(|_| hub.register()).collect();
    (hub, ids)
}

fn state(hub: &Hub, id: u64) -> &LinkState {
    &hub.clients[hub.find(id).unwrap()].state
}

fn planned(hub: &mut Hub, id: u64) -> Plan {
    match next_step(hub, id) {
        Step::Send(plan) => plan,
        Step::Wait => panic!("nothing to send"),
        Step::Closed => panic!("closed"),
    }
}

fn request(hub: &mut Hub, id: u64, incremental: bool) {
    let msg = ClientMessage::UpdateRequest { incremental };
    assert!(matches!(handle_message(hub, id, &msg, false, false), Effect::Nothing));
}

fn waits(hub: &mut Hub, id: u64) -> bool {
    matches!(next_step(hub, id), Step::Wait)
}

#[test]
fn nothing_is_sent_before_it_is_asked_for() {
    let (mut hub, ids) = hub_with(1);
    assert!(waits(&mut hub, ids[0]));
    request(&mut hub, ids[0], true);
    let plan = planned(&mut hub, ids[0]);
    // A newcomer is sent everything.
    assert_eq!(plan.rects, [Rect { x: 0, y: 0, w: 128, h: 64 }]);
    assert!(waits(&mut hub, ids[0]));
}

#[test]
fn an_update_brings_what_is_dirty_and_a_full_one_everything() {
    let (mut hub, ids) = hub_with(1);
    request(&mut hub, ids[0], true);
    planned(&mut hub, ids[0]);

    request(&mut hub, ids[0], true);
    assert!(waits(&mut hub, ids[0]));
    hub.damage(&[Rect { x: 70, y: 3, w: 2, h: 2 }]);
    let plan = planned(&mut hub, ids[0]);
    assert_eq!(plan.rects, [Rect { x: 64, y: 0, w: 64, h: 64 }]);

    request(&mut hub, ids[0], false);
    let plan = planned(&mut hub, ids[0]);
    assert_eq!(plan.rects, [Rect { x: 0, y: 0, w: 128, h: 64 }]);
    assert!(!state(&hub, ids[0]).has_work());
}

#[test]
fn input_goes_to_the_display_within_the_screen() {
    let (mut hub, ids) = hub_with(1);
    let key = ClientMessage::Key { down: true, keysym: 97 };
    let effect = handle_message(&mut hub, ids[0], &key, false, true);
    assert!(matches!(effect, Effect::Key { keysym: 97, down: true }));
    let far = ClientMessage::Pointer { mask: 1, x: 500, y: 12 };
    let effect = handle_message(&mut hub, ids[0], &far, false, true);
    assert!(matches!(effect, Effect::Pointer { x: 127, y: 12, mask: 1 }));
}

#[test]
fn viewers_only_look() {
    let (mut hub, ids) = hub_with(2);
    for msg in [
        ClientMessage::Key { down: true, keysym: 97 },
        ClientMessage::Pointer { mask: 1, x: 5, y: 5 },
        ClientMessage::CutText(b"no".to_vec()),
        ClientMessage::SetDesktopSize { width: 64, height: 64 },
    ] {
        assert!(matches!(handle_message(&mut hub, ids[0], &msg, true, true), Effect::Nothing));
    }
    assert!(hub.clipboard.is_none());
    assert!(state(&hub, ids[1]).clipboard.is_none());
}

#[test]
fn cut_text_reaches_the_display_and_the_others() {
    let (mut hub, ids) = hub_with(2);
    let msg = ClientMessage::CutText(vec![b'o', 0xe9]);
    match handle_message(&mut hub, ids[0], &msg, false, false) {
        Effect::SetClipboard(text) => assert_eq!(text, "o\u{e9}"),
        _ => panic!("the display is not told"),
    }
    assert!(state(&hub, ids[0]).clipboard.is_none());
    let plan = planned(&mut hub, ids[1]);
    let mut msg = Vec::new();
    assert!(clipboard_messages(&plan, &mut msg));
    assert_eq!(msg, [3, 0, 0, 0, 0, 0, 0, 2, b'o', 0xe9]);
}

#[test]
fn another_pixel_format_means_everything_again() {
    let (mut hub, ids) = hub_with(1);
    request(&mut hub, ids[0], true);
    planned(&mut hub, ids[0]);
    let pf = PixelFormat { big_endian: true, ..PixelFormat::default_rgb() };
    handle_message(&mut hub, ids[0], &ClientMessage::SetPixelFormat(pf), false, false);
    request(&mut hub, ids[0], true);
    let plan = planned(&mut hub, ids[0]);
    assert_eq!(plan.pf, pf);
    assert_eq!(plan.rects, [Rect { x: 0, y: 0, w: 128, h: 64 }]);
}

fn resizing_client() -> (Hub, u64) {
    let (mut hub, ids) = hub_with(1);
    let caps = Caps { ext_desktop_size: true, ..Caps::default() };
    handle_message(&mut hub, ids[0], &ClientMessage::SetEncodings(caps), false, true);
    (hub, ids[0])
}

#[test]
fn resizing_is_announced_asked_for_and_acknowledged() {
    let (mut hub, id) = resizing_client();
    assert_eq!(planned(&mut hub, id).resize, Some(0));

    let ask = ClientMessage::SetDesktopSize { width: 64, height: 32 };
    let effect = handle_message(&mut hub, id, &ask, false, true);
    assert!(matches!(effect, Effect::Resize { width: 64, height: 32 }));
    finish_resize(&mut hub, id, Some((64, 32)));
    assert_eq!(hub.dimensions(), (64, 32));
    let plan = planned(&mut hub, id);
    assert_eq!(plan.resize, Some(1));
    assert_eq!(plan.rects, [Rect { x: 0, y: 0, w: 64, h: 32 }]);

    // A display that refuses leaves the size as it is, and says so.
    finish_resize(&mut hub, id, None);
    assert_eq!(hub.dimensions(), (64, 32));
    assert_eq!(planned(&mut hub, id).resize, Some(1));

    // An empty size is not worth an answer.
    let empty = ClientMessage::SetDesktopSize { width: 0, height: 32 };
    assert!(matches!(handle_message(&mut hub, id, &empty, false, true), Effect::Nothing));
    assert!(waits(&mut hub, id));
}

#[test]
fn a_display_of_fixed_size_acknowledges_at_once() {
    let (mut hub, id) = resizing_client();
    planned(&mut hub, id);
    let ask = ClientMessage::SetDesktopSize { width: 64, height: 32 };
    assert!(matches!(handle_message(&mut hub, id, &ask, false, false), Effect::Nothing));
    assert_eq!(planned(&mut hub, id).resize, Some(1));
}

#[test]
fn a_closed_session_is_over() {
    let (mut hub, ids) = hub_with(1);
    let at = hub.find(ids[0]).unwrap();
    hub.clients[at].close();
    assert!(matches!(next_step(&mut hub, ids[0]), Step::Closed));
    hub.unregister(ids[0]);
    assert_eq!(hub.client_count(), 0);
    assert_eq!(hub.find(ids[0]), None);
}

/// A message of the extended clipboard taken apart: flags and data.
fn ext_parts(b: &[u8]) -> (u32, &[u8], &[u8]) {
    assert_eq!(b[..4], [3, 0, 0, 0]);
    let len = i32::from_be_bytes([b[4], b[5], b[6], b[7]]);
    let end = 8 + (-len) as usize;
    (u32::from_be_bytes([b[8], b[9], b[10], b[11]]), &b[12..end], &b[end..])
}

fn messages(hub: &mut Hub, id: u64) -> Vec<u8> {
    let plan = planned(hub, id);
    let mut msg = Vec::new();
    assert!(clipboard_messages(&plan, &mut msg));
    msg
}

#[test]
fn text_of_any_script_goes_from_one_client_to_another() {
    let (mut hub, ids) = hub_with(2);
    let caps = Caps { ext_clipboard: true, ..Caps::default() };
    for id in &ids {
        handle_message(&mut hub, *id, &ClientMessage::SetEncodings(caps), false, false);
        let hello = messages(&mut hub, *id);
        let (flags, data, rest) = ext_parts(&hello);
        assert_eq!(flags, 0x1f00_0001);
        assert_eq!(data, [0, 0x10, 0, 0]);
        // There is no text yet.
        assert_eq!(ext_parts(rest).0, 0x0800_0000);
    }

    // The first client has text: it is asked for it.
    let notice = ClientMessage::Extended { flags: 0x0800_0001, data: Vec::new() };
    handle_message(&mut hub, ids[0], &notice, false, false);
    assert_eq!(ext_parts(&messages(&mut hub, ids[0])).0, 0x0200_0001);

    // Text copied on the display is provided to whoever asks.
    hub.broadcast_text("\u{65e5}\u{672c}\n\u{1f389}", Some(ids[0]));
    assert_eq!(ext_parts(&messages(&mut hub, ids[1])).0, 0x0800_0001);
    let ask = ClientMessage::Extended { flags: 0x0200_0001, data: Vec::new() };
    handle_message(&mut hub, ids[1], &ask, false, false);
    let wire = messages(&mut hub, ids[1]);
    let (flags, data, rest) = ext_parts(&wire);
    assert_eq!(flags, 0x1000_0001);
    assert!(rest.is_empty());

    // And what is provided reads back as it was.
    let provided = ClientMessage::Extended { flags, data: data.to_vec() };
    match handle_message(&mut hub, ids[0], &provided, false, false) {
        Effect::SetClipboard(text) => assert_eq!(text, "\u{65e5}\u{672c}\n\u{1f389}"),
        _ => panic!("no text came through"),
    }
    assert_eq!(hub.text.as_deref(), Some("\u{65e5}\u{672c}\n\u{1f389}"));
    assert_eq!(hub.clipboard.as_deref(), Some(&b"??\n?"[..]));
}

#[test]
fn spoilt_text_is_dropped() {
    let (mut hub, ids) = hub_with(1);
    let spoilt = ClientMessage::Extended { flags: 0x1000_0001, data: vec![1, 2, 3] };
    assert!(matches!(
        handle_message(&mut hub, ids[0], &spoilt, false, false),
        Effect::Nothing
    ));
    assert!(hub.text.is_none());
}

#[test]
fn a_writer_puts_a_plan_on_the_wire() {
    let (mut hub, ids) = hub_with(1);
    request(&mut hub, ids[0], true);
    let plan = planned(&mut hub, ids[0]);
    let mut msg = Vec::new();
    assert!(Writer::new().update_message(&plan, &hub.frame, &hub.cursor, &mut msg));
    // One raw rectangle of 128x64 pixels, four bytes each.
    assert_eq!(msg[..16], [0, 0, 0, 1, 0, 0, 0, 0, 0, 128, 0, 64, 0, 0, 0, 0]);
    assert_eq!(msg.len(), 16 + 128 * 64 * 4);
}

#[test]
fn line_ends_are_made_to_fit() {
    assert_eq!(end_in_lf("a\r\nb\rc\n"), "a\nb\rc\n");
    assert_eq!(read_provided(b"\x00\x00\x00\x05a\r\nb\x00rest").as_deref(), Some("a\nb"));
    assert_eq!(read_provided(b"\x00\x00\x00\x02\xc3\xa9").as_deref(), Some("\u{e9}"));
    assert_eq!(read_provided(b"\x00\x00\x00\x05a").as_deref(), None);
    assert_eq!(read_provided(b"\x00\x10\x00\x01").as_deref(), None);
    assert_eq!(read_action(0x0400_0000), ExtAction::Peek);
    assert_eq!(read_action(0x0100_0001), ExtAction::Caps);
    assert_eq!(read_action(0x0200_0000), ExtAction::Other);
}

#[test]
fn long_text_comes_through_whole() {
    let (mut hub, ids) = hub_with(1);
    let caps = Caps { ext_clipboard: true, ..Caps::default() };
    handle_message(&mut hub, ids[0], &ClientMessage::SetEncodings(caps), false, false);
    messages(&mut hub, ids[0]);
    let ask = ClientMessage::Extended { flags: 0x0200_0001, data: Vec::new() };
    let mut seed = 7u32;
    for n in (1..40).map(|k| k * 2_311) {
        let text: String = (0..n)
            .map(|_| {
                seed = seed.wrapping_mul(1_664_525).wrapping_add(1_013_904_223);
                char::from_u32(0x4e00 + (seed >> 8) % 0x5000).unwrap()
            })
            .collect();
        hub.broadcast_text(&text, Some(ids[0]));
        handle_message(&mut hub, ids[0], &ask, false, false);
        let wire = messages(&mut hub, ids[0]);
        let (flags, data, _) = ext_parts(&wire);
        let provided = ClientMessage::Extended { flags, data: data.to_vec() };
        match handle_message(&mut hub, ids[0], &provided, false, false) {
            Effect::SetClipboard(got) => assert!(got == text, "{n} characters"),
            _ => panic!("no text came through"),
        }
    }
}

#[test]
fn a_client_is_told_of_everything_at_once() {
    let mut hub = Hub::new(1, 1);
    let id = hub.register();
    let st = &mut hub.clients[0].state;
    st.caps.cursor = true;
    st.caps.ext_desktop_size = true;
    st.pending_resize = Some(1);
    st.want_update = true;
    let plan = planned(&mut hub, id);
    let mut msg = Vec::new();
    assert!(Writer::new().update_message(&plan, &hub.frame, &hub.cursor, &mut msg));
    let mut want = vec![0, 0, 0, 3];
    want.extend([0, 1, 0, 0, 0, 1, 0, 1, 255, 255, 254, 204, 1, 0, 0, 0, 0, 0, 0, 1]);
    want.extend([0, 0, 0, 0, 0, 1, 0, 1, 0, 0, 0, 0]);
    want.extend([0, 0, 0, 0, 0, 0, 0, 0, 255, 255, 255, 17]);
    want.extend([0, 0, 0, 0, 0, 1, 0, 1, 0, 0, 0, 0, 0, 0, 0, 0]);
    assert_eq!(msg, want);
}
