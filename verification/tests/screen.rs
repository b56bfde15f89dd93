use rvnc::screen::{CursorImage, Frame, Hub, LinkState, Rect, TileMap};

#[test]
fn tiles_cover_rect() {
    let mut t = TileMap::new(200, 200);
    t.add_rect(Rect { x: 10, y: 10, w: 1, h: 1 });
    assert!(!t.is_empty());
    let rects = t.take_rects(200, 200);
    assert_eq!(rects, vec![Rect { x: 0, y: 0, w: 64, h: 64 }]);
    assert!(t.is_empty());
}

#[test]
fn full_screen_merges_into_one_rect() {
    let mut t = TileMap::new(640, 480);
    t.set_all();
    let rects = t.take_rects(640, 480);
    assert_eq!(rects, vec![Rect { x: 0, y: 0, w: 640, h: 480 }]);
}

#[test]
fn edge_tiles_are_clamped() {
    let mut t = TileMap::new(100, 100);
    t.add_rect(Rect { x: 90, y: 90, w: 10, h: 10 });
    let rects = t.take_rects(100, 100);
    assert_eq!(rects, vec![Rect { x: 64, y: 64, w: 36, h: 36 }]);
}

#[test]
fn separate_regions_stay_separate() {
    let mut t = TileMap::new(640, 480);
    t.add_rect(Rect { x: 0, y: 0, w: 10, h: 10 });
    t.add_rect(Rect { x: 500, y: 400, w: 10, h: 10 });
    let rects = t.take_rects(640, 480);
    assert_eq!(rects.len(), 2);
    assert!(t.is_empty());
}

#[test]
fn clipping_trims_and_drops_rects_a_resize_left_behind() {
    let r = Rect { x: 0, y: 0, w: 1440, h: 900 };
    assert_eq!(r.clip(800, 600), Some(Rect { x: 0, y: 0, w: 800, h: 600 }));
    // Wholly outside the new screen: nothing to send.
    assert_eq!(Rect { x: 1024, y: 0, w: 64, h: 64 }.clip(800, 600), None);
    assert_eq!(Rect { x: 0, y: 768, w: 64, h: 64 }.clip(800, 600), None);
    // Already inside: untouched.
    assert_eq!(r.clip(1920, 1200), Some(r));
}

#[test]
fn tiles_beyond_a_shrunken_screen_are_dropped_not_wrapped() {
    // The map still describes 1440x900 while the screen is down to 800x600,
    // which is exactly what a client resize leaves behind.
    let mut t = TileMap::new(1440, 900);
    t.set_all();
    let rects = t.take_rects(800, 600);
    assert!(t.is_empty(), "every tile must still be consumed");
    for r in &rects {
        assert!(r.w > 0 && r.h > 0, "{r:?} has no area");
        assert!(
            r.x + r.w <= 800 && r.y + r.h <= 600,
            "{r:?} runs past the 800x600 screen"
        );
    }
    assert!(!rects.is_empty());
}

fn link(hub: &mut Hub, id: u64) -> &mut LinkState {
    let at = hub.find(id).unwrap();
    &mut hub.clients[at].state
}

#[test]
fn work_only_counts_what_the_client_can_receive() {
    let mut hub = Hub::new(320, 240);
    let id = hub.register();
    let st = link(&mut hub, id);
    st.dirty.clear_all();
    st.cursor_dirty = false;
    st.pending_resize = None;
    assert!(!st.has_work());

    // Without the matching pseudo-encodings these would wake the writer
    // for a message it cannot put on the wire.
    st.cursor_dirty = true;
    st.pending_resize = Some(0);
    assert!(!st.has_work());

    st.caps.cursor = true;
    assert!(st.has_work());
}

#[test]
fn resize_replaces_the_frame_and_marks_everyone() {
    let mut hub = Hub::new(320, 240);
    let a = hub.register();
    let b = hub.register();
    for id in [a, b] {
        let st = link(&mut hub, id);
        st.dirty.clear_all();
        st.pending_resize = None;
    }

    hub.resize(640, 480, Some(a));
    assert_eq!(hub.dimensions(), (640, 480));
    // The client that asked is told so; the other sees a foreign resize.
    assert_eq!(link(&mut hub, a).pending_resize, Some(1));
    assert_eq!(link(&mut hub, b).pending_resize, Some(2));
    assert!(!link(&mut hub, a).dirty.is_empty());

    // A no-op resize does not disturb anyone.
    link(&mut hub, b).pending_resize = None;
    hub.resize(640, 480, None);
    assert_eq!(link(&mut hub, b).pending_resize, None);
}

#[test]
fn clipboard_skips_the_client_it_came_from() {
    let mut hub = Hub::new(320, 240);
    let a = hub.register();
    let b = hub.register();
    hub.broadcast_clipboard(b"hi", Some(a));
    assert!(link(&mut hub, a).clipboard.is_none());
    assert_eq!(link(&mut hub, b).clipboard.as_ref(), Some(&b"hi".to_vec()));

    // Someone joining later still receives what is on the clipboard.
    let c = hub.register();
    assert_eq!(link(&mut hub, c).clipboard.as_ref(), Some(&b"hi".to_vec()));
}

#[test]
fn damage_reaches_registered_clients() {
    let mut hub = Hub::new(320, 240);
    let id = hub.register();
    link(&mut hub, id).dirty.clear_all();
    hub.damage(&[Rect { x: 0, y: 0, w: 8, h: 8 }]);
    assert!(!link(&mut hub, id).dirty.is_empty());
    hub.unregister(id);
    assert!(!hub.has_clients());
}

fn marked(rects: &[Rect], width: u32, height: u32) -> Vec<u32> {
    let mut hits = vec![0; (width * height) as usize];
    for r in rects {
        for y in r.y..r.y + r.h {
            for x in r.x..r.x + r.w {
                hits[(y * width + x) as usize] += 1;
            }
        }
    }
    hits
}

#[test]
fn every_dirty_pixel_is_sent_exactly_once() {
    let (width, height) = (300, 200);
    let mut t = TileMap::new(width, height);
    let damage = [
        Rect { x: 5, y: 5, w: 70, h: 70 },
        Rect { x: 250, y: 10, w: 50, h: 150 },
        Rect { x: 130, y: 190, w: 1, h: 1 },
        Rect { x: 0, y: 0, w: 0, h: 9 },
        Rect { x: 290, y: 190, w: 500, h: 500 },
    ];
    for r in damage {
        t.add_rect(r);
    }
    let rects = t.take_rects(width, height);
    let hits = marked(&rects, width, height);
    assert!(hits.iter().all(|&n| n <= 1));
    for (i, n) in hits.iter().enumerate() {
        let (x, y) = (i as u32 % width, i as u32 / width);
        let tile = (x / 64 * 64, y / 64 * 64);
        let dirty = damage.iter().any(|r| {
            r.w > 0 && r.h > 0 && r.x < tile.0 + 64 && tile.0 < r.x + r.w && r.y < tile.1 + 64
                && tile.1 < r.y + r.h
        });
        assert_eq!(*n == 1, dirty, "at {x},{y}");
    }
    assert!(t.take_rects(width, height).is_empty());
}

#[test]
fn damage_reaches_clients_on_top_of_what_they_have() {
    let mut hub = Hub::new(200, 200);
    let id = hub.register();
    link(&mut hub, id).dirty.clear_all();
    hub.damage(&[Rect { x: 0, y: 0, w: 1, h: 1 }]);
    hub.damage(&[Rect { x: 199, y: 199, w: 1, h: 1 }]);
    let rects = link(&mut hub, id).dirty.take_rects(200, 200);
    assert_eq!(
        rects,
        [Rect { x: 0, y: 0, w: 64, h: 64 }, Rect { x: 192, y: 192, w: 8, h: 8 }]
    );
}

#[test]
fn a_new_cursor_is_for_everybody() {
    let mut hub = Hub::new(8, 8);
    let id = hub.register();
    link(&mut hub, id).cursor_dirty = false;
    let shape = CursorImage { width: 1, height: 1, hot_x: 0, hot_y: 0, argb: vec![7] };
    hub.set_cursor(Some(shape));
    assert!(link(&mut hub, id).cursor_dirty);
    assert_eq!(hub.cursor.as_ref().map(|c| c.argb[0]), Some(7));
}

#[test]
fn numbers_stand_for_one_client_each() {
    let mut hub = Hub::new(8, 8);
    let (a, b, c) = (hub.register(), hub.register(), hub.register());
    hub.unregister(b);
    hub.unregister(b);
    assert_eq!(hub.client_count(), 2);
    assert_eq!(hub.find(a), Some(0));
    assert_eq!(hub.find(c), Some(1));
    assert_eq!(hub.find(b), None);
    let d = hub.register();
    assert!(d != a && d != b && d != c);
}

#[test]
fn a_frame_holds_what_is_put_in_it() {
    let mut f = Frame::new(5, 3);
    f.put(4, 2, 9);
    f.put(0, 1, 8);
    assert_eq!(f.row(2, 3, 2), [0, 9]);
    assert_eq!(f.row(1, 0, 5), [8, 0, 0, 0, 0]);
    assert!(f.row(0, 0, 0).is_empty());
}

#[test]
fn a_text_is_latin1_to_some_and_whole_to_others() {
    let mut hub = Hub::new(8, 8);
    let id = hub.register();
    hub.broadcast_text("\u{e9}\u{65e5}", None);
    assert_eq!(link(&mut hub, id).clipboard.as_deref(), Some(&[0xe9, b'?'][..]));
    assert_eq!(hub.text.as_deref(), Some("\u{e9}\u{65e5}"));
}

#[test]
fn leaving_undoes_joining() {
    let mut hub = Hub::new(64, 64);
    let (a, b) = (hub.register(), hub.register());
    hub.broadcast_clipboard(b"one", Some(a));
    hub.broadcast_text("two", None);
    hub.damage(&[Rect { x: 0, y: 0, w: 1, h: 1 }]);
    let c = hub.register();
    assert_eq!(hub.client_count(), 3);
    assert_eq!(link(&mut hub, c).clipboard.as_deref(), Some(&b"two"[..]));
    assert!(!link(&mut hub, c).dirty.is_empty() && link(&mut hub, c).cursor_dirty);
    hub.resize(32, 32, None);
    hub.unregister(c);
    hub.unregister(c);
    hub.unregister(99);
    assert_eq!((hub.find(a), hub.find(b), hub.find(c)), (Some(0), Some(1), None));
    assert!(hub.has_clients());
}
