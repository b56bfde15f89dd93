//! What an open session does: a client's messages change the state it shares
//! with the capture of the screen, and that state says what is sent next.

use vstd::prelude::*;
use vstd::utf8::encode_utf8;

use crate::args::option_view;
use crate::bytes::low16;
use crate::clipboard::{from_latin1, latin1_of, MAX_TEXT};
use crate::pixel::PixelFormat;
use crate::rfb::ext_clipboard::{
    action_of, lemma_provided_text_reads_back, provided_text, read_action, read_provided,
    text_payload, with_crlf, ExtAction,
};
use crate::rfb::message::{ClientMessage, MessageView};
use crate::rfb::zlib::{decompresses_to, inflate, inflated};
use crate::screen::frame::{min_of, Rect};
use crate::screen::hub::{text_of, Caps, ClientLink, ClientView, ExtPending, Hub, LinkView};
use crate::screen::tiles::{
    blocks_from, grid, in_rects, lemma_rects_send_dirty_pixels_once, rects_of, tiles_across,
};

verus! {

/// What a message calls for outside the hub.
pub enum Effect {
    Nothing,
    /// Press or release a key.
    Key { keysym: u32, down: bool },
    /// Move the pointer and set its buttons.
    Pointer { x: u16, y: u16, mask: u8 },
    /// Offer text to the display.
    SetClipboard(String),
    /// Ask the display for another size.
    Resize { width: u16, height: u16 },
}

/// What a message calls for, text as a sequence.
pub enum EffectView {
    Nothing,
    Key { keysym: u32, down: bool },
    Pointer { x: u16, y: u16, mask: u8 },
    SetClipboard(Seq<char>),
    Resize { width: u16, height: u16 },
}

impl View for Effect {
    type V = EffectView;

    open spec fn view(&self) -> EffectView {
        match *self {
            Effect::Nothing => EffectView::Nothing,
            Effect::Key { keysym, down } => EffectView::Key { keysym, down },
            Effect::Pointer { x, y, mask } => EffectView::Pointer { x, y, mask },
            Effect::SetClipboard(s) => EffectView::SetClipboard(s@),
            Effect::Resize { width, height } => EffectView::Resize { width, height },
        }
    }
}

/// The last column or row of a screen, as a coordinate of the wire.
pub open spec fn last_coordinate(extent: u32) -> u16 {
    low16(
        if extent == 0 {
            0
        } else {
            extent - 1
        },
    )
}

/// What a message does to the state of the client that sent it.
pub open spec fn after_message(
    c: ClientView,
    m: MessageView,
    view_only: bool,
    can_resize: bool,
) -> ClientView {
    match m {
        MessageView::SetPixelFormat(pf) => c.woken((LinkView { pf, ..c.state.all_marked() })),
        // Announcing the current size tells the client that resizing is
        // available at all, and announcing the extended clipboard that it is.
        MessageView::SetEncodings(caps) => c.woken(
            (LinkView {
                caps,
                cursor_dirty: true,
                pending_resize: if caps.ext_desktop_size && c.state.pending_resize is None {
                    Some(0)
                } else {
                    c.state.pending_resize
                },
                ext: if caps.ext_clipboard {
                    ExtPending { announce: true, notify: true, ..c.state.ext }
                } else {
                    ExtPending::nothing()
                },
                ..c.state
            }),
        ),
        MessageView::UpdateRequest { incremental } => c.woken(
            (LinkView {
                want_update: true,
                want_full: c.state.want_full || !incremental,
                ..c.state
            }),
        ),
        MessageView::Extended { flags, data } => match action_of(flags) {
            ExtAction::Request => c.woken(
                (LinkView { ext: ExtPending { provide: true, ..c.state.ext }, ..c.state }),
            ),
            ExtAction::Peek => c.woken(
                (LinkView { ext: ExtPending { notify: true, ..c.state.ext }, ..c.state }),
            ),
            ExtAction::Notify => if view_only {
                c
            } else {
                c.woken((LinkView { ext: ExtPending { request: true, ..c.state.ext }, ..c.state }))
            },
            _ => c,
        },
        // No RandR: acknowledge with the size we still have, so the client
        // stops waiting and falls back to scaling.
        MessageView::SetDesktopSize { width, height } => if !view_only && width != 0 && height != 0
            && !can_resize {
            c.woken((LinkView { pending_resize: Some(1), ..c.state }))
        } else {
            c
        },
        _ => c,
    }
}

/// The largest message of text that is decompressed.
pub const MAX_PROVIDED: usize = 0x10_0004;

/// The clipboard text that a message brings.
pub open spec fn text_in(m: MessageView) -> Option<Seq<char>> {
    match m {
        MessageView::CutText(text) => Some(text.map_values(|b: u8| b as char)),
        MessageView::Extended { flags, data } => if action_of(flags) is Provide {
            provided_text(inflated(data, MAX_PROVIDED as int))
        } else {
            None
        },
        _ => None,
    }
}

/// What a message does to the state of another client: only clipboard text
/// reaches it.
pub open spec fn overheard(c: ClientView, m: MessageView, view_only: bool) -> ClientView {
    if view_only || text_in(m) is None {
        c
    } else {
        c.woken((LinkView { clipboard: Some(latin1_of(text_in(m)->0)), ..c.state }))
    }
}

/// What a message calls for outside the hub.
pub open spec fn effect_of(
    m: MessageView,
    width: u32,
    height: u32,
    view_only: bool,
    can_resize: bool,
) -> EffectView {
    if view_only {
        EffectView::Nothing
    } else {
        match m {
            MessageView::Key { down, keysym } => EffectView::Key { keysym, down },
            MessageView::Pointer { mask, x, y } => EffectView::Pointer {
                x: min_of(x as int, last_coordinate(width) as int) as u16,
                y: min_of(y as int, last_coordinate(height) as int) as u16,
                mask,
            },
            MessageView::CutText(_) => EffectView::SetClipboard(text_in(m)->0),
            MessageView::Extended { flags, data } => if text_in(m) is Some {
                EffectView::SetClipboard(text_in(m)->0)
            } else {
                EffectView::Nothing
            },
            MessageView::SetDesktopSize { width: w, height: h } => if w != 0 && h != 0
                && can_resize {
                EffectView::Resize { width: w, height: h }
            } else {
                EffectView::Nothing
            },
            _ => EffectView::Nothing,
        }
    }
}

fn clamp_coordinate(v: u16, extent: u32) -> (r: u16)
    ensures
        r == min_of(v as int, last_coordinate(extent) as int),
{
    let last: u16 = if extent == 0 {
        0
    } else {
        ((extent - 1) % 0x1_0000) as u16
    };
    if v <= last {
        v
    } else {
        last
    }
}

fn set_format(c: &mut ClientLink, pf: PixelFormat)
    requires
        old(c).state.dirty.wf(),
    ensures
        final(c)@ == old(c)@.woken((LinkView { pf, ..old(c)@.state.all_marked() })),
        final(c).state.dirty.wf(),
{
    c.state.pf = pf;
    c.state.dirty.set_all();
    c.wake();
}

fn set_encodings(c: &mut ClientLink, caps: Caps)
    ensures
        final(c)@ == after_message(old(c)@, MessageView::SetEncodings(caps), false, false),
        final(c).state.dirty == old(c).state.dirty,
{
    if caps.ext_desktop_size && c.state.pending_resize.is_none() {
        c.state.pending_resize = Some(0);
    }
    c.state.caps = caps;
    c.state.cursor_dirty = true;
    if caps.ext_clipboard {
        c.state.ext.announce = true;
        c.state.ext.notify = true;
    } else {
        c.state.ext = ExtPending::none();
    }
    c.wake();
}

fn take_ext(c: &mut ClientLink, flags: u32, view_only: bool)
    ensures
        final(c)@ == after_message(
            old(c)@,
            (MessageView::Extended { flags, data: Seq::empty() }),
            view_only,
            false,
        ),
        final(c).state.dirty == old(c).state.dirty,
{
    match read_action(flags) {
        ExtAction::Request => {
            c.state.ext.provide = true;
            c.wake();
        },
        ExtAction::Peek => {
            c.state.ext.notify = true;
            c.wake();
        },
        ExtAction::Notify => {
            if !view_only {
                c.state.ext.request = true;
                c.wake();
            }
        },
        _ => {},
    }
}

fn request_update(c: &mut ClientLink, incremental: bool)
    ensures
        final(c)@ == after_message(
            old(c)@,
            (MessageView::UpdateRequest { incremental }),
            false,
            false,
        ),
        final(c).state.dirty == old(c).state.dirty,
{
    c.state.want_update = true;
    if !incremental {
        c.state.want_full = true;
    }
    c.wake();
}

/// Acknowledge a resize request with the size the screen still has.
fn acknowledge(c: &mut ClientLink)
    ensures
        final(c)@ == old(c)@.woken((LinkView { pending_resize: Some(1), ..old(c)@.state })),
        final(c).state.dirty == old(c).state.dirty,
{
    c.state.pending_resize = Some(1);
    c.wake();
}

fn apply(c: &mut ClientLink, m: &ClientMessage, view_only: bool, can_resize: bool)
    requires
        old(c).state.dirty.wf(),
    ensures
        final(c)@ == after_message(old(c)@, m@, view_only, can_resize),
        final(c).state.dirty.wf(),
{
    match m {
        ClientMessage::SetPixelFormat(pf) => set_format(c, *pf),
        ClientMessage::SetEncodings(caps) => set_encodings(c, *caps),
        ClientMessage::UpdateRequest { incremental } => request_update(c, *incremental),
        ClientMessage::Extended { flags, .. } => take_ext(c, *flags, view_only),
        ClientMessage::SetDesktopSize { width, height } => {
            if !view_only && *width != 0 && *height != 0 && !can_resize {
                acknowledge(c);
            }
        },
        _ => {},
    }
}

/// Take in a client's message.
pub fn handle_message(
    hub: &mut Hub,
    id: u64,
    m: &ClientMessage,
    view_only: bool,
    can_resize: bool,
) -> (e: Effect)
    requires
        old(hub).wf(),
        old(hub).has_client(id),
        m@ matches MessageView::SetPixelFormat(pf) ==> pf.convertible(),
    ensures
        final(hub).wf(),
        final(hub).frame == old(hub).frame,
        final(hub).cursor == old(hub).cursor,
        final(hub).next_id == old(hub).next_id,
        view_only || text_in(m@) is None ==> final(hub).clipboard == old(hub).clipboard
            && final(hub).text == old(hub).text,
        !view_only && text_in(m@) is Some ==> text_of(final(hub).clipboard) == Some(
            latin1_of(text_in(m@)->0),
        ) && option_view(final(hub).text) == text_in(m@),
        final(hub).links() == old(hub).links().map_values(
            |c: ClientView|
                if c.id == id {
                    after_message(c, m@, view_only, can_resize)
                } else {
                    overheard(c, m@, view_only)
                },
        ),
        e@ == effect_of(
            m@,
            old(hub).frame.width,
            old(hub).frame.height,
            view_only,
            can_resize,
        ),
{
    let ghost want = hub.links().map_values(
        |c: ClientView|
            if c.id == id {
                after_message(c, m@, view_only, can_resize)
            } else {
                overheard(c, m@, view_only)
            },
    );
    let (width, height) = hub.dimensions();
    if !view_only {
        let text: Option<String> = brought_text(m);
        if let Some(t) = text {
            // Keep other viewers in step; taking ownership ourselves produces
            // no XFIXES notification we would see.
            hub.broadcast_text(t.as_str(), Some(id));
            assert(hub.links() =~= want);
            return Effect::SetClipboard(t);
        }
    }
    apply_to(hub, id, m, view_only, can_resize);
    assert(hub.links() =~= want);
    if view_only {
        return Effect::Nothing;
    }
    match m {
        ClientMessage::Key { down, keysym } => Effect::Key { keysym: *keysym, down: *down },
        ClientMessage::Pointer { mask, x, y } => Effect::Pointer {
            x: clamp_coordinate(*x, width),
            y: clamp_coordinate(*y, height),
            mask: *mask,
        },
        ClientMessage::SetDesktopSize { width: w, height: h } => {
            if *w != 0 && *h != 0 && can_resize {
                Effect::Resize { width: *w, height: *h }
            } else {
                Effect::Nothing
            }
        },
        _ => Effect::Nothing,
    }
}

/// The clipboard text that a message brings.
fn brought_text(m: &ClientMessage) -> (t: Option<String>)
    ensures
        option_view(t) == text_in(m@),
{
    match m {
        ClientMessage::CutText(text) => Some(from_latin1(text.as_slice())),
        ClientMessage::Extended { flags, data } => match read_action(*flags) {
            ExtAction::Provide => {
                let plain: Vec<u8> = inflate(data.as_slice(), MAX_PROVIDED);
                read_provided(plain.as_slice())
            },
            _ => None,
        },
        _ => None,
    }
}

fn apply_to(hub: &mut Hub, id: u64, m: &ClientMessage, view_only: bool, can_resize: bool)
    requires
        old(hub).wf(),
        old(hub).has_client(id),
        m@ matches MessageView::SetPixelFormat(pf) ==> pf.convertible(),
    ensures
        final(hub).wf(),
        final(hub).same_but_clients(*old(hub)),
        final(hub).links() == old(hub).links().map_values(
            |c: ClientView|
                if c.id == id {
                    after_message(c, m@, view_only, can_resize)
                } else {
                    c
                },
        ),
{
    let ghost before = *hub;
    let i: usize = hub.place_of(id);
    apply(&mut hub.clients[i], m, view_only, can_resize);
    proof {
        lemma_one_client_changed(
            before,
            *hub,
            i as int,
            |c: ClientView| after_message(c, m@, view_only, can_resize),
        );
    }
}

/// The display has answered a client's resize request: the size it took, or
/// nothing where it could not. A size that the screen already has disturbs
/// nobody.
pub fn finish_resize(hub: &mut Hub, id: u64, outcome: Option<(u16, u16)>)
    requires
        old(hub).wf(),
        old(hub).has_client(id),
    ensures
        final(hub).wf(),
        final(hub).cursor == old(hub).cursor,
        final(hub).clipboard == old(hub).clipboard,
        final(hub).text == old(hub).text,
        final(hub).next_id == old(hub).next_id,
        match outcome {
            Some((w, h)) => if old(hub).frame.width == w && old(hub).frame.height == h {
                *final(hub) == *old(hub)
            } else {
                &&& final(hub).frame.width == w
                &&& final(hub).frame.height == h
                &&& final(hub).frame.px@ == Seq::new((w * h) as nat, |i: int| 0u32)
                &&& final(hub).links() == old(hub).links().map_values(
                    |c: ClientView|
                        c.woken(
                            c.state.resized(
                                w as u32,
                                h as u32,
                                if c.id == id {
                                    1
                                } else {
                                    2
                                },
                            ),
                        ),
                )
            },
            None => {
                &&& final(hub).frame == old(hub).frame
                &&& final(hub).links() == old(hub).links().map_values(
                    |c: ClientView|
                        if c.id == id {
                            c.woken((LinkView { pending_resize: Some(1), ..c.state }))
                        } else {
                            c
                        },
                )
            },
        },
{
    let ghost before = *hub;
    let ghost links = hub.links();
    match outcome {
        Some((w, h)) => {
            proof {
                assert(w * h <= 65535 * 65535) by (nonlinear_arith)
                    requires
                        w <= 65535,
                        h <= 65535,
                ;
            }
            hub.resize(w as u32, h as u32, Some(id));
            proof {
                let want = links.map_values(
                    |c: ClientView|
                        c.woken(
                            c.state.resized(
                                w as u32,
                                h as u32,
                                if c.id == id {
                                    1
                                } else {
                                    2
                                },
                            ),
                        ),
                );
                if before.frame.width != w || before.frame.height != h {
                    assert(hub.links() =~= want);
                }
            }
        },
        None => {
            let i: usize = hub.place_of(id);
            acknowledge(&mut hub.clients[i]);
            proof {
                lemma_one_client_changed(
                    before,
                    *hub,
                    i as int,
                    |c: ClientView| c.woken((LinkView { pending_resize: Some(1), ..c.state })),
                );
            }
        },
    }
}

/// When one client of a hub changes, and keeps its number and a map of the same
/// screen, the hub stays well-formed and its other clients are as they were.
proof fn lemma_one_client_changed(
    before: Hub,
    after: Hub,
    i: int,
    change: spec_fn(ClientView) -> ClientView,
)
    requires
        before.wf(),
        after.same_but_clients(before),
        0 <= i < before.clients@.len(),
        after.clients@ == before.clients@.update(i, after.clients@[i]),
        after.clients@[i]@ == change(before.clients@[i]@),
        after.clients@[i].id == before.clients@[i].id,
        after.clients@[i].state.pf.convertible(),
        after.clients@[i].state.dirty.wf(),
        after.clients@[i].state.dirty.cols() == before.clients@[i].state.dirty.cols(),
        after.clients@[i].state.dirty.rows() == before.clients@[i].state.dirty.rows(),
    ensures
        after.wf(),
        after.links() == before.links().map_values(
            |c: ClientView|
                if c.id == before.clients@[i].id {
                    change(c)
                } else {
                    c
                },
        ),
{
    let n = before.clients@.len() as int;
    assert forall|k: int| 0 <= k < n && k != i implies #[trigger] after.clients@[k]
        == before.clients@[k] by {}
    assert(after.links() =~= before.links().map_values(
        |c: ClientView|
            if c.id == before.clients@[i].id {
                change(c)
            } else {
                c
            },
    ));
}

/// What a session is to send.
pub struct Plan {
    pub pf: PixelFormat,
    pub caps: Caps,
    pub rects: Vec<Rect>,
    pub send_cursor: bool,
    /// The reason code of a new size.
    pub resize: Option<u16>,
    pub clipboard: Option<Vec<u8>>,
    pub ext: ExtPending,
    /// The text that the clipboard holds, where there is something to say of it.
    pub text: Option<String>,
}

/// What the writing side of a session does next.
pub enum Step {
    /// The session is over.
    Closed,
    /// There is nothing to send yet.
    Wait,
    Send(Plan),
}

/// The rectangles that an update brings.
pub open spec fn planned_rects(st: LinkView, width: u32, height: u32) -> Seq<Rect> {
    if st.want_full {
        seq![Rect { x: 0, y: 0, w: width, h: height }]
    } else {
        rects_of(blocks_from(st.dirty, st.cols, st.rows, 0, 0), width, height)
    }
}

impl Plan {
    /// Everything that a client's state says is to be sent.
    pub open spec fn sends(
        self,
        st: LinkView,
        width: u32,
        height: u32,
        text: Option<Seq<char>>,
    ) -> bool {
        &&& self.pf == st.pf
        &&& self.caps == st.caps
        &&& self.rects@ == planned_rects(st, width, height)
        &&& self.send_cursor == (st.cursor_dirty && st.caps.cursor)
        &&& self.resize == (if st.caps.ext_desktop_size {
            st.pending_resize
        } else {
            None
        })
        &&& text_of(self.clipboard) == st.clipboard
        &&& self.ext == st.ext
        &&& option_view(self.text) == (if st.ext.notify || st.ext.provide {
            text
        } else {
            None
        })
    }
}

/// A client's state once everything has been taken from it.
pub open spec fn drained(st: LinkView) -> LinkView {
    LinkView {
        dirty: Set::empty(),
        cursor_dirty: false,
        want_update: false,
        want_full: false,
        pending_resize: None,
        clipboard: None,
        ext: ExtPending::nothing(),
        ..st
    }
}

fn copy_string(s: &Option<String>) -> (r: Option<String>)
    ensures
        option_view(r) == option_view(*s),
{
    match s {
        Some(t) => Some(t.clone()),
        None => None,
    }
}

fn take_plan(c: &mut ClientLink, width: u32, height: u32, text: &Option<String>) -> (p: Plan)
    requires
        old(c).state.dirty.wf(),
    ensures
        p.sends(old(c)@.state, width, height, option_view(*text)),
        final(c)@ == (ClientView { state: drained(old(c)@.state), ..old(c)@ }),
        final(c).state.dirty.wf(),
{
    let rects: Vec<Rect> = if c.state.want_full {
        c.state.dirty.clear_all();
        let all: Vec<Rect> = vec![Rect { x: 0, y: 0, w: width, h: height }];
        assert(all@ =~= planned_rects(old(c)@.state, width, height));
        all
    } else {
        c.state.dirty.take_rects(width, height)
    };
    let send_cursor: bool = c.state.cursor_dirty && c.state.caps.cursor;
    let resize: Option<u16> = if c.state.caps.ext_desktop_size {
        c.state.pending_resize
    } else {
        None
    };
    c.state.pending_resize = None;
    let clipboard: Option<Vec<u8>> = c.state.clipboard.take();
    c.state.cursor_dirty = false;
    c.state.want_update = false;
    c.state.want_full = false;
    let ext: ExtPending = c.state.ext;
    c.state.ext = ExtPending::none();
    let text: Option<String> = if ext.notify || ext.provide {
        copy_string(text)
    } else {
        None
    };
    Plan { pf: c.state.pf, caps: c.state.caps, rects, send_cursor, resize, clipboard, ext, text }
}

/// What a session sends next, which is then no longer waiting to be sent.
pub fn next_step(hub: &mut Hub, id: u64) -> (s: Step)
    requires
        old(hub).wf(),
        old(hub).has_client(id),
    ensures
        final(hub).wf(),
        final(hub).same_but_clients(*old(hub)),
        ({
            let st = old(hub).client(id).state;
            match s {
                Step::Closed => st.closed && *final(hub) == *old(hub),
                Step::Wait => !st.closed && !st.ready() && *final(hub) == *old(hub),
                Step::Send(plan) => {
                    &&& !st.closed && st.ready()
                    &&& plan.sends(
                        st,
                        old(hub).frame.width,
                        old(hub).frame.height,
                        option_view(old(hub).text),
                    )
                    &&& plan.pf.convertible()
                    &&& final(hub).links() == old(hub).links().map_values(
                        |c: ClientView|
                            if c.id == id {
                                ClientView { state: drained(c.state), ..c }
                            } else {
                                c
                            },
                    )
                },
            }
        }),
{
    let (width, height) = hub.dimensions();
    let i: usize = hub.place_of(id);
    proof {
        hub.lemma_client(i as int);
    }
    if hub.clients[i].state.closed {
        return Step::Closed;
    }
    if !hub.clients[i].state.ready() {
        return Step::Wait;
    }
    let ghost before = *hub;
    let plan = take_plan(&mut hub.clients[i], width, height, &hub.text);
    proof {
        lemma_one_client_changed(
            before,
            *hub,
            i as int,
            |c: ClientView| ClientView { state: drained(c.state), ..c },
        );
    }
    Step::Send(plan)
}

/// A session wakes up only for something to send: a message about the
/// clipboard, a new size, the cursor or a rectangle with an area.
pub proof fn lemma_ready_means_something_to_send(st: LinkView, width: u32, height: u32)
    requires
        st.ready(),
        st.cols == tiles_across(width as int),
        st.rows == tiles_across(height as int),
        st.dirty.subset_of(grid(st.cols, st.rows)),
    ensures
        ({
            ||| st.clipboard is Some
            ||| st.ext != ExtPending::nothing()
            ||| st.caps.ext_desktop_size && st.pending_resize is Some
            ||| st.cursor_dirty && st.caps.cursor
            ||| planned_rects(st, width, height).len() > 0
        }),
{
    if !st.want_full && st.dirty != Set::<(int, int)>::empty() {
        if forall|t: (int, int)| !st.dirty.contains(t) {
            assert(st.dirty =~= Set::<(int, int)>::empty());
        }
        let t = choose|t: (int, int)| st.dirty.contains(t);
        assert(st.dirty.contains(t));
        assert(grid(st.cols, st.rows).contains(t));
        let (px, py) = (t.0 * 64, t.1 * 64);
        lemma_rects_send_dirty_pixels_once(st.dirty, st.cols, st.rows, width, height);
        assert((px / 64, py / 64) == t);
        assert(0 <= px < width && 0 <= py < height);
        assert(in_rects(planned_rects(st, width, height), px, py));
    }
}

/// An update brings every pixel of the screen that is dirty, or all of them
/// where the client asked for that, and nothing beyond the screen.
pub proof fn lemma_update_brings_every_dirty_pixel(
    st: LinkView,
    width: u32,
    height: u32,
    px: int,
    py: int,
)
    requires
        st.cols == tiles_across(width as int),
        st.rows == tiles_across(height as int),
        st.dirty.subset_of(grid(st.cols, st.rows)),
    ensures
        in_rects(planned_rects(st, width, height), px, py) <==> 0 <= px < width && 0 <= py < height
            && (st.want_full || st.dirty.contains((px / 64, py / 64))),
{
    let rs = planned_rects(st, width, height);
    if st.want_full {
        assert(rs[0].has(px, py) <==> 0 <= px < width && 0 <= py < height);
    } else {
        lemma_rects_send_dirty_pixels_once(st.dirty, st.cols, st.rows, width, height);
    }
}

/// Once everything has been taken, nothing is left to send.
pub proof fn lemma_drained_has_no_work(st: LinkView)
    ensures
        !drained(st).has_work(),
        !drained(st).ready(),
        drained(drained(st)) == drained(st),
{
}

/// Text that a client provides arrives as it was, whatever script it is in, if
/// it is not too large and its lines end in line feeds.
pub proof fn lemma_provided_text_arrives(z: Seq<u8>, text: Seq<char>, width: u32, height: u32)
    requires
        decompresses_to(z, text_payload(text)),
        forall|i: int| 0 <= i < text.len() ==> #[trigger] text[i] != '\r',
        encode_utf8(with_crlf(text)).len() < MAX_TEXT,
    ensures
        ({
            let m = MessageView::Extended { flags: 0x1000_0001, data: z };
            &&& text_in(m) == Some(text)
            &&& effect_of(m, width, height, false, false) == EffectView::SetClipboard(text)
        }),
{
    lemma_provided_text_reads_back(text);
    assert(inflated(z, MAX_PROVIDED as int) == text_payload(text));
}

/// With a viewer that may only look, no message reaches the display or the
/// other clients.
pub proof fn lemma_viewers_only_look(
    m: MessageView,
    width: u32,
    height: u32,
    can_resize: bool,
    c: ClientView,
)
    ensures
        effect_of(m, width, height, true, can_resize) is Nothing,
        overheard(c, m, true) == c,
{
}

/// What a client does reaches the display: its keys as they are, its pointer as it is
/// where that is on the screen and at the edge where it is beyond, its text character
/// by character, and a new size that can be had. Its other messages are not for the
/// display.
pub proof fn lemma_input_reaches_the_display(
    m: MessageView,
    width: u32,
    height: u32,
    can_resize: bool,
)
    requires
        0 < width <= 0x1_0000,
        0 < height <= 0x1_0000,
    ensures
        ({
            let e = effect_of(m, width, height, false, can_resize);
            match m {
                MessageView::Key { down, keysym } => e == (EffectView::Key { keysym, down }),
                MessageView::Pointer { mask, x, y } => e matches EffectView::Pointer {
                    x: px,
                    y: py,
                    mask: buttons,
                } && {
                    &&& buttons == mask
                    &&& px == (if x < width {
                        x as int
                    } else {
                        width - 1
                    })
                    &&& py == (if y < height {
                        y as int
                    } else {
                        height - 1
                    })
                },
                MessageView::CutText(text) => e matches EffectView::SetClipboard(s) && s.len()
                    == text.len() && forall|i: int|
                    0 <= i < s.len() ==> (#[trigger] s[i]) as u32 == text[i],
                MessageView::SetDesktopSize { width: w, height: h } => if w != 0 && h != 0
                    && can_resize {
                    e == (EffectView::Resize { width: w, height: h })
                } else {
                    e is Nothing
                },
                MessageView::Extended { flags, data } => e is Nothing || e is SetClipboard,
                _ => e is Nothing,
            }
        }),
{
    match m {
        MessageView::CutText(text) => {
            let s = text.map_values(|b: u8| b as char);
            assert forall|i: int| 0 <= i < s.len() implies (#[trigger] s[i]) as u32 == text[i] by {
                let x: u8 = text[i];
                let c: char = x as char;
                assert(c as u32 == x);
            }
        },
        _ => {},
    }
}

/// A client that asks for the whole screen is sent the whole screen, and one that
/// changes its pixel format is too, in that format; one that asks for what has changed
/// has what it had waiting. Nothing else of its state changes.
pub proof fn lemma_requests_are_met(
    c: ClientView,
    pf: PixelFormat,
    width: u32,
    height: u32,
    px: int,
    py: int,
    view_only: bool,
    can_resize: bool,
)
    requires
        c.state.cols == tiles_across(width as int),
        c.state.rows == tiles_across(height as int),
        0 <= px < width,
        0 <= py < height,
    ensures
        ({
            let all = after_message(
                c,
                (MessageView::UpdateRequest { incremental: false }),
                view_only,
                can_resize,
            );
            &&& all.notified && all.id == c.id
            &&& all.state.ready()
            &&& in_rects(planned_rects(all.state, width, height), px, py)
            &&& all.state == (LinkView { want_update: true, want_full: true, ..c.state })
        }),
        ({
            let more = after_message(
                c,
                (MessageView::UpdateRequest { incremental: true }),
                view_only,
                can_resize,
            );
            &&& more.notified && more.id == c.id
            &&& planned_rects(more.state, width, height) == planned_rects(c.state, width, height)
            &&& more.state == (LinkView { want_update: true, ..c.state })
        }),
        ({
            let other = after_message(c, MessageView::SetPixelFormat(pf), view_only, can_resize);
            &&& other.notified && other.id == c.id
            &&& other.state.pf == pf
            &&& in_rects(planned_rects(other.state, width, height), px, py)
            &&& other.state == (LinkView { pf, dirty: other.state.dirty, ..c.state })
        }),
{
    let all = after_message(
        c,
        (MessageView::UpdateRequest { incremental: false }),
        view_only,
        can_resize,
    );
    assert(planned_rects(all.state, width, height)[0].has(px, py));
    let other = after_message(c, MessageView::SetPixelFormat(pf), view_only, can_resize);
    let (cols, rows) = (c.state.cols, c.state.rows);
    if other.state.want_full {
        assert(planned_rects(other.state, width, height)[0].has(px, py));
    } else {
        lemma_rects_send_dirty_pixels_once(grid(cols, rows), cols, rows, width, height);
        assert(grid(cols, rows).contains((px / 64, py / 64)));
    }
}

/// A client that lists encodings is served by them from then on, is sent the cursor
/// again, is told the size of the screen if it can take a new one, and if it has the
/// extended clipboard, what can be done with it and whether there is text. One without
/// it is told nothing of the kind any more. The pixels it has waiting stay.
pub proof fn lemma_encodings_are_taken_up(
    c: ClientView,
    caps: Caps,
    view_only: bool,
    can_resize: bool,
)
    ensures
        ({
            let st = after_message(c, MessageView::SetEncodings(caps), view_only, can_resize).state;
            &&& st.caps == caps
            &&& st.cursor_dirty
            &&& caps.ext_desktop_size ==> st.pending_resize is Some
            &&& c.state.pending_resize is Some || !caps.ext_desktop_size ==> st.pending_resize
                == c.state.pending_resize
            &&& c.state.pending_resize is None && caps.ext_desktop_size ==> st.pending_resize
                == Some(0u16)
            &&& caps.ext_clipboard ==> st.ext.announce && st.ext.notify && st.ext.request
                == c.state.ext.request && st.ext.provide == c.state.ext.provide
            &&& !caps.ext_clipboard ==> !st.ext.announce && !st.ext.notify && !st.ext.request
                && !st.ext.provide
            &&& st.dirty == c.state.dirty && st.cols == c.state.cols && st.rows == c.state.rows
            &&& st.pf == c.state.pf && st.want_update == c.state.want_update && st.want_full
                == c.state.want_full
            &&& st.closed == c.state.closed && st.clipboard == c.state.clipboard
        }),
{
}

/// Of the extended clipboard, a request is met with our text, a question with notice of
/// it, and notice of a client's text with a request for it, unless the client may only
/// look. A new size that cannot be had is answered with the one the screen has.
pub proof fn lemma_clipboard_messages_are_answered(
    c: ClientView,
    flags: u32,
    data: Seq<u8>,
    width: u16,
    height: u16,
    view_only: bool,
    can_resize: bool,
)
    ensures
        ({
            let m = MessageView::Extended { flags, data };
            let st = after_message(c, m, view_only, can_resize).state;
            let a = action_of(flags);
            &&& st.ext.provide == (c.state.ext.provide || a is Request)
            &&& st.ext.notify == (c.state.ext.notify || a is Peek)
            &&& st.ext.request == (c.state.ext.request || a is Notify && !view_only)
            &&& st.ext.announce == c.state.ext.announce
            &&& st == (LinkView { ext: st.ext, ..c.state })
        }),
        ({
            let m = MessageView::SetDesktopSize { width, height };
            let st = after_message(c, m, view_only, can_resize).state;
            if !view_only && !can_resize && width != 0 && height != 0 {
                st == (LinkView { pending_resize: Some(1u16), ..c.state })
            } else {
                st == c.state
            }
        }),
{
}

/// Keys, the pointer and text change nothing of what the client itself has waiting; text
/// is what the other clients are sent, in Latin-1, and nothing else of one client's
/// messages reaches another.
pub proof fn lemma_others_hear_only_text(
    c: ClientView,
    keysym: u32,
    down: bool,
    mask: u8,
    x: u16,
    y: u16,
    text: Seq<u8>,
    view_only: bool,
    can_resize: bool,
)
    ensures
        after_message(c, (MessageView::Key { down, keysym }), view_only, can_resize) == c,
        after_message(c, (MessageView::Pointer { mask, x, y }), view_only, can_resize) == c,
        after_message(c, MessageView::CutText(text), view_only, can_resize) == c,
        overheard(c, (MessageView::Key { down, keysym }), view_only) == c,
        overheard(c, (MessageView::Pointer { mask, x, y }), view_only) == c,
        overheard(c, MessageView::CutText(text), view_only) == (if view_only {
            c
        } else {
            ClientView {
                state: LinkView { clipboard: Some(text), ..c.state },
                notified: true,
                ..c
            }
        }),
{
    crate::clipboard::lemma_latin1_round_trip(text, seq![]);
}

/// What is sent is what was waiting: in the client's format and by its encodings, the
/// cursor if it changed and can be drawn, a new size if it can be told, text and words
/// about it as they are; and taking it leaves the client's choices as they were.
pub proof fn lemma_plan_is_what_was_waiting(
    p: Plan,
    st: LinkView,
    width: u32,
    height: u32,
    text: Option<Seq<char>>,
)
    requires
        p.sends(st, width, height, text),
    ensures
        p.pf == st.pf && p.caps == st.caps && p.ext == st.ext,
        p.rects@ == planned_rects(st, width, height),
        p.send_cursor <==> st.cursor_dirty && st.caps.cursor,
        p.resize is Some <==> st.pending_resize is Some && st.caps.ext_desktop_size,
        p.resize is Some ==> p.resize == st.pending_resize,
        p.clipboard is Some <==> st.clipboard is Some,
        p.clipboard is Some ==> (p.clipboard->0)@ == st.clipboard->0,
        p.text is Some <==> text is Some && (st.ext.notify || st.ext.provide),
        p.text is Some ==> (p.text->0)@ == text->0,
        drained(st).pf == st.pf && drained(st).caps == st.caps && drained(st).closed == st.closed,
        drained(st).cols == st.cols && drained(st).rows == st.rows,
{
}

/// Text that one client brings reaches the others in Latin-1, whatever kind of message it
/// came in, and wakes them; their other state is as it was.
pub proof fn lemma_text_is_overheard(c: ClientView, m: MessageView)
    ensures
        ({
            let heard = overheard(c, m, false);
            &&& text_in(m) is Some ==> heard.notified && heard.id == c.id && heard.state
                == (LinkView { clipboard: Some(latin1_of(text_in(m)->0)), ..c.state })
            &&& text_in(m) is None ==> heard == c
            &&& m is CutText ==> text_in(m) is Some
            &&& text_in(m) is Some ==> m is CutText || m is Extended
        }),
{
}

} // verus!
