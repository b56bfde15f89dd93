//! The hand-off point between the capture of the screen and client sessions.

use vstd::prelude::*;

use crate::args::option_view;
use crate::bytes::copy_bytes;
use crate::clipboard::{from_latin1, latin1_of, to_latin1};
use crate::pixel::PixelFormat;
use crate::screen::frame::{CursorImage, Frame, Rect};
use crate::screen::tiles::{
    blocks_from, grid, in_rects, lemma_damage_marks_its_pixels, lemma_damage_marks_no_other_tile,
    lemma_full_map_sends_everything, lemma_rects_send_dirty_pixels_once, rects_of, tiles_across,
    touched, TileMap,
};

verus! {

/// Which encodings the client asked for.
#[derive(Clone, Copy, Debug, PartialEq, Eq, Structural)]
pub struct Caps {
    pub zrle: bool,
    pub cursor: bool,
    pub last_rect: bool,
    pub desktop_size: bool,
    pub ext_desktop_size: bool,
    pub ext_clipboard: bool,
    pub copy_rect: bool,
}

impl Caps {
    /// No encoding but the one every client has.
    pub open spec fn none() -> Caps {
        Caps {
            zrle: false,
            cursor: false,
            last_rect: false,
            desktop_size: false,
            ext_desktop_size: false,
            ext_clipboard: false,
            copy_rect: false,
        }
    }
}

impl Default for Caps {
    fn default() -> (c: Self)
        ensures
            c == Caps::none(),
    {
        Caps {
            zrle: false,
            cursor: false,
            last_rect: false,
            desktop_size: false,
            ext_desktop_size: false,
            ext_clipboard: false,
            copy_rect: false,
        }
    }
}

/// Messages of the extended clipboard that are to be sent.
#[derive(Clone, Copy, Debug, PartialEq, Eq, Structural)]
pub struct ExtPending {
    /// What we can do.
    pub announce: bool,
    /// A request for the client's text.
    pub request: bool,
    /// Notice of whether we have text.
    pub notify: bool,
    /// Our text.
    pub provide: bool,
}

impl ExtPending {
    /// Nothing to send.
    pub open spec fn nothing() -> ExtPending {
        ExtPending { announce: false, request: false, notify: false, provide: false }
    }

    pub fn none() -> (e: Self)
        ensures
            e == ExtPending::nothing(),
    {
        ExtPending { announce: false, request: false, notify: false, provide: false }
    }

    pub fn any(&self) -> (b: bool)
        ensures
            b == (*self != ExtPending::nothing()),
    {
        self.announce || self.request || self.notify || self.provide
    }
}

/// Everything a session waits on: damage, cursor changes, client requests and
/// shutdown.
pub struct LinkState {
    pub dirty: TileMap,
    pub cursor_dirty: bool,
    pub closed: bool,
    /// Set by the client's `FramebufferUpdateRequest`.
    pub want_update: bool,
    /// The pending request was non-incremental: resend everything.
    pub want_full: bool,
    pub pf: PixelFormat,
    pub caps: Caps,
    /// Set when the screen changed size: the value is the RFB "reason" code
    /// (0 server-initiated, 1 this client asked, 2 another client asked).
    pub pending_resize: Option<u16>,
    /// Clipboard text waiting to go out, already in Latin-1.
    pub clipboard: Option<Vec<u8>>,
    pub ext: ExtPending,
}

/// Text that may be there.
pub open spec fn text_of(t: Option<Vec<u8>>) -> Option<Seq<u8>> {
    match t {
        Some(v) => Some(v@),
        None => None,
    }
}

/// What a session waits on, with the map as a set of tiles.
#[verifier::ext_equal]
pub struct LinkView {
    pub dirty: Set<(int, int)>,
    pub cols: int,
    pub rows: int,
    pub cursor_dirty: bool,
    pub closed: bool,
    pub want_update: bool,
    pub want_full: bool,
    pub pf: PixelFormat,
    pub caps: Caps,
    pub pending_resize: Option<u16>,
    pub clipboard: Option<Seq<u8>>,
    pub ext: ExtPending,
}

impl View for LinkState {
    type V = LinkView;

    open spec fn view(&self) -> LinkView {
        LinkView {
            dirty: self.dirty@,
            cols: self.dirty.cols(),
            rows: self.dirty.rows(),
            cursor_dirty: self.cursor_dirty,
            closed: self.closed,
            want_update: self.want_update,
            want_full: self.want_full,
            pf: self.pf,
            caps: self.caps,
            pending_resize: self.pending_resize,
            clipboard: text_of(self.clipboard),
            ext: self.ext,
        }
    }
}

impl LinkView {
    /// Whether a `FramebufferUpdate` would carry anything at all.
    pub open spec fn has_work(self) -> bool {
        ||| self.want_full
        ||| self.dirty != Set::<(int, int)>::empty()
        ||| self.cursor_dirty && self.caps.cursor
        ||| self.pending_resize is Some && self.caps.ext_desktop_size
    }

    /// Whether there is a message to send: something about the clipboard, a new
    /// size the client can be told, or an update that it has asked for.
    pub open spec fn ready(self) -> bool {
        ||| self.clipboard is Some
        ||| self.ext != ExtPending::nothing()
        ||| self.pending_resize is Some && self.caps.ext_desktop_size
        ||| self.want_update && self.has_work()
    }

    /// Every tile dirty.
    pub open spec fn all_marked(self) -> LinkView {
        LinkView { dirty: grid(self.cols, self.rows), ..self }
    }

    /// The tiles of some rectangles dirty as well.
    pub open spec fn marked(self, rects: Seq<Rect>) -> LinkView {
        LinkView {
            dirty: self.dirty.union(
                grid(self.cols, self.rows).intersect(
                    Set::new(
                        |t: (int, int)|
                            exists|k: int| 0 <= k < rects.len() && #[trigger] touched(rects[k], t),
                    ),
                ),
            ),
            ..self
        }
    }

    /// Told of a screen of another size, all of which is to be sent.
    pub open spec fn resized(self, width: u32, height: u32, reason: u16) -> LinkView {
        let cols = tiles_across(width as int);
        let rows = tiles_across(height as int);
        LinkView {
            dirty: grid(cols, rows),
            cols,
            rows,
            cursor_dirty: true,
            pending_resize: Some(reason),
            ..self
        }
    }
}

impl LinkState {
    /// Whether a `FramebufferUpdate` would carry anything at all. Pending
    /// cursor and resize rectangles only count when the client asked for
    /// those pseudo-encodings, otherwise they would wake the writer for a
    /// message it cannot send.
    pub fn has_work(&self) -> (b: bool)
        requires
            self.dirty.wf(),
        ensures
            b == self@.has_work(),
    {
        self.want_full || !self.dirty.is_empty() || (self.cursor_dirty && self.caps.cursor) || (
        self.pending_resize.is_some() && self.caps.ext_desktop_size)
    }

    /// Whether the writer has a message to send.
    pub fn ready(&self) -> (b: bool)
        requires
            self.dirty.wf(),
        ensures
            b == self@.ready(),
    {
        self.clipboard.is_some() || self.ext.any() || (self.pending_resize.is_some()
            && self.caps.ext_desktop_size) || (self.want_update && self.has_work())
    }
}

/// One client's place at the hub.
pub struct ClientLink {
    pub id: u64,
    pub state: LinkState,
    /// The session is to look at its state again.
    pub notified: bool,
}

/// A client's place at the hub, with its state as a view.
#[verifier::ext_equal]
pub struct ClientView {
    pub id: u64,
    pub state: LinkView,
    pub notified: bool,
}

impl View for ClientLink {
    type V = ClientView;

    open spec fn view(&self) -> ClientView {
        ClientView { id: self.id, state: self.state@, notified: self.notified }
    }
}

impl ClientView {
    /// Woken, in a new state.
    pub open spec fn woken(self, state: LinkView) -> ClientView {
        ClientView { state, notified: true, ..self }
    }
}

impl ClientLink {
    pub fn wake(&mut self)
        ensures
            final(self)@ == old(self)@.woken(old(self)@.state),
            final(self).state == old(self).state,
    {
        self.notified = true;
    }

    pub fn close(&mut self)
        ensures
            final(self)@ == old(self)@.woken((LinkView { closed: true, ..old(self)@.state })),
            final(self).state.dirty == old(self).state.dirty,
    {
        self.state.closed = true;
        self.notified = true;
    }
}

/// Central hand-off point between the X capture and client sessions.
pub struct Hub {
    pub frame: Frame,
    pub cursor: Option<CursorImage>,
    /// The most recent clipboard text in Latin-1, handed to clients as they
    /// connect.
    pub clipboard: Option<Vec<u8>>,
    /// The most recent clipboard text as it is.
    pub text: Option<String>,
    pub clients: Vec<ClientLink>,
    pub next_id: u64,
}

impl Hub {
    /// The clients, as views.
    pub open spec fn links(self) -> Seq<ClientView> {
        self.clients@.map_values(|c: ClientLink| c@)
    }

    /// Every client has its own number, none that is still to be given out, a
    /// pixel format that can be served, and a map of the screen as it is.
    pub open spec fn wf(self) -> bool {
        &&& self.frame.wf()
        &&& forall|i: int|
            #![trigger self.clients@[i]]
            0 <= i < self.clients@.len() ==> {
                &&& self.clients@[i].id < self.next_id
                &&& self.clients@[i].state.pf.convertible()
                &&& self.clients@[i].state.dirty.wf()
                &&& self.clients@[i].state.dirty.cols() == tiles_across(self.frame.width as int)
                &&& self.clients@[i].state.dirty.rows() == tiles_across(self.frame.height as int)
            }
        &&& forall|i: int, j: int|
            #![trigger self.clients@[i], self.clients@[j]]
            0 <= i < j < self.clients@.len() ==> self.clients@[i].id != self.clients@[j].id
    }

    pub fn new(width: u32, height: u32) -> (h: Self)
        requires
            width * height <= usize::MAX,
        ensures
            h.wf(),
            h.frame.width == width,
            h.frame.height == height,
            h.frame.px@ == Seq::new((width * height) as nat, |i: int| 0u32),
            h.cursor is None,
            h.clipboard is None,
            h.text is None,
            h.links() == Seq::<ClientView>::empty(),
            h.next_id == 0,
    {
        let h = Hub {
            frame: Frame::new(width, height),
            cursor: None,
            clipboard: None,
            text: None,
            clients: Vec::new(),
            next_id: 0,
        };
        assert(h.links() =~= Seq::<ClientView>::empty());
        h
    }

    pub fn dimensions(&self) -> (d: (u32, u32))
        ensures
            d == (self.frame.width, self.frame.height),
    {
        (self.frame.width, self.frame.height)
    }

    pub fn has_clients(&self) -> (b: bool)
        ensures
            b == (self.links().len() > 0),
    {
        self.clients.len() > 0
    }

    pub fn client_count(&self) -> (n: usize)
        ensures
            n == self.links().len(),
    {
        self.clients.len()
    }

    /// A client that has just joined: the whole screen and the cursor are to
    /// be sent, with what is on the clipboard.
    pub open spec fn fresh_client(self) -> ClientView {
        let cols = tiles_across(self.frame.width as int);
        let rows = tiles_across(self.frame.height as int);
        ClientView {
            id: self.next_id,
            state: LinkView {
                dirty: grid(cols, rows),
                cols,
                rows,
                cursor_dirty: true,
                closed: false,
                want_update: false,
                want_full: false,
                pf: PixelFormat::rgb(),
                caps: Caps::none(),
                pending_resize: None,
                clipboard: text_of(self.clipboard),
                ext: ExtPending::nothing(),
            },
            notified: false,
        }
    }

    /// Whether a client with a number is registered.
    pub open spec fn has_client(self, id: u64) -> bool {
        exists|i: int| 0 <= i < self.clients@.len() && (#[trigger] self.clients@[i]).id == id
    }

    /// The state of the client with a number.
    pub open spec fn client(self, id: u64) -> ClientView {
        let i = choose|i: int| 0 <= i < self.clients@.len() && (#[trigger] self.clients@[i]).id == id;
        self.clients@[i]@
    }

    /// A number stands for one client.
    pub proof fn lemma_client(self, i: int)
        requires
            self.wf(),
            0 <= i < self.clients@.len(),
        ensures
            self.client(self.clients@[i].id) == self.clients@[i]@,
            self.has_client(self.clients@[i].id),
    {
        let id = self.clients@[i].id;
        let k = choose|k: int| 0 <= k < self.clients@.len() && (#[trigger] self.clients@[k]).id == id;
        assert(self.clients@[i].id == id);
        assert(self.clients@[k].id == id);
    }

    /// Nothing but the clients differs.
    pub open spec fn same_but_clients(self, other: Hub) -> bool {
        &&& self.frame == other.frame
        &&& self.cursor == other.cursor
        &&& self.clipboard == other.clipboard
        &&& self.text == other.text
        &&& self.next_id == other.next_id
    }

    /// Add a client and give its number.
    pub fn register(&mut self) -> (id: u64)
        requires
            old(self).wf(),
            old(self).next_id < u64::MAX,
        ensures
            final(self).wf(),
            id == old(self).next_id,
            final(self).next_id == id + 1,
            final(self).links() == old(self).links().push(old(self).fresh_client()),
            final(self).frame == old(self).frame,
            final(self).cursor == old(self).cursor,
            final(self).clipboard == old(self).clipboard,
            final(self).text == old(self).text,
    {
        let (w, h) = self.dimensions();
        let n: usize = self.frame.px.len();
        proof {
            lemma_tiles_fit(w, h, n as int);
        }
        let mut dirty = TileMap::new(w, h);
        dirty.set_all();
        let id: u64 = self.next_id;
        let clipboard: Option<Vec<u8>> = copy_text(&self.clipboard);
        self.clients.push(
            ClientLink {
                id,
                state: LinkState {
                    dirty,
                    cursor_dirty: true,
                    closed: false,
                    want_update: false,
                    want_full: false,
                    pf: PixelFormat::default_rgb(),
                    caps: Caps::default(),
                    pending_resize: None,
                    clipboard,
                    ext: ExtPending::none(),
                },
                notified: false,
            },
        );
        self.next_id = id + 1;
        assert(self.links() =~= old(self).links().push(old(self).fresh_client()));
        id
    }

    /// Position of the client with a number.
    pub fn find(&self, id: u64) -> (r: Option<usize>)
        ensures
            match r {
                Some(i) => i < self.clients@.len() && self.clients@[i as int].id == id,
                None => forall|i: int|
                    0 <= i < self.clients@.len() ==> (#[trigger] self.clients@[i]).id != id,
            },
    {
        for i in 0..self.clients.len()
            invariant
                forall|j: int| 0 <= j < i ==> (#[trigger] self.clients@[j]).id != id,
        {
            if self.clients[i].id == id {
                return Some(i);
            }
        }
        None
    }

    /// Position of a client that is registered.
    pub(crate) fn place_of(&self, id: u64) -> (i: usize)
        requires
            self.has_client(id),
        ensures
            i < self.clients@.len(),
            self.clients@[i as int].id == id,
    {
        let n: usize = self.clients.len();
        let mut i: usize = 0;
        while self.clients[i].id != id
            invariant
                n == self.clients@.len(),
                i < n,
                self.has_client(id),
                forall|j: int| 0 <= j < i ==> (#[trigger] self.clients@[j]).id != id,
            decreases n - i,
        {
            i = i + 1;
        }
        i
    }

    /// Drop the client with a number; the others keep their order.
    pub fn unregister(&mut self, id: u64)
        requires
            old(self).wf(),
        ensures
            final(self).wf(),
            final(self).same_but_clients(*old(self)),
            final(self).links() == old(self).links().filter(|c: ClientView| c.id != id),
    {
        let ghost keep = |c: ClientView| c.id != id;
        let ghost links = self.links();
        match self.find(id) {
            Some(i) => {
                let _gone = self.clients.remove(i);
                proof {
                    assert(self.links() =~= links.remove(i as int));
                    lemma_filter_one(links, keep, i as int);
                }
            },
            None => {
                proof {
                    assert forall|k: int| 0 <= k < links.len() implies keep(links[k]) by {
                        assert(links[k].id == self.clients@[k].id);
                    }
                    lemma_filter_all(links, keep);
                }
            },
        }
    }

    /// Report changed screen regions to every client.
    pub fn damage(&mut self, rects: &[Rect])
        requires
            old(self).wf(),
            forall|k: int|
                #![trigger rects@[k]]
                0 <= k < rects@.len() && rects@[k].w > 0 && rects@[k].h > 0 ==> rects@[k].x
                    + rects@[k].w <= u32::MAX && rects@[k].y + rects@[k].h <= u32::MAX,
        ensures
            final(self).wf(),
            final(self).same_but_clients(*old(self)),
            final(self).links() == old(self).links().map_values(
                |c: ClientView|
                    if rects@.len() == 0 {
                        c
                    } else {
                        c.woken(c.state.marked(rects@))
                    },
            ),
    {
        let ghost links = self.links();
        if rects.len() == 0 {
            assert(self.links() =~= links.map_values(|c: ClientView| c));
            return;
        }
        let n: usize = self.clients.len();
        for i in 0..n
            invariant
                rects@.len() > 0,
                n == links.len(),
                links == old(self).links(),
                forall|k: int|
                    #![trigger rects@[k]]
                    0 <= k < rects@.len() && rects@[k].w > 0 && rects@[k].h > 0 ==> rects@[k].x
                        + rects@[k].w <= u32::MAX && rects@[k].y + rects@[k].h <= u32::MAX,
                self.wf(),
                self.same_but_clients(*old(self)),
                self.links().len() == n,
                forall|k: int|
                    0 <= k < i ==> #[trigger] self.links()[k] == links[k].woken(
                        links[k].state.marked(rects@),
                    ),
                forall|k: int| i <= k < n ==> #[trigger] self.links()[k] == links[k],
        {
            let ghost before = *self;
            mark_rects(&mut self.clients[i].state, rects);
            self.clients[i].notified = true;
            assert(self.links()[i as int] == self.clients@[i as int]@);
            assert forall|k: int| 0 <= k < n && k != i implies #[trigger] self.links()[k]
                == before.links()[k] by {
                assert(self.clients@[k] == before.clients@[k]);
            }
            assert(before.links()[i as int] == links[i as int]);
        }
        assert(self.links() =~= links.map_values(
            |c: ClientView| c.woken(c.state.marked(rects@)),
        ));
    }
}

impl Hub {
    /// Adopt a new screen size: the framebuffer is replaced and every client
    /// is told to redraw everything.
    pub fn resize(&mut self, width: u32, height: u32, requester: Option<u64>)
        requires
            old(self).wf(),
            width * height <= usize::MAX,
        ensures
            final(self).wf(),
            old(self).frame.width == width && old(self).frame.height == height ==> *final(self)
                == *old(self),
            old(self).frame.width != width || old(self).frame.height != height ==> {
                &&& final(self).frame.width == width
                &&& final(self).frame.height == height
                &&& final(self).frame.px@ == Seq::new((width * height) as nat, |i: int| 0u32)
                &&& final(self).cursor == old(self).cursor
                &&& final(self).clipboard == old(self).clipboard
                &&& final(self).text == old(self).text
                &&& final(self).next_id == old(self).next_id
                &&& final(self).links() == old(self).links().map_values(
                    |c: ClientView|
                        c.woken(c.state.resized(width, height, resize_reason(requester, c.id))),
                )
            },
    {
        if self.frame.width == width && self.frame.height == height {
            return;
        }
        let ghost links = self.links();
        let n: usize = self.clients.len();
        proof {
            lemma_tiles_fit(width, height, usize::MAX as int);
        }
        let mut i: usize = 0;
        while i < n
            invariant
                n == links.len(),
                i <= n,
                links == old(self).links(),
                old(self).wf(),
                0 <= tiles_across(width as int) * tiles_across(height as int) <= usize::MAX,
                self.same_but_clients(*old(self)),
                self.links().len() == n,
                forall|k: int|
                    0 <= k < i ==> #[trigger] self.links()[k] == links[k].woken(
                        links[k].state.resized(
                            width,
                            height,
                            resize_reason(requester, links[k].id),
                        ),
                    ),
                forall|k: int| i <= k < n ==> #[trigger] self.links()[k] == links[k],
                forall|k: int|
                    #![trigger self.clients@[k]]
                    0 <= k < i ==> self.clients@[k].state.dirty.wf(),
                forall|k: int| 0 <= k < n ==> (#[trigger] self.clients@[k]).id == links[k].id,
            decreases n - i,
        {
            let ghost before = *self;
            let mut dirty = TileMap::new(width, height);
            dirty.set_all();
            let reason: u16 = match requester {
                Some(r) => if r == self.clients[i].id {
                    1
                } else {
                    2
                },
                None => 0,
            };
            self.clients[i].state.dirty = dirty;
            self.clients[i].state.cursor_dirty = true;
            self.clients[i].state.pending_resize = Some(reason);
            self.clients[i].notified = true;
            assert(before.links()[i as int] == before.clients@[i as int]@);
            assert(self.links()[i as int] == self.clients@[i as int]@);
            assert(self.links()[i as int] =~= links[i as int].woken(
                links[i as int].state.resized(
                    width,
                    height,
                    resize_reason(requester, links[i as int].id),
                ),
            ));
            assert forall|k: int| 0 <= k < n && k != i implies #[trigger] self.links()[k]
                == before.links()[k] && self.clients@[k] == before.clients@[k] by {
                assert(self.clients@[k] == before.clients@[k]);
            }
            i = i + 1;
        }
        self.frame = Frame::new(width, height);
        proof {
            assert(self.links() =~= links.map_values(
                |c: ClientView|
                    c.woken(c.state.resized(width, height, resize_reason(requester, c.id))),
            ));
            assert forall|k: int| 0 <= k < n implies {
                &&& (#[trigger] self.clients@[k]).id == links[k].id
                &&& self.clients@[k].state.pf.convertible()
                &&& self.clients@[k].state.dirty.cols() == tiles_across(width as int)
                &&& self.clients@[k].state.dirty.rows() == tiles_across(height as int)
            } by {
                assert(self.links()[k] == self.clients@[k]@);
                assert(links[k].state.pf == old(self).clients@[k].state.pf);
            }
            assert forall|k: int| 0 <= k < n implies (#[trigger] old(self).clients@[k]).id
                == links[k].id by {}
        }
    }

    /// Send clipboard text to every client except `origin`, which is where it
    /// came from.
    pub fn broadcast_clipboard(&mut self, text: &[u8], origin: Option<u64>)
        requires
            old(self).wf(),
        ensures
            final(self).wf(),
            final(self).frame == old(self).frame,
            final(self).cursor == old(self).cursor,
            final(self).next_id == old(self).next_id,
            text_of(final(self).clipboard) == Some(text@),
            option_view(final(self).text) == Some(text@.map_values(|b: u8| b as char)),
            final(self).links() == old(self).links().map_values(
                |c: ClientView|
                    if origin == Some(c.id) {
                        c
                    } else {
                        c.woken((LinkView { clipboard: Some(text@), ..c.state }))
                    },
            ),
    {
        let ghost links = self.links();
        let n: usize = self.clients.len();
        self.clipboard = Some(copy_bytes(text));
        self.text = Some(from_latin1(text));
        for i in 0..n
            invariant
                n == links.len(),
                links == old(self).links(),
                self.wf(),
                self.frame == old(self).frame,
                self.cursor == old(self).cursor,
                self.next_id == old(self).next_id,
                text_of(self.clipboard) == Some(text@),
                option_view(self.text) == Some(text@.map_values(|b: u8| b as char)),
                self.links().len() == n,
                forall|k: int|
                    0 <= k < i ==> #[trigger] self.links()[k] == (if origin == Some(links[k].id) {
                        links[k]
                    } else {
                        links[k].woken((LinkView { clipboard: Some(text@), ..links[k].state }))
                    }),
                forall|k: int| i <= k < n ==> #[trigger] self.links()[k] == links[k],
        {
            let ghost before = *self;
            assert(before.links()[i as int] == before.clients@[i as int]@);
            let skip: bool = match origin {
                Some(o) => o == self.clients[i].id,
                None => false,
            };
            if !skip {
                self.clients[i].state.clipboard = Some(copy_bytes(text));
                self.clients[i].notified = true;
            }
            assert(self.links()[i as int] == self.clients@[i as int]@);
            assert forall|k: int| 0 <= k < n && k != i implies #[trigger] self.links()[k]
                == before.links()[k] by {
                assert(self.clients@[k] == before.clients@[k]);
            }
        }
        assert(self.links() =~= links.map_values(
            |c: ClientView|
                if origin == Some(c.id) {
                    c
                } else {
                    c.woken((LinkView { clipboard: Some(text@), ..c.state }))
                },
        ));
    }

    /// Send clipboard text of any script to every client except `origin`. It
    /// goes out as Latin-1, or as it is to clients with the extended clipboard.
    pub fn broadcast_text(&mut self, text: &str, origin: Option<u64>)
        requires
            old(self).wf(),
        ensures
            final(self).wf(),
            final(self).frame == old(self).frame,
            final(self).cursor == old(self).cursor,
            final(self).next_id == old(self).next_id,
            text_of(final(self).clipboard) == Some(latin1_of(text@)),
            option_view(final(self).text) == Some(text@),
            final(self).links() == old(self).links().map_values(
                |c: ClientView|
                    if origin == Some(c.id) {
                        c
                    } else {
                        c.woken((LinkView { clipboard: Some(latin1_of(text@)), ..c.state }))
                    },
            ),
    {
        let latin1: Vec<u8> = to_latin1(text);
        let ghost links = self.links();
        self.broadcast_clipboard(latin1.as_slice(), origin);
        self.text = Some(text.to_owned());
        assert(self.links() =~= links.map_values(
            |c: ClientView|
                if origin == Some(c.id) {
                    c
                } else {
                    c.woken((LinkView { clipboard: Some(latin1_of(text@)), ..c.state }))
                },
        ));
    }

    /// Take a new cursor shape; every client is to be told.
    pub fn set_cursor(&mut self, img: Option<CursorImage>)
        requires
            old(self).wf(),
        ensures
            final(self).wf(),
            final(self).cursor == img,
            final(self).frame == old(self).frame,
            final(self).clipboard == old(self).clipboard,
            final(self).text == old(self).text,
            final(self).next_id == old(self).next_id,
            final(self).links() == old(self).links().map_values(
                |c: ClientView| c.woken((LinkView { cursor_dirty: true, ..c.state })),
            ),
    {
        let ghost links = self.links();
        let n: usize = self.clients.len();
        self.cursor = img;
        for i in 0..n
            invariant
                n == links.len(),
                links == old(self).links(),
                self.wf(),
                self.cursor == img,
                self.frame == old(self).frame,
                self.clipboard == old(self).clipboard,
                self.text == old(self).text,
                self.next_id == old(self).next_id,
                self.links().len() == n,
                forall|k: int|
                    0 <= k < i ==> #[trigger] self.links()[k] == links[k].woken(
                        (LinkView { cursor_dirty: true, ..links[k].state }),
                    ),
                forall|k: int| i <= k < n ==> #[trigger] self.links()[k] == links[k],
        {
            let ghost before = *self;
            assert(before.links()[i as int] == before.clients@[i as int]@);
            self.clients[i].state.cursor_dirty = true;
            self.clients[i].notified = true;
            assert(self.links()[i as int] == self.clients@[i as int]@);
            assert forall|k: int| 0 <= k < n && k != i implies #[trigger] self.links()[k]
                == before.links()[k] by {
                assert(self.clients@[k] == before.clients@[k]);
            }
        }
        assert(self.links() =~= links.map_values(
            |c: ClientView| c.woken((LinkView { cursor_dirty: true, ..c.state })),
        ));
    }
}

/// Why a client sees a resize: 1 it asked, 2 another client asked, 0 nobody.
pub open spec fn resize_reason(requester: Option<u64>, id: u64) -> u16 {
    match requester {
        Some(r) => if r == id {
            1
        } else {
            2
        },
        None => 0,
    }
}

/// Damage reaches the client: once its map is drained, every damaged pixel of
/// the screen has been sent.
pub proof fn lemma_damage_is_sent(
    st: LinkView,
    rects: Seq<Rect>,
    k: int,
    width: u32,
    height: u32,
    px: int,
    py: int,
)
    requires
        st.cols == tiles_across(width as int),
        st.rows == tiles_across(height as int),
        st.dirty.subset_of(grid(st.cols, st.rows)),
        0 <= k < rects.len(),
        rects[k].has(px, py),
        px < width,
        py < height,
    ensures
        in_rects(
            rects_of(
                blocks_from(st.marked(rects).dirty, st.cols, st.rows, 0, 0),
                width,
                height,
            ),
            px,
            py,
        ),
{
    let d = st.marked(rects).dirty;
    lemma_damage_marks_its_pixels(rects[k], width, height, px, py);
    assert(d.subset_of(grid(st.cols, st.rows)));
    lemma_rects_send_dirty_pixels_once(d, st.cols, st.rows, width, height);
    assert(touched(rects[k], (px / 64, py / 64)));
    assert(d.contains((px / 64, py / 64)));
}

/// Damage never makes a client forget what it had still to send.
pub proof fn lemma_damage_keeps_marks(st: LinkView, rects: Seq<Rect>)
    ensures
        st.dirty.subset_of(st.marked(rects).dirty),
        st.has_work() ==> st.marked(rects).has_work(),
        st.ready() ==> st.marked(rects).ready(),
{
    let d = st.marked(rects).dirty;
    if st.dirty != Set::<(int, int)>::empty() && d == Set::<(int, int)>::empty() {
        assert forall|t: (int, int)| !st.dirty.contains(t) by {
            assert(!d.contains(t));
        }
        assert(st.dirty =~= Set::<(int, int)>::empty());
    }
}

/// A client that has just joined is sent the whole screen.
pub proof fn lemma_newcomer_is_sent_everything(hub: Hub, px: int, py: int)
    requires
        0 <= px < hub.frame.width,
        0 <= py < hub.frame.height,
    ensures
        ({
            let st = hub.fresh_client().state;
            in_rects(
                rects_of(
                    blocks_from(st.dirty, st.cols, st.rows, 0, 0),
                    hub.frame.width,
                    hub.frame.height,
                ),
                px,
                py,
            )
        }),
{
    lemma_full_map_sends_everything(hub.frame.width, hub.frame.height, px, py);
}

/// A new client joins behind the others, which are as they were. It starts out
/// with the whole screen and the cursor to be sent, in our own pixel format, with
/// nothing asked for and with the text that the clipboard holds.
pub proof fn lemma_newcomer_starts_out(before: Hub, after: Hub)
    requires
        after.links() == before.links().push(before.fresh_client()),
    ensures
        after.links().len() == before.links().len() + 1,
        forall|i: int|
            0 <= i < before.links().len() ==> #[trigger] after.links()[i] == before.links()[i],
        ({
            let c = after.links().last();
            let st = c.state;
            &&& c.id == before.next_id
            &&& st.cols == tiles_across(before.frame.width as int)
            &&& st.rows == tiles_across(before.frame.height as int)
            &&& st.dirty == grid(st.cols, st.rows)
            &&& st.cursor_dirty && !st.closed && !st.want_update && !st.want_full
            &&& st.pf == PixelFormat::rgb()
            &&& st.caps == Caps::none()
            &&& !st.caps.zrle && !st.caps.cursor && !st.caps.last_rect && !st.caps.desktop_size
            &&& !st.caps.ext_desktop_size && !st.caps.ext_clipboard && !st.caps.copy_rect
            &&& st.pending_resize is None
            &&& st.clipboard == text_of(before.clipboard)
            &&& st.ext == ExtPending::nothing()
            &&& !st.ext.announce && !st.ext.request && !st.ext.notify && !st.ext.provide
        }),
{
}

/// The text that was broadcast last in some steps, each of which broadcast a text
/// or none; `first` if none did.
pub open spec fn last_text(first: Option<Seq<u8>>, steps: Seq<Option<Seq<u8>>>) -> Option<Seq<u8>>
    decreases steps.len(),
{
    if steps.len() == 0 {
        first
    } else if steps.last() is Some {
        steps.last()
    } else {
        last_text(first, steps.drop_last())
    }
}

/// Someone joining later still receives what is on the clipboard: the text that
/// was broadcast last, whoever it came from and whatever happened since.
pub proof fn lemma_newcomer_has_the_last_text(hubs: Seq<Hub>, steps: Seq<Option<Seq<u8>>>)
    requires
        hubs.len() == steps.len() + 1,
        forall|i: int|
            0 <= i < steps.len() ==> text_of(hubs[i + 1].clipboard) == (if (
            #[trigger] steps[i]) is Some {
                steps[i]
            } else {
                text_of(hubs[i].clipboard)
            }),
    ensures
        hubs.last().fresh_client().state.clipboard == last_text(
            text_of(hubs[0].clipboard),
            steps,
        ),
    decreases steps.len(),
{
    if steps.len() > 0 {
        let n = steps.len() - 1;
        let (hs, ss) = (hubs.drop_last(), steps.drop_last());
        assert forall|i: int| 0 <= i < ss.len() implies text_of(hs[i + 1].clipboard) == (if (
        #[trigger] ss[i]) is Some {
            ss[i]
        } else {
            text_of(hs[i].clipboard)
        }) by {
            assert(ss[i] == steps[i]);
        }
        lemma_newcomer_has_the_last_text(hs, ss);
        assert(steps[n] == steps.last());
        assert(hs.last() == hubs[n]);
    }
}

/// The numbers of the clients, in their order.
pub open spec fn ids_of(links: Seq<ClientView>) -> Seq<u64> {
    links.map_values(|c: ClientView| c.id)
}

/// A client that joined and leaves is gone, and the others stay as they are and in
/// their order, whatever happened to any of them between.
pub proof fn lemma_leaving_undoes_joining(
    before: Hub,
    between: Hub,
    after: Hub,
    id: u64,
)
    requires
        before.wf(),
        id == before.next_id,
        ids_of(between.links()) == ids_of(before.links()).push(id),
        after.links() == between.links().filter(|c: ClientView| c.id != id),
    ensures
        after.links() == between.links().drop_last(),
        ids_of(after.links()) == ids_of(before.links()),
        after.links().len() == before.links().len(),
        forall|i: int| 0 <= i < after.links().len() ==> (#[trigger] after.links()[i]).id != id,
{
    let links = between.links();
    let keep = |c: ClientView| c.id != id;
    let n = before.links().len() as int;
    assert(ids_of(links).len() == n + 1);
    assert forall|k: int| 0 <= k < links.len() implies (keep(#[trigger] links[k]) <==> k != n) by {
        assert(ids_of(links)[k] == links[k].id);
        if k < n {
            assert(ids_of(links)[k] == ids_of(before.links())[k]);
            assert(before.clients@[k].id < before.next_id);
        }
    }
    lemma_filter_one(links, keep, n);
    assert(links.remove(n) =~= links.drop_last());
    assert(ids_of(links.drop_last()) =~= ids_of(before.links())) by {
        assert forall|k: int| 0 <= k < n implies #[trigger] ids_of(links.drop_last())[k] == ids_of(
            before.links(),
        )[k] by {
            assert(ids_of(links)[k] == links[k].id);
        }
    }
    assert forall|i: int| 0 <= i < after.links().len() implies (#[trigger] after.links()[i]).id
        != id by {
        assert(after.links()[i] == links[i]);
        assert(keep(links[i]));
    }
}

/// What changes clients one by one, as damage, a resize, a cursor and clipboard
/// text do, neither brings a client back nor drops one.
pub proof fn lemma_changes_keep_numbers(
    links: Seq<ClientView>,
    change: spec_fn(ClientView) -> ClientView,
)
    requires
        forall|c: ClientView| (#[trigger] change(c)).id == c.id,
    ensures
        ids_of(links.map_values(change)) == ids_of(links),
{
    assert(ids_of(links.map_values(change)) =~= ids_of(links));
}

/// Dropping a client that is not there changes nothing.
pub proof fn lemma_leaving_twice_changes_nothing(links: Seq<ClientView>, id: u64)
    requires
        forall|i: int| 0 <= i < links.len() ==> (#[trigger] links[i]).id != id,
    ensures
        links.filter(|c: ClientView| c.id != id) == links,
{
    lemma_filter_all(links, |c: ClientView| c.id != id);
}

fn mark_rects(st: &mut LinkState, rects: &[Rect])
    requires
        old(st).dirty.wf(),
        forall|k: int|
            #![trigger rects@[k]]
            0 <= k < rects@.len() && rects@[k].w > 0 && rects@[k].h > 0 ==> rects@[k].x
                + rects@[k].w <= u32::MAX && rects@[k].y + rects@[k].h <= u32::MAX,
    ensures
        final(st).dirty.wf(),
        final(st)@ == old(st)@.marked(rects@),
{
    let ghost before = st@;
    for k in 0..rects.len()
        invariant
            before == old(st)@,
            forall|j: int|
                #![trigger rects@[j]]
                0 <= j < rects@.len() && rects@[j].w > 0 && rects@[j].h > 0 ==> rects@[j].x
                    + rects@[j].w <= u32::MAX && rects@[j].y + rects@[j].h <= u32::MAX,
            st.dirty.wf(),
            st@ == (LinkView { dirty: st@.dirty, ..before }),
            forall|t: (int, int)| #[trigger]
                st@.dirty.contains(t) <==> before.dirty.contains(t) || grid(
                    before.cols,
                    before.rows,
                ).contains(t) && exists|j: int| 0 <= j < k && #[trigger] touched(rects@[j], t),
    {
        let ghost seen = st@;
        st.dirty.add_rect(rects[k]);
        assert forall|t: (int, int)| #[trigger]
            st@.dirty.contains(t) <==> before.dirty.contains(t) || grid(
                before.cols,
                before.rows,
            ).contains(t) && exists|j: int| 0 <= j < k + 1 && #[trigger] touched(rects@[j], t) by {
            assert(seen.dirty.contains(t) || !seen.dirty.contains(t));
            if touched(rects@[k as int], t) {
                assert(exists|j: int| 0 <= j < k + 1 && #[trigger] touched(rects@[j], t));
            }
        }
    }
    assert(st@ =~= before.marked(rects@));
}

proof fn lemma_filter_all<A>(s: Seq<A>, keep: spec_fn(A) -> bool)
    requires
        forall|k: int| 0 <= k < s.len() ==> keep(#[trigger] s[k]),
    ensures
        s.filter(keep) == s,
    decreases s.len(),
{
    reveal(Seq::filter);
    if s.len() > 0 {
        lemma_filter_all(s.drop_last(), keep);
        assert(s =~= s.drop_last().push(s.last()));
    }
}

proof fn lemma_filter_one<A>(s: Seq<A>, keep: spec_fn(A) -> bool, i: int)
    requires
        0 <= i < s.len(),
        forall|k: int| 0 <= k < s.len() ==> (keep(#[trigger] s[k]) <==> k != i),
    ensures
        s.filter(keep) == s.remove(i),
    decreases s.len(),
{
    reveal(Seq::filter);
    let t = s.drop_last();
    if i == s.len() - 1 {
        lemma_filter_all(t, keep);
        assert(s.remove(i) =~= t);
    } else {
        lemma_filter_one(t, keep, i);
        assert(s.remove(i) =~= t.remove(i).push(s.last()));
    }
}

pub(crate) proof fn lemma_tiles_fit(width: u32, height: u32, max: int)
    requires
        width * height <= max,
    ensures
        0 <= tiles_across(width as int) * tiles_across(height as int) <= max,
{
    let (c, r) = (tiles_across(width as int), tiles_across(height as int));
    assert(0 <= c <= width && 0 <= r <= height);
    assert(0 <= c * r <= width * height) by (nonlinear_arith)
        requires
            0 <= c <= width,
            0 <= r <= height,
    ;
}

fn copy_text(t: &Option<Vec<u8>>) -> (r: Option<Vec<u8>>)
    ensures
        text_of(r) == text_of(*t),
{
    match t {
        Some(v) => {
            Some(copy_bytes(v.as_slice()))
        },
        None => None,
    }
}

/// The client that asked for a new size is told so, the others that another client
/// did, and all of them where it was no client.
pub proof fn lemma_reason_names_who_asked(requester: Option<u64>, id: u64)
    ensures
        resize_reason(requester, id) == (if requester is None {
            0
        } else if requester == Some(id) {
            1
        } else {
            2int
        }),
{
}

/// After a change of size a client has the whole new screen to receive, the cursor and
/// the size with its reason, and keeps everything else it had waiting.
pub proof fn lemma_resize_sends_everything(
    st: LinkView,
    width: u32,
    height: u32,
    reason: u16,
    px: int,
    py: int,
)
    ensures
        ({
            let next = st.resized(width, height, reason);
            let rs = rects_of(
                blocks_from(next.dirty, next.cols, next.rows, 0, 0),
                width,
                height,
            );
            &&& in_rects(rs, px, py) <==> 0 <= px < width && 0 <= py < height
            &&& next.pending_resize == Some(reason)
            &&& next.cursor_dirty
            &&& next.cols == tiles_across(width as int) && next.rows == tiles_across(height as int)
            &&& next.closed == st.closed && next.want_update == st.want_update && next.want_full
                == st.want_full
            &&& next.pf == st.pf && next.caps == st.caps && next.clipboard == st.clipboard
                && next.ext == st.ext
        }),
{
    let (cols, rows) = (tiles_across(width as int), tiles_across(height as int));
    lemma_rects_send_dirty_pixels_once(grid(cols, rows), cols, rows, width, height);
    if 0 <= px < width && 0 <= py < height {
        assert(grid(cols, rows).contains((px / 64, py / 64)));
    }
}

/// Damage adds to what a client has to receive exactly the tiles of its screen in
/// which some rectangle has a pixel, and changes nothing else.
pub proof fn lemma_damage_adds_its_tiles(st: LinkView, rects: Seq<Rect>, t: (int, int))
    requires
        0 <= t.0,
        0 <= t.1,
    ensures
        ({
            let next = st.marked(rects);
            let hit = exists|k: int, px: int, py: int|
                0 <= k < rects.len() && #[trigger] rects[k].has(px, py) && px / 64 == t.0 && py
                    / 64 == t.1;
            &&& next.dirty.contains(t) <==> st.dirty.contains(t) || (t.0 < st.cols && t.1 < st.rows
                && hit)
            &&& next == (LinkView { dirty: next.dirty, ..st })
        }),
{
    if exists|k: int| 0 <= k < rects.len() && #[trigger] touched(rects[k], t) {
        let k = choose|k: int| 0 <= k < rects.len() && #[trigger] touched(rects[k], t);
        lemma_damage_marks_no_other_tile(rects[k], t);
    }
    if exists|k: int, px: int, py: int|
        0 <= k < rects.len() && #[trigger] rects[k].has(px, py) && px / 64 == t.0 && py / 64
            == t.1 {
        let (k, px, py) = choose|k: int, px: int, py: int|
            0 <= k < rects.len() && #[trigger] rects[k].has(px, py) && px / 64 == t.0 && py / 64
                == t.1;
        lemma_damage_marks_no_other_tile(rects[k], t);
        assert(touched(rects[k], t));
    }
}

/// A client is sent something as soon as there is something for it: clipboard text or
/// a word about it at once, a new size it can be told at once, a dirty tile or a new
/// cursor it can draw, or all of the screen, once it has asked for an update; and it
/// is not woken for anything else.
pub proof fn lemma_nothing_due_waits(st: LinkView, t: (int, int))
    ensures
        st.clipboard is Some ==> st.ready(),
        st.ext.announce || st.ext.request || st.ext.notify || st.ext.provide ==> st.ready(),
        st.pending_resize is Some && st.caps.ext_desktop_size ==> st.ready(),
        st.want_update && st.dirty.contains(t) ==> st.ready(),
        st.want_update && st.want_full ==> st.ready(),
        st.want_update && st.cursor_dirty && st.caps.cursor ==> st.ready(),
        st.clipboard is None && !st.ext.announce && !st.ext.request && !st.ext.notify
            && !st.ext.provide && !(st.pending_resize is Some && st.caps.ext_desktop_size)
            && !st.want_update ==> !st.ready(),
        st.clipboard is None && !st.ext.announce && !st.ext.request && !st.ext.notify
            && !st.ext.provide && !(st.pending_resize is Some && st.caps.ext_desktop_size)
            && !st.want_full && !(st.cursor_dirty && st.caps.cursor) && st.dirty == Set::<
            (int, int),
        >::empty() ==> !st.ready(),
{
    if st.dirty.contains(t) {
        assert(st.dirty != Set::<(int, int)>::empty());
    }
}

} // verus!
