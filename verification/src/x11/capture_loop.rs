//! The capture loop: feeds the hub, turn by turn.

use vstd::prelude::*;

use crate::bytes::low16;
use crate::screen::frame::Rect;
use crate::screen::hub::{ClientView, Hub};
use crate::x11::capture::Capture;
use crate::x11::image::Grab;

verus! {

/// How long a turn takes when nobody is watching, in microseconds.
pub const IDLE_US: u64 = 250_000;

/// What the X server tells about the screen.
#[derive(Clone, Copy, Debug, PartialEq, Eq, Structural)]
pub enum CaptureEvent {
    /// Something has been drawn.
    Damage,
    /// The cursor has another shape.
    Cursor,
    /// A window has been given a size.
    Configure { window: u32, width: u16, height: u16 },
    Other,
}

/// What a turn's events come to.
#[derive(Clone, Copy, Debug, PartialEq, Eq)]
pub struct Seen {
    pub damaged: bool,
    pub cursor_changed: bool,
    pub resized: Option<(u16, u16)>,
}

/// The size that an event gives the screen, if it is not the one it has.
pub open spec fn new_size(cap: Capture, e: CaptureEvent) -> Option<(u16, u16)> {
    match e {
        CaptureEvent::Configure { window, width, height } => if window == cap.root && (width
            != cap.width || height != cap.height) {
            Some((width, height))
        } else {
            None
        },
        _ => None,
    }
}

/// The last new size that events give the screen.
pub open spec fn last_size(cap: Capture, es: Seq<CaptureEvent>) -> Option<(u16, u16)>
    decreases es.len(),
{
    if es.len() == 0 {
        None
    } else {
        match new_size(cap, es.last()) {
            Some(d) => Some(d),
            None => last_size(cap, es.drop_last()),
        }
    }
}

/// What to do in a turn.
#[derive(Clone, Copy, Debug, PartialEq, Eq, Structural)]
pub enum Turn {
    /// Nobody is watching: keep draining damage so the X server does not
    /// accumulate it, but skip the expensive GetImage calls.
    Sleep { drain: bool },
    /// Read the screen; `fetch` says whether to ask what has been damaged.
    Watch { fetch: bool },
}

pub struct CaptureLoop {
    pub cap: Capture,
    /// The frame cannot be trusted: the next read is of the whole screen.
    pub stale: bool,
    /// Turns in a row in which nothing happened.
    pub idle_frames: u32,
    /// Time between turns at the highest rate, in microseconds.
    pub interval_us: u64,
}

/// Time between turns at a rate, in microseconds. Rates go from 1 to 120.
pub open spec fn interval_for(max_fps: u32) -> u64 {
    (1_000_000int / (if max_fps < 1 {
        1int
    } else if max_fps > 120 {
        120int
    } else {
        max_fps as int
    })) as u64
}

impl CaptureLoop {
    pub open spec fn wf(self) -> bool {
        self.cap.wf()
    }

    /// Start, once the frame has been read for the first time.
    pub fn new(cap: Capture, max_fps: u32, first: Grab) -> (l: Self)
        requires
            cap.wf(),
        ensures
            l.wf(),
            l.cap == cap,
            l.stale == (first is Raced),
            l.idle_frames == 0,
            l.interval_us == interval_for(max_fps),
    {
        let fps: u32 = if max_fps < 1 {
            1
        } else if max_fps > 120 {
            120
        } else {
            max_fps
        };
        CaptureLoop {
            cap,
            stale: match first {
                Grab::Raced => true,
                Grab::Done => false,
            },
            idle_frames: 0,
            interval_us: (1_000_000 / fps) as u64,
        }
    }

    /// What a turn's events come to.
    pub open spec fn seen(self, es: Seq<CaptureEvent>) -> Seen {
        Seen {
            damaged: es.contains(CaptureEvent::Damage),
            cursor_changed: es.contains(CaptureEvent::Cursor),
            resized: last_size(self.cap, es),
        }
    }

    pub fn look(&self, events: &[CaptureEvent]) -> (s: Seen)
        ensures
            s == self.seen(events@),
    {
        let mut s = Seen { damaged: false, cursor_changed: false, resized: None };
        assert(events@.take(0) =~= Seq::<CaptureEvent>::empty());
        for i in 0..events.len()
            invariant
                s == self.seen(events@.take(i as int)),
        {
            let ghost front = events@.take(i as int);
            let ghost upto = events@.take(i + 1);
            proof {
                assert(upto.drop_last() =~= front);
                assert(upto.last() == events@[i as int]);
                assert forall|e: CaptureEvent| upto.contains(e) <==> front.contains(e) || e
                    == events@[i as int] by {
                    if front.contains(e) {
                        let k = choose|k: int| 0 <= k < front.len() && front[k] == e;
                        assert(upto[k] == e);
                    }
                    assert(upto[i as int] == events@[i as int]);
                    if upto.contains(e) && e != events@[i as int] {
                        let k = choose|k: int| 0 <= k < upto.len() && upto[k] == e;
                        assert(front[k] == e);
                    }
                }
            }
            match events[i] {
                CaptureEvent::Damage => {
                    s.damaged = true;
                },
                CaptureEvent::Cursor => {
                    s.cursor_changed = true;
                },
                CaptureEvent::Configure { window, width, height } => {
                    if window == self.cap.root && (width != self.cap.width || height
                        != self.cap.height) {
                        s.resized = Some((width, height));
                    }
                },
                CaptureEvent::Other => {},
            }
        }
        assert(events@.take(events@.len() as int) =~= events@);
        s
    }

    /// Begin a turn: follow the screen's size and see whether anybody watches.
    ///
    /// The screen changes size either because a client asked or because
    /// something else on the display did it; the hub may already know about a
    /// resize we have not seen yet.
    pub fn begin(&mut self, hub: &mut Hub, seen: &Seen) -> (t: Turn)
        requires
            old(self).wf(),
            old(hub).wf(),
        ensures
            final(self).wf(),
            final(hub).wf(),
            final(self).idle_frames == old(self).idle_frames,
            final(self).interval_us == old(self).interval_us,
            final(hub).cursor == old(hub).cursor,
            final(hub).clipboard == old(hub).clipboard,
            final(hub).text == old(hub).text,
            final(hub).next_id == old(hub).next_id,
            ({
                let (w, h) = match seen.resized {
                    Some((w, h)) => (w as u32, h as u32),
                    None => (old(hub).frame.width, old(hub).frame.height),
                };
                let kept = old(hub).frame.width == w && old(hub).frame.height == h;
                &&& kept ==> *final(hub) == *old(hub)
                &&& !kept ==> {
                    &&& final(hub).frame.width == w && final(hub).frame.height == h
                    &&& final(hub).frame.px@ == Seq::new((w * h) as nat, |i: int| 0u32)
                    &&& final(hub).links() == old(hub).links().map_values(
                        |c: ClientView| c.woken(c.state.resized(w, h, 0)),
                    )
                }
                &&& final(self).cap == (if seen.resized is None && w == old(self).cap.width && h
                    == old(self).cap.height {
                    old(self).cap
                } else {
                    Capture { width: low16(w as int), height: low16(h as int), ..old(self).cap }
                })
                &&& final(self).stale == (old(self).stale || seen.resized is Some || w
                    != old(self).cap.width || h != old(self).cap.height || (old(hub).links().len()
                    == 0 && seen.damaged))
                &&& t == (if old(hub).links().len() == 0 {
                    Turn::Sleep { drain: seen.damaged }
                } else {
                    Turn::Watch { fetch: old(self).cap.damage && seen.damaged }
                })
            }),
    {
        match seen.resized {
            Some((w, h)) => {
                self.cap.set_size(w, h);
                proof {
                    assert(w * h <= 65535 * 65535) by (nonlinear_arith)
                        requires
                            w <= 65535,
                            h <= 65535,
                    ;
                }
                let ghost links = hub.links();
                hub.resize(w as u32, h as u32, None);
                proof {
                    let want = links.map_values(
                        |c: ClientView| c.woken(c.state.resized(w as u32, h as u32, 0)),
                    );
                    if old(hub).frame.width != w || old(hub).frame.height != h {
                        assert(hub.links() =~= want);
                    }
                }
                self.stale = true;
            },
            None => {},
        }
        let (hub_w, hub_h) = hub.dimensions();
        if hub_w != self.cap.width as u32 || hub_h != self.cap.height as u32 {
            self.cap.set_size((hub_w % 0x1_0000) as u16, (hub_h % 0x1_0000) as u16);
            self.stale = true;
        }
        if !hub.has_clients() {
            if seen.damaged {
                self.stale = true;
            }
            return Turn::Sleep { drain: seen.damaged };
        }
        Turn::Watch { fetch: self.cap.has_damage() && seen.damaged }
    }

    /// What to read in a turn: the whole screen if the frame is stale or damage
    /// is not reported, else what has been damaged.
    pub open spec fn to_read(self, seen: Seen, fetched: Seq<Rect>) -> Seq<Rect> {
        if self.stale || !self.cap.damage {
            seq![self.cap.full()]
        } else if seen.damaged {
            fetched
        } else {
            seq![]
        }
    }

    /// Choose what to read in a turn, given the damage that was fetched.
    pub fn choose_rects(&mut self, seen: &Seen, fetched: Vec<Rect>) -> (rects: Vec<Rect>)
        ensures
            rects@ == old(self).to_read(*seen, fetched@),
            final(self).cap == old(self).cap,
            final(self).interval_us == old(self).interval_us,
            !final(self).stale,
            final(self).idle_frames == (if rects@.len() > 0 || seen.cursor_changed
                || seen.resized is Some {
                0
            } else if old(self).idle_frames < u32::MAX {
                (old(self).idle_frames + 1) as u32
            } else {
                u32::MAX
            }),
    {
        let rects: Vec<Rect> = if self.stale || !self.cap.has_damage() {
            let all: Vec<Rect> = vec![self.cap.full_rect()];
            assert(all@ =~= seq![self.cap.full()]);
            all
        } else if seen.damaged {
            fetched
        } else {
            let none: Vec<Rect> = Vec::new();
            assert(none@ =~= Seq::<Rect>::empty());
            none
        };
        self.stale = false;
        let active: bool = rects.len() > 0 || seen.cursor_changed || seen.resized.is_some();
        if active {
            self.idle_frames = 0;
        } else if self.idle_frames < u32::MAX {
            self.idle_frames = self.idle_frames + 1;
        }
        rects
    }

    /// Report what was read. If the screen changed size while we were reading
    /// it, take the server's word for the new size and redraw from scratch;
    /// what we did read is a mix of two resolutions.
    pub fn finish(&mut self, hub: &mut Hub, rects: &[Rect], raced: Option<(u16, u16)>)
        requires
            old(self).wf(),
            old(hub).wf(),
            forall|k: int|
                #![trigger rects@[k]]
                0 <= k < rects@.len() && rects@[k].w > 0 && rects@[k].h > 0 ==> rects@[k].x
                    + rects@[k].w <= u32::MAX && rects@[k].y + rects@[k].h <= u32::MAX,
        ensures
            final(self).wf(),
            final(hub).wf(),
            final(self).idle_frames == old(self).idle_frames,
            final(self).interval_us == old(self).interval_us,
            final(hub).cursor == old(hub).cursor,
            final(hub).clipboard == old(hub).clipboard,
            final(hub).text == old(hub).text,
            final(hub).next_id == old(hub).next_id,
            match raced {
                Some((w, h)) => {
                    &&& final(self).cap == (Capture { width: w, height: h, ..old(self).cap })
                    &&& final(self).stale
                    &&& final(hub).frame.width == w && final(hub).frame.height == h
                    &&& old(hub).frame.width == w && old(hub).frame.height == h ==> *final(hub)
                        == *old(hub)
                    &&& old(hub).frame.width != w || old(hub).frame.height != h ==> {
                        &&& final(hub).frame.px@ == Seq::new((w * h) as nat, |i: int| 0u32)
                        &&& final(hub).links() == old(hub).links().map_values(
                            |c: ClientView| c.woken(c.state.resized(w as u32, h as u32, 0)),
                        )
                    }
                },
                None => {
                    &&& final(self).cap == old(self).cap
                    &&& final(self).stale == old(self).stale
                    &&& final(hub).frame == old(hub).frame
                    &&& final(hub).links() == old(hub).links().map_values(
                        |c: ClientView|
                            if rects@.len() == 0 {
                                c
                            } else {
                                c.woken(c.state.marked(rects@))
                            },
                    )
                },
            },
    {
        match raced {
            Some((w, h)) => {
                let (w, h) = self.cap.resync_size(w, h);
                proof {
                    assert(w * h <= 65535 * 65535) by (nonlinear_arith)
                        requires
                            w <= 65535,
                            h <= 65535,
                    ;
                }
                let ghost links = hub.links();
                hub.resize(w as u32, h as u32, None);
                proof {
                    let want = links.map_values(
                        |c: ClientView| c.woken(c.state.resized(w as u32, h as u32, 0)),
                    );
                    if old(hub).frame.width != w || old(hub).frame.height != h {
                        assert(hub.links() =~= want);
                    }
                }
                self.stale = true;
            },
            None => {
                hub.damage(rects);
            },
        }
    }

    /// Time between two turns, in microseconds: bursts up to the highest rate
    /// on activity, slower when nothing happens, and never above that rate.
    pub open spec fn pace(self) -> int {
        let slow = if self.idle_frames > 45 {
            100_000
        } else if self.idle_frames > 15 {
            50_000
        } else {
            0int
        };
        if slow < self.interval_us {
            self.interval_us as int
        } else {
            slow
        }
    }

    /// How long to wait after a turn that took `elapsed_us`.
    pub fn pause_us(&self, elapsed_us: u64) -> (us: u64)
        ensures
            us == (if elapsed_us < self.pace() {
                self.pace() - elapsed_us
            } else {
                0
            }),
    {
        let slow: u64 = if self.idle_frames > 45 {
            100_000
        } else if self.idle_frames > 15 {
            50_000
        } else {
            0
        };
        let target: u64 = if slow < self.interval_us {
            self.interval_us
        } else {
            slow
        };
        if elapsed_us < target {
            target - elapsed_us
        } else {
            0
        }
    }
}

/// The screen is never read more often than the limit allows, and at least
/// every second.
pub proof fn lemma_pace_keeps_to_the_limit(l: CaptureLoop, max_fps: u32)
    requires
        l.interval_us == interval_for(max_fps),
        1 <= max_fps <= 120,
    ensures
        l.pace() >= 1_000_000int / max_fps as int,
        l.pace() <= 1_000_000,
{
    assert(1_000_000int / max_fps as int <= 1_000_000) by (nonlinear_arith)
        requires
            1 <= max_fps,
    ;
    assert(0 <= 1_000_000int / max_fps as int) by (nonlinear_arith)
        requires
            1 <= max_fps,
    ;
}

/// Damage is never lost: what was damaged is read, by itself or with the whole
/// screen.
pub proof fn lemma_damage_is_read(l: CaptureLoop, seen: Seen, fetched: Seq<Rect>, k: int)
    requires
        seen.damaged,
        0 <= k < fetched.len(),
        fetched[k].inside(l.cap.width as int, l.cap.height as int),
    ensures
        forall|px: int, py: int| #[trigger]
            fetched[k].has(px, py) ==> exists|j: int|
                0 <= j < l.to_read(seen, fetched).len() && #[trigger] l.to_read(
                    seen,
                    fetched,
                )[j].has(px, py),
{
    let rs = l.to_read(seen, fetched);
    assert forall|px: int, py: int| #[trigger] fetched[k].has(px, py) implies exists|j: int|
        0 <= j < rs.len() && #[trigger] rs[j].has(px, py) by {
        if l.stale || !l.cap.damage {
            assert(rs[0].has(px, py));
        } else {
            assert(rs[k].has(px, py));
        }
    }
}

/// At a rate there is as much time between turns as makes that many a second, in
/// whole microseconds; a rate below one counts as one, one above 120 as 120.
pub proof fn lemma_interval_makes_the_rate(max_fps: u32)
    ensures
        ({
            let rate = if max_fps < 1 {
                1
            } else if max_fps > 120 {
                120int
            } else {
                max_fps as int
            };
            let us = interval_for(max_fps) as int;
            us * rate <= 1_000_000 < (us + 1) * rate
        }),
{
    let rate = if max_fps < 1 {
        1
    } else if max_fps > 120 {
        120int
    } else {
        max_fps as int
    };
    let us = 1_000_000int / rate;
    vstd::arithmetic::div_mod::lemma_fundamental_div_mod(1_000_000, rate);
    vstd::arithmetic::div_mod::lemma_mod_bound(1_000_000, rate);
    assert(0 <= us <= 1_000_000 && us * rate <= 1_000_000 < (us + 1) * rate) by (nonlinear_arith)
        requires
            1_000_000 == rate * us + 1_000_000int % rate,
            0 <= 1_000_000int % rate < rate,
            1 <= rate,
    ;
}

/// The pace is the highest rate while things happen; after fifteen turns without
/// anything it is at most twenty turns a second, after 45 at most ten.
pub proof fn lemma_pace_slows_down(l: CaptureLoop)
    ensures
        l.idle_frames <= 15 ==> l.pace() == l.interval_us,
        15 < l.idle_frames <= 45 ==> l.pace() == l.interval_us || l.pace() == 50_000,
        15 < l.idle_frames <= 45 ==> l.pace() >= 50_000 && l.pace() >= l.interval_us,
        45 < l.idle_frames ==> l.pace() == l.interval_us || l.pace() == 100_000,
        45 < l.idle_frames ==> l.pace() >= 100_000 && l.pace() >= l.interval_us,
{
}

/// Whether an event gives the root window another size than the screen has.
pub open spec fn gives_size(cap: Capture, e: CaptureEvent, width: u16, height: u16) -> bool {
    e == (CaptureEvent::Configure { window: cap.root, width, height }) && (width != cap.width
        || height != cap.height)
}

/// The screen takes the last new size that the root window is given, whatever happens
/// to other windows, and keeps its size where there is none.
pub proof fn lemma_last_new_size_counts(cap: Capture, es: Seq<CaptureEvent>)
    ensures
        match last_size(cap, es) {
            Some((w, h)) => exists|i: int|
                {
                    &&& 0 <= i < es.len()
                    &&& gives_size(cap, #[trigger] es[i], w, h)
                    &&& forall|j: int, a: u16, b: u16|
                        i < j < es.len() ==> !#[trigger] gives_size(cap, es[j], a, b)
                },
            None => forall|j: int, a: u16, b: u16|
                0 <= j < es.len() ==> !#[trigger] gives_size(cap, es[j], a, b),
        },
    decreases es.len(),
{
    if es.len() > 0 {
        let front = es.drop_last();
        let n = es.len() - 1;
        match new_size(cap, es.last()) {
            Some((w, h)) => {
                assert(gives_size(cap, es[n], w, h));
            },
            None => {
                lemma_last_new_size_counts(cap, front);
                match last_size(cap, front) {
                    Some((w, h)) => {
                        let i = choose|i: int|
                            {
                                &&& 0 <= i < front.len()
                                &&& gives_size(cap, #[trigger] front[i], w, h)
                                &&& forall|j: int, a: u16, b: u16|
                                    i < j < front.len() ==> !#[trigger] gives_size(
                                        cap,
                                        front[j],
                                        a,
                                        b,
                                    )
                            };
                        assert(gives_size(cap, es[i], w, h));
                        assert forall|j: int, a: u16, b: u16| i < j < es.len() implies !(
                        #[trigger] gives_size(cap, es[j], a, b)) by {
                            if j < n {
                                assert(!gives_size(cap, front[j], a, b));
                            }
                        }
                    },
                    None => {
                        assert forall|j: int, a: u16, b: u16| 0 <= j < es.len() implies !(
                        #[trigger] gives_size(cap, es[j], a, b)) by {
                            if j < n {
                                assert(!gives_size(cap, front[j], a, b));
                            }
                        }
                    },
                }
            },
        }
    }
}

/// A frame that cannot be trusted is read as a whole, and so is every frame where the
/// server does not report damage; else nothing is read but what was damaged.
pub proof fn lemma_what_is_read(l: CaptureLoop, seen: Seen, fetched: Seq<Rect>, px: int, py: int)
    ensures
        ({
            let rs = l.to_read(seen, fetched);
            let whole = l.stale || !l.cap.damage;
            let read = exists|j: int| 0 <= j < rs.len() && (#[trigger] rs[j]).has(px, py);
            let damaged = exists|j: int|
                0 <= j < fetched.len() && (#[trigger] fetched[j]).has(px, py);
            &&& whole ==> (read <==> 0 <= px < l.cap.width && 0 <= py < l.cap.height)
            &&& !whole ==> (read <==> seen.damaged && damaged)
        }),
{
    let rs = l.to_read(seen, fetched);
    if l.stale || !l.cap.damage {
        assert(rs[0].has(px, py) <==> 0 <= px < l.cap.width && 0 <= py < l.cap.height);
    }
}

/// A turn has seen damage if any of its events was damage, and a new cursor if any was
/// one, however many others there were.
pub proof fn lemma_events_are_seen(l: CaptureLoop, es: Seq<CaptureEvent>)
    ensures
        l.seen(es).damaged <==> exists|i: int| 0 <= i < es.len() && #[trigger] es[i] is Damage,
        l.seen(es).cursor_changed <==> exists|i: int|
            0 <= i < es.len() && #[trigger] es[i] is Cursor,
        l.seen(es).resized == last_size(l.cap, es),
{
    if exists|i: int| 0 <= i < es.len() && #[trigger] es[i] is Damage {
        let i = choose|i: int| 0 <= i < es.len() && #[trigger] es[i] is Damage;
        assert(es[i] == CaptureEvent::Damage);
    }
    if exists|i: int| 0 <= i < es.len() && #[trigger] es[i] is Cursor {
        let i = choose|i: int| 0 <= i < es.len() && #[trigger] es[i] is Cursor;
        assert(es[i] == CaptureEvent::Cursor);
    }
    if es.contains(CaptureEvent::Damage) {
        let i = choose|i: int| 0 <= i < es.len() && es[i] == CaptureEvent::Damage;
        assert(es[i] is Damage);
    }
    if es.contains(CaptureEvent::Cursor) {
        let i = choose|i: int| 0 <= i < es.len() && es[i] == CaptureEvent::Cursor;
        assert(es[i] is Cursor);
    }
}

} // verus!
