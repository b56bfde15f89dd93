//! Pointer and keyboard injection.

use std::collections::HashMap;

use vstd::prelude::*;

verus! {

broadcast use vstd::std_specs::hash::group_hash_axioms;

/// X11 keysyms we need by name.
pub const SHIFT_L: u32 = 0xffe1;

pub const SHIFT_R: u32 = 0xffe2;

/// What to have the X server do.
#[derive(Clone, Copy, Debug, PartialEq, Eq, Structural)]
pub enum FakeEvent {
    Motion { x: u16, y: u16 },
    ButtonPress(u8),
    ButtonRelease(u8),
    KeyPress(u8),
    KeyRelease(u8),
    /// Give a keycode another keysym, in each of its `count` columns.
    Remap { keycode: u8, keysym: u32, count: u8 },
}

/// The X server's keyboard mapping.
pub struct Keymap {
    pub min_keycode: u8,
    pub max_keycode: u8,
    pub keysyms_per_keycode: u8,
    /// Row by row, a row for each keycode.
    pub keysyms: Vec<u32>,
    pub keycodes_per_modifier: u8,
    /// Row by row, the first row for shift.
    pub modifiers: Vec<u8>,
}

/// What is known of the keyboard and what is held down on it.
pub struct Input {
    /// keysym -> (keycode, needs shift)
    pub map: HashMap<u32, (u8, bool)>,
    pub shift_keycode: Option<u8>,
    /// Keycodes with no symbols attached, reusable for unmapped keysyms.
    pub spare: Vec<u8>,
    /// The spare keycode that is used next.
    pub spare_next: usize,
    /// Keysyms and the spare keycodes they have been given, oldest first.
    pub remapped: Vec<(u32, u8)>,
    pub keysyms_per_keycode: u8,
    /// Keys the client currently holds down: keysym and keycode.
    pub pressed: Vec<(u32, u8)>,
    pub buttons: u8,
}

/// The keyboard, with its tables as a map and sequences.
#[verifier::ext_equal]
pub struct InputView {
    pub map: Map<u32, (u8, bool)>,
    pub shift_keycode: Option<u8>,
    pub spare: Seq<u8>,
    pub spare_next: int,
    pub remapped: Seq<(u32, u8)>,
    pub keysyms_per_keycode: u8,
    pub pressed: Seq<(u32, u8)>,
    pub buttons: u8,
}

impl View for Input {
    type V = InputView;

    open spec fn view(&self) -> InputView {
        InputView {
            map: self.map@,
            shift_keycode: self.shift_keycode,
            spare: self.spare@,
            spare_next: self.spare_next as int,
            remapped: self.remapped@,
            keysyms_per_keycode: self.keysyms_per_keycode,
            pressed: self.pressed@,
            buttons: self.buttons,
        }
    }
}

/// The keycode that goes with a keysym.
pub open spec fn lookup(s: Seq<(u32, u8)>, keysym: u32) -> Option<u8>
    decreases s.len(),
{
    if s.len() == 0 {
        None
    } else if s[0].0 == keysym {
        Some(s[0].1)
    } else {
        lookup(s.skip(1), keysym)
    }
}

/// No keysym is there twice.
pub open spec fn distinct(s: Seq<(u32, u8)>) -> bool {
    forall|i: int, j: int| 0 <= i < j < s.len() ==> (#[trigger] s[i]).0 != (#[trigger] s[j]).0
}

/// Without a keysym.
pub open spec fn without(s: Seq<(u32, u8)>, keysym: u32) -> Seq<(u32, u8)>
    decreases s.len(),
{
    if s.len() == 0 {
        s
    } else if s[0].0 == keysym {
        s.skip(1)
    } else {
        seq![s[0]] + without(s.skip(1), keysym)
    }
}

/// With a keysym's keycode, in its place if it has one.
pub open spec fn with(s: Seq<(u32, u8)>, keysym: u32, keycode: u8) -> Seq<(u32, u8)>
    decreases s.len(),
{
    if s.len() == 0 {
        seq![(keysym, keycode)]
    } else if s[0].0 == keysym {
        seq![(keysym, keycode)] + s.skip(1)
    } else {
        seq![s[0]] + with(s.skip(1), keysym, keycode)
    }
}

impl InputView {
    /// Spare keycodes are given out in turn, so the keysyms that hold one hold
    /// the most recently given, each its own; nothing is held down twice.
    pub open spec fn wf(self) -> bool {
        let n = self.spare.len() as int;
        &&& self.spare.no_duplicates()
        &&& n > 0 ==> 0 <= self.spare_next < n
        &&& self.remapped.len() <= n
        &&& forall|j: int|
            0 <= j < self.remapped.len() ==> (#[trigger] self.remapped[j]).1 == self.spare[(
            self.spare_next + n - self.remapped.len() + j) % n]
        &&& distinct(self.remapped)
        &&& forall|j: int|
            0 <= j < self.remapped.len() ==> !self.map.contains_key((#[trigger] self.remapped[j]).0)
        &&& distinct(self.pressed)
    }

    /// A keycode for a keysym and whether it needs shift, borrowing a spare
    /// keycode for symbols the current layout cannot produce. Whoever was using
    /// that keycode before is evicted.
    pub open spec fn resolved(self, keysym: u32) -> (
        InputView,
        Option<(u8, bool)>,
        Seq<FakeEvent>,
    ) {
        let n = self.spare.len() as int;
        if self.map.contains_key(keysym) {
            (self, Some(self.map[keysym]), seq![])
        } else {
            match lookup(self.remapped, keysym) {
                Some(kc) => (self, Some((kc, false)), seq![]),
                None => if n == 0 {
                    (self, None, seq![])
                } else {
                    let kc = self.spare[self.spare_next];
                    let kept = if self.remapped.len() >= n {
                        self.remapped.skip(1)
                    } else {
                        self.remapped
                    };
                    (
                        InputView {
                            spare_next: if self.spare_next + 1 == n {
                                0
                            } else {
                                self.spare_next + 1
                            },
                            remapped: kept.push((keysym, kc)),
                            ..self
                        },
                        Some((kc, false)),
                        seq![
                            FakeEvent::Remap {
                                keycode: kc,
                                keysym,
                                count: self.keysyms_per_keycode,
                            },
                        ],
                    )
                },
            }
        }
    }

    pub open spec fn holds(self, keysym: u32) -> bool {
        lookup(self.pressed, keysym) is Some
    }

    /// Release of a key that is held down.
    pub open spec fn release_of(self, keysym: u32) -> Seq<FakeEvent> {
        match lookup(self.pressed, keysym) {
            Some(kc) => seq![FakeEvent::KeyRelease(kc)],
            None => seq![],
        }
    }

    /// The shift key to press along with a key: where the key needs it and the
    /// client does not hold it itself.
    pub open spec fn shift_for(self, needs_shift: bool) -> Option<u8> {
        if needs_shift && !self.holds(SHIFT_L) && !self.holds(SHIFT_R) {
            self.shift_keycode
        } else {
            None
        }
    }

    /// A key goes down or up. A key that is down already is released and
    /// pressed again so the application sees the repeat.
    pub open spec fn after_key(self, keysym: u32, down: bool) -> (InputView, Seq<FakeEvent>) {
        if !down {
            (
                InputView { pressed: without(self.pressed, keysym), ..self },
                self.release_of(keysym),
            )
        } else {
            let (next, found, events) = self.resolved(keysym);
            match found {
                None => (next, self.release_of(keysym) + events),
                Some((kc, needs_shift)) => {
                    let press = match self.shift_for(needs_shift) {
                        Some(sk) => seq![
                            FakeEvent::KeyPress(sk),
                            FakeEvent::KeyPress(kc),
                            FakeEvent::KeyRelease(sk),
                        ],
                        None => seq![FakeEvent::KeyPress(kc)],
                    };
                    (
                        InputView { pressed: with(next.pressed, keysym, kc), ..next },
                        self.release_of(keysym) + events + press,
                    )
                },
            }
        }
    }
}

/// Whether a button is held in a mask.
pub open spec fn held(mask: u8, bit: int) -> bool {
    (mask >> (bit as u8)) & 1 == 1
}

/// The first `n` buttons as they change from one mask to another. RFB button
/// mask bits map 1:1 onto X button numbers 1..=8.
pub open spec fn button_changes(before: u8, now: u8, n: int) -> Seq<FakeEvent>
    decreases n,
{
    if n <= 0 {
        seq![]
    } else {
        let front = button_changes(before, now, n - 1);
        if held(before, n - 1) == held(now, n - 1) {
            front
        } else if held(now, n - 1) {
            front.push(FakeEvent::ButtonPress(n as u8))
        } else {
            front.push(FakeEvent::ButtonRelease(n as u8))
        }
    }
}

/// Release of every key in a list.
pub open spec fn key_releases(s: Seq<(u32, u8)>) -> Seq<FakeEvent> {
    s.map_values(|p: (u32, u8)| FakeEvent::KeyRelease(p.1))
}

fn find(s: &Vec<(u32, u8)>, keysym: u32) -> (r: Option<usize>)
    ensures
        match r {
            Some(i) => {
                &&& i < s@.len()
                &&& s@[i as int].0 == keysym
                &&& lookup(s@, keysym) == Some(s@[i as int].1)
                &&& without(s@, keysym) == s@.remove(i as int)
                &&& forall|kc: u8| #[trigger]
                    with(s@, keysym, kc) == s@.update(i as int, (keysym, kc))
            },
            None => {
                &&& lookup(s@, keysym) is None
                &&& without(s@, keysym) == s@
                &&& forall|kc: u8| #[trigger] with(s@, keysym, kc) == s@.push((keysym, kc))
                &&& forall|i: int| 0 <= i < s@.len() ==> (#[trigger] s@[i]).0 != keysym
            },
        },
{
    for i in 0..s.len()
        invariant
            forall|j: int| 0 <= j < i ==> (#[trigger] s@[j]).0 != keysym,
    {
        if s[i].0 == keysym {
            proof {
                lemma_found(s@, keysym, i as int);
            }
            return Some(i);
        }
    }
    proof {
        lemma_missing(s@, keysym);
    }
    None
}

proof fn lemma_found(s: Seq<(u32, u8)>, keysym: u32, i: int)
    requires
        0 <= i < s.len(),
        s[i].0 == keysym,
        forall|j: int| 0 <= j < i ==> (#[trigger] s[j]).0 != keysym,
    ensures
        lookup(s, keysym) == Some(s[i].1),
        without(s, keysym) == s.remove(i),
        forall|kc: u8| #[trigger] with(s, keysym, kc) == s.update(i, (keysym, kc)),
    decreases i,
{
    if i > 0 {
        let t = s.skip(1);
        assert forall|j: int| 0 <= j < i - 1 implies (#[trigger] t[j]).0 != keysym by {
            assert(t[j] == s[j + 1]);
        }
        assert(s[0].0 != keysym);
        lemma_found(t, keysym, i - 1);
        assert(s.remove(i) =~= seq![s[0]] + t.remove(i - 1));
        assert forall|kc: u8| #[trigger] with(s, keysym, kc) == s.update(i, (keysym, kc)) by {
            assert(with(t, keysym, kc) == t.update(i - 1, (keysym, kc)));
            assert(s.update(i, (keysym, kc)) =~= seq![s[0]] + t.update(i - 1, (keysym, kc)));
        }
    } else {
        assert(s.remove(0) =~= s.skip(1));
        assert forall|kc: u8| #[trigger] with(s, keysym, kc) == s.update(i, (keysym, kc)) by {
            assert(s.update(0, (keysym, kc)) =~= seq![(keysym, kc)] + s.skip(1));
        }
    }
}

proof fn lemma_missing(s: Seq<(u32, u8)>, keysym: u32)
    requires
        forall|j: int| 0 <= j < s.len() ==> (#[trigger] s[j]).0 != keysym,
    ensures
        lookup(s, keysym) is None,
        without(s, keysym) == s,
        forall|kc: u8| #[trigger] with(s, keysym, kc) == s.push((keysym, kc)),
    decreases s.len(),
{
    if s.len() > 0 {
        let t = s.skip(1);
        assert forall|j: int| 0 <= j < t.len() implies (#[trigger] t[j]).0 != keysym by {
            assert(t[j] == s[j + 1]);
        }
        assert(s[0].0 != keysym);
        lemma_missing(t, keysym);
        assert(s =~= seq![s[0]] + t);
        assert forall|kc: u8| #[trigger] with(s, keysym, kc) == s.push((keysym, kc)) by {
            assert(with(t, keysym, kc) == t.push((keysym, kc)));
            assert(s.push((keysym, kc)) =~= seq![s[0]] + t.push((keysym, kc)));
        }
    } else {
        assert forall|kc: u8| #[trigger] with(s, keysym, kc) == s.push((keysym, kc)) by {
            assert(s.push((keysym, kc)) =~= seq![(keysym, kc)]);
        }
    }
}

impl Input {
    /// Find a keycode for a keysym, borrowing a spare keycode for symbols the
    /// current layout cannot produce.
    fn resolve(&mut self, keysym: u32, out: &mut Vec<FakeEvent>) -> (r: Option<(u8, bool)>)
        requires
            old(self)@.wf(),
        ensures
            final(self)@ == old(self)@.resolved(keysym).0,
            final(self)@.wf(),
            r == old(self)@.resolved(keysym).1,
            final(out)@ == old(out)@ + old(self)@.resolved(keysym).2,
    {
        let ghost none = Seq::<FakeEvent>::empty();
        if let Some(v) = self.map.get(&keysym) {
            assert(out@ =~= old(out)@ + none);
            return Some(*v);
        }
        if let Some(i) = find(&self.remapped, keysym) {
            assert(out@ =~= old(out)@ + none);
            return Some((self.remapped[i].1, false));
        }
        let n: usize = self.spare.len();
        if n == 0 {
            assert(out@ =~= old(out)@ + none);
            return None;
        }
        let kc: u8 = self.spare[self.spare_next];
        if self.remapped.len() >= n {
            let _evicted = self.remapped.remove(0);
            assert(self.remapped@ =~= old(self).remapped@.skip(1));
        }
        self.remapped.push((keysym, kc));
        self.spare_next = if self.spare_next + 1 == n {
            0
        } else {
            self.spare_next + 1
        };
        let event = FakeEvent::Remap { keycode: kc, keysym, count: self.keysyms_per_keycode };
        out.push(event);
        assert(out@ =~= old(out)@ + seq![event]);
        proof {
            lemma_spares_in_turn(old(self)@, keysym);
        }
        Some((kc, false))
    }

    /// A key goes down or up.
    pub fn key(&mut self, keysym: u32, down: bool) -> (events: Vec<FakeEvent>)
        requires
            old(self)@.wf(),
        ensures
            final(self)@ == old(self)@.after_key(keysym, down).0,
            final(self)@.wf(),
            events@ == old(self)@.after_key(keysym, down).1,
    {
        let ghost before = self@;
        let mut out: Vec<FakeEvent> = Vec::new();
        let at: Option<usize> = find(&self.pressed, keysym);
        match at {
            Some(i) => {
                out.push(FakeEvent::KeyRelease(self.pressed[i].1));
            },
            None => {},
        }
        assert(out@ =~= before.release_of(keysym));
        if !down {
            match at {
                Some(i) => {
                    let _gone = self.pressed.remove(i);
                    assert(distinct(self.pressed@));
                },
                None => {},
            }
            return out;
        }
        let shift_held: bool = find(&self.pressed, SHIFT_L).is_some() || find(
            &self.pressed,
            SHIFT_R,
        ).is_some();
        match self.resolve(keysym, &mut out) {
            None => {},
            Some((kc, needs_shift)) => {
                let shift: Option<u8> = if needs_shift && !shift_held {
                    self.shift_keycode
                } else {
                    None
                };
                let ghost so_far = out@;
                match shift {
                    Some(sk) => {
                        out.push(FakeEvent::KeyPress(sk));
                        out.push(FakeEvent::KeyPress(kc));
                        out.push(FakeEvent::KeyRelease(sk));
                        let ghost press = seq![
                            FakeEvent::KeyPress(sk),
                            FakeEvent::KeyPress(kc),
                            FakeEvent::KeyRelease(sk),
                        ];
                        assert(out@ =~= so_far + press);
                    },
                    None => {
                        out.push(FakeEvent::KeyPress(kc));
                        assert(out@ =~= so_far + seq![FakeEvent::KeyPress(kc)]);
                    },
                }
                match at {
                    Some(i) => {
                        self.pressed[i] = (keysym, kc);
                        assert(self.pressed@ =~= before.pressed.update(i as int, (keysym, kc)));
                    },
                    None => {
                        self.pressed.push((keysym, kc));
                        assert(self.pressed@ =~= before.pressed.push((keysym, kc)));
                    },
                }
                assert(self.pressed@ == with(before.pressed, keysym, kc));
                assert(distinct(self.pressed@));
            },
        }
        out
    }

    /// The pointer moves, and its buttons go down or up.
    pub fn pointer(&mut self, x: u16, y: u16, mask: u8) -> (events: Vec<FakeEvent>)
        ensures
            final(self)@ == (InputView { buttons: mask, ..old(self)@ }),
            events@ == seq![FakeEvent::Motion { x, y }] + button_changes(
                old(self).buttons,
                mask,
                8,
            ),
    {
        let mut out: Vec<FakeEvent> = Vec::new();
        out.push(FakeEvent::Motion { x, y });
        let before: u8 = self.buttons;
        push_button_changes(before, mask, &mut out);
        self.buttons = mask;
        assert(out@ =~= seq![FakeEvent::Motion { x, y }] + button_changes(before, mask, 8));
        out
    }

    /// Release everything this client left held down.
    pub fn release_all(&mut self) -> (events: Vec<FakeEvent>)
        requires
            old(self)@.wf(),
        ensures
            final(self)@ == (InputView { pressed: seq![], buttons: 0, ..old(self)@ }),
            final(self)@.wf(),
            events@ == key_releases(old(self)@.pressed) + button_changes(old(self).buttons, 0, 8),
    {
        let mut out: Vec<FakeEvent> = Vec::new();
        for i in 0..self.pressed.len()
            invariant
                out@.len() == i,
                forall|j: int|
                    0 <= j < i ==> #[trigger] out@[j] == key_releases(self.pressed@)[j],
        {
            out.push(FakeEvent::KeyRelease(self.pressed[i].1));
        }
        assert(out@ =~= key_releases(self.pressed@));
        self.pressed.clear();
        assert(self.pressed@ =~= Seq::<(u32, u8)>::empty());
        let held_down: u8 = self.buttons;
        push_button_changes(held_down, 0, &mut out);
        self.buttons = 0;
        out
    }
}

fn push_button_changes(before: u8, now: u8, out: &mut Vec<FakeEvent>)
    ensures
        final(out)@ == old(out)@ + button_changes(before, now, 8),
{
    assert(out@ =~= old(out)@ + button_changes(before, now, 0));
    for bit in 0..8u8
        invariant
            out@ == old(out)@ + button_changes(before, now, bit as int),
    {
        let is_held: bool = (now >> bit) & 1 == 1;
        let was_held: bool = (before >> bit) & 1 == 1;
        if is_held != was_held {
            out.push(
                if is_held {
                    FakeEvent::ButtonPress(bit + 1)
                } else {
                    FakeEvent::ButtonRelease(bit + 1)
                },
            );
        }
        assert(out@ =~= old(out)@ + button_changes(before, now, bit + 1));
    }
}

proof fn lemma_spares_in_turn(v: InputView, keysym: u32)
    requires
        v.wf(),
        v.spare.len() > 0,
        !v.map.contains_key(keysym),
        forall|j: int| 0 <= j < v.remapped.len() ==> (#[trigger] v.remapped[j]).0 != keysym,
        lookup(v.remapped, keysym) is None,
    ensures
        v.resolved(keysym).0.wf(),
{
    let n = v.spare.len() as int;
    let w = v.resolved(keysym).0;
    let (a, b) = (v.remapped, w.remapped);
    let drop = b.len() <= a.len();
    assert forall|j: int| 0 <= j < b.len() implies (#[trigger] b[j]).1 == v.spare[(w.spare_next + n
        - b.len() + j) % n] by {
        let at = w.spare_next + n - b.len() + j;
        if j == b.len() - 1 {
            assert(b[j].1 == v.spare[v.spare_next]);
            if v.spare_next + 1 == n {
                assert(w.spare_next == 0);
                assert(at == n - 1);
                assert(at % n == v.spare_next) by {
                    vstd::arithmetic::div_mod::lemma_small_mod((n - 1) as nat, n as nat);
                }
            } else {
                assert(at == v.spare_next + n);
                vstd::arithmetic::div_mod::lemma_mod_add_multiples_vanish(v.spare_next, n);
                vstd::arithmetic::div_mod::lemma_small_mod(v.spare_next as nat, n as nat);
            }
        } else {
            let k = if a.len() >= n {
                j + 1
            } else {
                j
            };
            assert(b[j] == a[k]);
            assert(a[k].1 == v.spare[(v.spare_next + n - a.len() + k) % n]);
            let was = v.spare_next + n - a.len() + k;
            if v.spare_next + 1 == n {
                assert(w.spare_next == 0);
                assert(at + n == was || at == was);
                vstd::arithmetic::div_mod::lemma_mod_add_multiples_vanish(at, n);
            } else {
                assert(at == was);
            }
        }
    }
    assert forall|i: int, j: int| 0 <= i < j < b.len() implies (#[trigger] b[i]).0 != (
    #[trigger] b[j]).0 by {
        let d: int = if a.len() >= n {
            1
        } else {
            0
        };
        assert(b[i] == a[i + d]);
        if j < b.len() - 1 {
            assert(b[j] == a[j + d]);
        }
    }
    assert forall|j: int| 0 <= j < b.len() implies !w.map.contains_key((#[trigger] b[j]).0) by {
        let d: int = if a.len() >= n {
            1
        } else {
            0
        };
        if j < b.len() - 1 {
            assert(b[j] == a[j + d]);
        }
    }
}

impl Keymap {
    /// Columns of the mapping.
    pub open spec fn columns(self) -> int {
        if self.keysyms_per_keycode == 0 {
            1
        } else {
            self.keysyms_per_keycode as int
        }
    }

    /// Number of keycodes.
    pub open spec fn count(self) -> int {
        self.max_keycode - self.min_keycode + 1
    }

    /// There is a row for every keycode.
    pub open spec fn wf(self) -> bool {
        &&& self.min_keycode <= self.max_keycode
        &&& self.count() <= 255
        &&& self.count() * self.columns() <= self.keysyms@.len()
    }

    /// The keysym in a row and a column.
    pub open spec fn at(self, row: int, col: int) -> u32 {
        self.keysyms@[row * self.columns() + col]
    }

    /// Whether a row has no symbols at all.
    pub open spec fn blank(self, row: int) -> bool {
        forall|col: int| 0 <= col < self.columns() ==> #[trigger] self.at(row, col) == 0
    }

    /// The keycode of a row.
    pub open spec fn keycode(self, row: int) -> u8 {
        (self.min_keycode + row) as u8
    }

    /// Where the symbols of the first `n` rows are found: each by the first
    /// key that has it. Column 0 is unshifted, column 1 is shifted; later
    /// columns need group switching, which we do not drive.
    pub open spec fn symbols(self, n: int) -> Map<u32, (u8, bool)>
        decreases n,
    {
        if n <= 0 {
            Map::empty()
        } else {
            let m = first_kept(
                self.symbols(n - 1),
                self.at(n - 1, 0),
                (self.keycode(n - 1), false),
            );
            if self.columns() > 1 {
                first_kept(m, self.at(n - 1, 1), (self.keycode(n - 1), true))
            } else {
                m
            }
        }
    }

    /// The keycodes of the first `n` rows that have no symbols.
    pub open spec fn spares(self, n: int) -> Seq<u8>
        decreases n,
    {
        if n <= 0 {
            seq![]
        } else if self.blank(n - 1) {
            self.spares(n - 1).push(self.keycode(n - 1))
        } else {
            self.spares(n - 1)
        }
    }

    /// The first key of the shift modifier.
    pub open spec fn shift(self) -> Option<u8> {
        if self.modifiers@.len() < self.keycodes_per_modifier {
            None
        } else {
            first_set(self.modifiers@.take(self.keycodes_per_modifier as int))
        }
    }
}

/// A symbol goes into a map unless it is none or there already.
pub open spec fn first_kept(
    m: Map<u32, (u8, bool)>,
    sym: u32,
    v: (u8, bool),
) -> Map<u32, (u8, bool)> {
    if sym == 0 || m.contains_key(sym) {
        m
    } else {
        m.insert(sym, v)
    }
}

/// The first keycode that is not zero.
pub open spec fn first_set(s: Seq<u8>) -> Option<u8>
    decreases s.len(),
{
    if s.len() == 0 {
        None
    } else if s[0] != 0 {
        Some(s[0])
    } else {
        first_set(s.skip(1))
    }
}

fn find_set(s: &[u8]) -> (r: Option<u8>)
    ensures
        r == first_set(s@),
{
    assert(s@.skip(0) =~= s@);
    for i in 0..s.len()
        invariant
            first_set(s@) == first_set(s@.skip(i as int)),
    {
        if s[i] != 0 {
            return Some(s[i]);
        }
        assert(s@.skip(i as int).skip(1) =~= s@.skip(i + 1));
    }
    None
}

fn keep_first(map: &mut HashMap<u32, (u8, bool)>, sym: u32, v: (u8, bool))
    ensures
        final(map)@ == first_kept(old(map)@, sym, v),
{
    if sym != 0 && !map.contains_key(&sym) {
        map.insert(sym, v);
    }
}

proof fn lemma_spares(k: Keymap, n: int)
    requires
        k.wf(),
        0 <= n <= k.count(),
    ensures
        k.spares(n).no_duplicates(),
        forall|i: int| 0 <= i < k.spares(n).len() ==> (#[trigger] k.spares(n)[i]) < k.min_keycode + n,
    decreases n,
{
    if n > 0 {
        lemma_spares(k, n - 1);
        let front = k.spares(n - 1);
        assert forall|i: int| 0 <= i < front.len() implies front[i] < k.min_keycode + n - 1 by {}
    }
}

proof fn lemma_cell(k: Keymap, row: int, col: int)
    requires
        k.wf(),
        0 <= row < k.count(),
        0 <= col < k.columns(),
    ensures
        0 <= row * k.columns() + col < k.keysyms@.len(),
{
    assert(0 <= row * k.columns() && row * k.columns() + k.columns() <= k.count() * k.columns())
        by (nonlinear_arith)
        requires
            0 <= row < k.count(),
            0 < k.columns(),
    ;
}

fn row_is_blank(k: &Keymap, row: usize, per: usize) -> (b: bool)
    requires
        k.wf(),
        row < k.count(),
        per == k.columns(),
    ensures
        b == k.blank(row as int),
{
    for col in 0..per
        invariant
            k.wf(),
            row < k.count(),
            per == k.columns(),
            forall|c: int| 0 <= c < col ==> #[trigger] k.at(row as int, c) == 0,
    {
        proof {
            lemma_cell(*k, row as int, col as int);
        }
        let n: usize = k.keysyms.len();
        assert(0 <= row * per) by (nonlinear_arith);
        if k.keysyms[row * per + col] != 0 {
            assert(k.at(row as int, col as int) != 0);
            return false;
        }
    }
    true
}

impl Input {
    /// A keyboard on which nothing is held down.
    pub fn open(k: &Keymap) -> (input: Self)
        requires
            k.wf(),
        ensures
            input@.wf(),
            input@ == (InputView {
                map: k.symbols(k.count()),
                shift_keycode: k.shift(),
                spare: k.spares(k.count()),
                spare_next: 0,
                remapped: seq![],
                keysyms_per_keycode: k.columns() as u8,
                pressed: seq![],
                buttons: 0,
            }),
    {
        let mut input = Input {
            map: HashMap::new(),
            shift_keycode: None,
            spare: Vec::new(),
            spare_next: 0,
            remapped: Vec::new(),
            keysyms_per_keycode: 1,
            pressed: Vec::new(),
            buttons: 0,
        };
        input.load_keymap(k);
        input
    }

    fn load_keymap(&mut self, k: &Keymap)
        requires
            k.wf(),
        ensures
            final(self)@ == (InputView {
                map: k.symbols(k.count()),
                shift_keycode: k.shift(),
                spare: k.spares(k.count()),
                keysyms_per_keycode: k.columns() as u8,
                ..old(self)@
            }),
            final(self).spare@.no_duplicates(),
    {
        let per: usize = if k.keysyms_per_keycode == 0 {
            1
        } else {
            k.keysyms_per_keycode as usize
        };
        let count: usize = k.max_keycode as usize - k.min_keycode as usize + 1;
        let mut map: HashMap<u32, (u8, bool)> = HashMap::new();
        let mut spare: Vec<u8> = Vec::new();
        assert(spare@ =~= k.spares(0));
        for row in 0..count
            invariant
                k.wf(),
                per == k.columns(),
                count == k.count(),
                map@ == k.symbols(row as int),
                spare@ == k.spares(row as int),
        {
            let keycode: u8 = (k.min_keycode as usize + row) as u8;
            let n: usize = k.keysyms.len();
            proof {
                lemma_cell(*k, row as int, 0);
                if per > 1 {
                    lemma_cell(*k, row as int, 1);
                }
                assert(0 <= row * per) by (nonlinear_arith);
            }
            if row_is_blank(k, row, per) {
                assert(k.at(row as int, 0) == 0);
                assert(per > 1 ==> k.at(row as int, 1) == 0);
                spare.push(keycode);
            } else {
                keep_first(&mut map, k.keysyms[row * per], (keycode, false));
                if per > 1 {
                    keep_first(&mut map, k.keysyms[row * per + 1], (keycode, true));
                }
            }
        }
        proof {
            lemma_spares(*k, k.count());
        }
        self.map = map;
        self.spare = spare;
        self.keysyms_per_keycode = per as u8;
        let per_mod: usize = k.keycodes_per_modifier as usize;
        self.shift_keycode = if k.modifiers.len() < per_mod {
            None
        } else {
            assert(k.modifiers@.subrange(0, per_mod as int) =~= k.modifiers@.take(per_mod as int));
            find_set(&k.modifiers.as_slice()[0..per_mod])
        };
    }
}

/// No two keysyms share a spare keycode.
pub proof fn lemma_spare_keycodes_are_not_shared(v: InputView, i: int, j: int)
    requires
        v.wf(),
        0 <= i < j < v.remapped.len(),
    ensures
        v.remapped[i].1 != v.remapped[j].1,
{
    let n = v.spare.len() as int;
    let base = v.spare_next + n - v.remapped.len();
    let (a, b) = (base + i, base + j);
    assert(v.remapped[i].1 == v.spare[a % n]);
    assert(v.remapped[j].1 == v.spare[b % n]);
    assert(0 < b - a < n);
    assert(a % n != b % n) by {
        if a % n == b % n {
            vstd::arithmetic::div_mod::lemma_fundamental_div_mod(a, n);
            vstd::arithmetic::div_mod::lemma_fundamental_div_mod(b, n);
            let (p, q) = (a / n, b / n);
            assert(b - a == n * (q - p)) by (nonlinear_arith)
                requires
                    a == n * p + a % n,
                    b == n * q + b % n,
                    a % n == b % n,
            ;
            assert(false) by (nonlinear_arith)
                requires
                    0 < n * (q - p) < n,
                    n > 0,
            ;
        }
    }
    vstd::arithmetic::div_mod::lemma_mod_bound(a, n);
    vstd::arithmetic::div_mod::lemma_mod_bound(b, n);
}

/// When a key that went down comes up again, the keycode that was pressed for
/// it is released, whatever has been pressed in between.
pub proof fn lemma_release_matches_press(s: Seq<(u32, u8)>, keysym: u32, keycode: u8, other: u32)
    requires
        distinct(s),
    ensures
        lookup(with(s, keysym, keycode), keysym) == Some(keycode),
        other != keysym ==> lookup(with(s, keysym, keycode), other) == lookup(s, other),
        lookup(without(s, keysym), keysym) is None,
        other != keysym ==> lookup(without(s, keysym), other) == lookup(s, other),
    decreases s.len(),
{
    if s.len() == 0 {
        assert(with(s, keysym, keycode).skip(1) =~= s);
    } else {
        let t = s.skip(1);
        assert forall|i: int, j: int| 0 <= i < j < t.len() implies (#[trigger] t[i]).0 != (
        #[trigger] t[j]).0 by {
            assert(t[i] == s[i + 1] && t[j] == s[j + 1]);
        }
        lemma_release_matches_press(t, keysym, keycode, other);
        let w = with(s, keysym, keycode);
        let o = without(s, keysym);
        if s[0].0 == keysym {
            assert(w.skip(1) =~= t);
            assert forall|j: int| 0 <= j < t.len() implies (#[trigger] t[j]).0 != keysym by {
                assert(t[j] == s[j + 1]);
                assert(s[0].0 != s[j + 1].0);
            }
            lemma_missing(t, keysym);
        } else {
            assert(w.skip(1) =~= with(t, keysym, keycode));
            assert(o.skip(1) =~= without(t, keysym));
        }
    }
}

/// Buttons that stay as they are cause no events, and letting all of them go
/// only releases.
pub proof fn lemma_buttons_only_change(mask: u8, n: int)
    requires
        0 <= n <= 8,
    ensures
        button_changes(mask, mask, n) == Seq::<FakeEvent>::empty(),
        forall|i: int|
            0 <= i < button_changes(mask, 0, n).len() ==> (#[trigger] button_changes(mask, 0, n)[i])
                is ButtonRelease,
    decreases n,
{
    if n > 0 {
        lemma_buttons_only_change(mask, n - 1);
        let bit = (n - 1) as u8;
        assert((0u8 >> bit) & 1 == 0) by (bit_vector);
        assert(!held(0, n - 1));
    }
}

/// Columns of a keymap; it has at least one.
pub open spec fn width_of(k: Keymap) -> int {
    if k.keysyms_per_keycode > 0 {
        k.keysyms_per_keycode as int
    } else {
        1
    }
}

/// The symbol that a keycode has on the display, by itself or together with shift.
pub open spec fn symbol_on(k: Keymap, keycode: int, shifted: bool) -> u32 {
    k.keysyms@[(keycode - k.min_keycode) * width_of(k) + (if shifted {
        1int
    } else {
        0
    })]
}

/// Whether a keycode has a symbol by itself or together with shift: one for shift
/// takes a second column.
pub open spec fn has_symbol(k: Keymap, keycode: int, shifted: bool) -> bool {
    k.min_keycode <= keycode <= k.max_keycode && (shifted ==> width_of(k) > 1)
}

proof fn lemma_symbols_so_far(k: Keymap, n: int, sym: u32)
    requires
        k.wf(),
        0 <= n <= k.count(),
    ensures
        k.symbols(n).contains_key(sym) ==> {
            let (kc, shift) = k.symbols(n)[sym];
            &&& sym != 0
            &&& kc < k.min_keycode + n
            &&& has_symbol(k, kc as int, shift)
            &&& symbol_on(k, kc as int, shift) == sym
            &&& forall|other: int, s: bool|
                has_symbol(k, other, s) && (other < kc || other == kc && !s && shift)
                    ==> #[trigger] symbol_on(k, other, s) != sym
        },
        forall|other: int, s: bool|
            has_symbol(k, other, s) && other < k.min_keycode + n && #[trigger] symbol_on(
                k,
                other,
                s,
            ) == sym && sym != 0 ==> k.symbols(n).contains_key(sym),
    decreases n,
{
    if n > 0 {
        lemma_symbols_so_far(k, n - 1, sym);
        let kc = k.min_keycode + n - 1;
        assert(symbol_on(k, kc, false) == k.at(n - 1, 0));
        assert(k.columns() > 1 ==> symbol_on(k, kc, true) == k.at(n - 1, 1));
        assert(k.keycode(n - 1) == kc);
    }
}

/// A symbol is typed with the key that has it: by itself if it stands in the key's
/// first column, with shift if it stands in the second, however many columns there
/// are. Every symbol in either column can be typed, with the first key that has it.
pub proof fn lemma_symbols_are_where_the_keymap_has_them(
    k: Keymap,
    sym: u32,
    keycode: int,
    shifted: bool,
)
    requires
        k.wf(),
    ensures
        ({
            let m = k.symbols(k.count());
            &&& m.contains_key(sym) ==> {
                let (kc, shift) = m[sym];
                &&& sym != 0
                &&& has_symbol(k, kc as int, shift)
                &&& symbol_on(k, kc as int, shift) == sym
                &&& has_symbol(k, keycode, shifted) && symbol_on(k, keycode, shifted) == sym ==> kc
                    < keycode || kc == keycode && (shift ==> shifted)
            }
            &&& has_symbol(k, keycode, shifted) && symbol_on(k, keycode, shifted) == sym && sym
                != 0 ==> m.contains_key(sym)
        }),
{
    lemma_symbols_so_far(k, k.count(), sym);
}

proof fn lemma_spares_so_far(k: Keymap, n: int, kc: u8)
    requires
        k.wf(),
        0 <= n <= k.count(),
    ensures
        k.spares(n).contains(kc) <==> k.min_keycode <= kc < k.min_keycode + n && forall|col: int|
            0 <= col < width_of(k) ==> #[trigger] k.keysyms@[(kc - k.min_keycode) * width_of(k)
                + col] == 0,
    decreases n,
{
    if n > 0 {
        lemma_spares_so_far(k, n - 1, kc);
        let front = k.spares(n - 1);
        let last = k.keycode(n - 1);
        assert(last == k.min_keycode + n - 1);
        if k.blank(n - 1) {
            let all = k.spares(n);
            assert(all[all.len() - 1] == last);
            if front.contains(kc) {
                let i = choose|i: int| 0 <= i < front.len() && front[i] == kc;
                assert(all[i] == kc);
            }
            if kc == last {
                assert forall|col: int| 0 <= col < width_of(k) implies #[trigger] k.keysyms@[(kc
                    - k.min_keycode) * width_of(k) + col] == 0 by {
                    assert(k.at(n - 1, col) == 0);
                }
            }
            if all.contains(kc) && kc != last {
                let i = choose|i: int| 0 <= i < all.len() && all[i] == kc;
                assert(front[i] == kc);
            }
        } else if kc == last {
            let col = choose|col: int| 0 <= col < k.columns() && #[trigger] k.at(n - 1, col) != 0;
            assert(k.keysyms@[(kc - k.min_keycode) * width_of(k) + col] != 0);
        }
    }
}

/// The keycodes that are borrowed for other symbols are those without any symbol.
pub proof fn lemma_spares_have_no_symbols(k: Keymap, kc: u8)
    requires
        k.wf(),
    ensures
        k.spares(k.count()).contains(kc) <==> k.min_keycode <= kc <= k.max_keycode && forall|
            col: int,
        |
            0 <= col < width_of(k) ==> #[trigger] k.keysyms@[(kc - k.min_keycode) * width_of(k)
                + col] == 0,
{
    lemma_spares_so_far(k, k.count(), kc);
}

proof fn lemma_first_set(s: Seq<u8>)
    ensures
        match first_set(s) {
            Some(kc) => kc != 0 && exists|i: int|
                0 <= i < s.len() && #[trigger] s[i] == kc && forall|j: int|
                    0 <= j < i ==> #[trigger] s[j] == 0,
            None => forall|i: int| 0 <= i < s.len() ==> #[trigger] s[i] == 0,
        },
    decreases s.len(),
{
    if s.len() > 0 && s[0] == 0 {
        let t = s.skip(1);
        lemma_first_set(t);
        match first_set(t) {
            Some(kc) => {
                let i = choose|i: int|
                    0 <= i < t.len() && #[trigger] t[i] == kc && forall|j: int|
                        0 <= j < i ==> #[trigger] t[j] == 0;
                assert(s[i + 1] == kc);
                assert forall|j: int| 0 <= j < i + 1 implies #[trigger] s[j] == 0 by {
                    if j > 0 {
                        assert(t[j - 1] == 0);
                    }
                }
            },
            None => {
                assert forall|i: int| 0 <= i < s.len() implies #[trigger] s[i] == 0 by {
                    if i > 0 {
                        assert(t[i - 1] == 0);
                    }
                }
            },
        }
    } else if s.len() > 0 {
        assert(s[0] == s[0] && forall|j: int| 0 <= j < 0 ==> #[trigger] s[j] == 0);
    }
}

/// Shift is pressed with the first keycode that the server lists for it.
pub proof fn lemma_shift_is_the_modifier(k: Keymap)
    ensures
        ({
            let n = k.keycodes_per_modifier as int;
            match k.shift() {
                Some(kc) => n <= k.modifiers@.len() && kc != 0 && exists|i: int|
                    0 <= i < n && #[trigger] k.modifiers@[i] == kc && forall|j: int|
                        0 <= j < i ==> #[trigger] k.modifiers@[j] == 0,
                None => n > k.modifiers@.len() || forall|i: int|
                    0 <= i < n ==> #[trigger] k.modifiers@[i] == 0,
            }
        }),
{
    let n = k.keycodes_per_modifier as int;
    if n <= k.modifiers@.len() {
        let s = k.modifiers@.take(n);
        lemma_first_set(s);
        match k.shift() {
            Some(kc) => {
                let i = choose|i: int|
                    0 <= i < s.len() && #[trigger] s[i] == kc && forall|j: int|
                        0 <= j < i ==> #[trigger] s[j] == 0;
                assert(k.modifiers@[i] == kc);
                assert forall|j: int| 0 <= j < i implies #[trigger] k.modifiers@[j] == 0 by {
                    assert(s[j] == 0);
                }
            },
            None => {
                assert forall|i: int| 0 <= i < n implies #[trigger] k.modifiers@[i] == 0 by {
                    assert(s[i] == 0);
                }
            },
        }
    }
}

/// What the display's keys stand for, by themselves and together with shift.
pub type KeyTable = Map<(u8, bool), u32>;

/// The table after an event: a remapped key stands for its new symbol, with and
/// without shift.
pub open spec fn table_after(table: KeyTable, e: FakeEvent) -> KeyTable {
    match e {
        FakeEvent::Remap { keycode, keysym, count } => table.insert((keycode, false), keysym).insert(
            (keycode, true),
            keysym,
        ),
        _ => table,
    }
}

/// Whether shift is down after an event.
pub open spec fn shift_after(shift_key: Option<u8>, down: bool, e: FakeEvent) -> bool {
    match e {
        FakeEvent::KeyPress(kc) => down || shift_key == Some(kc),
        FakeEvent::KeyRelease(kc) => down && shift_key != Some(kc),
        _ => down,
    }
}

/// What the display types as events reach it, one after another: each key that goes
/// down, but for shift, the symbol it stands for at that moment.
pub open spec fn typed(
    table: KeyTable,
    shift_key: Option<u8>,
    down: bool,
    events: Seq<FakeEvent>,
) -> Seq<u32>
    decreases events.len(),
{
    if events.len() == 0 {
        seq![]
    } else {
        let e = events[0];
        (match e {
            FakeEvent::KeyPress(kc) => if shift_key == Some(kc) {
                seq![]
            } else {
                seq![table[(kc, down)]]
            },
            _ => seq![],
        }) + typed(
            table_after(table, e),
            shift_key,
            shift_after(shift_key, down, e),
            events.skip(1),
        )
    }
}

/// The table once all of some events have reached the display.
pub open spec fn table_after_all(table: KeyTable, events: Seq<FakeEvent>) -> KeyTable
    decreases events.len(),
{
    if events.len() == 0 {
        table
    } else {
        table_after(table_after_all(table, events.drop_last()), events.last())
    }
}

/// Whether a keyboard knows what the display's keys stand for: its own symbols and
/// those it has borrowed keys for. Borrowed keys have no symbols of their own, and
/// shift is not one of them.
pub open spec fn knows(v: InputView, table: KeyTable) -> bool {
    &&& forall|sym: u32| #[trigger]
        v.map.contains_key(sym) ==> table[v.map[sym]] == sym && !v.spare.contains(v.map[sym].0)
    &&& forall|j: int|
        0 <= j < v.remapped.len() ==> {
            let (sym, kc) = #[trigger] v.remapped[j];
            table[(kc, false)] == sym && table[(kc, true)] == sym
        }
    &&& v.shift_keycode matches Some(sk) ==> !v.spare.contains(sk)
}

proof fn lemma_lookup_is_there(s: Seq<(u32, u8)>, keysym: u32)
    ensures
        match lookup(s, keysym) {
            Some(kc) => exists|j: int| 0 <= j < s.len() && #[trigger] s[j] == (keysym, kc),
            None => forall|j: int| 0 <= j < s.len() ==> (#[trigger] s[j]).0 != keysym,
        },
    decreases s.len(),
{
    if s.len() > 0 && s[0].0 != keysym {
        let t = s.skip(1);
        lemma_lookup_is_there(t, keysym);
        match lookup(s, keysym) {
            Some(kc) => {
                let j = choose|j: int| 0 <= j < t.len() && #[trigger] t[j] == (keysym, kc);
                assert(s[j + 1] == (keysym, kc));
            },
            None => {
                assert forall|j: int| 0 <= j < s.len() implies (#[trigger] s[j]).0 != keysym by {
                    if j > 0 {
                        assert(t[j - 1].0 != keysym);
                    }
                }
            },
        }
    } else if s.len() > 0 {
        assert(s[0] == (keysym, s[0].1));
    }
}

proof fn lemma_typed_skips(table: KeyTable, sk: Option<u8>, down: bool, e: FakeEvent, rest: Seq<FakeEvent>)
    ensures
        typed(table, sk, down, seq![e] + rest) == (match e {
            FakeEvent::KeyPress(kc) => if sk == Some(kc) {
                seq![]
            } else {
                seq![table[(kc, down)]]
            },
            _ => seq![],
        }) + typed(table_after(table, e), sk, shift_after(sk, down, e), rest),
{
    assert((seq![e] + rest).skip(1) =~= rest);
}

/// A key that goes down types its symbol, once, with shift pressed around it where
/// the key needs that, and with a key borrowed for it where no key has it; and the
/// keyboard still knows what the display's keys stand for.
pub proof fn lemma_key_types_its_symbol(v: InputView, table: KeyTable, keysym: u32)
    requires
        v.wf(),
        knows(v, table),
        // Shift itself types nothing.
        v.map.contains_key(keysym) ==> Some(v.map[keysym].0) != v.shift_keycode,
        forall|j: int|
            0 <= j < v.remapped.len() ==> Some((#[trigger] v.remapped[j]).1) != v.shift_keycode,
        v.shift_keycode is None || lookup(v.pressed, keysym) != v.shift_keycode,
        // A key that needs shift can have it, and one that does not is not pressed
        // while the client holds shift.
        v.map.contains_key(keysym) ==> (if v.holds(0xffe1) || v.holds(0xffe2) {
            v.map[keysym].1
        } else {
            v.map[keysym].1 ==> v.shift_keycode is Some
        }),
    ensures
        ({
            let (next, events) = v.after_key(keysym, true);
            let shift = v.holds(0xffe1) || v.holds(0xffe2);
            &&& knows(next, table_after_all(table, events))
            &&& typed(table, v.shift_keycode, shift, events) == (if v.map.contains_key(keysym)
                || lookup(v.remapped, keysym) is Some || v.spare.len() > 0 {
                seq![keysym]
            } else {
                seq![]
            })
        }),
{
    let (next, events) = v.after_key(keysym, true);
    let shift = v.holds(SHIFT_L) || v.holds(SHIFT_R);
    let sk = v.shift_keycode;
    let (mid, found, remap) = v.resolved(keysym);
    let up = v.release_of(keysym);
    lemma_lookup_is_there(v.remapped, keysym);
    let after = if remap.len() > 0 {
        table_after(table, remap[0])
    } else {
        table
    };
    let press: Seq<FakeEvent> = match found {
        None => seq![],
        Some((kc, needs)) => match v.shift_for(needs) {
            Some(s) => seq![FakeEvent::KeyPress(s), FakeEvent::KeyPress(kc), FakeEvent::KeyRelease(s)],
            None => seq![FakeEvent::KeyPress(kc)],
        },
    };
    assert(events =~= up + remap + press);
    // The release of a key types nothing and leaves shift alone.
    let tail = remap + press;
    if up.len() > 0 {
        assert(events =~= seq![up[0]] + tail);
        lemma_typed_skips(table, sk, shift, up[0], tail);
    } else {
        assert(events =~= tail);
    }
    assert(typed(table, sk, shift, events) =~= typed(table, sk, shift, tail));
    if remap.len() > 0 {
        assert(tail =~= seq![remap[0]] + press);
        lemma_typed_skips(table, sk, shift, remap[0], press);
    } else {
        assert(tail =~= press);
    }
    assert(typed(table, sk, shift, events) =~= typed(after, sk, shift, press));
    // What the keys stand for afterwards.
    reveal_with_fuel(table_after_all, 6);
    assert(table_after_all(table, events) == after) by {
        lemma_presses_keep_table(after, press);
        lemma_tables_add_up(table, up + remap, press);
        lemma_tables_add_up(table, up, remap);
        if remap.len() > 0 {
            assert(remap.drop_last() =~= seq![]);
        }
        if up.len() > 0 {
            assert(up.drop_last() =~= seq![]);
        }
    }
    assert(knows(mid, after)) by {
        lemma_borrowing_keeps_knowledge(v, table, keysym);
    }
    assert(knows(next, after));
    match found {
        None => {},
        Some((kc, needs)) => {
            reveal_with_fuel(typed, 5);
            assert(after[(kc, shift || needs)] == keysym);
            assert(sk != Some(kc));
            if v.shift_for(needs) is Some {
                assert(press.skip(1).len() == 2 && press.skip(1).skip(1).len() == 1);
                assert(press.skip(1)[0] == press[1] && press.skip(1).skip(1)[0] == press[2]);
            }
            assert(typed(after, sk, shift, press) =~= seq![keysym]);
        },
    }
}

proof fn lemma_tables_add_up(table: KeyTable, a: Seq<FakeEvent>, b: Seq<FakeEvent>)
    ensures
        table_after_all(table, a + b) == table_after_all(table_after_all(table, a), b),
    decreases b.len(),
{
    if b.len() == 0 {
        assert(a + b =~= a);
    } else {
        lemma_tables_add_up(table, a, b.drop_last());
        assert((a + b).drop_last() =~= a + b.drop_last());
    }
}

proof fn lemma_presses_keep_table(table: KeyTable, events: Seq<FakeEvent>)
    requires
        forall|i: int| 0 <= i < events.len() ==> !((#[trigger] events[i]) is Remap),
    ensures
        table_after_all(table, events) == table,
    decreases events.len(),
{
    if events.len() > 0 {
        lemma_presses_keep_table(table, events.drop_last());
    }
}

proof fn lemma_borrowing_keeps_knowledge(v: InputView, table: KeyTable, keysym: u32)
    requires
        v.wf(),
        knows(v, table),
    ensures
        ({
            let (mid, found, remap) = v.resolved(keysym);
            let after = if remap.len() > 0 {
                table_after(table, remap[0])
            } else {
                table
            };
            &&& mid.wf()
            &&& knows(mid, after)
            &&& !v.map.contains_key(keysym) && found is Some ==> {
                let (kc, needs) = found->Some_0;
                !needs && after[(kc, false)] == keysym && after[(kc, true)] == keysym
            }
            &&& remap.len() > 0 ==> found is Some && v.spare.contains((found->Some_0).0)
        }),
{
    lemma_lookup_is_there(v.remapped, keysym);
    let (mid, found, remap) = v.resolved(keysym);
    if remap.len() > 0 {
        let kc = v.spare[v.spare_next];
        let after = table_after(table, remap[0]);
        lemma_spares_in_turn(v, keysym);
        assert(v.spare.contains(kc));
        let last = mid.remapped.len() - 1;
        assert(mid.remapped[last] == (keysym, kc));
        assert forall|j: int| 0 <= j < mid.remapped.len() implies {
            let (sym, code) = #[trigger] mid.remapped[j];
            after[(code, false)] == sym && after[(code, true)] == sym
        } by {
            if j < last {
                lemma_spare_keycodes_are_not_shared(mid, j, last);
                let d: int = if v.remapped.len() >= v.spare.len() {
                    1
                } else {
                    0
                };
                assert(mid.remapped[j] == v.remapped[j + d]);
            }
        }
    }
}

/// A keyboard that has just been read knows what the display's keys stand for.
pub proof fn lemma_keyboard_knows_its_keys(v: InputView, k: Keymap, table: KeyTable)
    requires
        k.wf(),
        v.map == k.symbols(k.count()),
        v.spare == k.spares(k.count()),
        v.shift_keycode == k.shift(),
        v.remapped.len() == 0,
        forall|kc: u8, s: bool|
            has_symbol(k, kc as int, s) ==> #[trigger] table[(kc, s)] == symbol_on(k, kc as int, s),
        k.shift() matches Some(sk) ==> !k.spares(k.count()).contains(sk),
    ensures
        knows(v, table),
{
    assert forall|sym: u32| #[trigger] v.map.contains_key(sym) implies table[v.map[sym]] == sym
        && !v.spare.contains(v.map[sym].0) by {
        lemma_symbols_so_far(k, k.count(), sym);
        let (kc, shift) = v.map[sym];
        lemma_spares_have_no_symbols(k, kc);
        if v.spare.contains(kc) {
            let col: int = if shift {
                1
            } else {
                0
            };
            assert(k.keysyms@[(kc - k.min_keycode) * width_of(k) + col] == 0);
        }
    }
}

/// The key that went down for a symbol comes up when the symbol is let go, once.
pub proof fn lemma_key_up_releases_what_went_down(v: InputView, keysym: u32)
    requires
        v.wf(),
        v.map.contains_key(keysym) || lookup(v.remapped, keysym) is Some || v.spare.len() > 0,
    ensures
        ({
            let (down, pressed) = v.after_key(keysym, true);
            let (up, released) = down.after_key(keysym, false);
            &&& released.len() == 1
            &&& released[0] matches FakeEvent::KeyRelease(kc) && pressed.contains(
                FakeEvent::KeyPress(kc),
            )
            &&& up.after_key(keysym, false).1.len() == 0
        }),
{
    let (down, pressed) = v.after_key(keysym, true);
    let (mid, found, remap) = v.resolved(keysym);
    let kc = (found->Some_0).0;
    lemma_release_matches_press(v.pressed, keysym, kc, keysym);
    let n = pressed.len() as int;
    if v.shift_for((found->Some_0).1) is Some {
        assert(pressed[n - 2] == FakeEvent::KeyPress(kc));
    } else {
        assert(pressed[n - 1] == FakeEvent::KeyPress(kc));
    }
    let (up, released) = down.after_key(keysym, false);
    assert(distinct(down.pressed)) by {
        lemma_with_is_distinct(v.pressed, keysym, kc);
    }
    lemma_release_matches_press(down.pressed, keysym, kc, keysym);
}

proof fn lemma_with_is_distinct(s: Seq<(u32, u8)>, keysym: u32, kc: u8)
    requires
        distinct(s),
    ensures
        distinct(with(s, keysym, kc)),
{
    lemma_lookup_is_there(s, keysym);
    if lookup(s, keysym) is None {
        lemma_missing(s, keysym);
        assert(with(s, keysym, kc) == s.push((keysym, kc)));
    } else {
        let i = choose|i: int| 0 <= i < s.len() && (#[trigger] s[i]).0 == keysym;
        assert forall|j: int| 0 <= j < i implies (#[trigger] s[j]).0 != keysym by {
            assert(s[j].0 != s[i].0);
        }
        lemma_found(s, keysym, i);
        assert(with(s, keysym, kc) == s.update(i, (keysym, kc)));
    }
}

proof fn lemma_changes_so_far(before: u8, now: u8, n: int, bit: u8)
    requires
        0 <= n <= 8,
        bit < 8,
    ensures
        ({
            let was_held = (before >> bit) & 1 == 1;
            let is_held = (now >> bit) & 1 == 1;
            let e = button_changes(before, now, n);
            &&& e.contains(FakeEvent::ButtonPress((bit + 1) as u8)) <==> bit < n && is_held && !was_held
            &&& e.contains(FakeEvent::ButtonRelease((bit + 1) as u8)) <==> bit < n && was_held && !is_held
            &&& forall|i: int|
                0 <= i < e.len() ==> ((#[trigger] e[i]) matches FakeEvent::ButtonPress(b) && 1 <= b
                    <= n) || (e[i] matches FakeEvent::ButtonRelease(b) && 1 <= b <= n)
            &&& e.no_duplicates()
        }),
    decreases n,
{
    let e = button_changes(before, now, n);
    let (press, release) = (
        FakeEvent::ButtonPress((bit + 1) as u8),
        FakeEvent::ButtonRelease((bit + 1) as u8),
    );
    if n > 0 {
        lemma_changes_so_far(before, now, n - 1, bit);
        let front = button_changes(before, now, n - 1);
        if e.len() > front.len() {
            assert(e[e.len() - 1] == e.last());
            assert(e =~= front.push(e.last()));
            assert forall|x: FakeEvent| #[trigger] e.contains(x) <==> front.contains(x) || x
                == e.last() by {
                if e.contains(x) {
                    let i = choose|i: int| 0 <= i < e.len() && e[i] == x;
                    if i < front.len() {
                        assert(front[i] == x);
                    }
                }
                if front.contains(x) {
                    let i = choose|i: int| 0 <= i < front.len() && front[i] == x;
                    assert(e[i] == x);
                }
            }
            assert forall|i: int, j: int| 0 <= i < j < e.len() implies e[i] != e[j] by {
                assert(e[i] == front[i]);
                if j < front.len() {
                    assert(e[j] == front[j]);
                }
            }
        }
        assert(e.contains(press) || !e.contains(press));
        assert(e.contains(release) || !e.contains(release));
    }
}

/// A button that goes down in the mask is pressed, one that goes up is released,
/// each once, and nothing else happens: bit by bit, the buttons one to eight.
pub proof fn lemma_buttons_follow_the_mask(before: u8, now: u8, bit: u8)
    requires
        bit < 8,
    ensures
        ({
            let was_held = (before >> bit) & 1 == 1;
            let is_held = (now >> bit) & 1 == 1;
            let e = button_changes(before, now, 8);
            &&& e.contains(FakeEvent::ButtonPress((bit + 1) as u8)) <==> is_held && !was_held
            &&& e.contains(FakeEvent::ButtonRelease((bit + 1) as u8)) <==> was_held && !is_held
            &&& forall|i: int|
                0 <= i < e.len() ==> ((#[trigger] e[i]) matches FakeEvent::ButtonPress(b) && 1 <= b
                    <= 8) || (e[i] matches FakeEvent::ButtonRelease(b) && 1 <= b <= 8)
            &&& e.no_duplicates()
        }),
{
    lemma_changes_so_far(before, now, 8, bit);
}

/// Every key that is held down is among those that are let go, and no other.
pub proof fn lemma_held_keys_are_let_go(s: Seq<(u32, u8)>, kc: u8)
    ensures
        key_releases(s).contains(FakeEvent::KeyRelease(kc)) <==> exists|i: int|
            0 <= i < s.len() && (#[trigger] s[i]).1 == kc,
        key_releases(s).len() == s.len(),
        forall|i: int| 0 <= i < s.len() ==> (#[trigger] key_releases(s)[i]) is KeyRelease,
{
    let e = key_releases(s);
    if e.contains(FakeEvent::KeyRelease(kc)) {
        let i = choose|i: int| 0 <= i < e.len() && e[i] == FakeEvent::KeyRelease(kc);
        assert(s[i].1 == kc);
    }
    if exists|i: int| 0 <= i < s.len() && (#[trigger] s[i]).1 == kc {
        let i = choose|i: int| 0 <= i < s.len() && (#[trigger] s[i]).1 == kc;
        assert(e[i] == FakeEvent::KeyRelease(kc));
    }
}

/// A key that is held already comes up before it goes down again, so that the display
/// sees it twice.
pub proof fn lemma_repeats_are_seen(v: InputView, keysym: u32)
    requires
        lookup(v.pressed, keysym) is Some,
    ensures
        ({
            let events = v.after_key(keysym, true).1;
            events.len() > 0 && events[0] == FakeEvent::KeyRelease(
                lookup(v.pressed, keysym)->Some_0,
            )
        }),
        v.after_key(keysym, false).1 == seq![
            FakeEvent::KeyRelease(lookup(v.pressed, keysym)->Some_0),
        ],
{
}

/// A key is borrowed for a symbol that no key has, one that has no symbol of its own, in
/// all of its columns; the symbol keeps it, and asking again borrows nothing.
pub proof fn lemma_borrowed_keys_are_kept(v: InputView, keysym: u32)
    requires
        v.wf(),
        !v.map.contains_key(keysym),
        lookup(v.remapped, keysym) is None,
        v.spare.len() > 0,
    ensures
        ({
            let (next, found, events) = v.resolved(keysym);
            &&& found is Some && v.spare.contains((found->Some_0).0)
            &&& events == seq![
                FakeEvent::Remap {
                    keycode: (found->Some_0).0,
                    keysym,
                    count: v.keysyms_per_keycode,
                },
            ]
            &&& next.resolved(keysym) == (next, found, Seq::<FakeEvent>::empty())
            &&& next.map == v.map && next.spare == v.spare && next.pressed == v.pressed
            &&& next.shift_keycode == v.shift_keycode && next.buttons == v.buttons
        }),
{
    let (next, found, events) = v.resolved(keysym);
    lemma_lookup_is_there(v.remapped, keysym);
    lemma_spares_in_turn(v, keysym);
    assert(v.spare[v.spare_next] == (found->Some_0).0);
    let n = next.remapped.len() - 1;
    assert(next.remapped[n] == (keysym, (found->Some_0).0));
    lemma_lookup_is_there(next.remapped, keysym);
    let kc = lookup(next.remapped, keysym)->Some_0;
    let j = choose|j: int| 0 <= j < next.remapped.len() && #[trigger] next.remapped[j] == (
        keysym,
        kc,
    );
    if j < n {
        assert(next.remapped[j].0 != next.remapped[n].0);
    }
}

/// A key is borrowed in as many columns as the keymap has.
pub proof fn lemma_keymap_has_its_columns(k: Keymap)
    ensures
        k.columns() == width_of(k),
        k.keysyms_per_keycode > 0 ==> k.columns() == k.keysyms_per_keycode,
{
}

/// Where a key is free it is borrowed, and every symbol that has one keeps its own; where
/// none is, the symbol that has had its key longest gives it up, and only that one.
pub proof fn lemma_longest_borrower_gives_way(v: InputView, keysym: u32, i: int)
    requires
        v.wf(),
        !v.map.contains_key(keysym),
        lookup(v.remapped, keysym) is None,
        v.spare.len() > 0,
    ensures
        ({
            let (next, found, events) = v.resolved(keysym);
            let kc = (found->Some_0).0;
            if v.remapped.len() < v.spare.len() {
                &&& next.remapped == v.remapped.push((keysym, kc))
                &&& 0 <= i < v.remapped.len() ==> v.remapped[i].1 != kc
            } else {
                &&& next.remapped == v.remapped.skip(1).push((keysym, kc))
                &&& kc == v.remapped[0].1
            }
        }),
{
    let (next, found, events) = v.resolved(keysym);
    let n = v.spare.len() as int;
    lemma_lookup_is_there(v.remapped, keysym);
    lemma_spares_in_turn(v, keysym);
    if v.remapped.len() < n {
        if 0 <= i < v.remapped.len() {
            let last = next.remapped.len() - 1;
            assert(next.remapped[i] == v.remapped[i]);
            lemma_spare_keycodes_are_not_shared(next, i, last);
        }
    } else {
        assert(v.remapped[0].1 == v.spare[(v.spare_next + n - n + 0) % n]);
        vstd::arithmetic::div_mod::lemma_small_mod(v.spare_next as nat, n as nat);
    }
}

/// What a key that goes down comes to, whatever is held: the key that has its symbol, or
/// the one borrowed for it, and shift around it where the key needs it, shift has a key
/// and the client holds neither of its own. A key that comes up without having gone down
/// comes to nothing.
pub proof fn lemma_shift_is_pressed_where_needed(v: InputView, keysym: u32)
    ensures
        ({
            let (next, found, borrowed) = v.resolved(keysym);
            let first = v.after_key(keysym, false).1;
            let held = lookup(v.pressed, 0xffe1) is Some || lookup(v.pressed, 0xffe2) is Some;
            &&& v.map.contains_key(keysym) ==> found == Some(v.map[keysym]) && next == v
            &&& !v.map.contains_key(keysym) && lookup(v.remapped, keysym) is Some ==> found == Some(
                (lookup(v.remapped, keysym)->Some_0, false),
            ) && next == v
            &&& !v.map.contains_key(keysym) && lookup(v.remapped, keysym) is None && v.spare.len()
                == 0 ==> found is None && next == v
            &&& next == v ==> borrowed.len() == 0
            &&& found is None ==> v.after_key(keysym, true) == (next, first + borrowed)
            &&& found is Some ==> {
                let (kc, needs) = found->Some_0;
                v.after_key(keysym, true).1 == first + borrowed + (if needs && !held
                    && v.shift_keycode is Some {
                    seq![
                        FakeEvent::KeyPress(v.shift_keycode->Some_0),
                        FakeEvent::KeyPress(kc),
                        FakeEvent::KeyRelease(v.shift_keycode->Some_0),
                    ]
                } else {
                    seq![FakeEvent::KeyPress(kc)]
                })
            }
            &&& lookup(v.pressed, keysym) is None ==> first.len() == 0
        }),
{
    if !v.map.contains_key(keysym) && lookup(v.remapped, keysym) is None && v.spare.len() > 0 {
        let next = v.resolved(keysym).0;
        if next == v {
            // A symbol that has just been given a key is listed last.
            lemma_lookup_is_there(v.remapped, keysym);
            assert(next.remapped.last().0 == keysym);
            assert(v.remapped[v.remapped.len() - 1].0 == keysym);
        }
    }
}

} // verus!
