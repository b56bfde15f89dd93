//! X selection bridge, so copy and paste work in both directions.
//!
//! An unmapped window owns CLIPBOARD and PRIMARY when the browser copies
//! something, and XFIXES tells us when anything else on the display takes
//! ownership so we can read the new text and forward it.

use vstd::prelude::*;
use vstd::utf8::{decode_utf8, encode_utf8, valid_utf8};

use crate::bytes::{copy_bytes, joined, push_all};
use crate::text::lemma_char_code;

verus! {

/// Ignore anything larger than this; clipboards that big are a mistake.
pub const MAX_TEXT: usize = 0x10_0000;

/// No atom, no window.
pub const NONE: u32 = 0;

/// A character in Latin-1, or a question mark where it has none.
pub open spec fn latin1_byte(c: char) -> u8 {
    if (c as u32) < 256 {
        c as u8
    } else {
        63
    }
}

/// Text in Latin-1.
pub open spec fn latin1_of(text: Seq<char>) -> Seq<u8> {
    text.map_values(|c: char| latin1_byte(c))
}

/// RFB carries clipboard text as Latin-1. Characters outside it cannot be
/// represented, so they become '?' rather than corrupting the stream.
pub fn to_latin1(text: &str) -> (v: Vec<u8>)
    ensures
        v@ == latin1_of(text@),
{
    let mut v: Vec<u8> = Vec::new();
    for c in it: text.chars()
        invariant
            it.seq() == text@,
            v@.len() == it.index(),
            forall|i: int| 0 <= i < v@.len() ==> #[trigger] v@[i] == latin1_byte(text@[i]),
    {
        let n: u32 = c as u32;
        proof {
            lemma_char_code(c);
        }
        v.push(
            if n < 256 {
                n as u8
            } else {
                63
            },
        );
    }
    assert(v@ =~= latin1_of(text@));
    v
}

pub fn from_latin1(bytes: &[u8]) -> (s: String)
    ensures
        s@ == bytes@.map_values(|b: u8| b as char),
{
    let mut s: String = String::new();
    for i in 0..bytes.len()
        invariant
            s@.len() == i,
            forall|j: int| 0 <= j < i ==> #[trigger] s@[j] == bytes@[j] as char,
    {
        s.push(bytes[i] as char);
    }
    assert(s@ =~= bytes@.map_values(|b: u8| b as char));
    s
}

/// Latin-1 bytes survive being read and written again, and so does text that
/// Latin-1 can represent.
pub proof fn lemma_latin1_round_trip(b: Seq<u8>, s: Seq<char>)
    ensures
        latin1_of(b.map_values(|x: u8| x as char)) == b,
        (forall|i: int| 0 <= i < s.len() ==> (#[trigger] s[i] as u32) < 256) ==> latin1_of(
            s,
        ).map_values(|x: u8| x as char) == s,
{
    let there = b.map_values(|x: u8| x as char);
    assert forall|i: int| 0 <= i < b.len() implies latin1_byte(#[trigger] there[i]) == b[i] by {
        let x: u8 = b[i];
        let c: char = x as char;
        assert(c as u32 == x);
    }
    assert(latin1_of(there) =~= b);
    let back = latin1_of(s);
    if forall|i: int| 0 <= i < s.len() ==> (#[trigger] s[i] as u32) < 256 {
        assert forall|i: int| 0 <= i < s.len() implies #[trigger] back[i] as char == s[i] by {
            lemma_char_code(s[i]);
        }
        assert(back.map_values(|x: u8| x as char) =~= s);
    }
}

/// What `String::from_utf8_lossy` makes of bytes.
pub uninterp spec fn utf8_lossy(bytes: Seq<u8>) -> Seq<char>;

/// The text of bytes that are UTF-8; what stands for others is left to std.
pub open spec fn utf8_text(bytes: Seq<u8>) -> Seq<char> {
    if valid_utf8(bytes) {
        decode_utf8(bytes)
    } else {
        utf8_lossy(bytes)
    }
}

/// `String::from_utf8_lossy`, made into a `String`: the text of bytes that are
/// UTF-8. What stands for bytes that are not has a name, and nothing more is
/// said of it.
#[verifier::external_body]
pub(crate) fn read_utf8(bytes: &[u8]) -> (s: String)
    ensures
        s@ == utf8_lossy(bytes@),
        valid_utf8(bytes@) ==> s@ == decode_utf8(bytes@),
{
    String::from_utf8_lossy(bytes).into_owned()
}

/// The atoms that the bridge speaks of.
#[derive(Clone, Copy, Debug, PartialEq, Eq, Structural)]
pub struct Atoms {
    pub clipboard: u32,
    pub primary: u32,
    pub targets: u32,
    pub utf8_string: u32,
    pub text: u32,
    pub string: u32,
    pub incr: u32,
    pub property: u32,
}

/// A transfer in pieces: huge selections arrive in chunks.
pub enum Incoming {
    /// None is going on.
    Idle,
    /// What has arrived so far.
    Chunks(Vec<u8>),
    /// One that has grown too large; what is left of it is not kept.
    Skipping,
}

/// A transfer in pieces, as a sequence of bytes.
pub enum IncomingView {
    Idle,
    Chunks(Seq<u8>),
    Skipping,
}

impl View for Incoming {
    type V = IncomingView;

    open spec fn view(&self) -> IncomingView {
        match *self {
            Incoming::Idle => IncomingView::Idle,
            Incoming::Chunks(b) => IncomingView::Chunks(b@),
            Incoming::Skipping => IncomingView::Skipping,
        }
    }
}

/// A property's value has been read: how the transfer goes on, and the bytes
/// of a text that is complete. `more` says that the value was longer than what
/// was read of it.
pub open spec fn received(
    inc: IncomingView,
    is_incr: bool,
    value: Seq<u8>,
    more: bool,
) -> (IncomingView, Option<Seq<u8>>) {
    match inc {
        IncomingView::Idle => if is_incr {
            (IncomingView::Chunks(seq![]), None)
        } else if value.len() == 0 || more {
            (IncomingView::Idle, None)
        } else {
            (IncomingView::Idle, Some(value))
        },
        IncomingView::Chunks(b) => if value.len() == 0 {
            (
                IncomingView::Idle,
                if b.len() == 0 {
                    None
                } else {
                    Some(b)
                },
            )
        } else if more || b.len() + value.len() > MAX_TEXT {
            (IncomingView::Skipping, None)
        } else {
            (IncomingView::Chunks(b + value), None)
        },
        IncomingView::Skipping => (
            if value.len() == 0 {
                IncomingView::Idle
            } else {
                IncomingView::Skipping
            },
            None,
        ),
    }
}

/// What happens to selections on the display.
pub enum SelectionEvent {
    /// XFIXES: a window has taken a selection.
    OwnerChanged { owner: u32, selection: u32 },
    /// The text that was asked for is in a property of our window.
    Arrived { property: u32 },
    /// A property of our window has a new value.
    PropertySet { property: u32 },
    /// A program asks for our text.
    Asked(SelectionAsk),
    /// Another program has taken a selection that was ours.
    Lost,
    Other,
}

/// A program's request for a selection.
#[derive(Clone, Copy, Debug, PartialEq, Eq, Structural)]
pub struct SelectionAsk {
    pub time: u32,
    pub requestor: u32,
    pub selection: u32,
    pub target: u32,
    pub property: u32,
}

/// What a program that asked is answered: what to put in its property, if
/// anything, and the property to name in the notification.
pub struct SelectionAnswer {
    pub property: u32,
    pub contents: AnswerContents,
}

pub enum AnswerContents {
    /// We cannot provide that format.
    Refused,
    /// The formats that we can provide.
    Targets(Vec<u32>),
    /// The text, under the format that was asked for.
    Text(Vec<u8>),
}

/// What an answer puts in a property, as sequences.
pub enum ContentsView {
    Refused,
    Targets(Seq<u32>),
    Text(Seq<u8>),
}

impl View for AnswerContents {
    type V = ContentsView;

    open spec fn view(&self) -> ContentsView {
        match *self {
            AnswerContents::Refused => ContentsView::Refused,
            AnswerContents::Targets(t) => ContentsView::Targets(t@),
            AnswerContents::Text(t) => ContentsView::Text(t@),
        }
    }
}

/// What to do about an event.
pub enum SelectionAction {
    Nothing,
    /// Ask the owner of a selection for its text.
    Convert { selection: u32 },
    /// Read our property.
    Read,
    Answer(SelectionAnswer),
}

/// The bridge's end of the display's selections.
pub struct Clipboard {
    pub window: u32,
    pub atoms: Atoms,
    /// The text we currently offer to X clients, set from the browser side.
    pub ours: String,
    pub incoming: Incoming,
}

impl Clipboard {
    /// Where an answer goes: obsolete clients leave the property unset.
    pub open spec fn property_for(ask: SelectionAsk) -> u32 {
        if ask.property == NONE {
            ask.target
        } else {
            ask.property
        }
    }

    /// What a request is answered.
    pub open spec fn contents_for(self, target: u32) -> ContentsView {
        if target == self.atoms.targets {
            ContentsView::Targets(
                seq![
                    self.atoms.targets,
                    self.atoms.utf8_string,
                    self.atoms.text,
                    self.atoms.string,
                ],
            )
        } else if target == self.atoms.utf8_string || target == self.atoms.text || target
            == self.atoms.string {
            ContentsView::Text(encode_utf8(self.ours@))
        } else {
            ContentsView::Refused
        }
    }

    /// A bridge that offers nothing yet, and the selection whose text it wants
    /// first: whatever is already on the clipboard predates us, so the first
    /// client does not start out with an empty one.
    pub fn open(window: u32, atoms: Atoms) -> (r: (Self, u32))
        ensures
            r.0.window == window,
            r.0.atoms == atoms,
            r.0.ours@ == Seq::<char>::empty(),
            r.0.incoming@ is Idle,
            r.1 == atoms.clipboard,
    {
        let c = Clipboard { window, atoms, ours: String::new(), incoming: Incoming::Idle };
        assert(c.ours@ =~= Seq::<char>::empty());
        (c, atoms.clipboard)
    }

    /// Offer `text` to the X display, as if the user had copied it there; the
    /// selections to take are given back.
    pub fn set(&mut self, text: String) -> (own: (u32, u32))
        ensures
            final(self).ours@ == text@,
            final(self).window == old(self).window,
            final(self).atoms == old(self).atoms,
            final(self).incoming == old(self).incoming,
            own == (old(self).atoms.clipboard, old(self).atoms.primary),
    {
        self.ours = text;
        (self.atoms.clipboard, self.atoms.primary)
    }

    /// Hand our text to a program on the display that asked for it.
    pub fn answer_request(&self, ask: &SelectionAsk) -> (a: SelectionAnswer)
        ensures
            a.contents@ == self.contents_for(ask.target),
            a.property == (if self.contents_for(ask.target) is Refused {
                NONE
            } else {
                Clipboard::property_for(*ask)
            }),
    {
        let property: u32 = if ask.property == NONE {
            ask.target
        } else {
            ask.property
        };
        if ask.target == self.atoms.targets {
            let mut targets: Vec<u32> = Vec::new();
            targets.push(self.atoms.targets);
            targets.push(self.atoms.utf8_string);
            targets.push(self.atoms.text);
            targets.push(self.atoms.string);
            let ghost listed = seq![
                self.atoms.targets,
                self.atoms.utf8_string,
                self.atoms.text,
                self.atoms.string,
            ];
            assert(targets@ =~= listed);
            SelectionAnswer { property, contents: AnswerContents::Targets(targets) }
        } else if ask.target == self.atoms.utf8_string || ask.target == self.atoms.text
            || ask.target == self.atoms.string {
            let text: Vec<u8> = copy_bytes(self.ours.as_str().as_bytes());
            SelectionAnswer { property, contents: AnswerContents::Text(text) }
        } else {
            SelectionAnswer { property: NONE, contents: AnswerContents::Refused }
        }
    }

    /// Decide what an event calls for.
    ///
    /// Text that this process put on the display itself is never asked for.
    pub fn on_event(&mut self, ev: &SelectionEvent) -> (a: SelectionAction)
        ensures
            final(self).window == old(self).window,
            final(self).atoms == old(self).atoms,
            final(self).ours@ == (if ev is Lost {
                Seq::<char>::empty()
            } else {
                old(self).ours@
            }),
            final(self).incoming@ == (match *ev {
                SelectionEvent::Arrived { property } => if property != NONE {
                    IncomingView::Idle
                } else {
                    old(self).incoming@
                },
                _ => old(self).incoming@,
            }),
            match *ev {
                SelectionEvent::OwnerChanged { owner, selection } => if owner != old(self).window
                    && owner != NONE {
                    a == (SelectionAction::Convert { selection })
                } else {
                    a is Nothing
                },
                SelectionEvent::Arrived { property } => if property != NONE {
                    a is Read
                } else {
                    a is Nothing
                },
                SelectionEvent::PropertySet { property } => if property == old(self).atoms.property
                    && old(self).incoming@ !is Idle {
                    a is Read
                } else {
                    a is Nothing
                },
                SelectionEvent::Asked(ask) => match a {
                    SelectionAction::Answer(ans) => {
                        &&& ans.contents@ == old(self).contents_for(ask.target)
                        &&& ans.property == (if old(self).contents_for(ask.target) is Refused {
                            NONE
                        } else {
                            Clipboard::property_for(ask)
                        })
                    },
                    _ => false,
                },
                SelectionEvent::Lost => a is Nothing,
                SelectionEvent::Other => a is Nothing,
            },
    {
        match ev {
            SelectionEvent::OwnerChanged { owner, selection } => {
                if *owner != self.window && *owner != NONE {
                    SelectionAction::Convert { selection: *selection }
                } else {
                    SelectionAction::Nothing
                }
            },
            SelectionEvent::Arrived { property } => {
                if *property != NONE {
                    self.incoming = Incoming::Idle;
                    SelectionAction::Read
                } else {
                    SelectionAction::Nothing
                }
            },
            SelectionEvent::PropertySet { property } => {
                let waiting: bool = match &self.incoming {
                    Incoming::Idle => false,
                    _ => true,
                };
                if *property == self.atoms.property && waiting {
                    SelectionAction::Read
                } else {
                    SelectionAction::Nothing
                }
            },
            SelectionEvent::Asked(ask) => SelectionAction::Answer(self.answer_request(ask)),
            SelectionEvent::Lost => {
                self.ours = String::new();
                assert(self.ours@ =~= Seq::<char>::empty());
                SelectionAction::Nothing
            },
            SelectionEvent::Other => SelectionAction::Nothing,
        }
    }

    /// Our property has been read: it had type `kind`, began with `value`, and
    /// `more` says whether it went on beyond that. The text is given back once
    /// it is complete.
    pub fn read_property(&mut self, kind: u32, value: &[u8], more: bool) -> (text: Option<String>)
        ensures
            final(self).window == old(self).window,
            final(self).atoms == old(self).atoms,
            final(self).ours == old(self).ours,
            final(self).incoming@ == received(
                old(self).incoming@,
                kind == old(self).atoms.incr,
                value@,
                more,
            ).0,
            match received(old(self).incoming@, kind == old(self).atoms.incr, value@, more).1 {
                Some(b) => text matches Some(t) && t@ == utf8_text(b),
                None => text is None,
            },
    {
        match &mut self.incoming {
            Incoming::Idle => {
                if kind == self.atoms.incr {
                    let empty: Vec<u8> = Vec::new();
                    assert(empty@ =~= Seq::<u8>::empty());
                    self.incoming = Incoming::Chunks(empty);
                    None
                } else if value.len() == 0 || more {
                    None
                } else {
                    Some(read_utf8(value))
                }
            },
            Incoming::Chunks(b) => {
                if value.len() == 0 {
                    let text: Option<String> = if b.len() == 0 {
                        None
                    } else {
                        Some(read_utf8(b.as_slice()))
                    };
                    self.incoming = Incoming::Idle;
                    text
                } else if more || value.len() > MAX_TEXT || b.len() > MAX_TEXT - value.len() {
                    self.incoming = Incoming::Skipping;
                    None
                } else {
                    push_all(b, value);
                    None
                }
            },
            Incoming::Skipping => {
                if value.len() == 0 {
                    self.incoming = Incoming::Idle;
                }
                None
            },
        }
    }
}

/// A transfer after some chunks.
pub open spec fn fed(inc: IncomingView, chunks: Seq<Seq<u8>>) -> IncomingView
    decreases chunks.len(),
{
    if chunks.len() == 0 {
        inc
    } else {
        received(fed(inc, chunks.drop_last()), false, chunks.last(), false).0
    }
}

/// A text that arrives in chunks is delivered whole, once, when the empty
/// chunk that ends it arrives.
pub proof fn lemma_chunks_are_delivered_whole(chunks: Seq<Seq<u8>>)
    requires
        forall|i: int| 0 <= i < chunks.len() ==> (#[trigger] chunks[i]).len() > 0,
        joined(chunks).len() <= MAX_TEXT,
    ensures
        ({
            let start = received(IncomingView::Idle, true, seq![], false).0;
            &&& fed(start, chunks) == IncomingView::Chunks(joined(chunks))
            &&& chunks.len() > 0 ==> received(fed(start, chunks), false, seq![], false) == (
                IncomingView::Idle,
                Some(joined(chunks)),
            )
        }),
    decreases chunks.len(),
{
    if chunks.len() > 0 {
        let front = chunks.drop_last();
        assert forall|i: int| 0 <= i < front.len() implies (#[trigger] front[i]).len() > 0 by {
            assert(front[i] == chunks[i]);
        }
        lemma_chunks_are_delivered_whole(front);
        assert(chunks.last() == chunks[chunks.len() - 1]);
    }
}

/// Text in Latin-1 has a byte for every character: its code, or a question mark where
/// the code is no byte.
pub proof fn lemma_latin1_byte_by_byte(s: Seq<char>, i: int)
    requires
        0 <= i < s.len(),
    ensures
        latin1_of(s).len() == s.len(),
        latin1_of(s)[i] == if (s[i] as u32) < 256 {
            s[i] as u32 as int
        } else {
            '?' as u32 as int
        },
{
    lemma_char_code(s[i]);
    let q: char = '?';
    assert(q as u32 == 63);
}

/// A text that arrives in one piece is delivered as it is; one that was cut off, or is
/// empty, is not delivered.
pub proof fn lemma_single_pieces_are_delivered(value: Seq<u8>, more: bool)
    ensures
        received(IncomingView::Idle, false, value, more) == (
            IncomingView::Idle,
            if value.len() > 0 && !more {
                Some(value)
            } else {
                None
            },
        ),
{
}

/// Of a text that comes in pieces and grows too large, or of which a piece was cut
/// off, nothing is delivered, however it goes on: the next text is one of its own,
/// after the empty piece that ends it.
pub proof fn lemma_oversized_text_is_dropped(
    so_far: Seq<u8>,
    value: Seq<u8>,
    more: bool,
    rest: Seq<Seq<u8>>,
)
    requires
        value.len() > 0,
        more || so_far.len() + value.len() > 0x10_0000,
        forall|i: int| 0 <= i < rest.len() ==> (#[trigger] rest[i]).len() > 0,
    ensures
        ({
            let (next, text) = received(IncomingView::Chunks(so_far), false, value, more);
            let late = fed(next, rest);
            &&& text is None
            &&& received(late, false, seq![], false) == (
                IncomingView::Idle,
                None::<Seq<u8>>,
            )
        }),
    decreases rest.len(),
{
    if rest.len() > 0 {
        let front = rest.drop_last();
        assert forall|i: int| 0 <= i < front.len() implies (#[trigger] front[i]).len() > 0 by {
            assert(front[i] == rest[i]);
        }
        lemma_oversized_text_is_dropped(so_far, value, more, front);
        lemma_skipping_goes_on(front);
        lemma_skipping_goes_on(rest);
    }
}

proof fn lemma_skipping_goes_on(rest: Seq<Seq<u8>>)
    requires
        forall|i: int| 0 <= i < rest.len() ==> (#[trigger] rest[i]).len() > 0,
    ensures
        fed(IncomingView::Skipping, rest) is Skipping,
    decreases rest.len(),
{
    if rest.len() > 0 {
        let front = rest.drop_last();
        assert forall|i: int| 0 <= i < front.len() implies (#[trigger] front[i]).len() > 0 by {
            assert(front[i] == rest[i]);
        }
        lemma_skipping_goes_on(front);
        assert(rest.last() == rest[rest.len() - 1]);
    }
}

/// Every format that we list is one that we answer with our text in UTF-8, but for the
/// list itself, and we answer no other.
pub proof fn lemma_listed_formats_are_answered(c: Clipboard, target: u32)
    requires
        c.atoms.targets != c.atoms.utf8_string && c.atoms.targets != c.atoms.text,
        c.atoms.targets != c.atoms.string,
    ensures
        c.contents_for(c.atoms.targets) matches ContentsView::Targets(list) && {
            &&& list.contains(target) <==> !(c.contents_for(target) is Refused)
            &&& list.contains(c.atoms.targets) && list.contains(c.atoms.utf8_string)
            &&& list.contains(c.atoms.text) && list.contains(c.atoms.string)
            &&& list.contains(target) && target != c.atoms.targets ==> c.contents_for(target)
                == ContentsView::Text(encode_utf8(c.ours@))
        },
{
    let list = c.contents_for(c.atoms.targets)->Targets_0;
    assert(list[0] == c.atoms.targets && list[1] == c.atoms.utf8_string);
    assert(list[2] == c.atoms.text && list[3] == c.atoms.string);
}

/// An answer goes where the program asked for it, or where it leaves that open, to the
/// property named like the format.
pub proof fn lemma_answer_goes_where_asked(ask: SelectionAsk)
    ensures
        ask.property != 0 ==> Clipboard::property_for(ask) == ask.property,
        ask.property == 0 ==> Clipboard::property_for(ask) == ask.target,
{
}

} // verus!
