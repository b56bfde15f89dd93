//! Messages from a client.

use vstd::prelude::*;

use crate::bytes::{be16_at, be32_at, copy_range, read_be16, read_be32};
use crate::pixel::{lemma_two_bytes, number_of, PixelFormat};
use crate::screen::hub::Caps;

verus! {

pub const MSG_SET_PIXEL_FORMAT: u8 = 0;

pub const MSG_SET_ENCODINGS: u8 = 2;

pub const MSG_FB_UPDATE_REQUEST: u8 = 3;

pub const MSG_KEY_EVENT: u8 = 4;

pub const MSG_POINTER_EVENT: u8 = 5;

pub const MSG_CLIENT_CUT_TEXT: u8 = 6;

pub const MSG_SET_DESKTOP_SIZE: u8 = 251;

/// Encodings, as the 32 bits that stand for them on the wire.
pub const ENC_RAW: u32 = 0;

pub const ENC_COPY_RECT: u32 = 1;

pub const ENC_ZRLE: u32 = 16;

/// -239.
pub const ENC_CURSOR: u32 = 0xffff_ff11;

/// -224.
pub const ENC_LAST_RECT: u32 = 0xffff_ff20;

/// -223.
pub const ENC_DESKTOP_SIZE: u32 = 0xffff_ff21;

/// -308.
pub const ENC_EXT_DESKTOP_SIZE: u32 = 0xffff_fecc;

pub const ENC_EXT_CLIPBOARD: u32 = 0xc0a1_e5ce;

/// Guards against a client asking us to allocate unbounded memory.
pub const MAX_ENCODINGS: u16 = 4096;

pub const MAX_CUT_TEXT: u32 = 0x10_0000;

pub enum ClientMessage {
    SetPixelFormat(PixelFormat),
    SetEncodings(Caps),
    UpdateRequest { incremental: bool },
    Key { down: bool, keysym: u32 },
    Pointer { mask: u8, x: u16, y: u16 },
    CutText(Vec<u8>),
    /// Of the extended clipboard.
    Extended { flags: u32, data: Vec<u8> },
    SetDesktopSize { width: u16, height: u16 },
}

/// A message with its text as a sequence.
pub enum MessageView {
    SetPixelFormat(PixelFormat),
    SetEncodings(Caps),
    UpdateRequest { incremental: bool },
    Key { down: bool, keysym: u32 },
    Pointer { mask: u8, x: u16, y: u16 },
    CutText(Seq<u8>),
    Extended { flags: u32, data: Seq<u8> },
    SetDesktopSize { width: u16, height: u16 },
}

impl View for ClientMessage {
    type V = MessageView;

    open spec fn view(&self) -> MessageView {
        match *self {
            ClientMessage::SetPixelFormat(pf) => MessageView::SetPixelFormat(pf),
            ClientMessage::SetEncodings(caps) => MessageView::SetEncodings(caps),
            ClientMessage::UpdateRequest { incremental } => MessageView::UpdateRequest {
                incremental,
            },
            ClientMessage::Key { down, keysym } => MessageView::Key { down, keysym },
            ClientMessage::Pointer { mask, x, y } => MessageView::Pointer { mask, x, y },
            ClientMessage::CutText(text) => MessageView::CutText(text@),
            ClientMessage::Extended { flags, data } => MessageView::Extended { flags, data: data@ },
            ClientMessage::SetDesktopSize { width, height } => MessageView::SetDesktopSize {
                width,
                height,
            },
        }
    }
}

/// Why a client is no longer listened to.
#[derive(Clone, Copy, Debug, PartialEq, Eq, Structural)]
pub enum ProtocolError {
    UnsupportedPixelFormat,
    AbsurdEncodingCount,
    OversizedClipboard,
    /// An extended clipboard message without flags.
    MalformedClipboard,
    UnknownMessage(u8),
}

/// What the bytes received so far begin with.
pub enum Decoded {
    /// Not yet a whole message.
    Incomplete,
    /// A message, and how many bytes it takes.
    Message { msg: ClientMessage, used: usize },
    Refused(ProtocolError),
}

/// What bytes begin with, the message as a view.
pub enum DecodedView {
    Incomplete,
    Message { msg: MessageView, used: int },
    Refused(ProtocolError),
}

impl View for Decoded {
    type V = DecodedView;

    open spec fn view(&self) -> DecodedView {
        match *self {
            Decoded::Incomplete => DecodedView::Incomplete,
            Decoded::Message { msg, used } => DecodedView::Message { msg: msg@, used: used as int },
            Decoded::Refused(e) => DecodedView::Refused(e),
        }
    }
}

/// The first `n` encodings of a `SetEncodings` message.
pub open spec fn encodings(b: Seq<u8>, n: int) -> Seq<u32> {
    Seq::new(n as nat, |i: int| be32_at(b, 4 + 4 * i))
}

/// What a client that lists some encodings can receive.
pub open spec fn caps_for(list: Seq<u32>) -> Caps {
    Caps {
        zrle: list.contains(ENC_ZRLE),
        cursor: list.contains(ENC_CURSOR),
        last_rect: list.contains(ENC_LAST_RECT),
        desktop_size: list.contains(ENC_DESKTOP_SIZE),
        ext_desktop_size: list.contains(ENC_EXT_DESKTOP_SIZE),
        ext_clipboard: list.contains(ENC_EXT_CLIPBOARD),
        copy_rect: list.contains(ENC_COPY_RECT),
    }
}

/// A message of `len` bytes, once they are all there.
pub open spec fn whole(b: Seq<u8>, len: int, msg: MessageView) -> DecodedView {
    if b.len() < len {
        DecodedView::Incomplete
    } else {
        DecodedView::Message { msg, used: len }
    }
}

/// How RFB reads cut text. With the extended clipboard, a negative length says
/// that the message is of that kind.
pub open spec fn read_cut_text(b: Seq<u8>, extended: bool) -> DecodedView {
    let len = be32_at(b, 4) as int;
    let size = 0x1_0000_0000 - len;
    if b.len() < 8 {
        DecodedView::Incomplete
    } else if extended && len >= 0x8000_0000 && size <= MAX_CUT_TEXT {
        if size < 4 {
            DecodedView::Refused(ProtocolError::MalformedClipboard)
        } else {
            whole(
                b,
                8 + size,
                MessageView::Extended { flags: be32_at(b, 8), data: b.subrange(12, 8 + size) },
            )
        }
    } else if len > MAX_CUT_TEXT {
        DecodedView::Refused(ProtocolError::OversizedClipboard)
    } else {
        whole(b, 8 + len, MessageView::CutText(b.subrange(8, 8 + len)))
    }
}

/// How RFB reads what a client has sent so far; `extended` says whether the
/// client has asked for the extended clipboard.
pub open spec fn read_message(b: Seq<u8>, extended: bool) -> DecodedView {
    if b.len() == 0 {
        DecodedView::Incomplete
    } else if b[0] == MSG_SET_PIXEL_FORMAT {
        if b.len() < 20 {
            DecodedView::Incomplete
        } else {
            match PixelFormat::parsed(b.subrange(4, 20)) {
                Some(pf) => DecodedView::Message { msg: MessageView::SetPixelFormat(pf), used: 20 },
                None => DecodedView::Refused(ProtocolError::UnsupportedPixelFormat),
            }
        }
    } else if b[0] == MSG_SET_ENCODINGS {
        let count = be16_at(b, 2) as int;
        if b.len() < 4 {
            DecodedView::Incomplete
        } else if count > MAX_ENCODINGS {
            DecodedView::Refused(ProtocolError::AbsurdEncodingCount)
        } else {
            whole(b, 4 + 4 * count, MessageView::SetEncodings(caps_for(encodings(b, count))))
        }
    } else if b[0] == MSG_FB_UPDATE_REQUEST {
        whole(b, 10, MessageView::UpdateRequest { incremental: b[1] != 0 })
    } else if b[0] == MSG_KEY_EVENT {
        whole(b, 8, MessageView::Key { down: b[1] != 0, keysym: be32_at(b, 4) })
    } else if b[0] == MSG_POINTER_EVENT {
        whole(b, 6, MessageView::Pointer { mask: b[1], x: be16_at(b, 2), y: be16_at(b, 4) })
    } else if b[0] == MSG_CLIENT_CUT_TEXT {
        read_cut_text(b, extended)
    } else if b[0] == MSG_SET_DESKTOP_SIZE {
        if b.len() < 8 {
            DecodedView::Incomplete
        } else {
            // Screen array: 16 bytes each, we lay everything out ourselves.
            whole(
                b,
                8 + 16 * b[6],
                MessageView::SetDesktopSize { width: be16_at(b, 2), height: be16_at(b, 4) },
            )
        }
    } else {
        DecodedView::Refused(ProtocolError::UnknownMessage(b[0]))
    }
}

fn read_caps(b: &[u8], count: usize) -> (caps: Caps)
    requires
        count <= 4096,
        4 + 4 * count <= b@.len(),
    ensures
        caps == caps_for(encodings(b@, count as int)),
{
    let mut caps = Caps::default();
    assert(caps == caps_for(encodings(b@, 0)));
    for i in 0..count
        invariant
            count <= 4096,
            4 + 4 * count <= b@.len(),
            caps == caps_for(encodings(b@, i as int)),
    {
        let e: u32 = read_be32(b, 4 + 4 * i);
        proof {
            let seen = encodings(b@, i as int);
            assert(encodings(b@, i + 1) =~= seen.push(e));
            assert forall|x: u32| seen.push(e).contains(x) <==> seen.contains(x) || x == e by {
                if seen.contains(x) {
                    let k = choose|k: int| 0 <= k < seen.len() && seen[k] == x;
                    assert(seen.push(e)[k] == x);
                }
                assert(seen.push(e)[i as int] == e);
            }
        }
        if e == ENC_ZRLE {
            caps.zrle = true;
        } else if e == ENC_CURSOR {
            caps.cursor = true;
        } else if e == ENC_LAST_RECT {
            caps.last_rect = true;
        } else if e == ENC_DESKTOP_SIZE {
            caps.desktop_size = true;
        } else if e == ENC_EXT_DESKTOP_SIZE {
            caps.ext_desktop_size = true;
        } else if e == ENC_EXT_CLIPBOARD {
            caps.ext_clipboard = true;
        } else if e == ENC_COPY_RECT {
            caps.copy_rect = true;
        }
    }
    caps
}

fn take_message(b: &[u8], len: usize, msg: ClientMessage) -> (d: Decoded)
    ensures
        d@ == whole(b@, len as int, msg@),
{
    if b.len() < len {
        Decoded::Incomplete
    } else {
        Decoded::Message { msg, used: len }
    }
}

fn decode_cut_text(b: &[u8], extended: bool) -> (d: Decoded)
    ensures
        d@ == read_cut_text(b@, extended),
{
    let n: usize = b.len();
    if n < 8 {
        return Decoded::Incomplete;
    }
    let len: u32 = read_be32(b, 4);
    if extended && len >= 0x8000_0000 && 0x1_0000_0000u64 - len as u64 <= MAX_CUT_TEXT as u64 {
        let size: usize = (0x1_0000_0000u64 - len as u64) as usize;
        if size < 4 {
            return Decoded::Refused(ProtocolError::MalformedClipboard);
        }
        let end: usize = 8 + size;
        if n < end {
            return Decoded::Incomplete;
        }
        let flags: u32 = read_be32(b, 8);
        let data: Vec<u8> = copy_range(b, 12, end);
        return Decoded::Message { msg: ClientMessage::Extended { flags, data }, used: end };
    }
    if len > MAX_CUT_TEXT {
        return Decoded::Refused(ProtocolError::OversizedClipboard);
    }
    let end: usize = 8 + len as usize;
    if n < end {
        return Decoded::Incomplete;
    }
    let text: Vec<u8> = copy_range(b, 8, end);
    Decoded::Message { msg: ClientMessage::CutText(text), used: end }
}

/// Read the message at the front of what a client has sent so far; `extended`
/// says whether the client has asked for the extended clipboard.
pub fn decode_message(b: &[u8], extended: bool) -> (d: Decoded)
    ensures
        d@ == read_message(b@, extended),
{
    let n: usize = b.len();
    if n == 0 {
        return Decoded::Incomplete;
    }
    let kind: u8 = b[0];
    if kind == MSG_SET_PIXEL_FORMAT {
        if n < 20 {
            return Decoded::Incomplete;
        }
        match PixelFormat::parse(&b[4..20]) {
            Some(pf) => Decoded::Message { msg: ClientMessage::SetPixelFormat(pf), used: 20 },
            None => Decoded::Refused(ProtocolError::UnsupportedPixelFormat),
        }
    } else if kind == MSG_SET_ENCODINGS {
        if n < 4 {
            return Decoded::Incomplete;
        }
        let count: u16 = read_be16(b, 2);
        if count > MAX_ENCODINGS {
            return Decoded::Refused(ProtocolError::AbsurdEncodingCount);
        }
        let len: usize = 4 + 4 * count as usize;
        if n < len {
            return Decoded::Incomplete;
        }
        let caps = read_caps(b, count as usize);
        Decoded::Message { msg: ClientMessage::SetEncodings(caps), used: len }
    } else if kind == MSG_FB_UPDATE_REQUEST {
        if n < 10 {
            return Decoded::Incomplete;
        }
        take_message(b, 10, ClientMessage::UpdateRequest { incremental: b[1] != 0 })
    } else if kind == MSG_KEY_EVENT {
        if n < 8 {
            return Decoded::Incomplete;
        }
        take_message(b, 8, ClientMessage::Key { down: b[1] != 0, keysym: read_be32(b, 4) })
    } else if kind == MSG_POINTER_EVENT {
        if n < 6 {
            return Decoded::Incomplete;
        }
        take_message(
            b,
            6,
            ClientMessage::Pointer { mask: b[1], x: read_be16(b, 2), y: read_be16(b, 4) },
        )
    } else if kind == MSG_CLIENT_CUT_TEXT {
        decode_cut_text(b, extended)
    } else if kind == MSG_SET_DESKTOP_SIZE {
        if n < 8 {
            return Decoded::Incomplete;
        }
        let len: usize = 8 + 16 * b[6] as usize;
        take_message(
            b,
            len,
            ClientMessage::SetDesktopSize { width: read_be16(b, 2), height: read_be16(b, 4) },
        )
    } else {
        Decoded::Refused(ProtocolError::UnknownMessage(kind))
    }
}

/// Messages may arrive in any pieces: once there is an answer, further bytes
/// do not change it, and a message is made of its own bytes alone.
pub proof fn lemma_messages_do_not_depend_on_what_follows(
    b: Seq<u8>,
    more: Seq<u8>,
    extended: bool,
)
    ensures
        read_message(b, extended) !is Incomplete ==> read_message(b + more, extended) == read_message(b, extended),
        match read_message(b, extended) {
            DecodedView::Message { msg, used } => 1 <= used <= b.len() && read_message(
                b.take(used),
                extended,
            ) == read_message(b, extended),
            _ => true,
        },
{
    let c = b + more;
    if read_message(b, extended) !is Incomplete {
        lemma_same_reading(b, c, b.len() as int, extended);
        match read_message(b, extended) {
            DecodedView::Message { msg, used } => {
                lemma_same_reading(b.take(used), b, used, extended);
            },
            _ => {},
        }
    }
}

proof fn lemma_same_reading(b: Seq<u8>, c: Seq<u8>, n: int, extended: bool)
    requires
        b.len() == n <= c.len(),
        b =~= c.take(n),
        match read_message(c, extended) {
            DecodedView::Message { msg, used } => used <= n,
            _ => true,
        } || read_message(b, extended) !is Incomplete,
        b.len() > 0,
        read_message(c, extended) is Message || read_message(b, extended) !is Incomplete,
    ensures
        read_message(b, extended) == read_message(c, extended),
{
    assert forall|i: int| 0 <= i < n implies b[i] == c[i] by {}
    if b[0] == MSG_SET_PIXEL_FORMAT && n >= 20 {
        assert(b.subrange(4, 20) =~= c.subrange(4, 20));
    }
    if b[0] == MSG_SET_ENCODINGS && n >= 4 {
        let count = be16_at(b, 2) as int;
        if n >= 4 + 4 * count {
            assert(encodings(b, count) =~= encodings(c, count));
        }
    }
    if b[0] == MSG_CLIENT_CUT_TEXT && n >= 8 {
        let len = be32_at(b, 4) as int;
        let size = 0x1_0000_0000 - len;
        if n >= 8 + len {
            assert(b.subrange(8, 8 + len) =~= c.subrange(8, 8 + len));
        }
        if 4 <= size && n >= 8 + size {
            assert(b.subrange(12, 8 + size) =~= c.subrange(12, 8 + size));
        }
    }
}

pub(crate) proof fn lemma_four_bytes(b: Seq<u8>, i: int)
    requires
        0 <= i,
        i + 4 <= b.len(),
    ensures
        number_of(b.subrange(i, i + 4), true) == be32_at(b, i),
{
    reveal_with_fuel(number_of, 5);
    let s = b.subrange(i, i + 4);
    assert(s.drop_last().len() == 3 && s.drop_last().drop_last().len() == 2);
    assert(s.drop_last().drop_last().drop_last().len() == 1);
}

/// Whether a client's list of encodings, each of four bytes, names one.
pub open spec fn names_encoding(b: Seq<u8>, encoding: int) -> bool {
    exists|i: int|
        0 <= i < number_of(b.subrange(2, 4), true) && #[trigger] number_of(
            b.subrange(4 + 4 * i, 8 + 4 * i),
            true,
        ) == encoding
}

/// Input from a client is read field by field: the first byte says what it is, a key
/// has its symbol in the last four bytes, the pointer its buttons in one byte and its
/// position in two numbers of two bytes, a new size its width and height in two more.
pub proof fn lemma_input_is_read_by_position(b: Seq<u8>, extended: bool)
    requires
        b.len() >= 10,
    ensures
        ({
            let got = read_message(b, extended);
            &&& b[0] == 3 ==> got == (DecodedView::Message {
                msg: MessageView::UpdateRequest { incremental: b[1] != 0 },
                used: 10,
            })
            &&& b[0] == 4 ==> (got matches DecodedView::Message { msg: MessageView::Key { down, keysym }, used } && used == 8 && down == (b[1] != 0) && keysym
                == number_of(b.subrange(4, 8), true))
            &&& b[0] == 5 ==> (got matches DecodedView::Message { msg: MessageView::Pointer { mask, x, y }, used } && used == 6 && mask == b[1] && x == number_of(
                b.subrange(2, 4),
                true,
            ) && y == number_of(b.subrange(4, 6), true))
            &&& b[0] == 251 ==> if b.len() < 8 + 16 * b[6] {
                got is Incomplete
            } else {
                got matches DecodedView::Message { msg: MessageView::SetDesktopSize { width, height }, used } && used == 8 + 16 * b[6] && width == number_of(
                    b.subrange(2, 4),
                    true,
                ) && height == number_of(b.subrange(4, 6), true)
            }
            &&& !seq![0u8, 2, 3, 4, 5, 6, 251].contains(b[0]) ==> got == DecodedView::Refused(
                ProtocolError::UnknownMessage(b[0]),
            )
        }),
{
    lemma_four_bytes(b, 4);
    lemma_two_bytes(b, 2);
    lemma_two_bytes(b, 4);
    let known = seq![0u8, 2, 3, 4, 5, 6, 251];
    assert(known[0] == 0 && known[1] == 2 && known[2] == 3 && known[3] == 4 && known[4] == 5
        && known[5] == 6 && known[6] == 251);
}

/// A client's choice of a pixel format and of encodings is read as it wrote it: the
/// format behind three bytes of padding, and of the encodings those that are listed.
pub proof fn lemma_choices_are_read_by_position(b: Seq<u8>, extended: bool)
    requires
        b.len() >= 4,
    ensures
        ({
            let got = read_message(b, extended);
            let count = number_of(b.subrange(2, 4), true);
            &&& b[0] == 0 && b.len() >= 20 ==> got == (match PixelFormat::parsed(
                b.subrange(4, 20),
            ) {
                Some(pf) => DecodedView::Message { msg: MessageView::SetPixelFormat(pf), used: 20 },
                None => DecodedView::Refused(ProtocolError::UnsupportedPixelFormat),
            })
            &&& b[0] == 2 ==> if count > 4096 {
                got == DecodedView::Refused(ProtocolError::AbsurdEncodingCount)
            } else if b.len() < 4 + 4 * count {
                got is Incomplete
            } else {
                got matches DecodedView::Message { msg: MessageView::SetEncodings(caps), used } && used == 4 + 4 * count && {
                    &&& caps.zrle == names_encoding(b, 16)
                    &&& caps.copy_rect == names_encoding(b, 1)
                    &&& caps.cursor == names_encoding(b, 0x1_0000_0000 - 239)
                    &&& caps.last_rect == names_encoding(b, 0x1_0000_0000 - 224)
                    &&& caps.desktop_size == names_encoding(b, 0x1_0000_0000 - 223)
                    &&& caps.ext_desktop_size == names_encoding(b, 0x1_0000_0000 - 308)
                    &&& caps.ext_clipboard == names_encoding(b, 0xc0a1_e5ce)
                }
            }
        }),
{
    lemma_two_bytes(b, 2);
    let count = number_of(b.subrange(2, 4), true);
    if b[0] == 2 && count <= 4096 && b.len() >= 4 + 4 * count {
        lemma_named(b, count, 16);
        lemma_named(b, count, 1);
        lemma_named(b, count, ENC_CURSOR);
        lemma_named(b, count, ENC_LAST_RECT);
        lemma_named(b, count, ENC_DESKTOP_SIZE);
        lemma_named(b, count, ENC_EXT_DESKTOP_SIZE);
        lemma_named(b, count, ENC_EXT_CLIPBOARD);
    }
}

proof fn lemma_named(b: Seq<u8>, count: int, e: u32)
    requires
        b.len() >= 4 + 4 * count,
        b.len() >= 4,
        count == number_of(b.subrange(2, 4), true),
    ensures
        encodings(b, count).contains(e) == names_encoding(b, e as int),
{
    let list = encodings(b, count);
    assert forall|i: int| 0 <= i < count implies list[i] == #[trigger] number_of(
        b.subrange(4 + 4 * i, 8 + 4 * i),
        true,
    ) by {
        lemma_four_bytes(b, 4 + 4 * i);
    }
    lemma_two_bytes(b, 2);
    if list.contains(e) {
        let i = choose|i: int| 0 <= i < list.len() && list[i] == e;
        assert(number_of(b.subrange(4 + 4 * i, 8 + 4 * i), true) == e);
    }
    if names_encoding(b, e as int) {
        let i = choose|i: int|
            0 <= i < count && #[trigger] number_of(b.subrange(4 + 4 * i, 8 + 4 * i), true) == e;
        assert(list[i] == e);
    }
}

/// Clipboard text is read behind its length. A length that is negative in two's
/// complement is one of the extended clipboard, where that was asked for: its flags
/// follow and then its data. Text of over a mebibyte is refused.
pub proof fn lemma_cut_text_is_read_by_position(b: Seq<u8>, extended: bool)
    requires
        b.len() >= 8,
        b[0] == 6,
    ensures
        ({
            let got = read_message(b, extended);
            let n = number_of(b.subrange(4, 8), true);
            let size = 0x1_0000_0000 - n;
            if extended && n >= 0x8000_0000 && size <= 0x10_0000 {
                if size < 4 {
                    got == DecodedView::Refused(ProtocolError::MalformedClipboard)
                } else if b.len() < 8 + size {
                    got is Incomplete
                } else {
                    got matches DecodedView::Message { msg: MessageView::Extended { flags, data }, used } && used == 8 + size && flags == number_of(
                        b.subrange(8, 12),
                        true,
                    ) && data == b.subrange(12, 8 + size)
                }
            } else if n > 0x10_0000 {
                got == DecodedView::Refused(ProtocolError::OversizedClipboard)
            } else if b.len() < 8 + n {
                got is Incomplete
            } else {
                got == (DecodedView::Message {
                    msg: MessageView::CutText(b.subrange(8, 8 + n)),
                    used: 8 + n,
                })
            }
        }),
{
    lemma_four_bytes(b, 4);
    if b.len() >= 12 {
        lemma_four_bytes(b, 8);
    }
}

} // verus!
