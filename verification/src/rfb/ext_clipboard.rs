//! The extended clipboard: text of any script, which plain cut text cannot
//! carry, for clients that ask for it.
//!
//! Neither side sends text unasked. It gives notice that there is some, the
//! other side requests it, and only then is it provided.

use vstd::arithmetic::power2::pow2;
use vstd::prelude::*;
use vstd::utf8::encode_utf8;

use crate::bytes::{be32, be32_at, low32, low_word, push_all, push_be32, read_be32};
use crate::clipboard::{read_utf8, utf8_text, MAX_TEXT};
use crate::pixel::{field, number_of};
use crate::rfb::client::lemma_big_be32;
use crate::rfb::zlib::{decompresses_to, deflate, deflated};
use crate::text::{chars_of, string_of};

verus! {

/// The one format there is: text.
pub const EXT_TEXT: u32 = 0x1;

/// What either side can do.
pub const EXT_CAPS: u32 = 0x0100_0000;

pub const EXT_REQUEST: u32 = 0x0200_0000;

pub const EXT_PEEK: u32 = 0x0400_0000;

pub const EXT_NOTIFY: u32 = 0x0800_0000;

pub const EXT_PROVIDE: u32 = 0x1000_0000;

/// What a message of the extended clipboard says.
#[derive(Clone, Copy, Debug, PartialEq, Eq, Structural)]
pub enum ExtAction {
    /// What the client can do; nothing of it matters here.
    Caps,
    /// The client wants our text.
    Request,
    /// The client wants to know whether we have text.
    Peek,
    /// The client has text.
    Notify,
    /// Here is the client's text.
    Provide,
    Other,
}

/// Whether a bit of some flags is set.
pub open spec fn has_flag(flags: u32, bit: u32) -> bool {
    flags / bit % 2 == 1
}

/// What flags say. Requests, notices and text are for the text format.
pub open spec fn action_of(flags: u32) -> ExtAction {
    let text = has_flag(flags, EXT_TEXT);
    if has_flag(flags, EXT_CAPS) {
        ExtAction::Caps
    } else if has_flag(flags, EXT_REQUEST) && text {
        ExtAction::Request
    } else if has_flag(flags, EXT_PEEK) {
        ExtAction::Peek
    } else if has_flag(flags, EXT_NOTIFY) && text {
        ExtAction::Notify
    } else if has_flag(flags, EXT_PROVIDE) && text {
        ExtAction::Provide
    } else {
        ExtAction::Other
    }
}

pub fn read_action(flags: u32) -> (a: ExtAction)
    ensures
        a == action_of(flags),
{
    let text: bool = flags / EXT_TEXT % 2 == 1;
    if flags / EXT_CAPS % 2 == 1 {
        ExtAction::Caps
    } else if flags / EXT_REQUEST % 2 == 1 && text {
        ExtAction::Request
    } else if flags / EXT_PEEK % 2 == 1 {
        ExtAction::Peek
    } else if flags / EXT_NOTIFY % 2 == 1 && text {
        ExtAction::Notify
    } else if flags / EXT_PROVIDE % 2 == 1 && text {
        ExtAction::Provide
    } else {
        ExtAction::Other
    }
}

/// ServerCutText of the extended kind: its length is negative.
pub open spec fn ext_bytes(flags: u32, data: Seq<u8>) -> Seq<u8> {
    seq![3u8, 0, 0, 0] + be32(low32(-(4 + data.len()))) + be32(flags) + data
}

/// What we can do: everything, with text up to a size.
pub open spec fn caps_bytes() -> Seq<u8> {
    ext_bytes(0x1f00_0001, be32(MAX_TEXT as u32))
}

/// Notice that there is text, or that there is none.
pub open spec fn notify_bytes(available: bool) -> Seq<u8> {
    ext_bytes(
        if available {
            0x0800_0001
        } else {
            0x0800_0000
        },
        seq![],
    )
}

/// A request for text.
pub open spec fn request_bytes() -> Seq<u8> {
    ext_bytes(0x0200_0001, seq![])
}

/// Text with lines that end in a carriage return and a line feed.
pub open spec fn with_crlf(s: Seq<char>) -> Seq<char>
    decreases s.len(),
{
    if s.len() == 0 {
        seq![]
    } else if s[0] == '\r' && s.len() > 1 && s[1] == '\n' {
        seq!['\r', '\n'] + with_crlf(s.skip(2))
    } else if s[0] == '\r' || s[0] == '\n' {
        seq!['\r', '\n'] + with_crlf(s.skip(1))
    } else {
        seq![s[0]] + with_crlf(s.skip(1))
    }
}

/// Text with lines that end in a line feed.
pub open spec fn with_lf(s: Seq<char>) -> Seq<char>
    decreases s.len(),
{
    if s.len() == 0 {
        seq![]
    } else if s[0] == '\r' && s.len() > 1 && s[1] == '\n' {
        seq!['\n'] + with_lf(s.skip(2))
    } else {
        seq![s[0]] + with_lf(s.skip(1))
    }
}

/// Text as it is provided: in UTF-8, with a zero at its end, behind its size.
pub open spec fn text_payload(text: Seq<char>) -> Seq<u8> {
    let body = encode_utf8(with_crlf(text)).push(0);
    be32(low32(body.len() as int)) + body
}

/// Bytes without a zero at their end.
pub open spec fn unterminated(b: Seq<u8>) -> Seq<u8> {
    if b.len() > 0 && b.last() == 0 {
        b.drop_last()
    } else {
        b
    }
}

/// The bytes of the text in what a client provided, if they are all there.
pub open spec fn payload_text(p: Seq<u8>) -> Option<Seq<u8>> {
    let n = be32_at(p, 0) as int;
    if p.len() < 4 || n > MAX_TEXT || p.len() < 4 + n {
        None
    } else {
        Some(unterminated(p.subrange(4, 4 + n)))
    }
}

/// The text in what a client provided.
pub open spec fn provided_text(p: Seq<u8>) -> Option<Seq<char>> {
    match payload_text(p) {
        Some(b) => Some(with_lf(utf8_text(b))),
        None => None,
    }
}

/// The length field for flags and `n` bytes of data.
fn negative_size(n: usize) -> (w: u32)
    ensures
        w == low32(-(4 + n)),
{
    let low: u64 = n as u64 % 0x1_0000_0000;
    proof {
        let m = 0x1_0000_0000int;
        let q = n as int / m;
        assert(-(4 + n) == m * (-q) + (-(4 + low)));
        vstd::arithmetic::div_mod::lemma_mod_multiples_vanish(-q, -(4 + low), m);
    }
    if low <= 0xffff_fffc {
        (0xffff_fffc - low) as u32
    } else {
        (0x1_ffff_fffc - low) as u32
    }
}

fn push_ext(out: &mut Vec<u8>, flags: u32, data: &[u8])
    ensures
        final(out)@ == old(out)@ + ext_bytes(flags, data@),
{
    out.push(3);
    out.push(0);
    out.push(0);
    out.push(0);
    push_be32(out, negative_size(data.len()));
    push_be32(out, flags);
    push_all(out, data);
    assert(out@ =~= old(out)@ + ext_bytes(flags, data@));
}

/// Say what we can do.
pub fn push_caps(out: &mut Vec<u8>)
    ensures
        final(out)@ == old(out)@ + caps_bytes(),
{
    let mut size: Vec<u8> = Vec::new();
    push_be32(&mut size, MAX_TEXT as u32);
    assert(size@ =~= be32(MAX_TEXT as u32));
    push_ext(out, 0x1f00_0001, size.as_slice());
}

/// Give notice that there is text, or that there is none.
pub fn push_notify(out: &mut Vec<u8>, available: bool)
    ensures
        final(out)@ == old(out)@ + notify_bytes(available),
{
    let none: Vec<u8> = Vec::new();
    assert(none@ =~= Seq::<u8>::empty());
    push_ext(
        out,
        if available {
            0x0800_0001
        } else {
            0x0800_0000
        },
        none.as_slice(),
    );
}

/// Ask for text.
pub fn push_request(out: &mut Vec<u8>)
    ensures
        final(out)@ == old(out)@ + request_bytes(),
{
    let none: Vec<u8> = Vec::new();
    assert(none@ =~= Seq::<u8>::empty());
    push_ext(out, 0x0200_0001, none.as_slice());
}

fn crlf(s: &[char]) -> (v: Vec<char>)
    ensures
        v@ == with_crlf(s@),
{
    let mut v: Vec<char> = Vec::new();
    let n: usize = s.len();
    let mut i: usize = 0;
    assert(s@.skip(0) =~= s@);
    assert(v@ + with_crlf(s@.skip(0)) =~= with_crlf(s@));
    while i < n
        invariant
            n == s@.len(),
            i <= n,
            v@ + with_crlf(s@.skip(i as int)) == with_crlf(s@),
        decreases n - i,
    {
        let ghost seen = v@;
        let ghost rest = s@.skip(i as int);
        let c: char = s[i];
        if c == '\r' && n - i > 1 && s[i + 1] == '\n' {
            v.push('\r');
            v.push('\n');
            assert(rest.skip(2) =~= s@.skip(i + 2));
            i = i + 2;
        } else {
            if c == '\r' || c == '\n' {
                v.push('\r');
                v.push('\n');
            } else {
                v.push(c);
            }
            assert(rest.skip(1) =~= s@.skip(i + 1));
            i = i + 1;
        }
        assert(v@ + with_crlf(s@.skip(i as int)) =~= seen + with_crlf(rest));
    }
    assert(s@.skip(n as int) =~= Seq::<char>::empty());
    assert(v@ =~= with_crlf(s@));
    v
}

fn lf(s: &[char]) -> (v: Vec<char>)
    ensures
        v@ == with_lf(s@),
{
    let mut v: Vec<char> = Vec::new();
    let n: usize = s.len();
    let mut i: usize = 0;
    assert(s@.skip(0) =~= s@);
    assert(v@ + with_lf(s@.skip(0)) =~= with_lf(s@));
    while i < n
        invariant
            n == s@.len(),
            i <= n,
            v@ + with_lf(s@.skip(i as int)) == with_lf(s@),
        decreases n - i,
    {
        let ghost seen = v@;
        let ghost rest = s@.skip(i as int);
        let c: char = s[i];
        if c == '\r' && n - i > 1 && s[i + 1] == '\n' {
            v.push('\n');
            assert(rest.skip(2) =~= s@.skip(i + 2));
            i = i + 2;
        } else {
            v.push(c);
            assert(rest.skip(1) =~= s@.skip(i + 1));
            i = i + 1;
        }
        assert(v@ + with_lf(s@.skip(i as int)) =~= seen + with_lf(rest));
    }
    assert(s@.skip(n as int) =~= Seq::<char>::empty());
    assert(v@ =~= with_lf(s@));
    v
}

/// Provide text. `complete` is `false` when the compressor got stuck before it had
/// taken all of it.
pub fn push_provide(out: &mut Vec<u8>, text: &str) -> (complete: bool)
    ensures
        exists|z: Seq<u8>|
            {
                &&& final(out)@ == old(out)@ + #[trigger] ext_bytes(0x1000_0001, z)
                &&& complete ==> decompresses_to(z, text_payload(text@))
                &&& deflated(text_payload(text@), z, complete)
            },
{
    let chars: Vec<char> = chars_of(text);
    let wire: Vec<char> = crlf(chars.as_slice());
    let body: String = string_of(wire.as_slice());
    let bytes: &[u8] = body.as_str().as_bytes();
    let mut payload: Vec<u8> = Vec::new();
    push_be32(&mut payload, next_word(bytes.len()));
    push_all(&mut payload, bytes);
    payload.push(0);
    assert(payload@ =~= text_payload(text@));
    let (z, complete) = deflate(payload.as_slice());
    push_ext(out, 0x1000_0001, z.as_slice());
    assert(out@ == old(out)@ + ext_bytes(0x1000_0001, z@));
    complete
}

fn next_word(n: usize) -> (w: u32)
    ensures
        w == low32(n + 1),
{
    ((low_word(n) as u64 + 1) % 0x1_0000_0000) as u32
}

/// Read the text in what a client provided, once it is decompressed.
pub fn read_provided(p: &[u8]) -> (t: Option<String>)
    ensures
        match t {
            Some(s) => provided_text(p@) == Some(s@),
            None => provided_text(p@) is None,
        },
{
    let len: usize = p.len();
    if len < 4 {
        return None;
    }
    let size: u32 = read_be32(p, 0);
    if size > MAX_TEXT as u32 {
        return None;
    }
    let n: usize = size as usize;
    if len < 4 + n {
        return None;
    }
    let end: usize = if n > 0 && p[3 + n] == 0 {
        3 + n
    } else {
        4 + n
    };
    let ghost body = p@.subrange(4, 4 + n);
    assert(p@.subrange(4, end as int) =~= unterminated(body));
    let text: String = read_utf8(&p[4..end]);
    Some(end_in_lf(text.as_str()))
}

/// Text with its lines made to end in a line feed.
pub fn end_in_lf(text: &str) -> (s: String)
    ensures
        s@ == with_lf(text@),
{
    let chars: Vec<char> = chars_of(text);
    let lines: Vec<char> = lf(chars.as_slice());
    string_of(lines.as_slice())
}

/// Line ends survive being converted there and back.
pub proof fn lemma_line_ends_round_trip(s: Seq<char>)
    requires
        forall|i: int| 0 <= i < s.len() ==> #[trigger] s[i] != '\r',
    ensures
        with_lf(with_crlf(s)) == s,
    decreases s.len(),
{
    if s.len() > 0 {
        let t = s.skip(1);
        assert forall|i: int| 0 <= i < t.len() implies #[trigger] t[i] != '\r' by {
            assert(t[i] == s[i + 1]);
        }
        lemma_line_ends_round_trip(t);
        let w = with_crlf(s);
        assert(s[0] != '\r');
        if s[0] == '\n' {
            assert(w.skip(2) =~= with_crlf(t));
        } else {
            assert(w.skip(1) =~= with_crlf(t));
        }
        assert(s =~= seq![s[0]] + t);
    }
}

proof fn lemma_size_reads_back(n: u32, body: Seq<u8>)
    ensures
        be32_at(be32(n) + body, 0) == n,
{
    let p = be32(n) + body;
    crate::bytes::lemma_be_round_trip(0, n, 0);
    assert(p[0] == be32(n)[0] && p[1] == be32(n)[1]);
    assert(p[2] == be32(n)[2] && p[3] == be32(n)[3]);
}

proof fn lemma_payload_reads_back(body: Seq<u8>)
    requires
        body.len() < MAX_TEXT,
    ensures
        payload_text(be32(low32(body.push(0).len() as int)) + body.push(0)) == Some(body),
{
    let whole = body.push(0);
    let n = low32(whole.len() as int);
    assert(n == whole.len());
    lemma_size_reads_back(n, whole);
    assert((be32(n) + whole).subrange(4, 4 + n) =~= whole);
    assert(unterminated(whole) =~= body);
}

/// Text that is provided is read back as it was, if it is not too large and its
/// lines end in line feeds, whatever script it is in.
pub proof fn lemma_provided_text_reads_back(text: Seq<char>)
    requires
        forall|i: int| 0 <= i < text.len() ==> #[trigger] text[i] != '\r',
        encode_utf8(with_crlf(text)).len() < MAX_TEXT,
    ensures
        provided_text(text_payload(text)) == Some(text),
{
    lemma_payload_reads_back(encode_utf8(with_crlf(text)));
    vstd::utf8::encode_utf8_valid_utf8(with_crlf(text));
    vstd::utf8::encode_utf8_decode_utf8(with_crlf(text));
    lemma_line_ends_round_trip(text);
}

/// Whether bit `n` of some flags is set.
pub open spec fn flag_is_set(flags: u32, n: int) -> bool {
    field(flags as int, n, 1) == 1
}

proof fn lemma_flag_bits(flags: u32)
    ensures
        flag_is_set(flags, 0) == (flags % 2 == 1),
        flag_is_set(flags, 24) == (flags / 0x100_0000 % 2 == 1),
        flag_is_set(flags, 25) == (flags / 0x200_0000 % 2 == 1),
        flag_is_set(flags, 26) == (flags / 0x400_0000 % 2 == 1),
        flag_is_set(flags, 27) == (flags / 0x800_0000 % 2 == 1),
        flag_is_set(flags, 28) == (flags / 0x1000_0000 % 2 == 1),
{
    vstd::arithmetic::power2::lemma2_to64();
    assert(flags as int / 1 == flags);
    assert(pow2(0int as nat) == 1 && pow2(1int as nat) == 2 && pow2(24int as nat) == 0x100_0000);
    assert(pow2(25int as nat) == 0x200_0000 && pow2(26int as nat) == 0x400_0000);
    assert(pow2(27int as nat) == 0x800_0000 && pow2(28int as nat) == 0x1000_0000);
}

/// Flags say what a message is by one bit each, from 24 on: what the client can do, a
/// request, a question, notice of text, and text. All but the first and the question
/// are for text, which is bit 0.
pub proof fn lemma_flags_say_what_a_message_is(flags: u32)
    ensures
        ({
            let text = flag_is_set(flags, 0);
            let (caps, request, peek, notify, provide) = (
                flag_is_set(flags, 24),
                flag_is_set(flags, 25),
                flag_is_set(flags, 26),
                flag_is_set(flags, 27),
                flag_is_set(flags, 28),
            );
            &&& action_of(flags) is Caps <==> caps
            &&& action_of(flags) is Request <==> !caps && request && text
            &&& action_of(flags) is Peek <==> !caps && !(request && text) && peek
            &&& action_of(flags) is Notify <==> !caps && !request && !peek && notify && text
            &&& action_of(flags) is Provide <==> !caps && !request && !peek && !notify && provide
                && text
        }),
{
    lemma_flag_bits(flags);
    assert(flags / 1 == flags);
}

/// Bytes of a message of the extended clipboard, as a client reads them: the type of
/// cut text, a length that is negative in two's complement, the flags and the data.
pub open spec fn reads_as(b: Seq<u8>, flags: u32, data: Seq<u8>) -> bool {
    &&& b.len() == 12 + data.len()
    &&& b[0] == 3
    &&& (number_of(b.subrange(4, 8), true) + 4 + data.len()) % 0x1_0000_0000 == 0
    &&& number_of(b.subrange(8, 12), true) == flags
    &&& b.skip(12) == data
}

proof fn lemma_ext_reads_as(flags: u32, data: Seq<u8>)
    ensures
        reads_as(ext_bytes(flags, data), flags, data),
{
    let b = ext_bytes(flags, data);
    let n = low32(-(4 + data.len()));
    lemma_big_be32(n);
    lemma_big_be32(flags);
    assert(b.subrange(4, 8) =~= be32(n));
    assert(b.subrange(8, 12) =~= be32(flags));
    assert(b.skip(12) =~= data);
    let k = -(4 + data.len());
    vstd::arithmetic::div_mod::lemma_fundamental_div_mod(k, 0x1_0000_0000);
    let q = k / 0x1_0000_0000;
    assert(n - k == 0x1_0000_0000 * (-q)) by (nonlinear_arith)
        requires
            k == 0x1_0000_0000 * q + n,
    ;
    vstd::arithmetic::div_mod::lemma_mod_multiples_basic(-q, 0x1_0000_0000);
}

/// What a client is told of the clipboard: that everything can be done with text and
/// up to which size, that there is text or that there is none, and that its own text
/// is wanted.
pub proof fn lemma_client_reads_the_notices(available: bool)
    ensures
        ({
            let flags = number_of(caps_bytes().subrange(8, 12), true) as u32;
            &&& caps_bytes().len() == 16
            &&& number_of(caps_bytes().subrange(12, 16), true) == 0x10_0000
            &&& action_of(flags) is Caps && flag_is_set(flags, 0) && flag_is_set(flags, 25)
            &&& flag_is_set(flags, 26) && flag_is_set(flags, 27) && flag_is_set(flags, 28)
        }),
        ({
            let flags = number_of(notify_bytes(available).subrange(8, 12), true) as u32;
            &&& notify_bytes(available).len() == 12
            &&& flag_is_set(flags, 27) && flag_is_set(flags, 0) == available
            &&& !flag_is_set(flags, 24) && !flag_is_set(flags, 25) && !flag_is_set(flags, 26)
            &&& !flag_is_set(flags, 28)
        }),
        ({
            let flags = number_of(request_bytes().subrange(8, 12), true) as u32;
            &&& request_bytes().len() == 12
            &&& action_of(flags) is Request
            &&& !flag_is_set(flags, 26) && !flag_is_set(flags, 27) && !flag_is_set(flags, 28)
        }),
{
    let size = be32(MAX_TEXT as u32);
    lemma_ext_reads_as(0x1f00_0001, size);
    lemma_big_be32(MAX_TEXT as u32);
    assert(caps_bytes().subrange(12, 16) =~= caps_bytes().skip(12));
    lemma_flag_bits(0x1f00_0001);
    let flags: u32 = if available {
        0x0800_0001
    } else {
        0x0800_0000
    };
    lemma_ext_reads_as(flags, seq![]);
    lemma_flag_bits(flags);
    lemma_ext_reads_as(0x0200_0001, seq![]);
    lemma_flag_bits(0x0200_0001);
}

/// Text that is provided says so in its flags and carries the data behind them.
pub proof fn lemma_client_reads_provided_data(data: Seq<u8>)
    ensures
        ({
            let b = ext_bytes(0x1000_0001, data);
            let flags = number_of(b.subrange(8, 12), true) as u32;
            &&& b[0] == 3
            &&& (number_of(b.subrange(4, 8), true) + 4 + data.len()) % 0x1_0000_0000 == 0
            &&& action_of(flags) is Provide
            &&& b.skip(12) == data
        }),
{
    lemma_ext_reads_as(0x1000_0001, data);
    lemma_flag_bits(0x1000_0001);
}

/// Every line of text on its way to a client ends in a carriage return and a line
/// feed, and neither stands anywhere else; without the carriage returns it is the
/// text, if that has none.
pub proof fn lemma_lines_end_in_both(s: Seq<char>)
    ensures
        ({
            let t = with_crlf(s);
            &&& forall|i: int|
                0 <= i < t.len() && #[trigger] t[i] == '\n' ==> i > 0 && t[i - 1] == '\r'
            &&& forall|i: int|
                0 <= i < t.len() && #[trigger] t[i] == '\r' ==> i + 1 < t.len() && t[i + 1] == '\n'
            &&& (forall|i: int| 0 <= i < s.len() ==> #[trigger] s[i] != '\r') ==> t.filter(
                |c: char| c != '\r',
            ) == s
        }),
    decreases s.len(),
{
    let t = with_crlf(s);
    let keep = |c: char| c != '\r';
    if s.len() == 0 {
        reveal(Seq::filter);
        assert(t.filter(keep) =~= s);
    } else {
        let n: int = if s[0] == '\r' && s.len() > 1 && s[1] == '\n' {
            2
        } else {
            1
        };
        let rest = s.skip(n);
        lemma_lines_end_in_both(rest);
        let head: Seq<char> = if s[0] == '\r' || s[0] == '\n' {
            seq!['\r', '\n']
        } else {
            seq![s[0]]
        };
        let tail = with_crlf(rest);
        assert(t =~= head + tail);
        assert forall|i: int| 0 <= i < t.len() && #[trigger] t[i] == '\n' implies i > 0 && t[i - 1]
            == '\r' by {
            if i >= head.len() {
                assert(t[i] == tail[i - head.len()]);
                assert(t[i - 1] == tail[i - head.len() - 1]);
            }
        }
        assert forall|i: int| 0 <= i < t.len() && #[trigger] t[i] == '\r' implies i + 1 < t.len()
            && t[i + 1] == '\n' by {
            if i >= head.len() {
                assert(t[i] == tail[i - head.len()]);
                assert(t[i + 1] == tail[i - head.len() + 1]);
            }
        }
        if forall|i: int| 0 <= i < s.len() ==> #[trigger] s[i] != '\r' {
            assert(s[0] != '\r');
            assert forall|i: int| 0 <= i < rest.len() implies #[trigger] rest[i] != '\r' by {
                assert(rest[i] == s[i + n]);
            }
            Seq::filter_distributes_over_add(head, tail, keep);
            assert(head.filter(keep) =~= seq![s[0]]) by {
                reveal(Seq::filter);
                reveal_with_fuel(Seq::filter, 3);
                if s[0] == '\n' {
                    assert(head.drop_last() =~= seq!['\r']);
                    assert(head.drop_last().drop_last() =~= seq![]);
                } else {
                    assert(head.drop_last() =~= seq![]);
                }
            }
            assert(t.filter(keep) =~= s);
        }
    }
}

/// Text from a client whose lines end in a carriage return and a line feed loses the
/// carriage returns and nothing else.
pub proof fn lemma_line_feeds_are_left(s: Seq<char>)
    requires
        forall|i: int|
            0 <= i < s.len() && #[trigger] s[i] == '\r' ==> i + 1 < s.len() && s[i + 1] == '\n',
    ensures
        with_lf(s) == s.filter(|c: char| c != '\r'),
    decreases s.len(),
{
    let keep = |c: char| c != '\r';
    reveal_with_fuel(Seq::filter, 3);
    if s.len() > 0 {
        let n: int = if s[0] == '\r' {
            2
        } else {
            1
        };
        let rest = s.skip(n);
        assert forall|i: int| 0 <= i < rest.len() && #[trigger] rest[i] == '\r' implies i + 1
            < rest.len() && rest[i + 1] == '\n' by {
            assert(rest[i] == s[i + n]);
        }
        lemma_line_feeds_are_left(rest);
        let head = s.take(n);
        assert(s =~= head + rest);
        Seq::filter_distributes_over_add(head, rest, keep);
        if n == 2 {
            assert(head =~= seq!['\r', '\n']);
            assert(head.drop_last() =~= seq!['\r']);
            assert(head.drop_last().drop_last() =~= seq![]);
            assert(head.filter(keep) =~= seq!['\n']);
        } else {
            assert(head.drop_last() =~= seq![]);
            assert(head.filter(keep) =~= seq![s[0]]);
        }
    }
}

/// Provided text stands behind its size, in UTF-8 and with a zero at its end that the
/// size counts.
pub proof fn lemma_provided_text_has_its_size(text: Seq<char>)
    ensures
        ({
            let p = text_payload(text);
            &&& p.len() >= 5
            &&& number_of(p.subrange(0, 4), true) == (p.len() - 4) % 0x1_0000_0000
            &&& p.last() == 0
            &&& p.subrange(4, p.len() - 1) == encode_utf8(with_crlf(text))
        }),
{
    let p = text_payload(text);
    let body = encode_utf8(with_crlf(text)).push(0);
    lemma_big_be32(low32(body.len() as int));
    assert(p.subrange(0, 4) =~= be32(low32(body.len() as int)));
    assert(p.subrange(4, p.len() - 1) =~= encode_utf8(with_crlf(text)));
}

/// A client's text is taken from behind its size, if it is all there and no larger
/// than a mebibyte, without the zero at its end.
pub proof fn lemma_payload_is_read_by_position(p: Seq<u8>)
    ensures
        ({
            let n = number_of(p.subrange(0, 4), true);
            match payload_text(p) {
                Some(b) => p.len() >= 4 && n <= 0x10_0000 && p.len() >= 4 + n && b == (if n > 0
                    && p[3 + n] == 0 {
                    p.subrange(4, 3 + n)
                } else {
                    p.subrange(4, 4 + n)
                }),
                None => p.len() < 4 || n > 0x10_0000 || p.len() < 4 + n,
            }
        }),
{
    if p.len() >= 4 {
        crate::rfb::message::lemma_four_bytes(p, 0);
        let n = number_of(p.subrange(0, 4), true);
        if p.len() >= 4 + n && n > 0 {
            let b = p.subrange(4, 4 + n);
            assert(b.last() == p[3 + n]);
            assert(b.drop_last() =~= p.subrange(4, 3 + n));
        }
    }
}

} // verus!
