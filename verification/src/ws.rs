//! Minimal RFC 6455 WebSocket server framing.
//!
//! Only what a VNC client needs: a binary stream in both directions, plus
//! ping/pong and close handling. The two halves take and give plain bytes, so
//! the RFB code does not know it is on a WebSocket at all.

use sha1::{Digest, Sha1};
use vstd::prelude::*;
use vstd::utf8::encode_utf8;

use crate::bytes::{
    be16, be16_at, be32_at, be64, be64_at, copy_range, joined, push_all, push_be16, push_be64,
    read_be16, read_be64,
};
use crate::pixel::{lemma_two_bytes, number_of};
use crate::rfb::client::lemma_big_be16;
use crate::rfb::message::lemma_four_bytes;

verus! {

/// Refuse frames larger than this so a client cannot exhaust memory.
pub const MAX_FRAME: u64 = 0x80_0000;

pub const OP_CONTINUATION: u8 = 0x0;

pub const OP_TEXT: u8 = 0x1;

pub const OP_BINARY: u8 = 0x2;

pub const OP_CLOSE: u8 = 0x8;

pub const OP_PING: u8 = 0x9;

pub const OP_PONG: u8 = 0xa;

/// The SHA-1 digest of some bytes.
pub uninterp spec fn sha1_of(data: Seq<u8>) -> Seq<u8>;

/// `Sha1::digest`: the 20 bytes of a SHA-1 digest.
#[verifier::external_body]
fn sha1(data: &[u8]) -> (v: Vec<u8>)
    ensures
        v@ == sha1_of(data@),
        v@.len() == 20,
{
    Sha1::digest(data).to_vec()
}

/// The character for six bits.
pub open spec fn base64_char(n: int) -> char {
    if n < 26 {
        ((n + 65) as u32) as char
    } else if n < 52 {
        ((n + 71) as u32) as char
    } else if n < 62 {
        ((n - 4) as u32) as char
    } else if n == 62 {
        '+'
    } else {
        '/'
    }
}

/// Three bytes are four characters; at the end, equals signs stand for what is
/// not there.
pub open spec fn base64_of(data: Seq<u8>) -> Seq<char>
    decreases data.len(),
{
    if data.len() == 0 {
        seq![]
    } else {
        let a = data[0] as int;
        let b = if data.len() > 1 {
            data[1] as int
        } else {
            0
        };
        let c = if data.len() > 2 {
            data[2] as int
        } else {
            0
        };
        let quad = seq![
            base64_char(a / 4),
            base64_char(a % 4 * 16 + b / 16),
            if data.len() > 1 {
                base64_char(b % 16 * 4 + c / 64)
            } else {
                '='
            },
            if data.len() > 2 {
                base64_char(c % 64)
            } else {
                '='
            },
        ];
        if data.len() > 3 {
            quad + base64_of(data.skip(3))
        } else {
            quad
        }
    }
}

fn push_base64(out: &mut String, n: u8)
    requires
        n < 64,
    ensures
        final(out)@ == old(out)@.push(base64_char(n as int)),
{
    let c: u8 = if n < 26 {
        n + 65
    } else if n < 52 {
        n + 71
    } else if n < 62 {
        n - 4
    } else if n == 62 {
        43
    } else {
        47
    };
    out.push(c as char);
}

pub fn base64(data: &[u8]) -> (s: String)
    ensures
        s@ == base64_of(data@),
{
    let mut out: String = String::new();
    let n: usize = data.len();
    let mut i: usize = 0;
    assert(data@.skip(0) =~= data@);
    assert(out@ + base64_of(data@.skip(0)) =~= base64_of(data@));
    while i < n
        invariant
            n == data@.len(),
            i <= n,
            out@ + base64_of(data@.skip(i as int)) == base64_of(data@),
        decreases n - i,
    {
        let ghost seen = out@;
        let ghost rest = data@.skip(i as int);
        let left: usize = n - i;
        let a: u8 = data[i];
        let b: u8 = if left > 1 {
            data[i + 1]
        } else {
            0
        };
        let c: u8 = if left > 2 {
            data[i + 2]
        } else {
            0
        };
        push_base64(&mut out, a / 4);
        push_base64(&mut out, a % 4 * 16 + b / 16);
        if left > 1 {
            push_base64(&mut out, b % 16 * 4 + c / 64);
        } else {
            out.push('=');
        }
        if left > 2 {
            push_base64(&mut out, c % 64);
        } else {
            out.push('=');
        }
        i = if left > 3 {
            i + 3
        } else {
            n
        };
        proof {
            if left > 3 {
                assert(rest.skip(3) =~= data@.skip(i as int));
            } else {
                assert(data@.skip(n as int) =~= Seq::<u8>::empty());
            }
            assert(out@ + base64_of(data@.skip(i as int)) =~= seen + base64_of(rest));
        }
    }
    assert(data@.skip(n as int) =~= Seq::<u8>::empty());
    assert(out@ =~= base64_of(data@));
    out
}

/// `Sec-WebSocket-Accept` for a client's `Sec-WebSocket-Key`.
pub fn accept_key(key: &str) -> (s: String)
    ensures
        s@ == base64_of(
            sha1_of(
                encode_utf8(key@) + encode_utf8("258EAFA5-E914-47DA-95CA-C5AB0DC85B11"@),
            ),
        ),
{
    let mut text: Vec<u8> = Vec::new();
    push_all(&mut text, key.as_bytes());
    push_all(&mut text, "258EAFA5-E914-47DA-95CA-C5AB0DC85B11".as_bytes());
    let ghost whole = encode_utf8(key@) + encode_utf8("258EAFA5-E914-47DA-95CA-C5AB0DC85B11"@);
    assert(text@ =~= whole);
    base64(sha1(text.as_slice()).as_slice())
}

/// What can go wrong on a WebSocket.
#[derive(Clone, Copy, Debug, PartialEq, Eq, Structural)]
pub enum WsError {
    /// The sink has been closed.
    Closed,
    FrameTooLarge,
    UnknownOpcode,
    /// The connection ended inside a frame.
    UnexpectedEof,
}

/// The length field of an unmasked frame.
pub open spec fn length_bytes(n: int) -> Seq<u8> {
    if n < 126 {
        seq![n as u8]
    } else if n <= 0xffff {
        seq![126u8] + be16(n as u16)
    } else {
        seq![127u8] + be64(n as u64)
    }
}

/// A whole message in one unmasked frame.
pub open spec fn frame_bytes(opcode: u8, payload: Seq<u8>) -> Seq<u8> {
    seq![(128 + opcode) as u8] + length_bytes(payload.len() as int) + payload
}

/// The payload of a close frame: status 1000, a normal closure.
pub open spec fn normal_closure() -> Seq<u8> {
    be16(1000)
}

/// The write half: every `write` call becomes one binary frame. What is to go
/// out is gathered in `inner`.
pub struct WsSink {
    pub inner: Vec<u8>,
    pub closed: bool,
}

impl WsSink {
    pub fn new(inner: Vec<u8>) -> (s: Self)
        ensures
            s.inner == inner,
            !s.closed,
    {
        WsSink { inner, closed: false }
    }

    fn frame(&mut self, opcode: u8, payload: &[u8]) -> (r: Result<(), WsError>)
        requires
            opcode < 16,
        ensures
            final(self).closed == old(self).closed,
            old(self).closed ==> r == Err::<(), WsError>(WsError::Closed) && final(self).inner@
                == old(self).inner@,
            !old(self).closed ==> r is Ok && final(self).inner@ == old(self).inner@ + frame_bytes(
                opcode,
                payload@,
            ),
    {
        if self.closed {
            return Err(WsError::Closed);
        }
        let n: usize = payload.len();
        self.inner.push(128 + opcode);
        if n < 126 {
            self.inner.push(n as u8);
        } else if n <= 0xffff {
            self.inner.push(126);
            push_be16(&mut self.inner, n as u16);
        } else {
            self.inner.push(127);
            push_be64(&mut self.inner, n as u64);
        }
        push_all(&mut self.inner, payload);
        assert(self.inner@ =~= old(self).inner@ + frame_bytes(opcode, payload@));
        Ok(())
    }

    /// Answer a ping.
    pub fn pong(&mut self, payload: &[u8]) -> (r: Result<(), WsError>)
        ensures
            final(self).closed == old(self).closed,
            old(self).closed ==> r == Err::<(), WsError>(WsError::Closed) && final(self).inner@
                == old(self).inner@,
            !old(self).closed ==> r is Ok && final(self).inner@ == old(self).inner@ + frame_bytes(
                OP_PONG,
                payload@,
            ),
    {
        self.frame(OP_PONG, payload)
    }

    /// Say goodbye, once.
    pub fn close(&mut self)
        ensures
            final(self).closed,
            final(self).inner@ == old(self).inner@ + (if old(self).closed {
                seq![]
            } else {
                frame_bytes(OP_CLOSE, normal_closure())
            }),
    {
        if !self.closed {
            let mut status: Vec<u8> = Vec::new();
            push_be16(&mut status, 1000);
            assert(status@ =~= normal_closure());
            let _sent = self.frame(OP_CLOSE, status.as_slice());
            self.closed = true;
        } else {
            assert(self.inner@ =~= old(self).inner@ + Seq::<u8>::empty());
        }
    }

    /// Send bytes as one binary frame. An empty frame would have no meaning.
    pub fn write(&mut self, buf: &[u8]) -> (r: Result<usize, WsError>)
        ensures
            final(self).closed == old(self).closed,
            match r {
                Ok(n) => {
                    &&& n == buf@.len()
                    &&& n == 0 || !old(self).closed
                    &&& final(self).inner@ == old(self).inner@ + (if n == 0 {
                        seq![]
                    } else {
                        frame_bytes(OP_BINARY, buf@)
                    })
                },
                Err(e) => {
                    &&& e is Closed
                    &&& old(self).closed && buf@.len() > 0
                    &&& final(self).inner@ == old(self).inner@
                },
            },
    {
        if buf.len() == 0 {
            assert(self.inner@ =~= old(self).inner@ + Seq::<u8>::empty());
            return Ok(0);
        }
        match self.frame(OP_BINARY, buf) {
            Ok(()) => Ok(buf.len()),
            Err(e) => Err(e),
        }
    }

    /// Take what is to go out.
    pub fn take_output(&mut self) -> (v: Vec<u8>)
        ensures
            v@ == old(self).inner@,
            final(self).inner@ == Seq::<u8>::empty(),
            final(self).closed == old(self).closed,
    {
        let mut out: Vec<u8> = Vec::new();
        std::mem::swap(&mut self.inner, &mut out);
        assert(self.inner@ =~= Seq::<u8>::empty());
        out
    }
}

/// What the bytes received so far begin with.
pub enum FrameRead {
    /// Not yet a whole frame.
    NeedMore,
    TooLarge,
    /// A frame, unmasked, and how many bytes it takes.
    Frame { opcode: u8, payload: Seq<u8>, used: int },
}

/// Bytes with a four-byte mask applied over and over.
pub open spec fn masked(b: Seq<u8>, mask: Seq<u8>) -> Seq<u8> {
    Seq::new(b.len(), |i: int| b[i] ^ mask[i % 4])
}

/// Bytes of a frame's first two and its length field.
pub open spec fn head_len(b: Seq<u8>) -> int {
    if b[1] % 128 == 126 {
        4
    } else if b[1] % 128 == 127 {
        10
    } else {
        2
    }
}

/// Length of a frame's payload.
pub open spec fn payload_len(b: Seq<u8>) -> int {
    if b[1] % 128 == 126 {
        be16_at(b, 2) as int
    } else if b[1] % 128 == 127 {
        be64_at(b, 2) as int
    } else {
        b[1] as int % 128
    }
}

/// How RFC 6455 reads what a client has sent so far.
pub open spec fn read_frame(b: Seq<u8>) -> FrameRead {
    let head = head_len(b);
    let len = payload_len(b);
    let is_masked = b[1] >= 128;
    let start = head + if is_masked {
        4int
    } else {
        0
    };
    if b.len() < 2 || b.len() < head {
        FrameRead::NeedMore
    } else if len > MAX_FRAME {
        FrameRead::TooLarge
    } else if b.len() < start + len {
        FrameRead::NeedMore
    } else {
        let body = b.subrange(start, start + len);
        FrameRead::Frame {
            opcode: (b[0] % 16) as u8,
            payload: if is_masked {
                masked(body, b.subrange(head, head + 4))
            } else {
                body
            },
            used: start + len,
        }
    }
}

/// What reading frames has led to.
pub enum Scan {
    /// Application data.
    Data(Seq<u8>),
    /// More bytes are needed to say.
    NeedMore,
    /// The stream has ended.
    End,
    Failed(WsError),
}

/// The outcome of reading frames: what it led to, the bytes that are left, what
/// is sent to the client meanwhile, and whether the sink is closed then.
pub struct ScanView {
    pub found: Scan,
    pub rest: Seq<u8>,
    pub reply: Seq<u8>,
    pub closed: bool,
}

/// Read frames until one carries application data. Pings are answered, empty
/// frames and pongs passed over; a close frame is answered and ends the stream. Of
/// a frame that is too large the head is used up, and what is left where the
/// connection ends is used up too.
pub open spec fn scan(b: Seq<u8>, ended: bool, closed: bool) -> ScanView
    decreases b.len(),
{
    match read_frame(b) {
        FrameRead::NeedMore => ScanView {
            found: if !ended {
                Scan::NeedMore
            } else if b.len() < 2 {
                Scan::End
            } else {
                Scan::Failed(WsError::UnexpectedEof)
            },
            rest: if !ended {
                b
            } else {
                seq![]
            },
            reply: seq![],
            closed,
        },
        FrameRead::TooLarge => ScanView {
            found: Scan::Failed(WsError::FrameTooLarge),
            rest: b.skip(head_len(b)),
            reply: seq![],
            closed,
        },
        FrameRead::Frame { opcode, payload, used } => {
            let rest = b.skip(used);
            if opcode == OP_CONTINUATION || opcode == OP_TEXT || opcode == OP_BINARY {
                if payload.len() == 0 {
                    scan(rest, ended, closed)
                } else {
                    ScanView { found: Scan::Data(payload), rest, reply: seq![], closed }
                }
            } else if opcode == OP_PING {
                let later = scan(rest, ended, closed);
                ScanView {
                    reply: (if closed {
                        seq![]
                    } else {
                        frame_bytes(OP_PONG, payload)
                    }) + later.reply,
                    ..later
                }
            } else if opcode == OP_PONG {
                scan(rest, ended, closed)
            } else if opcode == OP_CLOSE {
                ScanView {
                    found: Scan::End,
                    rest,
                    reply: if closed {
                        seq![]
                    } else {
                        frame_bytes(OP_CLOSE, normal_closure())
                    },
                    closed: true,
                }
            } else {
                ScanView {
                    found: Scan::Failed(WsError::UnknownOpcode),
                    rest,
                    reply: seq![],
                    closed,
                }
            }
        },
    }
}

/// What a read came to.
pub enum WsRead {
    Bytes(Vec<u8>),
    /// More bytes of the connection are needed.
    NeedMore,
    /// The stream has ended.
    End,
}

/// A frame that has been taken apart.
struct Frame {
    opcode: u8,
    payload: Vec<u8>,
    used: usize,
}

/// What there was to take apart.
enum FrameTaken {
    NeedMore,
    /// A frame that is too large, and the bytes of its head.
    TooLarge { head: usize },
    Whole(Frame),
}

/// Take the frame at `at` apart, if it is all there.
fn take_frame(b: &[u8], at: usize) -> (r: FrameTaken)
    requires
        at <= b@.len(),
    ensures
        match read_frame(b@.skip(at as int)) {
            FrameRead::NeedMore => r is NeedMore,
            FrameRead::TooLarge => r matches FrameTaken::TooLarge { head } && head == head_len(
                b@.skip(at as int),
            ) && head <= b@.len() - at,
            FrameRead::Frame { opcode, payload, used } => r matches FrameTaken::Whole(f) && f.opcode
                == opcode && f.payload@ == payload && f.used == used && 2 <= used <= b@.len() - at,
        },
{
    let ghost s = b@.skip(at as int);
    let n: usize = b.len() - at;
    if n < 2 {
        return FrameTaken::NeedMore;
    }
    let view: &[u8] = &b[at..b.len()];
    assert(view@ =~= s);
    let short: u8 = view[1] % 128;
    let is_masked: bool = view[1] >= 128;
    let head: usize = if short == 126 {
        4
    } else if short == 127 {
        10
    } else {
        2
    };
    if n < head {
        return FrameTaken::NeedMore;
    }
    let len: u64 = if short == 126 {
        read_be16(view, 2) as u64
    } else if short == 127 {
        read_be64(view, 2)
    } else {
        short as u64
    };
    if len > MAX_FRAME {
        return FrameTaken::TooLarge { head };
    }
    let start: usize = if is_masked {
        head + 4
    } else {
        head
    };
    let used: usize = start + len as usize;
    if n < used {
        return FrameTaken::NeedMore;
    }
    let mut payload: Vec<u8> = copy_range(view, start, used);
    if is_masked {
        let ghost body = payload@;
        let ghost mask = s.subrange(head as int, head + 4);
        let size: usize = payload.len();
        for i in 0..size
            invariant
                size == payload@.len(),
                body.len() == size,
                view@ == s,
                head <= 10,
                head + 4 <= s.len(),
                mask == s.subrange(head as int, head + 4),
                forall|j: int| 0 <= j < i ==> #[trigger] payload@[j] == body[j] ^ mask[j % 4],
                forall|j: int| i <= j < size ==> #[trigger] payload@[j] == body[j],
        {
            let m: u8 = view[head + i % 4];
            assert(m == mask[i as int % 4]);
            payload[i] = payload[i] ^ m;
        }
        assert(payload@ =~= masked(body, mask));
    }
    FrameTaken::Whole(Frame { opcode: view[0] % 16, payload, used })
}

/// The read half: unmasks incoming frames and hands back a plain byte stream.
pub struct WsSource {
    /// What the connection has brought.
    pub inner: Vec<u8>,
    /// How much of it has been read.
    pub at: usize,
    /// The connection brings no more.
    pub ended: bool,
    /// Data of the frame that is being handed out, and how much of it has been.
    pub payload: Vec<u8>,
    pub pos: usize,
    pub eof: bool,
}

/// A source as sequences: what the connection has brought and nobody has read,
/// and data that is still to be handed out.
#[verifier::ext_equal]
pub struct SourceView {
    pub unread: Seq<u8>,
    pub pending: Seq<u8>,
    pub ended: bool,
    pub eof: bool,
}

impl View for WsSource {
    type V = SourceView;

    open spec fn view(&self) -> SourceView {
        SourceView {
            unread: self.unread(),
            pending: self.pending(),
            ended: self.ended,
            eof: self.eof,
        }
    }
}

/// What a read came to, with its bytes as a sequence.
pub enum ReadView {
    Bytes(Seq<u8>),
    NeedMore,
    End,
    Failed(WsError),
}

/// The outcome of a read: what it came to, the source after it, what is sent to
/// the client meanwhile, and whether the sink is closed then.
pub struct ReadOutcome {
    pub got: ReadView,
    pub source: SourceView,
    pub reply: Seq<u8>,
    pub closed: bool,
}

/// Bytes handed out of some data, and what is left of it.
pub open spec fn hand_out(s: SourceView, data: Seq<u8>, max: int) -> (ReadView, SourceView) {
    let v = front(data, max);
    (ReadView::Bytes(v), SourceView { pending: data.skip(v.len() as int), ..s })
}

/// Read up to `max` bytes: of the data that is still to be handed out, else of the
/// next frame that carries any. After the end there is only the end.
pub open spec fn read_once(s: SourceView, closed: bool, max: int) -> ReadOutcome {
    if max == 0 || s.pending.len() > 0 {
        let (got, source) = hand_out(s, s.pending, max);
        ReadOutcome { got, source, reply: seq![], closed }
    } else if s.eof {
        ReadOutcome { got: ReadView::End, source: s, reply: seq![], closed }
    } else {
        let o = scan(s.unread, s.ended, closed);
        let after = SourceView {
            unread: o.rest,
            pending: seq![],
            ended: s.ended,
            eof: o.found is End,
        };
        let (got, source) = match o.found {
            Scan::Data(d) => hand_out(after, d, max),
            Scan::NeedMore => (ReadView::NeedMore, after),
            Scan::End => (ReadView::End, after),
            Scan::Failed(e) => (ReadView::Failed(e), after),
        };
        ReadOutcome { got, source, reply: o.reply, closed: o.closed }
    }
}

impl WsSource {
    pub open spec fn wf(self) -> bool {
        self.at <= self.inner@.len() && self.pos <= self.payload@.len()
    }

    /// What the connection has brought and nobody has read.
    pub open spec fn unread(self) -> Seq<u8> {
        self.inner@.skip(self.at as int)
    }

    /// Data that is still to be handed out.
    pub open spec fn pending(self) -> Seq<u8> {
        self.payload@.skip(self.pos as int)
    }

    /// A source of what a connection has brought so far.
    pub fn new(inner: Vec<u8>) -> (s: Self)
        ensures
            s.wf(),
            s.unread() == inner@,
            s.pending() == Seq::<u8>::empty(),
            !s.ended,
            !s.eof,
    {
        let s = WsSource { inner, at: 0, ended: false, payload: Vec::new(), pos: 0, eof: false };
        assert(s.unread() =~= inner@);
        assert(s.pending() =~= Seq::<u8>::empty());
        s
    }

    /// The connection has brought more; nothing means that it has ended.
    pub fn feed(&mut self, more: &[u8])
        requires
            old(self).wf(),
        ensures
            final(self).wf(),
            final(self).unread() == old(self).unread() + more@,
            final(self).pending() == old(self).pending(),
            final(self).ended == (old(self).ended || more@.len() == 0),
            final(self).eof == old(self).eof,
    {
        if more.len() == 0 {
            self.ended = true;
        }
        let mut rest: Vec<u8> = copy_range(self.inner.as_slice(), self.at, self.inner.len());
        push_all(&mut rest, more);
        self.inner = rest;
        self.at = 0;
        assert(self.unread() =~= old(self).unread() + more@);
    }

    /// Read frames until one carries application data.
    fn next_data_frame(&mut self, sink: &mut WsSink) -> (r: Result<WsRead, WsError>)
        requires
            old(self).wf(),
            !old(self).eof,
            old(self).pending().len() == 0,
        ensures
            final(self).wf(),
            final(self).ended == old(self).ended,
            ({
                let o = scan(old(self).unread(), old(self).ended, old(sink).closed);
                &&& final(self).unread() == o.rest
                &&& final(sink).inner@ == old(sink).inner@ + o.reply
                &&& final(sink).closed == o.closed
                &&& final(self).eof == (o.found is End)
                &&& match o.found {
                    Scan::Data(d) => r matches Ok(WsRead::Bytes(v)) && v@.len() == 0
                        && final(self).pending() == d,
                    Scan::NeedMore => r matches Ok(WsRead::NeedMore),
                    Scan::End => r matches Ok(WsRead::End),
                    Scan::Failed(e) => r matches Err(f) && f == e,
                }
                &&& !(o.found is Data) ==> final(self).pending().len() == 0
            }),
    {
        let ghost o = scan(self.unread(), self.ended, sink.closed);
        loop
            invariant
                self.wf(),
                self.ended == old(self).ended,
                !self.eof,
                self.pending().len() == 0,
                ({
                    let now = scan(self.unread(), self.ended, sink.closed);
                    &&& o == scan(old(self).unread(), old(self).ended, old(sink).closed)
                    &&& o.found == now.found
                    &&& o.rest == now.rest
                    &&& o.closed == now.closed
                    &&& old(sink).inner@ + o.reply == sink.inner@ + now.reply
                }),
            decreases self.unread().len(),
        {
            let ghost unread = self.unread();
            let ghost so_far = sink.inner@;
            let ghost now = scan(unread, self.ended, sink.closed);
            let frame: Frame = match take_frame(self.inner.as_slice(), self.at) {
                FrameTaken::NeedMore => {
                    assert(sink.inner@ =~= so_far + now.reply);
                    if !self.ended {
                        return Ok(WsRead::NeedMore);
                    }
                    let left: usize = self.inner.len() - self.at;
                    self.at = self.inner.len();
                    assert(self.unread() =~= seq![]);
                    if left < 2 {
                        self.eof = true;
                        return Ok(WsRead::End);
                    }
                    return Err(WsError::UnexpectedEof);
                },
                FrameTaken::TooLarge { head } => {
                    assert(sink.inner@ =~= so_far + now.reply);
                    let total: usize = self.inner.len();
                    assert(self.at + head <= total);
                    self.at = self.at + head;
                    assert(self.unread() =~= unread.skip(head as int));
                    return Err(WsError::FrameTooLarge);
                },
                FrameTaken::Whole(f) => f,
            };
            let total: usize = self.inner.len();
            assert(self.at + frame.used <= total);
            self.at = self.at + frame.used;
            assert(self.unread() =~= unread.skip(frame.used as int));
            let op: u8 = frame.opcode;
            if op == OP_CONTINUATION || op == OP_TEXT || op == OP_BINARY {
                if frame.payload.len() > 0 {
                    self.payload = frame.payload;
                    self.pos = 0;
                    assert(self.pending() =~= frame.payload@);
                    assert(sink.inner@ =~= so_far + now.reply);
                    let none: Vec<u8> = Vec::new();
                    return Ok(WsRead::Bytes(none));
                }
            } else if op == OP_PING {
                let ghost was_closed = sink.closed;
                let _sent = sink.pong(frame.payload.as_slice());
                proof {
                    let answer = if was_closed {
                        Seq::<u8>::empty()
                    } else {
                        frame_bytes(OP_PONG, frame.payload@)
                    };
                    let later = scan(self.unread(), self.ended, was_closed);
                    assert(sink.inner@ =~= so_far + answer);
                    assert(sink.inner@ + later.reply =~= so_far + now.reply);
                }
            } else if op == OP_CLOSE {
                sink.close();
                self.eof = true;
                return Ok(WsRead::End);
            } else if op != OP_PONG {
                assert(sink.inner@ =~= so_far + now.reply);
                return Err(WsError::UnknownOpcode);
            }
        }
    }

    /// Read up to `max` bytes of the stream.
    pub fn read(&mut self, max: usize, sink: &mut WsSink) -> (r: Result<WsRead, WsError>)
        requires
            old(self).wf(),
        ensures
            final(self).wf(),
            ({
                let o = read_once(old(self)@, old(sink).closed, max as int);
                &&& final(self)@ == o.source
                &&& final(sink).inner@ == old(sink).inner@ + o.reply
                &&& final(sink).closed == o.closed
                &&& match o.got {
                    ReadView::Bytes(v) => r matches Ok(WsRead::Bytes(w)) && w@ == v,
                    ReadView::NeedMore => r matches Ok(WsRead::NeedMore),
                    ReadView::End => r matches Ok(WsRead::End),
                    ReadView::Failed(e) => r matches Err(f) && f == e,
                }
            }),
    {
        assert(sink.inner@ =~= sink.inner@ + seq![]);
        if max > 0 && self.pos >= self.payload.len() {
            assert(self.pending() =~= seq![]);
            if self.eof {
                return Ok(WsRead::End);
            }
            match self.next_data_frame(sink) {
                Ok(WsRead::Bytes(_)) => {},
                other => {
                    assert(self.pending() =~= seq![]);
                    return other;
                },
            }
        }
        let left: usize = self.payload.len() - self.pos;
        let n: usize = if max < left {
            max
        } else {
            left
        };
        let ghost pending = self.pending();
        let v: Vec<u8> = copy_range(self.payload.as_slice(), self.pos, self.pos + n);
        self.pos = self.pos + n;
        assert(v@ =~= front(pending, max as int));
        assert(self.pending() =~= pending.skip(n as int));
        Ok(WsRead::Bytes(v))
    }
}

/// The first `max` bytes, or all of them where there are fewer.
pub open spec fn front(s: Seq<u8>, max: int) -> Seq<u8> {
    s.take(
        if max < s.len() {
            max
        } else {
            s.len() as int
        },
    )
}

/// A whole message in one masked frame, as a client sends it.
pub open spec fn client_frame(opcode: u8, mask: Seq<u8>, payload: Seq<u8>) -> Seq<u8> {
    let plain = length_bytes(payload.len() as int);
    seq![(128 + opcode) as u8, (128 + plain[0]) as u8] + plain.skip(1) + mask + masked(
        payload,
        mask,
    )
}

/// A client's frame reads as what the client put into it, and leaves what
/// follows.
pub proof fn lemma_client_frames_read_back(
    opcode: u8,
    mask: Seq<u8>,
    payload: Seq<u8>,
    rest: Seq<u8>,
)
    requires
        opcode < 16,
        mask.len() == 4,
        payload.len() <= MAX_FRAME,
    ensures
        ({
            let f = client_frame(opcode, mask, payload);
            read_frame(f + rest) == (FrameRead::Frame { opcode, payload, used: f.len() as int })
        }),
{
    let f = client_frame(opcode, mask, payload);
    let b = f + rest;
    let n = payload.len() as int;
    lemma_length_reads_back(n, b, true);
    let head = head_len(b);
    assert(b.subrange(head, head + 4) =~= mask);
    let body = b.subrange(head + 4, head + 4 + n);
    assert(body =~= masked(payload, mask));
    assert forall|i: int| 0 <= i < n implies masked(body, mask)[i] == payload[i] by {
        let (x, m) = (payload[i], mask[i % 4]);
        assert((x ^ m) ^ m == x) by (bit_vector);
    }
    assert(masked(body, mask) =~= payload);
}

/// A frame of ours reads as what was put into it, and leaves what follows.
pub proof fn lemma_server_frames_read_back(opcode: u8, payload: Seq<u8>, rest: Seq<u8>)
    requires
        opcode < 16,
        payload.len() <= MAX_FRAME,
    ensures
        ({
            let f = frame_bytes(opcode, payload);
            read_frame(f + rest) == (FrameRead::Frame { opcode, payload, used: f.len() as int })
        }),
{
    let f = frame_bytes(opcode, payload);
    let b = f + rest;
    let n = payload.len() as int;
    lemma_length_reads_back(n, b, false);
    let head = head_len(b);
    assert(b.subrange(head, head + n) =~= payload);
}

proof fn lemma_length_reads_back(n: int, b: Seq<u8>, mask_bit: bool)
    requires
        0 <= n <= MAX_FRAME,
        b.len() >= 1 + length_bytes(n).len(),
        b[1] == length_bytes(n)[0] + if mask_bit {
            128int
        } else {
            0
        },
        forall|i: int| 1 <= i < length_bytes(n).len() ==> b[1 + i] == #[trigger] length_bytes(n)[i],
    ensures
        head_len(b) == 1 + length_bytes(n).len(),
        payload_len(b) == n,
{
    let l = length_bytes(n);
    if n < 126 {
    } else if n <= 0xffff {
        assert(b[2] == l[1] && b[3] == l[2]);
        crate::bytes::lemma_be_round_trip(n as u16, 0, 0);
        assert(l[1] == be16(n as u16)[0] && l[2] == be16(n as u16)[1]);
    } else {
        let w = be64(n as u64);
        assert forall|i: int| 0 <= i < 8 implies b[2 + i] == #[trigger] w[i] by {
            assert(b[1 + (1 + i)] == l[1 + i]);
            assert(l[1 + i] == w[i]);
        }
        crate::bytes::lemma_be_round_trip(0, 0, n as u64);
        assert(b[2] == w[0] && b[3] == w[1] && b[4] == w[2] && b[5] == w[3]);
        assert(b[6] == w[4] && b[7] == w[5] && b[8] == w[6] && b[9] == w[7]);
        assert(be32_at(b, 2) == be32_at(w, 0));
        assert(be32_at(b, 6) == be32_at(w, 4));
        assert(be64_at(b, 2) == be64_at(w, 0));
    }
}

/// Frames may arrive in any pieces: once there is an answer, further bytes do
/// not change it.
pub proof fn lemma_frames_do_not_depend_on_what_follows(b: Seq<u8>, more: Seq<u8>)
    ensures
        read_frame(b) !is NeedMore ==> read_frame(b + more) == read_frame(b),
{
    let c = b + more;
    if read_frame(b) !is NeedMore {
        assert forall|i: int| 0 <= i < b.len() implies b[i] == c[i] by {}
        assert(head_len(b) == head_len(c));
        if b[1] % 128 == 127 {
            assert(be32_at(b, 2) == be32_at(c, 2) && be32_at(b, 6) == be32_at(c, 6));
        }
        assert(payload_len(b) == payload_len(c));
        match read_frame(b) {
            FrameRead::Frame { opcode, payload, used } => {
                let head = head_len(b);
                let len = payload_len(b);
                assert(b.subrange(used - len, used) =~= c.subrange(used - len, used));
                if b[1] >= 128 {
                    assert(b.subrange(head, head + 4) =~= c.subrange(head, head + 4));
                }
            },
            _ => {},
        }
    }
}

proof fn lemma_cut_off_uses_up(b: Seq<u8>, ended: bool, closed: bool)
    ensures
        ({
            let o = scan(b, ended, closed);
            o.found == Scan::Failed(WsError::UnexpectedEof) ==> ended && o.rest.len() == 0
        }),
    decreases b.len(),
{
    match read_frame(b) {
        FrameRead::Frame { opcode, payload, used } => {
            lemma_cut_off_uses_up(b.skip(used), ended, closed);
        },
        _ => {},
    }
}

/// A connection that ends inside a frame is reported once; after that every read
/// gives the end.
pub proof fn lemma_cut_off_is_reported_once(
    s: SourceView,
    closed: bool,
    max: int,
    room: Seq<int>,
)
    requires
        max > 0,
        read_once(s, closed, max).got == ReadView::Failed(WsError::UnexpectedEof),
        forall|i: int| 0 <= i < room.len() ==> #[trigger] room[i] > 0,
    ensures
        ({
            let o = read_once(s, closed, max);
            hands_out(o.source, o.closed, room, seq![])
        }),
{
    let o = read_once(s, closed, max);
    lemma_cut_off_uses_up(s.unread, s.ended, closed);
    if room.len() > 0 {
        assert(room[0] > 0);
        let next = read_once(o.source, o.closed, room[0]);
        assert(read_frame(o.source.unread) is NeedMore);
        let rest = room.skip(1);
        assert forall|i: int| 0 <= i < rest.len() implies #[trigger] rest[i] > 0 by {
            assert(rest[i] == room[i + 1]);
        }
        lemma_end_stays(next.source, next.closed, rest);
    }
}

/// A frame that was sent: application data, a ping or a pong, masked or not.
pub struct Sent {
    pub opcode: u8,
    pub mask: Option<Seq<u8>>,
    pub payload: Seq<u8>,
}

impl Sent {
    pub open spec fn wf(self) -> bool {
        &&& self.payload.len() <= MAX_FRAME
        &&& self.mask is Some ==> (self.mask->0).len() == 4
        &&& self.is_data() || self.opcode == OP_PING || self.opcode == OP_PONG
    }

    pub open spec fn is_data(self) -> bool {
        self.opcode == OP_CONTINUATION || self.opcode == OP_TEXT || self.opcode == OP_BINARY
    }

    /// Its bytes on the wire.
    pub open spec fn bytes(self) -> Seq<u8> {
        match self.mask {
            Some(m) => client_frame(self.opcode, m, self.payload),
            None => frame_bytes(self.opcode, self.payload),
        }
    }

    /// The application data that it carries.
    pub open spec fn data(self) -> Seq<u8> {
        if self.is_data() {
            self.payload
        } else {
            seq![]
        }
    }
}

/// The bytes of frames, one after another.
pub open spec fn wire_of(sent: Seq<Sent>) -> Seq<u8> {
    joined(Seq::new(sent.len(), |i: int| sent[i].bytes()))
}

/// The application data of frames, one after another.
pub open spec fn data_of(sent: Seq<Sent>) -> Seq<u8> {
    joined(Seq::new(sent.len(), |i: int| sent[i].data()))
}

/// A source of a connection that has brought some bytes and ended.
pub open spec fn brought(wire: Seq<u8>) -> SourceView {
    SourceView { unread: wire, pending: seq![], ended: true, eof: false }
}

/// Whether reads with room for these many bytes, one after another, hand out
/// exactly some data: each a part of what is left, never more than there is room
/// for and never nothing, and once all of it is handed out, the end.
pub open spec fn hands_out(s: SourceView, closed: bool, room: Seq<int>, data: Seq<u8>) -> bool
    decreases room.len(),
{
    if room.len() == 0 {
        true
    } else {
        let o = read_once(s, closed, room[0]);
        if data.len() == 0 {
            o.got is End && hands_out(o.source, o.closed, room.skip(1), data)
        } else {
            match o.got {
                ReadView::Bytes(v) => {
                    &&& 1 <= v.len() <= room[0]
                    &&& v.is_prefix_of(data)
                    &&& hands_out(o.source, o.closed, room.skip(1), data.skip(v.len() as int))
                },
                _ => false,
            }
        }
    }
}

proof fn lemma_joined_front(chunks: Seq<Seq<u8>>)
    requires
        chunks.len() > 0,
    ensures
        joined(chunks) == chunks[0] + joined(chunks.skip(1)),
    decreases chunks.len(),
{
    if chunks.len() == 1 {
        assert(chunks.drop_last() =~= Seq::<Seq<u8>>::empty());
        assert(chunks.skip(1) =~= Seq::<Seq<u8>>::empty());
        assert(joined(chunks) =~= chunks[0] + joined(chunks.skip(1)));
    } else {
        let front = chunks.drop_last();
        lemma_joined_front(front);
        assert(front.skip(1) =~= chunks.skip(1).drop_last());
        assert(chunks.skip(1).last() == chunks.last());
        assert(joined(chunks) =~= chunks[0] + joined(chunks.skip(1)));
    }
}

proof fn lemma_first_sent(sent: Seq<Sent>)
    requires
        sent.len() > 0,
    ensures
        wire_of(sent) == sent[0].bytes() + wire_of(sent.skip(1)),
        data_of(sent) == sent[0].data() + data_of(sent.skip(1)),
{
    let w = Seq::new(sent.len(), |i: int| sent[i].bytes());
    let d = Seq::new(sent.len(), |i: int| sent[i].data());
    lemma_joined_front(w);
    lemma_joined_front(d);
    let rest = sent.skip(1);
    assert(w.skip(1) =~= Seq::new(rest.len(), |i: int| rest[i].bytes()));
    assert(d.skip(1) =~= Seq::new(rest.len(), |i: int| rest[i].data()));
}

/// Where reading frames that were sent leads to: the first data there is, with
/// `k` frames behind it, or the end.
proof fn lemma_scan_sent(sent: Seq<Sent>, closed: bool) -> (k: int)
    requires
        forall|i: int| 0 <= i < sent.len() ==> (#[trigger] sent[i]).wf(),
    ensures
        0 <= k <= sent.len(),
        ({
            let o = scan(wire_of(sent), true, closed);
            if data_of(sent).len() == 0 {
                o.found is End
            } else {
                match o.found {
                    Scan::Data(d) => {
                        &&& d.len() > 0
                        &&& data_of(sent) == d + data_of(sent.skip(k))
                        &&& o.rest == wire_of(sent.skip(k))
                    },
                    _ => false,
                }
            }
        }),
    decreases sent.len(),
{
    if sent.len() == 0 {
        assert(wire_of(sent) =~= seq![]);
        assert(data_of(sent) =~= seq![]);
        0
    } else {
        let f = sent[0];
        let rest = sent.skip(1);
        let b = wire_of(sent);
        lemma_first_sent(sent);
        assert(f.wf());
        match f.mask {
            Some(m) => lemma_client_frames_read_back(f.opcode, m, f.payload, wire_of(rest)),
            None => lemma_server_frames_read_back(f.opcode, f.payload, wire_of(rest)),
        }
        assert(b.skip(f.bytes().len() as int) =~= wire_of(rest));
        if f.is_data() && f.payload.len() > 0 {
            1
        } else {
            assert forall|i: int| 0 <= i < rest.len() implies (#[trigger] rest[i]).wf() by {
                assert(rest[i] == sent[i + 1]);
            }
            assert(data_of(sent) =~= data_of(rest));
            let k = lemma_scan_sent(rest, closed);
            assert(rest.skip(k) =~= sent.skip(k + 1));
            k + 1
        }
    }
}

proof fn lemma_end_stays(s: SourceView, closed: bool, room: Seq<int>)
    requires
        s.eof,
        s.pending.len() == 0,
        forall|i: int| 0 <= i < room.len() ==> #[trigger] room[i] > 0,
    ensures
        hands_out(s, closed, room, seq![]),
    decreases room.len(),
{
    if room.len() > 0 {
        assert(room[0] > 0);
        let rest = room.skip(1);
        assert forall|i: int| 0 <= i < rest.len() implies #[trigger] rest[i] > 0 by {
            assert(rest[i] == room[i + 1]);
        }
        lemma_end_stays(s, closed, rest);
    }
}

proof fn lemma_sent_is_handed_out(
    sent: Seq<Sent>,
    pending: Seq<u8>,
    closed: bool,
    room: Seq<int>,
)
    requires
        forall|i: int| 0 <= i < sent.len() ==> (#[trigger] sent[i]).wf(),
        forall|i: int| 0 <= i < room.len() ==> #[trigger] room[i] > 0,
    ensures
        hands_out(
            SourceView { pending, ..brought(wire_of(sent)) },
            closed,
            room,
            pending + data_of(sent),
        ),
    decreases room.len(),
{
    if room.len() > 0 {
        let s = SourceView { pending, ..brought(wire_of(sent)) };
        let data = pending + data_of(sent);
        let o = read_once(s, closed, room[0]);
        let rest = room.skip(1);
        assert(room[0] > 0);
        assert forall|i: int| 0 <= i < rest.len() implies #[trigger] rest[i] > 0 by {
            assert(rest[i] == room[i + 1]);
        }
        if pending.len() > 0 {
            let v = front(pending, room[0]);
            let left = pending.skip(v.len() as int);
            lemma_sent_is_handed_out(sent, left, closed, rest);
            assert(data.skip(v.len() as int) =~= left + data_of(sent));
            assert(o.source =~= (SourceView { pending: left, ..brought(wire_of(sent)) }));
        } else {
            let k = lemma_scan_sent(sent, closed);
            assert(data =~= data_of(sent));
            if data.len() == 0 {
                lemma_end_stays(o.source, o.closed, rest);
                assert(data =~= seq![]);
            } else {
                let d = scan(wire_of(sent), true, closed).found->Data_0;
                let after = sent.skip(k);
                assert forall|i: int| 0 <= i < after.len() implies (#[trigger] after[i]).wf() by {
                    assert(after[i] == sent[i + k]);
                }
                let v = front(d, room[0]);
                let left = d.skip(v.len() as int);
                lemma_sent_is_handed_out(after, left, o.closed, rest);
                assert(data.skip(v.len() as int) =~= left + data_of(after));
                assert(o.source =~= (SourceView { pending: left, ..brought(wire_of(after)) }));
            }
        }
    }
}

/// Whatever frames were sent, masked or not and with pings, pongs and empty ones
/// between them, reading hands out exactly their data, whatever room each read
/// has: no byte lost, doubled or out of order. After that every read gives the
/// end.
pub proof fn lemma_sent_reads_back(sent: Seq<Sent>, closed: bool, room: Seq<int>)
    requires
        forall|i: int| 0 <= i < sent.len() ==> (#[trigger] sent[i]).wf(),
        forall|i: int| 0 <= i < room.len() ==> #[trigger] room[i] > 0,
    ensures
        hands_out(brought(wire_of(sent)), closed, room, data_of(sent)),
{
    lemma_sent_is_handed_out(sent, seq![], closed, room);
    assert(seq![] + data_of(sent) =~= data_of(sent));
}

/// What was written in chunks reads back as the chunks, one after another,
/// whatever room each read has.
pub proof fn lemma_written_chunks_read_back(chunks: Seq<Seq<u8>>, closed: bool, room: Seq<int>)
    requires
        forall|i: int| 0 <= i < chunks.len() ==> 1 <= (#[trigger] chunks[i]).len() <= MAX_FRAME,
        forall|i: int| 0 <= i < room.len() ==> #[trigger] room[i] > 0,
    ensures
        hands_out(
            brought(joined(Seq::new(chunks.len(), |i: int| frame_bytes(OP_BINARY, chunks[i])))),
            closed,
            room,
            joined(chunks),
        ),
{
    let sent = Seq::new(
        chunks.len(),
        |i: int| Sent { opcode: OP_BINARY, mask: None, payload: chunks[i] },
    );
    lemma_sent_reads_back(sent, closed, room);
    assert(Seq::new(sent.len(), |i: int| sent[i].bytes()) =~= Seq::new(
        chunks.len(),
        |i: int| frame_bytes(OP_BINARY, chunks[i]),
    ));
    assert(Seq::new(sent.len(), |i: int| sent[i].data()) =~= chunks);
}

/// The number in the low seven bits of a frame's second byte says how long the frame
/// is: up to 125 by itself, 126 and 127 that the length follows in two or in eight
/// bytes. A set top bit says that four bytes of mask come next. Every byte of the
/// payload is as it was sent, but for the byte of the mask that it was combined with,
/// each of the four in turn. A frame of over eight mebibytes is too large.
pub proof fn lemma_frame_is_read_by_position(b: Seq<u8>, i: int)
    requires
        b.len() >= 2,
    ensures
        ({
            let short = b[1] as int % 128;
            let head: int = if short == 126 {
                4
            } else if short == 127 {
                10
            } else {
                2
            };
            let n = if short == 126 {
                number_of(b.subrange(2, 4), true)
            } else if short == 127 {
                number_of(b.subrange(2, 10), true)
            } else {
                short
            };
            let start = head + if b[1] >= 128 {
                4int
            } else {
                0
            };
            let got = read_frame(b);
            if b.len() < head {
                got is NeedMore
            } else if n > 0x80_0000 {
                got is TooLarge
            } else if b.len() < start + n {
                got is NeedMore
            } else {
                got matches FrameRead::Frame { opcode, payload, used } && {
                    &&& opcode == b[0] as int % 16
                    &&& used == start + n
                    &&& payload.len() == n
                    &&& 0 <= i < n && b[1] < 128 ==> payload[i] == b[start + i]
                    &&& 0 <= i < n && b[1] >= 128 ==> payload[i] == b[start + i] ^ b[head + i % 4]
                }
            }
        }),
{
    let short = b[1] as int % 128;
    if short == 126 && b.len() >= 4 {
        lemma_two_bytes(b, 2);
    } else if short == 127 && b.len() >= 10 {
        lemma_eight_bytes(b, 2);
    }
}

proof fn lemma_eight_bytes(b: Seq<u8>, i: int)
    requires
        0 <= i,
        i + 8 <= b.len(),
    ensures
        number_of(b.subrange(i, i + 8), true) == be64_at(b, i),
{
    reveal_with_fuel(number_of, 5);
    let s = b.subrange(i, i + 8);
    let t = s.drop_last().drop_last().drop_last().drop_last();
    assert(s.drop_last().len() == 7 && s.drop_last().drop_last().len() == 6);
    assert(s.drop_last().drop_last().drop_last().len() == 5);
    assert(t =~= b.subrange(i, i + 4));
    lemma_four_bytes(b, i);
    assert(number_of(s, true) == number_of(t, true) * 0x1_0000_0000 + b[i + 4] * 0x100_0000 + b[i
        + 5] * 0x1_0000 + b[i + 6] * 256 + b[i + 7]);
}

/// A frame of ours is whole and without a mask, says what it is in its first byte and
/// how long it is in the shortest form there is, and carries the payload as it is.
pub proof fn lemma_own_frame_by_position(opcode: u8, payload: Seq<u8>)
    requires
        opcode < 16,
        payload.len() <= u64::MAX,
    ensures
        ({
            let b = frame_bytes(opcode, payload);
            let n = payload.len() as int;
            &&& b[0] == 128 + opcode
            &&& n < 126 ==> b[1] == n && b.skip(2) == payload
            &&& 126 <= n < 0x1_0000 ==> b[1] == 126 && number_of(b.subrange(2, 4), true) == n
                && b.skip(4) == payload
            &&& 0x1_0000 <= n ==> b[1] == 127 && number_of(b.subrange(2, 10), true) == n && b.skip(
                10,
            ) == payload
        }),
{
    let b = frame_bytes(opcode, payload);
    let n = payload.len() as int;
    if n < 126 {
        assert(b.skip(2) =~= payload);
    } else if n < 0x1_0000 {
        lemma_big_be16(n as u16);
        assert(b.subrange(2, 4) =~= be16(n as u16));
        assert(b.skip(4) =~= payload);
    } else {
        let w = be64(n as u64);
        assert(b.subrange(2, 10) =~= w);
        lemma_eight_bytes(w, 0);
        assert(w.subrange(0, 8) =~= w);
        crate::bytes::lemma_be_round_trip(0, 0, n as u64);
        assert(b.skip(10) =~= payload);
    }
}

/// What a frame calls for: data is handed out, a ping is answered with a pong that
/// brings its payload back, a pong and an empty frame are passed over, a close frame is
/// answered with one of status 1000 and ends the stream, and nothing else is known. To
/// a connection that is closed nothing is said any more.
pub proof fn lemma_frames_are_answered(b: Seq<u8>, ended: bool, closed: bool)
    requires
        read_frame(b) is Frame,
    ensures
        ({
            let opcode = read_frame(b)->opcode;
            let payload = read_frame(b)->payload;
            let rest = b.skip(read_frame(b)->used);
            let o = scan(b, ended, closed);
            let later = scan(rest, ended, closed);
            &&& opcode <= 2 && payload.len() > 0 ==> o.found == Scan::Data(payload) && o.rest == rest
                && o.reply.len() == 0 && o.closed == closed
            &&& opcode <= 2 && payload.len() == 0 || opcode == 10 ==> o == later
            &&& opcode == 9 ==> o.found == later.found && o.rest == later.rest && o.closed
                == later.closed && o.reply == (if closed {
                later.reply
            } else {
                frame_bytes(10, payload) + later.reply
            })
            &&& opcode == 8 ==> o.found is End && o.closed && o.reply == (if closed {
                seq![]
            } else {
                seq![136u8, 2, 3, 232]
            })
            &&& 3 <= opcode <= 7 || 11 <= opcode ==> o.found == Scan::Failed(WsError::UnknownOpcode)
                && o.reply.len() == 0 && o.rest == rest
        }),
{
    assert(frame_bytes(8, normal_closure()) =~= seq![136u8, 2, 3, 232]);
    let later = scan(b.skip(read_frame(b)->used), ended, closed);
    assert(seq![] + later.reply =~= later.reply);
}

/// The six bits that a character of base64 stands for: the letters in upper case, those
/// in lower case, the digits, a plus sign and a slash, in that order.
pub open spec fn sextet(c: char) -> int {
    let n = c as u32 as int;
    if 65 <= n <= 90 {
        n - 65
    } else if 97 <= n <= 122 {
        n - 97 + 26
    } else if 48 <= n <= 57 {
        n - 48 + 52
    } else if c == '+' {
        62
    } else if c == '/' {
        63
    } else {
        -1
    }
}

proof fn lemma_sextet(n: int)
    requires
        0 <= n < 64,
    ensures
        sextet(base64_char(n)) == n,
        base64_char(n) != '=',
{
    if n < 26 {
        let c: char = ((n + 65) as u32) as char;
        assert(c as u32 == n + 65);
    } else if n < 52 {
        let c: char = ((n + 71) as u32) as char;
        assert(c as u32 == n + 71);
    } else if n < 62 {
        let c: char = ((n - 4) as u32) as char;
        assert(c as u32 == n - 4);
    }
}

/// Base64 reads back: four characters for every three bytes, which hold the same bits
/// in the same order; at the end, equals signs for what is not there.
pub proof fn lemma_base64_reads_back(data: Seq<u8>, k: int)
    requires
        0 <= k,
        3 * k < data.len(),
    ensures
        ({
            let s = base64_of(data);
            let left = data.len() - 3 * k;
            let (w, x, y, z) = (s[4 * k], s[4 * k + 1], s[4 * k + 2], s[4 * k + 3]);
            &&& s.len() == (data.len() + 2) / 3 * 4
            &&& left >= 3 ==> sextet(w) * 0x4_0000 + sextet(x) * 0x1000 + sextet(y) * 64 + sextet(z)
                == data[3 * k] * 0x1_0000 + data[3 * k + 1] * 256 + data[3 * k + 2]
            &&& left >= 3 ==> 0 <= sextet(w) && 0 <= sextet(x) && 0 <= sextet(y) && 0 <= sextet(z)
            &&& left == 2 ==> z == '=' && sextet(w) * 0x1000 + sextet(x) * 64 + sextet(y) == (data[3
                * k] * 256 + data[3 * k + 1]) * 4 && 0 <= sextet(w) && 0 <= sextet(x) && 0
                <= sextet(y)
            &&& left == 1 ==> y == '=' && z == '=' && sextet(w) * 64 + sextet(x) == data[3 * k] * 16
                && 0 <= sextet(w) && 0 <= sextet(x)
        }),
    decreases data.len(),
{
    let a = data[0] as int;
    let b: int = if data.len() > 1 {
        data[1] as int
    } else {
        0
    };
    let c: int = if data.len() > 2 {
        data[2] as int
    } else {
        0
    };
    lemma_sextet(a / 4);
    lemma_sextet(a % 4 * 16 + b / 16);
    lemma_sextet(b % 16 * 4 + c / 64);
    lemma_sextet(c % 64);
    let s = base64_of(data);
    if data.len() > 3 {
        let rest = data.skip(3);
        if k > 0 {
            lemma_base64_reads_back(rest, k - 1);
            let t = base64_of(rest);
            assert(s[4 * k] == t[4 * (k - 1)] && s[4 * k + 1] == t[4 * (k - 1) + 1]);
            assert(s[4 * k + 2] == t[4 * (k - 1) + 2] && s[4 * k + 3] == t[4 * (k - 1) + 3]);
        } else {
            lemma_base64_reads_back(rest, 0);
        }
    }
}

/// A read fills its room as far as there is data: the first of what is left, in its
/// order, and what does not fit is kept for the next.
pub proof fn lemma_reads_fill_their_room(s: SourceView, closed: bool, max: int)
    requires
        s.pending.len() > 0,
        max >= 0,
    ensures
        ({
            let o = read_once(s, closed, max);
            &&& o.got matches ReadView::Bytes(v) && {
                &&& v.len() == max || v.len() == s.pending.len()
                &&& v.len() <= max
                &&& s.pending == v + o.source.pending
            }
            &&& o.source.unread == s.unread && o.source.ended == s.ended && o.source.eof == s.eof
            &&& o.reply.len() == 0 && o.closed == closed
        }),
{
    let v = front(s.pending, max);
    assert(s.pending =~= v + s.pending.skip(v.len() as int));
}

/// What cannot be read yet is left as it is while the connection goes on. Where it has
/// ended, less than the two bytes that begin a frame are the end, and more are a frame
/// that was cut off; either way nothing is left. Of a frame that is too large its two,
/// four or ten first bytes are gone.
pub proof fn lemma_broken_frames_are_reported(b: Seq<u8>, ended: bool, closed: bool)
    ensures
        ({
            let o = scan(b, ended, closed);
            let head: int = if b[1] as int % 128 == 126 {
                4
            } else if b[1] as int % 128 == 127 {
                10
            } else {
                2
            };
            &&& read_frame(b) is NeedMore ==> {
                &&& !ended ==> o.found is NeedMore && o.rest == b
                &&& ended && b.len() < 2 ==> o.found is End && o.rest.len() == 0
                &&& ended && b.len() >= 2 ==> o.found == Scan::Failed(WsError::UnexpectedEof)
                    && o.rest.len() == 0
            }
            &&& read_frame(b) is TooLarge ==> o.found == Scan::Failed(WsError::FrameTooLarge)
                && o.rest == b.skip(head)
            &&& !(read_frame(b) is Frame) ==> o.reply.len() == 0 && o.closed == closed
        }),
{
}

} // verus!
