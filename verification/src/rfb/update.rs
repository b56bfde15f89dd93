//! Messages to a client.

use vstd::prelude::*;

use crate::bytes::{
    be16, be32, joined, low16, low32, low_half, low_word, push_all, push_be16, push_be32,
};
use crate::pixel::{pixel_bytes, row_bytes, PixCodec, PixelFormat};
use crate::rfb::ext_clipboard::{
    caps_bytes, ext_bytes, notify_bytes, push_caps, push_notify, push_provide, push_request,
    request_bytes, text_payload,
};
use crate::rfb::message::{ENC_CURSOR, ENC_EXT_DESKTOP_SIZE, ENC_RAW, ENC_ZRLE};
use crate::rfb::session::Plan;
use crate::rfb::tile::{pack_indices, packed_rows};
use crate::rfb::zlib::{decompresses_to, deflated};
use crate::rfb::zrle::{framed, lemma_stuck_with_more, rect_tiles, ZrleEncoder};
use crate::screen::frame::{lemma_row_in_buffer, min_of, CursorImage, Frame, Rect};

verus! {

/// ServerCutText. Clipboard is its own message type, not part of an update.
pub open spec fn cut_text_bytes(text: Seq<u8>) -> Seq<u8> {
    seq![3u8, 0, 0, 0] + be32(low32(text.len() as int)) + text
}

pub fn cut_text_message(text: &[u8]) -> (v: Vec<u8>)
    ensures
        v@ == cut_text_bytes(text@),
{
    let mut v: Vec<u8> = vec![3, 0, 0, 0];
    push_be32(&mut v, low_word(text.len()));
    push_all(&mut v, text);
    assert(v@ =~= cut_text_bytes(text@));
    v
}

/// Messages about the clipboard, without the text that a client asked for: to
/// a client with the extended clipboard, what we can do, a request for its text
/// and notice of ours; to any other, our text.
pub open spec fn clipboard_head(plan: Plan) -> Seq<u8> {
    if plan.caps.ext_clipboard {
        (if plan.ext.announce {
            caps_bytes()
        } else {
            seq![]
        }) + (if plan.ext.request {
            request_bytes()
        } else {
            seq![]
        }) + (if plan.clipboard is Some || plan.ext.notify {
            notify_bytes(plan.clipboard is Some || plan.text is Some)
        } else {
            seq![]
        })
    } else {
        match plan.clipboard {
            Some(text) => cut_text_bytes(text@),
            None => seq![],
        }
    }
}

/// Whether the text that a client asked for is sent.
pub open spec fn provides_text(plan: Plan) -> bool {
    plan.caps.ext_clipboard && plan.ext.provide && plan.text is Some
}

/// Append the messages about the clipboard.
///
/// `complete` is `false` when the compressor got stuck before it had taken all of
/// a text.
pub fn clipboard_messages(plan: &Plan, msg: &mut Vec<u8>) -> (complete: bool)
    ensures
        ({
            let head = old(msg)@ + clipboard_head(*plan);
            if provides_text(*plan) {
                exists|z: Seq<u8>|
                    {
                        &&& final(msg)@ == head + #[trigger] ext_bytes(0x1000_0001, z)
                        &&& complete ==> decompresses_to(z, text_payload((plan.text->0)@))
                        &&& deflated(text_payload((plan.text->0)@), z, complete)
                    }
            } else {
                complete && final(msg)@ == head
            }
        }),
{
    if !plan.caps.ext_clipboard {
        match &plan.clipboard {
            Some(text) => {
                let cut: Vec<u8> = cut_text_message(text.as_slice());
                push_all(msg, cut.as_slice());
            },
            None => {},
        }
        assert(msg@ =~= old(msg)@ + clipboard_head(*plan));
        return true;
    }
    if plan.ext.announce {
        push_caps(msg);
    }
    if plan.ext.request {
        push_request(msg);
    }
    if plan.clipboard.is_some() || plan.ext.notify {
        push_notify(msg, plan.clipboard.is_some() || plan.text.is_some());
    }
    assert(msg@ =~= old(msg)@ + clipboard_head(*plan));
    if plan.ext.provide {
        if let Some(text) = &plan.text {
            return push_provide(msg, text.as_str());
        }
    }
    true
}

/// ExtendedDesktopSize rectangle: x carries the reason, y the status, which is
/// 0 for "ok", and one screen fills the whole desktop.
pub open spec fn ext_desktop_size_bytes(reason: u16, width: u16, height: u16) -> Seq<u8> {
    be16(reason) + be16(0) + be16(width) + be16(height) + be32(ENC_EXT_DESKTOP_SIZE) + seq![
        1u8,
        0,
        0,
        0,
    ] + be32(1) + be16(0) + be16(0) + be16(width) + be16(height) + be32(0)
}

/// ExtendedDesktopSize rectangle: tells the client the current size and, by
/// its mere presence, that this server accepts resize requests.
fn write_ext_desktop_size(msg: &mut Vec<u8>, reason: u16, width: u16, height: u16)
    ensures
        final(msg)@ == old(msg)@ + ext_desktop_size_bytes(reason, width, height),
{
    push_be16(msg, reason);
    push_be16(msg, 0);
    push_be16(msg, width);
    push_be16(msg, height);
    push_be32(msg, ENC_EXT_DESKTOP_SIZE);
    msg.push(1);
    msg.push(0);
    msg.push(0);
    msg.push(0);
    push_be32(msg, 1);
    push_be16(msg, 0);
    push_be16(msg, 0);
    push_be16(msg, width);
    push_be16(msg, height);
    push_be32(msg, 0);
    assert(msg@ =~= old(msg)@ + ext_desktop_size_bytes(reason, width, height));
}

/// Opacity of a cursor pixel.
pub open spec fn alpha_of(argb: u32) -> int {
    argb as int / 0x100_0000
}

/// A channel of a cursor pixel, no longer multiplied by its opacity.
pub open spec fn straight(c: int, alpha: int) -> int {
    if alpha == 0 {
        0
    } else {
        min_of(c * 255 / alpha, 255)
    }
}

/// The colour of a cursor pixel. XFIXES hands out premultiplied alpha; it is
/// undone so partly transparent pixels do not come out dark once the mask makes
/// them opaque.
pub open spec fn cursor_colour(argb: u32) -> u32 {
    let a = alpha_of(argb);
    let (r, g, b) = (argb as int / 0x1_0000 % 256, argb as int / 256 % 256, argb as int % 256);
    (straight(r, a) * 0x1_0000 + straight(g, a) * 256 + straight(b, a)) as u32
}

/// The pixels of a cursor in a client's format.
pub open spec fn cursor_pixels(pf: PixelFormat, argb: Seq<u32>) -> Seq<u8>
    decreases argb.len(),
{
    if argb.len() == 0 {
        seq![]
    } else {
        cursor_pixels(pf, argb.drop_last()) + pixel_bytes(pf, cursor_colour(argb.last()))
    }
}

/// For each pixel, 1 if it is drawn: if it is at least half opaque.
pub open spec fn opaque_marks(argb: Seq<u32>) -> Seq<u8> {
    Seq::new(
        argb.len(),
        |i: int|
            if alpha_of(argb[i]) >= 128 {
                1u8
            } else {
                0u8
            },
    )
}

/// Cursor rectangle: the pixels, then a mask of one bit for each, most
/// significant bit first, each row padded to a whole byte. An empty rectangle
/// means "no cursor".
pub open spec fn cursor_bytes(pf: PixelFormat, cursor: Option<CursorImage>) -> Seq<u8> {
    match cursor {
        None => seq![0u8, 0, 0, 0, 0, 0, 0, 0] + be32(ENC_CURSOR),
        Some(c) => be16(c.hot_x) + be16(c.hot_y) + be16(c.width) + be16(c.height) + be32(ENC_CURSOR)
            + cursor_pixels(pf, c.argb@) + packed_rows(
            opaque_marks(c.argb@),
            c.width as int,
            c.height as int,
            8,
        ),
    }
}

/// Whether a cursor has a pixel for every position of its image.
pub open spec fn cursor_is_whole(cursor: Option<CursorImage>) -> bool {
    cursor matches Some(c) ==> c.width * c.height <= c.argb@.len()
}

fn unmultiply(c: u32, alpha: u32) -> (r: u32)
    requires
        c <= 255,
        alpha <= 255,
    ensures
        r == straight(c as int, alpha as int),
        r <= 255,
{
    if alpha == 0 {
        0
    } else {
        let v: u32 = c * 255 / alpha;
        if v <= 255 {
            v
        } else {
            255
        }
    }
}

fn push_cursor_pixels(codec: &PixCodec, argb: &[u32], msg: &mut Vec<u8>)
    requires
        codec.wf(),
        codec.pf.convertible(),
    ensures
        final(msg)@ == old(msg)@ + cursor_pixels(codec.pf, argb@),
{
    assert(argb@.take(0) =~= Seq::<u32>::empty());
    assert(msg@ =~= old(msg)@ + cursor_pixels(codec.pf, argb@.take(0)));
    for i in 0..argb.len()
        invariant
            codec.wf(),
            codec.pf.convertible(),
            msg@ == old(msg)@ + cursor_pixels(codec.pf, argb@.take(i as int)),
    {
        let px: u32 = argb[i];
        let a: u32 = px / 0x100_0000;
        let r: u32 = unmultiply(px / 0x1_0000 % 256, a);
        let g: u32 = unmultiply(px / 256 % 256, a);
        let b: u32 = unmultiply(px % 256, a);
        codec.push_pixel(r * 0x1_0000 + g * 256 + b, msg);
        assert(argb@.take(i + 1).drop_last() =~= argb@.take(i as int));
        assert(msg@ =~= old(msg)@ + cursor_pixels(codec.pf, argb@.take(i + 1)));
    }
    assert(argb@.take(argb@.len() as int) =~= argb@);
}

fn mark_opaque(argb: &[u32]) -> (v: Vec<u8>)
    ensures
        v@ == opaque_marks(argb@),
{
    let mut v: Vec<u8> = Vec::new();
    for i in 0..argb.len()
        invariant
            v@.len() == i,
            forall|j: int| 0 <= j < i ==> #[trigger] v@[j] == opaque_marks(argb@)[j],
    {
        v.push(
            if argb[i] / 0x100_0000 >= 128 {
                1
            } else {
                0
            },
        );
    }
    assert(v@ =~= opaque_marks(argb@));
    v
}

/// Cursor pseudo-encoding: the client draws the pointer locally, so it stays
/// responsive regardless of round-trip time.
fn write_cursor(msg: &mut Vec<u8>, cursor: &Option<CursorImage>, codec: &PixCodec)
    requires
        codec.wf(),
        codec.pf.convertible(),
        cursor_is_whole(*cursor),
    ensures
        final(msg)@ == old(msg)@ + cursor_bytes(codec.pf, *cursor),
{
    match cursor {
        None => {
            push_be32(msg, 0);
            push_be32(msg, 0);
            push_be32(msg, ENC_CURSOR);
            assert(msg@ =~= old(msg)@ + cursor_bytes(codec.pf, *cursor));
        },
        Some(c) => {
            push_be16(msg, c.hot_x);
            push_be16(msg, c.hot_y);
            push_be16(msg, c.width);
            push_be16(msg, c.height);
            push_be32(msg, ENC_CURSOR);
            push_cursor_pixels(codec, c.argb.as_slice(), msg);
            let marks: Vec<u8> = mark_opaque(c.argb.as_slice());
            pack_indices(marks.as_slice(), c.width as usize, c.height as usize, 1, msg);
            assert(msg@ =~= old(msg)@ + cursor_bytes(codec.pf, *cursor));
        },
    }
}

/// Where a rectangle of an update is, and how it is encoded.
pub open spec fn rect_head(r: Rect, encoding: u32) -> Seq<u8> {
    be16(low16(r.x as int)) + be16(low16(r.y as int)) + be16(low16(r.w as int)) + be16(
        low16(r.h as int),
    ) + be32(encoding)
}

fn write_rect_head(msg: &mut Vec<u8>, r: Rect, encoding: u32)
    ensures
        final(msg)@ == old(msg)@ + rect_head(r, encoding),
{
    push_be16(msg, (r.x % 0x1_0000) as u16);
    push_be16(msg, (r.y % 0x1_0000) as u16);
    push_be16(msg, (r.w % 0x1_0000) as u16);
    push_be16(msg, (r.h % 0x1_0000) as u16);
    push_be32(msg, encoding);
    assert(msg@ =~= old(msg)@ + rect_head(r, encoding));
}

/// The first `n` rows of a rectangle as plain pixels.
pub open spec fn raw_rows(f: Frame, pf: PixelFormat, r: Rect, n: int) -> Seq<u8>
    decreases n,
{
    if n <= 0 {
        seq![]
    } else {
        raw_rows(f, pf, r, n - 1) + row_bytes(pf, f.row_at(r.y + n - 1, r.x as int, r.w as int))
    }
}

/// Rectangles as plain pixels.
pub open spec fn raw_rects(f: Frame, pf: PixelFormat, rs: Seq<Rect>) -> Seq<u8>
    decreases rs.len(),
{
    if rs.len() == 0 {
        seq![]
    } else {
        raw_rects(f, pf, rs.drop_last()) + rect_head(rs.last(), ENC_RAW) + raw_rows(
            f,
            pf,
            rs.last(),
            rs.last().h as int,
        )
    }
}

/// Rectangles in ZRLE, each with its piece of the zlib stream.
pub open spec fn zrle_rects(rs: Seq<Rect>, zs: Seq<Seq<u8>>) -> Seq<u8>
    decreases rs.len(),
{
    if rs.len() == 0 {
        seq![]
    } else {
        zrle_rects(rs.drop_last(), zs.drop_last()) + rect_head(rs.last(), ENC_ZRLE) + framed(
            zs.last(),
        )
    }
}

/// What goes into the zlib stream for some rectangles.
pub open spec fn all_tiles(f: Frame, pf: PixelFormat, rs: Seq<Rect>) -> Seq<u8>
    decreases rs.len(),
{
    if rs.len() == 0 {
        seq![]
    } else {
        all_tiles(f, pf, rs.drop_last()) + rect_tiles(f, pf, rs.last())
    }
}

/// What is left of rectangles on a screen.
pub open spec fn clipped_rects(rs: Seq<Rect>, width: u32, height: u32) -> Seq<Rect>
    decreases rs.len(),
{
    if rs.len() == 0 {
        seq![]
    } else {
        let front = clipped_rects(rs.drop_last(), width, height);
        match rs.last().clipped(width, height) {
            Some(r) => front.push(r),
            None => front,
        }
    }
}

fn clip_rects(rs: &[Rect], width: u32, height: u32) -> (v: Vec<Rect>)
    ensures
        v@ == clipped_rects(rs@, width, height),
        forall|i: int|
            0 <= i < v@.len() ==> (#[trigger] v@[i]).inside(width as int, height as int),
{
    let mut v: Vec<Rect> = Vec::new();
    assert(rs@.take(0) =~= Seq::<Rect>::empty());
    assert(v@ =~= clipped_rects(rs@.take(0), width, height));
    for i in 0..rs.len()
        invariant
            v@ == clipped_rects(rs@.take(i as int), width, height),
            forall|k: int|
                0 <= k < v@.len() ==> (#[trigger] v@[k]).inside(width as int, height as int),
    {
        match rs[i].clip(width, height) {
            Some(r) => {
                v.push(r);
            },
            None => {},
        }
        assert(rs@.take(i + 1).drop_last() =~= rs@.take(i as int));
        assert(v@ =~= clipped_rects(rs@.take(i + 1), width, height));
    }
    assert(rs@.take(rs@.len() as int) =~= rs@);
    v
}

fn push_raw_rows(frame: &Frame, codec: &PixCodec, r: Rect, msg: &mut Vec<u8>)
    requires
        frame.wf(),
        codec.wf(),
        codec.pf.convertible(),
        r.inside(frame.width as int, frame.height as int),
    ensures
        final(msg)@ == old(msg)@ + raw_rows(*frame, codec.pf, r, r.h as int),
{
    assert(msg@ =~= old(msg)@ + raw_rows(*frame, codec.pf, r, 0));
    for k in 0..r.h
        invariant
            frame.wf(),
            codec.wf(),
            codec.pf.convertible(),
            r.inside(frame.width as int, frame.height as int),
            msg@ == old(msg)@ + raw_rows(*frame, codec.pf, r, k as int),
    {
        proof {
            lemma_row_in_buffer(
                frame.width as int,
                frame.height as int,
                r.y + k,
                r.x as int,
                r.w as int,
            );
        }
        codec.push_row(frame.row(r.y + k, r.x, r.w), msg);
        assert(msg@ =~= old(msg)@ + raw_rows(*frame, codec.pf, r, k + 1));
    }
}

fn push_raw_rects(frame: &Frame, codec: &PixCodec, rs: &[Rect], msg: &mut Vec<u8>)
    requires
        frame.wf(),
        codec.wf(),
        codec.pf.convertible(),
        forall|i: int|
            0 <= i < rs@.len() ==> (#[trigger] rs@[i]).inside(
                frame.width as int,
                frame.height as int,
            ),
    ensures
        final(msg)@ == old(msg)@ + raw_rects(*frame, codec.pf, rs@),
{
    assert(rs@.take(0) =~= Seq::<Rect>::empty());
    assert(msg@ =~= old(msg)@ + raw_rects(*frame, codec.pf, rs@.take(0)));
    for i in 0..rs.len()
        invariant
            frame.wf(),
            codec.wf(),
            codec.pf.convertible(),
            forall|k: int|
                0 <= k < rs@.len() ==> (#[trigger] rs@[k]).inside(
                    frame.width as int,
                    frame.height as int,
                ),
            msg@ == old(msg)@ + raw_rects(*frame, codec.pf, rs@.take(i as int)),
    {
        write_rect_head(msg, rs[i], ENC_RAW);
        push_raw_rows(frame, codec, rs[i], msg);
        assert(rs@.take(i + 1).drop_last() =~= rs@.take(i as int));
        assert(msg@ =~= old(msg)@ + raw_rects(*frame, codec.pf, rs@.take(i + 1)));
    }
    assert(rs@.take(rs@.len() as int) =~= rs@);
}

/// How a session's zlib stream has gone on: the pieces in `zs` are what it
/// wrote, and if it took all that was given to it, what it has written so far
/// decompresses to all that it has read. If it did not, it got stuck on the way.
pub open spec fn stream_goes_on(
    before: ZrleEncoder,
    after: ZrleEncoder,
    zs: Seq<Seq<u8>>,
    tiles: Seq<u8>,
    complete: bool,
) -> bool {
    &&& after.sent() == before.sent() + joined(zs)
    &&& complete ==> after.taken() == before.taken() + tiles
    &&& complete && zs.len() > 0 ==> decompresses_to(after.sent(), after.taken())
    &&& !complete ==> got_stuck(before, after, tiles.len() as int)
}

/// Whether a session's zlib stream got stuck on its way, with at most `n` bytes to
/// take.
pub open spec fn got_stuck(before: ZrleEncoder, after: ZrleEncoder, n: int) -> bool {
    exists|mid: ZrleEncoder|
        {
            &&& #[trigger] mid.stuck_with(n)
            &&& before.sent().is_prefix_of(mid.sent())
            &&& mid.sent().is_prefix_of(after.sent())
        }
}

/// A stream that got stuck has done so, whatever it is given after that.
proof fn lemma_still_stuck(
    before: ZrleEncoder,
    midway: ZrleEncoder,
    after: ZrleEncoder,
    n: int,
    m: int,
)
    requires
        got_stuck(before, midway, n),
        n <= m,
        midway.sent().is_prefix_of(after.sent()),
    ensures
        got_stuck(before, after, m),
{
    let mid = choose|mid: ZrleEncoder|
        {
            &&& #[trigger] mid.stuck_with(n)
            &&& before.sent().is_prefix_of(mid.sent())
            &&& mid.sent().is_prefix_of(midway.sent())
        };
    lemma_stuck_with_more(mid, n, m);
    assert(mid.stuck_with(m));
}

fn push_zrle_rects(
    frame: &Frame,
    codec: &PixCodec,
    rs: &[Rect],
    zrle: &mut ZrleEncoder,
    msg: &mut Vec<u8>,
) -> (complete: bool)
    requires
        old(zrle).wf(),
        frame.wf(),
        codec.wf(),
        codec.pf.convertible(),
        forall|i: int|
            0 <= i < rs@.len() ==> (#[trigger] rs@[i]).inside(
                frame.width as int,
                frame.height as int,
            ),
    ensures
        final(zrle).wf(),
        exists|zs: Seq<Seq<u8>>|
            {
                &&& zs.len() == rs@.len()
                &&& final(msg)@ == old(msg)@ + #[trigger] zrle_rects(rs@, zs)
                &&& stream_goes_on(
                    *old(zrle),
                    *final(zrle),
                    zs,
                    all_tiles(*frame, codec.pf, rs@),
                    complete,
                )
            },
{
    let mut complete: bool = true;
    let ghost mut zs: Seq<Seq<u8>> = seq![];
    assert(rs@.take(0) =~= Seq::<Rect>::empty());
    assert(msg@ =~= old(msg)@ + zrle_rects(rs@.take(0), zs));
    assert(zrle.sent() =~= old(zrle).sent() + joined(zs));
    assert(zrle.taken() =~= old(zrle).taken() + all_tiles(*frame, codec.pf, rs@.take(0)));
    for i in 0..rs.len()
        invariant
            frame.wf(),
            codec.wf(),
            codec.pf.convertible(),
            forall|k: int|
                0 <= k < rs@.len() ==> (#[trigger] rs@[k]).inside(
                    frame.width as int,
                    frame.height as int,
                ),
            zrle.wf(),
            zs.len() == i,
            msg@ == old(msg)@ + zrle_rects(rs@.take(i as int), zs),
            stream_goes_on(
                *old(zrle),
                *zrle,
                zs,
                all_tiles(*frame, codec.pf, rs@.take(i as int)),
                complete,
            ),
    {
        let ghost sent = zrle.sent();
        let ghost seen = zs;
        let ghost was = *zrle;
        let ghost so_far = complete;
        write_rect_head(msg, rs[i], ENC_ZRLE);
        let ok: bool = zrle.encode(frame, codec, rs[i], msg);
        complete = complete && ok;
        proof {
            let z = zrle.sent().skip(sent.len() as int);
            zs = zs.push(z);
            assert(zs.drop_last() =~= seen);
            assert(zrle.sent() =~= sent + z);
            assert(zrle.sent() =~= old(zrle).sent() + joined(zs));
            assert(rs@.take(i + 1).drop_last() =~= rs@.take(i as int));
            assert(msg@ =~= old(msg)@ + zrle_rects(rs@.take(i + 1), zs));
            if complete {
                assert(zrle.taken() =~= old(zrle).taken() + all_tiles(
                    *frame,
                    codec.pf,
                    rs@.take(i + 1),
                ));
            } else {
                let n = all_tiles(*frame, codec.pf, rs@.take(i as int)).len() as int;
                let m = all_tiles(*frame, codec.pf, rs@.take(i + 1)).len() as int;
                assert(n <= m);
                if so_far {
                    lemma_stuck_with_more(
                        *zrle,
                        rect_tiles(*frame, codec.pf, rs@[i as int]).len() as int,
                        m,
                    );
                    assert(zrle.stuck_with(m));
                } else {
                    lemma_still_stuck(*old(zrle), was, *zrle, n, m);
                }
            }
        }
    }
    proof {
        assert(rs@.take(rs@.len() as int) =~= rs@);
        assert(msg@ == old(msg)@ + zrle_rects(rs@, zs));
    }
    complete
}

/// How many rectangles an update has, as it announces them.
pub open spec fn rect_count(plan: Plan, rs: Seq<Rect>) -> int {
    rs.len() + (if plan.send_cursor {
        1int
    } else {
        0
    }) + (if plan.resize is Some {
        1int
    } else {
        0
    })
}

/// The start of an update: its head, a new size and the cursor, as far as they
/// are to be sent.
pub open spec fn update_head(plan: Plan, frame: Frame, cursor: Option<CursorImage>) -> Seq<u8> {
    let rs = clipped_rects(plan.rects@, frame.width, frame.height);
    seq![0u8, 0] + be16(low16(rect_count(plan, rs))) + (match plan.resize {
        Some(reason) => ext_desktop_size_bytes(
            reason,
            low16(frame.width as int),
            low16(frame.height as int),
        ),
        None => seq![],
    }) + (if plan.send_cursor {
        cursor_bytes(plan.pf, cursor)
    } else {
        seq![]
    })
}

/// The writing side of a session: its pixel format, and the zlib stream that
/// lives as long as it does.
pub struct Writer {
    pub codec: PixCodec,
    pub zrle: ZrleEncoder,
}

impl Writer {
    pub open spec fn wf(self) -> bool {
        self.codec.wf() && self.codec.pf.convertible() && self.zrle.wf()
    }

    pub fn new() -> (w: Self)
        ensures
            w.wf(),
            w.codec.pf == PixelFormat::rgb(),
            w.zrle.taken() == Seq::<u8>::empty(),
            w.zrle.sent() == Seq::<u8>::empty(),
    {
        Writer { codec: PixCodec::new(PixelFormat::default_rgb()), zrle: ZrleEncoder::new() }
    }

    /// Append a FramebufferUpdate. The rectangles are cut to the frame, which
    /// may have been replaced since they were measured.
    ///
    /// `complete` is `false` when the compressor got stuck before it had taken
    /// everything.
    pub fn update_message(
        &mut self,
        plan: &Plan,
        frame: &Frame,
        cursor: &Option<CursorImage>,
        msg: &mut Vec<u8>,
    ) -> (complete: bool)
        requires
            old(self).wf(),
            plan.pf.convertible(),
            frame.wf(),
            plan.send_cursor ==> cursor_is_whole(*cursor),
        ensures
            final(self).wf(),
            final(self).codec.pf == plan.pf,
            ({
                let rs = clipped_rects(plan.rects@, frame.width, frame.height);
                let head = old(msg)@ + update_head(*plan, *frame, *cursor);
                if plan.caps.zrle {
                    exists|zs: Seq<Seq<u8>>|
                        {
                            &&& zs.len() == rs.len()
                            &&& final(msg)@ == head + #[trigger] zrle_rects(rs, zs)
                            &&& stream_goes_on(
                                old(self).zrle,
                                final(self).zrle,
                                zs,
                                all_tiles(*frame, plan.pf, rs),
                                complete,
                            )
                        }
                } else {
                    &&& complete
                    &&& final(msg)@ == head + raw_rects(*frame, plan.pf, rs)
                    &&& final(self).zrle == old(self).zrle
                }
            }),
    {
        if self.codec.format() != plan.pf {
            self.codec = PixCodec::new(plan.pf);
        }
        let rs: Vec<Rect> = clip_rects(plan.rects.as_slice(), frame.width, frame.height);
        msg.push(0);
        msg.push(0);
        push_be16(msg, count_field(plan, rs.len()));
        assert(msg@ =~= old(msg)@ + (seq![0u8, 0] + be16(low16(rect_count(*plan, rs@)))));
        match plan.resize {
            Some(reason) => {
                write_ext_desktop_size(
                    msg,
                    reason,
                    (frame.width % 0x1_0000) as u16,
                    (frame.height % 0x1_0000) as u16,
                );
            },
            None => {},
        }
        if plan.send_cursor {
            write_cursor(msg, cursor, &self.codec);
        }
        assert(msg@ =~= old(msg)@ + update_head(*plan, *frame, *cursor));
        if plan.caps.zrle {
            push_zrle_rects(frame, &self.codec, rs.as_slice(), &mut self.zrle, msg)
        } else {
            push_raw_rects(frame, &self.codec, rs.as_slice(), msg);
            true
        }
    }
}

fn count_field(plan: &Plan, rects: usize) -> (n: u16)
    ensures
        n == low16(
            rects + (if plan.send_cursor {
                1int
            } else {
                0
            }) + (if plan.resize is Some {
                1int
            } else {
                0
            }),
        ),
{
    let extra: u32 = (if plan.send_cursor {
        1u32
    } else {
        0
    }) + (if plan.resize.is_some() {
        1u32
    } else {
        0
    });
    ((low_half(rects) as u32 + extra) % 0x1_0000) as u16
}

/// A client that has kept what it was sent of the zlib stream decompresses it, with the
/// pieces of an update at its end, to everything that went into it, with the tiles of
/// the update at their end.
pub proof fn lemma_client_decompresses_the_update(
    before: ZrleEncoder,
    after: ZrleEncoder,
    zs: Seq<Seq<u8>>,
    tiles: Seq<u8>,
)
    requires
        stream_goes_on(before, after, zs, tiles, true),
        zs.len() > 0,
    ensures
        after.sent() == before.sent() + joined(zs),
        after.taken() == before.taken() + tiles,
        decompresses_to(before.sent() + joined(zs), before.taken() + tiles),
{
}

/// What goes into the stream for an update is the tiles of its rectangles, one after
/// another and in their order.
pub proof fn lemma_tiles_come_in_order(f: Frame, pf: PixelFormat, rs: Seq<Rect>, r: Rect)
    ensures
        all_tiles(f, pf, seq![]) == Seq::<u8>::empty(),
        all_tiles(f, pf, rs.push(r)) == all_tiles(f, pf, rs) + rect_tiles(f, pf, r),
{
    assert(rs.push(r).drop_last() =~= rs);
}

} // verus!
