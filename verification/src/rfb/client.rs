//! What a client reads out of the messages it is sent, byte by byte.
//!
//! Everything here exists only in specifications: positions, numbers and bits as
//! RFB gives them, written down to state what the messages mean.

use vstd::prelude::*;

use crate::bytes::{be16, be32, low16, low32};
use crate::pixel::{field, number_of, pixel_bytes, row_bytes, row_pixel, PixelFormat};
use crate::rfb::decode::{lemma_packed_index, packed_index};
use crate::rfb::ext_clipboard::{caps_bytes, notify_bytes, request_bytes};
use crate::rfb::message::{ENC_CURSOR, ENC_EXT_DESKTOP_SIZE, ENC_RAW, ENC_ZRLE};
use crate::rfb::session::Plan;
use crate::rfb::tile::{lemma_packed_rows_len, packed_rows};
use crate::rfb::update::{
    clipboard_head, clipped_rects, cursor_bytes, cursor_colour, cursor_pixels, cut_text_bytes,
    ext_desktop_size_bytes, opaque_marks, provides_text, raw_rects, raw_rows, rect_head, straight,
    update_head, zrle_rects,
};
use crate::rfb::zrle::framed;
use crate::screen::frame::{lemma_row_in_buffer, CursorImage, Frame, Rect};

verus! {

/// The number in the `n` bytes of `b` from `at` on, most significant byte first.
pub open spec fn big(b: Seq<u8>, at: int, n: int) -> int {
    number_of(b.subrange(at, at + n), true)
}

pub(crate) proof fn lemma_big_be16(n: u16)
    ensures
        be16(n).len() == 2,
        number_of(be16(n), true) == n,
{
    reveal_with_fuel(number_of, 3);
    assert(be16(n).drop_last().len() == 1);
}

pub(crate) proof fn lemma_big_be32(n: u32)
    ensures
        be32(n).len() == 4,
        number_of(be32(n), true) == n,
{
    reveal_with_fuel(number_of, 5);
    let b = be32(n);
    assert(b.drop_last().len() == 3 && b.drop_last().drop_last().len() == 2);
    assert(b.drop_last().drop_last().drop_last().len() == 1);
    assert(n == n / 0x100_0000 * 0x100_0000 + n / 0x1_0000 % 256 * 0x1_0000 + n / 256 % 256 * 256
        + n % 256) by (bit_vector);
}

/// A rectangle begins with where it is, how large it is and how it is encoded.
pub proof fn lemma_rect_head_is_read(r: Rect, encoding: u32, before: Seq<u8>, after: Seq<u8>)
    ensures
        ({
            let b = before + rect_head(r, encoding) + after;
            let at = before.len() as int;
            &&& rect_head(r, encoding).len() == 12
            &&& big(b, at, 2) == r.x as int % 0x1_0000
            &&& big(b, at + 2, 2) == r.y as int % 0x1_0000
            &&& big(b, at + 4, 2) == r.w as int % 0x1_0000
            &&& big(b, at + 6, 2) == r.h as int % 0x1_0000
            &&& big(b, at + 8, 4) == encoding
        }),
{
    let b = before + rect_head(r, encoding) + after;
    let at = before.len() as int;
    lemma_big_be16(low16(r.x as int));
    lemma_big_be16(low16(r.y as int));
    lemma_big_be16(low16(r.w as int));
    lemma_big_be16(low16(r.h as int));
    lemma_big_be32(encoding);
    assert(b.subrange(at, at + 2) =~= be16(low16(r.x as int)));
    assert(b.subrange(at + 2, at + 4) =~= be16(low16(r.y as int)));
    assert(b.subrange(at + 4, at + 6) =~= be16(low16(r.w as int)));
    assert(b.subrange(at + 6, at + 8) =~= be16(low16(r.h as int)));
    assert(b.subrange(at + 8, at + 12) =~= be32(encoding));
}

proof fn lemma_row_positions(pf: PixelFormat, px: Seq<u32>, i: int)
    requires
        pf.convertible(),
    ensures
        row_bytes(pf, px).len() == px.len() * (pf.bits_per_pixel / 8),
        0 <= i < px.len() ==> {
            let n = pf.bits_per_pixel as int / 8;
            &&& 0 <= i * n && i * n + n <= row_bytes(pf, px).len()
            &&& row_bytes(pf, px).subrange(i * n, i * n + n) == row_pixel(pf, px[i])
        },
    decreases px.len(),
{
    let n = pf.bits_per_pixel as int / 8;
    if px.len() > 0 {
        let t = px.drop_last();
        lemma_row_positions(pf, t, i);
        let last = row_pixel(pf, px.last());
        assert(last.len() == n);
        let m = px.len() as int;
        assert(m * n == (m - 1) * n + n) by (nonlinear_arith);
        let b = row_bytes(pf, px);
        if 0 <= i < m {
            assert(0 <= i * n && i * n + n <= m * n) by (nonlinear_arith)
                requires
                    0 <= i < m,
                    0 <= n,
            ;
            if i == m - 1 {
                assert(b.subrange(i * n, i * n + n) =~= last);
            } else {
                assert(b.subrange(i * n, i * n + n) =~= row_bytes(pf, t).subrange(
                    i * n,
                    i * n + n,
                ));
            }
        }
    } else {
        assert(0 * n == 0);
    }
}

proof fn lemma_raw_positions(f: Frame, pf: PixelFormat, r: Rect, h: int, i: int, j: int)
    requires
        f.wf(),
        pf.convertible(),
        r.inside(f.width as int, f.height as int),
        0 <= h <= r.h,
    ensures
        raw_rows(f, pf, r, h).len() == h * (r.w * (pf.bits_per_pixel / 8)),
        0 <= i < r.w && 0 <= j < h ==> {
            let n = pf.bits_per_pixel as int / 8;
            let at = (j * r.w + i) * n;
            &&& 0 <= at && at + n <= raw_rows(f, pf, r, h).len()
            &&& raw_rows(f, pf, r, h).subrange(at, at + n) == row_pixel(
                pf,
                f.px@[(r.y + j) * f.width + (r.x + i)],
            )
        },
    decreases h,
{
    let n = pf.bits_per_pixel as int / 8;
    let w = r.w as int;
    let line = w * n;
    if h > 0 {
        let front = raw_rows(f, pf, r, h - 1);
        let row = f.row_at(r.y + h - 1, r.x as int, w);
        lemma_row_in_buffer(f.width as int, f.height as int, r.y + h - 1, r.x as int, w);
        lemma_raw_positions(f, pf, r, h - 1, i, j);
        lemma_row_positions(pf, row, i);
        assert(h * line == (h - 1) * line + line) by (nonlinear_arith);
        let b = raw_rows(f, pf, r, h);
        if 0 <= i < w && 0 <= j < h {
            let at = (j * w + i) * n;
            assert(at == j * line + i * n) by (nonlinear_arith)
                requires
                    at == (j * w + i) * n,
                    line == w * n,
            ;
            assert(0 <= i * n && i * n + n <= line) by (nonlinear_arith)
                requires
                    0 <= i < w,
                    0 <= n,
                    line == w * n,
            ;
            assert(0 <= j * line && j * line + line <= h * line) by (nonlinear_arith)
                requires
                    0 <= j < h,
                    0 <= line,
            ;
            if j == h - 1 {
                assert(row[i] == f.px@[(r.y + j) * f.width + (r.x + i)]);
                assert(b.subrange(at, at + n) =~= row_bytes(pf, row).subrange(i * n, i * n + n));
            } else {
                assert(j * line + line <= (h - 1) * line) by (nonlinear_arith)
                    requires
                        j + 1 <= h - 1,
                        0 <= line,
                ;
                assert(b.subrange(at, at + n) =~= front.subrange(at, at + n));
            }
        }
    } else {
        assert(h * line == 0) by (nonlinear_arith)
            requires
                h == 0,
        ;
    }
}

/// Where rectangle `k` begins among rectangles of plain pixels of `n` bytes, each
/// behind twelve bytes that say where it is.
pub open spec fn raw_start(rs: Seq<Rect>, k: int, n: int) -> int
    decreases k,
{
    if k <= 0 {
        0
    } else {
        raw_start(rs, k - 1, n) + 12 + rs[k - 1].w * rs[k - 1].h * n
    }
}

proof fn lemma_raw_start_of_front(rs: Seq<Rect>, k: int, n: int)
    requires
        0 <= k < rs.len(),
    ensures
        raw_start(rs.drop_last(), k, n) == raw_start(rs, k, n),
    decreases k,
{
    if k > 0 {
        lemma_raw_start_of_front(rs, k - 1, n);
    }
}

/// A client without ZRLE sees the frame: rectangle after rectangle, each where the
/// ones before it end, behind its place and its size and marked as plain pixels,
/// with the pixels of the frame in it, row by row from the top and each row from the
/// left.
pub proof fn lemma_client_sees_raw_rects(
    f: Frame,
    pf: PixelFormat,
    rs: Seq<Rect>,
    k: int,
    i: int,
    j: int,
)
    requires
        f.wf(),
        pf.convertible(),
        forall|m: int|
            0 <= m < rs.len() ==> (#[trigger] rs[m]).inside(f.width as int, f.height as int),
    ensures
        ({
            let n = pf.bits_per_pixel as int / 8;
            let b = raw_rects(f, pf, rs);
            let at = raw_start(rs, k, n);
            &&& b.len() == raw_start(rs, rs.len() as int, n)
            &&& 0 <= k < rs.len() ==> {
                &&& 0 <= at && at + 12 <= b.len()
                &&& big(b, at, 2) == rs[k].x as int % 0x1_0000
                &&& big(b, at + 2, 2) == rs[k].y as int % 0x1_0000
                &&& big(b, at + 4, 2) == rs[k].w as int % 0x1_0000
                &&& big(b, at + 6, 2) == rs[k].h as int % 0x1_0000
                &&& big(b, at + 8, 4) == 0
            }
            &&& 0 <= k < rs.len() && 0 <= i < rs[k].w && 0 <= j < rs[k].h ==> {
                let from = at + 12 + (j * rs[k].w + i) * n;
                &&& at <= from && from + n <= b.len()
                &&& b.subrange(from, from + n) == row_pixel(
                    pf,
                    f.px@[(rs[k].y + j) * f.width + (rs[k].x + i)],
                )
            }
        }),
    decreases rs.len(),
{
    let n = pf.bits_per_pixel as int / 8;
    let b = raw_rects(f, pf, rs);
    if rs.len() > 0 {
        let front = rs.drop_last();
        let r = rs.last();
        assert forall|m: int| 0 <= m < front.len() implies (#[trigger] front[m]).inside(
            f.width as int,
            f.height as int,
        ) by {
            assert(front[m] == rs[m]);
        }
        assert(rs[rs.len() - 1].inside(f.width as int, f.height as int));
        lemma_client_sees_raw_rects(f, pf, front, k, i, j);
        lemma_raw_start_of_front(rs, rs.len() - 1, n);
        let before = raw_rects(f, pf, front);
        let body = raw_rows(f, pf, r, r.h as int);
        assert(b =~= before + rect_head(r, ENC_RAW) + body);
        lemma_rect_head_is_read(r, ENC_RAW, before, body);
        lemma_raw_positions(f, pf, r, r.h as int, i, j);
        assert(r.h * (r.w * n) == r.w * r.h * n) by (nonlinear_arith);
        let at = raw_start(rs, k, n);
        if k == rs.len() - 1 {
            if 0 <= i < r.w && 0 <= j < r.h {
                let off = (j * r.w + i) * n;
                assert(b.subrange(at + 12 + off, at + 12 + off + n) =~= body.subrange(
                    off,
                    off + n,
                ));
            }
        } else if 0 <= k < rs.len() {
            lemma_raw_start_of_front(rs, k, n);
            assert(b.subrange(at, at + 2) =~= before.subrange(at, at + 2));
            assert(b.subrange(at + 2, at + 4) =~= before.subrange(at + 2, at + 4));
            assert(b.subrange(at + 4, at + 6) =~= before.subrange(at + 4, at + 6));
            assert(b.subrange(at + 6, at + 8) =~= before.subrange(at + 6, at + 8));
            assert(b.subrange(at + 8, at + 12) =~= before.subrange(at + 8, at + 12));
            if 0 <= i < rs[k].w && 0 <= j < rs[k].h {
                let from = at + 12 + (j * rs[k].w + i) * n;
                assert(b.subrange(from, from + n) =~= before.subrange(from, from + n));
            }
        }
    }
}

/// Where rectangle `k` begins among rectangles in ZRLE, each behind twelve bytes that
/// say where it is and four that give the length of its piece of the stream.
pub open spec fn zrle_start(zs: Seq<Seq<u8>>, k: int) -> int
    decreases k,
{
    if k <= 0 {
        0
    } else {
        zrle_start(zs, k - 1) + 16 + zs[k - 1].len()
    }
}

proof fn lemma_zrle_start_of_front(zs: Seq<Seq<u8>>, k: int)
    requires
        0 <= k < zs.len(),
    ensures
        zrle_start(zs.drop_last(), k) == zrle_start(zs, k),
    decreases k,
{
    if k > 0 {
        lemma_zrle_start_of_front(zs, k - 1);
    }
}

/// A client with ZRLE finds the pieces of the zlib stream: rectangle after rectangle,
/// each where the ones before it end, behind its place and its size, marked as ZRLE
/// and with its length.
pub proof fn lemma_client_finds_zrle_rects(rs: Seq<Rect>, zs: Seq<Seq<u8>>, k: int)
    requires
        rs.len() == zs.len(),
    ensures
        ({
            let b = zrle_rects(rs, zs);
            let at = zrle_start(zs, k);
            &&& b.len() == zrle_start(zs, zs.len() as int)
            &&& 0 <= k < rs.len() ==> {
                &&& 0 <= at && at + 16 + zs[k].len() <= b.len()
                &&& big(b, at, 2) == rs[k].x as int % 0x1_0000
                &&& big(b, at + 2, 2) == rs[k].y as int % 0x1_0000
                &&& big(b, at + 4, 2) == rs[k].w as int % 0x1_0000
                &&& big(b, at + 6, 2) == rs[k].h as int % 0x1_0000
                &&& big(b, at + 8, 4) == 16
                &&& big(b, at + 12, 4) == zs[k].len() as int % 0x1_0000_0000
                &&& b.subrange(at + 16, at + 16 + zs[k].len()) == zs[k]
            }
        }),
    decreases rs.len(),
{
    let b = zrle_rects(rs, zs);
    if rs.len() > 0 {
        let (front, pieces) = (rs.drop_last(), zs.drop_last());
        let (r, z) = (rs.last(), zs.last());
        lemma_client_finds_zrle_rects(front, pieces, k);
        lemma_zrle_start_of_front(zs, zs.len() - 1);
        let before = zrle_rects(front, pieces);
        assert(b =~= before + rect_head(r, ENC_ZRLE) + framed(z));
        lemma_rect_head_is_read(r, ENC_ZRLE, before, framed(z));
        lemma_big_be32(low32(z.len() as int));
        let at = zrle_start(zs, k);
        if k == rs.len() - 1 {
            assert(b.subrange(at + 12, at + 16) =~= be32(low32(z.len() as int)));
            assert(b.subrange(at + 16, at + 16 + z.len()) =~= z);
        } else if 0 <= k < rs.len() {
            lemma_zrle_start_of_front(zs, k);
            let n = zs[k].len();
            assert(b.subrange(at, at + 2) =~= before.subrange(at, at + 2));
            assert(b.subrange(at + 2, at + 4) =~= before.subrange(at + 2, at + 4));
            assert(b.subrange(at + 4, at + 6) =~= before.subrange(at + 4, at + 6));
            assert(b.subrange(at + 6, at + 8) =~= before.subrange(at + 6, at + 8));
            assert(b.subrange(at + 8, at + 12) =~= before.subrange(at + 8, at + 12));
            assert(b.subrange(at + 12, at + 16) =~= before.subrange(at + 12, at + 16));
            assert(b.subrange(at + 16, at + 16 + n) =~= before.subrange(at + 16, at + 16 + n));
        }
    }
}

proof fn lemma_cursor_positions(pf: PixelFormat, argb: Seq<u32>, i: int)
    requires
        pf.convertible(),
    ensures
        cursor_pixels(pf, argb).len() == argb.len() * (pf.bits_per_pixel / 8),
        0 <= i < argb.len() ==> {
            let n = pf.bits_per_pixel as int / 8;
            &&& 0 <= i * n && i * n + n <= cursor_pixels(pf, argb).len()
            &&& cursor_pixels(pf, argb).subrange(i * n, i * n + n) == pixel_bytes(
                pf,
                cursor_colour(argb[i]),
            )
        },
    decreases argb.len(),
{
    let n = pf.bits_per_pixel as int / 8;
    if argb.len() > 0 {
        let t = argb.drop_last();
        lemma_cursor_positions(pf, t, i);
        let last = pixel_bytes(pf, cursor_colour(argb.last()));
        assert(last.len() == n);
        let m = argb.len() as int;
        assert(m * n == (m - 1) * n + n) by (nonlinear_arith);
        let b = cursor_pixels(pf, argb);
        if 0 <= i < m {
            assert(0 <= i * n && i * n + n <= m * n) by (nonlinear_arith)
                requires
                    0 <= i < m,
                    0 <= n,
            ;
            if i == m - 1 {
                assert(b.subrange(i * n, i * n + n) =~= last);
            } else {
                assert(b.subrange(i * n, i * n + n) =~= cursor_pixels(pf, t).subrange(
                    i * n,
                    i * n + n,
                ));
            }
        }
    } else {
        assert(0 * n == 0);
    }
}

/// Whether `s` is what is left of a channel `c` once it is no longer multiplied by
/// its opacity `a`: as much as gives back no more than `c`, but not over 255.
pub open spec fn unmultiplied(s: int, c: int, a: int) -> bool {
    if a == 0 {
        s == 0
    } else {
        0 <= s <= 255 && s * a <= c * 255 && (s == 255 || c * 255 < (s + 1) * a)
    }
}

/// The colour of a cursor pixel is its own, no longer multiplied by its opacity.
pub proof fn lemma_cursor_colour_is_straight(argb: u32)
    ensures
        ({
            let a = argb as int / 0x100_0000;
            let px = cursor_colour(argb) as int;
            &&& 0 <= px < 0x100_0000
            &&& unmultiplied(px / 0x1_0000, argb as int / 0x1_0000 % 256, a)
            &&& unmultiplied(px / 256 % 256, argb as int / 256 % 256, a)
            &&& unmultiplied(px % 256, argb as int % 256, a)
        }),
{
    let a = argb as int / 0x100_0000;
    let (r, g, b) = (argb as int / 0x1_0000 % 256, argb as int / 256 % 256, argb as int % 256);
    lemma_straight_is_unmultiplied(r, a);
    lemma_straight_is_unmultiplied(g, a);
    lemma_straight_is_unmultiplied(b, a);
    lemma_three_bytes(straight(r, a), straight(g, a), straight(b, a));
}

proof fn lemma_three_bytes(r: int, g: int, b: int)
    requires
        0 <= r <= 255,
        0 <= g <= 255,
        0 <= b <= 255,
    ensures
        ({
            let px = r * 0x1_0000 + g * 256 + b;
            0 <= px < 0x100_0000 && px / 0x1_0000 == r && px / 256 % 256 == g && px % 256 == b
        }),
{
    let px = r * 0x1_0000 + g * 256 + b;
    assert(px / 256 == r * 256 + g);
}

proof fn lemma_straight_is_unmultiplied(c: int, a: int)
    requires
        0 <= c <= 255,
        0 <= a <= 255,
    ensures
        0 <= straight(c, a) <= 255,
        unmultiplied(straight(c, a), c, a),
{
    if a > 0 {
        lemma_unmultiplied(c, a);
    }
}

proof fn lemma_unmultiplied(c: int, a: int)
    requires
        0 <= c <= 255,
        0 < a,
    ensures
        0 <= c * 255 / a,
        unmultiplied(if c * 255 / a <= 255 { c * 255 / a } else { 255 }, c, a),
{
    let q = c * 255 / a;
    vstd::arithmetic::div_mod::lemma_fundamental_div_mod(c * 255, a);
    vstd::arithmetic::div_mod::lemma_mod_bound(c * 255, a);
    assert(0 <= q) by (nonlinear_arith)
        requires
            c * 255 == a * q + c * 255 % a,
            0 <= c * 255 % a < a,
            0 <= c,
            0 < a,
    ;
    assert((q + 1) * a == q * a + a && q * a == a * q) by (nonlinear_arith);
    if q > 255 {
        assert(255 * a <= q * a) by (nonlinear_arith)
            requires
                255 <= q,
                0 < a,
        ;
    }
}

/// A client draws the cursor as it is: with its hot spot and its size, at every
/// position the pixel that the image has there, and the pixel shows if it is at
/// least half opaque. Without a cursor there is nothing to draw.
pub proof fn lemma_client_sees_the_cursor(pf: PixelFormat, c: CursorImage, x: int, y: int)
    requires
        pf.convertible(),
        c.argb@.len() == c.width * c.height,
        0 <= x < c.width,
        0 <= y < c.height,
    ensures
        ({
            let n = pf.bits_per_pixel as int / 8;
            let b = cursor_bytes(pf, Some(c));
            let at = 12 + (y * c.width + x) * n;
            let mask = 12 + c.width * c.height * n;
            let row = (c.width + 7) / 8;
            let px = c.argb@[y * c.width + x];
            &&& b.len() == mask + row * c.height
            &&& big(b, 0, 2) == c.hot_x && big(b, 2, 2) == c.hot_y
            &&& big(b, 4, 2) == c.width && big(b, 6, 2) == c.height
            &&& big(b, 8, 4) == 0x1_0000_0000 - 239
            &&& 12 <= at && at + n <= mask
            &&& b.subrange(at, at + n) == pixel_bytes(pf, cursor_colour(px))
            &&& 0 <= y * row + x / 8 < row * c.height
            &&& field(b[mask + y * row + x / 8] as int, 7 - x % 8, 1) == (if px as int
                / 0x100_0000 >= 128 {
                1int
            } else {
                0
            })
        }),
        ({
            let b = cursor_bytes(pf, None);
            &&& b.len() == 12
            &&& forall|i: int| 0 <= i < 8 ==> #[trigger] b[i] == 0
            &&& big(b, 8, 4) == 0x1_0000_0000 - 239
        }),
{
    let n = pf.bits_per_pixel as int / 8;
    let (w, h) = (c.width as int, c.height as int);
    let b = cursor_bytes(pf, Some(c));
    let marks = opaque_marks(c.argb@);
    let body = packed_rows(marks, w, h, 8);
    let pixels = cursor_pixels(pf, c.argb@);
    lemma_big_be16(c.hot_x);
    lemma_big_be16(c.hot_y);
    lemma_big_be16(c.width);
    lemma_big_be16(c.height);
    lemma_big_be32(ENC_CURSOR);
    assert(b.subrange(0, 2) =~= be16(c.hot_x));
    assert(b.subrange(2, 4) =~= be16(c.hot_y));
    assert(b.subrange(4, 6) =~= be16(c.width));
    assert(b.subrange(6, 8) =~= be16(c.height));
    assert(b.subrange(8, 12) =~= be32(ENC_CURSOR));
    assert(0 <= y * w && y * w + w <= w * h) by (nonlinear_arith)
        requires
            0 <= y < h,
            0 < w,
    ;
    let i = y * w + x;
    lemma_cursor_positions(pf, c.argb@, i);
    let mask = 12 + w * h * n;
    assert(b.subrange(12 + i * n, 12 + i * n + n) =~= pixels.subrange(i * n, i * n + n));
    lemma_packed_rows_len(marks, w, h, 8);
    assert(b.subrange(mask, mask + body.len()) =~= body);
    lemma_packed_index(marks, w, h, 2, b, mask, x, y);
    let row = (w + 7) / 8;
    assert(0 <= y * row && y * row + row <= row * h) by (nonlinear_arith)
        requires
            0 <= y < h,
            0 <= row,
    ;
    assert(packed_index(b, mask, w, 1, x, y) == marks[i]);
    assert(x * 1 % 8 == x % 8 && x * 1 / 8 == x / 8 && w * 1 + 7 == w + 7);
    let none = cursor_bytes(pf, None);
    assert(none.subrange(8, 12) =~= be32(ENC_CURSOR));
}

/// A new size is announced with its reason and no error, and one screen fills the
/// whole desktop.
pub proof fn lemma_client_reads_the_size(reason: u16, width: u16, height: u16)
    ensures
        ({
            let b = ext_desktop_size_bytes(reason, width, height);
            &&& b.len() == 32
            &&& big(b, 0, 2) == reason && big(b, 2, 2) == 0
            &&& big(b, 4, 2) == width && big(b, 6, 2) == height
            &&& big(b, 8, 4) == 0x1_0000_0000 - 308
            &&& b[12] == 1
            &&& big(b, 16, 4) == 1 && big(b, 28, 4) == 0
            &&& big(b, 20, 2) == 0 && big(b, 22, 2) == 0
            &&& big(b, 24, 2) == width && big(b, 26, 2) == height
        }),
{
    let b = ext_desktop_size_bytes(reason, width, height);
    lemma_big_be16(reason);
    lemma_big_be16(0);
    lemma_big_be16(width);
    lemma_big_be16(height);
    lemma_big_be32(ENC_EXT_DESKTOP_SIZE);
    assert(b.subrange(0, 2) =~= be16(reason));
    assert(b.subrange(2, 4) =~= be16(0));
    assert(b.subrange(4, 6) =~= be16(width));
    assert(b.subrange(6, 8) =~= be16(height));
    assert(b.subrange(8, 12) =~= be32(ENC_EXT_DESKTOP_SIZE));
    lemma_big_be32(1);
    lemma_big_be32(0);
    assert(b.subrange(16, 20) =~= be32(1));
    assert(b.subrange(28, 32) =~= be32(0));
    assert(b.subrange(20, 22) =~= be16(0));
    assert(b.subrange(22, 24) =~= be16(0));
    assert(b.subrange(24, 26) =~= be16(width));
    assert(b.subrange(26, 28) =~= be16(height));
}

/// An update begins with how many rectangles follow: one for a new size, one for the
/// cursor and one for each part of the screen. A new size comes first, that of the
/// frame, the cursor next.
pub proof fn lemma_client_reads_the_update_head(
    plan: Plan,
    frame: Frame,
    cursor: Option<CursorImage>,
)
    ensures
        ({
            let b = update_head(plan, frame, cursor);
            let parts = clipped_rects(plan.rects@, frame.width, frame.height).len() as int;
            let size: int = if plan.resize is Some {
                1
            } else {
                0
            };
            let shape: int = if plan.send_cursor {
                1
            } else {
                0
            };
            &&& b.len() >= 4 + 32 * size
            &&& b[0] == 0
            &&& big(b, 2, 2) == (size + shape + parts) % 0x1_0000
            &&& plan.resize matches Some(reason) ==> big(b, 4, 2) == reason && big(b, 8, 2)
                == frame.width as int % 0x1_0000 && big(b, 10, 2) == frame.height as int % 0x1_0000
                && big(b, 12, 4) == 0x1_0000_0000 - 308
            &&& b.skip(4 + 32 * size) == (if plan.send_cursor {
                cursor_bytes(plan.pf, cursor)
            } else {
                seq![]
            })
        }),
{
    let b = update_head(plan, frame, cursor);
    let parts = clipped_rects(plan.rects@, frame.width, frame.height);
    let count = low16(crate::rfb::update::rect_count(plan, parts));
    lemma_big_be16(count);
    assert(b.subrange(2, 4) =~= be16(count));
    match plan.resize {
        Some(reason) => {
            let (w, h) = (low16(frame.width as int), low16(frame.height as int));
            let e = ext_desktop_size_bytes(reason, w, h);
            lemma_client_reads_the_size(reason, w, h);
            assert(b.subrange(4, 6) =~= e.subrange(0, 2));
            assert(b.subrange(8, 10) =~= e.subrange(4, 6));
            assert(b.subrange(10, 12) =~= e.subrange(6, 8));
            assert(b.subrange(12, 16) =~= e.subrange(8, 12));
            assert(b.skip(36) =~= if plan.send_cursor {
                cursor_bytes(plan.pf, cursor)
            } else {
                seq![]
            });
        },
        None => {
            assert(b.skip(4) =~= if plan.send_cursor {
                cursor_bytes(plan.pf, cursor)
            } else {
                seq![]
            });
        },
    }
}

/// Clipboard text for a client without the extended clipboard: a message of its own
/// type, the length of the text and the text.
pub proof fn lemma_client_reads_cut_text(text: Seq<u8>)
    ensures
        ({
            let b = cut_text_bytes(text);
            &&& b.len() == 8 + text.len()
            &&& b[0] == 3
            &&& big(b, 4, 4) == text.len() as int % 0x1_0000_0000
            &&& b.skip(8) == text
        }),
{
    let b = cut_text_bytes(text);
    let n = low32(text.len() as int);
    lemma_big_be32(n);
    assert(b.subrange(4, 8) =~= be32(n));
    assert(b.skip(8) =~= text);
}

/// What is left of an update's rectangles on the screen is every pixel of them that
/// is on it, and no other.
pub proof fn lemma_update_keeps_visible_pixels(
    rs: Seq<Rect>,
    width: u32,
    height: u32,
    x: int,
    y: int,
)
    requires
        0 <= x < width,
        0 <= y < height,
    ensures
        (exists|i: int|
            0 <= i < clipped_rects(rs, width, height).len() && (#[trigger] clipped_rects(
                rs,
                width,
                height,
            )[i]).has(x, y)) == (exists|i: int|
            0 <= i < rs.len() && (#[trigger] rs[i]).has(x, y)),
        forall|i: int|
            0 <= i < clipped_rects(rs, width, height).len() ==> (#[trigger] clipped_rects(
                rs,
                width,
                height,
            )[i]).inside(width as int, height as int),
    decreases rs.len(),
{
    if rs.len() > 0 {
        let front = rs.drop_last();
        let kept = clipped_rects(front, width, height);
        let all = clipped_rects(rs, width, height);
        let last = rs.last().clipped(width, height);
        lemma_update_keeps_visible_pixels(front, width, height, x, y);
        if exists|i: int| 0 <= i < rs.len() && (#[trigger] rs[i]).has(x, y) {
            let i = choose|i: int| 0 <= i < rs.len() && (#[trigger] rs[i]).has(x, y);
            if i < front.len() {
                assert(front[i].has(x, y));
                let k = choose|k: int| 0 <= k < kept.len() && (#[trigger] kept[k]).has(x, y);
                assert(all[k] == kept[k]);
                assert(all[k].has(x, y));
            } else {
                assert(last is Some);
                assert(all[all.len() - 1].has(x, y));
            }
        }
        if exists|k: int| 0 <= k < all.len() && (#[trigger] all[k]).has(x, y) {
            let k = choose|k: int| 0 <= k < all.len() && (#[trigger] all[k]).has(x, y);
            if k < kept.len() {
                assert(kept[k].has(x, y));
                let i = choose|i: int| 0 <= i < front.len() && (#[trigger] front[i]).has(x, y);
                assert(rs[i].has(x, y));
            } else {
                assert(rs[rs.len() - 1].has(x, y));
            }
        }
        assert forall|i: int| 0 <= i < all.len() implies (#[trigger] all[i]).inside(
            width as int,
            height as int,
        ) by {
            if i < kept.len() {
                assert(all[i] == kept[i]);
            }
        }
    }
}

/// What a client hears of the clipboard: one without the extended kind our text as it
/// is, when there is new text; one with it what can be done, a request for its text and
/// notice of ours, each when it is due and in that order, and our text itself only when
/// it has asked for it.
pub proof fn lemma_client_hears_of_the_clipboard(plan: Plan)
    ensures
        ({
            let b = clipboard_head(plan);
            let none = Seq::<u8>::empty();
            &&& !plan.caps.ext_clipboard && plan.clipboard is None ==> b.len() == 0
            &&& !plan.caps.ext_clipboard && plan.clipboard is Some ==> b == cut_text_bytes(
                (plan.clipboard->0)@,
            )
            &&& plan.caps.ext_clipboard ==> b == (if plan.ext.announce {
                caps_bytes()
            } else {
                none
            }) + (if plan.ext.request {
                request_bytes()
            } else {
                none
            }) + (if plan.ext.notify || plan.clipboard is Some {
                notify_bytes(plan.clipboard is Some || plan.text is Some)
            } else {
                none
            })
            &&& provides_text(plan) <==> plan.caps.ext_clipboard && plan.ext.provide && plan.text
                is Some
        }),
{
}

} // verus!
