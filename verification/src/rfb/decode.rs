//! What a client reads back out of a ZRLE tile.
//!
//! The decoder here exists only in specifications: it is the reading that RFB
//! gives to a tile, written down to state that encoding loses nothing.

use vstd::arithmetic::power2::pow2;
use vstd::prelude::*;

use crate::pixel::{cpixel_bytes, cpixel_span, cpixels, field, PixelFormat};
use crate::rfb::tile::{
    available, best_coding, byte_slice, coded, digits, index_range, index_row, indices_of,
    lemma_cpixels_len, lemma_digits, lemma_index_bound, lemma_packed_fits, lemma_packed_rows_len,
    lemma_palette, lemma_run_at, lemma_weight_add, packed_byte, packed_row, packed_rows,
    palette_of, per_byte, rle_from, row_stride, run_at, run_bytes, tile_bytes, weight, Coding,
};
use crate::rfb::update::all_tiles;
use crate::rfb::zrle::{
    band_bytes, lemma_pixels_len, pixels_at, rect_tiles, tile_at, tile_side, tiles_from,
};
use crate::screen::frame::{lemma_row_in_buffer, Frame, Rect};

verus! {

/// A run length: the sum of its bytes, and how many there are.
pub open spec fn read_run(b: Seq<u8>) -> (int, int)
    decreases b.len(),
{
    if b.len() == 0 {
        (0, 0)
    } else if b[0] == 255 {
        let r = read_run(b.skip(1));
        (255 + r.0, 1 + r.1)
    } else {
        (b[0] as int, 1)
    }
}

/// Runs read until `n` indices are there: the indices, and the bytes left.
pub open spec fn read_runs(b: Seq<u8>, n: int) -> (Seq<u8>, Seq<u8>)
    decreases n,
{
    if n <= 0 || b.len() == 0 {
        (seq![], b)
    } else if b[0] < 128 {
        let r = read_runs(b.skip(1), n - 1);
        (seq![b[0]] + r.0, r.1)
    } else {
        let (more, used) = read_run(b.skip(1));
        if more < 0 || more >= n {
            (seq![], b)
        } else {
            let r = read_runs(b.skip(1 + used), n - 1 - more);
            (Seq::new((1 + more) as nat, |i: int| (b[0] - 128) as u8) + r.0, r.1)
        }
    }
}

/// Entry `i` of a table of `c`-byte pixels that starts at byte 1.
pub open spec fn entry(b: Seq<u8>, c: int, i: int) -> Seq<u8> {
    b.subrange(1 + i * c, 1 + i * c + c)
}

/// How many bits an index into a palette of `n` colours takes.
pub open spec fn index_bits(n: int) -> int {
    if n <= 2 {
        1
    } else if n <= 4 {
        2
    } else {
        4
    }
}

/// Bytes of a row of `w` indices of some bits each.
pub open spec fn index_row_len(w: int, bits: int) -> int {
    (w * bits + 7) / 8
}

/// The index at column `x`, row `y` of packed rows that start at `base`: in each
/// byte the first index has the top bits.
pub open spec fn packed_index(b: Seq<u8>, base: int, w: int, bits: int, x: int, y: int) -> int {
    field(
        b[base + y * index_row_len(w, bits) + x * bits / 8] as int,
        8 - bits - x * bits % 8,
        bits,
    )
}

/// How far a tile reaches into what is left of a rectangle.
pub open spec fn reach(left: int) -> int {
    if left < 64 {
        left
    } else {
        64
    }
}

/// A tile of `w` x `h` pixels of `c` bytes each, read from the front of `b`:
/// its pixels in reading order, and the bytes left.
pub open spec fn read_tile(b: Seq<u8>, w: int, h: int, c: int) -> (Seq<Seq<u8>>, Seq<u8>) {
    let n = (w * h) as nat;
    if b[0] == 0 {
        (Seq::new(n, |i: int| entry(b, c, i)), b.skip(1 + n * c))
    } else if b[0] == 1 {
        (Seq::new(n, |i: int| entry(b, c, 0)), b.skip(1 + c))
    } else if b[0] <= 16 {
        let bits = index_bits(b[0] as int);
        let base = 1 + b[0] * c;
        (
            Seq::new(n, |i: int| entry(b, c, packed_index(b, base, w, bits, i % w, i / w))),
            b.skip(base + index_row_len(w, bits) * h),
        )
    } else {
        let r = read_runs(b.skip(1 + (b[0] - 128) * c), n as int);
        (Seq::new(n, |i: int| entry(b, c, r.0[i] as int)), r.1)
    }
}

proof fn lemma_read_run(n: int, rest: Seq<u8>)
    requires
        0 <= n,
    ensures
        read_run(run_bytes(n) + rest) == (n, run_bytes(n).len() as int),
    decreases n,
{
    let b = run_bytes(n) + rest;
    if n >= 255 {
        lemma_read_run(n - 255, rest);
        assert(b.skip(1) =~= run_bytes(n - 255) + rest);
    }
}

proof fn lemma_top_bit(v: u8)
    requires
        v < 128,
    ensures
        v | 0x80 == v + 128,
{
    assert(v < 128 ==> v | 0x80 == v + 128) by (bit_vector);
}

/// Runs read back as the indices they were written from.
pub proof fn lemma_runs_read_back(s: Seq<u8>, i: int, rest: Seq<u8>)
    requires
        0 <= i <= s.len(),
        forall|j: int| 0 <= j < s.len() ==> #[trigger] s[j] < 128,
    ensures
        read_runs(rle_from(s, i) + rest, s.len() - i) == (s.skip(i), rest),
    decreases s.len() - i,
{
    let b = rle_from(s, i) + rest;
    if i == s.len() {
        assert(b =~= rest);
        assert(s.skip(i) =~= Seq::<u8>::empty());
    } else {
        let run = run_at(s, i);
        let v = s[i];
        lemma_run_at(s, i);
        let tail = rle_from(s, i + run) + rest;
        lemma_runs_read_back(s, i + run, rest);
        if run == 1 {
            assert(b.skip(1) =~= tail);
            assert(s.skip(i) =~= seq![v] + s.skip(i + 1));
        } else {
            lemma_top_bit(v);
            lemma_read_run(run - 1, tail);
            assert(b.skip(1) =~= run_bytes(run - 1) + tail);
            assert(b.skip(1 + run_bytes(run - 1).len() as int) =~= tail);
            assert(s.skip(i) =~= Seq::new(run as nat, |k: int| (b[0] - 128) as u8) + s.skip(
                i + run,
            ));
        }
    }
}

proof fn lemma_digit_of(s: Seq<u8>, m: int, e: int, j: int)
    requires
        2 <= m,
        0 <= e,
        0 <= j < s.len(),
        forall|i: int| 0 <= i < s.len() ==> #[trigger] s[i] < m,
    ensures
        ((digits(s, m) * weight(m, e)) / weight(m, e + s.len() - 1 - j)) % m == s[j],
    decreases s.len(),
{
    let t = s.drop_last();
    let d = digits(t, m);
    let we = weight(m, e);
    let wd = weight(m, e + s.len() - 1 - j);
    lemma_weight_add(m, 0, e);
    lemma_digits(t, m);
    assert(s[s.len() - 1] < m);
    if j == s.len() - 1 {
        let full = d * m + s.last();
        assert((full * we) / we == full) by {
            vstd::arithmetic::div_mod::lemma_div_by_multiple(full, we);
        }
        assert(full % m == s.last()) by {
            vstd::arithmetic::div_mod::lemma_fundamental_div_mod_converse(
                full,
                m,
                d,
                s.last() as int,
            );
        }
    } else {
        lemma_digit_of(t, m, e + 1, j);
        let w1 = weight(m, e + 1);
        lemma_weight_add(m, e + 1, s.len() - 2 - j);
        let q = weight(m, s.len() - 2 - j);
        lemma_weight_add(m, 0, e + 1);
        lemma_weight_add(m, 0, s.len() - 2 - j);
        assert(wd == w1 * q);
        assert(w1 == we * m);
        let x = s.last() * we;
        assert((d * m + s.last()) * we == d * w1 + x) by (nonlinear_arith)
            requires
                w1 == we * m,
                x == s.last() * we,
        ;
        assert(0 <= x < w1) by (nonlinear_arith)
            requires
                x == s.last() * we,
                w1 == we * m,
                0 <= s.last() < m,
                we >= 1,
        ;
        // Digits below those that are divided away make no difference.
        let a = d * w1 + x;
        assert(0 <= d * w1) by (nonlinear_arith)
            requires
                0 <= d,
                1 <= w1,
        ;
        vstd::arithmetic::div_mod::lemma_fundamental_div_mod_converse(a, w1, d, x);
        vstd::arithmetic::div_mod::lemma_div_by_multiple(d, w1);
        vstd::arithmetic::div_mod::lemma_div_denominator(a, w1, q);
        vstd::arithmetic::div_mod::lemma_div_denominator(d * w1, w1, q);
    }
}

proof fn lemma_packed_row_at(indices: Seq<u8>, w: int, h: int, per: int, y: int, k: int)
    requires
        0 < w,
        0 <= y < h,
        0 < per,
        w * h <= indices.len(),
        0 <= k < row_stride(w, per),
    ensures
        0 <= y * row_stride(w, per) + k < packed_rows(indices, w, h, per).len(),
        packed_rows(indices, w, h, per)[y * row_stride(w, per) + k] == packed_row(
            index_row(indices, w, y),
            per,
        )[k],
    decreases h,
{
    let stride = row_stride(w, per);
    assert(0 <= (h - 1) * w && (h - 1) * w + w <= w * h && w * (h - 1) <= w * h)
        by (nonlinear_arith)
        requires
            0 < h,
            0 < w,
    ;
    lemma_packed_rows_len(indices, w, h, per);
    lemma_packed_rows_len(indices, w, h - 1, per);
    assert(index_row(indices, w, h - 1).len() == w);
    assert(0 <= y * stride && y * stride + stride <= stride * h) by (nonlinear_arith)
        requires
            0 <= y < h,
            0 <= stride,
    ;
    if y == h - 1 {
        assert(stride * (h - 1) == y * stride) by (nonlinear_arith)
            requires
                y == h - 1,
        ;
    } else {
        lemma_packed_row_at(indices, w, h - 1, per, y, k);
    }
}

proof fn lemma_entry(pf: PixelFormat, px: Seq<u32>, i: int, head: u8, rest: Seq<u8>)
    requires
        pf.convertible(),
        0 <= i < px.len(),
    ensures
        entry(seq![head] + cpixels(pf, px) + rest, cpixel_span(pf).1, i) == cpixel_bytes(
            pf,
            px[i],
        ),
    decreases px.len(),
{
    let c = cpixel_span(pf).1;
    let n = px.len() as int;
    let t = px.drop_last();
    lemma_cpixels_len(pf, px);
    lemma_cpixels_len(pf, t);
    assert(i * c + c <= n * c && 0 <= i * c) by (nonlinear_arith)
        requires
            0 <= i < n,
            0 <= c,
    ;
    let b = seq![head] + cpixels(pf, px) + rest;
    if i == n - 1 {
        assert(entry(b, c, i) =~= cpixel_bytes(pf, px[i]));
    } else {
        let last = cpixel_bytes(pf, px.last());
        lemma_entry(pf, t, i, head, last + rest);
        assert(b =~= seq![head] + cpixels(pf, t) + (last + rest));
    }
}

proof fn lemma_weight_is_power(bits: int, e: int)
    requires
        bits == 1 || bits == 2 || bits == 4,
        0 <= e,
    ensures
        weight(pow2(bits as nat) as int, e) == pow2((bits * e) as nat),
    decreases e,
{
    vstd::arithmetic::power2::lemma2_to64();
    if e > 0 {
        lemma_weight_is_power(bits, e - 1);
        assert(bits * e == bits * (e - 1) + bits && 0 <= bits * (e - 1)) by (nonlinear_arith)
            requires
                0 < e,
                0 < bits,
        ;
        vstd::arithmetic::power2::lemma_pow2_adds((bits * (e - 1)) as nat, bits as nat);
    } else {
        assert(bits * e == 0) by (nonlinear_arith)
            requires
                e == 0,
        ;
    }
}

proof fn lemma_packed_place(n: int, w: int, x: int)
    requires
        0 < w,
        0 <= x < w,
    ensures
        ({
            let (per, bits) = (per_byte(n), index_bits(n));
            &&& index_row_len(w, bits) == row_stride(w, per)
            &&& x * bits / 8 == x / per
            &&& 0 <= 8 - bits - x * bits % 8
            &&& pow2(bits as nat) == index_range(per)
            &&& pow2((8 - bits - x * bits % 8) as nat) == weight(
                index_range(per),
                per - 1 - x % per,
            )
        }),
{
    let (per, bits) = (per_byte(n), index_bits(n));
    vstd::arithmetic::power2::lemma2_to64();
    lemma_weight_is_power(bits, per - 1 - x % per);
    if bits == 1 {
        assert(per == 8);
    } else if bits == 2 {
        assert(per == 4);
        assert(x * 2 % 8 == 2 * (x % 4));
    } else {
        assert(per == 2);
        assert(x * 4 % 8 == 4 * (x % 2));
    }
}

/// An index that was packed is read back from its bits.
pub(crate) proof fn lemma_packed_index(
    ix: Seq<u8>,
    w: int,
    h: int,
    n: int,
    b: Seq<u8>,
    base: int,
    x: int,
    y: int,
)
    requires
        0 <= x < w,
        0 <= y < h,
        w * h <= ix.len(),
        forall|i: int| 0 <= i < ix.len() ==> #[trigger] ix[i] < index_range(per_byte(n)),
        0 <= base,
        ({
            let body = packed_rows(ix, w, h, per_byte(n));
            base + body.len() <= b.len() && b.subrange(base, base + body.len()) == body
        }),
    ensures
        packed_index(b, base, w, index_bits(n), x, y) == ix[y * w + x],
{
    let (per, bits) = (per_byte(n), index_bits(n));
    let m = index_range(per);
    let body = packed_rows(ix, w, h, per);
    let stride = row_stride(w, per);
    let k = x / per;
    let j = x % per;
    assert(k < stride && 0 <= k && 0 <= j < per && x == k * per + j) by {
        if per == 8 {
            assert(k < stride);
        } else if per == 4 {
            assert(k < stride);
        } else {
            assert(k < stride);
        }
    }
    lemma_packed_row_at(ix, w, h, per, y, k);
    let row = index_row(ix, w, y);
    assert(y * w + w <= w * h && 0 <= y * w) by (nonlinear_arith)
        requires
            0 <= y < h,
            0 < w,
    ;
    assert(row[x] == ix[y * w + x]);
    let piece = byte_slice(row, per, k);
    assert((k + 1) * per == k * per + per) by (nonlinear_arith);
    assert(piece.len() <= per && j < piece.len() && piece[j] == row[x]);
    assert forall|q: int| 0 <= q < piece.len() implies #[trigger] piece[q] < m by {
        assert(piece[q] == ix[y * w + k * per + q]);
    }
    lemma_packed_fits(piece, per);
    lemma_digit_of(piece, m, per - piece.len(), j);
    assert(body[y * stride + k] == b.subrange(base, base + body.len())[y * stride + k]);
    assert(b[base + y * stride + k] == body[y * stride + k]);
    assert(packed_row(row, per)[k] == packed_byte(piece, per));
    lemma_packed_place(n, w, x);
}

proof fn lemma_packed_read_back(tile: Seq<u32>, w: int, h: int, pf: PixelFormat, rest: Seq<u8>)
    requires
        pf.convertible(),
        0 < w,
        0 < h,
        tile.len() == w * h,
        available(tile, Coding::Packed),
    ensures
        read_tile(coded(tile, w, h, pf, Coding::Packed) + rest, w, h, cpixel_span(pf).1) == (
            Seq::new(tile.len(), |i: int| cpixel_bytes(pf, tile[i])),
            rest,
        ),
{
    let c = cpixel_span(pf).1;
    let p = palette_of(tile);
    let per = per_byte(p.len() as int);
    let ix = indices_of(tile);
    let body = packed_rows(ix, w, h, per);
    let b = coded(tile, w, h, pf, Coding::Packed) + rest;
    let stride = row_stride(w, per);
    let bits = index_bits(p.len() as int);
    let base = 1 + p.len() * c;
    lemma_packed_place(p.len() as int, w, 0);
    lemma_cpixels_len(pf, p);
    lemma_index_bound(tile);
    lemma_packed_rows_len(ix, w, h, per);
    assert(b[0] == p.len());
    assert(b =~= seq![b[0]] + cpixels(pf, p) + (body + rest));
    assert(b.skip(base + stride * h) =~= rest);
    assert forall|i: int| 0 <= i < tile.len() implies #[trigger] entry(
        b,
        c,
        packed_index(b, base, w, bits, i % w, i / w),
    ) == cpixel_bytes(pf, tile[i]) by {
        let (x, y) = (i % w, i / w);
        vstd::arithmetic::div_mod::lemma_fundamental_div_mod(i, w);
        assert(0 <= y < h) by (nonlinear_arith)
            requires
                0 <= i < w * h,
                i == w * y + x,
                0 <= x < w,
                0 < w,
        ;
        assert(y * w == w * y) by (nonlinear_arith);
        assert(b.subrange(base, base + body.len()) =~= body);
        lemma_packed_index(ix, w, h, p.len() as int, b, base, x, y);
        lemma_entry(pf, p, ix[i] as int, b[0], body + rest);
    }
    assert(read_tile(b, w, h, c).0 =~= Seq::new(tile.len(), |i: int| cpixel_bytes(pf, tile[i])));
}

/// A client reads back, pixel for pixel, the tile that was encoded, and is
/// left with what follows it.
pub proof fn lemma_tile_reads_back(tile: Seq<u32>, w: int, h: int, pf: PixelFormat, rest: Seq<u8>)
    requires
        pf.convertible(),
        0 < w,
        0 < h,
        tile.len() == w * h,
    ensures
        read_tile(tile_bytes(tile, w, h, pf) + rest, w, h, cpixel_span(pf).1) == (
            Seq::new(tile.len(), |i: int| cpixel_bytes(pf, tile[i])),
            rest,
        ),
{
    let c = cpixel_span(pf).1;
    let p = palette_of(tile);
    let how = best_coding(tile, w, h, pf);
    let b = tile_bytes(tile, w, h, pf) + rest;
    let want = Seq::new(tile.len(), |i: int| cpixel_bytes(pf, tile[i]));
    let got = read_tile(b, w, h, c);
    lemma_palette(tile);
    lemma_cpixels_len(pf, tile);
    lemma_cpixels_len(pf, p);
    match how {
        Coding::Raw => {
            assert(b =~= seq![0u8] + cpixels(pf, tile) + rest);
            assert forall|i: int| 0 <= i < tile.len() implies #[trigger] got.0[i] == want[i] by {
                lemma_entry(pf, tile, i, 0, rest);
            }
            assert(got.0 =~= want);
            assert(got.1 =~= rest);
        },
        Coding::Solid => {
            assert(b =~= seq![1u8] + cpixels(pf, p) + rest);
            lemma_entry(pf, p, 0, 1, rest);
            assert(1 * c == c);
            assert forall|i: int| 0 <= i < tile.len() implies #[trigger] got.0[i] == want[i] by {
                assert(p.contains(tile[i]));
            }
            assert(got.0 =~= want);
            assert(got.1 =~= rest);
        },
        Coding::Packed => {
            lemma_packed_read_back(tile, w, h, pf, rest);
        },
        Coding::Runs => {
            let ix = indices_of(tile);
            lemma_index_bound(tile);
            let body = rle_from(ix, 0);
            assert(b =~= seq![b[0]] + cpixels(pf, p) + (body + rest));
            assert(b[0] == 128 + p.len());
            assert(b.skip(1 + p.len() * c) =~= body + rest);
            lemma_runs_read_back(ix, 0, rest);
            assert(ix.skip(0) =~= ix);
            assert forall|i: int| 0 <= i < tile.len() implies #[trigger] got.0[i] == want[i] by {
                lemma_entry(pf, p, ix[i] as int, b[0], body + rest);
            }
            assert(got.0 =~= want);
        },
    }
}

/// The tiles of one band of `r`, read from column `tx` on.
pub open spec fn read_band(b: Seq<u8>, r: Rect, c: int, tx: int, ty: int) -> (
    Seq<Seq<Seq<u8>>>,
    Seq<u8>,
)
    decreases r.x + r.w - tx,
{
    if tx >= r.x + r.w {
        (seq![], b)
    } else {
        let t = read_tile(b, reach(r.x + r.w - tx), reach(r.y + r.h - ty), c);
        let more = read_band(t.1, r, c, tx + reach(r.x + r.w - tx), ty);
        (seq![t.0] + more.0, more.1)
    }
}

/// The tiles of `r`, read from row `ty` on, and the bytes left.
pub open spec fn read_from(b: Seq<u8>, r: Rect, c: int, ty: int) -> (Seq<Seq<Seq<u8>>>, Seq<u8>)
    decreases r.y + r.h - ty,
{
    if ty >= r.y + r.h {
        (seq![], b)
    } else {
        let t = read_band(b, r, c, r.x as int, ty);
        let more = read_from(t.1, r, c, ty + reach(r.y + r.h - ty));
        (t.0 + more.0, more.1)
    }
}

/// A tile of the frame as a client sees it: each pixel in its format.
pub open spec fn seen_tile(f: Frame, pf: PixelFormat, r: Rect, tx: int, ty: int) -> Seq<Seq<u8>> {
    let t = tile_at(f, r, tx, ty);
    Seq::new(t.len(), |i: int| cpixel_bytes(pf, t[i]))
}

/// The tiles of one band of the frame, from column `tx` on.
pub open spec fn seen_band(f: Frame, pf: PixelFormat, r: Rect, tx: int, ty: int) -> Seq<
    Seq<Seq<u8>>,
>
    decreases r.x + r.w - tx,
{
    if tx >= r.x + r.w {
        seq![]
    } else {
        seq![seen_tile(f, pf, r, tx, ty)] + seen_band(
            f,
            pf,
            r,
            tx + tile_side(tx, r.x + r.w),
            ty,
        )
    }
}

/// The tiles of the frame in `r` from row `ty` on.
pub open spec fn seen_from(f: Frame, pf: PixelFormat, r: Rect, ty: int) -> Seq<Seq<Seq<u8>>>
    decreases r.y + r.h - ty,
{
    if ty >= r.y + r.h {
        seq![]
    } else {
        seen_band(f, pf, r, r.x as int, ty) + seen_from(f, pf, r, ty + tile_side(ty, r.y + r.h))
    }
}

proof fn lemma_band_reads_back(
    f: Frame,
    pf: PixelFormat,
    r: Rect,
    tx: int,
    ty: int,
    rest: Seq<u8>,
)
    requires
        f.wf(),
        pf.convertible(),
        r.inside(f.width as int, f.height as int),
        r.x <= tx,
        r.y <= ty < r.y + r.h,
    ensures
        read_band(band_bytes(f, pf, r, tx, ty) + rest, r, cpixel_span(pf).1, tx, ty) == (
            seen_band(f, pf, r, tx, ty),
            rest,
        ),
    decreases r.x + r.w - tx,
{
    let b = band_bytes(f, pf, r, tx, ty) + rest;
    if tx >= r.x + r.w {
        assert(b =~= rest);
    } else {
        let (w, h) = (tile_side(tx, r.x + r.w), tile_side(ty, r.y + r.h));
        let tail = band_bytes(f, pf, r, tx + w, ty) + rest;
        let tile = tile_at(f, r, tx, ty);
        lemma_pixels_len(f, tx, ty, w, h);
        lemma_tile_reads_back(tile, w, h, pf, tail);
        assert(b =~= tile_bytes(tile, w, h, pf) + tail);
        lemma_band_reads_back(f, pf, r, tx + w, ty, rest);
    }
}

proof fn lemma_tiles_read_back(f: Frame, pf: PixelFormat, r: Rect, ty: int, rest: Seq<u8>)
    requires
        f.wf(),
        pf.convertible(),
        r.inside(f.width as int, f.height as int),
        r.y <= ty,
    ensures
        read_from(tiles_from(f, pf, r, ty) + rest, r, cpixel_span(pf).1, ty) == (
            seen_from(f, pf, r, ty),
            rest,
        ),
    decreases r.y + r.h - ty,
{
    let b = tiles_from(f, pf, r, ty) + rest;
    if ty >= r.y + r.h {
        assert(b =~= rest);
    } else {
        let h = tile_side(ty, r.y + r.h);
        let tail = tiles_from(f, pf, r, ty + h) + rest;
        assert(b =~= band_bytes(f, pf, r, r.x as int, ty) + tail);
        lemma_band_reads_back(f, pf, r, r.x as int, ty, tail);
        lemma_tiles_read_back(f, pf, r, ty + h, rest);
    }
}

/// A client that decompresses a rectangle reads back every tile of it, pixel
/// for pixel, and is left at the start of what follows.
pub proof fn lemma_rect_reads_back(f: Frame, pf: PixelFormat, r: Rect, rest: Seq<u8>)
    requires
        f.wf(),
        pf.convertible(),
        r.inside(f.width as int, f.height as int),
    ensures
        read_from(rect_tiles(f, pf, r) + rest, r, cpixel_span(pf).1, r.y as int) == (
            seen_from(f, pf, r, r.y as int),
            rest,
        ),
{
    lemma_tiles_read_back(f, pf, r, r.y as int, rest);
}

proof fn lemma_pixel_of_copy(f: Frame, x: int, y: int, w: int, h: int, i: int, j: int)
    requires
        f.wf(),
        0 <= x,
        0 <= y,
        x + w <= f.width,
        y + h <= f.height,
        0 <= i < w,
        0 <= j < h,
    ensures
        0 <= j * w + i < pixels_at(f, x, y, w, h).len(),
        pixels_at(f, x, y, w, h)[j * w + i] == f.px@[(y + j) * f.width + (x + i)],
    decreases h,
{
    lemma_pixels_len(f, x, y, w, h);
    lemma_pixels_len(f, x, y, w, h - 1);
    lemma_row_in_buffer(f.width as int, f.height as int, y + h - 1, x, w);
    assert(0 <= j * w && j * w + w <= w * h) by (nonlinear_arith)
        requires
            0 <= j < h,
            0 < w,
    ;
    if j == h - 1 {
        assert(w * (h - 1) == j * w) by (nonlinear_arith)
            requires
                j == h - 1,
        ;
    } else {
        lemma_pixel_of_copy(f, x, y, w, h - 1, i, j);
    }
}

proof fn lemma_band_tiles(f: Frame, pf: PixelFormat, r: Rect, tx: int, ty: int, k: int)
    requires
        r.x <= tx <= r.x + r.w,
    ensures
        seen_band(f, pf, r, tx, ty).len() == (r.x + r.w - tx + 63) / 64,
        0 <= k < (r.x + r.w - tx + 63) / 64 ==> seen_band(f, pf, r, tx, ty)[k] == seen_tile(
            f,
            pf,
            r,
            tx + 64 * k,
            ty,
        ),
    decreases r.x + r.w - tx,
{
    if tx < r.x + r.w {
        let next = tx + reach(r.x + r.w - tx);
        lemma_band_tiles(f, pf, r, next, ty, k - 1);
    }
}

proof fn lemma_bands(f: Frame, pf: PixelFormat, r: Rect, ty: int, a: int, k: int)
    requires
        r.y <= ty <= r.y + r.h,
    ensures
        ({
            let across = (r.w + 63) / 64;
            let down = (r.y + r.h - ty + 63) / 64;
            &&& seen_from(f, pf, r, ty).len() == down * across
            &&& 0 <= a < down && 0 <= k < across ==> 0 <= a * across + k < down * across
                && seen_from(f, pf, r, ty)[a * across + k] == seen_tile(
                f,
                pf,
                r,
                r.x + 64 * k,
                ty + 64 * a,
            )
        }),
    decreases r.y + r.h - ty,
{
    let across = (r.w + 63) / 64;
    let down = (r.y + r.h - ty + 63) / 64;
    if ty < r.y + r.h {
        let next = ty + reach(r.y + r.h - ty);
        lemma_band_tiles(f, pf, r, r.x as int, ty, k);
        lemma_bands(f, pf, r, next, a - 1, k);
        assert(down * across == across + (down - 1) * across && a * across == across + (a - 1)
            * across) by (nonlinear_arith);
        assert((r.y + r.h - next + 63) / 64 == down - 1);
        if 0 <= a < down && 0 <= k < across {
            assert(0 <= a * across && a * across + across <= down * across) by (nonlinear_arith)
                requires
                    0 <= a < down,
                    0 <= across,
            ;
            if a == 0 {
                assert(a * across == 0);
            } else {
                assert(a * across >= across) by (nonlinear_arith)
                    requires
                        a >= 1,
                        across >= 0,
                ;
            }
        }
    } else {
        assert(down * across == 0) by (nonlinear_arith)
            requires
                down == 0,
        ;
    }
}

/// Where the pixel at `(x, y)` stands in the tiles of `r`: in which tile, counted
/// from the left and from the top, and where in it.
pub open spec fn place_of(r: Rect, x: int, y: int) -> (int, int) {
    let (dx, dy) = (x - r.x, y - r.y);
    let across = (r.w + 63) / 64;
    (dy / 64 * across + dx / 64, dy % 64 * reach(r.w - dx / 64 * 64) + dx % 64)
}

proof fn lemma_place_in_tiles(f: Frame, pf: PixelFormat, r: Rect, x: int, y: int)
    requires
        f.wf(),
        r.inside(f.width as int, f.height as int),
        r.x <= x < r.x + r.w,
        r.y <= y < r.y + r.h,
    ensures
        ({
            let tiles = seen_from(f, pf, r, r.y as int);
            let (k, i) = place_of(r, x, y);
            &&& tiles.len() == (r.w + 63) / 64 * ((r.h + 63) / 64)
            &&& 0 <= k < tiles.len()
            &&& 0 <= i < tiles[k].len()
            &&& tiles[k][i] == cpixel_bytes(pf, f.px@[y * f.width + x])
        }),
{
    let (dx, dy) = (x - r.x, y - r.y);
    let (tx, ty) = (r.x + 64 * (dx / 64), r.y + 64 * (dy / 64));
    lemma_bands(f, pf, r, r.y as int, dy / 64, dx / 64);
    assert((r.w + 63) / 64 * ((r.h + 63) / 64) == (r.h + 63) / 64 * ((r.w + 63) / 64))
        by (nonlinear_arith);
    lemma_pixel_of_copy(
        f,
        tx,
        ty,
        tile_side(tx, r.x + r.w),
        tile_side(ty, r.y + r.h),
        dx % 64,
        dy % 64,
    );
}

/// A client that decompresses a rectangle finds at every position of it the pixel
/// that the frame has there, and is left at the start of what follows.
pub proof fn lemma_client_sees_the_frame(
    f: Frame,
    pf: PixelFormat,
    r: Rect,
    rest: Seq<u8>,
    x: int,
    y: int,
)
    requires
        f.wf(),
        pf.convertible(),
        r.inside(f.width as int, f.height as int),
        r.x <= x < r.x + r.w,
        r.y <= y < r.y + r.h,
    ensures
        ({
            let got = read_from(rect_tiles(f, pf, r) + rest, r, cpixel_span(pf).1, r.y as int);
            let (k, i) = place_of(r, x, y);
            &&& got.1 == rest
            &&& got.0.len() == (r.w + 63) / 64 * ((r.h + 63) / 64)
            &&& 0 <= k < got.0.len()
            &&& 0 <= i < got.0[k].len()
            &&& got.0[k][i] == cpixel_bytes(pf, f.px@[y * f.width + x])
        }),
{
    lemma_rect_reads_back(f, pf, r, rest);
    lemma_place_in_tiles(f, pf, r, x, y);
}

/// The rectangles of an update, each as its tiles, and the bytes left.
pub open spec fn read_rects(b: Seq<u8>, rs: Seq<Rect>, c: int) -> (
    Seq<Seq<Seq<Seq<u8>>>>,
    Seq<u8>,
)
    decreases rs.len(),
{
    if rs.len() == 0 {
        (seq![], b)
    } else {
        let front = read_rects(b, rs.drop_last(), c);
        let t = read_from(front.1, rs.last(), c, rs.last().y as int);
        (front.0.push(t.0), t.1)
    }
}

/// A client that decompresses what an update added to the stream reads back
/// every rectangle of it as the frame has it.
pub proof fn lemma_update_reads_back(f: Frame, pf: PixelFormat, rs: Seq<Rect>, rest: Seq<u8>)
    requires
        f.wf(),
        pf.convertible(),
        forall|i: int|
            0 <= i < rs.len() ==> (#[trigger] rs[i]).inside(f.width as int, f.height as int),
    ensures
        read_rects(all_tiles(f, pf, rs) + rest, rs, cpixel_span(pf).1) == (
            rs.map_values(|r: Rect| seen_from(f, pf, r, r.y as int)),
            rest,
        ),
    decreases rs.len(),
{
    let c = cpixel_span(pf).1;
    let b = all_tiles(f, pf, rs) + rest;
    if rs.len() == 0 {
        assert(b =~= rest);
        assert(rs.map_values(|r: Rect| seen_from(f, pf, r, r.y as int)) =~= seq![]);
    } else {
        let front = rs.drop_last();
        let tail = rect_tiles(f, pf, rs.last()) + rest;
        assert forall|i: int| 0 <= i < front.len() implies (#[trigger] front[i]).inside(
            f.width as int,
            f.height as int,
        ) by {
            assert(front[i] == rs[i]);
        }
        assert(rs[rs.len() - 1].inside(f.width as int, f.height as int));
        lemma_update_reads_back(f, pf, front, tail);
        assert(b =~= all_tiles(f, pf, front) + tail);
        lemma_rect_reads_back(f, pf, rs.last(), rest);
        assert(rs.map_values(|r: Rect| seen_from(f, pf, r, r.y as int)) =~= front.map_values(
            |r: Rect| seen_from(f, pf, r, r.y as int),
        ).push(seen_from(f, pf, rs.last(), rs.last().y as int)));
    }
}

/// A client that decompresses what an update added to the stream finds at every
/// position of every rectangle the pixel that the frame has there.
pub proof fn lemma_client_sees_the_update(
    f: Frame,
    pf: PixelFormat,
    rs: Seq<Rect>,
    rest: Seq<u8>,
    n: int,
    x: int,
    y: int,
)
    requires
        f.wf(),
        pf.convertible(),
        forall|i: int|
            0 <= i < rs.len() ==> (#[trigger] rs[i]).inside(f.width as int, f.height as int),
        0 <= n < rs.len(),
        rs[n].x <= x < rs[n].x + rs[n].w,
        rs[n].y <= y < rs[n].y + rs[n].h,
    ensures
        ({
            let got = read_rects(all_tiles(f, pf, rs) + rest, rs, cpixel_span(pf).1);
            let (k, i) = place_of(rs[n], x, y);
            &&& got.1 == rest
            &&& got.0.len() == rs.len()
            &&& 0 <= k < got.0[n].len()
            &&& 0 <= i < got.0[n][k].len()
            &&& got.0[n][k][i] == cpixel_bytes(pf, f.px@[y * f.width + x])
        }),
{
    lemma_update_reads_back(f, pf, rs, rest);
    lemma_place_in_tiles(f, pf, rs[n], x, y);
}

} // verus!
