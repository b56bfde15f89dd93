//! ZRLE tiles.
//!
//! Each tile is emitted as a solid colour, a packed palette, a palette RLE or
//! raw pixels, whichever is smallest.

use vstd::prelude::*;

use crate::pixel::{cpixel_bytes, cpixel_span, cpixels, PixCodec, PixelFormat};

verus! {

/// Largest palette we will build before giving up and emitting raw pixels.
pub const MAX_PALETTE: usize = 127;

/// The colours of a tile, in the order in which they first appear.
pub open spec fn palette_of(tile: Seq<u32>) -> Seq<u32>
    decreases tile.len(),
{
    if tile.len() == 0 {
        seq![]
    } else {
        let p = palette_of(tile.drop_last());
        if p.contains(tile.last()) {
            p
        } else {
            p.push(tile.last())
        }
    }
}

/// For each pixel, the position of its colour in the palette.
pub open spec fn indices_of(tile: Seq<u32>) -> Seq<u8> {
    Seq::new(tile.len(), |i: int| palette_of(tile).index_of(tile[i]) as u8)
}

/// How many indices of a packed palette of the given size share a byte: eight
/// of one bit, four of two bits or two of four bits.
pub open spec fn per_byte(colours: int) -> int {
    if colours <= 2 {
        8
    } else if colours <= 4 {
        4
    } else {
        2
    }
}

/// Number of different values of an index when `per` of them share a byte.
pub open spec fn index_range(per: int) -> int {
    if per == 8 {
        2
    } else if per == 4 {
        4
    } else {
        16
    }
}

/// Indices read as the digits of a number, first index most significant.
pub open spec fn digits(s: Seq<u8>, m: int) -> int
    decreases s.len(),
{
    if s.len() == 0 {
        0
    } else {
        digits(s.drop_last(), m) * m + s.last()
    }
}

/// What `n` further digits multiply a number by.
pub open spec fn weight(m: int, n: int) -> int
    decreases n,
{
    if n <= 0 {
        1
    } else {
        weight(m, n - 1) * m
    }
}

/// Up to `per` indices in one byte, first index in the top bits, the rest of
/// the byte zero.
pub open spec fn packed_byte(s: Seq<u8>, per: int) -> u8 {
    (digits(s, index_range(per)) * weight(index_range(per), per - s.len())) as u8
}

/// The indices of byte `k` of a row.
pub open spec fn byte_slice(row: Seq<u8>, per: int, k: int) -> Seq<u8> {
    row.subrange(
        k * per,
        if (k + 1) * per <= row.len() {
            (k + 1) * per
        } else {
            row.len() as int
        },
    )
}

/// Bytes that a row of `w` indices takes.
pub open spec fn row_stride(w: int, per: int) -> int {
    (w + per - 1) / per
}

/// A row of indices, packed, padded to a whole byte.
pub open spec fn packed_row(row: Seq<u8>, per: int) -> Seq<u8> {
    Seq::new(
        row_stride(row.len() as int, per) as nat,
        |k: int| packed_byte(byte_slice(row, per, k), per),
    )
}

/// Row `y` of a tile `w` indices wide.
pub open spec fn index_row(indices: Seq<u8>, w: int, y: int) -> Seq<u8> {
    indices.subrange(y * w, y * w + w)
}

/// The first `h` rows, packed.
pub open spec fn packed_rows(indices: Seq<u8>, w: int, h: int, per: int) -> Seq<u8>
    decreases h,
{
    if h <= 0 {
        seq![]
    } else {
        packed_rows(indices, w, h - 1, per) + packed_row(index_row(indices, w, h - 1), per)
    }
}

/// Length of the run of equal indices at `i`.
pub open spec fn run_at(s: Seq<u8>, i: int) -> int
    decreases s.len() - i,
{
    if i + 1 < s.len() && s[i + 1] == s[i] {
        1 + run_at(s, i + 1)
    } else {
        1
    }
}

/// One less than a run length, in bytes that add up to it; the last is below
/// 255.
pub open spec fn run_bytes(n: int) -> Seq<u8>
    decreases n,
{
    if n >= 255 {
        seq![255u8] + run_bytes(n - 255)
    } else {
        seq![n as u8]
    }
}

/// A run of one index: the bare index if it is alone, else the index with its
/// top bit set and the length.
pub open spec fn run_code(v: u8, n: int) -> Seq<u8> {
    if n == 1 {
        seq![v]
    } else {
        seq![v | 0x80] + run_bytes(n - 1)
    }
}

/// The runs of indices from position `i` on.
pub open spec fn rle_from(s: Seq<u8>, i: int) -> Seq<u8>
    decreases s.len() - i,
    via rle_from_shrinks
{
    if i >= s.len() {
        seq![]
    } else {
        run_code(s[i], run_at(s, i)) + rle_from(s, i + run_at(s, i))
    }
}

#[via_fn]
proof fn rle_from_shrinks(s: Seq<u8>, i: int) {
    if i < s.len() {
        lemma_run_at(s, i);
    }
}

/// A run is of one value and as long as it can be.
pub proof fn lemma_run_at(s: Seq<u8>, i: int)
    requires
        i < s.len(),
    ensures
        1 <= run_at(s, i) <= s.len() - i,
        0 <= i ==> forall|j: int| i <= j < i + run_at(s, i) ==> #[trigger] s[j] == s[i],
        i + run_at(s, i) < s.len() ==> s[i + run_at(s, i)] != s[i + run_at(s, i) - 1],
    decreases s.len() - i,
{
    if i + 1 < s.len() && s[i + 1] == s[i] {
        lemma_run_at(s, i + 1);
        if 0 <= i {
            assert forall|j: int| i <= j < i + run_at(s, i) implies #[trigger] s[j] == s[i] by {
                if j > i {
                    assert(s[j] == s[i + 1]);
                }
            }
        }
    }
}

/// The ways to code a tile.
pub enum Coding {
    Raw,
    Solid,
    Packed,
    Runs,
}

/// Which codings a tile has: a solid tile needs one colour, a packed palette
/// two to sixteen, a palette RLE two to the most a palette may hold.
pub open spec fn available(tile: Seq<u32>, c: Coding) -> bool {
    let n = palette_of(tile).len();
    match c {
        Coding::Raw => true,
        Coding::Solid => n == 1,
        Coding::Packed => 2 <= n <= 16,
        Coding::Runs => 2 <= n <= MAX_PALETTE,
    }
}

/// The bytes of a tile in one coding.
pub open spec fn coded(tile: Seq<u32>, w: int, h: int, pf: PixelFormat, c: Coding) -> Seq<u8> {
    let p = palette_of(tile);
    match c {
        Coding::Raw => seq![0u8] + cpixels(pf, tile),
        Coding::Solid => seq![1u8] + cpixels(pf, p),
        Coding::Packed => seq![p.len() as u8] + cpixels(pf, p) + packed_rows(
            indices_of(tile),
            w,
            h,
            per_byte(p.len() as int),
        ),
        Coding::Runs => seq![(128 + p.len()) as u8] + cpixels(pf, p) + rle_from(
            indices_of(tile),
            0,
        ),
    }
}

/// The coding of a tile: the smallest; between equals a solid tile or a packed
/// palette comes first, then raw pixels.
pub open spec fn best_coding(tile: Seq<u32>, w: int, h: int, pf: PixelFormat) -> Coding {
    let raw = coded(tile, w, h, pf, Coding::Raw).len();
    let packed = coded(tile, w, h, pf, Coding::Packed).len();
    let runs = coded(tile, w, h, pf, Coding::Runs).len();
    if available(tile, Coding::Solid) {
        Coding::Solid
    } else if available(tile, Coding::Packed) && packed <= raw && packed <= runs {
        Coding::Packed
    } else if available(tile, Coding::Runs) && runs < raw {
        Coding::Runs
    } else {
        Coding::Raw
    }
}

/// The bytes of a tile.
pub open spec fn tile_bytes(tile: Seq<u32>, w: int, h: int, pf: PixelFormat) -> Seq<u8> {
    coded(tile, w, h, pf, best_coding(tile, w, h, pf))
}

pub(crate) proof fn lemma_palette(tile: Seq<u32>)
    ensures
        palette_of(tile).no_duplicates(),
        palette_of(tile).len() <= tile.len(),
        forall|i: int| 0 <= i < tile.len() ==> #[trigger] palette_of(tile).contains(tile[i]),
        tile.len() > 0 ==> palette_of(tile).len() > 0,
    decreases tile.len(),
{
    if tile.len() > 0 {
        let t = tile.drop_last();
        let p = palette_of(t);
        lemma_palette(t);
        assert forall|i: int| 0 <= i < tile.len() implies #[trigger] palette_of(tile).contains(
            tile[i],
        ) by {
            if i < t.len() {
                assert(p.contains(t[i]));
                let k = choose|k: int| 0 <= k < p.len() && p[k] == t[i];
                assert(palette_of(tile)[k] == tile[i]);
            } else if !p.contains(tile.last()) {
                assert(palette_of(tile)[p.len() as int] == tile[i]);
            }
        }
    }
}

proof fn lemma_palette_grows(tile: Seq<u32>, k: int)
    requires
        0 <= k <= tile.len(),
    ensures
        palette_of(tile.take(k)).len() <= palette_of(tile).len(),
    decreases tile.len() - k,
{
    if k < tile.len() {
        assert(tile.take(k + 1).drop_last() =~= tile.take(k));
        lemma_palette_grows(tile, k + 1);
    } else {
        assert(tile.take(k) =~= tile);
    }
}

/// Position of a colour in the palette.
fn find_colour(palette: &Vec<u32>, px: u32) -> (r: Option<usize>)
    ensures
        match r {
            Some(i) => i < palette@.len() && palette@[i as int] == px,
            None => !palette@.contains(px),
        },
{
    for i in 0..palette.len()
        invariant
            forall|j: int| 0 <= j < i ==> palette@[j] != px,
    {
        if palette[i] == px {
            return Some(i);
        }
    }
    None
}

/// Fill `palette` and `indices`, or give up when there are too many colours.
///
/// A one-entry cache covers most pixels: screen content is extremely local, so
/// this is usually a single comparison per pixel.
fn build_palette(tile: &[u32], palette: &mut Vec<u32>, indices: &mut Vec<u8>) -> (ok: bool)
    ensures
        ok == (palette_of(tile@).len() <= MAX_PALETTE),
        ok ==> final(palette)@ == palette_of(tile@),
        ok ==> final(indices)@ == indices_of(tile@),
{
    palette.clear();
    indices.clear();
    let mut last: usize = 0;
    assert(tile@.take(0) =~= Seq::<u32>::empty());
    for k in 0..tile.len()
        invariant
            palette@ == palette_of(tile@.take(k as int)),
            palette@.len() <= MAX_PALETTE,
            k > 0 ==> last < palette@.len(),
            k == 0 ==> palette@.len() == 0,
            indices@.len() == k,
            forall|i: int|
                0 <= i < k ==> #[trigger] indices@[i] < palette@.len() && palette@[indices@[i] as int]
                    == tile@[i],
    {
        let px: u32 = tile[k];
        let ghost seen = palette@;
        proof {
            assert(tile@.take(k + 1).drop_last() =~= tile@.take(k as int));
            assert(tile@.take(k + 1).last() == px);
        }
        if palette.len() > 0 && palette[last] == px {
            assert(seen[last as int] == px);
            indices.push(last as u8);
        } else {
            match find_colour(palette, px) {
                Some(i) => {
                    assert(seen[i as int] == px);
                    last = i;
                    indices.push(i as u8);
                },
                None => {
                    if palette.len() >= MAX_PALETTE {
                        proof {
                            lemma_palette_grows(tile@, k + 1);
                        }
                        return false;
                    }
                    palette.push(px);
                    last = palette.len() - 1;
                    indices.push(last as u8);
                },
            }
        }
    }
    proof {
        assert(tile@.take(tile@.len() as int) =~= tile@);
        lemma_palette(tile@);
        let p = palette_of(tile@);
        assert forall|i: int| 0 <= i < tile@.len() implies indices@[i] == indices_of(tile@)[i] by {
            assert(p.contains(tile@[i]));
            let a = p.index_of(tile@[i]);
            let b = indices@[i] as int;
            assert(p[a] == tile@[i] && p[b] == tile@[i]);
        }
        assert(indices@ =~= indices_of(tile@));
    }
    true
}

/// Append every pixel of `px` as a CPIXEL.
fn push_cpixels(codec: &PixCodec, px: &[u32], out: &mut Vec<u8>)
    requires
        codec.wf(),
        codec.pf.convertible(),
    ensures
        final(out)@ == old(out)@ + cpixels(codec.pf, px@),
{
    assert(px@.take(0) =~= Seq::<u32>::empty());
    assert(out@ =~= old(out)@ + cpixels(codec.pf, px@.take(0)));
    for i in 0..px.len()
        invariant
            codec.wf(),
            codec.pf.convertible(),
            out@ == old(out)@ + cpixels(codec.pf, px@.take(i as int)),
    {
        codec.push_cpixel(px[i], out);
        assert(px@.take(i + 1).drop_last() =~= px@.take(i as int));
        assert(out@ =~= old(out)@ + cpixels(codec.pf, px@.take(i + 1)));
    }
    assert(px@.take(px@.len() as int) =~= px@);
}

pub(crate) proof fn lemma_digits(s: Seq<u8>, m: int)
    requires
        1 <= m,
        forall|i: int| 0 <= i < s.len() ==> #[trigger] s[i] < m,
    ensures
        0 <= digits(s, m) < weight(m, s.len() as int),
    decreases s.len(),
{
    if s.len() > 0 {
        let d = digits(s.drop_last(), m);
        let wt = weight(m, s.len() - 1);
        lemma_digits(s.drop_last(), m);
        assert(s[s.len() - 1] < m);
        assert(d * m + s.last() < wt * m) by (nonlinear_arith)
            requires
                0 <= d < wt,
                s.last() < m,
                1 <= m,
        ;
        assert(0 <= d * m) by (nonlinear_arith)
            requires
                0 <= d,
                1 <= m,
        ;
    }
}

pub(crate) proof fn lemma_weight_add(m: int, a: int, b: int)
    requires
        1 <= m,
        0 <= a,
        0 <= b,
    ensures
        weight(m, a) * weight(m, b) == weight(m, a + b),
        weight(m, b) >= 1,
    decreases b,
{
    if b > 0 {
        lemma_weight_add(m, a, b - 1);
        let x = weight(m, a);
        let y = weight(m, b - 1);
        assert(x * (y * m) == (x * y) * m) by (nonlinear_arith);
        assert(y * m >= 1) by (nonlinear_arith)
            requires
                y >= 1,
                m >= 1,
        ;
    }
}

proof fn lemma_byte_weight(per: int)
    requires
        per == 8 || per == 4 || per == 2,
    ensures
        weight(index_range(per), per) == 256,
{
    reveal_with_fuel(weight, 9);
    if per == 8 {
        assert(weight(2, 1) == 2 && weight(2, 2) == 4 && weight(2, 3) == 8 && weight(2, 4) == 16
            && weight(2, 5) == 32 && weight(2, 6) == 64 && weight(2, 7) == 128 && weight(2, 8)
            == 256);
    } else if per == 4 {
        assert(weight(4, 1) == 4 && weight(4, 2) == 16 && weight(4, 3) == 64 && weight(4, 4)
            == 256);
    } else {
        assert(weight(16, 1) == 16 && weight(16, 2) == 256);
    }
}

pub(crate) proof fn lemma_packed_fits(s: Seq<u8>, per: int)
    requires
        per == 8 || per == 4 || per == 2,
        s.len() <= per,
        forall|i: int| 0 <= i < s.len() ==> #[trigger] s[i] < index_range(per),
    ensures
        0 <= digits(s, index_range(per)) * weight(index_range(per), per - s.len()) < 256,
        forall|k: int|
            0 <= k <= per - s.len() ==> 0 <= digits(s, index_range(per)) * #[trigger] weight(
                index_range(per),
                k,
            ) < 256,
{
    let m = index_range(per);
    lemma_byte_weight(per);
    lemma_digits(s, m);
    let d = digits(s, m);
    assert forall|k: int| 0 <= k <= per - s.len() implies 0 <= d * #[trigger] weight(m, k)
        < 256 by {
        lemma_weight_add(m, s.len() as int, k);
        lemma_weight_add(m, s.len() + k, per - s.len() - k);
        let a = weight(m, s.len() as int);
        let b = weight(m, k);
        let c = weight(m, per - s.len() - k);
        assert(0 <= d * b < 256) by (nonlinear_arith)
            requires
                0 <= d < a,
                b >= 1,
                c >= 1,
                (a * b) * c == 256,
        ;
    }
}

/// One packed byte.
fn pack_byte(s: &[u8], per: usize) -> (b: u8)
    requires
        per == 8 || per == 4 || per == 2,
        s@.len() <= per,
        forall|i: int| 0 <= i < s@.len() ==> #[trigger] s@[i] < index_range(per as int),
    ensures
        b == packed_byte(s@, per as int),
{
    let m: u32 = if per == 8 {
        2
    } else if per == 4 {
        4
    } else {
        16
    };
    let mut acc: u32 = 0;
    let n: usize = s.len();
    for j in 0..n
        invariant
            per == 8 || per == 4 || per == 2,
            n == s@.len() <= per,
            m == index_range(per as int),
            forall|i: int| 0 <= i < s@.len() ==> #[trigger] s@[i] < index_range(per as int),
            acc == digits(s@.take(j as int), m as int),
    {
        proof {
            let head = s@.take(j + 1);
            assert(head.drop_last() =~= s@.take(j as int));
            lemma_packed_fits(head, per as int);
            assert(digits(head, m as int) * weight(m as int, 0) < 256);
            lemma_packed_fits(s@.take(j as int), per as int);
            assert(acc * weight(m as int, 0) < 256);
            assert(acc * m < 256 * 16) by (nonlinear_arith)
                requires
                    acc < 256,
                    m <= 16,
            ;
        }
        acc = acc * m + s[j] as u32;
    }
    assert(s@.take(n as int) =~= s@);
    let ghost d = digits(s@, m as int);
    let mut left: usize = per - n;
    while left > 0
        invariant
            per == 8 || per == 4 || per == 2,
            n == s@.len() <= per,
            left <= per - n,
            m == index_range(per as int),
            forall|i: int| 0 <= i < s@.len() ==> #[trigger] s@[i] < index_range(per as int),
            d == digits(s@, m as int),
            acc == d * weight(m as int, per - n - left),
        decreases left,
    {
        proof {
            lemma_packed_fits(s@, per as int);
            let k = per - n - left;
            assert(d * weight(m as int, k) < 256);
            assert(acc * m < 256 * 16) by (nonlinear_arith)
                requires
                    acc < 256,
                    m <= 16,
            ;
            let wt = weight(m as int, k);
            assert((d * wt) * m == d * (wt * m)) by (nonlinear_arith);
        }
        acc = acc * m;
        left = left - 1;
    }
    proof {
        lemma_packed_fits(s@, per as int);
    }
    acc as u8
}

/// Bytes that a packed row takes.
fn stride_of(w: usize, per: usize) -> (n: usize)
    requires
        per == 8 || per == 4 || per == 2,
    ensures
        n == row_stride(w as int, per as int),
{
    if per == 8 {
        w / 8 + if w % 8 == 0 { 0 } else { 1 }
    } else if per == 4 {
        w / 4 + if w % 4 == 0 { 0 } else { 1 }
    } else {
        w / 2 + w % 2
    }
}

/// Pack palette indices, `bits` per pixel, MSB first, each row padded to a
/// whole byte.
pub fn pack_indices(indices: &[u8], w: usize, h: usize, bits: u32, out: &mut Vec<u8>)
    requires
        bits == 1 || bits == 2 || bits == 4,
        w * h <= indices@.len(),
        forall|i: int| 0 <= i < w * h ==> #[trigger] indices@[i] < index_range(8int / (bits as int)),
    ensures
        final(out)@ == old(out)@ + packed_rows(indices@, w as int, h as int, 8int / (bits as int)),
{
    let per: usize = if bits == 1 {
        8
    } else if bits == 2 {
        4
    } else {
        2
    };
    assert(per == 8int / (bits as int));
    let stride: usize = stride_of(w, per);
    let ghost base = out@;
    let len: usize = indices.len();
    assert(out@ =~= base + packed_rows(indices@, w as int, 0, per as int));
    for y in 0..h
        invariant
            per == 8 || per == 4 || per == 2,
            len == indices@.len(),
            w * h <= len,
            stride == row_stride(w as int, per as int),
            forall|i: int| 0 <= i < w * h ==> #[trigger] indices@[i] < index_range(per as int),
            out@ == base + packed_rows(indices@, w as int, y as int, per as int),
    {
        proof {
            assert(0 <= y * w && y * w + w <= w * h) by (nonlinear_arith)
                requires
                    0 <= y < h,
                    0 <= w,
            ;
        }
        let start: usize = y * w;
        let row: &[u8] = &indices[start..start + w];
        let ghost before = out@;
        assert(row@ =~= index_row(indices@, w as int, y as int));
        assert(out@ =~= before + packed_row(row@, per as int).take(0));
        for k in 0..stride
            invariant
                per == 8 || per == 4 || per == 2,
                row@.len() == w,
                stride == row_stride(w as int, per as int),
                forall|i: int| 0 <= i < w ==> #[trigger] row@[i] < index_range(per as int),
                out@ == before + packed_row(row@, per as int).take(k as int),
        {
            assert(k * per < w) by (nonlinear_arith)
                requires
                    per >= 1,
                    0 <= k < stride,
                    stride == (w + per - 1) / (per as int),
            ;
            let a: usize = k * per;
            let b: usize = if w - a <= per {
                w
            } else {
                a + per
            };
            let piece: &[u8] = &row[a..b];
            assert((k + 1) * per == k * per + per) by (nonlinear_arith);
            assert(piece@ =~= byte_slice(row@, per as int, k as int));
            out.push(pack_byte(piece, per));
            assert(out@ =~= before + packed_row(row@, per as int).take(k + 1));
        }
        assert(packed_row(row@, per as int).take(stride as int) =~= packed_row(row@, per as int));
        assert(out@ =~= base + packed_rows(indices@, w as int, y + 1, per as int));
    }
}

proof fn lemma_run_bytes_len(n: int)
    requires
        0 <= n,
    ensures
        run_bytes(n).len() == 1 + n / 255,
    decreases n,
{
    if n >= 255 {
        lemma_run_bytes_len(n - 255);
    }
}

/// Length of the run at `i`.
fn run_length(indices: &[u8], i: usize) -> (run: usize)
    requires
        i < indices@.len(),
    ensures
        run == run_at(indices@, i as int),
        1 <= run <= indices@.len() - i,
{
    let n: usize = indices.len();
    let v: u8 = indices[i];
    let mut run: usize = 1;
    proof {
        lemma_run_at(indices@, i as int);
    }
    while i + run < n && indices[i + run] == v
        invariant
            n == indices@.len(),
            i < n,
            1 <= run <= n - i,
            v == indices@[i as int],
            indices@[i + run - 1] == v,
            run - 1 + run_at(indices@, i + run - 1) == run_at(indices@, i as int),
        decreases n - run,
    {
        run = run + 1;
    }
    run
}

/// Byte count a palette RLE body would take, used to pick the cheaper coding.
pub fn rle_size(indices: &[u8]) -> (size: usize)
    ensures
        size == rle_from(indices@, 0).len(),
        size <= indices@.len(),
{
    let n: usize = indices.len();
    let mut size: usize = 0;
    let mut i: usize = 0;
    while i < n
        invariant
            n == indices@.len(),
            i <= n,
            size <= i,
            size + rle_from(indices@, i as int).len() == rle_from(indices@, 0).len(),
        decreases n - i,
    {
        let run: usize = run_length(indices, i);
        proof {
            if run > 1 {
                lemma_run_bytes_len(run - 1);
            }
            assert(run > 1 ==> 2 + (run - 1) / 255 <= run);
        }
        size = size + (1 + if run > 1 {
            1 + (run - 1) / 255
        } else {
            0
        });
        i = i + run;
    }
    size
}

/// Append the palette RLE body.
pub fn write_palette_rle(indices: &[u8], out: &mut Vec<u8>)
    ensures
        final(out)@ == old(out)@ + rle_from(indices@, 0),
{
    let n: usize = indices.len();
    let ghost base = out@;
    let mut i: usize = 0;
    while i < n
        invariant
            n == indices@.len(),
            i <= n,
            out@ + rle_from(indices@, i as int) == base + rle_from(indices@, 0),
        decreases n - i,
    {
        let v: u8 = indices[i];
        let run: usize = run_length(indices, i);
        let ghost before = out@;
        if run == 1 {
            out.push(v);
        } else {
            out.push(v | 0x80);
            let mut len: usize = run - 1;
            let ghost head = out@;
            while len >= 255
                invariant
                    out@ + run_bytes(len as int) == head + run_bytes(run - 1),
                decreases len,
            {
                let ghost mid = out@;
                out.push(255);
                len = len - 255;
                assert(out@ + run_bytes(len as int) =~= mid + (seq![255u8] + run_bytes(
                    len as int,
                )));
            }
            let ghost mid = out@;
            out.push(len as u8);
            assert(out@ =~= mid + run_bytes(len as int));
        }
        assert(out@ =~= before + run_code(v, run as int));
        i = i + run;
        assert(out@ + rle_from(indices@, i as int) =~= before + (run_code(v, run as int)
            + rle_from(indices@, i as int)));
    }
    assert(out@ =~= out@ + rle_from(indices@, i as int));
}

pub(crate) proof fn lemma_cpixels_len(pf: PixelFormat, px: Seq<u32>)
    requires
        pf.convertible(),
    ensures
        cpixels(pf, px).len() == px.len() * cpixel_span(pf).1,
        0 <= cpixel_span(pf).0,
        0 <= cpixel_span(pf).1,
        cpixel_span(pf).0 + cpixel_span(pf).1 <= 4,
    decreases px.len(),
{
    let c = cpixel_span(pf).1;
    if px.len() > 0 {
        lemma_cpixels_len(pf, px.drop_last());
        assert(cpixel_bytes(pf, px.last()).len() == c);
        let n = px.len() as int;
        assert((n - 1) * c + c == n * c) by (nonlinear_arith);
    } else {
        assert(0 * c == 0) by (nonlinear_arith);
    }
}

pub(crate) proof fn lemma_packed_rows_len(indices: Seq<u8>, w: int, h: int, per: int)
    requires
        0 <= w,
        0 <= h,
        0 < per,
        w * h <= indices.len(),
    ensures
        packed_rows(indices, w, h, per).len() == row_stride(w, per) * h,
    decreases h,
{
    let stride = row_stride(w, per);
    if h > 0 {
        assert(0 <= (h - 1) * w && (h - 1) * w + w <= w * h) by (nonlinear_arith)
            requires
                0 < h,
                0 <= w,
        ;
        assert(w * (h - 1) <= w * h) by (nonlinear_arith)
            requires
                0 < h,
                0 <= w,
        ;
        lemma_packed_rows_len(indices, w, h - 1, per);
        assert(index_row(indices, w, h - 1).len() == w);
        assert(stride >= 0) by (nonlinear_arith)
            requires
                stride == (w + per - 1) / per,
                0 <= w,
                0 < per,
        ;
        assert(packed_row(index_row(indices, w, h - 1), per).len() == stride);
        assert(stride * (h - 1) + stride == stride * h) by (nonlinear_arith);
    } else {
        assert(stride * 0 == 0) by (nonlinear_arith);
    }
}

pub(crate) proof fn lemma_index_bound(tile: Seq<u32>)
    requires
        palette_of(tile).len() <= MAX_PALETTE,
    ensures
        indices_of(tile).len() == tile.len(),
        forall|i: int|
            0 <= i < tile.len() ==> #[trigger] indices_of(tile)[i] < palette_of(tile).len(),
        forall|i: int|
            0 <= i < tile.len() ==> palette_of(tile)[#[trigger] indices_of(tile)[i] as int]
                == tile[i],
{
    lemma_palette(tile);
    assert forall|i: int| 0 <= i < tile.len() implies #[trigger] indices_of(tile)[i] < palette_of(
        tile,
    ).len() && palette_of(tile)[indices_of(tile)[i] as int] == tile[i] by {
        assert(palette_of(tile).contains(tile[i]));
    }
}

/// Append the smallest coding of a tile `w` pixels wide and `h` high.
///
/// `palette` and `indices` are scratch space; what they hold does not matter.
pub fn encode_tile(
    tile: &[u32],
    w: usize,
    h: usize,
    codec: &PixCodec,
    palette: &mut Vec<u32>,
    indices: &mut Vec<u8>,
    out: &mut Vec<u8>,
)
    requires
        codec.wf(),
        codec.pf.convertible(),
        tile@.len() == w * h,
        4 * tile@.len() + 508 <= usize::MAX,
    ensures
        final(out)@ == old(out)@ + tile_bytes(tile@, w as int, h as int, codec.pf),
{
    let ghost pf = codec.pf;
    let ghost base = out@;
    let ghost (wi, hi) = (w as int, h as int);
    let n: usize = tile.len();
    let csize: usize = codec.cpixel_size();
    proof {
        lemma_palette(tile@);
        lemma_cpixels_len(pf, tile@);
        lemma_cpixels_len(pf, palette_of(tile@));
        assert(n * csize <= 4 * n) by (nonlinear_arith)
            requires
                0 <= n,
                0 <= csize <= 4,
        ;
    }
    if !build_palette(tile, palette, indices) {
        out.push(0);  // raw
        push_cpixels(codec, tile, out);
        assert(out@ =~= base + coded(tile@, wi, hi, pf, Coding::Raw));
        return;
    }
    proof {
        lemma_index_bound(tile@);
    }
    let colours: usize = palette.len();
    if colours == 1 {
        out.push(1);  // solid
        push_cpixels(codec, palette.as_slice(), out);
        assert(out@ =~= base + coded(tile@, wi, hi, pf, Coding::Solid));
        return;
    }
    let raw_len: usize = n * csize;
    assert(colours * csize <= 508) by (nonlinear_arith)
        requires
            0 <= colours <= 127,
            0 <= csize <= 4,
    ;
    let runs_len: usize = colours * csize + rle_size(indices.as_slice());
    if colours >= 2 && colours <= 16 {
        let (bits, per): (u32, usize) = if colours == 2 {
            (1, 8)
        } else if colours <= 4 {
            (2, 4)
        } else {
            (4, 2)
        };
        let stride: usize = stride_of(w, per);
        proof {
            lemma_packed_rows_len(indices@, wi, hi, per as int);
            assert(stride <= w) by (nonlinear_arith)
                requires
                    stride == (w + per - 1) / (per as int),
                    0 <= w,
                    2 <= per,
            ;
            assert(0 <= stride * h <= w * h) by (nonlinear_arith)
                requires
                    0 <= stride <= w,
                    0 <= h,
            ;
        }
        let packed_len: usize = colours * csize + stride * h;
        assert(coded(tile@, wi, hi, pf, Coding::Packed).len() == 1 + packed_len);
        assert(coded(tile@, wi, hi, pf, Coding::Runs).len() == 1 + runs_len);
        if packed_len <= raw_len && packed_len <= runs_len {
            out.push(colours as u8);
            push_cpixels(codec, palette.as_slice(), out);
            pack_indices(indices.as_slice(), w, h, bits, out);
            assert(out@ =~= base + coded(tile@, wi, hi, pf, Coding::Packed));
            return;
        }
    }
    assert(coded(tile@, wi, hi, pf, Coding::Runs).len() == 1 + runs_len);
    if colours >= 2 && runs_len < raw_len {
        out.push(128 + colours as u8);
        push_cpixels(codec, palette.as_slice(), out);
        write_palette_rle(indices.as_slice(), out);
        assert(out@ =~= base + coded(tile@, wi, hi, pf, Coding::Runs));
    } else {
        out.push(0);  // raw
        push_cpixels(codec, tile, out);
        assert(out@ =~= base + coded(tile@, wi, hi, pf, Coding::Raw));
    }
}

/// The size of a palette RLE body is what writing it adds to a message: nothing
/// for no indices, and never more than one byte for each.
pub proof fn lemma_rle_size_is_what_is_written(indices: Seq<u8>, before: Seq<u8>, after: Seq<u8>)
    requires
        after == before + rle_from(indices, 0),
    ensures
        rle_from(indices, 0).len() == after.len() - before.len(),
        rle_from(indices, 0).len() <= indices.len(),
        indices.len() == 0 ==> after == before,
{
    lemma_rle_fits(indices, 0);
    assert(indices.len() == 0 ==> after =~= before);
}

proof fn lemma_rle_fits(s: Seq<u8>, i: int)
    requires
        0 <= i <= s.len(),
    ensures
        rle_from(s, i).len() <= s.len() - i,
    decreases s.len() - i,
{
    if i < s.len() {
        lemma_run_at(s, i);
        let run = run_at(s, i);
        if run > 1 {
            lemma_run_bytes_len(run - 1);
            assert(2 + (run - 1) / 255 <= run);
        }
        lemma_rle_fits(s, i + run);
    }
}

/// No available coding of a tile is smaller than the one that is sent.
pub proof fn lemma_smallest_coding_is_sent(
    tile: Seq<u32>,
    w: int,
    h: int,
    pf: PixelFormat,
    c: Coding,
)
    requires
        pf.convertible(),
        tile.len() == w * h,
        available(tile, c),
    ensures
        tile_bytes(tile, w, h, pf).len() <= coded(tile, w, h, pf, c).len(),
{
    lemma_palette(tile);
    lemma_cpixels_len(pf, tile);
    lemma_cpixels_len(pf, palette_of(tile));
    if available(tile, Coding::Solid) {
        let k = cpixel_span(pf).1;
        let n = tile.len() as int;
        assert(1 * k <= n * k) by (nonlinear_arith)
            requires
                1 <= n,
                0 <= k,
        ;
    }
}

/// Which codings a tile has goes by how many colours it has: one for a solid tile, two to
/// sixteen for a packed palette, two to 127 for a palette RLE; raw pixels it always has.
pub proof fn lemma_codings_go_by_the_colours(tile: Seq<u32>)
    ensures
        ({
            let n = tile.to_set().len();
            &&& available(tile, Coding::Raw)
            &&& available(tile, Coding::Solid) <==> n == 1
            &&& available(tile, Coding::Packed) <==> 2 <= n <= 16
            &&& available(tile, Coding::Runs) <==> 2 <= n <= 127
        }),
{
    lemma_palette(tile);
    lemma_palette_has_no_other(tile);
    let p = palette_of(tile);
    p.unique_seq_to_set();
    assert(p.to_set() =~= tile.to_set()) by {
        assert forall|c: u32| p.to_set().contains(c) <==> tile.to_set().contains(c) by {
            if tile.contains(c) {
                let i = choose|i: int| 0 <= i < tile.len() && tile[i] == c;
                assert(p.contains(tile[i]));
            }
            if p.contains(c) {
                let i = choose|i: int| 0 <= i < p.len() && p[i] == c;
                assert(tile.contains(p[i]));
            }
        }
    }
}

proof fn lemma_palette_has_no_other(tile: Seq<u32>)
    ensures
        forall|i: int| 0 <= i < palette_of(tile).len() ==> tile.contains(#[trigger] palette_of(tile)[i]),
    decreases tile.len(),
{
    if tile.len() > 0 {
        let t = tile.drop_last();
        lemma_palette_has_no_other(t);
        let (p, q) = (palette_of(tile), palette_of(t));
        assert forall|i: int| 0 <= i < p.len() implies tile.contains(#[trigger] p[i]) by {
            if i < q.len() {
                assert(t.contains(q[i]));
                let k = choose|k: int| 0 <= k < t.len() && t[k] == q[i];
                assert(tile[k] == p[i]);
            } else {
                assert(tile[tile.len() - 1] == p[i]);
            }
        }
    }
}

} // verus!
