//! ZRLE encoder (RFB encoding 16).
//!
//! The rectangle is split into 64x64 tiles, and the whole stream goes through
//! one zlib stream that lives as long as the client session.

use flate2::Compress;
use vstd::prelude::*;

use crate::bytes::{be32, low32, low_word, push_all, push_be32};
use crate::pixel::{PixCodec, PixelFormat};
use crate::rfb::tile::{encode_tile, tile_bytes};
use crate::rfb::zlib::{
    compress_all, consumed_of, decompresses_to, open_stream, pending_of, produced_of,
    stuck,
};
use crate::screen::frame::{lemma_row_in_buffer, min_of, Frame, Rect, TILE};

verus! {

/// The pixels of the `w` x `h` rectangle at `(x, y)`, row by row.
pub open spec fn pixels_at(f: Frame, x: int, y: int, w: int, h: int) -> Seq<u32>
    decreases h,
{
    if h <= 0 {
        seq![]
    } else {
        pixels_at(f, x, y, w, h - 1) + f.row_at(y + h - 1, x, w)
    }
}

/// Extent of the tile at `pos` in a rectangle that ends at `end`.
pub open spec fn tile_side(pos: int, end: int) -> int {
    min_of(TILE as int, end - pos)
}

/// The tile of `r` with its top left corner at `(tx, ty)`.
pub open spec fn tile_at(f: Frame, r: Rect, tx: int, ty: int) -> Seq<u32> {
    pixels_at(f, tx, ty, tile_side(tx, r.x + r.w), tile_side(ty, r.y + r.h))
}

/// The tiles of one band from column `tx` on.
pub open spec fn band_bytes(f: Frame, pf: PixelFormat, r: Rect, tx: int, ty: int) -> Seq<u8>
    decreases r.x + r.w - tx,
{
    if tx >= r.x + r.w {
        seq![]
    } else {
        tile_bytes(
            tile_at(f, r, tx, ty),
            tile_side(tx, r.x + r.w),
            tile_side(ty, r.y + r.h),
            pf,
        ) + band_bytes(f, pf, r, tx + tile_side(tx, r.x + r.w), ty)
    }
}

/// The tiles of `r` from row `ty` on, left to right and top to bottom.
pub open spec fn tiles_from(f: Frame, pf: PixelFormat, r: Rect, ty: int) -> Seq<u8>
    decreases r.y + r.h - ty,
{
    if ty >= r.y + r.h {
        seq![]
    } else {
        band_bytes(f, pf, r, r.x as int, ty) + tiles_from(
            f,
            pf,
            r,
            ty + tile_side(ty, r.y + r.h),
        )
    }
}

/// The tiles of `r`, before compression.
pub open spec fn rect_tiles(f: Frame, pf: PixelFormat, r: Rect) -> Seq<u8> {
    tiles_from(f, pf, r, r.y as int)
}

pub(crate) proof fn lemma_pixels_len(f: Frame, x: int, y: int, w: int, h: int)
    requires
        f.wf(),
        0 <= x,
        0 <= y,
        0 <= w,
        0 <= h,
        x + w <= f.width,
        y + h <= f.height,
    ensures
        pixels_at(f, x, y, w, h).len() == w * h,
    decreases h,
{
    if h > 0 {
        lemma_pixels_len(f, x, y, w, h - 1);
        lemma_row_in_buffer(f.width as int, f.height as int, y + h - 1, x, w);
        assert(w * (h - 1) + w == w * h) by (nonlinear_arith);
    } else {
        assert(w * h == 0) by (nonlinear_arith)
            requires
                h == 0,
        ;
    }
}

/// Copy a rectangle of the frame, row by row.
fn copy_pixels(frame: &Frame, x: u32, y: u32, w: u32, h: u32, tile: &mut Vec<u32>)
    requires
        frame.wf(),
        x + w <= frame.width,
        y + h <= frame.height,
    ensures
        final(tile)@ == pixels_at(*frame, x as int, y as int, w as int, h as int),
{
    tile.clear();
    for row in 0..h
        invariant
            frame.wf(),
            x + w <= frame.width,
            y + h <= frame.height,
            tile@ == pixels_at(*frame, x as int, y as int, w as int, row as int),
    {
        proof {
            lemma_row_in_buffer(
                frame.width as int,
                frame.height as int,
                y + row,
                x as int,
                w as int,
            );
        }
        let ghost seen = tile@;
        tile.extend_from_slice(frame.row(y + row, x, w));
        assert(tile@ =~= seen + frame.row_at(y + row, x as int, w as int));
    }
}

fn side_of(pos: u32, end: u32) -> (n: u32)
    requires
        pos < end,
    ensures
        n == tile_side(pos as int, end as int),
        1 <= n <= TILE,
{
    if end - pos < TILE {
        end - pos
    } else {
        TILE
    }
}

pub struct ZrleEncoder {
    comp: Compress,
    /// Nothing waits in the stream to be written.
    flushed: bool,
    raw: Vec<u8>,
    tile: Vec<u32>,
    palette: Vec<u32>,
    indices: Vec<u8>,
}

impl ZrleEncoder {
    pub closed spec fn wf(self) -> bool {
        self.flushed ==> !pending_of(self.comp)
    }

    /// Every byte of tiles that has gone into the session's zlib stream.
    pub closed spec fn taken(self) -> Seq<u8> {
        consumed_of(self.comp)
    }

    /// Every byte of the session's zlib stream so far.
    pub closed spec fn sent(self) -> Seq<u8> {
        produced_of(self.comp)
    }

    /// Whether the session's zlib stream goes no further with `n` bytes: the
    /// compressor returned an error, or has run out of the 64 bits in which it
    /// counts.
    pub closed spec fn stuck_with(self, n: int) -> bool {
        stuck(self.comp, n)
    }

    pub fn new() -> (e: Self)
        ensures
            e.wf(),
            e.taken() == Seq::<u8>::empty(),
            e.sent() == Seq::<u8>::empty(),
    {
        ZrleEncoder {
            comp: open_stream(1),
            flushed: true,
            raw: Vec::new(),
            tile: Vec::new(),
            palette: Vec::new(),
            indices: Vec::new(),
        }
    }

    /// Fill `raw` with the tiles of `r`.
    fn fill_raw(&mut self, frame: &Frame, codec: &PixCodec, r: Rect)
        requires
            codec.wf(),
            codec.pf.convertible(),
            frame.wf(),
            r.inside(frame.width as int, frame.height as int),
        ensures
            final(self).comp == old(self).comp,
            final(self).flushed == old(self).flushed,
            final(self).raw@ == rect_tiles(*frame, codec.pf, r),
    {
        self.raw.clear();
        let right: u32 = r.x + r.w;
        let bottom: u32 = r.y + r.h;
        let mut ty: u32 = r.y;
        assert(self.raw@ + tiles_from(*frame, codec.pf, r, ty as int) =~= rect_tiles(
            *frame,
            codec.pf,
            r,
        ));
        while ty < bottom
            invariant
                codec.wf(),
                codec.pf.convertible(),
                frame.wf(),
                r.inside(frame.width as int, frame.height as int),
                right == r.x + r.w,
                bottom == r.y + r.h,
                r.y <= ty,
                self.comp == old(self).comp,
                self.flushed == old(self).flushed,
                self.raw@ + tiles_from(*frame, codec.pf, r, ty as int) == rect_tiles(
                    *frame,
                    codec.pf,
                    r,
                ),
            decreases bottom - ty,
        {
            let th: u32 = side_of(ty, bottom);
            let mut tx: u32 = r.x;
            let ghost band = band_bytes(*frame, codec.pf, r, r.x as int, ty as int);
            let ghost above = self.raw@;
            assert(self.raw@ + band_bytes(*frame, codec.pf, r, tx as int, ty as int) =~= above
                + band);
            while tx < right
                invariant
                    codec.wf(),
                    codec.pf.convertible(),
                    frame.wf(),
                    r.inside(frame.width as int, frame.height as int),
                    right == r.x + r.w,
                    bottom == r.y + r.h,
                    r.x <= tx,
                    r.y <= ty < bottom,
                    1 <= th <= TILE,
                    th == tile_side(ty as int, bottom as int),
                    self.comp == old(self).comp,
                    self.flushed == old(self).flushed,
                    self.raw@ + band_bytes(*frame, codec.pf, r, tx as int, ty as int) == above
                        + band,
                decreases right - tx,
            {
                let tw: u32 = side_of(tx, right);
                copy_pixels(frame, tx, ty, tw, th, &mut self.tile);
                proof {
                    lemma_pixels_len(*frame, tx as int, ty as int, tw as int, th as int);
                    assert(tw * th <= 64 * 64) by (nonlinear_arith)
                        requires
                            tw <= 64,
                            th <= 64,
                    ;
                }
                let ghost seen = self.raw@;
                encode_tile(
                    self.tile.as_slice(),
                    tw as usize,
                    th as usize,
                    codec,
                    &mut self.palette,
                    &mut self.indices,
                    &mut self.raw,
                );
                assert(self.raw@ + band_bytes(*frame, codec.pf, r, tx + tw, ty as int) =~= seen
                    + band_bytes(*frame, codec.pf, r, tx as int, ty as int));
                tx = tx + tw;
            }
            assert(self.raw@ =~= above + band);
            assert(self.raw@ + tiles_from(*frame, codec.pf, r, ty + th) =~= above + tiles_from(
                *frame,
                codec.pf,
                r,
                ty as int,
            ));
            ty = ty + th;
        }
        assert(self.raw@ =~= rect_tiles(*frame, codec.pf, r));
    }

    /// Append the ZRLE body (4-byte length + zlib data) for `r` to `out`.
    ///
    /// `complete` is `false` when the compressor got stuck before it had taken all
    /// of the tiles.
    pub fn encode(&mut self, frame: &Frame, codec: &PixCodec, r: Rect, out: &mut Vec<u8>) -> (complete:
        bool)
        requires
            old(self).wf(),
            codec.wf(),
            codec.pf.convertible(),
            frame.wf(),
            r.inside(frame.width as int, frame.height as int),
        ensures
            final(self).wf(),
            old(self).sent().is_prefix_of(final(self).sent()),
            final(out)@ == old(out)@ + framed(
                final(self).sent().skip(old(self).sent().len() as int),
            ),
            old(self).taken().is_prefix_of(final(self).taken()),
            final(self).taken().skip(old(self).taken().len() as int).is_prefix_of(
                rect_tiles(*frame, codec.pf, r),
            ),
            complete ==> final(self).taken() == old(self).taken() + rect_tiles(
                *frame,
                codec.pf,
                r,
            ),
            complete ==> decompresses_to(final(self).sent(), final(self).taken()),
            !complete ==> final(self).stuck_with(
                rect_tiles(*frame, codec.pf, r).len() as int,
            ),
    {
        self.fill_raw(frame, codec, r);
        let ghost tiles = rect_tiles(*frame, codec.pf, r);
        // One zlib stream per session, flushed after every rectangle.
        let (zbuf, complete) = compress_all(&mut self.comp, self.flushed, self.raw.as_slice());
        self.flushed = complete;
        push_be32(out, low_word(zbuf.len()));
        push_all(out, zbuf.as_slice());
        proof {
            assert(self.sent().skip(old(self).sent().len() as int) =~= zbuf@);
            assert(out@ =~= old(out)@ + framed(zbuf@));
        }
        complete
    }
}

/// A stream that goes no further with some bytes goes no further with more.
pub proof fn lemma_stuck_with_more(e: ZrleEncoder, n: int, m: int)
    requires
        e.stuck_with(n),
        n <= m,
    ensures
        e.stuck_with(m),
{
}

/// Bytes behind their length.
pub open spec fn framed(z: Seq<u8>) -> Seq<u8> {
    be32(low32(z.len() as int)) + z
}

} // verus!
