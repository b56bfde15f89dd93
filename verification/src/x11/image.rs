//! How the X server lays out pixels in `GetImage` replies.

use vstd::prelude::*;

use crate::pixel::number_of;
use crate::screen::frame::{Frame, Rect};

verus! {

/// One colour channel of a pixel.
#[derive(Clone, Copy, Debug, PartialEq, Eq, Structural)]
pub struct Channel {
    pub shift: u32,
    pub max: u32,
}

/// A mask as how far it is shifted to the left, and what it is without the
/// shift.
pub open spec fn unshifted(mask: int) -> (int, int)
    decreases mask,
{
    if mask <= 0 || mask % 2 == 1 {
        (0, mask)
    } else {
        let (shift, max) = unshifted(mask / 2);
        (shift + 1, max)
    }
}

impl Channel {
    /// The channel that a mask picks out of a pixel; of no use where the mask
    /// is zero.
    pub open spec fn of(mask: u32) -> Channel {
        if mask == 0 {
            Channel { shift: 0, max: 1 }
        } else {
            let (shift, max) = unshifted(mask as int);
            Channel { shift: shift as u32, max: max as u32 }
        }
    }

    pub open spec fn wf(self) -> bool {
        self.shift < 32 && self.max > 0
    }

    /// The channel's part of a pixel, before it is scaled.
    pub open spec fn part(self, raw: u32) -> u32 {
        (raw >> self.shift) & self.max
    }

    /// The channel's part of a pixel, scaled to eight bits.
    pub open spec fn value(self, raw: u32) -> u32 {
        let v = self.part(raw);
        if self.max == 255 {
            v
        } else {
            ((v * 255 + self.max / 2) / (self.max as int)) as u32
        }
    }

    pub fn new(mask: u32) -> (c: Self)
        ensures
            c == Channel::of(mask),
            c.wf(),
    {
        if mask == 0 {
            return Channel { shift: 0, max: 1 };
        }
        let mut shift: u32 = 0;
        let mut max: u32 = mask;
        proof {
            vstd::arithmetic::power2::lemma2_to64();
        }
        while max % 2 == 0
            invariant
                0 < max,
                shift < 32,
                max * vstd::arithmetic::power2::pow2(shift as nat) <= u32::MAX,
                unshifted(mask as int) == (
                    unshifted(max as int).0 + shift,
                    unshifted(max as int).1,
                ),
            decreases max,
        {
            let ghost before = max;
            max = max / 2;
            shift = shift + 1;
            proof {
                vstd::arithmetic::power2::lemma_pow2_unfold(shift as nat);
                vstd::arithmetic::power2::lemma2_to64();
                let p = vstd::arithmetic::power2::pow2(shift as nat) as int;
                let q = vstd::arithmetic::power2::pow2((shift - 1) as nat) as int;
                assert(max * p == before * q) by (nonlinear_arith)
                    requires
                        before == 2 * max,
                        p == 2 * q,
                ;
                if shift >= 32 {
                    assert(p >= 0x1_0000_0000) by {
                        assert(shift == 32);
                    }
                    assert(max * p >= p) by (nonlinear_arith)
                        requires
                            max >= 1,
                            p >= 0,
                    ;
                }
            }
        }
        Channel { shift, max }
    }

    pub fn take(&self, raw: u32) -> (v: u32)
        requires
            self.wf(),
        ensures
            v == self.value(raw),
            v <= 255,
    {
        let v: u32 = (raw >> self.shift) & self.max;
        proof {
            lemma_part_fits(raw, self.shift, self.max);
            lemma_scaled_fits(v as int, self.max as int);
        }
        if self.max == 255 {
            v
        } else {
            ((v as u64 * 255 + self.max as u64 / 2) / self.max as u64) as u32
        }
    }
}

proof fn lemma_part_fits(raw: u32, shift: u32, max: u32)
    ensures
        (raw >> shift) & max <= max,
{
    let r = raw >> shift;
    assert(r & max <= max) by (bit_vector);
}

proof fn lemma_scaled_fits(v: int, max: int)
    requires
        0 <= v <= max,
        max > 0,
    ensures
        0 <= (v * 255 + max / 2) / max <= 255,
{
    let n = v * 255 + max / 2;
    assert(0 <= n < 256 * max);
    assert(0 <= n / max < 256) by (nonlinear_arith)
        requires
            0 <= n < 256 * max,
            max > 0,
    ;
}

/// A channel's own mask reads as full intensity, an empty pixel as none, and
/// nothing reads as more than full.
pub proof fn lemma_channel_scales_to_eight_bits(mask: u32, raw: u32)
    requires
        mask != 0,
    ensures
        Channel::of(mask).value(mask) == 255,
        Channel::of(mask).value(0) == 0,
        Channel::of(mask).value(raw) <= 255,
{
    let c = Channel::of(mask);
    lemma_channel_wf(mask);
    lemma_part_fits(raw, c.shift, c.max);
    lemma_scaled_fits(c.part(raw) as int, c.max as int);
    let (shift, max) = (c.shift, c.max);
    assert((0u32 >> shift) & max == 0) by (bit_vector);
    assert(c.part(0) == 0);
    assert(c.max / 2 / c.max == 0) by (nonlinear_arith)
        requires
            c.max > 0,
    ;
    let p = vstd::arithmetic::power2::pow2(shift as nat) as int;
    vstd::arithmetic::power2::lemma2_to64();
    lemma_unshifted(mask as int, 32);
    vstd::arithmetic::power2::lemma_pow2_pos(shift as nat);
    vstd::bits::lemma_u32_shr_is_div(mask, shift);
    vstd::arithmetic::div_mod::lemma_div_by_multiple(max as int, p);
    assert(mask >> shift == max);
    assert(max & max == max) by (bit_vector);
    assert(c.part(mask) == max);
    assert((max * 255 + max / 2) / (max as int) == 255) by (nonlinear_arith)
        requires
            max > 0,
    ;
}

/// Every mask gives a channel that can be read.
pub proof fn lemma_channel_wf(mask: u32)
    ensures
        Channel::of(mask).wf(),
{
    if mask != 0 {
        vstd::arithmetic::power2::lemma2_to64();
        lemma_unshifted(mask as int, 32);
    }
}

proof fn lemma_unshifted(mask: int, bits: nat)
    requires
        0 < mask < vstd::arithmetic::power2::pow2(bits),
    ensures
        0 <= unshifted(mask).0 < bits,
        0 < unshifted(mask).1 <= mask,
        mask == unshifted(mask).1 * vstd::arithmetic::power2::pow2(unshifted(mask).0 as nat),
    decreases mask,
{
    vstd::arithmetic::power2::lemma2_to64();
    if bits == 0 {
        assert(false);
    }
    if mask % 2 == 0 {
        vstd::arithmetic::power2::lemma_pow2_unfold(bits);
        lemma_unshifted(mask / 2, (bits - 1) as nat);
        let (shift, max) = unshifted(mask / 2);
        vstd::arithmetic::power2::lemma_pow2_unfold((shift + 1) as nat);
        let q = vstd::arithmetic::power2::pow2(shift as nat) as int;
        let p = vstd::arithmetic::power2::pow2((shift + 1) as nat) as int;
        assert(unshifted(mask) == (shift + 1, max));
        assert(max * p == 2 * (max * q)) by (nonlinear_arith)
            requires
                p == 2 * q,
        ;
    } else {
        assert(unshifted(mask) == (0int, mask));
        assert(mask * 1 == mask);
    }
}

/// How the X server lays out pixels in `GetImage` replies.
#[derive(Clone, Copy, Debug, PartialEq, Eq, Structural)]
pub struct ImageFmt {
    pub bits_per_pixel: u8,
    pub scanline_pad: u8,
    pub big_endian: bool,
    pub red: Channel,
    pub green: Channel,
    pub blue: Channel,
    /// The common case: 32bpp little-endian BGRX, copied without conversion.
    pub fast_bgrx: bool,
}

/// Outcome of a screen grab.
///
/// Resizing is the one thing that reliably makes `GetImage` fail: the request
/// is built from rvnc's idea of the screen size, and another program can change
/// the real one in between. That arrives as a protocol error rather than a
/// broken connection, and it must not be fatal: a desktop that disappears
/// because its window was resized is worse than a dropped frame.
#[derive(Clone, Copy, Debug, PartialEq, Eq, Structural)]
pub enum Grab {
    Done,
    Raced,
}

impl ImageFmt {
    pub open spec fn wf(self) -> bool {
        &&& self.bits_per_pixel == 16 || self.bits_per_pixel == 24 || self.bits_per_pixel == 32
        &&& self.scanline_pad > 0 && self.scanline_pad % 8 == 0
        &&& self.red.wf() && self.green.wf() && self.blue.wf()
        &&& self.fast_bgrx ==> {
            &&& self.bits_per_pixel == 32
            &&& !self.big_endian
            &&& self.red == (Channel { shift: 16, max: 255 })
            &&& self.green == (Channel { shift: 8, max: 255 })
            &&& self.blue == (Channel { shift: 0, max: 255 })
        }
    }

    /// Bytes of a pixel.
    pub open spec fn bytes(self) -> int {
        self.bits_per_pixel as int / 8
    }

    /// The pixel whose bytes begin at `at`, as a number.
    pub open spec fn raw(self, b: Seq<u8>, at: int) -> u32 {
        (if self.bytes() == 2 {
            if self.big_endian {
                b[at] * 256 + b[at + 1]
            } else {
                b[at + 1] * 256 + b[at]
            }
        } else if self.bytes() == 3 {
            if self.big_endian {
                b[at] * 0x1_0000 + b[at + 1] * 256 + b[at + 2]
            } else {
                b[at + 2] * 0x1_0000 + b[at + 1] * 256 + b[at]
            }
        } else {
            if self.big_endian {
                b[at] * 0x100_0000 + b[at + 1] * 0x1_0000 + b[at + 2] * 256 + b[at + 3]
            } else {
                b[at + 3] * 0x100_0000 + b[at + 2] * 0x1_0000 + b[at + 1] * 256 + b[at]
            }
        }) as u32
    }

    /// A pixel as `0x00RRGGBB`.
    pub open spec fn colour(self, raw: u32) -> u32 {
        (self.red.value(raw) * 0x1_0000 + self.green.value(raw) * 256 + self.blue.value(
            raw,
        )) as u32
    }

    /// Bytes of a row of `w` pixels, padding included.
    pub open spec fn stride(self, w: int) -> int {
        (w * self.bits_per_pixel + self.scanline_pad - 1) / (self.scanline_pad as int) * (
        self.scanline_pad as int / 8)
    }

    /// Bytes of a whole image.
    pub open spec fn image_len(self, r: Rect) -> int {
        self.stride(r.w as int) * r.h
    }

    /// The pixel for the position `(x, y)` of the screen in an image of `r`.
    pub open spec fn image_pixel(self, data: Seq<u8>, r: Rect, x: int, y: int) -> u32 {
        self.colour(
            self.raw(data, (y - r.y) * self.stride(r.w as int) + (x - r.x) * self.bytes()),
        )
    }

    /// The pixel whose bytes begin at `at`.
    fn pixel(&self, b: &[u8], at: usize) -> (px: u32)
        requires
            self.wf(),
            at + self.bytes() <= b@.len(),
        ensures
            px == self.colour(self.raw(b@, at as int)),
    {
        let n: usize = b.len();
        if self.fast_bgrx {
            let px: u32 = b[at + 2] as u32 * 0x1_0000 + b[at + 1] as u32 * 256 + b[at] as u32;
            proof {
                lemma_fast_copy_is_conversion(*self, self.raw(b@, at as int));
            }
            return px;
        }
        let bytes: u8 = self.bits_per_pixel / 8;
        let raw: u32 = if bytes == 2 {
            if self.big_endian {
                b[at] as u32 * 256 + b[at + 1] as u32
            } else {
                b[at + 1] as u32 * 256 + b[at] as u32
            }
        } else if bytes == 3 {
            if self.big_endian {
                b[at] as u32 * 0x1_0000 + b[at + 1] as u32 * 256 + b[at + 2] as u32
            } else {
                b[at + 2] as u32 * 0x1_0000 + b[at + 1] as u32 * 256 + b[at] as u32
            }
        } else {
            if self.big_endian {
                b[at] as u32 * 0x100_0000 + b[at + 1] as u32 * 0x1_0000 + b[at + 2] as u32 * 256
                    + b[at + 3] as u32
            } else {
                b[at + 3] as u32 * 0x100_0000 + b[at + 2] as u32 * 0x1_0000 + b[at + 1] as u32 * 256
                    + b[at] as u32
            }
        };
        self.red.take(raw) * 0x1_0000 + self.green.take(raw) * 256 + self.blue.take(raw)
    }

    /// Put an image of `r` into the frame, unless the reply is too short for
    /// it: then the screen has changed size since it was asked for, and nothing
    /// is touched.
    pub fn store(&self, frame: &mut Frame, r: Rect, data: &[u8]) -> (g: Grab)
        requires
            self.wf(),
            old(frame).wf(),
            r.inside(old(frame).width as int, old(frame).height as int),
            r.w <= 0xffff,
            r.h <= 0xffff,
        ensures
            final(frame).wf(),
            final(frame).width == old(frame).width,
            final(frame).height == old(frame).height,
            g is Raced <==> data@.len() < self.image_len(r),
            g is Raced ==> *final(frame) == *old(frame),
            g is Done ==> forall|x: int, y: int|
                old(frame).covers(x, y) ==> #[trigger] final(frame).pixel(x, y) == (if r.has(x, y) {
                    self.image_pixel(data@, r, x, y)
                } else {
                    old(frame).pixel(x, y)
                }),
    {
        let stride: u64 = self.row_len(r.w);
        proof {
            assert(stride * r.h <= 0x8_0000 * 0xffff) by (nonlinear_arith)
                requires
                    stride <= 0x8_0000,
                    r.h <= 0xffff,
            ;
        }
        if (data.len() as u64) < stride * r.h as u64 {
            return Grab::Raced;
        }
        let bytes: u64 = self.bits_per_pixel as u64 / 8;
        let ghost before = *frame;
        let mut row: u32 = 0;
        while row < r.h
            invariant
                self.wf(),
                r.w <= 0xffff,
                r.h <= 0xffff,
                row <= r.h,
                bytes == self.bytes(),
                stride == self.stride(r.w as int),
                stride <= 0x8_0000,
                r.w * bytes <= stride,
                stride * r.h <= data@.len(),
                frame.wf(),
                frame.width == before.width,
                frame.height == before.height,
                r.inside(before.width as int, before.height as int),
                forall|x: int, y: int|
                    before.covers(x, y) ==> #[trigger] frame.pixel(x, y) == (if r.has(x, y) && y
                        - r.y < row {
                        self.image_pixel(data@, r, x, y)
                    } else {
                        before.pixel(x, y)
                    }),
            decreases r.h - row,
        {
            let mut col: u32 = 0;
            while col < r.w
                invariant
                    self.wf(),
                    r.w <= 0xffff,
                    r.h <= 0xffff,
                    row < r.h,
                    col <= r.w,
                    bytes == self.bytes(),
                    stride == self.stride(r.w as int),
                    stride <= 0x8_0000,
                    r.w * bytes <= stride,
                    stride * r.h <= data@.len(),
                    frame.wf(),
                    frame.width == before.width,
                    frame.height == before.height,
                    r.inside(before.width as int, before.height as int),
                    forall|x: int, y: int|
                        before.covers(x, y) ==> #[trigger] frame.pixel(x, y) == (if r.has(x, y) && (
                        y - r.y < row || y - r.y == row && x - r.x < col) {
                            self.image_pixel(data@, r, x, y)
                        } else {
                            before.pixel(x, y)
                        }),
                decreases r.w - col,
            {
                let n: usize = data.len();
                proof {
                    assert(col * bytes + bytes <= r.w * bytes) by (nonlinear_arith)
                        requires
                            col + 1 <= r.w,
                            0 <= bytes,
                    ;
                    assert(0 <= row * stride && row * stride + stride <= stride * r.h)
                        by (nonlinear_arith)
                        requires
                            row + 1 <= r.h,
                            0 <= stride,
                            0 <= row,
                    ;
                    assert(0 <= col * bytes) by (nonlinear_arith);
                    assert(row * stride <= 0xffff * 0x8_0000) by (nonlinear_arith)
                        requires
                            row <= 0xffff,
                            stride <= 0x8_0000,
                    ;
                    assert(col * bytes <= 0xffff * 4) by (nonlinear_arith)
                        requires
                            col <= 0xffff,
                            bytes <= 4,
                    ;
                }
                let at: u64 = row as u64 * stride + col as u64 * bytes;
                let px: u32 = self.pixel(data, at as usize);
                frame.put(r.x + col, r.y + row, px);
                col = col + 1;
            }
            row = row + 1;
        }
        Grab::Done
    }

    /// Bytes of a row of `w` pixels, padding included.
    fn row_len(&self, w: u32) -> (n: u64)
        requires
            self.wf(),
            w <= 0xffff,
        ensures
            n == self.stride(w as int),
            w * self.bytes() <= n <= 0x8_0000,
    {
        let pad: u64 = self.scanline_pad as u64;
        let bits: u64 = self.bits_per_pixel as u64;
        assert(w * bits <= 0xffff * 32) by (nonlinear_arith)
            requires
                w <= 0xffff,
                bits <= 32,
        ;
        assert(0 <= w * bits) by (nonlinear_arith);
        let units: u64 = (w as u64 * bits + pad - 1) / pad;
        proof {
            assert(units * (pad as int / 8) <= 0x8_0000 && w * self.bytes() <= units * (pad as int
                / 8)) by {
                if self.bits_per_pixel == 16 {
                    lemma_padded(w as int, 16, pad as int);
                } else if self.bits_per_pixel == 24 {
                    lemma_padded(w as int, 24, pad as int);
                } else {
                    lemma_padded(w as int, 32, pad as int);
                }
            }
        }
        units * (pad / 8)
    }
}

proof fn lemma_padded(w: int, bits: int, pad: int)
    requires
        0 <= w <= 0xffff,
        bits == 16 || bits == 24 || bits == 32,
        0 < pad <= 255,
        pad % 8 == 0,
    ensures
        w * (bits / 8) <= (w * bits + pad - 1) / pad * (pad / 8) <= 0x8_0000,
{
    let n = w * bits;
    let bytes = w * (bits / 8);
    if bits == 16 {
        assert(n == w * 16 && bytes == w * 2);
    } else if bits == 24 {
        assert(n == w * 24 && bytes == w * 3);
    } else {
        assert(n == w * 32 && bytes == w * 4);
    }
    assert(n == 8 * bytes && 0 <= bytes <= 0xffff * 4);
    let units = (n + pad - 1) / pad;
    vstd::arithmetic::div_mod::lemma_fundamental_div_mod(n + pad - 1, pad);
    vstd::arithmetic::div_mod::lemma_mod_bound(n + pad - 1, pad);
    assert(pad * units == 8 * (units * (pad / 8))) by (nonlinear_arith)
        requires
            pad == 8 * (pad / 8),
    ;
}

/// Copying a pixel of the common layout is the same as converting it.
pub proof fn lemma_fast_copy_is_conversion(fmt: ImageFmt, raw: u32)
    requires
        fmt.wf(),
        fmt.fast_bgrx,
    ensures
        fmt.colour(raw) == raw % 0x100_0000,
{
    assert(((raw >> 16u32) & 255) * 0x1_0000 + ((raw >> 8u32) & 255) * 256 + ((raw >> 0u32) & 255)
        == raw % 0x100_0000) by (bit_vector);
}

/// Whether rows of `w` pixels take `n` bytes: room for the pixels, padded to whole
/// units of the scanline and no further.
pub open spec fn rows_take(fmt: ImageFmt, w: int, n: int) -> bool {
    &&& n * 8 % (fmt.scanline_pad as int) == 0
    &&& w * fmt.bits_per_pixel <= n * 8 < w * fmt.bits_per_pixel + fmt.scanline_pad
}

/// Whether `v` of 255 is as near as it can be to what a channel has in a pixel, of
/// the channel's maximum.
pub open spec fn nearest_of_255(v: int, c: Channel, raw: u32) -> bool {
    let part = ((raw >> c.shift) & c.max) as int;
    0 <= v <= 255 && -c.max <= 2 * (part * 255 - v * c.max) <= c.max
}

proof fn lemma_multiples_meet(n: int, pad: int, a: int, b: int)
    requires
        0 < pad,
        a % pad == 0,
        b % pad == 0,
        n <= a < n + pad,
        n <= b < n + pad,
    ensures
        a == b,
{
    vstd::arithmetic::div_mod::lemma_fundamental_div_mod(a, pad);
    vstd::arithmetic::div_mod::lemma_fundamental_div_mod(b, pad);
    let (p, q) = (a / pad, b / pad);
    assert(p == q) by (nonlinear_arith)
        requires
            -pad < pad * p - pad * q < pad,
            0 < pad,
    ;
}

/// Rows are padded to whole units of the scanline, and no further.
pub proof fn lemma_rows_are_padded(fmt: ImageFmt, w: int, n: int)
    requires
        fmt.wf(),
        0 <= w,
    ensures
        rows_take(fmt, w, fmt.stride(w)),
        rows_take(fmt, w, n) ==> n == fmt.stride(w),
{
    let pad = fmt.scanline_pad as int;
    let bits = w * fmt.bits_per_pixel;
    let units = (bits + pad - 1) / pad;
    vstd::arithmetic::div_mod::lemma_fundamental_div_mod(bits + pad - 1, pad);
    vstd::arithmetic::div_mod::lemma_mod_bound(bits + pad - 1, pad);
    assert(pad * units == 8 * (units * (pad / 8))) by (nonlinear_arith)
        requires
            pad == 8 * (pad / 8),
    ;
    assert(fmt.stride(w) * 8 == pad * units);
    vstd::arithmetic::div_mod::lemma_mod_multiples_basic(units, pad);
    assert(units * pad == pad * units) by (nonlinear_arith);
    if rows_take(fmt, w, n) {
        lemma_multiples_meet(bits, pad, n * 8, fmt.stride(w) * 8);
    }
}

proof fn lemma_raw_is_number(fmt: ImageFmt, b: Seq<u8>, at: int)
    requires
        fmt.wf(),
        0 <= at,
        at + fmt.bits_per_pixel / 8 <= b.len(),
    ensures
        fmt.raw(b, at) == number_of(
            b.subrange(at, at + fmt.bits_per_pixel / 8),
            fmt.big_endian,
        ),
{
    let s = b.subrange(at, at + fmt.bits_per_pixel / 8);
    reveal_with_fuel(number_of, 5);
    if fmt.big_endian {
        let t = s.drop_last();
        assert(t.len() == s.len() - 1);
        assert(t.drop_last().len() == t.len() - 1);
        if s.len() == 4 {
            assert(t.drop_last().drop_last().len() == 1);
        }
    } else {
        let t = s.skip(1);
        assert(t.len() == s.len() - 1);
        assert(t.skip(1).len() == t.len() - 1);
        if s.len() == 4 {
            assert(t.skip(1).skip(1).len() == 1);
        }
    }
}

proof fn lemma_value_is_nearest(c: Channel, raw: u32)
    requires
        c.wf(),
    ensures
        nearest_of_255(c.value(raw) as int, c, raw),
{
    lemma_part_fits(raw, c.shift, c.max);
    let part = c.part(raw) as int;
    let max = c.max as int;
    lemma_scaled_fits(part, max);
    if max != 255 {
        let n = part * 255 + max / 2;
        let q = n / max;
        vstd::arithmetic::div_mod::lemma_fundamental_div_mod(n, max);
        vstd::arithmetic::div_mod::lemma_mod_bound(n, max);
        assert(max * q == q * max) by (nonlinear_arith);
    } else {
        assert(part * 255 == part * max);
    }
}

/// Row `k` of an image goes to row `k` of its rectangle, column `c` to column `c`:
/// the pixel there has the colour whose bytes stand `k` padded rows and `c` pixels
/// into the image, as far as eight bits can tell it, whatever the size of a pixel.
pub proof fn lemma_image_goes_where_it_was_read(
    fmt: ImageFmt,
    data: Seq<u8>,
    r: Rect,
    row_len: int,
    k: int,
    c: int,
)
    requires
        fmt.wf(),
        rows_take(fmt, r.w as int, row_len),
        row_len * r.h <= data.len(),
        0 <= k < r.h,
        0 <= c < r.w,
    ensures
        ({
            let at = k * row_len + c * (fmt.bits_per_pixel / 8);
            let bytes = data.subrange(at, at + fmt.bits_per_pixel / 8);
            let raw = number_of(bytes, fmt.big_endian) as u32;
            let px = fmt.image_pixel(data, r, r.x + c, r.y + k);
            &&& fmt.image_len(r) == row_len * r.h
            &&& 0 <= at && at + fmt.bits_per_pixel / 8 <= data.len()
            &&& px < 0x100_0000
            &&& nearest_of_255(px as int / 0x1_0000, fmt.red, raw)
            &&& nearest_of_255(px as int / 256 % 256, fmt.green, raw)
            &&& nearest_of_255(px as int % 256, fmt.blue, raw)
        }),
{
    lemma_rows_are_padded(fmt, r.w as int, row_len);
    let n = fmt.bits_per_pixel as int / 8;
    let at = k * row_len + c * n;
    assert(0 <= k * row_len && k * row_len + row_len <= row_len * r.h) by (nonlinear_arith)
        requires
            0 <= k < r.h,
            0 <= row_len,
    ;
    assert(0 <= c * n && c * n + n <= r.w * n) by (nonlinear_arith)
        requires
            0 <= c < r.w,
            0 <= n,
    ;
    assert(r.w * fmt.bits_per_pixel == 8 * (r.w * n)) by (nonlinear_arith)
        requires
            fmt.bits_per_pixel == 8 * n,
    ;
    lemma_raw_is_number(fmt, data, at);
    let raw = fmt.raw(data, at);
    lemma_value_is_nearest(fmt.red, raw);
    lemma_value_is_nearest(fmt.green, raw);
    lemma_value_is_nearest(fmt.blue, raw);
}

/// The channel of a mask has the bits of the mask: its maximum, moved back to where
/// the mask has it, is the mask, and it ends in a one.
pub proof fn lemma_channel_is_its_mask(mask: u32)
    requires
        mask != 0,
    ensures
        Channel::of(mask).shift < 32,
        Channel::of(mask).max % 2 == 1,
        Channel::of(mask).max << Channel::of(mask).shift == mask,
{
    vstd::arithmetic::power2::lemma2_to64();
    lemma_unshifted(mask as int, 32);
    lemma_unshifted_is_odd(mask as int);
    let c = Channel::of(mask);
    vstd::bits::lemma_u32_shl_is_mul(c.max, c.shift);
}

proof fn lemma_unshifted_is_odd(mask: int)
    requires
        0 < mask,
    ensures
        unshifted(mask).1 % 2 == 1,
    decreases mask,
{
    if mask % 2 == 0 {
        lemma_unshifted_is_odd(mask / 2);
    }
}

} // verus!
