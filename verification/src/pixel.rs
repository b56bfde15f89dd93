//! RFB pixel formats and conversion from the internal framebuffer format.
//!
//! Internally every pixel is a `u32` in `0x00RRGGBB`. Clients may ask for a
//! different layout through `SetPixelFormat`, so everything that touches the
//! wire goes through [`PixCodec`].

use vstd::arithmetic::power2::pow2;
use vstd::prelude::*;

use crate::bytes::{be16, be16_at, be32, le32, push_be16, read_be16};

verus! {

/// RFB `PIXEL_FORMAT` (16 bytes on the wire).
#[derive(Clone, Copy, PartialEq, Eq, Debug, Structural)]
pub struct PixelFormat {
    pub bits_per_pixel: u8,
    pub depth: u8,
    pub big_endian: bool,
    pub true_colour: bool,
    pub red_max: u16,
    pub green_max: u16,
    pub blue_max: u16,
    pub red_shift: u8,
    pub green_shift: u8,
    pub blue_shift: u8,
}

/// Number of binary digits of `n`; none for zero.
pub open spec fn bit_len(n: nat) -> nat
    decreases n,
{
    if n == 0 {
        0
    } else {
        1 + bit_len(n / 2)
    }
}

pub open spec fn flag(b: bool) -> u8 {
    if b {
        1
    } else {
        0
    }
}

/// Number of binary digits of a channel maximum.
fn digits_of(max: u16) -> (n: u32)
    ensures
        n == bit_len(max as nat),
        n <= 16,
{
    let mut rest: u16 = max;
    let mut n: u32 = 0;
    proof {
        lemma_bit_len_u16(max);
    }
    while rest > 0
        invariant
            n + bit_len(rest as nat) == bit_len(max as nat),
            bit_len(max as nat) <= 16,
        decreases rest,
    {
        rest = rest / 2;
        n = n + 1;
    }
    n
}

proof fn lemma_bit_len_bound(n: nat, k: nat)
    requires
        n < vstd::arithmetic::power2::pow2(k),
    ensures
        bit_len(n) <= k,
    decreases k,
{
    if n > 0 {
        if k == 0 {
            vstd::arithmetic::power2::lemma2_to64();
        } else {
            vstd::arithmetic::power2::lemma_pow2_unfold(k);
            lemma_bit_len_bound(n / 2, (k - 1) as nat);
        }
    }
}

proof fn lemma_bit_len_u16(max: u16)
    ensures
        bit_len(max as nat) <= 16,
{
    vstd::arithmetic::power2::lemma2_to64();
    lemma_bit_len_bound(max as nat, 16);
}

impl PixelFormat {
    /// The layout advertised in `ServerInit`: 32bpp little-endian
    /// `0x00RRGGBB`, i.e. the byte order B, G, R, unused.
    pub open spec fn rgb() -> PixelFormat {
        PixelFormat {
            bits_per_pixel: 32,
            depth: 24,
            big_endian: false,
            true_colour: true,
            red_max: 255,
            green_max: 255,
            blue_max: 255,
            red_shift: 16,
            green_shift: 8,
            blue_shift: 0,
        }
    }

    /// The sixteen bytes of this format on the wire.
    pub open spec fn wire_form(self) -> Seq<u8> {
        seq![self.bits_per_pixel, self.depth, flag(self.big_endian), flag(self.true_colour)]
            + be16(self.red_max) + be16(self.green_max) + be16(self.blue_max)
            + seq![self.red_shift, self.green_shift, self.blue_shift, 0u8, 0u8, 0u8]
    }

    /// The format that sixteen wire bytes describe, whether or not it can be
    /// served.
    pub open spec fn described_by(b: Seq<u8>) -> PixelFormat {
        PixelFormat {
            bits_per_pixel: b[0],
            depth: b[1],
            big_endian: b[2] != 0,
            true_colour: b[3] != 0,
            red_max: be16_at(b, 4),
            green_max: be16_at(b, 6),
            blue_max: be16_at(b, 8),
            red_shift: b[10],
            green_shift: b[11],
            blue_shift: b[12],
        }
    }

    /// Whether a channel of this maximum, shifted this far, lies inside the
    /// pixel.
    pub open spec fn channel_fits(self, max: u16, shift: u8) -> bool {
        shift + bit_len(max as nat) <= self.bits_per_pixel
    }

    /// Formats this server can produce: true colour, a whole number of
    /// supported bytes, and three channels that lie inside the pixel.
    pub open spec fn servable(self) -> bool {
        &&& self.true_colour
        &&& self.bits_per_pixel == 8 || self.bits_per_pixel == 16 || self.bits_per_pixel == 32
        &&& self.red_max != 0 && self.green_max != 0 && self.blue_max != 0
        &&& self.channel_fits(self.red_max, self.red_shift)
        &&& self.channel_fits(self.green_max, self.green_shift)
        &&& self.channel_fits(self.blue_max, self.blue_shift)
    }

    /// What `parse` makes of some bytes.
    pub open spec fn parsed(b: Seq<u8>) -> Option<PixelFormat> {
        if b.len() >= 16 && Self::described_by(b).servable() {
            Some(Self::described_by(b))
        } else {
            None
        }
    }

    /// Formats whose pixels can be computed: every shift stays inside a word
    /// and a pixel takes at most four bytes.
    pub open spec fn convertible(self) -> bool {
        &&& self.red_shift < 32 && self.green_shift < 32 && self.blue_shift < 32
        &&& self.bits_per_pixel < 40
        &&& self.big_endian ==> 1 <= self.bits_per_pixel <= 32
    }

    /// What we advertise in `ServerInit`.
    pub fn default_rgb() -> (pf: Self)
        ensures
            pf == Self::rgb(),
    {
        PixelFormat {
            bits_per_pixel: 32,
            depth: 24,
            big_endian: false,
            true_colour: true,
            red_max: 255,
            green_max: 255,
            blue_max: 255,
            red_shift: 16,
            green_shift: 8,
            blue_shift: 0,
        }
    }

    /// Append the 16-byte wire form.
    pub fn write(&self, out: &mut Vec<u8>)
        ensures
            final(out)@ == old(out)@ + self.wire_form(),
    {
        out.push(self.bits_per_pixel);
        out.push(self.depth);
        out.push(if self.big_endian { 1 } else { 0 });
        out.push(if self.true_colour { 1 } else { 0 });
        push_be16(out, self.red_max);
        push_be16(out, self.green_max);
        push_be16(out, self.blue_max);
        out.push(self.red_shift);
        out.push(self.green_shift);
        out.push(self.blue_shift);
        out.push(0);
        out.push(0);
        out.push(0);
        assert(out@ =~= old(out)@ + self.wire_form());
    }

    /// Parse the 16-byte wire form. Returns `None` for formats we cannot
    /// serve (colour maps, odd bit depths, channels outside the pixel).
    pub fn parse(b: &[u8]) -> (r: Option<Self>)
        ensures
            r == Self::parsed(b@),
    {
        if b.len() < 16 {
            return None;
        }
        let pf = PixelFormat {
            bits_per_pixel: b[0],
            depth: b[1],
            big_endian: b[2] != 0,
            true_colour: b[3] != 0,
            red_max: read_be16(b, 4),
            green_max: read_be16(b, 6),
            blue_max: read_be16(b, 8),
            red_shift: b[10],
            green_shift: b[11],
            blue_shift: b[12],
        };
        if !pf.true_colour {
            return None;
        }
        if pf.bits_per_pixel != 8 && pf.bits_per_pixel != 16 && pf.bits_per_pixel != 32 {
            return None;
        }
        if pf.red_max == 0 || pf.green_max == 0 || pf.blue_max == 0 {
            return None;
        }
        if !pf.fits(pf.red_max, pf.red_shift) || !pf.fits(pf.green_max, pf.green_shift)
            || !pf.fits(pf.blue_max, pf.blue_shift) {
            return None;
        }
        Some(pf)
    }

    /// Whether a channel lies inside the pixel.
    fn fits(&self, max: u16, shift: u8) -> (b: bool)
        ensures
            b == self.channel_fits(max, shift),
    {
        let hi: u32 = shift as u32 + digits_of(max);
        hi <= self.bits_per_pixel as u32
    }

    pub fn bytes_per_pixel(&self) -> (n: usize)
        ensures
            n == self.bits_per_pixel / 8,
    {
        self.bits_per_pixel as usize / 8
    }
}

/// The red part of an internal pixel.
pub open spec fn red_of(px: u32) -> u32 {
    (px >> 16) & 0xff
}

/// The green part of an internal pixel.
pub open spec fn green_of(px: u32) -> u32 {
    (px >> 8) & 0xff
}

/// The blue part of an internal pixel.
pub open spec fn blue_of(px: u32) -> u32 {
    px & 0xff
}

/// An eight-bit channel scaled to another maximum, rounded to nearest.
pub open spec fn scaled(v: u32, max: u16) -> u32 {
    ((v * max + 127) / 255) as u32
}

/// Converts internal `0x00RRGGBB` pixels into a client's pixel format.
pub struct PixCodec {
    pub pf: PixelFormat,
    /// Bytes of a whole pixel on the wire.
    pub bpp: usize,
    /// Size of a ZRLE CPIXEL (3 when the format has a spare byte, else `bpp`).
    pub cpixel: usize,
    /// Offset of the CPIXEL bytes inside the 4-byte wire pixel.
    pub cpixel_off: usize,
    /// True when the internal layout is byte-identical to the wire layout, so
    /// whole rows can be copied instead of converted pixel by pixel.
    pub direct: bool,
}

/// The bits of a pixel that carry colour.
pub open spec fn colour_mask(pf: PixelFormat) -> u32 {
    ((pf.red_max as u32) << pf.red_shift) | ((pf.green_max as u32) << pf.green_shift) | ((
    pf.blue_max as u32) << pf.blue_shift)
}

/// Where a CPIXEL lies in the wire pixel: its offset and its size. A 32-bit
/// pixel of depth 24 or less whose top or bottom byte carries no colour leaves
/// that byte out.
pub open spec fn cpixel_span(pf: PixelFormat) -> (int, int) {
    if pf.bits_per_pixel == 32 && pf.depth <= 24 {
        if colour_mask(pf) & 0xff00_0000 == 0 {
            (if pf.big_endian { 1int } else { 0 }, 3)
        } else if colour_mask(pf) & 0x0000_00ff == 0 {
            (if pf.big_endian { 0int } else { 1 }, 3)
        } else {
            (0, 4)
        }
    } else {
        (0, (pf.bits_per_pixel / 8) as int)
    }
}

/// The value of a pixel in a format: each channel scaled and shifted.
pub open spec fn pixel_value(pf: PixelFormat, px: u32) -> u32 {
    (scaled(red_of(px), pf.red_max) << pf.red_shift) | (scaled(green_of(px), pf.green_max)
        << pf.green_shift) | (scaled(blue_of(px), pf.blue_max) << pf.blue_shift)
}

/// The value of a pixel laid out as four bytes. In big-endian order a narrow
/// pixel is moved to the top of the word, so that its bytes still come first.
pub open spec fn wire_bytes(pf: PixelFormat, px: u32) -> Seq<u8> {
    if pf.big_endian {
        be32(pixel_value(pf, px) << ((32 - pf.bits_per_pixel) as u32))
    } else {
        le32(pixel_value(pf, px))
    }
}

/// A whole pixel on the wire.
pub open spec fn pixel_bytes(pf: PixelFormat, px: u32) -> Seq<u8> {
    wire_bytes(pf, px).subrange(0, (pf.bits_per_pixel / 8) as int)
}

/// A CPIXEL on the wire.
pub open spec fn cpixel_bytes(pf: PixelFormat, px: u32) -> Seq<u8> {
    wire_bytes(pf, px).subrange(cpixel_span(pf).0, cpixel_span(pf).0 + cpixel_span(pf).1)
}

/// CPIXELs one after another.
pub open spec fn cpixels(pf: PixelFormat, px: Seq<u32>) -> Seq<u8>
    decreases px.len(),
{
    if px.len() == 0 {
        seq![]
    } else {
        cpixels(pf, px.drop_last()) + cpixel_bytes(pf, px.last())
    }
}

/// Formats whose wire pixel is the internal pixel, byte for byte.
pub open spec fn is_direct(pf: PixelFormat) -> bool {
    &&& pf.bits_per_pixel == 32 && !pf.big_endian
    &&& pf.red_max == 255 && pf.green_max == 255 && pf.blue_max == 255
    &&& pf.red_shift == 16 && pf.green_shift == 8 && pf.blue_shift == 0
}

/// One pixel of a row on the wire.
pub open spec fn row_pixel(pf: PixelFormat, px: u32) -> Seq<u8> {
    if is_direct(pf) {
        le32(px)
    } else {
        pixel_bytes(pf, px)
    }
}

/// A row of pixels on the wire.
pub open spec fn row_bytes(pf: PixelFormat, px: Seq<u32>) -> Seq<u8>
    decreases px.len(),
{
    if px.len() == 0 {
        seq![]
    } else {
        row_bytes(pf, px.drop_last()) + row_pixel(pf, px.last())
    }
}

impl PixCodec {
    /// The cached sizes agree with the format.
    pub open spec fn wf(self) -> bool {
        &&& self.bpp == self.pf.bits_per_pixel / 8
        &&& self.cpixel_off == cpixel_span(self.pf).0
        &&& self.cpixel == cpixel_span(self.pf).1
        &&& self.direct == is_direct(self.pf)
    }

    pub fn new(pf: PixelFormat) -> (c: Self)
        requires
            pf.red_shift < 32 && pf.green_shift < 32 && pf.blue_shift < 32,
        ensures
            c.pf == pf,
            c.wf(),
    {
        let bpp: usize = pf.bytes_per_pixel();
        let mask: u32 = ((pf.red_max as u32) << pf.red_shift) | ((pf.green_max as u32)
            << pf.green_shift) | ((pf.blue_max as u32) << pf.blue_shift);
        // CPIXEL: 32bpp with depth <= 24 and all significant bits in three of
        // the four bytes (RFB, ZRLE encoding).
        let (cpixel, cpixel_off): (usize, usize) = if pf.bits_per_pixel == 32 && pf.depth <= 24 {
            if mask & 0xff00_0000 == 0 {
                (3, if pf.big_endian { 1 } else { 0 })
            } else if mask & 0x0000_00ff == 0 {
                (3, if pf.big_endian { 0 } else { 1 })
            } else {
                (4, 0)
            }
        } else {
            (bpp, 0)
        };
        let direct = pf.bits_per_pixel == 32 && !pf.big_endian && pf.red_max == 255 && pf.green_max
            == 255 && pf.blue_max == 255 && pf.red_shift == 16 && pf.green_shift == 8
            && pf.blue_shift == 0;
        PixCodec { pf, bpp, cpixel, cpixel_off, direct }
    }

    pub fn format(&self) -> (pf: PixelFormat)
        ensures
            pf == self.pf,
    {
        self.pf
    }

    pub fn bytes_per_pixel(&self) -> (n: usize)
        requires
            self.wf(),
        ensures
            n == self.pf.bits_per_pixel / 8,
    {
        self.bpp
    }

    pub fn cpixel_size(&self) -> (n: usize)
        requires
            self.wf(),
        ensures
            n == cpixel_span(self.pf).1,
    {
        self.cpixel
    }

    /// The 4-byte wire representation of a pixel; only the first
    /// `bytes_per_pixel()` bytes are meaningful (for `cpixel`, see
    /// [`PixCodec::push_cpixel`]).
    fn wire(&self, px: u32) -> (w: [u8; 4])
        requires
            self.pf.convertible(),
        ensures
            w@ == wire_bytes(self.pf, px),
    {
        let r: u32 = (px >> 16) & 0xff;
        let g: u32 = (px >> 8) & 0xff;
        let b: u32 = px & 0xff;
        assert(r <= 255 && g <= 255 && b <= 255) by {
            lemma_channels(px);
        }
        let v: u32 = (scale(r, self.pf.red_max) << self.pf.red_shift) | (scale(
            g,
            self.pf.green_max,
        ) << self.pf.green_shift) | (scale(b, self.pf.blue_max) << self.pf.blue_shift);
        if self.pf.big_endian {
            // The most significant byte of the pixel goes first, so shift the
            // value up into the top of the word.
            let n: u32 = if self.pf.bits_per_pixel == 32 {
                v
            } else {
                v << (32 - self.pf.bits_per_pixel as u32)
            };
            proof {
                assert(v << 0u32 == v) by (bit_vector);
            }
            let w: [u8; 4] = [
                (n / 0x100_0000) as u8,
                (n / 0x1_0000 % 256) as u8,
                (n / 256 % 256) as u8,
                (n % 256) as u8,
            ];
            assert(w@ =~= be32(n));
            w
        } else {
            let w: [u8; 4] = [
                (v % 256) as u8,
                (v / 256 % 256) as u8,
                (v / 0x1_0000 % 256) as u8,
                (v / 0x100_0000) as u8,
            ];
            assert(w@ =~= le32(v));
            w
        }
    }

    /// Append one whole pixel.
    pub fn push_pixel(&self, px: u32, out: &mut Vec<u8>)
        requires
            self.wf(),
            self.pf.convertible(),
        ensures
            final(out)@ == old(out)@ + pixel_bytes(self.pf, px),
    {
        let w = self.wire(px);
        crate::bytes::push_all(out, &w.as_slice()[0..self.bpp]);
    }

    /// Append one CPIXEL.
    pub fn push_cpixel(&self, px: u32, out: &mut Vec<u8>)
        requires
            self.wf(),
            self.pf.convertible(),
        ensures
            final(out)@ == old(out)@ + cpixel_bytes(self.pf, px),
    {
        let w = self.wire(px);
        crate::bytes::push_all(out, &w.as_slice()[self.cpixel_off..self.cpixel_off + self.cpixel]);
    }

    /// Append a row of pixels in wire format.
    pub fn push_row(&self, src: &[u32], out: &mut Vec<u8>)
        requires
            self.wf(),
            self.pf.convertible(),
        ensures
            final(out)@ == old(out)@ + row_bytes(self.pf, src@),
    {
        for i in 0..src.len()
            invariant
                self.wf(),
                self.pf.convertible(),
                out@ == old(out)@ + row_bytes(self.pf, src@.take(i as int)),
        {
            let px: u32 = src[i];
            let ghost before = out@;
            if self.direct {
                out.push((px % 256) as u8);
                out.push((px / 256 % 256) as u8);
                out.push((px / 0x1_0000 % 256) as u8);
                out.push((px / 0x100_0000) as u8);
                assert(out@ =~= before + le32(px));
            } else {
                self.push_pixel(px, out);
            }
            assert(src@.take(i + 1).drop_last() =~= src@.take(i as int));
            assert(out@ =~= old(out)@ + row_bytes(self.pf, src@.take(i + 1)));
        }
        assert(src@.take(src@.len() as int) =~= src@);
    }
}

proof fn lemma_channels(px: u32)
    ensures
        red_of(px) <= 255,
        green_of(px) <= 255,
        blue_of(px) <= 255,
{
    assert((px >> 16) & 0xff <= 255 && (px >> 8) & 0xff <= 255 && px & 0xff <= 255) by (bit_vector);
}

/// Scale an 8-bit channel to an arbitrary maximum, with rounding.
fn scale(v: u32, max: u16) -> (r: u32)
    requires
        v <= 255,
    ensures
        r == scaled(v, max),
        r <= max,
{
    assert(v * max <= 255 * 65535) by (nonlinear_arith)
        requires
            v <= 255,
            max <= 65535,
    ;
    assert(v * max <= 255 * max) by (nonlinear_arith)
        requires
            v <= 255,
    ;
    if max == 255 {
        v
    } else {
        (v * max as u32 + 127) / 255
    }
}

/// A format that can be served reads back from its wire form unchanged.
pub proof fn lemma_write_parse_round_trip(pf: PixelFormat)
    requires
        pf.servable(),
    ensures
        PixelFormat::parsed(pf.wire_form()) == Some(pf),
{
    let b = pf.wire_form();
    assert(b.len() == 16);
    assert(be16_at(b, 4) == pf.red_max && be16_at(b, 6) == pf.green_max && be16_at(b, 8)
        == pf.blue_max);
    assert(PixelFormat::described_by(b) == pf);
}

/// Every format that `parse` accepts can be converted to.
pub proof fn lemma_servable_is_convertible(pf: PixelFormat)
    requires
        pf.servable(),
    ensures
        pf.convertible(),
{
    assert(bit_len(pf.red_max as nat) >= 1);
    assert(bit_len(pf.green_max as nat) >= 1);
    assert(bit_len(pf.blue_max as nat) >= 1);
}

proof fn lemma_channel_bits(x: u32, m: u32, s: u8)
    by (bit_vector)
    requires
        s < 32,
        x <= m,
        m <= 0xffff,
    ensures
        m & ((m + 1) as u32) == 0 && (m << s) & 0xff == 0 ==> (x << s) & 0xff == 0,
        m & ((m + 1) as u32) == 0 && (m << s) & 0xff00_0000 == 0 ==> (x << s) & 0xff00_0000 == 0,
{
}

proof fn lemma_or_masks(a: u32, b: u32, c: u32)
    by (bit_vector)
    ensures
        ((a | b | c) & 0xff == 0) == (a & 0xff == 0 && b & 0xff == 0 && c & 0xff == 0),
        ((a | b | c) & 0xff00_0000 == 0) == (a & 0xff00_0000 == 0 && b & 0xff00_0000 == 0 && c
            & 0xff00_0000 == 0),
{
}

proof fn lemma_end_bytes(v: u32)
    by (bit_vector)
    ensures
        v & 0xff == v % 256,
        (v & 0xff00_0000 == 0) == (v / 0x100_0000 == 0),
        v << 0u32 == v,
{
}

proof fn lemma_scaled_bound(v: u32, max: u16)
    requires
        v <= 255,
    ensures
        scaled(v, max) <= max,
{
    assert(v * max <= 255 * max) by (nonlinear_arith)
        requires
            v <= 255,
    ;
}

/// A channel maximum made of ones only, as RFB asks for.
pub open spec fn all_ones(max: u16) -> bool {
    (max as u32) & ((max + 1) as u32) == 0
}

/// A CPIXEL that is shorter than its pixel leaves out a byte that is zero for
/// every colour, so nothing is lost. Channel maxima are all ones, as RFB asks.
pub proof fn lemma_cpixel_is_lossless(pf: PixelFormat, px: u32)
    requires
        pf.servable(),
        all_ones(pf.red_max) && all_ones(pf.green_max) && all_ones(pf.blue_max),
    ensures
        forall|i: int|
            0 <= i < pf.bits_per_pixel / 8 && !(cpixel_span(pf).0 <= i < cpixel_span(pf).0
                + cpixel_span(pf).1) ==> #[trigger] wire_bytes(pf, px)[i] == 0,
{
    lemma_servable_is_convertible(pf);
    lemma_channels(px);
    lemma_scaled_bound(red_of(px), pf.red_max);
    lemma_scaled_bound(green_of(px), pf.green_max);
    lemma_scaled_bound(blue_of(px), pf.blue_max);
    let (r, g, b) = (
        scaled(red_of(px), pf.red_max),
        scaled(green_of(px), pf.green_max),
        scaled(blue_of(px), pf.blue_max),
    );
    lemma_channel_bits(r, pf.red_max as u32, pf.red_shift);
    lemma_channel_bits(g, pf.green_max as u32, pf.green_shift);
    lemma_channel_bits(b, pf.blue_max as u32, pf.blue_shift);
    lemma_or_masks(
        (pf.red_max as u32) << pf.red_shift,
        (pf.green_max as u32) << pf.green_shift,
        (pf.blue_max as u32) << pf.blue_shift,
    );
    lemma_or_masks(r << pf.red_shift, g << pf.green_shift, b << pf.blue_shift);
    lemma_end_bytes(pixel_value(pf, px));
}

/// Copying a row is converting it pixel by pixel, for every pixel in the
/// internal layout.
pub proof fn lemma_direct_copy_is_conversion(pf: PixelFormat, px: u32)
    requires
        is_direct(pf),
        px < 0x100_0000,
    ensures
        row_pixel(pf, px) == pixel_bytes(pf, px),
{
    let (r, g, b) = (red_of(px), green_of(px), blue_of(px));
    lemma_channels(px);
    assert(scaled(r, 255) == r && scaled(g, 255) == g && scaled(b, 255) == b);
    assert(((((px >> 16) & 0xff) << 16u8) | (((px >> 8) & 0xff) << 8u8) | ((px & 0xff) << 0u8))
        == px) by (bit_vector)
        requires
            px < 0x100_0000,
    ;
    assert(pixel_bytes(pf, px) =~= le32(px));
}

/// Bytes read as a number, the most significant byte first or last.
pub open spec fn number_of(b: Seq<u8>, big_endian: bool) -> int
    decreases b.len(),
{
    if b.len() == 0 {
        0
    } else if big_endian {
        number_of(b.drop_last(), true) * 256 + b.last()
    } else {
        number_of(b.skip(1), false) * 256 + b[0]
    }
}

/// The number in the `n` bits of `v` from bit `at` on.
pub open spec fn field(v: int, at: int, n: int) -> int {
    v / (pow2(at as nat) as int) % (pow2(n as nat) as int)
}

/// Whether two fields of a pixel have no bit in common.
pub open spec fn apart(at: int, n: int, other_at: int, other_n: int) -> bool {
    at + n <= other_at || other_at + other_n <= at
}

/// Whether `v` of `max` is as near as it can be to `c` of 255.
pub open spec fn nearest(v: int, max: int, c: int) -> bool {
    0 <= v <= max && -255 < 2 * (c * max - v * 255) < 255
}

/// Whether a client that looks for the channels of a format in fields of so many
/// bits finds each of them in a field of its own.
pub open spec fn has_fields(pf: PixelFormat, red: u32, green: u32, blue: u32) -> bool {
    &&& pf.bits_per_pixel == 8 || pf.bits_per_pixel == 16 || pf.bits_per_pixel == 32
    &&& 0 < pf.red_max < pow2(red as nat) && pf.red_shift + red <= pf.bits_per_pixel
    &&& 0 < pf.green_max < pow2(green as nat) && pf.green_shift + green <= pf.bits_per_pixel
    &&& 0 < pf.blue_max < pow2(blue as nat) && pf.blue_shift + blue <= pf.bits_per_pixel
    &&& apart(pf.red_shift as int, red as int, pf.green_shift as int, green as int)
    &&& apart(pf.red_shift as int, red as int, pf.blue_shift as int, blue as int)
    &&& apart(pf.green_shift as int, green as int, pf.blue_shift as int, blue as int)
}

/// Whether a number carries a pixel `0x00RRGGBB`: in the field of each channel, as
/// near as can be, what the pixel has of that colour.
pub open spec fn carries(pf: PixelFormat, red: u32, green: u32, blue: u32, v: int, px: u32) -> bool {
    &&& nearest(
        field(v, pf.red_shift as int, red as int),
        pf.red_max as int,
        px as int / 0x1_0000 % 256,
    )
    &&& nearest(
        field(v, pf.green_shift as int, green as int),
        pf.green_max as int,
        px as int / 256 % 256,
    )
    &&& nearest(field(v, pf.blue_shift as int, blue as int), pf.blue_max as int, px as int % 256)
}

proof fn lemma_two_fields(x: u32, s: u32, n: u32, y: u32, t: u32, m: u32)
    by (bit_vector)
    requires
        1 <= n < 32 && 1 <= m < 32 && s < 32 && t < 32,
        s + n <= 32 && t + m <= 32,
        x >> n == 0 && y >> m == 0,
        s + n <= t || t + m <= s,
    ensures
        (x << s) & (y << t) == 0,
        ((x << s) >> s) & (((1u32 << n) - 1) as u32) == x,
        ((y << t) >> s) & (((1u32 << n) - 1) as u32) == 0,
{
}

proof fn lemma_or_of_fields(a: u32, b: u32, c: u32, s: u32, m: u32)
    by (bit_vector)
    requires
        s < 32,
    ensures
        ((a | b | c) >> s) & m == ((a >> s) & m) | ((b >> s) & m) | ((c >> s) & m),
        a & b == 0 && a & c == 0 && b & c == 0 ==> a | b | c == a + b + c,
        a | 0u32 | 0u32 == a && 0u32 | a | 0u32 == a && 0u32 | 0u32 | a == a,
{
}

proof fn lemma_field_is_bits(v: u32, s: u32, n: u32)
    requires
        s < 32,
        n < 32,
    ensures
        field(v as int, s as int, n as int) == (v >> s) & (((1u32 << n) - 1) as u32),
{
    vstd::bits::lemma_u32_pow2_no_overflow(n as nat);
    vstd::arithmetic::power2::lemma_pow2_pos(n as nat);
    vstd::bits::lemma_u32_shr_is_div(v, s);
    vstd::bits::lemma_u32_shl_is_mul(1, n);
    vstd::bits::lemma_u32_low_bits_mask_is_mod(v >> s, n as nat);
}

proof fn lemma_below_field(x: u32, max: u16, s: u8, n: u32, bits: u8)
    requires
        x <= max,
        0 < max < pow2(n as nat),
        s + n <= bits <= 32,
    ensures
        1 <= n,
        n < 32 ==> x >> n == 0,
        s < 32,
        x * pow2(s as nat) < pow2(bits as nat),
        x << s == x * pow2(s as nat),
{
    vstd::arithmetic::power2::lemma2_to64();
    if n == 0 {
        assert(false);
    }
    vstd::arithmetic::power2::lemma_pow2_pos(n as nat);
    vstd::arithmetic::power2::lemma_pow2_pos(s as nat);
    if n < 32 {
        vstd::bits::lemma_u32_shr_is_div(x, n);
        vstd::arithmetic::div_mod::lemma_basic_div(x as int, pow2(n as nat) as int);
    }
    vstd::arithmetic::power2::lemma_pow2_adds(s as nat, n as nat);
    if s + n < bits {
        vstd::arithmetic::power2::lemma_pow2_strictly_increases((s + n) as nat, bits as nat);
    }
    let (p, q) = (pow2(s as nat) as int, pow2(n as nat) as int);
    assert(x * p < p * q) by (nonlinear_arith)
        requires
            x < q,
            0 < p,
    ;
    if bits < 32 {
        vstd::arithmetic::power2::lemma_pow2_strictly_increases(bits as nat, 32);
    }
    vstd::bits::lemma_u32_shl_is_mul(x, s as u32);
}

proof fn lemma_channels_by_division(px: u32)
    ensures
        red_of(px) == px / 0x1_0000 % 256,
        green_of(px) == px / 256 % 256,
        blue_of(px) == px % 256,
{
    assert((px >> 16) & 0xff == px / 0x1_0000 % 256 && (px >> 8) & 0xff == px / 256 % 256 && px
        & 0xff == px % 256) by (bit_vector);
}

proof fn lemma_scaled_is_nearest(c: u32, max: u16)
    requires
        c <= 255,
    ensures
        nearest(scaled(c, max) as int, max as int, c as int),
{
    lemma_scaled_bound(c, max);
    let n = c * max;
    assert(0 <= n <= 255 * max) by (nonlinear_arith)
        requires
            0 <= c <= 255,
            0 <= max,
            n == c * max,
    ;
    assert(scaled(c, max) == (n + 127) / 255);
}

/// The value of a pixel is the sum of its channels, each in its field.
proof fn lemma_value_of_fields(pf: PixelFormat, px: u32, red: u32, green: u32, blue: u32)
    requires
        has_fields(pf, red, green, blue),
    ensures
        carries(pf, red, green, blue, pixel_value(pf, px) as int, px),
        pixel_value(pf, px) < pow2(pf.bits_per_pixel as nat),
        pixel_value(pf, px) == field(
            pixel_value(pf, px) as int,
            pf.red_shift as int,
            red as int,
        ) * pow2(pf.red_shift as nat) + field(
            pixel_value(pf, px) as int,
            pf.green_shift as int,
            green as int,
        ) * pow2(pf.green_shift as nat) + field(
            pixel_value(pf, px) as int,
            pf.blue_shift as int,
            blue as int,
        ) * pow2(pf.blue_shift as nat),
{
    lemma_channels(px);
    lemma_channels_by_division(px);
    let (r, g, b) = (
        scaled(red_of(px), pf.red_max),
        scaled(green_of(px), pf.green_max),
        scaled(blue_of(px), pf.blue_max),
    );
    lemma_scaled_is_nearest(red_of(px), pf.red_max);
    lemma_scaled_is_nearest(green_of(px), pf.green_max);
    lemma_scaled_is_nearest(blue_of(px), pf.blue_max);
    lemma_below_field(r, pf.red_max, pf.red_shift, red, pf.bits_per_pixel);
    lemma_below_field(g, pf.green_max, pf.green_shift, green, pf.bits_per_pixel);
    lemma_below_field(b, pf.blue_max, pf.blue_shift, blue, pf.bits_per_pixel);
    let (s, t, u) = (pf.red_shift as u32, pf.green_shift as u32, pf.blue_shift as u32);
    lemma_two_fields(r, s, red, g, t, green);
    lemma_two_fields(r, s, red, b, u, blue);
    lemma_two_fields(g, t, green, r, s, red);
    lemma_two_fields(g, t, green, b, u, blue);
    lemma_two_fields(b, u, blue, r, s, red);
    lemma_two_fields(b, u, blue, g, t, green);
    let v = pixel_value(pf, px);
    assert(v == (r << s) | (g << t) | (b << u));
    lemma_or_of_fields(r << s, g << t, b << u, s, ((1u32 << red) - 1) as u32);
    lemma_or_of_fields(r << s, g << t, b << u, t, ((1u32 << green) - 1) as u32);
    lemma_or_of_fields(r << s, g << t, b << u, u, ((1u32 << blue) - 1) as u32);
    lemma_or_of_fields(r, g, b, 0, 0);
    lemma_or_of_fields(g, g, b, 0, 0);
    lemma_or_of_fields(b, g, b, 0, 0);
    lemma_field_is_bits(v, s, red);
    lemma_field_is_bits(v, t, green);
    lemma_field_is_bits(v, u, blue);
    assert(v == r * pow2(s as nat) + g * pow2(t as nat) + b * pow2(u as nat));
    lemma_value_fits(r << s, g << t, b << u, pf.bits_per_pixel);
}

proof fn lemma_value_fits(a: u32, b: u32, c: u32, bits: u8)
    requires
        bits == 8 || bits == 16 || bits == 32,
        a < pow2(bits as nat) && b < pow2(bits as nat) && c < pow2(bits as nat),
    ensures
        a | b | c < pow2(bits as nat),
{
    vstd::arithmetic::power2::lemma2_to64();
    assert(a < 256 && b < 256 && c < 256 ==> a | b | c < 256) by (bit_vector);
    assert(a < 0x1_0000 && b < 0x1_0000 && c < 0x1_0000 ==> a | b | c < 0x1_0000) by (bit_vector);
}

proof fn lemma_number_of_word(v: u32, bits: u8)
    requires
        bits == 8 || bits == 16 || bits == 32,
        v < pow2(bits as nat),
    ensures
        number_of(le32(v).subrange(0, (bits / 8) as int), false) == v,
        number_of(be32(v << ((32 - bits) as u32)).subrange(0, (bits / 8) as int), true) == v,
{
    vstd::arithmetic::power2::lemma2_to64();
    reveal_with_fuel(number_of, 5);
    let l = le32(v).subrange(0, (bits / 8) as int);
    let w = v << ((32 - bits) as u32);
    let b = be32(w).subrange(0, (bits / 8) as int);
    assert(v << 0u32 == v) by (bit_vector);
    assert(v < 256 ==> v << 24u32 == v * 0x100_0000) by (bit_vector);
    assert(v < 0x1_0000 ==> v << 16u32 == v * 0x1_0000) by (bit_vector);
    assert(v == v / 0x100_0000 * 0x100_0000 + v / 0x1_0000 % 256 * 0x1_0000 + v / 256 % 256 * 256
        + v % 256) by (bit_vector);
    if bits == 8 {
        assert(l =~= seq![v as u8]);
        assert(b =~= seq![v as u8]);
    } else if bits == 16 {
        assert(l =~= seq![(v % 256) as u8, (v / 256) as u8]);
        assert(l.skip(1) =~= seq![(v / 256) as u8]);
        assert(b =~= seq![(v / 256) as u8, (v % 256) as u8]);
        assert(b.drop_last() =~= seq![(v / 256) as u8]);
    } else {
        assert(l =~= le32(v));
        assert(b =~= be32(v));
        assert(l.skip(1).len() == 3 && l.skip(1).skip(1).len() == 2);
        assert(b.drop_last().len() == 3 && b.drop_last().drop_last().len() == 2);
    }
}

/// A client that reads a pixel back in its own format, byte order and all, finds in
/// the field of each channel what the pixel has of that colour, scaled to the
/// channel's maximum and rounded to nearest, and nothing in any other bit.
pub proof fn lemma_client_reads_the_colour(pf: PixelFormat, px: u32, red: u32, green: u32, blue: u32)
    requires
        has_fields(pf, red, green, blue),
    ensures
        ({
            let b = pixel_bytes(pf, px);
            let v = number_of(b, pf.big_endian);
            &&& b.len() == pf.bits_per_pixel / 8
            &&& carries(pf, red, green, blue, v, px)
            &&& v == field(v, pf.red_shift as int, red as int) * pow2(pf.red_shift as nat) + field(
                v,
                pf.green_shift as int,
                green as int,
            ) * pow2(pf.green_shift as nat) + field(v, pf.blue_shift as int, blue as int) * pow2(
                pf.blue_shift as nat,
            )
        }),
{
    lemma_value_of_fields(pf, px, red, green, blue);
    lemma_number_of_word(pixel_value(pf, px), pf.bits_per_pixel);
}

/// A row carries its pixels as they would be sent one by one: a client reads back
/// the colour of each, and nothing in any other bit.
pub proof fn lemma_client_reads_the_row_colour(
    pf: PixelFormat,
    px: u32,
    red: u32,
    green: u32,
    blue: u32,
)
    requires
        has_fields(pf, red, green, blue),
        px < 0x100_0000,
    ensures
        row_pixel(pf, px) == pixel_bytes(pf, px),
        carries(pf, red, green, blue, number_of(row_pixel(pf, px), pf.big_endian), px),
{
    lemma_client_reads_the_colour(pf, px, red, green, blue);
    if is_direct(pf) {
        lemma_direct_copy_is_conversion(pf, px);
    }
}

/// The bits of a channel at full intensity, as a number.
pub open spec fn full_channel(max: u16, shift: u8) -> int {
    max * pow2(shift as nat)
}

/// Whether all the bits of a format's channels are among the low three bytes of a
/// pixel.
pub open spec fn in_low_bytes(pf: PixelFormat) -> bool {
    &&& full_channel(pf.red_max, pf.red_shift) < 0x100_0000
    &&& full_channel(pf.green_max, pf.green_shift) < 0x100_0000
    &&& full_channel(pf.blue_max, pf.blue_shift) < 0x100_0000
}

proof fn lemma_number_of_three(v: u32)
    ensures
        v < 0x100_0000 ==> number_of(le32(v).subrange(0, 3), false) == v,
        v < 0x100_0000 ==> number_of(be32(v).subrange(1, 4), true) == v,
        v % 256 == 0 ==> number_of(le32(v).subrange(1, 4), false) * 256 == v,
        v % 256 == 0 ==> number_of(be32(v).subrange(0, 3), true) * 256 == v,
{
    reveal_with_fuel(number_of, 4);
    assert(v == v / 0x100_0000 * 0x100_0000 + v / 0x1_0000 % 256 * 0x1_0000 + v / 256 % 256 * 256
        + v % 256) by (bit_vector);
    let a = le32(v).subrange(0, 3);
    let b = be32(v).subrange(1, 4);
    let c = le32(v).subrange(1, 4);
    let d = be32(v).subrange(0, 3);
    assert(a.skip(1).len() == 2 && a.skip(1).skip(1).len() == 1);
    assert(b.drop_last().len() == 2 && b.drop_last().drop_last().len() == 1);
    assert(c.skip(1).len() == 2 && c.skip(1).skip(1).len() == 1);
    assert(d.drop_last().len() == 2 && d.drop_last().drop_last().len() == 1);
}

proof fn lemma_low_bytes_of_channel(x: u32, max: u16, s: u8)
    requires
        x <= max,
        s < 32,
        full_channel(max, s) <= u32::MAX,
    ensures
        (max as u32) << s == full_channel(max, s),
        x << s <= (max as u32) << s,
        s >= 8 ==> ((max as u32) << s) & 0xff == 0 && (x << s) & 0xff == 0,
{
    let p = pow2(s as nat) as int;
    assert(x * p <= max * p) by (nonlinear_arith)
        requires
            x <= max,
            0 <= p,
    ;
    vstd::bits::lemma_u32_shl_is_mul(max as u32, s as u32);
    vstd::bits::lemma_u32_shl_is_mul(x, s as u32);
    let m = max as u32;
    assert(8 <= s < 32 ==> (m << s) & 0xff == 0 && (x << s) & 0xff == 0) by (bit_vector);
}

proof fn lemma_high_byte(a: u32, b: u32, c: u32)
    ensures
        (a | b | c) & 0xff00_0000 == 0 <==> a < 0x100_0000 && b < 0x100_0000 && c < 0x100_0000,
        a < 0x100_0000 && b < 0x100_0000 && c < 0x100_0000 ==> a | b | c < 0x100_0000,
        (a | b | c) & 0xff == 0 <==> a % 256 == 0 && b % 256 == 0 && c % 256 == 0,
        (a | b | c) & 0xff == (a | b | c) % 256,
{
    assert(((a | b | c) & 0xff00_0000 == 0) == (a < 0x100_0000 && b < 0x100_0000 && c < 0x100_0000))
        by (bit_vector);
    assert(a < 0x100_0000 && b < 0x100_0000 && c < 0x100_0000 ==> a | b | c < 0x100_0000)
        by (bit_vector);
    assert(((a | b | c) & 0xff == 0) == (a % 256 == 0 && b % 256 == 0 && c % 256 == 0))
        by (bit_vector);
    assert((a | b | c) & 0xff == (a | b | c) % 256) by (bit_vector);
}

/// A CPIXEL is the pixel itself, but for a 32-bit pixel of depth 24 or less whose
/// channels leave a byte at its end alone: then it is the other three bytes. From
/// either, a client has the number that the pixel stands for.
pub proof fn lemma_client_reads_the_cpixel(pf: PixelFormat, px: u32)
    requires
        pf.servable(),
    ensures
        ({
            let b = cpixel_bytes(pf, px);
            let whole = number_of(pixel_bytes(pf, px), pf.big_endian);
            let shorter = pf.bits_per_pixel == 32 && pf.depth <= 24;
            let above = pf.red_shift >= 8 && pf.green_shift >= 8 && pf.blue_shift >= 8;
            let touched = full_channel(pf.red_max, pf.red_shift) % 256 != 0 || full_channel(
                pf.green_max,
                pf.green_shift,
            ) % 256 != 0 || full_channel(pf.blue_max, pf.blue_shift) % 256 != 0;
            &&& shorter && in_low_bytes(pf) ==> b.len() == 3 && number_of(b, pf.big_endian) == whole
            &&& shorter && !in_low_bytes(pf) && above ==> b.len() == 3 && number_of(
                b,
                pf.big_endian,
            ) * 256 == whole
            &&& shorter && !in_low_bytes(pf) && touched ==> b == pixel_bytes(pf, px)
            &&& !shorter ==> b == pixel_bytes(pf, px)
        }),
{
    lemma_pixel_bytes_are_the_value(pf, px);
    lemma_servable_is_convertible(pf);
    lemma_channels(px);
    let (r, g, b) = (
        scaled(red_of(px), pf.red_max),
        scaled(green_of(px), pf.green_max),
        scaled(blue_of(px), pf.blue_max),
    );
    lemma_scaled_bound(red_of(px), pf.red_max);
    lemma_scaled_bound(green_of(px), pf.green_max);
    lemma_scaled_bound(blue_of(px), pf.blue_max);
    lemma_channel_below(pf, pf.red_max as u32, pf.red_max, pf.red_shift);
    lemma_channel_below(pf, pf.green_max as u32, pf.green_max, pf.green_shift);
    lemma_channel_below(pf, pf.blue_max as u32, pf.blue_max, pf.blue_shift);
    if pf.bits_per_pixel == 32 {
        vstd::arithmetic::power2::lemma2_to64();
        lemma_low_bytes_of_channel(r, pf.red_max, pf.red_shift);
        lemma_low_bytes_of_channel(g, pf.green_max, pf.green_shift);
        lemma_low_bytes_of_channel(b, pf.blue_max, pf.blue_shift);
        lemma_high_byte(
            (pf.red_max as u32) << pf.red_shift,
            (pf.green_max as u32) << pf.green_shift,
            (pf.blue_max as u32) << pf.blue_shift,
        );
        lemma_high_byte(r << pf.red_shift, g << pf.green_shift, b << pf.blue_shift);
        lemma_or_masks(r << pf.red_shift, g << pf.green_shift, b << pf.blue_shift);
        lemma_or_masks(
            (pf.red_max as u32) << pf.red_shift,
            (pf.green_max as u32) << pf.green_shift,
            (pf.blue_max as u32) << pf.blue_shift,
        );
        let v = pixel_value(pf, px);
        assert(v << 0u32 == v) by (bit_vector);
        lemma_number_of_three(v);
        lemma_number_of_word(v, 32);
    }
}

proof fn lemma_bit_len_and_power(n: nat, k: nat)
    ensures
        bit_len(n) <= k <==> n < pow2(k),
    decreases k,
{
    vstd::arithmetic::power2::lemma2_to64();
    if k > 0 {
        vstd::arithmetic::power2::lemma_pow2_unfold(k);
        lemma_bit_len_and_power(n / 2, (k - 1) as nat);
    }
    if n > 0 && k == 0 {
        assert(bit_len(n) >= 1);
    }
}

/// Whether a channel lies inside a pixel of so many bits: its maximum, shifted to its
/// place, is still a number of that many bits.
pub open spec fn lies_inside(max: u16, shift: u8, bits: u8) -> bool {
    shift <= bits && max < pow2((bits - shift) as nat)
}

/// A pixel format is read field by field: sizes and flags, three maxima of two bytes
/// and three shifts. It is accepted if it is true colour of 8, 16 or 32 bits with
/// three channels that lie inside the pixel, and only then.
pub proof fn lemma_format_is_read_by_position(b: Seq<u8>)
    ensures
        ({
            let red = number_of(b.subrange(4, 6), true);
            let green = number_of(b.subrange(6, 8), true);
            let blue = number_of(b.subrange(8, 10), true);
            let good = b.len() >= 16 && b[3] != 0 && (b[0] == 8 || b[0] == 16 || b[0] == 32) && red
                > 0 && green > 0 && blue > 0 && lies_inside(red as u16, b[10], b[0])
                && lies_inside(green as u16, b[11], b[0]) && lies_inside(blue as u16, b[12], b[0]);
            match PixelFormat::parsed(b) {
                Some(pf) => {
                    &&& good
                    &&& pf.bits_per_pixel == b[0] && pf.depth == b[1]
                    &&& pf.big_endian == (b[2] != 0) && pf.true_colour
                    &&& pf.red_max == red && pf.green_max == green && pf.blue_max == blue
                    &&& pf.red_shift == b[10] && pf.green_shift == b[11] && pf.blue_shift == b[12]
                },
                None => !good,
            }
        }),
{
    if b.len() >= 16 {
        lemma_two_bytes(b, 4);
        lemma_two_bytes(b, 6);
        lemma_two_bytes(b, 8);
        let pf = PixelFormat::described_by(b);
        if b[10] <= b[0] {
            lemma_bit_len_and_power(pf.red_max as nat, (b[0] - b[10]) as nat);
        }
        if b[11] <= b[0] {
            lemma_bit_len_and_power(pf.green_max as nat, (b[0] - b[11]) as nat);
        }
        if b[12] <= b[0] {
            lemma_bit_len_and_power(pf.blue_max as nat, (b[0] - b[12]) as nat);
        }
    }
}

pub(crate) proof fn lemma_two_bytes(b: Seq<u8>, i: int)
    requires
        0 <= i,
        i + 2 <= b.len(),
    ensures
        number_of(b.subrange(i, i + 2), true) == be16_at(b, i),
{
    reveal_with_fuel(number_of, 3);
    assert(b.subrange(i, i + 2).drop_last().len() == 1);
}

/// Our own format is 32 bits a pixel with blue in the lowest byte, green in the next
/// and red in the third, the lowest byte first.
pub proof fn lemma_own_format_is_bgrx(px: u32)
    ensures
        PixelFormat::rgb().servable(),
        PixelFormat::rgb().depth == 24,
        pixel_bytes(PixelFormat::rgb(), px) == seq![
            (px % 256) as u8,
            (px / 256 % 256) as u8,
            (px / 0x1_0000 % 256) as u8,
            0u8,
        ],
        cpixel_bytes(PixelFormat::rgb(), px) == seq![
            (px % 256) as u8,
            (px / 256 % 256) as u8,
            (px / 0x1_0000 % 256) as u8,
        ],
{
    let pf = PixelFormat::rgb();
    vstd::arithmetic::power2::lemma2_to64();
    lemma_bit_len_and_power(255, 8);
    let low = px % 0x100_0000;
    assert(((((px >> 16) & 0xff) << 16u8) | (((px >> 8) & 0xff) << 8u8) | ((px & 0xff) << 0u8))
        == px % 0x100_0000) by (bit_vector);
    lemma_channels(px);
    assert(scaled(red_of(px), 255) == red_of(px) && scaled(green_of(px), 255) == green_of(px)
        && scaled(blue_of(px), 255) == blue_of(px));
    assert(pixel_value(pf, px) == low);
    assert(low / 256 % 256 == px / 256 % 256 && low / 0x1_0000 % 256 == px / 0x1_0000 % 256 && low
        % 256 == px % 256 && low / 0x100_0000 == 0) by (bit_vector)
        requires
            low == px % 0x100_0000,
    ;
    assert((((255u32) << 16u8) | ((255u32) << 8u8) | ((255u32) << 0u8)) & 0xff00_0000 == 0)
        by (bit_vector);
    assert(pixel_bytes(pf, px) =~= seq![
        (px % 256) as u8,
        (px / 256 % 256) as u8,
        (px / 0x1_0000 % 256) as u8,
        0u8,
    ]);
    assert(cpixel_bytes(pf, px) =~= seq![
        (px % 256) as u8,
        (px / 256 % 256) as u8,
        (px / 0x1_0000 % 256) as u8,
    ]);
}

/// Whatever fields a format has, even such as overlap, a pixel is sent as all of its
/// channels together, and a pixel of one colour alone as that channel, scaled and
/// shifted.
pub proof fn lemma_channels_are_sent_together(pf: PixelFormat, px: u32)
    requires
        pf.servable(),
    ensures
        pixel_value(pf, px) == pixel_value(pf, px & 0xff_0000) | pixel_value(pf, px & 0xff00)
            | pixel_value(pf, px & 0xff),
        nearest(
            pixel_value(pf, px & 0xff_0000) as int / pow2(pf.red_shift as nat) as int,
            pf.red_max as int,
            px as int / 0x1_0000 % 256,
        ),
        nearest(
            pixel_value(pf, px & 0xff00) as int / pow2(pf.green_shift as nat) as int,
            pf.green_max as int,
            px as int / 256 % 256,
        ),
        nearest(
            pixel_value(pf, px & 0xff) as int / pow2(pf.blue_shift as nat) as int,
            pf.blue_max as int,
            px as int % 256,
        ),
{
    lemma_channels(px);
    lemma_channels_by_division(px);
    lemma_servable_is_convertible(pf);
    let (r, g, b) = (px & 0xff_0000, px & 0xff00, px & 0xff);
    assert(((px & 0xff_0000) >> 16) & 0xff == (px >> 16) & 0xff && ((px & 0xff_0000) >> 8) & 0xff
        == 0 && (px & 0xff_0000) & 0xff == 0) by (bit_vector);
    assert(((px & 0xff00) >> 16) & 0xff == 0 && ((px & 0xff00) >> 8) & 0xff == (px >> 8) & 0xff && (
    px & 0xff00) & 0xff == 0) by (bit_vector);
    assert(((px & 0xff) >> 16) & 0xff == 0 && ((px & 0xff) >> 8) & 0xff == 0 && (px & 0xff) & 0xff
        == px & 0xff) by (bit_vector);
    assert(scaled(0, pf.red_max) == 0 && scaled(0, pf.green_max) == 0 && scaled(0, pf.blue_max)
        == 0);
    let (s, t, u) = (pf.red_shift, pf.green_shift, pf.blue_shift);
    assert(0u32 << s == 0 && 0u32 << t == 0 && 0u32 << u == 0) by (bit_vector);
    let (x, y, z) = (
        scaled(red_of(px), pf.red_max) << s,
        scaled(green_of(px), pf.green_max) << t,
        scaled(blue_of(px), pf.blue_max) << u,
    );
    assert(x | 0u32 | 0u32 == x && 0u32 | y | 0u32 == y && 0u32 | 0u32 | z == z) by (bit_vector);
    assert(pixel_value(pf, r) == x && pixel_value(pf, g) == y && pixel_value(pf, b) == z);
    lemma_single_channel(pf, scaled(red_of(px), pf.red_max), pf.red_max, s);
    lemma_single_channel(pf, scaled(green_of(px), pf.green_max), pf.green_max, t);
    lemma_single_channel(pf, scaled(blue_of(px), pf.blue_max), pf.blue_max, u);
    lemma_scaled_is_nearest(red_of(px), pf.red_max);
    lemma_scaled_is_nearest(green_of(px), pf.green_max);
    lemma_scaled_is_nearest(blue_of(px), pf.blue_max);
}

proof fn lemma_channel_below(pf: PixelFormat, v: u32, max: u16, shift: u8)
    requires
        pf.servable(),
        max > 0,
        pf.channel_fits(max, shift),
        v <= max,
    ensures
        shift < 32,
        v << shift == v * pow2(shift as nat),
        v * pow2(shift as nat) < pow2(pf.bits_per_pixel as nat),
{
    lemma_bit_len_u16(max);
    lemma_bit_len_and_power(max as nat, bit_len(max as nat));
    lemma_below_field(v, max, shift, bit_len(max as nat) as u32, pf.bits_per_pixel);
}

proof fn lemma_single_channel(pf: PixelFormat, v: u32, max: u16, shift: u8)
    requires
        pf.servable(),
        max > 0,
        pf.channel_fits(max, shift),
    ensures
        v <= max ==> (v << shift) as int / pow2(shift as nat) as int == v,
{
    if v <= max {
        lemma_channel_below(pf, v, max, shift);
        vstd::arithmetic::power2::lemma_pow2_pos(shift as nat);
        vstd::arithmetic::div_mod::lemma_div_by_multiple(v as int, pow2(shift as nat) as int);
    }
}

/// A pixel on the wire is its value, in as many bytes as the format has and in the
/// format's byte order, whatever its fields.
pub proof fn lemma_pixel_bytes_are_the_value(pf: PixelFormat, px: u32)
    requires
        pf.servable(),
    ensures
        pixel_bytes(pf, px).len() == pf.bits_per_pixel / 8,
        number_of(pixel_bytes(pf, px), pf.big_endian) == pixel_value(pf, px),
{
    lemma_channels(px);
    let (r, g, b) = (
        scaled(red_of(px), pf.red_max),
        scaled(green_of(px), pf.green_max),
        scaled(blue_of(px), pf.blue_max),
    );
    lemma_scaled_bound(red_of(px), pf.red_max);
    lemma_scaled_bound(green_of(px), pf.green_max);
    lemma_scaled_bound(blue_of(px), pf.blue_max);
    lemma_channel_below(pf, r, pf.red_max, pf.red_shift);
    lemma_channel_below(pf, g, pf.green_max, pf.green_shift);
    lemma_channel_below(pf, b, pf.blue_max, pf.blue_shift);
    lemma_value_fits(
        r << pf.red_shift,
        g << pf.green_shift,
        b << pf.blue_shift,
        pf.bits_per_pixel,
    );
    lemma_number_of_word(pixel_value(pf, px), pf.bits_per_pixel);
}

/// In a row a pixel is sent as anywhere else, but where the client's format is the
/// frame's own: then it is the frame's number, the lowest byte first.
pub proof fn lemma_rows_are_copied_or_converted(pf: PixelFormat, px: u32)
    ensures
        ({
            let own = pf.bits_per_pixel == 32 && !pf.big_endian && pf.red_max == 255
                && pf.green_max == 255 && pf.blue_max == 255 && pf.red_shift == 16 && pf.green_shift
                == 8 && pf.blue_shift == 0;
            if own {
                row_pixel(pf, px).len() == 4 && number_of(row_pixel(pf, px), false) == px
            } else {
                row_pixel(pf, px) == pixel_bytes(pf, px)
            }
        }),
{
    vstd::arithmetic::power2::lemma2_to64();
    lemma_number_of_word(px, 32);
    assert(le32(px).subrange(0, 4) =~= le32(px));
}

} // verus!
