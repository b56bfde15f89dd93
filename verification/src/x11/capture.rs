//! Screen capture: what to read of the screen, when, and what to make of it.

use vstd::prelude::*;

use crate::screen::frame::{min_of, CursorImage, Frame, Rect};
use crate::text::{decimal, push_decimal, push_text};
use crate::x11::image::{
    lemma_channel_is_its_mask, lemma_channel_wf, Channel, Grab, ImageFmt,
};

verus! {

/// A visual of the X server's setup, with the depth it is listed under.
#[derive(Clone, Copy, Debug, PartialEq, Eq, Structural)]
pub struct Visual {
    pub depth: u8,
    pub id: u32,
    pub red_mask: u32,
    pub green_mask: u32,
    pub blue_mask: u32,
}

/// How pixmaps of one depth are laid out.
#[derive(Clone, Copy, Debug, PartialEq, Eq, Structural)]
pub struct PixmapFormat {
    pub depth: u8,
    pub bits_per_pixel: u8,
    pub scanline_pad: u8,
}

/// What the X server says about a screen.
pub struct ScreenSetup {
    pub root: u32,
    pub width: u16,
    pub height: u16,
    pub root_visual: u32,
    pub visuals: Vec<Visual>,
    pub pixmap_formats: Vec<PixmapFormat>,
    pub msb_first: bool,
}

/// Why a screen cannot be captured.
#[derive(Clone, Copy, Debug, PartialEq, Eq, Structural)]
pub enum CaptureError {
    NoRootVisual,
    NoPixmapFormat,
    UnsupportedPixelSize(u8),
    NotTrueColour,
}

impl CaptureError {
    pub open spec fn message(self) -> Seq<char> {
        match self {
            CaptureError::NoRootVisual => "root visual not found in the server setup"@,
            CaptureError::NoPixmapFormat => "no pixmap format for the root depth"@,
            CaptureError::UnsupportedPixelSize(n) => "unsupported X server pixel size: "@ + decimal(
                n as nat,
            ) + " bits (need 16, 24 or 32)"@,
            CaptureError::NotTrueColour =>
                "the root visual is not true colour (palette displays are not supported)"@,
        }
    }

    pub fn text(&self) -> (s: String)
        ensures
            s@ == self.message(),
    {
        match self {
            CaptureError::NoRootVisual => "root visual not found in the server setup".to_owned(),
            CaptureError::NoPixmapFormat => "no pixmap format for the root depth".to_owned(),
            CaptureError::UnsupportedPixelSize(n) => {
                let mut s: String = "unsupported X server pixel size: ".to_owned();
                push_decimal(&mut s, *n as u64);
                push_text(&mut s, " bits (need 16, 24 or 32)");
                s
            },
            CaptureError::NotTrueColour =>
                "the root visual is not true colour (palette displays are not supported)".to_owned(),
        }
    }
}

/// The first visual with a number.
pub open spec fn visual_with(vs: Seq<Visual>, id: u32) -> Option<Visual>
    decreases vs.len(),
{
    if vs.len() == 0 {
        None
    } else if vs[0].id == id {
        Some(vs[0])
    } else {
        visual_with(vs.skip(1), id)
    }
}

/// The first pixmap format of a depth.
pub open spec fn format_for(fs: Seq<PixmapFormat>, depth: u8) -> Option<PixmapFormat>
    decreases fs.len(),
{
    if fs.len() == 0 {
        None
    } else if fs[0].depth == depth {
        Some(fs[0])
    } else {
        format_for(fs.skip(1), depth)
    }
}

/// How pixels of a visual and a pixmap format are laid out.
pub open spec fn layout(v: Visual, f: PixmapFormat, msb_first: bool) -> ImageFmt {
    ImageFmt {
        bits_per_pixel: f.bits_per_pixel,
        scanline_pad: f.scanline_pad,
        big_endian: msb_first,
        red: Channel::of(v.red_mask),
        green: Channel::of(v.green_mask),
        blue: Channel::of(v.blue_mask),
        fast_bgrx: f.bits_per_pixel == 32 && !msb_first && v.red_mask == 0x00ff_0000 && v.green_mask
            == 0x0000_ff00 && v.blue_mask == 0x0000_00ff,
    }
}

/// How the pixels of a screen are laid out, or why they cannot be read.
pub open spec fn screen_layout(s: ScreenSetup) -> Result<ImageFmt, CaptureError> {
    match visual_with(s.visuals@, s.root_visual) {
        None => Err(CaptureError::NoRootVisual),
        Some(v) => match format_for(s.pixmap_formats@, v.depth) {
            None => Err(CaptureError::NoPixmapFormat),
            Some(f) => if f.bits_per_pixel != 16 && f.bits_per_pixel != 24 && f.bits_per_pixel
                != 32 {
                Err(CaptureError::UnsupportedPixelSize(f.bits_per_pixel))
            } else if v.red_mask == 0 {
                Err(CaptureError::NotTrueColour)
            } else {
                Ok(layout(v, f, s.msb_first))
            },
        },
    }
}

/// Whether the rows of the screen's images, if they can be read, are padded to
/// whole bytes.
pub open spec fn padding_is_known(s: ScreenSetup) -> bool {
    match screen_layout(s) {
        Ok(f) => f.scanline_pad > 0 && f.scanline_pad % 8 == 0,
        Err(_) => true,
    }
}

fn find_visual(vs: &[Visual], id: u32) -> (r: Option<Visual>)
    ensures
        r == visual_with(vs@, id),
{
    assert(vs@.skip(0) =~= vs@);
    for i in 0..vs.len()
        invariant
            visual_with(vs@, id) == visual_with(vs@.skip(i as int), id),
    {
        if vs[i].id == id {
            return Some(vs[i]);
        }
        assert(vs@.skip(i as int).skip(1) =~= vs@.skip(i + 1));
    }
    None
}

fn find_format(fs: &[PixmapFormat], depth: u8) -> (r: Option<PixmapFormat>)
    ensures
        r == format_for(fs@, depth),
{
    assert(fs@.skip(0) =~= fs@);
    for i in 0..fs.len()
        invariant
            format_for(fs@, depth) == format_for(fs@.skip(i as int), depth),
    {
        if fs[i].depth == depth {
            return Some(fs[i]);
        }
        assert(fs@.skip(i as int).skip(1) =~= fs@.skip(i + 1));
    }
    None
}

/// How the pixels of a screen are laid out.
fn layout_of(s: &ScreenSetup) -> (r: Result<ImageFmt, CaptureError>)
    ensures
        r == screen_layout(*s),
        r is Ok && padding_is_known(*s) ==> (r->Ok_0).wf(),
{
    let v: Visual = match find_visual(s.visuals.as_slice(), s.root_visual) {
        Some(v) => v,
        None => {
            return Err(CaptureError::NoRootVisual);
        },
    };
    let f: PixmapFormat = match find_format(s.pixmap_formats.as_slice(), v.depth) {
        Some(f) => f,
        None => {
            return Err(CaptureError::NoPixmapFormat);
        },
    };
    if f.bits_per_pixel != 16 && f.bits_per_pixel != 24 && f.bits_per_pixel != 32 {
        return Err(CaptureError::UnsupportedPixelSize(f.bits_per_pixel));
    }
    if v.red_mask == 0 {
        return Err(CaptureError::NotTrueColour);
    }
    let fmt = ImageFmt {
        bits_per_pixel: f.bits_per_pixel,
        scanline_pad: f.scanline_pad,
        big_endian: s.msb_first,
        red: Channel::new(v.red_mask),
        green: Channel::new(v.green_mask),
        blue: Channel::new(v.blue_mask),
        fast_bgrx: f.bits_per_pixel == 32 && !s.msb_first && v.red_mask == 0x00ff_0000
            && v.green_mask == 0x0000_ff00 && v.blue_mask == 0x0000_00ff,
    };
    proof {
        if fmt.fast_bgrx {
            lemma_bgrx_channels();
        }
    }
    Ok(fmt)
}

impl ScreenSetup {
    /// Whether the padding of the screen's images is one that can be read.
    pub fn has_known_padding(&self) -> (b: bool)
        ensures
            b == padding_is_known(*self),
    {
        match layout_of(self) {
            Ok(f) => f.scanline_pad > 0 && f.scanline_pad % 8 == 0,
            Err(_) => true,
        }
    }
}

/// A rectangle as the X server reports it.
#[derive(Clone, Copy, Debug, PartialEq, Eq, Structural)]
pub struct XRect {
    pub x: i16,
    pub y: i16,
    pub width: u16,
    pub height: u16,
}

/// A cursor image as XFIXES reports it.
pub struct CursorReply {
    pub width: u16,
    pub height: u16,
    pub xhot: u16,
    pub yhot: u16,
    pub pixels: Vec<u32>,
}

/// The capture's view of the screen.
pub struct Capture {
    pub root: u32,
    pub width: u16,
    pub height: u16,
    pub fmt: ImageFmt,
    pub damage: bool,
    pub has_xfixes: bool,
}

pub open spec fn clamp_of(v: int, low: int, high: int) -> int {
    if v < low {
        low
    } else if v > high {
        high
    } else {
        v
    }
}

impl Capture {
    pub open spec fn wf(self) -> bool {
        self.fmt.wf()
    }

    /// Prepare to capture a screen. XDAMAGE and XFIXES are optional, and
    /// neither is in use yet.
    pub fn open(s: &ScreenSetup) -> (r: Result<Self, CaptureError>)
        requires
            padding_is_known(*s),
        ensures
            match r {
                Ok(c) => {
                    &&& c.wf()
                    &&& screen_layout(*s) == Ok::<ImageFmt, CaptureError>(c.fmt)
                    &&& c.root == s.root && c.width == s.width && c.height == s.height
                    &&& !c.damage && !c.has_xfixes
                },
                Err(e) => screen_layout(*s) == Err::<ImageFmt, CaptureError>(e),
            },
    {
        let fmt: ImageFmt = match layout_of(s) {
            Ok(fmt) => fmt,
            Err(e) => {
                return Err(e);
            },
        };
        Ok(
            Capture {
                root: s.root,
                width: s.width,
                height: s.height,
                fmt,
                damage: false,
                has_xfixes: false,
            },
        )
    }

    /// Take note of the extensions that the X server has. Damage is reported
    /// as regions, so it takes both; without it we fall back to polling the
    /// whole screen.
    pub fn setup_extensions(&mut self, xfixes_ok: bool, damage_ok: bool, created: bool)
        ensures
            *final(self) == (Capture {
                has_xfixes: xfixes_ok,
                damage: old(self).damage || (xfixes_ok && damage_ok && created),
                ..*old(self)
            }),
    {
        self.has_xfixes = xfixes_ok;
        if xfixes_ok && damage_ok && created {
            self.damage = true;
        }
    }

    pub fn has_damage(&self) -> (b: bool)
        ensures
            b == self.damage,
    {
        self.damage
    }

    /// Adopt a new screen size after a resize.
    pub fn set_size(&mut self, width: u16, height: u16)
        ensures
            *final(self) == (Capture { width, height, ..*old(self) }),
    {
        self.width = width;
        self.height = height;
    }

    /// Take the X server's word for the root window's real size after a grab
    /// raced a resize.
    pub fn resync_size(&mut self, width: u16, height: u16) -> (d: (u16, u16))
        ensures
            *final(self) == (Capture { width, height, ..*old(self) }),
            d == (width, height),
    {
        self.set_size(width, height);
        (width, height)
    }

    /// What to ask the X server for to read `r`. The rectangle is clipped to
    /// the screen, which can shrink under us when a client asks for a
    /// different resolution, and to the frame.
    pub fn region(&self, frame: &Frame, r: Rect) -> (c: Option<Rect>)
        ensures
            c == r.clipped(
                min_of(self.width as int, frame.width as int) as u32,
                min_of(self.height as int, frame.height as int) as u32,
            ),
            c matches Some(q) ==> q.inside(frame.width as int, frame.height as int) && q.w <= 0xffff
                && q.h <= 0xffff,
    {
        let w: u32 = if self.width as u32 <= frame.width {
            self.width as u32
        } else {
            frame.width
        };
        let h: u32 = if self.height as u32 <= frame.height {
            self.height as u32
        } else {
            frame.height
        };
        r.clip(w, h)
    }

    /// Put the X server's image of `r` into the frame. There is none when the
    /// server refused: the screen shrank between the clip and the request, so
    /// the rectangle is no longer inside the root. Recoverable: the caller
    /// re-reads the size and starts over.
    pub fn grab(&self, frame: &mut Frame, r: Rect, image: &Option<Vec<u8>>) -> (g: Grab)
        requires
            self.wf(),
            old(frame).wf(),
            r.inside(old(frame).width as int, old(frame).height as int),
            r.w <= 0xffff,
            r.h <= 0xffff,
        ensures
            final(frame).wf(),
            final(frame).width == old(frame).width,
            final(frame).height == old(frame).height,
            g is Raced <==> (match *image {
                Some(data) => data@.len() < self.fmt.image_len(r),
                None => true,
            }),
            g is Raced ==> *final(frame) == *old(frame),
            g is Done ==> forall|x: int, y: int|
                old(frame).covers(x, y) ==> #[trigger] final(frame).pixel(x, y) == (if r.has(x, y) {
                    self.fmt.image_pixel((*image)->Some_0@, r, x, y)
                } else {
                    old(frame).pixel(x, y)
                }),
    {
        match image {
            Some(data) => self.fmt.store(frame, r, data.as_slice()),
            None => Grab::Raced,
        }
    }

    /// What is left of a reported rectangle on the screen.
    pub open spec fn clamped(self, r: XRect) -> Option<Rect> {
        let x0 = clamp_of(r.x as int, 0, 0x7fff);
        let y0 = clamp_of(r.y as int, 0, 0x7fff);
        let x1 = clamp_of(r.x + r.width, 0, self.width as int);
        let y1 = clamp_of(r.y + r.height, 0, self.height as int);
        if x1 <= x0 || y1 <= y0 {
            None
        } else {
            Some(
                Rect { x: x0 as u32, y: y0 as u32, w: (x1 - x0) as u32, h: (y1 - y0) as u32 },
            )
        }
    }

    /// What is left of reported rectangles on the screen.
    pub open spec fn all_clamped(self, rs: Seq<XRect>) -> Seq<Rect>
        decreases rs.len(),
    {
        if rs.len() == 0 {
            seq![]
        } else {
            let front = self.all_clamped(rs.drop_last());
            match self.clamped(rs.last()) {
                Some(r) => front.push(r),
                None => front,
            }
        }
    }

    fn clamp(&self, r: XRect) -> (c: Option<Rect>)
        ensures
            c == self.clamped(r),
    {
        let x0: i32 = if r.x < 0 {
            0
        } else {
            r.x as i32
        };
        let y0: i32 = if r.y < 0 {
            0
        } else {
            r.y as i32
        };
        let x1: i32 = clamp_extent(r.x as i32 + r.width as i32, self.width as i32);
        let y1: i32 = clamp_extent(r.y as i32 + r.height as i32, self.height as i32);
        if x1 <= x0 || y1 <= y0 {
            return None;
        }
        Some(Rect { x: x0 as u32, y: y0 as u32, w: (x1 - x0) as u32, h: (y1 - y0) as u32 })
    }

    /// The damaged rectangles, as far as they are on the screen.
    pub fn take_damage(&self, reported: &[XRect]) -> (v: Vec<Rect>)
        ensures
            v@ == (if self.damage {
                self.all_clamped(reported@)
            } else {
                seq![]
            }),
    {
        let mut v: Vec<Rect> = Vec::new();
        if !self.damage {
            assert(v@ =~= seq![]);
            return v;
        }
        assert(reported@.take(0) =~= Seq::<XRect>::empty());
        assert(v@ =~= self.all_clamped(reported@.take(0)));
        for i in 0..reported.len()
            invariant
                v@ == self.all_clamped(reported@.take(i as int)),
        {
            match self.clamp(reported[i]) {
                Some(r) => {
                    v.push(r);
                },
                None => {},
            }
            assert(reported@.take(i + 1).drop_last() =~= reported@.take(i as int));
        }
        assert(reported@.take(reported@.len() as int) =~= reported@);
        v
    }

    /// The cursor's shape, if the X server tells it and it has one.
    pub fn cursor(&self, c: CursorReply) -> (img: Option<CursorImage>)
        ensures
            match img {
                Some(i) => {
                    &&& self.has_xfixes && c.width != 0 && c.height != 0
                    &&& i.width == c.width && i.height == c.height
                    &&& i.hot_x == c.xhot && i.hot_y == c.yhot
                    &&& i.argb == c.pixels
                },
                None => !self.has_xfixes || c.width == 0 || c.height == 0,
            },
    {
        if !self.has_xfixes || c.width == 0 || c.height == 0 {
            return None;
        }
        Some(
            CursorImage {
                width: c.width,
                height: c.height,
                hot_x: c.xhot,
                hot_y: c.yhot,
                argb: c.pixels,
            },
        )
    }

    /// The whole screen.
    pub open spec fn full(self) -> Rect {
        Rect { x: 0, y: 0, w: self.width as u32, h: self.height as u32 }
    }

    pub fn full_rect(&self) -> (r: Rect)
        ensures
            r == self.full(),
    {
        Rect { x: 0, y: 0, w: self.width as u32, h: self.height as u32 }
    }
}

fn clamp_extent(v: i32, high: i32) -> (r: i32)
    requires
        0 <= high,
    ensures
        r == clamp_of(v as int, 0, high as int),
{
    if v < 0 {
        0
    } else if v > high {
        high
    } else {
        v
    }
}

proof fn lemma_bgrx_channels()
    ensures
        Channel::of(0x00ff_0000) == (Channel { shift: 16, max: 255 }),
        Channel::of(0x0000_ff00) == (Channel { shift: 8, max: 255 }),
        Channel::of(0x0000_00ff) == (Channel { shift: 0, max: 255 }),
{
    reveal_with_fuel(crate::x11::image::unshifted, 18);
}

/// A reported rectangle keeps exactly the pixels that are on the screen, and
/// lies on it.
pub proof fn lemma_clamp_keeps_visible_pixels(c: Capture, r: XRect)
    ensures
        match c.clamped(r) {
            Some(k) => {
                &&& k.w > 0 && k.h > 0 && k.inside(c.width as int, c.height as int)
                &&& forall|px: int, py: int| #[trigger]
                    k.has(px, py) <==> r.x <= px < r.x + r.width && r.y <= py < r.y + r.height && 0
                        <= px < c.width && 0 <= py < c.height
            },
            None => forall|px: int, py: int|
                !(r.x <= px < r.x + r.width && r.y <= py < r.y + r.height && 0 <= px < c.width
                    && #[trigger] c.full().has(px, py)),
        },
{
}

proof fn lemma_first_visual(vs: Seq<Visual>, id: u32, i: int)
    requires
        0 <= i <= vs.len(),
        forall|k: int| 0 <= k < i ==> (#[trigger] vs[k]).id != id,
        i < vs.len() ==> vs[i].id == id,
    ensures
        visual_with(vs, id) == (if i < vs.len() {
            Some(vs[i])
        } else {
            None
        }),
    decreases vs.len(),
{
    if i > 0 {
        assert(vs[0].id != id);
        let t = vs.skip(1);
        assert forall|k: int| 0 <= k < i - 1 implies (#[trigger] t[k]).id != id by {
            assert(t[k] == vs[k + 1]);
        }
        lemma_first_visual(t, id, i - 1);
    }
}

proof fn lemma_first_format(fs: Seq<PixmapFormat>, depth: u8, i: int)
    requires
        0 <= i <= fs.len(),
        forall|k: int| 0 <= k < i ==> (#[trigger] fs[k]).depth != depth,
        i < fs.len() ==> fs[i].depth == depth,
    ensures
        format_for(fs, depth) == (if i < fs.len() {
            Some(fs[i])
        } else {
            None
        }),
    decreases fs.len(),
{
    if i > 0 {
        assert(fs[0].depth != depth);
        let t = fs.skip(1);
        assert forall|k: int| 0 <= k < i - 1 implies (#[trigger] t[k]).depth != depth by {
            assert(t[k] == fs[k + 1]);
        }
        lemma_first_format(t, depth, i - 1);
    }
}

/// Pixels are read by the masks of the root window's visual, in the size and with
/// the padding of its depth and in the server's byte order; where the server lists
/// no such visual or no such depth, where the size is another than 16, 24 or 32 bits
/// or the visual has no red, they are not read.
pub proof fn lemma_screen_is_read_by_its_visual(s: ScreenSetup, i: int, j: int)
    requires
        0 <= i <= s.visuals@.len(),
        forall|k: int| 0 <= k < i ==> (#[trigger] s.visuals@[k]).id != s.root_visual,
        i < s.visuals@.len() ==> s.visuals@[i].id == s.root_visual,
        i < s.visuals@.len() ==> {
            let depth = s.visuals@[i].depth;
            &&& 0 <= j <= s.pixmap_formats@.len()
            &&& forall|k: int| 0 <= k < j ==> (#[trigger] s.pixmap_formats@[k]).depth != depth
            &&& j < s.pixmap_formats@.len() ==> s.pixmap_formats@[j].depth == depth
        },
    ensures
        i == s.visuals@.len() ==> screen_layout(s) == Err::<ImageFmt, CaptureError>(
            CaptureError::NoRootVisual,
        ),
        i < s.visuals@.len() && j == s.pixmap_formats@.len() ==> screen_layout(s) == Err::<
            ImageFmt,
            CaptureError,
        >(CaptureError::NoPixmapFormat),
        i < s.visuals@.len() && j < s.pixmap_formats@.len() ==> {
            let (v, p) = (s.visuals@[i], s.pixmap_formats@[j]);
            let size = p.bits_per_pixel;
            if size != 16 && size != 24 && size != 32 {
                screen_layout(s) == Err::<ImageFmt, CaptureError>(
                    CaptureError::UnsupportedPixelSize(size),
                )
            } else if v.red_mask == 0 {
                screen_layout(s) == Err::<ImageFmt, CaptureError>(CaptureError::NotTrueColour)
            } else {
                screen_layout(s) matches Ok(f) && {
                    &&& f.bits_per_pixel == size && f.scanline_pad == p.scanline_pad
                    &&& f.big_endian == s.msb_first
                    &&& f.red.shift < 32 && f.green.shift < 32 && f.blue.shift < 32
                    &&& f.red.max % 2 == 1 && f.red.max << f.red.shift == v.red_mask
                    &&& v.green_mask != 0 ==> f.green.max % 2 == 1 && f.green.max << f.green.shift
                        == v.green_mask
                    &&& v.blue_mask != 0 ==> f.blue.max % 2 == 1 && f.blue.max << f.blue.shift
                        == v.blue_mask
                }
            }
        },
{
    lemma_first_visual(s.visuals@, s.root_visual, i);
    if i < s.visuals@.len() {
        let v = s.visuals@[i];
        lemma_first_format(s.pixmap_formats@, v.depth, j);
        lemma_channel_wf(v.red_mask);
        lemma_channel_wf(v.green_mask);
        lemma_channel_wf(v.blue_mask);
        if v.red_mask != 0 {
            lemma_channel_is_its_mask(v.red_mask);
        }
        if v.green_mask != 0 {
            lemma_channel_is_its_mask(v.green_mask);
        }
        if v.blue_mask != 0 {
            lemma_channel_is_its_mask(v.blue_mask);
        }
    }
}

/// What is left of the reported rectangles on the screen is every pixel of them that is
/// on it, and no other.
pub proof fn lemma_damage_keeps_visible_pixels(c: Capture, rs: Seq<XRect>, px: int, py: int)
    requires
        0 <= px < c.width,
        0 <= py < c.height,
    ensures
        (exists|i: int|
            0 <= i < c.all_clamped(rs).len() && (#[trigger] c.all_clamped(rs)[i]).has(px, py)) == (
        exists|i: int|
            0 <= i < rs.len() && (#[trigger] rs[i]).x <= px < rs[i].x + rs[i].width && rs[i].y <= py
                < rs[i].y + rs[i].height),
    decreases rs.len(),
{
    if rs.len() > 0 {
        let front = rs.drop_last();
        let kept = c.all_clamped(front);
        let all = c.all_clamped(rs);
        let last = rs.last();
        lemma_damage_keeps_visible_pixels(c, front, px, py);
        lemma_clamp_keeps_visible_pixels(c, last);
        assert(c.full().has(px, py));
        if exists|i: int|
            0 <= i < rs.len() && (#[trigger] rs[i]).x <= px < rs[i].x + rs[i].width && rs[i].y <= py
                < rs[i].y + rs[i].height {
            let i = choose|i: int|
                0 <= i < rs.len() && (#[trigger] rs[i]).x <= px < rs[i].x + rs[i].width && rs[i].y
                    <= py < rs[i].y + rs[i].height;
            if i < front.len() {
                assert(front[i] == rs[i]);
                let k = choose|k: int| 0 <= k < kept.len() && (#[trigger] kept[k]).has(px, py);
                assert(all[k] == kept[k]);
                assert(all[k].has(px, py));
            } else {
                assert(c.clamped(last) is Some);
                assert(all[all.len() - 1].has(px, py));
            }
        }
        if exists|k: int| 0 <= k < all.len() && (#[trigger] all[k]).has(px, py) {
            let k = choose|k: int| 0 <= k < all.len() && (#[trigger] all[k]).has(px, py);
            if k < kept.len() {
                assert(kept[k].has(px, py));
                let i = choose|i: int|
                    0 <= i < front.len() && (#[trigger] front[i]).x <= px < front[i].x
                        + front[i].width && front[i].y <= py < front[i].y + front[i].height;
                assert(rs[i] == front[i]);
            } else {
                assert(rs[rs.len() - 1] == last);
            }
        }
    }
}

} // verus!
