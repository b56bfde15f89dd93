//! Rectangles of the screen and the captured pixels.

use vstd::prelude::*;

verus! {

/// Side of a tile, in pixels.
pub const TILE: u32 = 64;

#[derive(Clone, Copy, Debug, PartialEq, Eq, Structural)]
pub struct Rect {
    pub x: u32,
    pub y: u32,
    pub w: u32,
    pub h: u32,
}

pub open spec fn min_of(a: int, b: int) -> int {
    if a <= b {
        a
    } else {
        b
    }
}

impl Rect {
    /// Whether the pixel at column `px`, row `py` lies in the rectangle.
    pub open spec fn has(self, px: int, py: int) -> bool {
        self.x <= px < self.x + self.w && self.y <= py < self.y + self.h
    }

    /// Whether the rectangle lies wholly on a `width` x `height` screen.
    pub open spec fn inside(self, width: int, height: int) -> bool {
        self.x + self.w <= width && self.y + self.h <= height
    }

    /// The rectangle cut to a `width` x `height` screen, if anything is left.
    pub open spec fn clipped(self, width: u32, height: u32) -> Option<Rect> {
        if self.x >= width || self.y >= height || self.w == 0 || self.h == 0 {
            None
        } else {
            Some(
                Rect {
                    x: self.x,
                    y: self.y,
                    w: min_of(self.w as int, width - self.x) as u32,
                    h: min_of(self.h as int, height - self.y) as u32,
                },
            )
        }
    }

    /// Trim to a `width` x `height` screen, or `None` when nothing is left.
    ///
    /// A rectangle can outlive the frame it was measured against: a client
    /// resizing the desktop replaces the framebuffer, and anything already in
    /// flight then describes a screen that no longer exists.
    pub fn clip(self, width: u32, height: u32) -> (r: Option<Rect>)
        ensures
            r == self.clipped(width, height),
    {
        if self.x >= width || self.y >= height {
            return None;
        }
        let w: u32 = if self.w <= width - self.x {
            self.w
        } else {
            width - self.x
        };
        let h: u32 = if self.h <= height - self.y {
            self.h
        } else {
            height - self.y
        };
        if w > 0 && h > 0 {
            Some(Rect { x: self.x, y: self.y, w, h })
        } else {
            None
        }
    }
}

/// Clipping keeps exactly the pixels of the rectangle that are on the screen,
/// and what is left has an area and lies on the screen.
pub proof fn lemma_clip_keeps_visible_pixels(r: Rect, width: u32, height: u32)
    ensures
        match r.clipped(width, height) {
            Some(c) => {
                &&& c.w > 0 && c.h > 0 && c.inside(width as int, height as int)
                &&& forall|px: int, py: int| #[trigger]
                    c.has(px, py) <==> r.has(px, py) && px < width && py < height
            },
            None => forall|px: int, py: int|
                !(#[trigger] r.has(px, py) && 0 <= px < width && 0 <= py < height),
        },
{
}

/// A rectangle that is already on the screen and has an area stays as it is.
pub proof fn lemma_clip_leaves_inside_alone(r: Rect, width: u32, height: u32)
    requires
        r.inside(width as int, height as int),
        r.w > 0 && r.h > 0,
    ensures
        r.clipped(width, height) == Some(r),
{
}

/// The captured screen, one `u32` per pixel in `0x00RRGGBB`.
pub struct Frame {
    pub width: u32,
    pub height: u32,
    pub px: Vec<u32>,
}

impl Frame {
    /// There is one pixel for every position of the screen.
    pub open spec fn wf(self) -> bool {
        self.px@.len() == self.width * self.height
    }

    /// A black screen of the given size.
    pub fn new(width: u32, height: u32) -> (f: Self)
        requires
            width * height <= usize::MAX,
        ensures
            f.width == width,
            f.height == height,
            f.px@ == Seq::new((width * height) as nat, |i: int| 0u32),
            f.wf(),
    {
        assert(0 <= width * height) by (nonlinear_arith);
        let px: Vec<u32> = vec![0; (width as usize) * (height as usize)];
        assert(px@ =~= Seq::new((width * height) as nat, |i: int| 0u32));
        Frame { width, height, px }
    }

    /// The pixel at column `x`, row `y`.
    pub open spec fn pixel(self, x: int, y: int) -> u32 {
        self.px@[y * self.width + x]
    }

    /// Whether a position is on the screen.
    pub open spec fn covers(self, x: int, y: int) -> bool {
        0 <= x < self.width && 0 <= y < self.height
    }

    /// Set one pixel.
    pub fn put(&mut self, x: u32, y: u32, v: u32)
        requires
            old(self).wf(),
            old(self).covers(x as int, y as int),
        ensures
            final(self).wf(),
            final(self).width == old(self).width,
            final(self).height == old(self).height,
            forall|a: int, b: int| #[trigger]
                final(self).pixel(a, b) == (if a == x && b == y {
                    v
                } else {
                    old(self).pixel(a, b)
                }) || !old(self).covers(a, b),
    {
        let ghost before = *self;
        let n: usize = self.px.len();
        proof {
            lemma_row_in_buffer(self.width as int, self.height as int, y as int, x as int, 1);
        }
        let at: usize = (y as usize) * (self.width as usize) + x as usize;
        self.px[at] = v;
        assert forall|a: int, b: int| before.covers(a, b) implies #[trigger] self.pixel(a, b) == (
        if a == x && b == y {
            v
        } else {
            before.pixel(a, b)
        }) by {
            let w = before.width as int;
            lemma_row_in_buffer(w, before.height as int, b, a, 1);
            if b * w + a == y * w + x {
                vstd::arithmetic::div_mod::lemma_fundamental_div_mod_converse(b * w + a, w, b, a);
                vstd::arithmetic::div_mod::lemma_fundamental_div_mod_converse(
                    y * w + x,
                    w,
                    y as int,
                    x as int,
                );
            }
        }
    }

    /// The `w` pixels from column `x` of row `y`.
    pub open spec fn row_at(self, y: int, x: int, w: int) -> Seq<u32> {
        self.px@.subrange(y * self.width + x, y * self.width + x + w)
    }

    pub fn row(&self, y: u32, x: u32, w: u32) -> (r: &[u32])
        requires
            y * self.width + x + w <= self.px@.len(),
        ensures
            r@ == self.row_at(y as int, x as int, w as int),
    {
        let n: usize = self.px.len();
        assert(0 <= y * self.width) by (nonlinear_arith);
        let start: usize = (y as usize) * (self.width as usize) + x as usize;
        &self.px.as_slice()[start..start + w as usize]
    }
}

/// A rectangle on the screen lies wholly in the pixel buffer, row by row.
pub proof fn lemma_row_in_buffer(width: int, height: int, y: int, x: int, w: int)
    requires
        0 <= y < height,
        0 <= x,
        0 <= w,
        x + w <= width,
    ensures
        0 <= y * width,
        y * width + x + w <= width * height,
{
    assert(0 <= y * width && y * width + width <= width * height) by (nonlinear_arith)
        requires
            0 <= y < height,
            width >= 0,
    ;
}

/// A cursor shape from XFIXES, in premultiplied ARGB.
pub struct CursorImage {
    pub width: u16,
    pub height: u16,
    pub hot_x: u16,
    pub hot_y: u16,
    pub argb: Vec<u32>,
}

/// Pixels are kept row by row from the top, each row from the left, and a part of a row
/// is its pixels in their order.
pub proof fn lemma_pixels_are_kept_row_by_row(f: Frame, x: int, y: int, w: int, i: int)
    requires
        f.wf(),
        0 <= y < f.height,
        0 <= x,
        x + w <= f.width,
        0 <= i < w,
    ensures
        0 <= y * f.width + (x + i) < f.px@.len(),
        f.pixel(x + i, y) == f.px@[y * f.width + (x + i)],
        f.row_at(y, x, w).len() == w,
        f.row_at(y, x, w)[i] == f.px@[y * f.width + (x + i)],
{
    lemma_row_in_buffer(f.width as int, f.height as int, y, x, w);
}

} // verus!
