//! Screen resizing through RandR.
//!
//! An X server can only shrink to sizes inside the range it reports, and
//! Xvfb's maximum is fixed at the size it was started with. It is therefore
//! started at the largest size it will ever need, and shrunk from there.

use vstd::prelude::*;

use crate::x11::capture::clamp_of;

verus! {

/// Smallest extent that a screen is ever given.
pub const LEAST: u16 = 16;

/// The range of sizes a screen can be given.
pub struct Resizer {
    pub max: (u16, u16),
    pub min: (u16, u16),
}

/// What the X server says about its range of sizes.
#[derive(Clone, Copy, Debug, PartialEq, Eq, Structural)]
pub struct SizeRange {
    pub min_width: u16,
    pub min_height: u16,
    pub max_width: u16,
    pub max_height: u16,
}

/// A mode that a CRTC can be set to.
#[derive(Clone, Copy, Debug, PartialEq, Eq, Structural)]
pub struct Mode {
    pub id: u32,
    pub width: u16,
    pub height: u16,
}

/// What a resize request calls for.
#[derive(Clone, Copy, Debug, PartialEq, Eq, Structural)]
pub enum ResizeStep {
    /// The screen has that size already.
    Keep { width: u16, height: u16 },
    /// Give the screen a size, in pixels and in millimetres.
    Change { width: u16, height: u16, mm_width: u32, mm_height: u32 },
}

/// Millimetres at a nominal 96 dpi, so applications compute sane DPI.
pub open spec fn millimetres(px: u16) -> u32 {
    let mm = px * 254 / 960;
    (if mm < 1 {
        1
    } else {
        mm
    }) as u32
}

/// The lesser of two sizes, each way.
pub open spec fn lesser(a: u16, b: u16) -> u16 {
    if a < b {
        a
    } else {
        b
    }
}

/// The greater of two sizes, each way.
pub open spec fn greater(a: u16, b: u16) -> u16 {
    if a > b {
        a
    } else {
        b
    }
}

fn mm(px: u16) -> (n: u32)
    ensures
        n == millimetres(px),
{
    let v: u32 = px as u32 * 254 / 960;
    if v < 1 {
        1
    } else {
        v
    }
}

fn clamp(v: u16, low: u16, high: u16) -> (r: u16)
    requires
        low <= high,
    ensures
        r == clamp_of(v as int, low as int, high as int),
{
    if v < low {
        low
    } else if v > high {
        high
    } else {
        v
    }
}

impl Resizer {
    /// There is a size in the range.
    pub open spec fn wf(self) -> bool {
        self.min.0 <= self.max.0 && self.min.1 <= self.max.1
    }

    /// The range that an X server reports, as far as clients may go: `limit` is
    /// the largest size that they may ask for.
    pub fn open(range: &SizeRange, limit: (u16, u16)) -> (r: Self)
        ensures
            r.min == (greater(range.min_width, LEAST), greater(range.min_height, LEAST)),
            r.max == (lesser(range.max_width, limit.0), lesser(range.max_height, limit.1)),
    {
        Resizer {
            min: (
                if range.min_width > LEAST {
                    range.min_width
                } else {
                    LEAST
                },
                if range.min_height > LEAST {
                    range.min_height
                } else {
                    LEAST
                },
            ),
            max: (
                if range.max_width < limit.0 {
                    range.max_width
                } else {
                    limit.0
                },
                if range.max_height < limit.1 {
                    range.max_height
                } else {
                    limit.1
                },
            ),
        }
    }

    /// The size that a request comes to.
    pub open spec fn granted(self, width: u16, height: u16) -> (u16, u16) {
        (
            clamp_of(width as int, self.min.0 as int, self.max.0 as int) as u16,
            clamp_of(height as int, self.min.1 as int, self.max.1 as int) as u16,
        )
    }

    /// Resize the screen, clamped to what is allowed, from its current size.
    pub fn resize(&self, width: u16, height: u16, current: (u16, u16)) -> (s: ResizeStep)
        requires
            self.wf(),
        ensures
            ({
                let (w, h) = self.granted(width, height);
                s == (if current == (w, h) {
                    ResizeStep::Keep { width: w, height: h }
                } else {
                    ResizeStep::Change {
                        width: w,
                        height: h,
                        mm_width: millimetres(w),
                        mm_height: millimetres(h),
                    }
                })
            }),
    {
        let w: u16 = clamp(width, self.min.0, self.max.0);
        let h: u16 = clamp(height, self.min.1, self.max.1);
        if current.0 == w && current.1 == h {
            return ResizeStep::Keep { width: w, height: h };
        }
        ResizeStep::Change { width: w, height: h, mm_width: mm(w), mm_height: mm(h) }
    }
}

/// The first mode of a size.
pub open spec fn mode_of(modes: Seq<Mode>, width: u16, height: u16) -> Option<u32>
    decreases modes.len(),
{
    if modes.len() == 0 {
        None
    } else if modes[0].width == width && modes[0].height == height {
        Some(modes[0].id)
    } else {
        mode_of(modes.skip(1), width, height)
    }
}

/// The mode to set the CRTC to, if the server happens to have a matching one.
pub fn find_mode(modes: &[Mode], width: u16, height: u16) -> (r: Option<u32>)
    ensures
        r == mode_of(modes@, width, height),
{
    assert(modes@.skip(0) =~= modes@);
    for i in 0..modes.len()
        invariant
            mode_of(modes@, width, height) == mode_of(modes@.skip(i as int), width, height),
    {
        if modes[i].width == width && modes[i].height == height {
            return Some(modes[i].id);
        }
        assert(modes@.skip(i as int).skip(1) =~= modes@.skip(i + 1));
    }
    None
}

/// The size to start an X server at: large enough for the first size and for
/// the largest that clients may ask for.
pub fn largest(first: (u16, u16), limit: (u16, u16)) -> (d: (u16, u16))
    ensures
        d == (greater(first.0, limit.0), greater(first.1, limit.1)),
{
    (
        if first.0 > limit.0 {
            first.0
        } else {
            limit.0
        },
        if first.1 > limit.1 {
            first.1
        } else {
            limit.1
        },
    )
}

/// Whatever is asked for, the screen gets a size in its range; a size in the
/// range is granted as it is, so asking again changes nothing.
pub proof fn lemma_granted_sizes_are_in_range(r: Resizer, width: u16, height: u16)
    requires
        r.wf(),
    ensures
        ({
            let (w, h) = r.granted(width, height);
            &&& r.min.0 <= w <= r.max.0
            &&& r.min.1 <= h <= r.max.1
            &&& r.granted(w, h) == (w, h)
        }),
{
}

/// A size in the range is granted as it is asked for; one that is too small or too
/// large each way comes to the end of the range that it is nearest to.
pub proof fn lemma_granted_is_nearest(r: Resizer, width: u16, height: u16)
    requires
        r.wf(),
    ensures
        ({
            let (w, h) = r.granted(width, height);
            &&& r.min.0 <= width <= r.max.0 ==> w == width
            &&& width < r.min.0 ==> w == r.min.0
            &&& width > r.max.0 ==> w == r.max.0
            &&& r.min.1 <= height <= r.max.1 ==> h == height
            &&& height < r.min.1 ==> h == r.min.1
            &&& height > r.max.1 ==> h == r.max.1
        }),
{
}

/// The greater of two numbers is one of them and no less than either, the lesser is
/// one of them and no more than either.
pub proof fn lemma_greater_and_lesser(a: u16, b: u16)
    ensures
        greater(a, b) >= a && greater(a, b) >= b,
        greater(a, b) == a || greater(a, b) == b,
        lesser(a, b) <= a && lesser(a, b) <= b,
        lesser(a, b) == a || lesser(a, b) == b,
{
}

/// Millimetres are whole ones of 96 dots an inch of 25.4, and at least one.
pub proof fn lemma_millimetres_at_96_dpi(px: u16)
    ensures
        millimetres(px) >= 1,
        ({
            let mm = millimetres(px) as int;
            mm * 960 <= px * 254 < (mm + 1) * 960 || mm == 1 && px * 254 < 960
        }),
{
}

/// The mode that is set has the size that was asked for, and is the first that has
/// it; there is none only where no mode has it.
pub proof fn lemma_mode_has_the_size(modes: Seq<Mode>, width: u16, height: u16)
    ensures
        match mode_of(modes, width, height) {
            Some(id) => exists|i: int|
                {
                    &&& 0 <= i < modes.len()
                    &&& #[trigger] modes[i] == (Mode { id, width, height })
                    &&& forall|j: int|
                        0 <= j < i ==> (#[trigger] modes[j]).width != width || modes[j].height
                            != height
                },
            None => forall|i: int|
                0 <= i < modes.len() ==> (#[trigger] modes[i]).width != width || modes[i].height
                    != height,
        },
    decreases modes.len(),
{
    if modes.len() > 0 {
        if modes[0].width == width && modes[0].height == height {
            assert(modes[0] == (Mode { id: modes[0].id, width, height }));
        } else {
            let t = modes.skip(1);
            lemma_mode_has_the_size(t, width, height);
            match mode_of(modes, width, height) {
                Some(id) => {
                    let i = choose|i: int|
                        {
                            &&& 0 <= i < t.len()
                            &&& #[trigger] t[i] == (Mode { id, width, height })
                            &&& forall|j: int|
                                0 <= j < i ==> (#[trigger] t[j]).width != width || t[j].height
                                    != height
                        };
                    assert(modes[i + 1] == (Mode { id, width, height }));
                    assert forall|j: int| 0 <= j < i + 1 implies (#[trigger] modes[j]).width
                        != width || modes[j].height != height by {
                        if j > 0 {
                            assert(t[j - 1] == modes[j]);
                        }
                    }
                },
                None => {
                    assert forall|j: int| 0 <= j < modes.len() implies (#[trigger] modes[j]).width
                        != width || modes[j].height != height by {
                        if j > 0 {
                            assert(t[j - 1] == modes[j]);
                        }
                    }
                },
            }
        }
    }
}

/// However far down a server and however far up a limit would let it go, a screen is
/// never given less than sixteen pixels either way.
pub proof fn lemma_no_screen_is_too_small(range: SizeRange)
    ensures
        greater(range.min_width, LEAST) >= 16 && greater(range.min_height, LEAST) >= 16,
        range.min_width >= 16 ==> greater(range.min_width, LEAST) == range.min_width,
        range.min_height >= 16 ==> greater(range.min_height, LEAST) == range.min_height,
        range.min_width < 16 ==> greater(range.min_width, LEAST) == 16,
        range.min_height < 16 ==> greater(range.min_height, LEAST) == 16,
{
}

} // verus!
