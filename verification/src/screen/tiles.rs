//! Bitmap of dirty tiles.

use vstd::prelude::*;
use vstd::set_lib::{lemma_int_range, lemma_len_subset, set_int_range};

use crate::screen::frame::{min_of, Rect, TILE};

verus! {

/// Bitmap of dirty 64x64 tiles.
pub struct TileMap {
    cols: u32,
    rows: u32,
    bits: Vec<u64>,
    set_count: usize,
}

/// Number of tiles that cover `pixels` pixels.
pub open spec fn tiles_across(pixels: int) -> int {
    (pixels + TILE - 1) / (TILE as int)
}

/// Tiles that share a pixel with a rectangle.
pub open spec fn touched(r: Rect, t: (int, int)) -> bool {
    &&& r.w > 0 && r.h > 0
    &&& t.0 * TILE < r.x + r.w && r.x < (t.0 + 1) * TILE
    &&& t.1 * TILE < r.y + r.h && r.y < (t.1 + 1) * TILE
}

/// Every tile of a `cols` x `rows` map.
pub open spec fn grid(cols: int, rows: int) -> Set<(int, int)> {
    Set::new(|t: (int, int)| 0 <= t.0 < cols && 0 <= t.1 < rows)
}

/// A run of tiles and the rows below it that go with it: columns `start` to
/// `end` (exclusive), rows `top` to `bottom` (inclusive).
pub struct Block {
    pub start: int,
    pub end: int,
    pub top: int,
    pub bottom: int,
}

impl Block {
    pub open spec fn tiles(self) -> Set<(int, int)> {
        Set::new(
            |t: (int, int)| self.start <= t.0 < self.end && self.top <= t.1 <= self.bottom,
        )
    }

    /// The block in pixels, cut to the screen; nothing if it starts beyond it.
    pub open spec fn rect(self, width: u32, height: u32) -> Option<Rect> {
        let x = self.start * TILE;
        let y = self.top * TILE;
        if x >= width || y >= height {
            None
        } else {
            Some(
                Rect {
                    x: x as u32,
                    y: y as u32,
                    w: (min_of(self.end * TILE, width as int) - x) as u32,
                    h: (min_of((self.bottom + 1) * TILE, height as int) - y) as u32,
                },
            )
        }
    }
}

/// Where the run of dirty tiles that starts at `col` ends.
pub open spec fn run_end(d: Set<(int, int)>, cols: int, row: int, col: int) -> int
    decreases cols - col,
{
    if col < cols && d.contains((col, row)) {
        run_end(d, cols, row, col + 1)
    } else {
        col
    }
}

/// Whether a whole run of tiles is dirty.
pub open spec fn all_dirty(d: Set<(int, int)>, start: int, end: int, row: int) -> bool {
    forall|c: int| start <= c < end ==> #[trigger] d.contains((c, row))
}

/// The last row, at or below `row`, down to which the whole run is dirty.
pub open spec fn run_bottom(d: Set<(int, int)>, rows: int, start: int, end: int, row: int) -> int
    decreases rows - row,
{
    if row + 1 < rows && all_dirty(d, start, end, row + 1) {
        run_bottom(d, rows, start, end, row + 1)
    } else {
        row
    }
}

/// The block that starts at a dirty tile: the run to its right, and as many
/// rows below as repeat the whole run.
pub open spec fn block_at(d: Set<(int, int)>, cols: int, rows: int, col: int, row: int) -> Block {
    let end = run_end(d, cols, row, col);
    Block { start: col, end, top: row, bottom: run_bottom(d, rows, col, end, row) }
}

/// A run is made of dirty tiles and is as long as it can be.
pub proof fn lemma_run_end(d: Set<(int, int)>, cols: int, row: int, col: int)
    requires
        col <= cols,
    ensures
        col <= run_end(d, cols, row, col) <= cols,
        all_dirty(d, col, run_end(d, cols, row, col), row),
        run_end(d, cols, row, col) < cols ==> !d.contains((run_end(d, cols, row, col), row)),
        col < cols && d.contains((col, row)) ==> col < run_end(d, cols, row, col),
    decreases cols - col,
{
    if col < cols && d.contains((col, row)) {
        lemma_run_end(d, cols, row, col + 1);
    }
}

/// Every row of a block repeats its run.
pub proof fn lemma_run_bottom(d: Set<(int, int)>, rows: int, start: int, end: int, row: int)
    requires
        row < rows,
    ensures
        row <= run_bottom(d, rows, start, end, row) < rows,
        forall|r: int|
            row < r <= run_bottom(d, rows, start, end, row) ==> #[trigger] all_dirty(
                d,
                start,
                end,
                r,
            ),
    decreases rows - row,
{
    if row + 1 < rows && all_dirty(d, start, end, row + 1) {
        lemma_run_bottom(d, rows, start, end, row + 1);
    }
}

/// Dirty tiles gathered into blocks: scan in reading order from a position,
/// take the block at each dirty tile that is met, and go on without it.
pub open spec fn blocks_from(
    d: Set<(int, int)>,
    cols: int,
    rows: int,
    col: int,
    row: int,
) -> Seq<Block>
    decreases rows - row, cols - col,
{
    if row >= rows {
        seq![]
    } else if col >= cols {
        blocks_from(d, cols, rows, 0, row + 1)
    } else if !d.contains((col, row)) {
        blocks_from(d, cols, rows, col + 1, row)
    } else {
        let b = block_at(d, cols, rows, col, row);
        proof {
            lemma_run_end(d, cols, row, col);
        }
        seq![b] + blocks_from(d.difference(b.tiles()), cols, rows, b.end, row)
    }
}

/// The pixel rectangles of the blocks that are on the screen, in order.
pub open spec fn rects_of(bs: Seq<Block>, width: u32, height: u32) -> Seq<Rect>
    decreases bs.len(),
{
    if bs.len() == 0 {
        seq![]
    } else {
        match bs[0].rect(width, height) {
            Some(r) => seq![r] + rects_of(bs.skip(1), width, height),
            None => rects_of(bs.skip(1), width, height),
        }
    }
}

proof fn lemma_set_bit(w: u64, i: u64, j: u64)
    by (bit_vector)
    requires
        i < 64,
        j < 64,
    ensures
        ((w | (1u64 << i)) >> j) & 1 == (if i == j {
            1u64
        } else {
            (w >> j) & 1
        }),
        ((w & !(1u64 << i)) >> j) & 1 == (if i == j {
            0u64
        } else {
            (w >> j) & 1
        }),
        (w >> j) & 1 == 0 || (w >> j) & 1 == 1,
        (0u64 >> j) & 1 == 0,
{
}

/// Positions in the bitmap: reading order gives every tile its own.
proof fn lemma_index(cols: int, rows: int, c: int, r: int)
    requires
        0 <= c < cols,
        0 <= r < rows,
    ensures
        0 <= r * cols + c < cols * rows,
        (r * cols + c) / cols == r,
        (r * cols + c) % cols == c,
{
    assert(0 <= r * cols && r * cols + cols <= cols * rows) by (nonlinear_arith)
        requires
            0 <= r < rows,
            0 < cols,
    ;
    vstd::arithmetic::div_mod::lemma_fundamental_div_mod_converse(r * cols + c, cols, r, c);
}

proof fn lemma_unindex(cols: int, rows: int, i: int)
    requires
        0 <= i < cols * rows,
        0 <= cols,
        0 <= rows,
    ensures
        0 <= i % cols < cols,
        0 <= i / cols < rows,
        (i / cols) * cols + i % cols == i,
{
    assert(0 < cols && 0 < rows) by (nonlinear_arith)
        requires
            0 < cols * rows,
            0 <= cols,
            0 <= rows,
    ;
    vstd::arithmetic::div_mod::lemma_fundamental_div_mod(i, cols);
    assert(i / cols < rows) by (nonlinear_arith)
        requires
            i < cols * rows,
            i == cols * (i / cols) + i % cols,
            0 <= i % cols,
            0 < cols,
    ;
    assert(0 <= i / cols) by (nonlinear_arith)
        requires
            0 <= i,
            0 < cols,
    ;
    assert(cols * (i / cols) == (i / cols) * cols) by (nonlinear_arith);
}

impl TileMap {
    /// Tiles in a row.
    pub closed spec fn cols(self) -> int {
        self.cols as int
    }

    /// Rows of tiles.
    pub closed spec fn rows(self) -> int {
        self.rows as int
    }

    spec fn bit(self, i: int) -> bool {
        (self.bits@[i / 64] >> ((i % 64) as u64)) & 1 == 1
    }

    spec fn at(self, col: int, row: int) -> int {
        row * self.cols + col
    }

    /// Positions of the set bits.
    spec fn positions(self) -> Set<int> {
        Set::new(|i: int| 0 <= i < self.cols * self.rows && self.bit(i))
    }

    /// Every tile has a bit, and the count is the number of bits set.
    pub closed spec fn wf(self) -> bool {
        &&& self.cols * self.rows <= usize::MAX
        &&& self.bits@.len() == (self.cols * self.rows + 63) / 64
        &&& self.positions().len() == self.set_count
    }

    proof fn lemma_positions(self)
        ensures
            self.positions().finite(),
            self.positions().len() <= self.cols * self.rows,
    {
        assert(0 <= self.cols * self.rows) by (nonlinear_arith);
        lemma_int_range(0, self.cols * self.rows);
        assert(self.positions().subset_of(set_int_range(0, self.cols * self.rows)));
        lemma_len_subset(self.positions(), set_int_range(0, self.cols * self.rows));
    }
}

impl View for TileMap {
    type V = Set<(int, int)>;

    /// The dirty tiles, as (column, row).
    closed spec fn view(&self) -> Set<(int, int)> {
        Set::new(
            |t: (int, int)|
                0 <= t.0 < self.cols && 0 <= t.1 < self.rows && self.bit(self.at(t.0, t.1)),
        )
    }
}

impl TileMap {
    /// A map of a `width` x `height` screen with no tile dirty.
    pub fn new(width: u32, height: u32) -> (m: Self)
        requires
            tiles_across(width as int) * tiles_across(height as int) <= usize::MAX,
        ensures
            m.wf(),
            m.cols() == tiles_across(width as int),
            m.rows() == tiles_across(height as int),
            m@ == Set::<(int, int)>::empty(),
    {
        let cols: u32 = width / TILE + if width % TILE == 0 { 0 } else { 1 };
        let rows: u32 = height / TILE + if height % TILE == 0 { 0 } else { 1 };
        assert(0 <= cols * rows) by (nonlinear_arith);
        let n: usize = (cols as usize) * (rows as usize);
        let words: usize = n / 64 + if n % 64 == 0 { 0 } else { 1 };
        let bits: Vec<u64> = vec![0; words];
        let m = TileMap { cols, rows, bits, set_count: 0 };
        assert forall|i: int| 0 <= i < cols * rows implies !m.bit(i) by {
            lemma_set_bit(0, 0, (i % 64) as u64);
            assert(m.bits@[i / 64] == 0);
        }
        assert forall|t: (int, int)| !m@.contains(t) by {
            if 0 <= t.0 < cols && 0 <= t.1 < rows {
                lemma_index(cols as int, rows as int, t.0, t.1);
            }
        }
        assert(m@ =~= Set::<(int, int)>::empty());
        assert(m.positions() =~= Set::<int>::empty());
        m
    }

    fn idx(&self, col: u32, row: u32) -> (i: usize)
        requires
            self.wf(),
            col < self.cols,
            row < self.rows,
        ensures
            i == self.at(col as int, row as int),
            i < self.cols * self.rows,
            i / 64 < self.bits@.len(),
    {
        proof {
            lemma_index(self.cols as int, self.rows as int, col as int, row as int);
            assert(0 <= row * self.cols) by (nonlinear_arith);
        }
        (row as usize) * (self.cols as usize) + col as usize
    }

    fn get(&self, col: u32, row: u32) -> (b: bool)
        requires
            self.wf(),
            col < self.cols,
            row < self.rows,
        ensures
            b == self@.contains((col as int, row as int)),
    {
        let i: usize = self.idx(col, row);
        (self.bits[i / 64] >> ((i % 64) as u64)) & 1 == 1
    }

    proof fn lemma_rewrite(self, after: TileMap, col: int, row: int, on: bool)
        requires
            self.wf(),
            0 <= col < self.cols,
            0 <= row < self.rows,
            after.cols == self.cols,
            after.rows == self.rows,
            after.bits@.len() == self.bits@.len(),
            forall|i: int| #![trigger after.bit(i)]
                0 <= i < self.cols * self.rows ==> after.bit(i) == if i == self.at(col, row) {
                    on
                } else {
                    self.bit(i)
                },
        ensures
            on ==> after@ == self@.insert((col, row)),
            on ==> after.positions() == self.positions().insert(self.at(col, row)),
            !on ==> after@ == self@.remove((col, row)),
            !on ==> after.positions() == self.positions().remove(self.at(col, row)),
    {
        let cols = self.cols as int;
        let rows = self.rows as int;
        lemma_index(cols, rows, col, row);
        assert forall|t: (int, int)| #[trigger]
            after@.contains(t) == if t == (col, row) {
                on
            } else {
                self@.contains(t)
            } by {
            if 0 <= t.0 < cols && 0 <= t.1 < rows {
                lemma_index(cols, rows, t.0, t.1);
            }
        }
        if on {
            assert(after@ =~= self@.insert((col, row)));
            assert(after.positions() =~= self.positions().insert(self.at(col, row)));
        } else {
            assert(after@ =~= self@.remove((col, row)));
            assert(after.positions() =~= self.positions().remove(self.at(col, row)));
        }
    }

    fn set(&mut self, col: u32, row: u32)
        requires
            old(self).wf(),
            col < old(self).cols(),
            row < old(self).rows(),
        ensures
            final(self).wf(),
            final(self).cols() == old(self).cols(),
            final(self).rows() == old(self).rows(),
            final(self)@ == old(self)@.insert((col as int, row as int)),
    {
        let ghost before = *self;
        let i: usize = self.idx(col, row);
        let w: u64 = self.bits[i / 64];
        if (w >> ((i % 64) as u64)) & 1 == 0 {
            self.bits[i / 64] = w | (1u64 << ((i % 64) as u64));
            proof {
                before.lemma_positions();
                assert forall|j: int| #![trigger self.bit(j)]
                    0 <= j < before.cols * before.rows implies self.bit(j) == if j == i {
                    true
                } else {
                    before.bit(j)
                } by {
                    lemma_set_bit(w, (i % 64) as u64, (j % 64) as u64);
                }
                before.lemma_rewrite(*self, col as int, row as int, true);
                assert(!before.positions().contains(i as int));
                self.lemma_positions();
            }
            self.set_count = self.set_count + 1;
            assert(self.positions() =~= before.positions().insert(i as int));
            assert(self@ =~= before@.insert((col as int, row as int)));
        } else {
            proof {
                lemma_set_bit(w, 0, (i % 64) as u64);
                assert(before@ =~= before@.insert((col as int, row as int)));
            }
        }
    }

    fn clear(&mut self, col: u32, row: u32)
        requires
            old(self).wf(),
            col < old(self).cols(),
            row < old(self).rows(),
        ensures
            final(self).wf(),
            final(self).cols() == old(self).cols(),
            final(self).rows() == old(self).rows(),
            final(self)@ == old(self)@.remove((col as int, row as int)),
    {
        let ghost before = *self;
        let i: usize = self.idx(col, row);
        let w: u64 = self.bits[i / 64];
        if (w >> ((i % 64) as u64)) & 1 == 1 {
            self.bits[i / 64] = w & !(1u64 << ((i % 64) as u64));
            proof {
                before.lemma_positions();
                assert forall|j: int| #![trigger self.bit(j)]
                    0 <= j < before.cols * before.rows implies self.bit(j) == if j == i {
                    false
                } else {
                    before.bit(j)
                } by {
                    lemma_set_bit(w, (i % 64) as u64, (j % 64) as u64);
                }
                before.lemma_rewrite(*self, col as int, row as int, false);
                assert(before.positions().contains(i as int));
            }
            self.set_count = self.set_count - 1;
            assert(self.positions() =~= before.positions().remove(i as int));
            assert(self@ =~= before@.remove((col as int, row as int)));
        } else {
            assert(before@ =~= before@.remove((col as int, row as int)));
        }
    }

    pub fn is_empty(&self) -> (b: bool)
        requires
            self.wf(),
        ensures
            b == (self@ == Set::<(int, int)>::empty()),
    {
        proof {
            self.lemma_positions();
            if self.set_count == 0 {
                self.positions().lemma_len0_is_empty();
                assert forall|t: (int, int)| !self@.contains(t) by {
                    if self@.contains(t) {
                        lemma_index(self.cols as int, self.rows as int, t.0, t.1);
                        assert(self.positions().contains(self.at(t.0, t.1)));
                    }
                }
                assert(self@ =~= Set::<(int, int)>::empty());
            } else {
                assert(self.positions().len() != 0);
                let i = self.positions().choose();
                assert(self.positions().contains(i)) by {
                    if forall|j: int| !self.positions().contains(j) {
                        assert(self.positions() =~= Set::<int>::empty());
                    }
                }
                lemma_unindex(self.cols as int, self.rows as int, i);
                let t = (i % (self.cols as int), i / (self.cols as int));
                assert(self@.contains(t));
            }
        }
        self.set_count == 0
    }

    /// Mark every tile.
    pub fn set_all(&mut self)
        requires
            old(self).wf(),
        ensures
            final(self).wf(),
            final(self).cols() == old(self).cols(),
            final(self).rows() == old(self).rows(),
            final(self)@ == grid(old(self).cols(), old(self).rows()),
    {
        let ghost before = *self;
        let mut r: u32 = 0;
        while r < self.rows
            invariant
                self.wf(),
                self.cols() == before.cols(),
                self.rows() == before.rows(),
                r <= self.rows,
                forall|t: (int, int)|
                    0 <= t.0 < self.cols && 0 <= t.1 < r ==> #[trigger] self@.contains(t),
            decreases self.rows - r,
        {
            let mut c: u32 = 0;
            while c < self.cols
                invariant
                    self.wf(),
                    self.cols() == before.cols(),
                    self.rows() == before.rows(),
                    c <= self.cols,
                    r < self.rows,
                    forall|t: (int, int)|
                        0 <= t.0 < self.cols && 0 <= t.1 && (t.1 < r || t.1 == r && t.0 < c)
                            ==> #[trigger] self@.contains(t),
                decreases self.cols - c,
            {
                self.set(c, r);
                c = c + 1;
            }
            r = r + 1;
        }
        assert(self@ =~= grid(self.cols(), self.rows()));
    }

    /// Forget every mark.
    pub fn clear_all(&mut self)
        requires
            old(self).wf(),
        ensures
            final(self).wf(),
            final(self).cols() == old(self).cols(),
            final(self).rows() == old(self).rows(),
            final(self)@ == Set::<(int, int)>::empty(),
    {
        let n: usize = self.bits.len();
        self.bits = vec![0; n];
        self.set_count = 0;
        assert forall|i: int| 0 <= i < self.cols * self.rows implies !self.bit(i) by {
            lemma_set_bit(0, 0, (i % 64) as u64);
            assert(self.bits@[i / 64] == 0);
        }
        assert forall|t: (int, int)| !self@.contains(t) by {
            if 0 <= t.0 < self.cols && 0 <= t.1 < self.rows {
                lemma_index(self.cols as int, self.rows as int, t.0, t.1);
            }
        }
        assert(self@ =~= Set::<(int, int)>::empty());
        assert(self.positions() =~= Set::<int>::empty());
    }

    /// Mark every tile overlapping the given pixel rectangle.
    pub fn add_rect(&mut self, r: Rect)
        requires
            old(self).wf(),
            r.w > 0 && r.h > 0 ==> r.x + r.w <= u32::MAX && r.y + r.h <= u32::MAX,
        ensures
            final(self).wf(),
            final(self).cols() == old(self).cols(),
            final(self).rows() == old(self).rows(),
            forall|t: (int, int)| #[trigger]
                final(self)@.contains(t) <==> old(self)@.contains(t) || touched(r, t) && grid(
                    old(self).cols(),
                    old(self).rows(),
                ).contains(t),
    {
        if r.w == 0 || r.h == 0 {
            return;
        }
        let ghost before = *self;
        let c0: u32 = r.x / TILE;
        let r0: u32 = r.y / TILE;
        let c1: u32 = (r.x + r.w - 1) / TILE;
        let r1: u32 = (r.y + r.h - 1) / TILE;
        let mut row: u32 = r0;
        while row <= r1 && row < self.rows
            invariant
                self.wf(),
                self.cols() == before.cols(),
                self.rows() == before.rows(),
                c0 == r.x / TILE,
                r0 == r.y / TILE,
                c1 == (r.x + r.w - 1) / (TILE as int),
                r1 == (r.y + r.h - 1) / (TILE as int),
                r.w > 0 && r.h > 0,
                r0 <= row <= r1 + 1,
                r1 < u32::MAX,
                forall|t: (int, int)| #[trigger]
                    self@.contains(t) <==> before@.contains(t) || touched(r, t) && grid(
                        before.cols(),
                        before.rows(),
                    ).contains(t) && t.1 < row,
            decreases self.rows - row,
        {
            let mut col: u32 = c0;
            while col <= c1 && col < self.cols
                invariant
                    self.wf(),
                    self.cols() == before.cols(),
                    self.rows() == before.rows(),
                    c0 == r.x / TILE,
                    r0 == r.y / TILE,
                    c1 == (r.x + r.w - 1) / (TILE as int),
                    r1 == (r.y + r.h - 1) / (TILE as int),
                    r.w > 0 && r.h > 0,
                    r0 <= row <= r1,
                    row < self.rows,
                    c0 <= col <= c1 + 1,
                    c1 < u32::MAX,
                    forall|t: (int, int)| #[trigger]
                        self@.contains(t) <==> before@.contains(t) || touched(r, t) && grid(
                            before.cols(),
                            before.rows(),
                        ).contains(t) && (t.1 < row || t.1 == row && t.0 < col),
                decreases self.cols - col,
            {
                self.set(col, row);
                col = col + 1;
            }
            row = row + 1;
        }
    }

    /// End of the run of dirty tiles that starts at `col`.
    fn run_from(&self, col: u32, row: u32) -> (end: u32)
        requires
            self.wf(),
            col <= self.cols,
            row < self.rows,
        ensures
            end == run_end(self@, self.cols(), row as int, col as int),
            col <= end <= self.cols,
    {
        let mut end: u32 = col;
        while end < self.cols && self.get(end, row)
            invariant
                self.wf(),
                row < self.rows,
                col <= end <= self.cols,
                run_end(self@, self.cols(), row as int, end as int) == run_end(
                    self@,
                    self.cols(),
                    row as int,
                    col as int,
                ),
            decreases self.cols - end,
        {
            end = end + 1;
        }
        end
    }

    /// Whether every tile of a run is dirty.
    fn run_is_dirty(&self, start: u32, end: u32, row: u32) -> (b: bool)
        requires
            self.wf(),
            start <= end <= self.cols,
            row < self.rows,
        ensures
            b == all_dirty(self@, start as int, end as int, row as int),
    {
        let mut c: u32 = start;
        while c < end
            invariant
                self.wf(),
                start <= c <= end <= self.cols,
                row < self.rows,
                all_dirty(self@, start as int, c as int, row as int),
            decreases end - c,
        {
            if !self.get(c, row) {
                return false;
            }
            c = c + 1;
        }
        true
    }

    /// The last row down to which the whole run stays dirty.
    fn bottom_from(&self, start: u32, end: u32, row: u32) -> (last: u32)
        requires
            self.wf(),
            start <= end <= self.cols,
            row < self.rows,
        ensures
            last == run_bottom(self@, self.rows(), start as int, end as int, row as int),
            row <= last < self.rows,
    {
        let mut last: u32 = row;
        while last + 1 < self.rows && self.run_is_dirty(start, end, last + 1)
            invariant
                self.wf(),
                start <= end <= self.cols,
                row <= last < self.rows,
                run_bottom(self@, self.rows(), start as int, end as int, last as int)
                    == run_bottom(self@, self.rows(), start as int, end as int, row as int),
            decreases self.rows - last,
        {
            last = last + 1;
        }
        last
    }

    /// Forget the marks of a block.
    fn clear_block(&mut self, start: u32, end: u32, top: u32, bottom: u32)
        requires
            old(self).wf(),
            start <= end <= old(self).cols(),
            top <= bottom < old(self).rows(),
        ensures
            final(self).wf(),
            final(self).cols() == old(self).cols(),
            final(self).rows() == old(self).rows(),
            final(self)@ == old(self)@.difference(
                (Block {
                    start: start as int,
                    end: end as int,
                    top: top as int,
                    bottom: bottom as int,
                }).tiles(),
            ),
    {
        let ghost before = *self;
        let mut r: u32 = top;
        while r <= bottom
            invariant
                self.wf(),
                self.cols() == before.cols(),
                self.rows() == before.rows(),
                start <= end <= self.cols,
                top <= r <= bottom + 1,
                bottom < self.rows,
                forall|t: (int, int)| #[trigger]
                    self@.contains(t) <==> before@.contains(t) && !(start <= t.0 < end && top
                        <= t.1 < r),
            decreases bottom + 1 - r,
        {
            let mut c: u32 = start;
            while c < end
                invariant
                    self.wf(),
                    self.cols() == before.cols(),
                    self.rows() == before.rows(),
                    start <= c <= end <= self.cols,
                    top <= r <= bottom,
                    bottom < self.rows,
                    forall|t: (int, int)| #[trigger]
                        self@.contains(t) <==> before@.contains(t) && !(start <= t.0 < end && top
                            <= t.1 < r) && !(start <= t.0 < c && t.1 == r),
                decreases end - c,
            {
                self.clear(c, r);
                c = c + 1;
            }
            r = r + 1;
        }
        assert(self@ =~= before@.difference(
            (Block {
                start: start as int,
                end: end as int,
                top: top as int,
                bottom: bottom as int,
            }).tiles(),
        ));
    }

    /// Drain the dirty tiles into pixel rectangles, greedily merging runs
    /// horizontally and then vertically. Clamped to `width`/`height` so edge
    /// tiles do not overhang the screen.
    ///
    /// The map can describe more tiles than the screen still has, because a
    /// resize replaces the framebuffer before it reaches every client. Those
    /// tiles have nothing left to send.
    pub fn take_rects(&mut self, width: u32, height: u32) -> (out: Vec<Rect>)
        requires
            old(self).wf(),
        ensures
            final(self).wf(),
            final(self).cols() == old(self).cols(),
            final(self).rows() == old(self).rows(),
            final(self)@ == Set::<(int, int)>::empty(),
            out@ == rects_of(
                blocks_from(old(self)@, old(self).cols(), old(self).rows(), 0, 0),
                width,
                height,
            ),
    {
        let ghost before = *self;
        let ghost all = rects_of(
            blocks_from(before@, before.cols(), before.rows(), 0, 0),
            width,
            height,
        );
        let mut out: Vec<Rect> = Vec::new();
        let mut row: u32 = 0;
        while row < self.rows
            invariant
                self.wf(),
                self.cols() == before.cols(),
                self.rows() == before.rows(),
                row <= self.rows,
                forall|t: (int, int)| #[trigger] self@.contains(t) ==> t.1 >= row,
                all == out@ + rects_of(
                    blocks_from(self@, self.cols(), self.rows(), 0, row as int),
                    width,
                    height,
                ),
            decreases self.rows - row,
        {
            let mut col: u32 = 0;
            while col < self.cols
                invariant
                    self.wf(),
                    self.cols() == before.cols(),
                    self.rows() == before.rows(),
                    row < self.rows,
                    col <= self.cols,
                    forall|t: (int, int)| #[trigger]
                        self@.contains(t) ==> t.1 > row || t.1 == row && t.0 >= col,
                    all == out@ + rects_of(
                        blocks_from(self@, self.cols(), self.rows(), col as int, row as int),
                        width,
                        height,
                    ),
                decreases self.cols - col,
            {
                if !self.get(col, row) {
                    col = col + 1;
                    continue;
                }
                let ghost d = self@;
                let start: u32 = col;
                let end: u32 = self.run_from(col, row);
                let last: u32 = self.bottom_from(start, end, row);
                proof {
                    lemma_run_end(d, self.cols(), row as int, col as int);
                }
                self.clear_block(start, end, row, last);
                col = end;
                let ghost b = block_at(d, self.cols(), self.rows(), start as int, row as int);
                let ghost rest = blocks_from(
                    self@,
                    self.cols(),
                    self.rows(),
                    end as int,
                    row as int,
                );
                assert((seq![b] + rest).skip(1) =~= rest);
                assert forall|t: (int, int)| #[trigger] self@.contains(t) implies t.1 > row || t.1
                    == row && t.0 >= col by {
                    assert(d.contains(t));
                }
                let x: u64 = start as u64 * TILE as u64;
                let y: u64 = row as u64 * TILE as u64;
                if x >= width as u64 || y >= height as u64 {
                    continue;
                }
                let right: u64 = end as u64 * TILE as u64;
                let below: u64 = (last as u64 + 1) * TILE as u64;
                let w: u64 = if right <= width as u64 {
                    right - x
                } else {
                    width as u64 - x
                };
                let h: u64 = if below <= height as u64 {
                    below - y
                } else {
                    height as u64 - y
                };
                let ghost so_far = out@;
                out.push(Rect { x: x as u32, y: y as u32, w: w as u32, h: h as u32 });
                assert(b.rect(width, height) == Some(out@.last()));
                assert(out@ + rects_of(rest, width, height) =~= so_far + (seq![out@.last()]
                    + rects_of(rest, width, height)));
            }
            row = row + 1;
        }
        assert(self@ =~= Set::<(int, int)>::empty());
        assert(all =~= out@);
        out
    }
}

/// Whether some block holds a tile.
pub open spec fn in_blocks(bs: Seq<Block>, t: (int, int)) -> bool {
    exists|i: int| 0 <= i < bs.len() && #[trigger] bs[i].tiles().contains(t)
}

/// Whether some rectangle holds a pixel.
pub open spec fn in_rects(rs: Seq<Rect>, px: int, py: int) -> bool {
    exists|i: int| 0 <= i < rs.len() && #[trigger] rs[i].has(px, py)
}

/// A block of at least one tile on a `cols` x `rows` map.
pub open spec fn proper(b: Block, cols: int, rows: int) -> bool {
    0 <= b.start < b.end <= cols && 0 <= b.top <= b.bottom < rows
}

proof fn lemma_in_front(b: Block, rest: Seq<Block>, t: (int, int))
    ensures
        in_blocks(seq![b] + rest, t) <==> b.tiles().contains(t) || in_blocks(rest, t),
{
    let all = seq![b] + rest;
    if b.tiles().contains(t) {
        assert(all[0].tiles().contains(t));
    }
    if in_blocks(rest, t) {
        let i = choose|i: int| 0 <= i < rest.len() && #[trigger] rest[i].tiles().contains(t);
        assert(all[i + 1].tiles().contains(t));
    }
    if in_blocks(all, t) {
        let i = choose|i: int| 0 <= i < all.len() && #[trigger] all[i].tiles().contains(t);
        if i > 0 {
            assert(rest[i - 1].tiles().contains(t));
        }
    }
}

/// Scanning takes every dirty tile into exactly one block, and no other tile.
pub proof fn lemma_blocks_partition(
    d: Set<(int, int)>,
    cols: int,
    rows: int,
    col: int,
    row: int,
)
    requires
        d.subset_of(grid(cols, rows)),
        0 <= col <= cols,
        0 <= row <= rows,
        forall|t: (int, int)| #[trigger]
            d.contains(t) ==> t.1 > row || t.1 == row && t.0 >= col,
    ensures
        forall|t: (int, int)|
            d.contains(t) <==> #[trigger] in_blocks(blocks_from(d, cols, rows, col, row), t),
        forall|i: int|
            0 <= i < blocks_from(d, cols, rows, col, row).len() ==> proper(
                #[trigger] blocks_from(d, cols, rows, col, row)[i],
                cols,
                rows,
            ),
        forall|i: int, j: int, t: (int, int)|
            0 <= i < j < blocks_from(d, cols, rows, col, row).len() ==> !(
            #[trigger] blocks_from(d, cols, rows, col, row)[i].tiles().contains(t)
                && #[trigger] blocks_from(d, cols, rows, col, row)[j].tiles().contains(t)),
    decreases rows - row, cols - col,
{
    let bs = blocks_from(d, cols, rows, col, row);
    if row >= rows {
        assert forall|t: (int, int)| d.contains(t) <==> #[trigger] in_blocks(bs, t) by {
            assert(d.contains(t) ==> grid(cols, rows).contains(t));
        }
    } else if col >= cols {
        assert forall|t: (int, int)| #[trigger] d.contains(t) implies t.1 > row + 1 || t.1 == row
            + 1 && t.0 >= 0 by {
            assert(grid(cols, rows).contains(t));
        }
        lemma_blocks_partition(d, cols, rows, 0, row + 1);
        assert(bs == blocks_from(d, cols, rows, 0, row + 1));
    } else if !d.contains((col, row)) {
        assert forall|t: (int, int)| #[trigger] d.contains(t) implies t.1 > row || t.1 == row
            && t.0 >= col + 1 by {
            if t.1 == row && t.0 == col {
                assert(t == (col, row));
            }
        }
        lemma_blocks_partition(d, cols, rows, col + 1, row);
        assert(bs == blocks_from(d, cols, rows, col + 1, row));
    } else {
        let b = block_at(d, cols, rows, col, row);
        let left = d.difference(b.tiles());
        let rest = blocks_from(left, cols, rows, b.end, row);
        lemma_run_end(d, cols, row, col);
        lemma_run_bottom(d, rows, col, b.end, row);
        assert forall|t: (int, int)| #[trigger] b.tiles().contains(t) implies d.contains(t) by {
            assert(all_dirty(d, col, b.end, t.1));
            assert(d.contains((t.0, t.1)));
        }
        lemma_blocks_partition(left, cols, rows, b.end, row);
        assert(bs == seq![b] + rest);
        assert forall|t: (int, int)| d.contains(t) <==> #[trigger] in_blocks(bs, t) by {
            lemma_in_front(b, rest, t);
            assert(left.contains(t) <==> in_blocks(rest, t));
        }
        assert forall|i: int| 0 <= i < bs.len() implies proper(#[trigger] bs[i], cols, rows) by {
            if i > 0 {
                assert(bs[i] == rest[i - 1]);
            }
        }
        assert forall|i: int, j: int, t: (int, int)| 0 <= i < j < bs.len() implies !(
        #[trigger] bs[i].tiles().contains(t) && #[trigger] bs[j].tiles().contains(t)) by {
            if i == 0 && bs[j].tiles().contains(t) {
                assert(rest[j - 1].tiles().contains(t));
                assert(in_blocks(rest, t));
                assert(left.contains(t));
            } else if i > 0 {
                assert(bs[i] == rest[i - 1] && bs[j] == rest[j - 1]);
            }
        }
    }
}

proof fn lemma_block_pixels(b: Block, cols: int, rows: int, width: u32, height: u32)
    requires
        proper(b, cols, rows),
    ensures
        match b.rect(width, height) {
            Some(r) => {
                &&& r.w > 0 && r.h > 0 && r.inside(width as int, height as int)
                &&& forall|px: int, py: int| #[trigger]
                    r.has(px, py) <==> 0 <= px < width && 0 <= py < height && b.tiles().contains(
                        (px / 64, py / 64),
                    )
            },
            None => forall|px: int, py: int|
                0 <= px < width && 0 <= py < height ==> !#[trigger] b.tiles().contains(
                    (px / 64, py / 64),
                ),
        },
{
}

proof fn lemma_rects_of(bs: Seq<Block>, cols: int, rows: int, width: u32, height: u32)
    requires
        forall|i: int| 0 <= i < bs.len() ==> proper(#[trigger] bs[i], cols, rows),
        forall|i: int, j: int, t: (int, int)|
            0 <= i < j < bs.len() ==> !(#[trigger] bs[i].tiles().contains(t)
                && #[trigger] bs[j].tiles().contains(t)),
    ensures
        forall|px: int, py: int|
            #[trigger] in_rects(rects_of(bs, width, height), px, py) <==> 0 <= px < width && 0 <= py
                < height && in_blocks(bs, (px / 64, py / 64)),
        forall|i: int|
            0 <= i < rects_of(bs, width, height).len() ==> {
                let r = #[trigger] rects_of(bs, width, height)[i];
                r.w > 0 && r.h > 0 && r.inside(width as int, height as int)
            },
        forall|i: int, j: int, px: int, py: int|
            0 <= i < j < rects_of(bs, width, height).len() ==> !(
            #[trigger] rects_of(bs, width, height)[i].has(px, py)
                && #[trigger] rects_of(bs, width, height)[j].has(px, py)),
    decreases bs.len(),
{
    let rs = rects_of(bs, width, height);
    if bs.len() > 0 {
        let b = bs[0];
        let rest = bs.skip(1);
        let more = rects_of(rest, width, height);
        assert(bs =~= seq![b] + rest);
        assert forall|i: int, j: int, t: (int, int)| 0 <= i < j < rest.len() implies !(
        #[trigger] rest[i].tiles().contains(t) && #[trigger] rest[j].tiles().contains(t)) by {
            assert(rest[i] == bs[i + 1] && rest[j] == bs[j + 1]);
        }
        lemma_rects_of(rest, cols, rows, width, height);
        lemma_block_pixels(b, cols, rows, width, height);
        assert forall|px: int, py: int|
            #[trigger] in_rects(rs, px, py) <==> 0 <= px < width && 0 <= py < height && in_blocks(
                bs,
                (px / 64, py / 64),
            ) by {
            lemma_in_front(b, rest, (px / 64, py / 64));
            assert(in_rects(more, px, py) <==> 0 <= px < width && 0 <= py < height && in_blocks(
                rest,
                (px / 64, py / 64),
            ));
            if let Some(r) = b.rect(width, height) {
                assert(rs[0] == r);
                if r.has(px, py) {
                    assert(rs[0].has(px, py));
                }
                if in_rects(more, px, py) {
                    let k = choose|k: int| 0 <= k < more.len() && #[trigger] more[k].has(px, py);
                    assert(rs[k + 1].has(px, py));
                }
                if in_rects(rs, px, py) {
                    let k = choose|k: int| 0 <= k < rs.len() && #[trigger] rs[k].has(px, py);
                    if k > 0 {
                        assert(more[k - 1].has(px, py));
                    }
                }
            }
        }
        if let Some(r) = b.rect(width, height) {
            assert forall|i: int, j: int, px: int, py: int| 0 <= i < j < rs.len() implies !(
            #[trigger] rs[i].has(px, py) && #[trigger] rs[j].has(px, py)) by {
                assert(rs[j] == more[j - 1]);
                if i == 0 {
                    if rs[0].has(px, py) && rs[j].has(px, py) {
                        let t = (px / 64, py / 64);
                        assert(more[j - 1].has(px, py));
                        assert(in_rects(more, px, py));
                        let k = choose|k: int|
                            0 <= k < rest.len() && #[trigger] rest[k].tiles().contains(t);
                        assert(bs[0].tiles().contains(t) && bs[k + 1].tiles().contains(t));
                    }
                } else {
                    assert(rs[i] == more[i - 1]);
                }
            }
        }
    } else {
        assert forall|px: int, py: int| !#[trigger] in_rects(rs, px, py) by {}
        assert forall|t: (int, int)| !#[trigger] in_blocks(bs, t) by {}
    }
}

/// Draining sends every pixel of a dirty tile that is on the screen exactly
/// once, and no other pixel; every rectangle has an area and lies on the
/// screen.
pub proof fn lemma_rects_send_dirty_pixels_once(
    d: Set<(int, int)>,
    cols: int,
    rows: int,
    width: u32,
    height: u32,
)
    requires
        d.subset_of(grid(cols, rows)),
        0 <= cols,
        0 <= rows,
    ensures
        ({
            let rs = rects_of(blocks_from(d, cols, rows, 0, 0), width, height);
            &&& forall|px: int, py: int| #[trigger]
                in_rects(rs, px, py) <==> 0 <= px < width && 0 <= py < height && d.contains(
                    (px / 64, py / 64),
                )
            &&& forall|i: int|
                0 <= i < rs.len() ==> (#[trigger] rs[i]).w > 0 && rs[i].h > 0 && rs[i].inside(
                    width as int,
                    height as int,
                )
            &&& forall|i: int, j: int, px: int, py: int|
                0 <= i < j < rs.len() ==> !(#[trigger] rs[i].has(px, py)
                    && #[trigger] rs[j].has(px, py))
        }),
{
    assert forall|t: (int, int)| #[trigger] d.contains(t) implies t.1 > 0 || t.1 == 0 && t.0
        >= 0 by {
        assert(grid(cols, rows).contains(t));
    }
    lemma_blocks_partition(d, cols, rows, 0, 0);
    lemma_rects_of(blocks_from(d, cols, rows, 0, 0), cols, rows, width, height);
    let bs = blocks_from(d, cols, rows, 0, 0);
    let rs = rects_of(bs, width, height);
    assert forall|px: int, py: int| #[trigger]
        in_rects(rs, px, py) <==> 0 <= px < width && 0 <= py < height && d.contains(
            (px / 64, py / 64),
        ) by {
        assert(d.contains((px / 64, py / 64)) <==> in_blocks(bs, (px / 64, py / 64)));
    }
}

/// A map that covers a screen has a tile for each of its pixels, so marking
/// every tile and draining sends the whole screen.
pub proof fn lemma_full_map_sends_everything(width: u32, height: u32, px: int, py: int)
    requires
        0 <= px < width,
        0 <= py < height,
    ensures
        ({
            let cols = tiles_across(width as int);
            let rows = tiles_across(height as int);
            in_rects(
                rects_of(blocks_from(grid(cols, rows), cols, rows, 0, 0), width, height),
                px,
                py,
            )
        }),
{
    let cols = tiles_across(width as int);
    let rows = tiles_across(height as int);
    lemma_rects_send_dirty_pixels_once(grid(cols, rows), cols, rows, width, height);
    assert(grid(cols, rows).contains((px / 64, py / 64)));
}

/// A pixel of a damaged rectangle that is on the screen lies in a tile that
/// the damage marks.
pub proof fn lemma_damage_marks_its_pixels(r: Rect, width: u32, height: u32, px: int, py: int)
    requires
        r.has(px, py),
        0 <= px < width,
        0 <= py < height,
    ensures
        touched(r, (px / 64, py / 64)),
        grid(tiles_across(width as int), tiles_across(height as int)).contains((px / 64, py / 64)),
{
}

impl TileMap {
    /// Only tiles of the map are ever marked.
    pub proof fn lemma_marks_on_grid(self)
        ensures
            self@.subset_of(grid(self.cols(), self.rows())),
            0 <= self.cols(),
            0 <= self.rows(),
    {
    }
}

/// A rectangle marks exactly the tiles, 64 pixels wide and high, in which it has a
/// pixel.
pub proof fn lemma_damage_marks_no_other_tile(r: Rect, t: (int, int))
    requires
        0 <= t.0,
        0 <= t.1,
    ensures
        touched(r, t) <==> exists|px: int, py: int| #[trigger]
            r.has(px, py) && px / 64 == t.0 && py / 64 == t.1,
{
    if touched(r, t) {
        let px = if r.x > t.0 * 64 {
            r.x as int
        } else {
            t.0 * 64
        };
        let py = if r.y > t.1 * 64 {
            r.y as int
        } else {
            t.1 * 64
        };
        assert(r.has(px, py) && px / 64 == t.0 && py / 64 == t.1);
    }
}

/// A map has as many tiles across as it takes to cover the pixels, and no more.
pub proof fn lemma_tiles_cover_the_pixels(pixels: int)
    requires
        0 <= pixels,
    ensures
        tiles_across(pixels) * 64 >= pixels,
        pixels > 0 ==> (tiles_across(pixels) - 1) * 64 < pixels,
        pixels == 0 ==> tiles_across(pixels) == 0,
{
}

} // verus!
