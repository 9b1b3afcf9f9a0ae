//! The grid model and the step engine: a fixed-shape pair of boolean
//! matrices (current + scratch, stored flat in row-major order), the
//! Moore-neighborhood counting rule with edge clipping, and the
//! double-buffered generation step.

use vstd::prelude::*;

verus! {

/// One cell's contribution to a neighbor sum.
pub open spec fn b2i(b: bool) -> int {
    if b {
        1
    } else {
        0
    }
}

/// The update rule: a live cell survives with 2 or 3 live neighbors,
/// a dead cell is born with exactly 3; everything else is dead next
/// generation (underpopulation or overpopulation) or stays dead.
pub open spec fn next_state(alive: bool, n: int) -> bool {
    if alive {
        n == 2 || n == 3
    } else {
        n == 3
    }
}

/// A Game of Life board: fixed dimensions, a pixel scale for the
/// renderer, and two equally-shaped flat boolean buffers. `grid` is the
/// current generation; `buffer` is the scratch target of the next step.
pub struct GameOfLife {
    cols: usize,
    rows: usize,
    cell_size: u32,
    grid: Vec<bool>,
    buffer: Vec<bool>,
}

impl GameOfLife {
    pub closed spec fn spec_rows(&self) -> usize {
        self.rows
    }

    pub closed spec fn spec_cols(&self) -> usize {
        self.cols
    }

    pub closed spec fn spec_cell_size(&self) -> u32 {
        self.cell_size
    }

    /// Both buffers always hold exactly `rows * cols` cells, and the
    /// pixel scale is positive.
    pub closed spec fn wf(&self) -> bool {
        &&& self.grid@.len() == (self.rows as int) * (self.cols as int)
        &&& self.buffer@.len() == (self.rows as int) * (self.cols as int)
        &&& (self.rows as int) * (self.cols as int) <= usize::MAX
        &&& self.cell_size >= 1
    }

    /// The current generation's cell at flat index `r * cols + c`.
    pub closed spec fn cell_at(&self, r: int, c: int) -> bool {
        self.grid@[r * (self.spec_cols() as int) + c]
    }

    /// The mathematical board: live cells within the grid shape; every
    /// out-of-range coordinate reads as dead (edge clipping, no
    /// wraparound).
    pub open spec fn cell(&self, r: int, c: int) -> bool {
        0 <= r < self.spec_rows() && 0 <= c < self.spec_cols() && self.cell_at(r, c)
    }

    /// The number of live cells in the Moore neighborhood of `(r, c)`:
    /// the 8 surrounding cells, with neighbors outside the grid counted
    /// as dead.
    pub open spec fn neighbor_count(&self, r: int, c: int) -> int {
        b2i(self.cell(r - 1, c - 1)) + b2i(self.cell(r - 1, c)) + b2i(self.cell(r - 1, c + 1))
            + b2i(self.cell(r, c - 1)) + b2i(self.cell(r, c + 1)) + b2i(self.cell(r + 1, c - 1))
            + b2i(self.cell(r + 1, c)) + b2i(self.cell(r + 1, c + 1))
    }

    #[verifier::when_used_as_spec(spec_rows)]
    pub fn rows(&self) -> (r: usize)
        ensures
            r == self.spec_rows(),
    {
        self.rows
    }

    #[verifier::when_used_as_spec(spec_cols)]
    pub fn cols(&self) -> (c: usize)
        ensures
            c == self.spec_cols(),
    {
        self.cols
    }

    #[verifier::when_used_as_spec(spec_cell_size)]
    pub fn cell_size(&self) -> (s: u32)
        ensures
            s == self.spec_cell_size(),
    {
        self.cell_size
    }

    /// Create a board from pixel dimensions and a cell scale: `cols =
    /// width / cell_size`, `rows = height / cell_size` (floor division),
    /// every cell dead. A scale larger than a dimension clamps that
    /// dimension to zero; a zero scale is rejected up front, so no
    /// division by zero can happen.
    pub fn new(width: u32, height: u32, cell_size: u32) -> (g: GameOfLife)
        requires
            cell_size >= 1,
            (width as int / cell_size as int) * (height as int / cell_size as int) <= usize::MAX,
        ensures
            g.wf(),
            g.spec_cols() == width as int / cell_size as int,
            g.spec_rows() == height as int / cell_size as int,
            g.spec_cell_size() == cell_size,
            forall|r: int, c: int| !g.cell(r, c),
    {
        let cols = (width / cell_size) as usize;
        let rows = (height / cell_size) as usize;
        proof {
            assert((rows as int) * (cols as int) == (cols as int) * (rows as int))
                by (nonlinear_arith);
        }
        let len = cols * rows;
        let grid = dead_cells(len);
        let buffer = dead_cells(len);
        let g = GameOfLife { cols, rows, cell_size, grid, buffer };
        proof {
            assert forall|r: int, c: int| !g.cell(r, c) by {
                if 0 <= r < g.spec_rows() && 0 <= c < g.spec_cols() {
                    lemma_flat_index_bounds(g.spec_rows() as int, g.spec_cols() as int, r, c);
                }
            }
        }
        g
    }

    /// Whether the cell at `(row, col)` is alive in the current
    /// generation; any out-of-range index reads as dead, never an error.
    pub fn is_alive(&self, row: usize, col: usize) -> (b: bool)
        requires
            self.wf(),
        ensures
            b == self.cell(row as int, col as int),
    {
        if row < self.rows && col < self.cols {
            proof {
                lemma_flat_index_bounds(self.rows as int, self.cols as int, row as int, col as int);
            }
            self.grid[row * self.cols + col]
        } else {
            false
        }
    }

    /// Set `(row, col)` alive in the current generation, silently doing
    /// nothing when the position lies outside the grid. Every placement
    /// path (literal patterns and the RLE decoder) goes through this
    /// lenient boundary check.
    pub fn set_alive_if_in_bounds(&mut self, row: usize, col: usize)
        requires
            old(self).wf(),
        ensures
            final(self).wf(),
            final(self).spec_rows() == old(self).spec_rows(),
            final(self).spec_cols() == old(self).spec_cols(),
            final(self).spec_cell_size() == old(self).spec_cell_size(),
            forall|r: int, c: int|
                final(self).cell(r, c) == (old(self).cell(r, c) || (r == row as int && c
                    == col as int && r < old(self).spec_rows() && c < old(self).spec_cols())),
    {
        if row < self.rows && col < self.cols {
            proof {
                lemma_flat_index_bounds(self.rows as int, self.cols as int, row as int, col as int);
            }
            let idx = row * self.cols + col;
            self.grid.set(idx, true);
            proof {
                assert forall|r: int, c: int|
                    self.cell(r, c) == (old(self).cell(r, c) || (r == row as int && c == col as int
                        && r < old(self).spec_rows() && c < old(self).spec_cols())) by {
                    if 0 <= r < self.spec_rows() && 0 <= c < self.spec_cols() {
                        lemma_flat_index_bounds(self.rows as int, self.cols as int, r, c);
                        if r * (self.cols as int) + c == idx {
                            lemma_flat_index_injective(
                                self.cols as int,
                                r,
                                c,
                                row as int,
                                col as int,
                            );
                        }
                    }
                }
            }
        }
    }
}

/// One generation transition: same shape and scale, and every cell of
/// `post` is the rule applied to the cell and neighbor count that `pre`
/// held — the whole step reads the pre-step state only.
pub open spec fn step_rel(pre: GameOfLife, post: GameOfLife) -> bool {
    &&& post.spec_rows() == pre.spec_rows()
    &&& post.spec_cols() == pre.spec_cols()
    &&& post.spec_cell_size() == pre.spec_cell_size()
    &&& forall|r: int, c: int|
        0 <= r < pre.spec_rows() && 0 <= c < pre.spec_cols() ==> (#[trigger] post.cell(r, c))
            == next_state(pre.cell(r, c), pre.neighbor_count(r, c))
}

impl GameOfLife {
    /// Count the live cells among the 8 neighbors of `(row, col)`; cells
    /// beyond the border count as dead.
    pub fn count_neighbors(&self, row: usize, col: usize) -> (n: u8)
        requires
            self.wf(),
            row < self.spec_rows(),
            col < self.spec_cols(),
        ensures
            n as int == self.neighbor_count(row as int, col as int),
            n <= 8,
    {
        let mut n: u8 = 0;
        if row > 0 {
            if col > 0 && self.is_alive(row - 1, col - 1) {
                n = n + 1;
            }
            if self.is_alive(row - 1, col) {
                n = n + 1;
            }
            if self.is_alive(row - 1, col + 1) {
                n = n + 1;
            }
        }
        if col > 0 && self.is_alive(row, col - 1) {
            n = n + 1;
        }
        if self.is_alive(row, col + 1) {
            n = n + 1;
        }
        if col > 0 && self.is_alive(row + 1, col - 1) {
            n = n + 1;
        }
        if self.is_alive(row + 1, col) {
            n = n + 1;
        }
        if self.is_alive(row + 1, col + 1) {
            n = n + 1;
        }
        n
    }

    /// Advance the board one generation. The pass reads the current
    /// buffer only and writes every next state into the scratch buffer;
    /// only after the full pass do the two buffers exchange roles, so no
    /// cell transition can observe a neighbor's already-updated state.
    pub fn update(&mut self)
        requires
            old(self).wf(),
        ensures
            final(self).wf(),
            step_rel(*old(self), *final(self)),
    {
        let ghost pre = *self;
        let rows = self.rows;
        let cols = self.cols;
        let mut r: usize = 0;
        while r < rows
            invariant
                r <= rows,
                rows == self.rows,
                cols == self.cols,
                self.rows == pre.rows,
                self.cols == pre.cols,
                self.cell_size == pre.cell_size,
                self.grid@ == pre.grid@,
                self.wf(),
                forall|r2: int, c2: int|
                    0 <= r2 < r && 0 <= c2 < cols ==> #[trigger] self.buffer@[r2 * cols + c2]
                        == next_state(pre.cell(r2, c2), pre.neighbor_count(r2, c2)),
            decreases rows - r,
        {
            let mut c: usize = 0;
            while c < cols
                invariant
                    r < rows,
                    c <= cols,
                    rows == self.rows,
                    cols == self.cols,
                    self.rows == pre.rows,
                    self.cols == pre.cols,
                    self.cell_size == pre.cell_size,
                    self.grid@ == pre.grid@,
                    self.wf(),
                    forall|r2: int, c2: int|
                        0 <= r2 < r && 0 <= c2 < cols ==> #[trigger] self.buffer@[r2 * cols + c2]
                            == next_state(pre.cell(r2, c2), pre.neighbor_count(r2, c2)),
                    forall|c2: int|
                        0 <= c2 < c ==> #[trigger] self.buffer@[r * cols + c2] == next_state(
                            pre.cell(r as int, c2),
                            pre.neighbor_count(r as int, c2),
                        ),
                decreases cols - c,
            {
                let alive = self.is_alive(r, c);
                let n = self.count_neighbors(r, c);
                let next = if alive {
                    n == 2 || n == 3
                } else {
                    n == 3
                };
                proof {
                    lemma_flat_index_bounds(rows as int, cols as int, r as int, c as int);
                }
                let idx = r * cols + c;
                self.buffer.set(idx, next);
                proof {
                    assert forall|r2: int, c2: int|
                        0 <= r2 < r && 0 <= c2 < cols implies #[trigger] self.buffer@[r2 * cols
                        + c2] == next_state(pre.cell(r2, c2), pre.neighbor_count(r2, c2)) by {
                        lemma_flat_index_bounds(rows as int, cols as int, r2, c2);
                        if r2 * (cols as int) + c2 == idx {
                            lemma_flat_index_injective(cols as int, r2, c2, r as int, c as int);
                        }
                    }
                    assert forall|c2: int|
                        0 <= c2 < c + 1 implies #[trigger] self.buffer@[r * cols + c2]
                        == next_state(
                        pre.cell(r as int, c2),
                        pre.neighbor_count(r as int, c2),
                    ) by {
                        lemma_flat_index_bounds(rows as int, cols as int, r as int, c2);
                        if (r as int) * (cols as int) + c2 == idx {
                            lemma_flat_index_injective(cols as int, r as int, c2, r as int, c as int);
                        }
                    }
                }
                c = c + 1;
            }
            r = r + 1;
        }
        core::mem::swap(&mut self.grid, &mut self.buffer);
        proof {
            assert forall|r2: int, c2: int|
                0 <= r2 < self.spec_rows() && 0 <= c2 < self.spec_cols() implies (
            #[trigger] self.cell(r2, c2)) == next_state(
                pre.cell(r2, c2),
                pre.neighbor_count(r2, c2),
            ) by {
                lemma_flat_index_bounds(rows as int, cols as int, r2, c2);
            }
        }
    }
}

/// Whether some coordinate of `coords`, shifted by the offsets, lands
/// on the absolute position `(r, c)`.
pub open spec fn pattern_hits(coords: Seq<(usize, usize)>, ro: int, co: int, r: int, c: int) -> bool {
    exists|i: int|
        0 <= i < coords.len() && ro + (#[trigger] coords[i]).0 == r && co + coords[i].1 == c
}

impl GameOfLife {
    /// Set a literal pattern of `(row, col)` coordinates alive, each
    /// shifted by the given offsets. Positions landing outside the grid
    /// are silently skipped, exactly as with decoded patterns.
    pub fn set_pattern(&mut self, coords: &[(usize, usize)], row_offset: usize, col_offset: usize)
        requires
            old(self).wf(),
        ensures
            final(self).wf(),
            final(self).spec_rows() == old(self).spec_rows(),
            final(self).spec_cols() == old(self).spec_cols(),
            final(self).spec_cell_size() == old(self).spec_cell_size(),
            forall|r: int, c: int|
                0 <= r < old(self).spec_rows() && 0 <= c < old(self).spec_cols()
                    ==> (#[trigger] final(self).cell(r, c)) == (old(self).cell(r, c)
                    || pattern_hits(coords@, row_offset as int, col_offset as int, r, c)),
    {
        let ghost pre = *self;
        let ghost ro: int = row_offset as int;
        let ghost co: int = col_offset as int;
        let mut k: usize = 0;
        while k < coords.len()
            invariant
                k <= coords@.len(),
                ro == row_offset as int,
                co == col_offset as int,
                self.wf(),
                self.spec_rows() == pre.spec_rows(),
                self.spec_cols() == pre.spec_cols(),
                self.spec_cell_size() == pre.spec_cell_size(),
                forall|r: int, c: int|
                    0 <= r < pre.spec_rows() && 0 <= c < pre.spec_cols()
                        ==> (#[trigger] self.cell(r, c)) == (pre.cell(r, c) || pattern_hits(
                        coords@.take(k as int),
                        ro,
                        co,
                        r,
                        c,
                    )),
            decreases coords@.len() - k,
        {
            let (pr, pc) = coords[k];
            let ghost mid = *self;
            self.set_alive_shifted(row_offset, col_offset, pr, pc);
            proof {
                assert forall|r: int, c: int|
                    0 <= r < pre.spec_rows() && 0 <= c < pre.spec_cols() implies (
                #[trigger] self.cell(r, c)) == (pre.cell(r, c) || pattern_hits(
                    coords@.take(k + 1),
                    ro,
                    co,
                    r,
                    c,
                )) by {
                    assert(mid.cell(r, c) == (pre.cell(r, c) || pattern_hits(
                        coords@.take(k as int),
                        ro,
                        co,
                        r,
                        c,
                    )));
                    lemma_pattern_hits_take_step(coords@, ro, co, k as int, r, c);
                }
            }
            k = k + 1;
        }
        proof {
            assert(coords@.take(coords@.len() as int) =~= coords@);
        }
    }
}

impl GameOfLife {
    /// Set the single pattern cell `(pr, pc)` alive at the given
    /// offsets. A position whose shifted coordinate overflows `usize`
    /// cannot lie on the grid, so it is skipped like any other
    /// out-of-range position.
    fn set_alive_shifted(&mut self, row_offset: usize, col_offset: usize, pr: usize, pc: usize)
        requires
            old(self).wf(),
        ensures
            final(self).wf(),
            final(self).spec_rows() == old(self).spec_rows(),
            final(self).spec_cols() == old(self).spec_cols(),
            final(self).spec_cell_size() == old(self).spec_cell_size(),
            forall|r: int, c: int|
                0 <= r < old(self).spec_rows() && 0 <= c < old(self).spec_cols()
                    ==> (#[trigger] final(self).cell(r, c)) == (old(self).cell(r, c) || (
                row_offset + pr == r && col_offset + pc == c)),
    {
        match (row_offset.checked_add(pr), col_offset.checked_add(pc)) {
            (Some(rr), Some(cc)) => {
                self.set_alive_if_in_bounds(rr, cc);
            },
            _ => {},
        }
    }
}

/// Strict row-major order on grid coordinates: earlier row first, then
/// earlier column within a row.
pub open spec fn row_major_lt(a: (usize, usize), b: (usize, usize)) -> bool {
    a.0 < b.0 || (a.0 == b.0 && a.1 < b.1)
}

/// Whether `p` lies strictly before the scan position `(r, c)` in
/// row-major order.
spec fn before_scan(p: (usize, usize), r: int, c: int) -> bool {
    (p.0 as int) < r || (p.0 as int == r && (p.1 as int) < c)
}

impl GameOfLife {
    /// Enumerate the live cells of the current generation as `(row,
    /// col)` pairs in strictly increasing row-major order: exactly the
    /// live cells, each once, for the renderer to paint.
    pub fn live_cells(&self) -> (v: Vec<(usize, usize)>)
        requires
            self.wf(),
        ensures
            forall|i: int|
                0 <= i < v@.len() ==> self.cell((#[trigger] v@[i]).0 as int, v@[i].1 as int),
            forall|r: int, c: int|
                #[trigger] self.cell(r, c) ==> exists|i: int|
                    0 <= i < v@.len() && (#[trigger] v@[i]) == ((r as usize, c as usize)),
            forall|i: int, j: int| 0 <= i < j < v@.len() ==> row_major_lt(v@[i], v@[j]),
    {
        let mut v: Vec<(usize, usize)> = Vec::new();
        let rows = self.rows;
        let cols = self.cols;
        let mut r: usize = 0;
        while r < rows
            invariant
                r <= rows,
                rows == self.spec_rows(),
                cols == self.spec_cols(),
                self.wf(),
                forall|i: int|
                    0 <= i < v@.len() ==> self.cell((#[trigger] v@[i]).0 as int, v@[i].1 as int),
                forall|i: int| 0 <= i < v@.len() ==> before_scan(#[trigger] v@[i], r as int, 0),
                forall|i: int, j: int| 0 <= i < j < v@.len() ==> row_major_lt(v@[i], v@[j]),
                forall|r2: int, c2: int|
                    r2 < r && #[trigger] self.cell(r2, c2) ==> exists|i: int|
                        0 <= i < v@.len() && (#[trigger] v@[i]) == ((r2 as usize, c2 as usize)),
            decreases rows - r,
        {
            let mut c: usize = 0;
            while c < cols
                invariant
                    r < rows,
                    c <= cols,
                    rows == self.spec_rows(),
                    cols == self.spec_cols(),
                    self.wf(),
                    forall|i: int|
                        0 <= i < v@.len() ==> self.cell(
                            (#[trigger] v@[i]).0 as int,
                            v@[i].1 as int,
                        ),
                    forall|i: int|
                        0 <= i < v@.len() ==> before_scan(#[trigger] v@[i], r as int, c as int),
                    forall|i: int, j: int| 0 <= i < j < v@.len() ==> row_major_lt(v@[i], v@[j]),
                    forall|r2: int, c2: int|
                        (r2 < r || (r2 == r && c2 < c)) && #[trigger] self.cell(r2, c2)
                            ==> exists|i: int|
                            0 <= i < v@.len() && (#[trigger] v@[i]) == ((r2 as usize, c2 as usize)),
                decreases cols - c,
            {
                let ghost prev = v@;
                if self.is_alive(r, c) {
                    v.push((r, c));
                }
                proof {
                    assert forall|r2: int, c2: int|
                        (r2 < r || (r2 == r && c2 < c + 1)) && #[trigger] self.cell(r2, c2)
                            implies exists|i: int|
                            0 <= i < v@.len() && (#[trigger] v@[i]) == ((r2 as usize, c2 as usize)) by {
                        if r2 == r && c2 == c {
                            assert(v@[v@.len() - 1] == ((r as usize, c as usize)));
                        } else {
                            let i = choose|i: int|
                                0 <= i < prev.len() && (#[trigger] prev[i]) == ((r2 as usize, c2 as usize));
                            assert(v@[i] == prev[i]);
                        }
                    }
                }
                c = c + 1;
            }
            r = r + 1;
        }
        v
    }
}

/// Taking one more coordinate extends the hit set by exactly that
/// coordinate's target position.
proof fn lemma_pattern_hits_take_step(
    coords: Seq<(usize, usize)>,
    ro: int,
    co: int,
    k: int,
    r: int,
    c: int,
)
    requires
        0 <= k < coords.len(),
    ensures
        pattern_hits(coords.take(k + 1), ro, co, r, c) == (pattern_hits(coords.take(k), ro, co, r, c)
            || (ro + coords[k].0 == r && co + coords[k].1 == c)),
{
    let pre = coords.take(k);
    let ext = coords.take(k + 1);
    if pattern_hits(pre, ro, co, r, c) {
        let i = choose|i: int|
            0 <= i < pre.len() && ro + (#[trigger] pre[i]).0 == r && co + pre[i].1 == c;
        assert(ext[i] == pre[i]);
        assert(pattern_hits(ext, ro, co, r, c));
    }
    if ro + coords[k].0 == r && co + coords[k].1 == c {
        assert(ext[k] == coords[k]);
        assert(pattern_hits(ext, ro, co, r, c));
    }
    if pattern_hits(ext, ro, co, r, c) {
        let i = choose|i: int|
            0 <= i < ext.len() && ro + (#[trigger] ext[i]).0 == r && co + ext[i].1 == c;
        if i < k {
            assert(pre[i] == ext[i]);
            assert(pattern_hits(pre, ro, co, r, c));
        } else {
            assert(ext[i] == coords[k]);
        }
    }
}

/// A fresh all-dead buffer of the given length.
fn dead_cells(len: usize) -> (v: Vec<bool>)
    ensures
        v@.len() == len,
        forall|i: int| 0 <= i < len ==> !v@[i],
{
    let mut v: Vec<bool> = Vec::new();
    let mut k: usize = 0;
    while k < len
        invariant
            k <= len,
            v@.len() == k,
            forall|i: int| 0 <= i < k ==> !v@[i],
        decreases len - k,
    {
        v.push(false);
        k = k + 1;
    }
    v
}

/// Row-major flat indexing stays inside a `rows * cols` buffer.
pub(crate) proof fn lemma_flat_index_bounds(rows: int, cols: int, r: int, c: int)
    requires
        0 <= r < rows,
        0 <= c < cols,
    ensures
        0 <= r * cols + c < rows * cols,
{
    assert(0 <= r * cols + c < rows * cols) by (nonlinear_arith)
        requires
            0 <= r < rows,
            0 <= c < cols,
    ;
}

/// Two in-range coordinates with the same row-major flat index are the
/// same coordinate.
pub(crate) proof fn lemma_flat_index_injective(cols: int, r1: int, c1: int, r2: int, c2: int)
    requires
        0 <= c1 < cols,
        0 <= c2 < cols,
        r1 * cols + c1 == r2 * cols + c2,
    ensures
        r1 == r2,
        c1 == c2,
{
    assert(r1 == r2 && c1 == c2) by (nonlinear_arith)
        requires
            0 <= c1 < cols,
            0 <= c2 < cols,
            r1 * cols + c1 == r2 * cols + c2,
    ;
}

} // verus!
