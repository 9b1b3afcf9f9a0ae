//! The run-length-encoded pattern decoder: a single left-to-right
//! character scan with a cursor `(x, y)` and an accumulated decimal
//! count. Lines opening with `#` (comments) or `x` (header metadata)
//! are skipped whole; `b` advances over a dead run, `o` places a live
//! run, `$` ends a row, `!` ends the pattern, and anything else is
//! ignored. The format is deliberately lenient: malformed text and
//! out-of-range placements are dropped silently, never an error.

use vstd::prelude::*;
use crate::life::GameOfLife;

verus! {

/// A tag with no preceding count means a run of one.
pub open spec fn run_len(count: int) -> int {
    if count < 1 {
        1
    } else {
        count
    }
}

pub open spec fn is_rle_digit(ch: char) -> bool {
    48 <= ch as u32 <= 57
}

pub open spec fn digit_val(ch: char) -> int {
    ch as u32 - 48
}

/// The pattern cells of a live run of length `n` whose leftmost cell
/// sits at cursor `(x, y)`: relative positions `(row, col) = (y, x)`
/// through `(y, x + n - 1)`.
pub open spec fn run_cells(x: int, y: int, n: int) -> Set<(int, int)> {
    Set::new(|p: (int, int)| p.0 == y && x <= p.1 < x + n)
}

/// The relative `(row, col)` cells that the scan emits from position
/// `i` to the end of the text, given the cursor `(x, y)`, the count
/// accumulated so far, whether the scan stands at the start of a line,
/// and whether it is inside a skipped comment or header line.
pub open spec fn decode_suffix(
    s: Seq<char>,
    i: int,
    x: int,
    y: int,
    count: int,
    line_start: bool,
    skipping: bool,
) -> Set<(int, int)>
    decreases s.len() - i,
{
    if i < 0 || i >= s.len() {
        Set::empty()
    } else {
        let ch = s[i];
        if skipping {
            if ch == '\n' {
                decode_suffix(s, i + 1, x, y, count, true, false)
            } else {
                decode_suffix(s, i + 1, x, y, count, false, true)
            }
        } else if line_start && (ch == '#' || ch == 'x') {
            decode_suffix(s, i + 1, x, y, count, false, true)
        } else if is_rle_digit(ch) {
            decode_suffix(s, i + 1, x, y, count * 10 + digit_val(ch), false, false)
        } else if ch == 'b' {
            decode_suffix(s, i + 1, x + run_len(count), y, 0, false, false)
        } else if ch == 'o' {
            run_cells(x, y, run_len(count)).union(
                decode_suffix(s, i + 1, x + run_len(count), y, 0, false, false),
            )
        } else if ch == '$' {
            decode_suffix(s, i + 1, 0, y + run_len(count), 0, false, false)
        } else if ch == '!' {
            Set::empty()
        } else if ch == '\n' {
            decode_suffix(s, i + 1, x, y, count, true, false)
        } else {
            decode_suffix(s, i + 1, x, y, count, false, false)
        }
    }
}

/// The relative `(row, col)` cells that decoding a whole RLE text
/// yields, before any offset or clipping against a grid.
pub open spec fn decoded_cells(s: Seq<char>) -> Set<(int, int)> {
    decode_suffix(s, 0, 0, 0, 0, true, false)
}

/// One RLE load: same shape and scale, and exactly the decoded cells,
/// shifted by the offsets and clipped to the grid, have become alive on
/// top of what was alive before.
pub open spec fn loaded_rel(
    pre: GameOfLife,
    post: GameOfLife,
    s: Seq<char>,
    ro: int,
    co: int,
) -> bool {
    &&& post.spec_rows() == pre.spec_rows()
    &&& post.spec_cols() == pre.spec_cols()
    &&& post.spec_cell_size() == pre.spec_cell_size()
    &&& forall|r: int, c: int|
        0 <= r < pre.spec_rows() && 0 <= c < pre.spec_cols() ==> (#[trigger] post.cell(r, c)) == (
        pre.cell(r, c) || decoded_cells(s).contains((r - ro, c - co)))
}

/// `v` held below `bound`.
spec fn clamp_le(v: int, bound: int) -> int {
    if v <= bound {
        v
    } else {
        bound
    }
}

/// The larger grid dimension: a safe ceiling for decoder state, since
/// any cursor or count beyond it can only produce off-grid cells.
spec fn span_of(rows: int, cols: int) -> int {
    if rows > cols {
        rows
    } else {
        cols
    }
}

/// `a + b` held below `bound`; a sum beyond `usize` is beyond any
/// in-range `bound` as well.
fn add_clamped(a: usize, b: usize, bound: usize) -> (r: usize)
    ensures
        r as int == clamp_le(a + b, bound as int),
{
    match a.checked_add(b) {
        Some(v) => if v <= bound {
            v
        } else {
            bound
        },
        None => bound,
    }
}

/// `count * 10 + d` held below `bound`.
fn count_digit_clamped(count: usize, d: u32, bound: usize) -> (r: usize)
    ensures
        r as int == clamp_le(count * 10 + d, bound as int),
{
    match count.checked_mul(10) {
        Some(v) => match v.checked_add(d as usize) {
            Some(w) => if w <= bound {
                w
            } else {
                bound
            },
            None => bound,
        },
        None => bound,
    }
}

/// Advancing a clamped cursor by a clamped run length lands on the same
/// clamped position as advancing the unclamped cursor by the unclamped
/// run length.
proof fn lemma_run_advance(v_s: int, cnt_s: int, bound: int, cap: int)
    requires
        0 <= v_s,
        0 <= cnt_s,
        0 <= bound <= cap,
    ensures
        clamp_le(clamp_le(v_s, bound) + run_len(clamp_le(cnt_s, cap)), bound) == clamp_le(
            v_s + run_len(cnt_s),
            bound,
        ),
        run_len(clamp_le(cnt_s, cap)) <= run_len(cnt_s),
{
}

/// Accumulating one more digit commutes with clamping the count.
proof fn lemma_digit_clamped(cnt_s: int, d: int, cap: int)
    requires
        0 <= cnt_s,
        0 <= d,
        0 <= cap,
    ensures
        clamp_le(clamp_le(cnt_s, cap) * 10 + d, cap) == clamp_le(cnt_s * 10 + d, cap),
{
    if cnt_s > cap {
        assert(cap * 10 + d >= cap);
        assert(cnt_s * 10 + d > cap);
    }
}

/// Set the run cell `(row_offset + y, col_offset + x + j)` alive,
/// silently skipping a position that overflows `usize` — such a
/// position cannot lie on any grid.
fn set_alive_run_cell(
    g: &mut GameOfLife,
    row_offset: usize,
    y: usize,
    col_offset: usize,
    x: usize,
    j: usize,
)
    requires
        old(g).wf(),
    ensures
        final(g).wf(),
        final(g).spec_rows() == old(g).spec_rows(),
        final(g).spec_cols() == old(g).spec_cols(),
        final(g).spec_cell_size() == old(g).spec_cell_size(),
        forall|r: int, c: int|
            0 <= r < old(g).spec_rows() && 0 <= c < old(g).spec_cols()
                ==> (#[trigger] final(g).cell(r, c)) == (old(g).cell(r, c) || (row_offset + y == r
                && col_offset + x + j == c)),
{
    match (row_offset.checked_add(y), col_offset.checked_add(x)) {
        (Some(rr), Some(cx)) => match cx.checked_add(j) {
            Some(cc) => {
                g.set_alive_if_in_bounds(rr, cc);
            },
            None => {},
        },
        _ => {},
    }
}

impl GameOfLife {
    /// Decode an RLE text and set the decoded cells alive at the given
    /// offset. The scan never fails: comment and header lines, unknown
    /// characters, and placements outside the grid are silently
    /// dropped, and `!` ends the pattern wherever it stands.
    pub fn load_rle(&mut self, rle_data: &str, row_offset: usize, col_offset: usize)
        requires
            old(self).wf(),
        ensures
            final(self).wf(),
            loaded_rel(
                *old(self),
                *final(self),
                rle_data@,
                row_offset as int,
                col_offset as int,
            ),
    {
        let ghost pre = *self;
        let ghost s = rle_data@;
        let ghost ro: int = row_offset as int;
        let ghost co: int = col_offset as int;
        let rows = self.rows();
        let cols = self.cols();
        let cap: usize = if rows > cols {
            rows
        } else {
            cols
        };
        let len = rle_data.unicode_len();
        let mut x: usize = 0;
        let mut y: usize = 0;
        let mut count: usize = 0;
        let mut line_start: bool = true;
        let mut skipping: bool = false;
        let ghost mut xs: int = 0;
        let ghost mut ys: int = 0;
        let ghost mut cs: int = 0;
        let ghost mut placed: Set<(int, int)> = Set::empty();
        proof {
            assert(placed.union(decode_suffix(s, 0, 0, 0, 0, true, false)) =~= decoded_cells(s));
        }
        let mut i: usize = 0;
        while i < len
            invariant
                i <= len,
                len == s.len(),
                s == rle_data@,
                pre == *old(self),
                ro == row_offset as int,
                co == col_offset as int,
                rows == self.spec_rows(),
                cols == self.spec_cols(),
                cap as int == span_of(rows as int, cols as int),
                self.wf(),
                self.spec_rows() == pre.spec_rows(),
                self.spec_cols() == pre.spec_cols(),
                self.spec_cell_size() == pre.spec_cell_size(),
                xs >= 0,
                ys >= 0,
                cs >= 0,
                x as int == clamp_le(xs, cols as int),
                y as int == clamp_le(ys, rows as int),
                count as int == clamp_le(cs, cap as int),
                decoded_cells(s) == placed.union(
                    decode_suffix(s, i as int, xs, ys, cs, line_start, skipping),
                ),
                forall|r: int, c: int|
                    0 <= r < pre.spec_rows() && 0 <= c < pre.spec_cols()
                        ==> (#[trigger] self.cell(r, c)) == (pre.cell(r, c) || placed.contains(
                        (r - ro, c - co),
                    )),
            decreases len - i,
        {
            let ch = rle_data.get_char(i);
            let ghost xs0 = xs;
            let ghost ys0 = ys;
            let ghost cs0 = cs;
            let ghost ls0 = line_start;
            let ghost sk0 = skipping;
            let ghost rest = decode_suffix(s, i as int, xs0, ys0, cs0, ls0, sk0);
            if skipping {
                if ch == '\n' {
                    skipping = false;
                    line_start = true;
                } else {
                    line_start = false;
                }
            } else if line_start && (ch == '#' || ch == 'x') {
                skipping = true;
                line_start = false;
            } else if (ch as u32) >= 48 && (ch as u32) <= 57 {
                let d: u32 = (ch as u32) - 48;
                count = count_digit_clamped(count, d, cap);
                line_start = false;
                proof {
                    lemma_digit_clamped(cs0, d as int, cap as int);
                    cs = cs0 * 10 + digit_val(ch);
                }
            } else if ch == 'b' {
                let n = if count > 0 {
                    count
                } else {
                    1
                };
                x = add_clamped(x, n, cols);
                count = 0;
                line_start = false;
                proof {
                    lemma_run_advance(xs0, cs0, cols as int, cap as int);
                    xs = xs0 + run_len(cs0);
                    cs = 0;
                }
            } else if ch == 'o' {
                let n = if count > 0 {
                    count
                } else {
                    1
                };
                let ghost ns = run_len(cs0);
                let ghost mid = *self;
                let mut j: usize = 0;
                while j < n
                    invariant
                        j <= n,
                        ro == row_offset as int,
                        co == col_offset as int,
                        rows == self.spec_rows(),
                        cols == self.spec_cols(),
                        self.wf(),
                        self.spec_rows() == mid.spec_rows(),
                        self.spec_cols() == mid.spec_cols(),
                        self.spec_cell_size() == mid.spec_cell_size(),
                        xs0 >= 0,
                        ys0 >= 0,
                        x as int == clamp_le(xs0, cols as int),
                        y as int == clamp_le(ys0, rows as int),
                        forall|r: int, c: int|
                            0 <= r < mid.spec_rows() && 0 <= c < mid.spec_cols()
                                ==> (#[trigger] self.cell(r, c)) == (mid.cell(r, c) || run_cells(
                                xs0,
                                ys0,
                                j as int,
                            ).contains((r - ro, c - co))),
                    decreases n - j,
                {
                    let ghost before = *self;
                    set_alive_run_cell(self, row_offset, y, col_offset, x, j);
                    proof {
                        assert forall|r: int, c: int|
                            0 <= r < mid.spec_rows() && 0 <= c < mid.spec_cols() implies (
                        #[trigger] self.cell(r, c)) == (mid.cell(r, c) || run_cells(
                            xs0,
                            ys0,
                            j + 1,
                        ).contains((r - ro, c - co))) by {
                            assert(before.cell(r, c) == (mid.cell(r, c) || run_cells(
                                xs0,
                                ys0,
                                j as int,
                            ).contains((r - ro, c - co))));
                        }
                    }
                    j = j + 1;
                }
                x = add_clamped(x, n, cols);
                count = 0;
                line_start = false;
                proof {
                    lemma_run_advance(xs0, cs0, cols as int, cap as int);
                    xs = xs0 + run_len(cs0);
                    cs = 0;
                    let placed0 = placed;
                    let run_full = run_cells(xs0, ys0, ns);
                    let run_done = run_cells(xs0, ys0, n as int);
                    let tail = decode_suffix(s, i + 1, xs0 + run_len(cs0), ys0, 0, false, false);
                    placed = placed0.union(run_full);
                    assert(placed0.union(run_full.union(tail)) =~= placed.union(tail));
                    assert forall|r: int, c: int|
                        0 <= r < pre.spec_rows() && 0 <= c < pre.spec_cols() implies (
                    #[trigger] self.cell(r, c)) == (pre.cell(r, c) || placed.contains(
                        (r - ro, c - co),
                    )) by {
                        let p = (r - ro, c - co);
                        assert(mid.cell(r, c) == (pre.cell(r, c) || placed0.contains(p)));
                        assert(self.cell(r, c) == (mid.cell(r, c) || run_done.contains(p)));
                        if run_full.contains(p) && !run_done.contains(p) {
                            assert(cs0 > cap as int);
                            assert(n as int >= cap as int);
                            assert(p.1 == c - co < cols as int <= cap as int);
                            assert(p.1 < xs0 + n);
                            assert(false);
                        }
                    }
                }
            } else if ch == '$' {
                let n = if count > 0 {
                    count
                } else {
                    1
                };
                y = add_clamped(y, n, rows);
                x = 0;
                count = 0;
                line_start = false;
                proof {
                    lemma_run_advance(ys0, cs0, rows as int, cap as int);
                    ys = ys0 + run_len(cs0);
                    xs = 0;
                    cs = 0;
                }
            } else if ch == '!' {
                proof {
                    assert(placed.union(Set::<(int, int)>::empty()) =~= placed);
                }
                return ;
            } else if ch == '\n' {
                line_start = true;
            } else {
                line_start = false;
            }
            i = i + 1;
        }
        proof {
            assert(decode_suffix(s, len as int, xs, ys, cs, line_start, skipping) =~= Set::<
                (int, int),
            >::empty());
            assert(placed.union(Set::<(int, int)>::empty()) =~= placed);
        }
    }
}

} // verus!
