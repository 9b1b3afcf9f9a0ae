//! General properties of the engine, stated over the same spec
//! functions that the executable contracts use: a still life stays
//! fixed under any number of steps, the blinker oscillates with period
//! two, neighbor counting clips at the border instead of wrapping, and
//! two pattern loads compose to the union of their cells.

use vstd::prelude::*;
use crate::life::GameOfLife;
use crate::life::b2i;
use crate::life::next_state;
use crate::life::step_rel;
use crate::rle::decoded_cells;
use crate::rle::loaded_rel;

verus! {

/// The board holds exactly the 2x2 block whose top-left corner is
/// `(r0, c0)`, and nothing else.
pub open spec fn exactly_block(g: GameOfLife, r0: int, c0: int) -> bool {
    forall|r: int, c: int|
        0 <= r < g.spec_rows() && 0 <= c < g.spec_cols() ==> ((#[trigger] g.cell(r, c)) <==> (r0
            <= r <= r0 + 1 && c0 <= c <= c0 + 1))
}

/// The board holds exactly the horizontal triple on row `r0` starting
/// at column `c0`, and nothing else: the blinker in one of its phases.
pub open spec fn exactly_horizontal_triple(g: GameOfLife, r0: int, c0: int) -> bool {
    forall|r: int, c: int|
        0 <= r < g.spec_rows() && 0 <= c < g.spec_cols() ==> ((#[trigger] g.cell(r, c)) <==> (r
            == r0 && c0 <= c <= c0 + 2))
}

/// The board holds exactly the vertical triple in column `c0 + 1`
/// centered on row `r0`, and nothing else: the blinker's other phase.
pub open spec fn exactly_vertical_triple(g: GameOfLife, r0: int, c0: int) -> bool {
    forall|r: int, c: int|
        0 <= r < g.spec_rows() && 0 <= c < g.spec_cols() ==> ((#[trigger] g.cell(r, c)) <==> (c
            == c0 + 1 && r0 - 1 <= r <= r0 + 1))
}

/// A 2x2 block wholly inside the grid is a still life: one step leaves
/// it exactly as it was.
pub proof fn lemma_block_still_life(pre: GameOfLife, post: GameOfLife, r0: int, c0: int)
    requires
        0 <= r0,
        r0 + 1 < pre.spec_rows(),
        0 <= c0,
        c0 + 1 < pre.spec_cols(),
        exactly_block(pre, r0, c0),
        step_rel(pre, post),
    ensures
        exactly_block(post, r0, c0),
{
    assert forall|r: int, c: int|
        0 <= r < post.spec_rows() && 0 <= c < post.spec_cols() implies ((#[trigger] post.cell(
        r,
        c,
    )) <==> (r0 <= r <= r0 + 1 && c0 <= c <= c0 + 1)) by {
        assert(post.cell(r, c) == next_state(pre.cell(r, c), pre.neighbor_count(r, c)));
    }
}

/// A 2x2 block wholly inside the grid stays exactly in place through
/// any number of steps: in every generation of a step chain that
/// starts as the block, the board is still exactly the block.
pub proof fn lemma_block_still_life_forever(gs: Seq<GameOfLife>, r0: int, c0: int, k: int)
    requires
        0 <= k < gs.len(),
        0 <= r0,
        r0 + 1 < gs[0].spec_rows(),
        0 <= c0,
        c0 + 1 < gs[0].spec_cols(),
        exactly_block(gs[0], r0, c0),
        forall|t: int| 0 <= t < gs.len() - 1 ==> #[trigger] step_rel(gs[t], gs[t + 1]),
    ensures
        exactly_block(gs[k], r0, c0),
        gs[k].spec_rows() == gs[0].spec_rows(),
        gs[k].spec_cols() == gs[0].spec_cols(),
    decreases k,
{
    if k > 0 {
        lemma_block_still_life_forever(gs, r0, c0, k - 1);
        let t = k - 1;
        assert(step_rel(gs[t], gs[t + 1]));
        lemma_block_still_life(gs[t], gs[t + 1], r0, c0);
    }
}

/// One step turns the horizontal blinker phase into the vertical one.
pub proof fn lemma_blinker_horizontal_to_vertical(
    pre: GameOfLife,
    post: GameOfLife,
    r0: int,
    c0: int,
)
    requires
        1 <= r0,
        r0 + 1 < pre.spec_rows(),
        0 <= c0,
        c0 + 2 < pre.spec_cols(),
        exactly_horizontal_triple(pre, r0, c0),
        step_rel(pre, post),
    ensures
        exactly_vertical_triple(post, r0, c0),
{
    assert forall|r: int, c: int|
        0 <= r < post.spec_rows() && 0 <= c < post.spec_cols() implies ((#[trigger] post.cell(
        r,
        c,
    )) <==> (c == c0 + 1 && r0 - 1 <= r <= r0 + 1)) by {
        assert(post.cell(r, c) == next_state(pre.cell(r, c), pre.neighbor_count(r, c)));
    }
}

/// One step turns the vertical blinker phase back into the horizontal
/// one.
pub proof fn lemma_blinker_vertical_to_horizontal(
    pre: GameOfLife,
    post: GameOfLife,
    r0: int,
    c0: int,
)
    requires
        1 <= r0,
        r0 + 1 < pre.spec_rows(),
        0 <= c0,
        c0 + 2 < pre.spec_cols(),
        exactly_vertical_triple(pre, r0, c0),
        step_rel(pre, post),
    ensures
        exactly_horizontal_triple(post, r0, c0),
{
    assert forall|r: int, c: int|
        0 <= r < post.spec_rows() && 0 <= c < post.spec_cols() implies ((#[trigger] post.cell(
        r,
        c,
    )) <==> (r == r0 && c0 <= c <= c0 + 2)) by {
        assert(post.cell(r, c) == next_state(pre.cell(r, c), pre.neighbor_count(r, c)));
    }
}

/// The blinker oscillates with period two: starting from the
/// horizontal triple, one step yields the vertical triple and a second
/// step restores the starting horizontal triple.
pub proof fn lemma_blinker_period_two(
    g0: GameOfLife,
    g1: GameOfLife,
    g2: GameOfLife,
    r0: int,
    c0: int,
)
    requires
        1 <= r0,
        r0 + 1 < g0.spec_rows(),
        0 <= c0,
        c0 + 2 < g0.spec_cols(),
        exactly_horizontal_triple(g0, r0, c0),
        step_rel(g0, g1),
        step_rel(g1, g2),
    ensures
        exactly_vertical_triple(g1, r0, c0),
        exactly_horizontal_triple(g2, r0, c0),
{
    lemma_blinker_horizontal_to_vertical(g0, g1, r0, c0);
    lemma_blinker_vertical_to_horizontal(g1, g2, r0, c0);
}

/// Neighbor counting at the corner `(0, 0)` sees only the three
/// in-bounds neighbors: the count is their sum alone, so it can never
/// observe a cell at the far side of the grid — no wraparound.
pub proof fn lemma_corner_neighbors_clipped(g: GameOfLife)
    requires
        3 <= g.spec_rows(),
        3 <= g.spec_cols(),
    ensures
        g.neighbor_count(0, 0) == b2i(g.cell(0, 1)) + b2i(g.cell(1, 0)) + b2i(g.cell(1, 1)),
{
}

/// Two RLE loads compose: after loading two patterns in turn, exactly
/// the union of the grid's previous live cells and both patterns'
/// shifted, clipped cells is alive — neither load disturbs the other.
pub proof fn lemma_loads_compose(
    g0: GameOfLife,
    g1: GameOfLife,
    g2: GameOfLife,
    s1: Seq<char>,
    ro1: int,
    co1: int,
    s2: Seq<char>,
    ro2: int,
    co2: int,
)
    requires
        loaded_rel(g0, g1, s1, ro1, co1),
        loaded_rel(g1, g2, s2, ro2, co2),
    ensures
        g2.spec_rows() == g0.spec_rows(),
        g2.spec_cols() == g0.spec_cols(),
        forall|r: int, c: int|
            0 <= r < g0.spec_rows() && 0 <= c < g0.spec_cols() ==> ((#[trigger] g2.cell(r, c))
                <==> (g0.cell(r, c) || decoded_cells(s1).contains((r - ro1, c - co1))
                || decoded_cells(s2).contains((r - ro2, c - co2)))),
{
    assert forall|r: int, c: int|
        0 <= r < g0.spec_rows() && 0 <= c < g0.spec_cols() implies ((#[trigger] g2.cell(r, c))
        <==> (g0.cell(r, c) || decoded_cells(s1).contains((r - ro1, c - co1)) || decoded_cells(
        s2,
    ).contains((r - ro2, c - co2)))) by {
        assert(g1.cell(r, c) == (g0.cell(r, c) || decoded_cells(s1).contains((r - ro1, c - co1))));
        assert(g2.cell(r, c) == (g1.cell(r, c) || decoded_cells(s2).contains((r - ro2, c - co2))));
    }
}

} // verus!

