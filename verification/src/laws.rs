//! Library-wide laws proved over the grid model: idempotent cell writes,
//! the puzzle-to-solution round trip, and the legality of candidate digits.

use crate::grids::block_allowed;
use crate::grids::block_has;
use crate::grids::candidates;
use crate::grids::col_has;
use crate::grids::dims_ok;
use crate::grids::grid_set;
use crate::grids::lemma_all_allowed_upto_contains;
use crate::grids::lemma_block_allowed_upto_contains;
use crate::grids::lemma_grid_set_same;
use crate::grids::lemma_grid_set_twice;
use crate::grids::row_has;
use crate::grids::set_accepts;
use vstd::prelude::*;

verus! {

/// Writing the same digit twice is idempotent: after an accepted write of
/// `v` at `(x, y)`, a second write of `v` is accepted as well and leaves the
/// grid exactly as the first write left it.
pub proof fn lemma_set_idempotent(
    g: Seq<Seq<usize>>,
    n: int,
    w: int,
    h: int,
    x: int,
    y: int,
    v: usize,
)
    requires
        dims_ok(g, n),
        0 <= x < n,
        0 <= y < n,
        set_accepts(g, n, w, h, x, y, v),
    ensures
        set_accepts(grid_set(g, x, y, v), n, w, h, x, y, v),
        grid_set(grid_set(g, x, y, v), x, y, v) == grid_set(g, x, y, v),
{
    let g1 = grid_set(g, x, y, v);
    assert(g1[y][x] == v);
    lemma_grid_set_twice(g, n, x, y, v, v);
}

/// The puzzle-to-solution round trip: the solver never changes a filled
/// cell, so re-setting any originally filled cell of the puzzle to its own
/// value on the solved grid is accepted and leaves the solution unchanged.
pub proof fn lemma_round_trip_cell(
    puzzle: Seq<Seq<usize>>,
    solved: Seq<Seq<usize>>,
    n: int,
    w: int,
    h: int,
    x: int,
    y: int,
)
    requires
        dims_ok(puzzle, n),
        dims_ok(solved, n),
        forall|a: int, b: int|
            #![trigger puzzle[b][a]]
            0 <= a < n && 0 <= b < n && puzzle[b][a] != 0 ==> solved[b][a] == puzzle[b][a],
        0 <= x < n,
        0 <= y < n,
        puzzle[y][x] != 0,
    ensures
        set_accepts(solved, n, w, h, x, y, puzzle[y][x]),
        grid_set(solved, x, y, puzzle[y][x]) == solved,
{
    assert(solved[y][x] == puzzle[y][x]);
    lemma_grid_set_same(solved, n, x, y);
}

/// Candidate legality: a candidate digit is in range and never one already
/// present in the cell's block; and whenever the block-only set holds more
/// than one digit, never one present in the row or the column either. (When
/// the block set is returned without the row and column narrowing, a digit
/// present elsewhere in the row or column can remain in it.)
pub proof fn lemma_candidates_legal(
    g: Seq<Seq<usize>>,
    n: int,
    w: int,
    h: int,
    x: int,
    y: int,
    v: usize,
)
    requires
        0 <= n <= usize::MAX,
        candidates(g, n, w, h, x, y).contains(v),
    ensures
        1 <= v <= n,
        !block_has(g, w, h, x, y, v),
        block_allowed(g, n, w, h, x, y).len() > 1 ==> !row_has(g, n, y, v) && !col_has(
            g,
            n,
            x,
            v,
        ),
{
    lemma_block_allowed_upto_contains(g, w, h, x, y, n, v);
    lemma_all_allowed_upto_contains(g, n, w, h, x, y, n, v);
}

} // verus!
