//! Mathematical model of a Sudoku-family grid: a square sequence of digit
//! sequences, with `0` standing for an empty cell. The executable code in
//! `sudoku` states its contracts over these spec functions.

use vstd::prelude::*;

verus! {

/// The view of a grid held as a vector of rows.
pub open spec fn grid_view(g: Vec<Vec<usize>>) -> Seq<Seq<usize>> {
    Seq::new(g@.len(), |y: int| g@[y]@)
}

/// The grid is square with side length `n`.
pub open spec fn dims_ok(g: Seq<Seq<usize>>, n: int) -> bool {
    &&& g.len() == n
    &&& forall|y: int| 0 <= y < n ==> (#[trigger] g[y]).len() == n
}

/// Digit `v` occurs somewhere in row `y`.
pub open spec fn row_has(g: Seq<Seq<usize>>, n: int, y: int, v: usize) -> bool {
    exists|i: int| 0 <= i < n && g[y][i] == v
}

/// Digit `v` occurs somewhere in column `x`.
pub open spec fn col_has(g: Seq<Seq<usize>>, n: int, x: int, v: usize) -> bool {
    exists|j: int| 0 <= j < n && g[j][x] == v
}

/// The first coordinate of the block that coordinate `c` falls in, for blocks
/// of span `span`.
pub open spec fn block_base(c: int, span: int) -> int {
    (c / span) * span
}

/// Coordinate `i` lies in the same span-`span` band as coordinate `c`.
pub open spec fn same_band(c: int, span: int, i: int) -> bool {
    block_base(c, span) <= i < block_base(c, span) + span
}

/// Digit `v` occurs somewhere in the `w` by `h` block containing `(x, y)`.
pub open spec fn block_has(g: Seq<Seq<usize>>, w: int, h: int, x: int, y: int, v: usize) -> bool {
    exists|i: int, j: int|
        #![trigger g[j][i]]
        same_band(x, w, i) && same_band(y, h, j) && g[j][i] == v
}

/// The nonzero digit at `(x, y)` is in range and repeated nowhere else in its
/// row, column, or block.
pub open spec fn cell_ok(g: Seq<Seq<usize>>, n: int, w: int, h: int, x: int, y: int) -> bool {
    let v = g[y][x];
    &&& 1 <= v <= n
    &&& forall|i: int| #![trigger g[y][i]] 0 <= i < n && i != x ==> g[y][i] != v
    &&& forall|j: int| #![trigger g[j][x]] 0 <= j < n && j != y ==> g[j][x] != v
    &&& forall|i: int, j: int|
        #![trigger g[j][i]]
        same_band(x, w, i) && same_band(y, h, j) && !(i == x && j == y) ==> g[j][i] != v
}

/// The grid validity invariant: every nonzero cell is in `1..=n` and unique
/// within its row, its column, and its containing block.
pub open spec fn valid_grid(g: Seq<Seq<usize>>, n: int, w: int, h: int) -> bool {
    forall|x: int, y: int|
        0 <= x < n && 0 <= y < n && g[y][x] != 0 ==> #[trigger] cell_ok(g, n, w, h, x, y)
}

/// The grid with cell `(x, y)` replaced by `v`.
pub open spec fn grid_set(g: Seq<Seq<usize>>, x: int, y: int, v: usize) -> Seq<Seq<usize>> {
    g.update(y, g[y].update(x, v))
}

/// When a cell write is accepted: clearing always is, rewriting the value the
/// cell already holds always is, and a fresh nonzero digit must be legal for
/// the row, the column and the block.
pub open spec fn set_accepts(
    g: Seq<Seq<usize>>,
    n: int,
    w: int,
    h: int,
    x: int,
    y: int,
    v: usize,
) -> bool {
    ||| v == 0
    ||| g[y][x] == v
    ||| (1 <= v <= n && !row_has(g, n, y, v) && !col_has(g, n, x, v) && !block_has(
        g,
        w,
        h,
        x,
        y,
        v,
    ))
}

/// Every cell is empty.
pub open spec fn all_empty(g: Seq<Seq<usize>>, n: int) -> bool {
    forall|x: int, y: int| 0 <= x < n && 0 <= y < n ==> #[trigger] g[y][x] == 0
}

/// Every cell holds a nonzero digit.
pub open spec fn fully_filled(g: Seq<Seq<usize>>, n: int) -> bool {
    forall|x: int, y: int| 0 <= x < n && 0 <= y < n ==> #[trigger] g[y][x] != 0
}

/// The digits of `1..=k` legal for row `y`, in ascending order.
pub open spec fn row_allowed_upto(g: Seq<Seq<usize>>, n: int, y: int, k: int) -> Seq<usize>
    decreases k,
{
    if k <= 0 {
        Seq::empty()
    } else {
        row_allowed_upto(g, n, y, k - 1) + (if !row_has(g, n, y, k as usize) {
            seq![k as usize]
        } else {
            Seq::empty()
        })
    }
}

/// The digits legal for row `y`: those of `1..=n` not yet in the row.
pub open spec fn row_allowed(g: Seq<Seq<usize>>, n: int, y: int) -> Seq<usize> {
    row_allowed_upto(g, n, y, n)
}

/// The digits of `1..=k` legal for column `x`, in ascending order.
pub open spec fn col_allowed_upto(g: Seq<Seq<usize>>, n: int, x: int, k: int) -> Seq<usize>
    decreases k,
{
    if k <= 0 {
        Seq::empty()
    } else {
        col_allowed_upto(g, n, x, k - 1) + (if !col_has(g, n, x, k as usize) {
            seq![k as usize]
        } else {
            Seq::empty()
        })
    }
}

/// The digits legal for column `x`: those of `1..=n` not yet in the column.
pub open spec fn col_allowed(g: Seq<Seq<usize>>, n: int, x: int) -> Seq<usize> {
    col_allowed_upto(g, n, x, n)
}

/// The digits of `1..=k` legal for the block containing `(x, y)`.
pub open spec fn block_allowed_upto(
    g: Seq<Seq<usize>>,
    w: int,
    h: int,
    x: int,
    y: int,
    k: int,
) -> Seq<usize>
    decreases k,
{
    if k <= 0 {
        Seq::empty()
    } else {
        block_allowed_upto(g, w, h, x, y, k - 1) + (if !block_has(g, w, h, x, y, k as usize) {
            seq![k as usize]
        } else {
            Seq::empty()
        })
    }
}

/// The digits legal for the block containing `(x, y)`.
pub open spec fn block_allowed(g: Seq<Seq<usize>>, n: int, w: int, h: int, x: int, y: int) -> Seq<
    usize,
> {
    block_allowed_upto(g, w, h, x, y, n)
}

/// The digits of `1..=k` legal for row, column and block at `(x, y)` at once.
pub open spec fn all_allowed_upto(
    g: Seq<Seq<usize>>,
    n: int,
    w: int,
    h: int,
    x: int,
    y: int,
    k: int,
) -> Seq<usize>
    decreases k,
{
    if k <= 0 {
        Seq::empty()
    } else {
        all_allowed_upto(g, n, w, h, x, y, k - 1) + (if !block_has(g, w, h, x, y, k as usize)
            && !row_has(g, n, y, k as usize) && !col_has(g, n, x, k as usize) {
            seq![k as usize]
        } else {
            Seq::empty()
        })
    }
}

/// The digits legal for row, column and block at `(x, y)` at once.
pub open spec fn all_allowed(g: Seq<Seq<usize>>, n: int, w: int, h: int, x: int, y: int) -> Seq<
    usize,
> {
    all_allowed_upto(g, n, w, h, x, y, n)
}

/// The candidate set computed for a cell: when the block alone already pins
/// the digits down to at most one, that set is returned as is; otherwise it is
/// narrowed by the row and the column.
pub open spec fn candidates(g: Seq<Seq<usize>>, n: int, w: int, h: int, x: int, y: int) -> Seq<
    usize,
> {
    if block_allowed(g, n, w, h, x, y).len() > 1 {
        all_allowed(g, n, w, h, x, y)
    } else {
        block_allowed(g, n, w, h, x, y)
    }
}

pub proof fn lemma_row_allowed_upto_contains(g: Seq<Seq<usize>>, n: int, y: int, k: int, v: usize)
    requires
        k <= usize::MAX,
    ensures
        row_allowed_upto(g, n, y, k).contains(v) <==> (1 <= v <= k && !row_has(g, n, y, v)),
    decreases k,
{
    if k > 0 {
        lemma_row_allowed_upto_contains(g, n, y, k - 1, v);
        let s = row_allowed_upto(g, n, y, k);
        let s0 = row_allowed_upto(g, n, y, k - 1);
        if 1 <= v <= k && !row_has(g, n, y, v) {
            if v == k {
                assert(s[s.len() - 1] == v);
            } else {
                let i = choose|i: int| 0 <= i < s0.len() && s0[i] == v;
                assert(s[i] == v);
            }
            assert(s.contains(v));
        }
        if s.contains(v) {
            let i = choose|i: int| 0 <= i < s.len() && s[i] == v;
            if i < s0.len() {
                assert(s0[i] == v);
                assert(s0.contains(v));
            }
        }
    }
}


pub proof fn lemma_col_allowed_upto_contains(g: Seq<Seq<usize>>, n: int, x: int, k: int, v: usize)
    requires
        k <= usize::MAX,
    ensures
        col_allowed_upto(g, n, x, k).contains(v) <==> (1 <= v <= k && !col_has(g, n, x, v)),
    decreases k,
{
    if k > 0 {
        lemma_col_allowed_upto_contains(g, n, x, k - 1, v);
        let s = col_allowed_upto(g, n, x, k);
        let s0 = col_allowed_upto(g, n, x, k - 1);
        if 1 <= v <= k && !col_has(g, n, x, v) {
            if v == k {
                assert(s[s.len() - 1] == v);
            } else {
                let i = choose|i: int| 0 <= i < s0.len() && s0[i] == v;
                assert(s[i] == v);
            }
            assert(s.contains(v));
        }
        if s.contains(v) {
            let i = choose|i: int| 0 <= i < s.len() && s[i] == v;
            if i < s0.len() {
                assert(s0[i] == v);
                assert(s0.contains(v));
            }
        }
    }
}


pub proof fn lemma_block_allowed_upto_contains(g: Seq<Seq<usize>>, w: int, h: int, x: int, y: int, k: int, v: usize)
    requires
        k <= usize::MAX,
    ensures
        block_allowed_upto(g, w, h, x, y, k).contains(v) <==> (1 <= v <= k && !block_has(g, w, h, x, y, v)),
    decreases k,
{
    if k > 0 {
        lemma_block_allowed_upto_contains(g, w, h, x, y, k - 1, v);
        let s = block_allowed_upto(g, w, h, x, y, k);
        let s0 = block_allowed_upto(g, w, h, x, y, k - 1);
        if 1 <= v <= k && !block_has(g, w, h, x, y, v) {
            if v == k {
                assert(s[s.len() - 1] == v);
            } else {
                let i = choose|i: int| 0 <= i < s0.len() && s0[i] == v;
                assert(s[i] == v);
            }
            assert(s.contains(v));
        }
        if s.contains(v) {
            let i = choose|i: int| 0 <= i < s.len() && s[i] == v;
            if i < s0.len() {
                assert(s0[i] == v);
                assert(s0.contains(v));
            }
        }
    }
}

pub proof fn lemma_block_allowed_upto_len(g: Seq<Seq<usize>>, w: int, h: int, x: int, y: int, k: int)
    ensures
        block_allowed_upto(g, w, h, x, y, k).len() <= (if k >= 0 {
            k
        } else {
            0
        }),
    decreases k,
{
    if k > 0 {
        lemma_block_allowed_upto_len(g, w, h, x, y, k - 1);
    }
}

pub proof fn lemma_all_allowed_upto_contains(g: Seq<Seq<usize>>, n: int, w: int, h: int, x: int, y: int, k: int, v: usize)
    requires
        k <= usize::MAX,
    ensures
        all_allowed_upto(g, n, w, h, x, y, k).contains(v) <==> (1 <= v <= k && (!block_has(g, w, h, x, y, v) && !row_has(g, n, y, v) && !col_has(g, n, x, v))),
    decreases k,
{
    if k > 0 {
        lemma_all_allowed_upto_contains(g, n, w, h, x, y, k - 1, v);
        let s = all_allowed_upto(g, n, w, h, x, y, k);
        let s0 = all_allowed_upto(g, n, w, h, x, y, k - 1);
        if 1 <= v <= k && (!block_has(g, w, h, x, y, v) && !row_has(g, n, y, v) && !col_has(g, n, x, v)) {
            if v == k {
                assert(s[s.len() - 1] == v);
            } else {
                let i = choose|i: int| 0 <= i < s0.len() && s0[i] == v;
                assert(s[i] == v);
            }
            assert(s.contains(v));
        }
        if s.contains(v) {
            let i = choose|i: int| 0 <= i < s.len() && s[i] == v;
            if i < s0.len() {
                assert(s0[i] == v);
                assert(s0.contains(v));
            }
        }
    }
}

pub proof fn lemma_all_allowed_upto_len(g: Seq<Seq<usize>>, n: int, w: int, h: int, x: int, y: int, k: int)
    ensures
        all_allowed_upto(g, n, w, h, x, y, k).len() <= (if k >= 0 {
            k
        } else {
            0
        }),
    decreases k,
{
    if k > 0 {
        lemma_all_allowed_upto_len(g, n, w, h, x, y, k - 1);
    }
}

/// A candidate set holds at most `n` digits.
pub proof fn lemma_candidates_len(g: Seq<Seq<usize>>, n: int, w: int, h: int, x: int, y: int)
    requires
        0 <= n,
    ensures
        candidates(g, n, w, h, x, y).len() <= n,
{
    lemma_block_allowed_upto_len(g, w, h, x, y, n);
    lemma_all_allowed_upto_len(g, n, w, h, x, y, n);
}

/// Count of nonzero entries in one row.
pub open spec fn row_filled(r: Seq<usize>) -> nat
    decreases r.len(),
{
    if r.len() == 0 {
        0
    } else {
        row_filled(r.drop_last()) + (if r.last() != 0 {
            1nat
        } else {
            0nat
        })
    }
}

/// Count of nonzero entries in the whole grid.
pub open spec fn grid_filled(g: Seq<Seq<usize>>) -> nat
    decreases g.len(),
{
    if g.len() == 0 {
        0
    } else {
        grid_filled(g.drop_last()) + row_filled(g.last())
    }
}

/// Count of zero entries in one row.
pub open spec fn row_zeros(r: Seq<usize>) -> nat
    decreases r.len(),
{
    if r.len() == 0 {
        0
    } else {
        row_zeros(r.drop_last()) + (if r.last() == 0 {
            1nat
        } else {
            0nat
        })
    }
}

/// Count of zero entries in the whole grid.
pub open spec fn grid_zeros(g: Seq<Seq<usize>>) -> nat
    decreases g.len(),
{
    if g.len() == 0 {
        0
    } else {
        grid_zeros(g.drop_last()) + row_zeros(g.last())
    }
}

/// The band of a coordinate `c` in `0..span * count` lies within
/// `0..span * count` and contains `c` itself.
pub proof fn lemma_band_bounds(c: int, span: int, count: int)
    requires
        1 <= span,
        1 <= count,
        0 <= c < span * count,
    ensures
        0 <= block_base(c, span),
        block_base(c, span) + span <= span * count,
        same_band(c, span, c),
{
    let q = c / span;
    let r = c % span;
    vstd::arithmetic::div_mod::lemma_fundamental_div_mod(c, span);
    vstd::arithmetic::div_mod::lemma_mod_division_less_than_divisor(c, span);
    vstd::arithmetic::div_mod::lemma_multiply_divide_lt(c, span, count);
    assert(0 <= q * span && q * span <= c && c < q * span + span && q * span + span <= span
        * count) by (nonlinear_arith)
        requires
            c == span * q + r,
            0 <= r < span,
            q < count,
            1 <= span,
            0 <= c,
    ;
}

/// Two coordinates in the same band share their block base.
pub proof fn lemma_same_band_same_base(c: int, span: int, i: int)
    requires
        1 <= span,
        same_band(c, span, i),
    ensures
        block_base(i, span) == block_base(c, span),
        same_band(i, span, c),
{
    let q = c / span;
    assert(i == q * span + (i - q * span));
    vstd::arithmetic::div_mod::lemma_fundamental_div_mod_converse_div(i, span, q, i - q * span);
    vstd::arithmetic::div_mod::lemma_fundamental_div_mod(c, span);
    vstd::arithmetic::div_mod::lemma_mod_division_less_than_divisor(c, span);
    assert(i / span == q);
    assert(block_base(i, span) == q * span);
    assert(c == span * q + c % span);
    assert(q * span <= c < q * span + span) by (nonlinear_arith)
        requires
            c == span * q + c % span,
            0 <= c % span < span,
    ;
}

/// An all-empty grid meets the validity invariant and holds no filled cell.
pub proof fn lemma_empty_valid(g: Seq<Seq<usize>>, n: int, w: int, h: int)
    requires
        dims_ok(g, n),
        all_empty(g, n),
    ensures
        valid_grid(g, n, w, h),
        grid_filled(g) == 0,
{
    assert forall|y: int, x: int|
        0 <= y < g.len() && 0 <= x < g[y].len() implies #[trigger] g[y][x] == 0 by {}
    lemma_grid_filled_zero(g);
}

/// A row of zeros holds no filled cell.
pub proof fn lemma_row_filled_zero(r: Seq<usize>)
    requires
        forall|i: int| 0 <= i < r.len() ==> #[trigger] r[i] == 0,
    ensures
        row_filled(r) == 0,
    decreases r.len(),
{
    if r.len() > 0 {
        lemma_row_filled_zero(r.drop_last());
    }
}

/// A grid of zeros holds no filled cell.
pub proof fn lemma_grid_filled_zero(g: Seq<Seq<usize>>)
    requires
        forall|y: int, x: int|
            0 <= y < g.len() && 0 <= x < g[y].len() ==> #[trigger] g[y][x] == 0,
    ensures
        grid_filled(g) == 0,
    decreases g.len(),
{
    if g.len() > 0 {
        assert forall|y: int, x: int|
            0 <= y < g.drop_last().len() && 0 <= x < g.drop_last()[y].len() implies #[trigger] g
            .drop_last()[y][x] == 0 by {
            assert(g[y][x] == 0);
        }
        lemma_grid_filled_zero(g.drop_last());
        lemma_row_filled_zero(g.last());
        assert(g[g.len() - 1] == g.last());
    }
}

/// How one update changes the zero count of a row.
pub proof fn lemma_row_zeros_update(r: Seq<usize>, x: int, v: usize)
    requires
        0 <= x < r.len(),
    ensures
        row_zeros(r.update(x, v)) + (if r[x] == 0 {
            1int
        } else {
            0int
        }) == row_zeros(r) + (if v == 0 {
            1int
        } else {
            0int
        }),
    decreases r.len(),
{
    let r2 = r.update(x, v);
    if x == r.len() - 1 {
        assert(r2.drop_last() =~= r.drop_last());
        assert(r2.last() == v);
    } else {
        assert(r2.drop_last() =~= r.drop_last().update(x, v));
        lemma_row_zeros_update(r.drop_last(), x, v);
        assert(r2.last() == r.last());
    }
}

/// How replacing one row changes the zero count of a grid.
pub proof fn lemma_grid_zeros_update(g: Seq<Seq<usize>>, y: int, rn: Seq<usize>)
    requires
        0 <= y < g.len(),
    ensures
        grid_zeros(g.update(y, rn)) + row_zeros(g[y]) == grid_zeros(g) + row_zeros(rn),
    decreases g.len(),
{
    let g2 = g.update(y, rn);
    if y == g.len() - 1 {
        assert(g2.drop_last() =~= g.drop_last());
        assert(g2.last() == rn);
    } else {
        assert(g2.drop_last() =~= g.drop_last().update(y, rn));
        lemma_grid_zeros_update(g.drop_last(), y, rn);
        assert(g2.last() == g.last());
    }
}

/// Writing a nonzero digit into an empty cell lowers the zero count by one.
pub proof fn lemma_grid_zeros_set(g: Seq<Seq<usize>>, n: int, x: int, y: int, v: usize)
    requires
        dims_ok(g, n),
        0 <= x < n,
        0 <= y < n,
        g[y][x] == 0,
        v != 0,
    ensures
        grid_zeros(grid_set(g, x, y, v)) + 1 == grid_zeros(g),
{
    lemma_row_zeros_update(g[y], x, v);
    lemma_grid_zeros_update(g, y, g[y].update(x, v));
}

/// A cell write keeps the grid square, hits its target, and leaves every
/// other cell alone.
pub proof fn lemma_grid_set_frame(g: Seq<Seq<usize>>, n: int, x: int, y: int, v: usize)
    requires
        dims_ok(g, n),
        0 <= x < n,
        0 <= y < n,
    ensures
        dims_ok(grid_set(g, x, y, v), n),
        grid_set(g, x, y, v)[y][x] == v,
        forall|a: int, b: int|
            #![trigger grid_set(g, x, y, v)[b][a]]
            0 <= a < n && 0 <= b < n && !(a == x && b == y) ==> grid_set(g, x, y, v)[b][a]
                == g[b][a],
{
}

/// Rewriting a cell with the value it already holds changes nothing.
pub proof fn lemma_grid_set_same(g: Seq<Seq<usize>>, n: int, x: int, y: int)
    requires
        dims_ok(g, n),
        0 <= x < n,
        0 <= y < n,
    ensures
        grid_set(g, x, y, g[y][x]) == g,
{
    assert(grid_set(g, x, y, g[y][x]) =~~= g);
}

/// Writing a cell twice keeps only the second value.
pub proof fn lemma_grid_set_twice(
    g: Seq<Seq<usize>>,
    n: int,
    x: int,
    y: int,
    v: usize,
    v2: usize,
)
    requires
        dims_ok(g, n),
        0 <= x < n,
        0 <= y < n,
    ensures
        grid_set(grid_set(g, x, y, v), x, y, v2) == grid_set(g, x, y, v2),
{
    assert(grid_set(grid_set(g, x, y, v), x, y, v2) =~~= grid_set(g, x, y, v2));
}

/// Placing a digit that is legal for its row, column and block into a cell of
/// a valid grid keeps the grid valid.
pub proof fn lemma_set_preserves_valid(
    g: Seq<Seq<usize>>,
    n: int,
    w: int,
    h: int,
    x: int,
    y: int,
    v: usize,
)
    requires
        dims_ok(g, n),
        valid_grid(g, n, w, h),
        1 <= w,
        1 <= h,
        n == w * h,
        0 <= x < n,
        0 <= y < n,
        1 <= v <= n,
        !row_has(g, n, y, v),
        !col_has(g, n, x, v),
        !block_has(g, w, h, x, y, v),
    ensures
        valid_grid(grid_set(g, x, y, v), n, w, h),
{
    let g2 = grid_set(g, x, y, v);
    lemma_grid_set_frame(g, n, x, y, v);
    vstd::arithmetic::mul::lemma_mul_is_commutative(w, h);
    lemma_band_bounds(x, w, h);
    lemma_band_bounds(y, h, w);
    assert forall|a: int, b: int|
        0 <= a < n && 0 <= b < n && g2[b][a] != 0 implies #[trigger] cell_ok(
        g2,
        n,
        w,
        h,
        a,
        b,
    ) by {
        if a == x && b == y {
            assert forall|i: int| #![trigger g2[y][i]] 0 <= i < n && i != x implies g2[y][i]
                != v by {
                assert(g2[y][i] == g[y][i]);
                if g[y][i] == v {
                    assert(row_has(g, n, y, v));
                }
            }
            assert forall|j: int| #![trigger g2[j][x]] 0 <= j < n && j != y implies g2[j][x]
                != v by {
                assert(g2[j][x] == g[j][x]);
                if g[j][x] == v {
                    assert(col_has(g, n, x, v));
                }
            }
            assert forall|i: int, j: int|
                #![trigger g2[j][i]]
                same_band(x, w, i) && same_band(y, h, j) && !(i == x && j == y) implies g2[j][i]
                != v by {
                assert(0 <= i < n && 0 <= j < n);
                assert(g2[j][i] == g[j][i]);
                if g[j][i] == v {
                    assert(block_has(g, w, h, x, y, v));
                }
            }
            assert(cell_ok(g2, n, w, h, x, y));
        } else {
            assert(g2[b][a] == g[b][a]);
            let u = g[b][a];
            assert(cell_ok(g, n, w, h, a, b));
            lemma_band_bounds(a, w, h);
            lemma_band_bounds(b, h, w);
            assert forall|i: int| #![trigger g2[b][i]] 0 <= i < n && i != a implies g2[b][i]
                != u by {
                if i == x && b == y {
                    if v == u {
                        assert(g[y][a] == v);
                        assert(row_has(g, n, y, v));
                    }
                } else {
                    assert(g2[b][i] == g[b][i]);
                }
            }
            assert forall|j: int| #![trigger g2[j][a]] 0 <= j < n && j != b implies g2[j][a]
                != u by {
                if a == x && j == y {
                    if v == u {
                        assert(g[b][x] == v);
                        assert(col_has(g, n, x, v));
                    }
                } else {
                    assert(g2[j][a] == g[j][a]);
                }
            }
            assert forall|i: int, j: int|
                #![trigger g2[j][i]]
                same_band(a, w, i) && same_band(b, h, j) && !(i == a && j == b) implies g2[j][i]
                != u by {
                assert(0 <= i < n && 0 <= j < n);
                if i == x && j == y {
                    if v == u {
                        lemma_same_band_same_base(a, w, x);
                        lemma_same_band_same_base(b, h, y);
                        assert(same_band(x, w, a) && same_band(y, h, b));
                        assert(g[b][a] == v);
                        assert(block_has(g, w, h, x, y, v));
                    }
                } else {
                    assert(g2[j][i] == g[j][i]);
                }
            }
            assert(cell_ok(g2, n, w, h, a, b));
        }
    }
}

/// Clearing any cell of a valid grid keeps the grid valid.
pub proof fn lemma_clear_preserves_valid(
    g: Seq<Seq<usize>>,
    n: int,
    w: int,
    h: int,
    x: int,
    y: int,
)
    requires
        dims_ok(g, n),
        valid_grid(g, n, w, h),
        1 <= w,
        1 <= h,
        n == w * h,
        0 <= x < n,
        0 <= y < n,
    ensures
        valid_grid(grid_set(g, x, y, 0), n, w, h),
{
    let g2 = grid_set(g, x, y, 0);
    lemma_grid_set_frame(g, n, x, y, 0);
    vstd::arithmetic::mul::lemma_mul_is_commutative(w, h);
    assert forall|a: int, b: int|
        0 <= a < n && 0 <= b < n && g2[b][a] != 0 implies #[trigger] cell_ok(
        g2,
        n,
        w,
        h,
        a,
        b,
    ) by {
        assert(!(a == x && b == y));
        assert(g2[b][a] == g[b][a]);
        let u = g[b][a];
        assert(cell_ok(g, n, w, h, a, b));
        lemma_band_bounds(a, w, h);
        lemma_band_bounds(b, h, w);
        assert forall|i: int| #![trigger g2[b][i]] 0 <= i < n && i != a implies g2[b][i] != u by {
            if !(i == x && b == y) {
                assert(g2[b][i] == g[b][i]);
            }
        }
        assert forall|j: int| #![trigger g2[j][a]] 0 <= j < n && j != b implies g2[j][a] != u by {
            if !(a == x && j == y) {
                assert(g2[j][a] == g[j][a]);
            }
        }
        assert forall|i: int, j: int|
            #![trigger g2[j][i]]
            same_band(a, w, i) && same_band(b, h, j) && !(i == a && j == b) implies g2[j][i]
            != u by {
            assert(0 <= i < n && 0 <= j < n);
            if !(i == x && j == y) {
                assert(g2[j][i] == g[j][i]);
            }
        }
        assert(cell_ok(g2, n, w, h, a, b));
    }
}

/// A vector that enumerates the cells of the block of `(x, y)` contains a
/// digit exactly when the block does.
pub proof fn lemma_block_enum_contains(
    g: Seq<Seq<usize>>,
    n: int,
    w: int,
    h: int,
    x: int,
    y: int,
    b: Seq<usize>,
    v: usize,
)
    requires
        1 <= w,
        1 <= h,
        n == w * h,
        0 <= x < n,
        0 <= y < n,
        b.len() == n,
        forall|t: int|
            0 <= t < n ==> #[trigger] b[t] == g[block_base(y, h) + t % h][block_base(x, w) + t
                / h],
    ensures
        b.contains(v) <==> block_has(g, w, h, x, y, v),
{
    let bx = block_base(x, w);
    let by = block_base(y, h);
    vstd::arithmetic::mul::lemma_mul_is_commutative(w, h);
    if b.contains(v) {
        let t = choose|t: int| 0 <= t < b.len() && b[t] == v;
        vstd::arithmetic::div_mod::lemma_mod_division_less_than_divisor(t, h);
        vstd::arithmetic::div_mod::lemma_multiply_divide_lt(t, h, w);
        vstd::arithmetic::div_mod::lemma_div_pos_is_pos(t, h);
        assert(same_band(x, w, bx + t / h));
        assert(same_band(y, h, by + t % h));
        assert(g[by + t % h][bx + t / h] == v);
        assert(block_has(g, w, h, x, y, v));
    }
    if block_has(g, w, h, x, y, v) {
        let (i, j) = choose|i: int, j: int|
            same_band(x, w, i) && same_band(y, h, j) && g[j][i] == v;
        let t = (i - bx) * h + (j - by);
        vstd::arithmetic::div_mod::lemma_fundamental_div_mod_converse_div(t, h, i - bx, j - by);
        vstd::arithmetic::div_mod::lemma_fundamental_div_mod_converse_mod(t, h, i - bx, j - by);
        assert(0 <= t < n) by (nonlinear_arith)
            requires
                t == (i - bx) * h + (j - by),
                0 <= i - bx < w,
                0 <= j - by < h,
                n == w * h,
                1 <= h,
        ;
        assert(b[t] == g[by + t % h][bx + t / h]);
        assert(b[t] == v);
        assert(b.contains(v));
    }
}

/// A row holds no more filled cells than it has cells.
pub proof fn lemma_row_filled_le(r: Seq<usize>)
    ensures
        row_filled(r) <= r.len(),
    decreases r.len(),
{
    if r.len() > 0 {
        lemma_row_filled_le(r.drop_last());
    }
}

/// A grid of rows of at most nine cells holds at most nine filled cells per row.
pub proof fn lemma_grid_filled_bound(g: Seq<Seq<usize>>)
    requires
        forall|y: int| 0 <= y < g.len() ==> (#[trigger] g[y]).len() <= 9,
    ensures
        grid_filled(g) <= g.len() * 9,
    decreases g.len(),
{
    if g.len() > 0 {
        assert forall|y: int|
            0 <= y < g.drop_last().len() implies (#[trigger] g.drop_last()[y]).len() <= 9 by {
            assert(g[y].len() <= 9);
        }
        lemma_grid_filled_bound(g.drop_last());
        lemma_row_filled_le(g.last());
        assert(g[g.len() - 1] == g.last());
    }
}

/// A prefix of a row holds no more filled cells than the whole row.
pub proof fn lemma_row_filled_prefix(r: Seq<usize>, k: int)
    requires
        0 <= k <= r.len(),
    ensures
        row_filled(r.take(k)) <= row_filled(r),
    decreases r.len(),
{
    if k == r.len() {
        assert(r.take(k) =~= r);
    } else {
        assert(r.take(k) =~= r.drop_last().take(k));
        lemma_row_filled_prefix(r.drop_last(), k);
    }
}

/// Partial scans of a grid count no more filled cells than the whole grid.
pub proof fn lemma_grid_filled_prefix(g: Seq<Seq<usize>>, y: int, x: int)
    requires
        0 <= y < g.len(),
        0 <= x <= g[y].len(),
    ensures
        grid_filled(g.take(y)) + row_filled(g[y].take(x)) <= grid_filled(g),
    decreases g.len(),
{
    if y == g.len() - 1 {
        assert(g.take(y) =~= g.drop_last());
        assert(g[y] == g.last());
        lemma_row_filled_prefix(g[y], x);
    } else {
        assert(g.take(y) =~= g.drop_last().take(y));
        assert(g.drop_last()[y] == g[y]);
        lemma_grid_filled_prefix(g.drop_last(), y, x);
    }
}

/// One more cell scanned in a row adds its contribution to the count.
pub proof fn lemma_row_filled_snoc(r: Seq<usize>, k: int)
    requires
        0 <= k < r.len(),
    ensures
        row_filled(r.take(k + 1)) == row_filled(r.take(k)) + (if r[k] != 0 {
            1nat
        } else {
            0nat
        }),
{
    assert(r.take(k + 1).drop_last() =~= r.take(k));
    assert(r.take(k + 1).last() == r[k]);
}

/// One more row scanned adds its filled-cell count.
pub proof fn lemma_grid_filled_snoc(g: Seq<Seq<usize>>, y: int)
    requires
        0 <= y < g.len(),
    ensures
        grid_filled(g.take(y + 1)) == grid_filled(g.take(y)) + row_filled(g[y]),
{
    assert(g.take(y + 1).drop_last() =~= g.take(y));
    assert(g.take(y + 1).last() == g[y]);
}

/// How one update changes the filled count of a row.
pub proof fn lemma_row_filled_update(r: Seq<usize>, x: int, v: usize)
    requires
        0 <= x < r.len(),
    ensures
        row_filled(r.update(x, v)) + (if r[x] != 0 {
            1int
        } else {
            0int
        }) == row_filled(r) + (if v != 0 {
            1int
        } else {
            0int
        }),
    decreases r.len(),
{
    let r2 = r.update(x, v);
    if x == r.len() - 1 {
        assert(r2.drop_last() =~= r.drop_last());
        assert(r2.last() == v);
    } else {
        assert(r2.drop_last() =~= r.drop_last().update(x, v));
        lemma_row_filled_update(r.drop_last(), x, v);
        assert(r2.last() == r.last());
    }
}

/// How replacing one row changes the filled count of a grid.
pub proof fn lemma_grid_filled_update(g: Seq<Seq<usize>>, y: int, rn: Seq<usize>)
    requires
        0 <= y < g.len(),
    ensures
        grid_filled(g.update(y, rn)) + row_filled(g[y]) == grid_filled(g) + row_filled(rn),
    decreases g.len(),
{
    let g2 = g.update(y, rn);
    if y == g.len() - 1 {
        assert(g2.drop_last() =~= g.drop_last());
        assert(g2.last() == rn);
    } else {
        assert(g2.drop_last() =~= g.drop_last().update(y, rn));
        lemma_grid_filled_update(g.drop_last(), y, rn);
        assert(g2.last() == g.last());
    }
}

/// How one cell write changes the filled count.
pub proof fn lemma_grid_filled_set(g: Seq<Seq<usize>>, n: int, x: int, y: int, v: usize)
    requires
        dims_ok(g, n),
        0 <= x < n,
        0 <= y < n,
    ensures
        grid_filled(grid_set(g, x, y, v)) + (if g[y][x] != 0 {
            1int
        } else {
            0int
        }) == grid_filled(g) + (if v != 0 {
            1int
        } else {
            0int
        }),
{
    lemma_row_filled_update(g[y], x, v);
    lemma_grid_filled_update(g, y, g[y].update(x, v));
}

/// A row whose cells are all nonzero counts every cell.
pub proof fn lemma_row_filled_full(r: Seq<usize>)
    requires
        forall|i: int| 0 <= i < r.len() ==> #[trigger] r[i] != 0,
    ensures
        row_filled(r) == r.len(),
    decreases r.len(),
{
    if r.len() > 0 {
        lemma_row_filled_full(r.drop_last());
    }
}

/// A fully filled square grid counts all of its cells.
pub proof fn lemma_grid_filled_full(g: Seq<Seq<usize>>, n: int)
    requires
        dims_ok(g, n),
        fully_filled(g, n),
        0 <= n,
    ensures
        grid_filled(g) == n * n,
{
    lemma_grid_filled_full_upto(g, n, n);
    assert(g.take(n) =~= g);
}

proof fn lemma_grid_filled_full_upto(g: Seq<Seq<usize>>, n: int, k: int)
    requires
        dims_ok(g, n),
        fully_filled(g, n),
        0 <= k <= n,
    ensures
        grid_filled(g.take(k)) == k * n,
    decreases k,
{
    if k == 0 {
        assert(g.take(0) =~= Seq::<Seq<usize>>::empty());
        assert(0 * n == 0) by (nonlinear_arith);
    } else {
        lemma_grid_filled_full_upto(g, n, k - 1);
        lemma_grid_filled_snoc(g, k - 1);
        assert forall|i: int| 0 <= i < g[k - 1].len() implies #[trigger] g[k - 1][i] != 0 by {}
        lemma_row_filled_full(g[k - 1]);
        assert((k - 1) * n + n == k * n) by (nonlinear_arith);
    }
}

/// A row with a nonzero cell counts at least one.
pub proof fn lemma_row_filled_pos(r: Seq<usize>, x: int)
    requires
        0 <= x < r.len(),
        r[x] != 0,
    ensures
        row_filled(r) >= 1,
    decreases r.len(),
{
    if x < r.len() - 1 {
        lemma_row_filled_pos(r.drop_last(), x);
    }
}

/// A grid with a nonzero cell counts at least one.
pub proof fn lemma_grid_filled_pos(g: Seq<Seq<usize>>, x: int, y: int)
    requires
        0 <= y < g.len(),
        0 <= x < g[y].len(),
        g[y][x] != 0,
    ensures
        grid_filled(g) >= 1,
    decreases g.len(),
{
    if y == g.len() - 1 {
        lemma_row_filled_pos(g.last(), x);
    } else {
        lemma_grid_filled_pos(g.drop_last(), x, y);
    }
}

/// On an all-empty grid no nonzero digit is present in any scope.
pub proof fn lemma_empty_no_presence(
    g: Seq<Seq<usize>>,
    n: int,
    w: int,
    h: int,
    x: int,
    y: int,
    v: usize,
)
    requires
        dims_ok(g, n),
        all_empty(g, n),
        1 <= w,
        1 <= h,
        n == w * h,
        0 <= x < n,
        0 <= y < n,
        v != 0,
    ensures
        !row_has(g, n, y, v),
        !col_has(g, n, x, v),
        !block_has(g, w, h, x, y, v),
{
    if row_has(g, n, y, v) {
        let i = choose|i: int| 0 <= i < n && g[y][i] == v;
        assert(g[y][i] == 0);
    }
    if col_has(g, n, x, v) {
        let j = choose|j: int| 0 <= j < n && g[j][x] == v;
        assert(g[j][x] == 0);
    }
    if block_has(g, w, h, x, y, v) {
        let (i, j) = choose|i: int, j: int|
            same_band(x, w, i) && same_band(y, h, j) && g[j][i] == v;
        vstd::arithmetic::mul::lemma_mul_is_commutative(w, h);
        lemma_band_bounds(x, w, h);
        lemma_band_bounds(y, h, w);
        assert(g[j][i] == 0);
    }
}

proof fn lemma_empty_block_allowed_upto(
    g: Seq<Seq<usize>>,
    n: int,
    w: int,
    h: int,
    x: int,
    y: int,
    k: int,
)
    requires
        dims_ok(g, n),
        all_empty(g, n),
        1 <= w,
        1 <= h,
        n == w * h,
        0 <= x < n,
        0 <= y < n,
        0 <= k <= usize::MAX,
    ensures
        block_allowed_upto(g, w, h, x, y, k).len() == k,
    decreases k,
{
    if k > 0 {
        lemma_empty_block_allowed_upto(g, n, w, h, x, y, k - 1);
        lemma_empty_no_presence(g, n, w, h, x, y, k as usize);
    }
}

proof fn lemma_empty_all_allowed_upto(
    g: Seq<Seq<usize>>,
    n: int,
    w: int,
    h: int,
    x: int,
    y: int,
    k: int,
)
    requires
        dims_ok(g, n),
        all_empty(g, n),
        1 <= w,
        1 <= h,
        n == w * h,
        0 <= x < n,
        0 <= y < n,
        0 <= k <= usize::MAX,
    ensures
        all_allowed_upto(g, n, w, h, x, y, k).len() == k,
    decreases k,
{
    if k > 0 {
        lemma_empty_all_allowed_upto(g, n, w, h, x, y, k - 1);
        lemma_empty_no_presence(g, n, w, h, x, y, k as usize);
    }
}

/// An empty cell of an all-empty grid offers every digit as a candidate.
pub proof fn lemma_empty_candidates(g: Seq<Seq<usize>>, n: int, w: int, h: int, x: int, y: int)
    requires
        dims_ok(g, n),
        all_empty(g, n),
        1 <= w,
        1 <= h,
        n == w * h,
        2 <= n <= usize::MAX,
        0 <= x < n,
        0 <= y < n,
    ensures
        candidates(g, n, w, h, x, y).len() == n,
{
    lemma_empty_block_allowed_upto(g, n, w, h, x, y, n);
    lemma_empty_all_allowed_upto(g, n, w, h, x, y, n);
}

/// Strict row-major order on cell coordinates: earlier row first, then
/// earlier column.
pub open spec fn row_major_lt(a: (usize, usize), b: (usize, usize)) -> bool {
    a.1 < b.1 || (a.1 == b.1 && a.0 < b.0)
}

/// `g2` agrees with `g` on every nonzero cell of `g`.
pub open spec fn extends(g2: Seq<Seq<usize>>, g: Seq<Seq<usize>>, n: int) -> bool {
    forall|x: int, y: int|
        #![trigger g[y][x]]
        #![trigger g2[y][x]]
        0 <= x < n && 0 <= y < n && g[y][x] != 0 ==> g2[y][x] == g[y][x]
}

/// The grid admits a completion: some fully filled valid grid that agrees
/// with it on every nonzero cell.
pub open spec fn completable(g: Seq<Seq<usize>>, n: int, w: int, h: int) -> bool {
    exists|sol: Seq<Seq<usize>>|
        #![trigger valid_grid(sol, n, w, h)]
        dims_ok(sol, n) && valid_grid(sol, n, w, h) && fully_filled(sol, n) && extends(sol, g, n)
}

/// At an empty cell of a completable grid, some candidate digit is an
/// accepted write that keeps the grid completable: the digit the completion
/// itself holds there.
pub proof fn lemma_completion_digit(g: Seq<Seq<usize>>, n: int, w: int, h: int, x: int, y: int)
    requires
        dims_ok(g, n),
        1 <= w,
        1 <= h,
        n == w * h,
        n <= usize::MAX,
        0 <= x < n,
        0 <= y < n,
        g[y][x] == 0,
        completable(g, n, w, h),
    ensures
        exists|t: int|
            #![trigger candidates(g, n, w, h, x, y)[t]]
            0 <= t < candidates(g, n, w, h, x, y).len() && candidates(g, n, w, h, x, y)[t] != 0
                && set_accepts(g, n, w, h, x, y, candidates(g, n, w, h, x, y)[t]) && completable(
                grid_set(g, x, y, candidates(g, n, w, h, x, y)[t]),
                n,
                w,
                h,
            ),
{
    let sol = choose|sol: Seq<Seq<usize>>|
        dims_ok(sol, n) && valid_grid(sol, n, w, h) && fully_filled(sol, n) && extends(sol, g, n);
    let d = sol[y][x];
    assert(sol[y][x] != 0);
    assert(cell_ok(sol, n, w, h, x, y));
    vstd::arithmetic::mul::lemma_mul_is_commutative(w, h);
    lemma_band_bounds(x, w, h);
    lemma_band_bounds(y, h, w);
    if row_has(g, n, y, d) {
        let i = choose|i: int| 0 <= i < n && g[y][i] == d;
        assert(sol[y][i] == d);
        assert(false);
    }
    if col_has(g, n, x, d) {
        let j = choose|j: int| 0 <= j < n && g[j][x] == d;
        assert(sol[j][x] == d);
        assert(false);
    }
    if block_has(g, w, h, x, y, d) {
        let (i, j) = choose|i: int, j: int|
            same_band(x, w, i) && same_band(y, h, j) && g[j][i] == d;
        assert(0 <= i < n && 0 <= j < n);
        assert(sol[j][i] == d);
        assert(false);
    }
    lemma_block_allowed_upto_contains(g, w, h, x, y, n, d);
    lemma_all_allowed_upto_contains(g, n, w, h, x, y, n, d);
    let cs = candidates(g, n, w, h, x, y);
    assert(cs.contains(d));
    let t = choose|t: int| 0 <= t < cs.len() && cs[t] == d;
    let g2 = grid_set(g, x, y, d);
    lemma_grid_set_frame(g, n, x, y, d);
    assert forall|a: int, b: int|
        0 <= a < n && 0 <= b < n && g2[b][a] != 0 implies sol[b][a] == #[trigger] g2[b][a] by {
        if a == x && b == y {
        } else {
            assert(g2[b][a] == g[b][a]);
        }
    }
    assert(extends(sol, g2, n));
    assert(valid_grid(sol, n, w, h));
    assert(completable(g2, n, w, h));
    assert(cs[t] == d && set_accepts(g, n, w, h, x, y, cs[t]) && completable(
        grid_set(g, x, y, cs[t]),
        n,
        w,
        h,
    ));
}

} // verus!
