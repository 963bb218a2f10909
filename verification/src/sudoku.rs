//! The puzzle engine: mode registry, grid model, constraint evaluator,
//! backtracking solver, and the randomized generate-then-dig constructor.

use crate::grids::all_allowed_upto;
use crate::grids::all_empty;
use crate::grids::block_allowed;
use crate::grids::block_allowed_upto;
use crate::grids::block_base;
use crate::grids::block_has;
use crate::grids::candidates;
use crate::grids::col_allowed;
use crate::grids::col_allowed_upto;
use crate::grids::col_has;
use crate::grids::completable;
use crate::grids::dims_ok;
use crate::grids::extends;
use crate::grids::fully_filled;
use crate::grids::grid_filled;
use crate::grids::grid_set;
use crate::grids::grid_view;
use crate::grids::grid_zeros;
use crate::grids::lemma_all_allowed_upto_contains;
use crate::grids::lemma_band_bounds;
use crate::grids::lemma_block_allowed_upto_contains;
use crate::grids::lemma_block_enum_contains;
use crate::grids::lemma_candidates_len;
use crate::grids::lemma_clear_preserves_valid;
use crate::grids::lemma_col_allowed_upto_contains;
use crate::grids::lemma_completion_digit;
use crate::grids::lemma_empty_candidates;
use crate::grids::lemma_empty_no_presence;
use crate::grids::lemma_empty_valid;
use crate::grids::lemma_grid_filled_bound;
use crate::grids::lemma_grid_filled_full;
use crate::grids::lemma_grid_filled_pos;
use crate::grids::lemma_grid_filled_prefix;
use crate::grids::lemma_grid_filled_set;
use crate::grids::lemma_grid_filled_snoc;
use crate::grids::lemma_grid_set_same;
use crate::grids::lemma_grid_set_twice;
use crate::grids::lemma_grid_zeros_set;
use crate::grids::lemma_row_allowed_upto_contains;
use crate::grids::lemma_row_filled_snoc;
use crate::grids::lemma_set_preserves_valid;
use crate::grids::row_allowed;
use crate::grids::row_allowed_upto;
use crate::grids::row_filled;
use crate::grids::row_major_lt;
use crate::grids::row_has;
use crate::grids::set_accepts;
use crate::grids::valid_grid;
use rand::Rng;
use vstd::prelude::*;

verus! {

/// Geometry of one supported puzzle size: blocks are `width` by `height`
/// cells, and an acceptable puzzle holds between `lower_size` and
/// `higher_size` filled cells.
#[derive(Debug, Clone, Copy)]
pub struct ModeType {
    pub width: usize,
    pub height: usize,
    pub lower_size: usize,
    pub higher_size: usize,
}

/// A rejected cell write, naming the scope in which the digit already occurs.
#[derive(Debug, Clone, Copy, PartialEq, Eq, Structural)]
pub enum SudokuError {
    RowConflict { value: usize, row: usize },
    ColumnConflict { value: usize, column: usize },
    BlockConflict { value: usize },
}

/// The size key used when neither a grid nor a key is supplied.
pub const DEFAULT_MODE: usize = 9;

/// Bound on random draws while seeding one grid.
pub const SEED_ITERATION_CAP: usize = 1000;

/// Bound on random draws while digging cells back out.
pub const DIG_ITERATION_CAP: usize = 200;

/// Bound on whole seed-solve-dig rounds in one generation call.
pub const GENERATE_ATTEMPT_CAP: usize = 8;

/// Bound on search nodes spent on one solvability check during generation.
pub const SOLVE_NODE_CAP: usize = 1000;

/// Relies on rand::thread_rng and rand::Rng::gen_range: the draw is a value
/// of the half-open range `lo..hi`; gen_range panics only on an empty range,
/// which the precondition excludes. Nothing more is assumed of the draw.
#[verifier::external_body]
fn rand_range(lo: usize, hi: usize) -> (r: usize)
    requires
        lo < hi,
    ensures
        lo <= r < hi,
{
    rand::thread_rng().gen_range(lo..hi)
}

/// The supported grid side lengths.
pub open spec fn supported_size(n: int) -> bool {
    n == 4 || n == 6 || n == 8 || n == 9
}

/// The registered geometry for each supported size key.
pub open spec fn spec_mode(key: int) -> ModeType {
    if key == 4 {
        ModeType { width: 2, height: 2, lower_size: 4, higher_size: 8 }
    } else if key == 6 {
        ModeType { width: 3, height: 2, lower_size: 9, higher_size: 18 }
    } else if key == 8 {
        ModeType { width: 2, height: 4, lower_size: 18, higher_size: 36 }
    } else {
        ModeType { width: 3, height: 3, lower_size: 17, higher_size: 40 }
    }
}

/// The block width and height of a registered mode multiply out to its key.
pub proof fn lemma_mode_product(key: int)
    requires
        supported_size(key),
    ensures
        spec_mode(key).width * spec_mode(key).height == key,
{
    assert(2usize * 2usize == 4 && 3usize * 2usize == 6 && 2usize * 4usize == 8 && 3usize
        * 3usize == 9) by (nonlinear_arith);
}

/// Looks the geometry of a size key up in the mode registry. Unsupported keys
/// are a configuration error of the caller and are excluded up front.
pub fn lookup_mode(key: usize) -> (m: ModeType)
    requires
        supported_size(key as int),
    ensures
        m == spec_mode(key as int),
{
    if key == 4 {
        ModeType { width: 2, height: 2, lower_size: 4, higher_size: 8 }
    } else if key == 6 {
        ModeType { width: 3, height: 2, lower_size: 9, higher_size: 18 }
    } else if key == 8 {
        ModeType { width: 2, height: 4, lower_size: 18, higher_size: 36 }
    } else {
        ModeType { width: 3, height: 3, lower_size: 17, higher_size: 40 }
    }
}

/// A puzzle instance: the grid together with its mode geometry, the derived
/// side length, and the digit set `1..=block_size`.
#[derive(Debug)]
pub struct Sudoku {
    pub grid: Vec<Vec<usize>>,
    pub mode: ModeType,
    pub block_size: usize,
    pub numbers: Vec<usize>,
}

impl Sudoku {
    /// The mathematical view of the grid.
    pub open spec fn sg(self) -> Seq<Seq<usize>> {
        grid_view(self.grid)
    }

    /// The side length.
    pub open spec fn n(self) -> int {
        self.block_size as int
    }

    /// The block width.
    pub open spec fn w(self) -> int {
        self.mode.width as int
    }

    /// The block height.
    pub open spec fn h(self) -> int {
        self.mode.height as int
    }

    /// Well-formedness: a registered mode, a square grid of the mode's size,
    /// and the digit table `1..=n`.
    pub open spec fn wf(self) -> bool {
        &&& supported_size(self.n())
        &&& self.mode == spec_mode(self.n())
        &&& self.n() == self.w() * self.h()
        &&& dims_ok(self.sg(), self.n())
        &&& self.numbers@.len() == self.n()
        &&& forall|i: int|
            0 <= i < self.numbers@.len() ==> #[trigger] self.numbers@[i] as int == i + 1
    }

    /// The grid meets the validity invariant: every nonzero cell unique in
    /// its row, column and block.
    pub open spec fn valid(self) -> bool {
        valid_grid(self.sg(), self.n(), self.w(), self.h())
    }

    /// Everything but the grid contents agrees with `other`.
    pub open spec fn same_shape(self, other: Sudoku) -> bool {
        &&& self.mode == other.mode
        &&& self.block_size == other.block_size
        &&& self.numbers@ == other.numbers@
    }

    /// Builds a puzzle from an existing grid (mode inferred from its side
    /// length), from an explicit size key, or blank in the default mode.
    pub fn new(grid: Option<Vec<Vec<usize>>>, mode: Option<usize>) -> (s: Sudoku)
        requires
            (match grid {
                Some(g) => supported_size(g@.len() as int) && (forall|y: int|
                    0 <= y < g@.len() ==> (#[trigger] g@[y])@.len() == g@.len()),
                None => (match mode {
                    Some(k) => supported_size(k as int),
                    None => true,
                }),
            }),
        ensures
            s.wf(),
            s.n() == (match grid {
                Some(g) => g@.len() as int,
                None => (match mode {
                    Some(k) => k as int,
                    None => DEFAULT_MODE as int,
                }),
            }),
            (match grid {
                Some(g) => s.sg() == grid_view(g),
                None => all_empty(s.sg(), s.n()) && grid_filled(s.sg()) == 0 && s.valid(),
            }),
    {
        let mode_key: usize = match &grid {
            Some(g) => g.len(),
            None => match mode {
                Some(k) => k,
                None => DEFAULT_MODE,
            },
        };
        let m = lookup_mode(mode_key);
        proof {
            lemma_mode_product(mode_key as int);
        }
        let block_size = m.width * m.height;
        let mut numbers: Vec<usize> = Vec::new();
        let mut v: usize = 1;
        while v <= block_size
            invariant
                1 <= v <= block_size + 1,
                block_size <= 9,
                numbers@.len() == v - 1,
                forall|i: int| 0 <= i < numbers@.len() ==> #[trigger] numbers@[i] as int == i + 1,
            decreases block_size + 1 - v,
        {
            numbers.push(v);
            v += 1;
        }
        let g = match grid {
            Some(g) => g,
            None => Sudoku::default_grid(block_size),
        };
        let s = Sudoku { grid: g, mode: m, block_size, numbers };
        proof {
            if grid is None {
                lemma_empty_valid(s.sg(), s.n(), s.w(), s.h());
            }
        }
        s
    }

    /// An all-zero square grid of the given side length.
    pub fn default_grid(block_size: usize) -> (g: Vec<Vec<usize>>)
        ensures
            dims_ok(grid_view(g), block_size as int),
            all_empty(grid_view(g), block_size as int),
    {
        let mut g: Vec<Vec<usize>> = Vec::new();
        let mut y: usize = 0;
        while y < block_size
            invariant
                y <= block_size,
                g@.len() == y,
                forall|j: int|
                    0 <= j < y ==> (#[trigger] g@[j])@.len() == block_size as int,
                forall|j: int, i: int|
                    0 <= j < y && 0 <= i < block_size ==> #[trigger] g@[j]@[i] == 0,
            decreases block_size - y,
        {
            let mut row: Vec<usize> = Vec::new();
            let mut x: usize = 0;
            while x < block_size
                invariant
                    x <= block_size,
                    row@.len() == x,
                    forall|i: int| 0 <= i < x ==> #[trigger] row@[i] == 0,
                decreases block_size - x,
            {
                row.push(0);
                x += 1;
            }
            g.push(row);
            y += 1;
        }
        g
    }

    /// Restores the grid to the all-empty state.
    pub fn reset(&mut self)
        requires
            old(self).wf(),
        ensures
            final(self).wf(),
            final(self).same_shape(*old(self)),
            all_empty(final(self).sg(), final(self).n()),
            grid_filled(final(self).sg()) == 0,
            final(self).valid(),
    {
        self.grid = Sudoku::default_grid(self.block_size);
        proof {
            lemma_empty_valid(self.sg(), self.n(), self.w(), self.h());
        }
    }

    /// Replaces the grid contents with a caller-supplied board of the same
    /// side length.
    pub fn set_board(&mut self, board: Vec<Vec<usize>>)
        requires
            old(self).wf(),
            board@.len() == old(self).n(),
            forall|y: int| 0 <= y < board@.len() ==> (#[trigger] board@[y])@.len() == board@.len(),
        ensures
            final(self).wf(),
            final(self).same_shape(*old(self)),
            final(self).sg() == grid_view(board),
    {
        self.grid = board;
    }

    /// The digit at `(x, y)`; `0` means empty.
    pub fn get(&self, x: usize, y: usize) -> (r: usize)
        requires
            self.wf(),
            x < self.block_size,
            y < self.block_size,
        ensures
            r == self.sg()[y as int][x as int],
    {
        proof {
            assert(self.sg()[y as int] == self.grid@[y as int]@);
        }
        self.grid[y][x]
    }

    /// The values of row `y`, zeros included.
    pub fn row(&self, y: usize) -> (r: Vec<usize>)
        requires
            self.wf(),
            y < self.block_size,
        ensures
            r@ == self.sg()[y as int],
    {
        let mut r: Vec<usize> = Vec::new();
        let mut x: usize = 0;
        while x < self.block_size
            invariant
                self.wf(),
                y < self.block_size,
                x <= self.block_size,
                r@.len() == x,
                forall|i: int| 0 <= i < x ==> #[trigger] r@[i] == self.sg()[y as int][i],
            decreases self.block_size - x,
        {
            proof {
                assert(self.sg()[y as int] == self.grid@[y as int]@);
            }
            r.push(self.grid[y][x]);
            x += 1;
        }
        proof {
            assert(r@ =~= self.sg()[y as int]);
        }
        r
    }

    /// The values of column `x`, zeros included.
    pub fn column(&self, x: usize) -> (r: Vec<usize>)
        requires
            self.wf(),
            x < self.block_size,
        ensures
            r@.len() == self.n(),
            forall|j: int| 0 <= j < r@.len() ==> #[trigger] r@[j] == self.sg()[j][x as int],
    {
        let mut r: Vec<usize> = Vec::new();
        let mut y: usize = 0;
        while y < self.block_size
            invariant
                self.wf(),
                x < self.block_size,
                y <= self.block_size,
                r@.len() == y,
                forall|j: int| 0 <= j < y ==> #[trigger] r@[j] == self.sg()[j][x as int],
            decreases self.block_size - y,
        {
            proof {
                assert(self.sg()[y as int] == self.grid@[y as int]@);
            }
            r.push(self.grid[y][x]);
            y += 1;
        }
        r
    }

    /// The digits of `1..=n` not yet present in row `y`.
    pub fn allowed_numbers_in_row(&self, y: usize) -> (r: Vec<usize>)
        requires
            self.wf(),
            y < self.block_size,
        ensures
            r@ == row_allowed(self.sg(), self.n(), y as int),
    {
        let rw = self.row(y);
        let mut out: Vec<usize> = Vec::new();
        let mut v: usize = 1;
        while v <= self.block_size
            invariant
                self.wf(),
                y < self.block_size,
                1 <= v <= self.block_size + 1,
                rw@ == self.sg()[y as int],
                out@ == row_allowed_upto(self.sg(), self.n(), y as int, v as int - 1),
            decreases self.block_size + 1 - v,
        {
            let present = contains_value(&rw, v);
            proof {
                if rw@.contains(v) {
                    let i = choose|i: int| 0 <= i < rw@.len() && rw@[i] == v;
                    assert(self.sg()[y as int][i] == v);
                    assert(row_has(self.sg(), self.n(), y as int, v));
                }
                if row_has(self.sg(), self.n(), y as int, v) {
                    let i = choose|i: int| 0 <= i < self.n() && self.sg()[y as int][i] == v;
                    assert(rw@[i] == v);
                }
            }
            if !present {
                out.push(v);
            }
            proof {
                assert(out@ =~= row_allowed_upto(self.sg(), self.n(), y as int, v as int));
            }
            v += 1;
        }
        out
    }

    /// The digits of `1..=n` not yet present in column `x`.
    pub fn allowed_numbers_in_column(&self, x: usize) -> (r: Vec<usize>)
        requires
            self.wf(),
            x < self.block_size,
        ensures
            r@ == col_allowed(self.sg(), self.n(), x as int),
    {
        let cl = self.column(x);
        let mut out: Vec<usize> = Vec::new();
        let mut v: usize = 1;
        while v <= self.block_size
            invariant
                self.wf(),
                x < self.block_size,
                1 <= v <= self.block_size + 1,
                cl@.len() == self.n(),
                forall|j: int| 0 <= j < cl@.len() ==> #[trigger] cl@[j] == self.sg()[j][x as int],
                out@ == col_allowed_upto(self.sg(), self.n(), x as int, v as int - 1),
            decreases self.block_size + 1 - v,
        {
            let present = contains_value(&cl, v);
            proof {
                if cl@.contains(v) {
                    let j = choose|j: int| 0 <= j < cl@.len() && cl@[j] == v;
                    assert(self.sg()[j][x as int] == v);
                    assert(col_has(self.sg(), self.n(), x as int, v));
                }
                if col_has(self.sg(), self.n(), x as int, v) {
                    let j = choose|j: int| 0 <= j < self.n() && self.sg()[j][x as int] == v;
                    assert(cl@[j] == v);
                }
            }
            if !present {
                out.push(v);
            }
            proof {
                assert(out@ =~= col_allowed_upto(self.sg(), self.n(), x as int, v as int));
            }
            v += 1;
        }
        out
    }

    /// The digits of `1..=n` not present anywhere in the block of `(x, y)`.
    pub fn allowed_numbers_in_block(&self, x: usize, y: usize) -> (r: Vec<usize>)
        requires
            self.wf(),
            x < self.block_size,
            y < self.block_size,
        ensures
            r@ == block_allowed(self.sg(), self.n(), self.w(), self.h(), x as int, y as int),
    {
        proof {
            vstd::arithmetic::mul::lemma_mul_is_commutative(self.w(), self.h());
            lemma_band_bounds(x as int, self.w(), self.h());
            lemma_band_bounds(y as int, self.h(), self.w());
        }
        let bx = (x / self.mode.width) * self.mode.width;
        let by = (y / self.mode.height) * self.mode.height;
        let mut in_block: Vec<usize> = Vec::new();
        let mut k: usize = 0;
        while k < self.block_size
            invariant
                self.wf(),
                x < self.block_size,
                y < self.block_size,
                k <= self.block_size,
                bx == block_base(x as int, self.w()),
                by == block_base(y as int, self.h()),
                0 <= bx,
                bx + self.w() <= self.n(),
                0 <= by,
                by + self.h() <= self.n(),
                in_block@.len() == k,
                forall|t: int|
                    0 <= t < k ==> #[trigger] in_block@[t] == self.sg()[by + t % self.h()][bx + t
                        / self.h()],
            decreases self.block_size - k,
        {
            let i = k / self.mode.height;
            let j = k % self.mode.height;
            proof {
                vstd::arithmetic::mul::lemma_mul_is_commutative(self.w(), self.h());
                vstd::arithmetic::div_mod::lemma_mod_division_less_than_divisor(
                    k as int,
                    self.h(),
                );
                vstd::arithmetic::div_mod::lemma_multiply_divide_lt(k as int, self.h(), self.w());
                vstd::arithmetic::div_mod::lemma_div_pos_is_pos(k as int, self.h());
                assert(self.sg()[by + j][bx + i] == self.grid@[by + j]@[bx + i]);
            }
            in_block.push(self.grid[by + j][bx + i]);
            k += 1;
        }
        let mut out: Vec<usize> = Vec::new();
        let mut v: usize = 1;
        while v <= self.block_size
            invariant
                self.wf(),
                x < self.block_size,
                y < self.block_size,
                1 <= v <= self.block_size + 1,
                in_block@.len() == self.n(),
                forall|t: int|
                    0 <= t < self.n() ==> #[trigger] in_block@[t] == self.sg()[block_base(
                        y as int,
                        self.h(),
                    ) + t % self.h()][block_base(x as int, self.w()) + t / self.h()],
                out@ == block_allowed_upto(
                    self.sg(),
                    self.w(),
                    self.h(),
                    x as int,
                    y as int,
                    v as int - 1,
                ),
            decreases self.block_size + 1 - v,
        {
            let present = contains_value(&in_block, v);
            proof {
                lemma_block_enum_contains(
                    self.sg(),
                    self.n(),
                    self.w(),
                    self.h(),
                    x as int,
                    y as int,
                    in_block@,
                    v,
                );
            }
            if !present {
                out.push(v);
            }
            proof {
                assert(out@ =~= block_allowed_upto(
                    self.sg(),
                    self.w(),
                    self.h(),
                    x as int,
                    y as int,
                    v as int,
                ));
            }
            v += 1;
        }
        out
    }

    /// The digits simultaneously legal for row, column and block at `(x, y)`.
    /// When the block alone already pins the set down to at most one digit,
    /// that set is returned without the row and column narrowing.
    pub fn allowed_numbers(&self, x: usize, y: usize) -> (r: Vec<usize>)
        requires
            self.wf(),
            x < self.block_size,
            y < self.block_size,
        ensures
            r@ == candidates(self.sg(), self.n(), self.w(), self.h(), x as int, y as int),
    {
        let in_block = self.allowed_numbers_in_block(x, y);
        if in_block.len() > 1 {
            let in_row = self.allowed_numbers_in_row(y);
            let in_col = self.allowed_numbers_in_column(x);
            let mut out: Vec<usize> = Vec::new();
            let mut v: usize = 1;
            while v <= self.block_size
                invariant
                    self.wf(),
                    x < self.block_size,
                    y < self.block_size,
                    1 <= v <= self.block_size + 1,
                    in_block@ == block_allowed(
                        self.sg(),
                        self.n(),
                        self.w(),
                        self.h(),
                        x as int,
                        y as int,
                    ),
                    in_row@ == row_allowed(self.sg(), self.n(), y as int),
                    in_col@ == col_allowed(self.sg(), self.n(), x as int),
                    out@ == all_allowed_upto(
                        self.sg(),
                        self.n(),
                        self.w(),
                        self.h(),
                        x as int,
                        y as int,
                        v as int - 1,
                    ),
                decreases self.block_size + 1 - v,
            {
                proof {
                    lemma_block_allowed_upto_contains(
                        self.sg(),
                        self.w(),
                        self.h(),
                        x as int,
                        y as int,
                        self.n(),
                        v,
                    );
                    lemma_row_allowed_upto_contains(self.sg(), self.n(), y as int, self.n(), v);
                    lemma_col_allowed_upto_contains(self.sg(), self.n(), x as int, self.n(), v);
                }
                if contains_value(&in_block, v) && contains_value(&in_row, v) && contains_value(
                    &in_col,
                    v,
                ) {
                    out.push(v);
                }
                proof {
                    assert(out@ =~= all_allowed_upto(
                        self.sg(),
                        self.n(),
                        self.w(),
                        self.h(),
                        x as int,
                        y as int,
                        v as int,
                    ));
                }
                v += 1;
            }
            out
        } else {
            in_block
        }
    }

    /// Writes `value` into `(x, y)`. Clearing (`value == 0`) and rewriting
    /// the value already present always succeed; any other nonzero digit is
    /// validated against the row, the column and the block, in that order,
    /// and a violation leaves the grid unchanged.
    pub fn set(&mut self, x: usize, y: usize, value: usize) -> (r: Result<usize, SudokuError>)
        requires
            old(self).wf(),
            x < old(self).block_size,
            y < old(self).block_size,
        ensures
            final(self).wf(),
            final(self).same_shape(*old(self)),
            r is Ok <==> set_accepts(
                old(self).sg(),
                old(self).n(),
                old(self).w(),
                old(self).h(),
                x as int,
                y as int,
                value,
            ),
            r is Ok ==> r == Ok::<usize, SudokuError>(value) && final(self).sg() == grid_set(
                old(self).sg(),
                x as int,
                y as int,
                value,
            ),
            r is Err ==> final(self).sg() == old(self).sg(),
            old(self).valid() && r is Ok ==> final(self).valid(),
            (value != 0 && old(self).sg()[y as int][x as int] != value && !(1 <= value <= old(
                self,
            ).n() && !row_has(old(self).sg(), old(self).n(), y as int, value))) <==> r == Err::<
                usize,
                SudokuError,
            >(SudokuError::RowConflict { value: value, row: y }),
            (value != 0 && old(self).sg()[y as int][x as int] != value && 1 <= value <= old(
                self,
            ).n() && !row_has(old(self).sg(), old(self).n(), y as int, value) && col_has(
                old(self).sg(),
                old(self).n(),
                x as int,
                value,
            )) <==> r == Err::<usize, SudokuError>(
                SudokuError::ColumnConflict { value: value, column: x },
            ),
            (value != 0 && old(self).sg()[y as int][x as int] != value && 1 <= value <= old(
                self,
            ).n() && !row_has(old(self).sg(), old(self).n(), y as int, value) && !col_has(
                old(self).sg(),
                old(self).n(),
                x as int,
                value,
            ) && block_has(
                old(self).sg(),
                old(self).w(),
                old(self).h(),
                x as int,
                y as int,
                value,
            )) <==> r == Err::<usize, SudokuError>(SudokuError::BlockConflict { value: value }),
    {
        let ghost g0 = old(self).sg();
        let ghost n = old(self).n();
        let ghost w = old(self).w();
        let ghost h = old(self).h();
        if value > 0 {
            if self.get(x, y) == value {
                proof {
                    lemma_grid_set_same(g0, n, x as int, y as int);
                }
                return Ok(value);
            }
            let in_row = self.allowed_numbers_in_row(y);
            let row_ok = contains_value(&in_row, value);
            proof {
                lemma_row_allowed_upto_contains(g0, n, y as int, n, value);
            }
            if !row_ok {
                return Err(SudokuError::RowConflict { value, row: y });
            }
            let in_col = self.allowed_numbers_in_column(x);
            let col_ok = contains_value(&in_col, value);
            proof {
                lemma_col_allowed_upto_contains(g0, n, x as int, n, value);
            }
            if !col_ok {
                return Err(SudokuError::ColumnConflict { value, column: x });
            }
            let in_block = self.allowed_numbers_in_block(x, y);
            let block_ok = contains_value(&in_block, value);
            proof {
                lemma_block_allowed_upto_contains(g0, w, h, x as int, y as int, n, value);
            }
            if !block_ok {
                return Err(SudokuError::BlockConflict { value });
            }
        }
        proof {
            assert(self.grid@.len() == n);
            assert(self.sg()[y as int].len() == n);
            assert(self.sg()[y as int] == self.grid@[y as int]@);
        }
        self.grid[y][x] = value;
        proof {
            assert(self.sg() =~~= grid_set(g0, x as int, y as int, value));
            crate::grids::lemma_grid_set_frame(g0, n, x as int, y as int, value);
            if old(self).valid() {
                if value > 0 {
                    lemma_set_preserves_valid(g0, n, w, h, x as int, y as int, value);
                } else {
                    lemma_clear_preserves_valid(g0, n, w, h, x as int, y as int);
                }
            }
        }
        Ok(value)
    }

    /// The number of nonzero cells.
    pub fn get_count(&self) -> (r: usize)
        requires
            self.wf(),
        ensures
            r as nat == grid_filled(self.sg()),
    {
        proof {
            assert forall|b: int|
                0 <= b < self.sg().len() implies (#[trigger] self.sg()[b]).len() <= 9 by {}
            lemma_grid_filled_bound(self.sg());
        }
        let mut acc: usize = 0;
        let mut y: usize = 0;
        while y < self.block_size
            invariant
                self.wf(),
                y <= self.block_size,
                acc as nat == grid_filled(self.sg().take(y as int)),
                acc <= 81,
                grid_filled(self.sg()) <= 81,
            decreases self.block_size - y,
        {
            let mut x: usize = 0;
            proof {
                assert(self.sg()[y as int].take(0) =~= Seq::<usize>::empty());
            }
            while x < self.block_size
                invariant
                    self.wf(),
                    y < self.block_size,
                    x <= self.block_size,
                    acc as nat == grid_filled(self.sg().take(y as int)) + row_filled(
                        self.sg()[y as int].take(x as int),
                    ),
                    grid_filled(self.sg()) <= 81,
                    acc <= 81,
                decreases self.block_size - x,
            {
                proof {
                    assert(self.sg()[y as int] == self.grid@[y as int]@);
                    assert(self.sg()[y as int].len() == self.n());
                    lemma_row_filled_snoc(self.sg()[y as int], x as int);
                    lemma_grid_filled_prefix(self.sg(), y as int, x as int + 1);
                }
                if self.grid[y][x] > 0 {
                    acc += 1;
                }
                x += 1;
            }
            proof {
                lemma_grid_filled_snoc(self.sg(), y as int);
                assert(self.sg()[y as int].take(self.n()) =~= self.sg()[y as int]);
            }
            y += 1;
        }
        proof {
            assert(self.sg().take(self.n()) =~= self.sg());
        }
        acc
    }

    /// The difficulty label for the current filled-cell count, on the fixed
    /// thresholds of the nine-wide grid.
    pub fn get_difficulty(&self) -> (r: &'static str)
        requires
            self.wf(),
        ensures
            ({
                let c = grid_filled(self.sg());
                &&& (40 <= c <= 81 ==> r@ == "Easy"@)
                &&& (25 <= c <= 39 ==> r@ == "Medium"@)
                &&& (1 <= c <= 24 ==> r@ == "Hard"@)
                &&& ((c == 0 || c > 81) ==> r@ == "Unknown"@)
            }),
    {
        let count = self.get_count();
        if count >= 40 && count <= 81 {
            "Easy"
        } else if count >= 25 && count <= 39 {
            "Medium"
        } else if count >= 1 && count <= 24 {
            "Hard"
        } else {
            "Unknown"
        }
    }

    /// Whether every cell holds a nonzero digit.
    pub fn is_solved(&self) -> (r: bool)
        requires
            self.wf(),
        ensures
            r == fully_filled(self.sg(), self.n()),
    {
        let mut y: usize = 0;
        while y < self.block_size
            invariant
                self.wf(),
                y <= self.block_size,
                forall|a: int, b: int|
                    0 <= a < self.n() && 0 <= b < y ==> #[trigger] self.sg()[b][a] != 0,
            decreases self.block_size - y,
        {
            let mut x: usize = 0;
            while x < self.block_size
                invariant
                    self.wf(),
                    y < self.block_size,
                    x <= self.block_size,
                    forall|a: int, b: int|
                        0 <= a < self.n() && 0 <= b < y ==> #[trigger] self.sg()[b][a] != 0,
                    forall|a: int| 0 <= a < x ==> #[trigger] self.sg()[y as int][a] != 0,
                decreases self.block_size - x,
            {
                proof {
                    assert(self.sg()[y as int] == self.grid@[y as int]@);
                    assert(self.sg()[y as int].len() == self.n());
                }
                if self.grid[y][x] == 0 {
                    return false;
                }
                x += 1;
            }
            y += 1;
        }
        true
    }

    /// The coordinates of every empty cell and nothing else, each exactly
    /// once, in row-major order.
    pub fn empty_cells(&self) -> (r: Vec<(usize, usize)>)
        requires
            self.wf(),
        ensures
            forall|k: int|
                0 <= k < r@.len() ==> (#[trigger] r@[k]).0 < self.block_size && r@[k].1
                    < self.block_size && self.sg()[r@[k].1 as int][r@[k].0 as int] == 0,
            forall|a: int, b: int|
                0 <= a < self.n() && 0 <= b < self.n() && self.sg()[b][a] == 0
                    ==> #[trigger] r@.contains((a as usize, b as usize)),
            forall|k1: int, k2: int|
                #![trigger r@[k1], r@[k2]]
                0 <= k1 < k2 < r@.len() ==> row_major_lt(r@[k1], r@[k2]),
            forall|k1: int, k2: int|
                #![trigger r@[k1], r@[k2]]
                0 <= k1 < k2 < r@.len() ==> r@[k1] != r@[k2],
    {
        let mut r: Vec<(usize, usize)> = Vec::new();
        let mut y: usize = 0;
        while y < self.block_size
            invariant
                self.wf(),
                y <= self.block_size,
                forall|k: int|
                    0 <= k < r@.len() ==> (#[trigger] r@[k]).0 < self.block_size && r@[k].1
                        < self.block_size && self.sg()[r@[k].1 as int][r@[k].0 as int] == 0,
                forall|a: int, b: int|
                    0 <= a < self.n() && 0 <= b < y && self.sg()[b][a] == 0 ==> #[trigger] r@
                        .contains((a as usize, b as usize)),
                forall|k1: int, k2: int|
                    #![trigger r@[k1], r@[k2]]
                    0 <= k1 < k2 < r@.len() ==> row_major_lt(r@[k1], r@[k2]),
                forall|k: int| 0 <= k < r@.len() ==> (#[trigger] r@[k]).1 < y,
            decreases self.block_size - y,
        {
            let mut x: usize = 0;
            while x < self.block_size
                invariant
                    self.wf(),
                    y < self.block_size,
                    x <= self.block_size,
                    forall|k: int|
                        0 <= k < r@.len() ==> (#[trigger] r@[k]).0 < self.block_size && r@[k].1
                            < self.block_size && self.sg()[r@[k].1 as int][r@[k].0 as int] == 0,
                    forall|a: int, b: int|
                        0 <= a < self.n() && 0 <= b < y && self.sg()[b][a] == 0 ==> #[trigger] r@
                            .contains((a as usize, b as usize)),
                    forall|a: int|
                        0 <= a < x && self.sg()[y as int][a] == 0 ==> #[trigger] r@.contains(
                            (a as usize, y),
                        ),
                    forall|k1: int, k2: int|
                        #![trigger r@[k1], r@[k2]]
                        0 <= k1 < k2 < r@.len() ==> row_major_lt(r@[k1], r@[k2]),
                    forall|k: int|
                        0 <= k < r@.len() ==> (#[trigger] r@[k]).1 < y || (r@[k].1 == y && r@[k].0
                            < x),
                decreases self.block_size - x,
            {
                proof {
                    assert(self.sg()[y as int] == self.grid@[y as int]@);
                    assert(self.sg()[y as int].len() == self.n());
                }
                let ghost r_old = r@;
                if self.grid[y][x] == 0 {
                    r.push((x, y));
                }
                proof {
                    if self.grid@[y as int]@[x as int] == 0 {
                        assert(r@[r@.len() - 1] == (x, y));
                        assert(r@.contains((x, y)));
                    }
                    assert forall|o: (usize, usize)| #![trigger r@.contains(o)]
                        r_old.contains(o) implies r@.contains(o) by {
                        let k = choose|k: int| 0 <= k < r_old.len() && r_old[k] == o;
                        assert(r@[k] == o);
                    }
                    assert forall|k1: int, k2: int|
                        #![trigger r@[k1], r@[k2]]
                        0 <= k1 < k2 < r@.len() implies row_major_lt(r@[k1], r@[k2]) by {
                        if k2 < r_old.len() {
                            assert(r@[k1] == r_old[k1] && r@[k2] == r_old[k2]);
                        } else {
                            assert(r@[k1] == r_old[k1]);
                        }
                    }
                }
                x += 1;
            }
            y += 1;
        }
        r
    }

    /// An empty cell chosen by the most-constrained-cell policy: the empty
    /// cells are scanned in row-major order, the first cell seen with the
    /// fewest candidates so far is kept, and the scan stops early at a cell
    /// with exactly one candidate. `None` when no scanned empty cell has
    /// fewer candidates than the bound (without a bound: than
    /// `block_size + 1`, so `None` only on a fully filled grid). The cell
    /// returned either has exactly one candidate, or is the row-major-first
    /// empty cell whose candidate count is minimal over all empty cells.
    pub fn any_empty_cell(&self, allowed_numbers_length: Option<usize>) -> (r: Option<
        (usize, usize),
    >)
        requires
            self.wf(),
        ensures
            ({
                let bound: int = match allowed_numbers_length {
                    Some(l) => l as int,
                    None => self.n() + 1,
                };
                match r {
                    Some(c) => {
                        let cl = candidates(
                            self.sg(),
                            self.n(),
                            self.w(),
                            self.h(),
                            c.0 as int,
                            c.1 as int,
                        ).len();
                        &&& c.0 < self.block_size
                        &&& c.1 < self.block_size
                        &&& self.sg()[c.1 as int][c.0 as int] == 0
                        &&& cl < bound
                        &&& (cl == 1 || ((forall|a: int, b: int|
                            #![trigger self.sg()[b][a]]
                            0 <= a < self.n() && 0 <= b < self.n() && self.sg()[b][a] == 0
                                ==> candidates(self.sg(), self.n(), self.w(), self.h(), a, b).len()
                                >= cl) && (forall|a: int, b: int|
                            #![trigger self.sg()[b][a]]
                            0 <= a < self.n() && 0 <= b < self.n() && self.sg()[b][a] == 0
                                && row_major_lt((a as usize, b as usize), c) ==> candidates(
                                self.sg(),
                                self.n(),
                                self.w(),
                                self.h(),
                                a,
                                b,
                            ).len() > cl)))
                    },
                    None => {
                        &&& (allowed_numbers_length is None ==> fully_filled(
                            self.sg(),
                            self.n(),
                        ))
                        &&& (bound >= 2 ==> forall|a: int, b: int|
                            #![trigger self.sg()[b][a]]
                            0 <= a < self.n() && 0 <= b < self.n() && self.sg()[b][a] == 0
                                ==> candidates(self.sg(), self.n(), self.w(), self.h(), a, b).len()
                                >= bound)
                    },
                }
            }),
    {
        let ghost bound: int = match allowed_numbers_length {
            Some(l) => l as int,
            None => self.n() + 1,
        };
        let cells = self.empty_cells();
        let mut min_length: usize = match allowed_numbers_length {
            Some(l) => l,
            None => self.block_size + 1,
        };
        let mut result: Option<(usize, usize)> = None;
        let ghost mut tc: int = 0;
        let mut stop: bool = false;
        let mut k: usize = 0;
        while k < cells.len() && !stop
            invariant
                self.wf(),
                k <= cells@.len(),
                bound == (match allowed_numbers_length {
                    Some(l) => l as int,
                    None => self.n() + 1,
                }),
                min_length as int <= bound,
                stop ==> min_length <= 1,
                forall|t: int|
                    0 <= t < cells@.len() ==> (#[trigger] cells@[t]).0 < self.block_size
                        && cells@[t].1 < self.block_size
                        && self.sg()[cells@[t].1 as int][cells@[t].0 as int] == 0,
                forall|a: int, b: int|
                    0 <= a < self.n() && 0 <= b < self.n() && self.sg()[b][a] == 0
                        ==> #[trigger] cells@.contains((a as usize, b as usize)),
                forall|k1: int, k2: int|
                    #![trigger cells@[k1], cells@[k2]]
                    0 <= k1 < k2 < cells@.len() ==> row_major_lt(cells@[k1], cells@[k2]),
                (match result {
                    Some(c) => {
                        &&& 0 <= tc < k as int
                        &&& cells@[tc] == c
                        &&& candidates(
                            self.sg(),
                            self.n(),
                            self.w(),
                            self.h(),
                            c.0 as int,
                            c.1 as int,
                        ).len() == min_length as int
                        &&& (min_length as int) < bound
                        &&& forall|t: int|
                            #![trigger cells@[t]]
                            0 <= t < tc ==> candidates(
                                self.sg(),
                                self.n(),
                                self.w(),
                                self.h(),
                                cells@[t].0 as int,
                                cells@[t].1 as int,
                            ).len() > min_length as int
                        &&& forall|t: int|
                            #![trigger cells@[t]]
                            tc <= t < k as int ==> candidates(
                                self.sg(),
                                self.n(),
                                self.w(),
                                self.h(),
                                cells@[t].0 as int,
                                cells@[t].1 as int,
                            ).len() >= min_length as int
                    },
                    None => {
                        &&& min_length as int == bound
                        &&& forall|t: int|
                            #![trigger cells@[t]]
                            0 <= t < k as int ==> candidates(
                                self.sg(),
                                self.n(),
                                self.w(),
                                self.h(),
                                cells@[t].0 as int,
                                cells@[t].1 as int,
                            ).len() >= bound
                    },
                }),
            decreases cells@.len() - k,
        {
            let (cx, cy) = cells[k];
            let length = self.allowed_numbers(cx, cy).len();
            if length < min_length {
                result = Some((cx, cy));
                min_length = length;
                proof {
                    tc = k as int;
                }
            }
            if length == 1 {
                stop = true;
            }
            k += 1;
        }
        proof {
            let gs = self.sg();
            let n = self.n();
            let w = self.w();
            let h = self.h();
            if let Some(c) = result {
                let cl = candidates(gs, n, w, h, c.0 as int, c.1 as int).len();
                if cl != 1 {
                    // either the whole scan ran, or it stopped with a
                    // zero-candidate cell kept, which is minimal outright
                    assert(stop ==> min_length == 0);
                    assert forall|a: int, b: int|
                        #![trigger gs[b][a]]
                        0 <= a < n && 0 <= b < n && gs[b][a] == 0 implies candidates(
                        gs,
                        n,
                        w,
                        h,
                        a,
                        b,
                    ).len() >= cl by {
                        if !stop {
                            assert(cells@.contains((a as usize, b as usize)));
                            let t = choose|t: int|
                                0 <= t < cells@.len() && cells@[t] == (a as usize, b as usize);
                            assert(cells@[t] == (a as usize, b as usize));
                        }
                    }
                    assert forall|a: int, b: int|
                        #![trigger gs[b][a]]
                        0 <= a < n && 0 <= b < n && gs[b][a] == 0 && row_major_lt(
                            (a as usize, b as usize),
                            c,
                        ) implies candidates(gs, n, w, h, a, b).len() > cl by {
                        assert(cells@.contains((a as usize, b as usize)));
                        let t = choose|t: int|
                            0 <= t < cells@.len() && cells@[t] == (a as usize, b as usize);
                        if t == tc {
                            assert(!row_major_lt(c, c));
                            assert(false);
                        } else if t > tc {
                            assert(row_major_lt(cells@[tc], cells@[t]));
                            assert(false);
                        }
                        assert(cells@[t] == (a as usize, b as usize));
                    }
                }
            } else {
                if !stop && bound >= 2 {
                    assert forall|a: int, b: int|
                        #![trigger gs[b][a]]
                        0 <= a < n && 0 <= b < n && gs[b][a] == 0 implies candidates(
                        gs,
                        n,
                        w,
                        h,
                        a,
                        b,
                    ).len() >= bound by {
                        assert(cells@.contains((a as usize, b as usize)));
                        let t = choose|t: int|
                            0 <= t < cells@.len() && cells@[t] == (a as usize, b as usize);
                        assert(cells@[t] == (a as usize, b as usize));
                    }
                }
                if allowed_numbers_length is None {
                    assert(bound == n + 1);
                    assert(!stop);
                    assert forall|a: int, b: int|
                        0 <= a < n && 0 <= b < n implies #[trigger] gs[b][a] != 0 by {
                        if gs[b][a] == 0 {
                            lemma_candidates_len(gs, n, w, h, a, b);
                            assert(cells@.contains((a as usize, b as usize)));
                            let t = choose|t: int|
                                0 <= t < cells@.len() && cells@[t] == (a as usize, b as usize);
                            assert(cells@[t] == (a as usize, b as usize));
                        }
                    }
                }
            }
        }
        result
    }

    /// One backtracking search: picks a most-constrained empty cell, tries
    /// its candidates in ascending order, and clears a placement whose branch
    /// fails. Complete: whenever the entry grid admits a completion, the
    /// search finds one. On failure the grid is restored exactly to its
    /// entry state.
    pub fn solve_ultimately(&mut self) -> (r: bool)
        requires
            old(self).wf(),
        ensures
            final(self).wf(),
            final(self).same_shape(*old(self)),
            r ==> fully_filled(final(self).sg(), final(self).n()),
            completable(old(self).sg(), old(self).n(), old(self).w(), old(self).h()) ==> r,
            old(self).valid() && r ==> completable(
                old(self).sg(),
                old(self).n(),
                old(self).w(),
                old(self).h(),
            ),
            forall|a: int, b: int|
                #![trigger old(self).sg()[b][a]]
                0 <= a < old(self).n() && 0 <= b < old(self).n() && old(self).sg()[b][a] != 0
                    ==> final(self).sg()[b][a] == old(self).sg()[b][a],
            old(self).valid() ==> final(self).valid(),
            !r ==> final(self).sg() == old(self).sg(),
        decreases grid_zeros(old(self).sg()),
    {
        let ghost g0 = old(self).sg();
        let ghost n = old(self).n();
        let ghost w = old(self).w();
        let ghost h = old(self).h();
        if self.is_solved() {
            proof {
                if old(self).valid() {
                    assert(extends(self.sg(), g0, n));
                    assert(valid_grid(self.sg(), n, w, h));
                    assert(completable(g0, n, w, h));
                }
            }
            return true;
        }
        let cell = self.any_empty_cell(None);
        match cell {
            None => {
                proof {
                    assert(false);
                }
                false
            },
            Some((x, y)) => {
                let cands = self.allowed_numbers(x, y);
                proof {
                    if completable(g0, n, w, h) {
                        lemma_completion_digit(g0, n, w, h, x as int, y as int);
                    }
                }
                let mut k: usize = 0;
                while k < cands.len()
                    invariant
                        self.wf(),
                        self.same_shape(*old(self)),
                        self.sg() == g0,
                        g0 == old(self).sg(),
                        old(self).wf(),
                        n == self.n(),
                        w == self.w(),
                        h == self.h(),
                        x < self.block_size,
                        y < self.block_size,
                        g0[y as int][x as int] == 0,
                        k <= cands@.len(),
                        cands@ == candidates(g0, n, w, h, x as int, y as int),
                        completable(g0, n, w, h) ==> exists|t: int|
                            #![trigger cands@[t]]
                            k <= t < cands@.len() && cands@[t] != 0 && set_accepts(
                                g0,
                                n,
                                w,
                                h,
                                x as int,
                                y as int,
                                cands@[t],
                            ) && completable(
                                grid_set(g0, x as int, y as int, cands@[t]),
                                n,
                                w,
                                h,
                            ),
                    decreases cands@.len() - k,
                {
                    let v = cands[k];
                    proof {
                        assert(cands@[k as int] == v);
                        assert(cands@.contains(v));
                        lemma_all_allowed_upto_contains(g0, n, w, h, x as int, y as int, n, v);
                        lemma_block_allowed_upto_contains(g0, w, h, x as int, y as int, n, v);
                        assert(1 <= v <= n);
                    }
                    let placed = self.set(x, y, v);
                    let ghost g1 = self.sg();
                    if placed.is_ok() {
                        proof {
                            lemma_grid_zeros_set(g0, n, x as int, y as int, v);
                            crate::grids::lemma_grid_set_frame(g0, n, x as int, y as int, v);
                        }
                        if self.solve_ultimately() {
                            proof {
                                assert forall|a: int, b: int|
                                    #![trigger g0[b][a]]
                                    0 <= a < n && 0 <= b < n && g0[b][a] != 0 implies self.sg()[b][a]
                                    == g0[b][a] by {
                                    assert(g1[b][a] == g0[b][a]);
                                }
                                if old(self).valid() {
                                    assert(extends(self.sg(), g0, n));
                                    assert(valid_grid(self.sg(), n, w, h));
                                    assert(completable(g0, n, w, h));
                                }
                            }
                            return true;
                        }
                    }
                    let _ = self.set(x, y, 0);
                    proof {
                        lemma_grid_set_twice(g0, n, x as int, y as int, v, 0);
                        lemma_grid_set_same(g0, n, x as int, y as int);
                        assert(self.sg() == g0);
                        if completable(g0, n, w, h) {
                            let t = choose|t: int|
                                k <= t < cands@.len() && cands@[t] != 0 && set_accepts(
                                    g0,
                                    n,
                                    w,
                                    h,
                                    x as int,
                                    y as int,
                                    cands@[t],
                                ) && completable(
                                    grid_set(g0, x as int, y as int, cands@[t]),
                                    n,
                                    w,
                                    h,
                                );
                            if t == k as int {
                                assert(placed is Ok);
                                assert(g1 == grid_set(g0, x as int, y as int, v));
                                assert(false);
                            }
                            assert(k as int + 1 <= t < cands@.len());
                        }
                    }
                    k += 1;
                }
                false
            },
        }
    }

    /// The backtracking search of `solve_ultimately` under a node budget:
    /// each visited search node spends one unit, and an exhausted budget ends
    /// the search as a failure. The generator's solvability check runs under
    /// this bound, so that every phase of generation is bounded.
    fn solve_bounded(&mut self, fuel: &mut usize) -> (r: bool)
        requires
            old(self).wf(),
        ensures
            final(self).wf(),
            final(self).same_shape(*old(self)),
            *final(fuel) <= *old(fuel),
            r ==> fully_filled(final(self).sg(), final(self).n()),
            forall|a: int, b: int|
                #![trigger old(self).sg()[b][a]]
                0 <= a < old(self).n() && 0 <= b < old(self).n() && old(self).sg()[b][a] != 0
                    ==> final(self).sg()[b][a] == old(self).sg()[b][a],
            old(self).valid() ==> final(self).valid(),
            !r ==> final(self).sg() == old(self).sg(),
        decreases grid_zeros(old(self).sg()),
    {
        let ghost g0 = old(self).sg();
        let ghost n = old(self).n();
        let ghost w = old(self).w();
        let ghost h = old(self).h();
        if *fuel == 0 {
            return false;
        }
        *fuel = *fuel - 1;
        if self.is_solved() {
            return true;
        }
        let cell = self.any_empty_cell(None);
        match cell {
            None => {
                proof {
                    assert(false);
                }
                false
            },
            Some((x, y)) => {
                let cands = self.allowed_numbers(x, y);
                let mut k: usize = 0;
                while k < cands.len()
                    invariant
                        self.wf(),
                        self.same_shape(*old(self)),
                        self.sg() == g0,
                        g0 == old(self).sg(),
                        old(self).wf(),
                        n == self.n(),
                        w == self.w(),
                        h == self.h(),
                        x < self.block_size,
                        y < self.block_size,
                        g0[y as int][x as int] == 0,
                        k <= cands@.len(),
                        cands@ == candidates(g0, n, w, h, x as int, y as int),
                        *fuel <= *old(fuel),
                    decreases cands@.len() - k,
                {
                    let v = cands[k];
                    proof {
                        assert(cands@[k as int] == v);
                        assert(cands@.contains(v));
                        lemma_all_allowed_upto_contains(g0, n, w, h, x as int, y as int, n, v);
                        lemma_block_allowed_upto_contains(g0, w, h, x as int, y as int, n, v);
                        assert(1 <= v <= n);
                    }
                    let placed = self.set(x, y, v);
                    let ghost g1 = self.sg();
                    if placed.is_ok() {
                        proof {
                            lemma_grid_zeros_set(g0, n, x as int, y as int, v);
                            crate::grids::lemma_grid_set_frame(g0, n, x as int, y as int, v);
                        }
                        if self.solve_bounded(fuel) {
                            proof {
                                assert forall|a: int, b: int|
                                    #![trigger g0[b][a]]
                                    0 <= a < n && 0 <= b < n && g0[b][a] != 0 implies self.sg()[b][a]
                                    == g0[b][a] by {
                                    assert(g1[b][a] == g0[b][a]);
                                }
                            }
                            return true;
                        }
                    }
                    let _ = self.set(x, y, 0);
                    proof {
                        lemma_grid_set_twice(g0, n, x as int, y as int, v, 0);
                        lemma_grid_set_same(g0, n, x as int, y as int);
                        assert(self.sg() == g0);
                    }
                    k += 1;
                }
                false
            },
        }
    }

    /// Solves the grid in place by backtracking search, returning the solved
    /// grid on success: whenever some fully filled valid grid agrees with the
    /// entry grid on its nonzero cells, one is found. A failed solve means no
    /// such completion exists, and leaves the grid exactly as it was.
    pub fn solve(&mut self) -> (r: Option<Vec<Vec<usize>>>)
        requires
            old(self).wf(),
        ensures
            final(self).wf(),
            final(self).same_shape(*old(self)),
            completable(old(self).sg(), old(self).n(), old(self).w(), old(self).h()) ==> r
                is Some,
            old(self).valid() && r is Some ==> completable(
                old(self).sg(),
                old(self).n(),
                old(self).w(),
                old(self).h(),
            ),
            (match r {
                Some(sol) => grid_view(sol) == final(self).sg() && fully_filled(
                    final(self).sg(),
                    final(self).n(),
                ),
                None => final(self).sg() == old(self).sg(),
            }),
            forall|a: int, b: int|
                #![trigger old(self).sg()[b][a]]
                0 <= a < old(self).n() && 0 <= b < old(self).n() && old(self).sg()[b][a] != 0
                    ==> final(self).sg()[b][a] == old(self).sg()[b][a],
            old(self).valid() ==> final(self).valid(),
    {
        if self.solve_ultimately() {
            Some(self.copy_grid())
        } else {
            None
        }
    }

    /// An owned copy of the grid contents.
    pub fn copy_grid(&self) -> (g: Vec<Vec<usize>>)
        requires
            self.wf(),
        ensures
            grid_view(g) == self.sg(),
            g@.len() == self.n(),
            forall|b: int| 0 <= b < g@.len() ==> (#[trigger] g@[b])@.len() == g@.len(),
    {
        let mut g: Vec<Vec<usize>> = Vec::new();
        let mut y: usize = 0;
        while y < self.block_size
            invariant
                self.wf(),
                y <= self.block_size,
                g@.len() == y,
                forall|b: int| 0 <= b < y ==> (#[trigger] g@[b])@ == self.sg()[b],
            decreases self.block_size - y,
        {
            g.push(self.row(y));
            y += 1;
        }
        proof {
            assert(grid_view(g) =~= self.sg());
        }
        g
    }

    /// Generates a puzzle in place: seeds a sparse valid grid with random
    /// legal digits, verifies the seed solves, then digs filled cells back
    /// out of the solved grid toward a random target density. Every random
    /// phase is bounded; when a bound is exhausted the board reached so far
    /// is kept, so the call always ends with a valid, non-empty grid.
    pub fn generate(&mut self)
        requires
            old(self).wf(),
        ensures
            final(self).wf(),
            final(self).same_shape(*old(self)),
            final(self).valid(),
            grid_filled(final(self).sg()) >= 1,
    {
        let mut attempts: usize = 0;
        loop
            invariant
                self.wf(),
                self.same_shape(*old(self)),
                attempts < GENERATE_ATTEMPT_CAP,
            decreases GENERATE_ATTEMPT_CAP - attempts,
        {
            self.reset();
            let min_allowed_size = self.block_size / 3;
            let mut base_numbers = self.mode.lower_size;
            let mut iters: usize = 0;
            while base_numbers > 0 && iters < SEED_ITERATION_CAP
                invariant
                    self.wf(),
                    self.same_shape(*old(self)),
                    self.valid(),
                    iters <= SEED_ITERATION_CAP,
                    min_allowed_size == self.block_size / 3,
                    iters == 0 ==> base_numbers == self.mode.lower_size,
                    (iters == 0 && all_empty(self.sg(), self.n())) || grid_filled(self.sg())
                        >= 1,
                decreases SEED_ITERATION_CAP - iters,
            {
                let ghost g_it = self.sg();
                let fill_x = rand_range(0, self.block_size);
                let fill_y = rand_range(0, self.block_size);
                let nums = self.allowed_numbers(fill_x, fill_y);
                proof {
                    if all_empty(g_it, self.n()) {
                        lemma_empty_candidates(
                            g_it,
                            self.n(),
                            self.w(),
                            self.h(),
                            fill_x as int,
                            fill_y as int,
                        );
                    }
                }
                if nums.len() > min_allowed_size {
                    let idx = rand_range(0, nums.len());
                    let value = nums[idx];
                    proof {
                        assert(nums@.contains(value));
                        lemma_all_allowed_upto_contains(
                            g_it,
                            self.n(),
                            self.w(),
                            self.h(),
                            fill_x as int,
                            fill_y as int,
                            self.n(),
                            value,
                        );
                        lemma_block_allowed_upto_contains(
                            g_it,
                            self.w(),
                            self.h(),
                            fill_x as int,
                            fill_y as int,
                            self.n(),
                            value,
                        );
                        if all_empty(g_it, self.n()) {
                            lemma_empty_no_presence(
                                g_it,
                                self.n(),
                                self.w(),
                                self.h(),
                                fill_x as int,
                                fill_y as int,
                                value,
                            );
                        }
                    }
                    let placed = self.set(fill_x, fill_y, value);
                    if placed.is_ok() {
                        base_numbers -= 1;
                    }
                    proof {
                        if placed is Ok {
                            assert(self.sg()[fill_y as int][fill_x as int] == value);
                            assert(self.sg()[fill_y as int].len() == self.n());
                            lemma_grid_filled_pos(self.sg(), fill_x as int, fill_y as int);
                        }
                    }
                }
                iters += 1;
            }
            proof {
                assert(grid_filled(self.sg()) >= 1);
            }
            let mut fuel: usize = SOLVE_NODE_CAP;
            let solved = self.solve_bounded(&mut fuel);
            if solved {
                proof {
                    assert(4usize * 4usize == 16 && 6usize * 6usize == 36 && 8usize * 8usize == 64
                        && 9usize * 9usize == 81) by (nonlinear_arith);
                    lemma_grid_filled_full(self.sg(), self.n());
                }
                let grid_cell_size = self.block_size * self.block_size;
                let max_allowed_size = self.block_size - 2;
                let keep = rand_range(self.mode.lower_size, self.mode.higher_size + 1);
                let mut dig_numbers = grid_cell_size - keep;
                let mut dig_iters: usize = 0;
                while dig_numbers > 0 && dig_iters < DIG_ITERATION_CAP
                    invariant
                        self.wf(),
                        self.same_shape(*old(self)),
                        self.valid(),
                        dig_iters <= DIG_ITERATION_CAP,
                        max_allowed_size == self.block_size - 2,
                        self.mode.lower_size <= keep,
                        grid_filled(self.sg()) == keep + dig_numbers,
                    decreases DIG_ITERATION_CAP - dig_iters,
                {
                    let ghost g_d = self.sg();
                    let dig_x = rand_range(0, self.block_size);
                    let dig_y = rand_range(0, self.block_size);
                    if self.get(dig_x, dig_y) > 0 && self.allowed_numbers(dig_x, dig_y).len()
                        < max_allowed_size {
                        let _ = self.set(dig_x, dig_y, 0);
                        proof {
                            lemma_grid_filled_set(g_d, self.n(), dig_x as int, dig_y as int, 0);
                        }
                        dig_numbers -= 1;
                    }
                    dig_iters += 1;
                }
                return ;
            }
            attempts += 1;
            if attempts >= GENERATE_ATTEMPT_CAP {
                return ;
            }
        }
    }

}

/// Whether a vector of digits contains `target`.
fn contains_value(v: &Vec<usize>, target: usize) -> (r: bool)
    ensures
        r == v@.contains(target),
{
    let mut i: usize = 0;
    while i < v.len()
        invariant
            i <= v@.len(),
            forall|k: int| 0 <= k < i ==> #[trigger] v@[k] != target,
        decreases v@.len() - i,
    {
        if v[i] == target {
            return true;
        }
        i += 1;
    }
    false
}

} // verus!
