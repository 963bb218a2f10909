//! Difficulty banding: three named bands over filled-cell counts, a count
//! helper for boards of any shape, and the bounded retry loop that
//! regenerates whole puzzles until one lands in a requested band.

use crate::grids::grid_filled;
use crate::grids::grid_view;
use crate::grids::lemma_grid_filled_prefix;
use crate::grids::lemma_grid_filled_snoc;
use crate::grids::lemma_row_filled_snoc;
use crate::grids::row_filled;
use crate::sudoku::Sudoku;
use vstd::prelude::*;

verus! {

/// A requested difficulty band.
#[derive(Debug, Clone, Copy, PartialEq, Eq, Structural)]
pub enum Difficulty {
    Easy,
    Medium,
    Hard,
}

impl Difficulty {
    /// The inclusive filled-cell range of the band.
    pub open spec fn spec_cell_ranges(self) -> (usize, usize) {
        match self {
            Difficulty::Easy => (40usize, 81usize),
            Difficulty::Medium => (25usize, 39usize),
            Difficulty::Hard => (17usize, 24usize),
        }
    }

    /// The inclusive filled-cell range of the band.
    pub fn get_cell_ranges(&self) -> (r: (usize, usize))
        ensures
            r == self.spec_cell_ranges(),
    {
        match self {
            Difficulty::Easy => (40, 81),
            Difficulty::Medium => (25, 39),
            Difficulty::Hard => (17, 24),
        }
    }
}

/// The number of nonzero cells of a board, of any shape.
pub fn count_filled_cells(board: &Vec<Vec<usize>>) -> (r: usize)
    requires
        grid_filled(grid_view(*board)) <= usize::MAX,
    ensures
        r as nat == grid_filled(grid_view(*board)),
{
    let ghost gv = grid_view(*board);
    let mut acc: usize = 0;
    let mut y: usize = 0;
    while y < board.len()
        invariant
            gv == grid_view(*board),
            grid_filled(gv) <= usize::MAX,
            y <= board@.len(),
            acc as nat == grid_filled(gv.take(y as int)),
            acc <= grid_filled(gv),
        decreases board@.len() - y,
    {
        let mut x: usize = 0;
        proof {
            assert(gv[y as int].take(0) =~= Seq::<usize>::empty());
        }
        while x < board[y].len()
            invariant
                gv == grid_view(*board),
                grid_filled(gv) <= usize::MAX,
                y < board@.len(),
                x <= board@[y as int]@.len(),
                gv[y as int] == board@[y as int]@,
                acc as nat == grid_filled(gv.take(y as int)) + row_filled(
                    gv[y as int].take(x as int),
                ),
                acc <= grid_filled(gv),
            decreases board@[y as int]@.len() - x,
        {
            proof {
                lemma_row_filled_snoc(gv[y as int], x as int);
                lemma_grid_filled_prefix(gv, y as int, x as int + 1);
            }
            if board[y][x] != 0 {
                acc += 1;
            }
            x += 1;
        }
        proof {
            lemma_grid_filled_snoc(gv, y as int);
            assert(gv[y as int].take(gv[y as int].len() as int) =~= gv[y as int]);
        }
        y += 1;
    }
    proof {
        assert(gv.take(gv.len() as int) =~= gv);
    }
    acc
}

/// How many whole generations may be tried for one requested band.
pub const MAX_GENERATION_ATTEMPTS: usize = 12;

/// Generates nine-wide puzzles until one lands in the requested band, up to
/// a bounded number of attempts; on exhausting them the last generated board
/// is returned as it is. The flag reports exactly whether the returned
/// board's filled-cell count landed in the band.
pub fn gen_board_with_difficulty(difficulty: Difficulty) -> (r: (Sudoku, bool))
    ensures
        r.0.wf(),
        r.0.n() == 9,
        r.0.valid(),
        grid_filled(r.0.sg()) >= 1,
        r.1 <==> ({
            let (lo, hi) = difficulty.spec_cell_ranges();
            lo as nat <= grid_filled(r.0.sg()) <= hi as nat
        }),
{
    let mut attempts: usize = 0;
    loop
        invariant
            attempts < MAX_GENERATION_ATTEMPTS,
        decreases MAX_GENERATION_ATTEMPTS - attempts,
    {
        let mut sudoku = Sudoku::new(None, Some(9));
        sudoku.generate();
        let count = sudoku.get_count();
        let ranges = difficulty.get_cell_ranges();
        if count >= ranges.0 && count <= ranges.1 {
            return (sudoku, true);
        }
        attempts += 1;
        if attempts >= MAX_GENERATION_ATTEMPTS {
            return (sudoku, false);
        }
    }
}

} // verus!
