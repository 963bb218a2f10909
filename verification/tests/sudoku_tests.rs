use sudoku_gen::difficulty::count_filled_cells;
use sudoku_gen::difficulty::gen_board_with_difficulty;
use sudoku_gen::difficulty::Difficulty;
use sudoku_gen::sudoku::Sudoku;
use sudoku_gen::sudoku::SudokuError;

fn assert_valid(grid: &Vec<Vec<usize>>, w: usize, h: usize) {
    let n = w * h;
    assert_eq!(grid.len(), n);
    for row in grid {
        assert_eq!(row.len(), n);
    }
    for y in 0..n {
        for x in 0..n {
            let v = grid[y][x];
            if v == 0 {
                continue;
            }
            assert!(1 <= v && v <= n);
            for i in 0..n {
                if i != x {
                    assert_ne!(grid[y][i], v, "row duplicate at ({}, {})", x, y);
                }
                if i != y {
                    assert_ne!(grid[i][x], v, "column duplicate at ({}, {})", x, y);
                }
            }
            let bx = (x / w) * w;
            let by = (y / h) * h;
            for i in 0..w {
                for j in 0..h {
                    if (bx + i, by + j) != (x, y) {
                        assert_ne!(grid[by + j][bx + i], v, "block duplicate at ({}, {})", x, y);
                    }
                }
            }
        }
    }
}

#[test]
fn blank_grids_have_zero_count_for_all_sizes() {
    for key in [4usize, 6, 8, 9] {
        let s = Sudoku::new(None, Some(key));
        assert_eq!(s.block_size, key);
        assert_eq!(s.get_count(), 0);
    }
}

#[test]
fn blank_nine_grid_is_unknown_difficulty() {
    let s = Sudoku::new(None, Some(9));
    assert_eq!(s.get_difficulty(), "Unknown");
}

#[test]
fn default_mode_is_nine() {
    let s = Sudoku::new(None, None);
    assert_eq!(s.block_size, 9);
    assert_eq!(s.mode.width, 3);
    assert_eq!(s.mode.height, 3);
    assert_eq!(s.numbers, vec![1, 2, 3, 4, 5, 6, 7, 8, 9]);
}

#[test]
fn mode_is_inferred_from_supplied_grid() {
    let grid = vec![vec![0usize; 4]; 4];
    let s = Sudoku::new(Some(grid), None);
    assert_eq!(s.block_size, 4);
    assert_eq!(s.mode.width, 2);
    assert_eq!(s.mode.height, 2);
    assert_eq!(s.mode.lower_size, 4);
    assert_eq!(s.mode.higher_size, 8);
}

#[test]
fn six_mode_geometry() {
    let s = Sudoku::new(None, Some(6));
    assert_eq!(s.block_size, 6);
    assert_eq!(s.mode.width, 3);
    assert_eq!(s.mode.height, 2);
    assert_eq!(s.numbers, vec![1, 2, 3, 4, 5, 6]);
}

#[test]
fn eight_mode_geometry() {
    let s = Sudoku::new(None, Some(8));
    assert_eq!(s.block_size, 8);
    assert_eq!(s.mode.width, 2);
    assert_eq!(s.mode.height, 4);
    assert_eq!(s.mode.lower_size, 18);
    assert_eq!(s.mode.higher_size, 36);
}

#[test]
fn set_scenarios_on_blank_nine_grid() {
    let mut s = Sudoku::new(None, Some(9));
    assert_eq!(s.set(0, 0, 5), Ok(5));
    assert_eq!(
        s.set(0, 1, 5),
        Err(SudokuError::ColumnConflict { value: 5, column: 0 })
    );
    assert_eq!(s.set(1, 0, 5), Err(SudokuError::RowConflict { value: 5, row: 0 }));
    assert_eq!(s.set(3, 3, 5), Ok(5));
}

#[test]
fn set_reports_block_conflicts() {
    let mut s = Sudoku::new(None, Some(9));
    assert_eq!(s.set(0, 0, 5), Ok(5));
    assert_eq!(s.set(1, 1, 5), Err(SudokuError::BlockConflict { value: 5 }));
}

#[test]
fn set_rejects_digits_out_of_range() {
    let mut s = Sudoku::new(None, Some(9));
    assert_eq!(s.set(0, 0, 10), Err(SudokuError::RowConflict { value: 10, row: 0 }));
    assert_eq!(s.get_count(), 0);
}

#[test]
fn set_is_idempotent() {
    let mut s = Sudoku::new(None, Some(9));
    assert_eq!(s.set(2, 2, 7), Ok(7));
    let after_first = s.copy_grid();
    assert_eq!(s.set(2, 2, 7), Ok(7));
    assert_eq!(s.copy_grid(), after_first);
    assert_eq!(s.get_count(), 1);
}

#[test]
fn set_zero_always_clears() {
    let mut s = Sudoku::new(None, Some(9));
    assert_eq!(s.set(4, 4, 3), Ok(3));
    assert_eq!(s.set(4, 4, 0), Ok(0));
    assert_eq!(s.get_count(), 0);
    assert_eq!(s.set(8, 8, 0), Ok(0));
}

#[test]
fn reset_clears_the_grid() {
    let mut s = Sudoku::new(None, Some(4));
    assert_eq!(s.set(0, 0, 1), Ok(1));
    assert_eq!(s.set(2, 2, 2), Ok(2));
    s.reset();
    assert_eq!(s.get_count(), 0);
}

#[test]
fn set_board_installs_a_board() {
    let mut s = Sudoku::new(None, Some(4));
    s.set_board(vec![
        vec![1, 0, 0, 0],
        vec![0, 2, 0, 0],
        vec![0, 0, 3, 0],
        vec![0, 0, 0, 4],
    ]);
    assert_eq!(s.get_count(), 4);
}

#[test]
fn count_filled_cells_counts_nonzero_entries() {
    assert_eq!(count_filled_cells(&vec![]), 0);
    assert_eq!(count_filled_cells(&vec![vec![0, 0], vec![0, 0]]), 0);
    assert_eq!(count_filled_cells(&vec![vec![1, 0, 2], vec![3, 0, 0]]), 3);
}

#[test]
fn difficulty_cell_ranges() {
    assert_eq!(Difficulty::Easy.get_cell_ranges(), (40, 81));
    assert_eq!(Difficulty::Medium.get_cell_ranges(), (25, 39));
    assert_eq!(Difficulty::Hard.get_cell_ranges(), (17, 24));
}

#[test]
fn difficulty_labels_follow_the_count() {
    let mut s = Sudoku::new(None, Some(9));
    assert_eq!(s.get_difficulty(), "Unknown");
    assert_eq!(s.set(0, 0, 1), Ok(1));
    assert_eq!(s.get_difficulty(), "Hard");
    let solved = s.solve();
    assert!(solved.is_some());
    assert_eq!(s.get_count(), 81);
    assert_eq!(s.get_difficulty(), "Easy");
}

#[test]
fn solving_a_solvable_four_grid() {
    let mut s = Sudoku::new(None, Some(4));
    assert_eq!(s.set(0, 0, 1), Ok(1));
    assert_eq!(s.set(2, 1, 1), Ok(1));
    let solution = s.solve();
    let grid = solution.expect("the sparse four-wide grid must solve");
    assert_valid(&grid, 2, 2);
    for row in &grid {
        for &v in row {
            assert!(v != 0);
        }
    }
    assert_eq!(grid[0][0], 1);
    assert_eq!(grid[1][2], 1);
}

#[test]
fn unsolvable_grid_returns_none_and_restores() {
    let mut s = Sudoku::new(None, Some(4));
    let board = vec![
        vec![1, 2, 3, 0],
        vec![0, 0, 0, 4],
        vec![0, 0, 0, 0],
        vec![0, 0, 0, 0],
    ];
    s.set_board(board.clone());
    assert!(s.solve().is_none());
    assert_eq!(s.copy_grid(), board);
}

#[test]
fn solved_grids_satisfy_the_validity_invariant() {
    let mut s = Sudoku::new(None, Some(9));
    assert_eq!(s.set(0, 0, 5), Ok(5));
    assert_eq!(s.set(4, 4, 7), Ok(7));
    let grid = s.solve().expect("a two-clue nine-wide grid must solve");
    assert_valid(&grid, 3, 3);
    assert_eq!(grid[0][0], 5);
    assert_eq!(grid[4][4], 7);
}

#[test]
fn candidates_are_legal_for_row_column_and_block() {
    let mut s = Sudoku::new(None, Some(9));
    assert_eq!(s.set(0, 0, 1), Ok(1));
    assert_eq!(s.set(3, 0, 2), Ok(2));
    assert_eq!(s.set(0, 5, 3), Ok(3));
    assert_eq!(s.set(1, 1, 4), Ok(4));
    let cands = s.allowed_numbers(2, 0);
    assert!(!cands.is_empty());
    for &v in &cands {
        // digits present in row 0, column 2, or the top-left block must be absent
        assert!(v != 1 && v != 2 && v != 4);
        assert!(1 <= v && v <= 9);
    }
}

#[test]
fn single_candidate_blocks_bypass_row_narrowing() {
    let mut s = Sudoku::new(None, Some(4));
    assert_eq!(s.set(1, 0, 1), Ok(1));
    assert_eq!(s.set(0, 1, 2), Ok(2));
    assert_eq!(s.set(1, 1, 3), Ok(3));
    assert_eq!(s.set(2, 0, 4), Ok(4));
    // The block of (0, 0) leaves only the digit 4, so the block set is
    // returned without row narrowing although 4 already sits in row 0.
    assert_eq!(s.allowed_numbers(0, 0), vec![4]);
}

#[test]
fn most_constrained_cell_is_selected() {
    let mut s = Sudoku::new(None, Some(4));
    assert_eq!(s.set(1, 0, 1), Ok(1));
    assert_eq!(s.set(0, 1, 2), Ok(2));
    assert_eq!(s.set(1, 1, 3), Ok(3));
    // (0, 0) is the first empty cell in row-major order and its block leaves
    // it exactly one candidate, so the scan stops there.
    assert_eq!(s.any_empty_cell(None), Some((0, 0)));
    assert_eq!(s.any_empty_cell(Some(1)), None);
}

#[test]
fn empty_cells_are_listed_in_row_major_order_once() {
    let mut s = Sudoku::new(None, Some(4));
    assert_eq!(s.set(1, 0, 1), Ok(1));
    assert_eq!(s.set(2, 2, 3), Ok(3));
    let cells = s.empty_cells();
    assert_eq!(cells.len(), 14);
    for pair in cells.windows(2) {
        assert!(pair[0].1 < pair[1].1 || (pair[0].1 == pair[1].1 && pair[0].0 < pair[1].0));
    }
    assert!(!cells.contains(&(1, 0)) && !cells.contains(&(2, 2)));
    assert_eq!(cells[0], (0, 0));
}

#[test]
fn generated_four_grid_round_trips_through_its_solution() {
    let mut s = Sudoku::new(None, Some(4));
    s.generate();
    let puzzle = s.copy_grid();
    assert_valid(&puzzle, 2, 2);
    let solution = s.solve().expect("a generated four-wide puzzle must solve");
    assert_valid(&solution, 2, 2);
    for y in 0..4 {
        for x in 0..4 {
            if puzzle[y][x] != 0 {
                assert_eq!(solution[y][x], puzzle[y][x]);
                assert_eq!(s.set(x, y, puzzle[y][x]), Ok(puzzle[y][x]));
            }
        }
    }
    assert_eq!(s.copy_grid(), solution);
}

#[test]
fn generated_nine_grid_is_valid() {
    let mut s = Sudoku::new(None, Some(9));
    s.generate();
    assert_valid(&s.copy_grid(), 3, 3);
    assert!(s.get_count() > 0);
}

#[test]
fn easy_band_generation_lands_in_band_unless_exhausted() {
    let (board, matched) = gen_board_with_difficulty(Difficulty::Easy);
    let count = board.get_count();
    assert!(count <= 81);
    if matched {
        assert!((40..=81).contains(&count));
    }
}

#[test]
fn medium_band_generation_reports_its_count() {
    let (board, matched) = gen_board_with_difficulty(Difficulty::Medium);
    let count = board.get_count();
    if matched {
        assert!((25..=39).contains(&count));
    }
    assert_valid(&board.copy_grid(), 3, 3);
}
