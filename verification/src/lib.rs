//! Verified 9x9 Sudoku solving by exhaustive backtracking search, in two
//! interchangeable variants: a naive per-cell validity check and a
//! bitmask-based constraint-propagation variant with most-constrained-cell
//! ordering. Both implement the shared [`SudokuSolver`] contract: `solve`
//! returns true exactly when the starting grid can be completed to a fully
//! legal Sudoku grid, and on success the grid holds such a completion with
//! every original clue preserved.

mod binary_sudoku;
mod grid;
mod int_sudoku;
mod sudoku;

pub use binary_sudoku::bit;
pub use binary_sudoku::count_bits;
pub use binary_sudoku::lemma_place_keeps_masks;
pub use binary_sudoku::masks_good;
pub use binary_sudoku::sub_one;
pub use binary_sudoku::BinarySudoku;
pub use grid::at;
pub use grid::box_has;
pub use grid::can_place;
pub use grid::cell_ok;
pub use grid::col_has;
pub use grid::complete;
pub use grid::consistent;
pub use grid::extends;
pub use grid::grid_seq;
pub use grid::in_range;
pub use grid::legal;
pub use grid::lemma_illegal_unsolvable;
pub use grid::lemma_solved_grid_units;
pub use grid::lemma_solved_is_only_self_extension;
pub use grid::lemma_unique_solution_agreement;
pub use grid::place;
pub use grid::prefix_filled;
pub use grid::row_has;
pub use grid::sees;
pub use grid::solvable;
pub use grid::solved;
pub use int_sudoku::IntegerSudoku;
pub use sudoku::SudokuSolver;
