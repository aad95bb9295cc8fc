//! The shared contract of the two solver variants.

use crate::grid::extends;
use crate::grid::grid_seq;
use crate::grid::solvable;
use crate::grid::solved;
use vstd::prelude::*;

verus! {

/// A backtracking Sudoku solver: built once from a 9x9 grid of digits with 0
/// meaning empty, then asked once to complete that grid in place.
///
/// `solve` decides solvability exactly: it returns true precisely when the
/// starting grid has a solved extension, and on success the grid holds such
/// an extension, every original clue kept. A grid with out-of-range values or
/// conflicting clues has no solved extension, so on it `solve` returns false.
pub trait SudokuSolver: Sized {
    /// The solver's current grid, as the flat row-major model.
    spec fn grid(&self) -> Seq<u32>;

    /// The solver's internal invariant: established by `new`, kept by `solve`.
    spec fn wf(&self) -> bool;

    /// Builds a solver whose grid is the given 9x9 board.
    fn new(board: [[u32; 9]; 9]) -> (s: Self)
        ensures
            s.wf(),
            s.grid() == grid_seq(board),
    ;

    /// Completes the grid in place. Returns true exactly when the starting
    /// grid can be completed; the completed grid keeps every placed digit of
    /// the starting grid. On false the grid is left as it was.
    fn solve(&mut self) -> (r: bool)
        requires
            old(self).wf(),
        ensures
            final(self).wf(),
            r <==> solvable(old(self).grid()),
            r ==> solved(final(self).grid()) && extends(old(self).grid(), final(self).grid()),
            !r ==> final(self).grid() == old(self).grid(),
    ;
}

} // verus!
