//! The naive cell-by-cell backtracking solver.
//!
//! A single cursor advances over the grid in row-major order; at each empty
//! cell every digit 1..=9 is tried in ascending order, legality being checked
//! by scanning the cell's row, column and box against the current grid.

use crate::grid::at;
use crate::grid::can_place;
use crate::grid::cell_ok;
use crate::grid::check_grid;
use crate::grid::extends;
use crate::grid::flatten;
use crate::grid::grid_seq;
use crate::grid::legal;
use crate::grid::lemma_blocked_digit;
use crate::grid::lemma_extends_trans;
use crate::grid::lemma_extension_through_place;
use crate::grid::lemma_flat_index_injective;
use crate::grid::lemma_illegal_unsolvable;
use crate::grid::lemma_place_keeps_legal;
use crate::grid::place;
use crate::grid::prefix_filled;
use crate::grid::sees;
use crate::grid::solvable;
use crate::grid::solved;
use crate::sudoku::SudokuSolver;
use vstd::prelude::*;

verus! {

/// The naive solver: the grid alone, no cached constraint state.
pub struct IntegerSudoku {
    board: [u32; 81],
}

impl View for IntegerSudoku {
    type V = Seq<u32>;

    closed spec fn view(&self) -> Seq<u32> {
        self.board@
    }
}

impl IntegerSudoku {
    /// Whether digit `num` can be placed at (`row`, `col`): three scans over
    /// the full row, the full column and the 3x3 box, each against the
    /// current grid contents.
    pub fn is_valid(&self, row: usize, col: usize, num: u32) -> (r: bool)
        requires
            row < 9,
            col < 9,
        ensures
            r <==> can_place(self@, row as int, col as int, num as int),
    {
        for i in 0..9usize
            invariant
                row < 9,
                col < 9,
                forall|y: int| 0 <= y < i ==> #[trigger] at(self@, row as int, y) != num,
        {
            if self.board[row * 9 + i] == num {
                assert(!can_place(self@, row as int, col as int, num as int)) by {
                    assert(cell_ok(row as int, i as int));
                    assert(sees(row as int, col as int, row as int, i as int));
                    assert(at(self@, row as int, i as int) == num);
                }
                return false;
            }
        }
        for i in 0..9usize
            invariant
                row < 9,
                col < 9,
                forall|x: int| 0 <= x < i ==> #[trigger] at(self@, x, col as int) != num,
        {
            if self.board[i * 9 + col] == num {
                assert(!can_place(self@, row as int, col as int, num as int)) by {
                    assert(cell_ok(i as int, col as int));
                    assert(sees(row as int, col as int, i as int, col as int));
                    assert(at(self@, i as int, col as int) == num);
                }
                return false;
            }
        }
        let row_start = (row / 3) * 3;
        let col_start = (col / 3) * 3;
        for i in 0..3usize
            invariant
                row < 9,
                col < 9,
                row_start == (row / 3) * 3,
                col_start == (col / 3) * 3,
                forall|x: int, y: int|
                    0 <= x < i && 0 <= y < 3 ==> #[trigger] at(
                        self@,
                        row_start + x,
                        col_start + y,
                    ) != num,
        {
            for j in 0..3usize
                invariant
                    row < 9,
                    col < 9,
                    i < 3,
                    row_start == (row / 3) * 3,
                    col_start == (col / 3) * 3,
                    forall|x: int, y: int|
                        0 <= x < i && 0 <= y < 3 ==> #[trigger] at(
                            self@,
                            row_start + x,
                            col_start + y,
                        ) != num,
                    forall|y: int|
                        0 <= y < j ==> #[trigger] at(self@, row_start + i, col_start + y) != num,
            {
                if self.board[(row_start + i) * 9 + (col_start + j)] == num {
                    assert(at(self@, row_start + i, col_start + j) == num);
                    assert((row_start + i) / 3 == row as int / 3 && (col_start + j) / 3 == col
                        as int / 3) by (nonlinear_arith)
                        requires
                            row < 9 && col < 9 && i < 3 && j < 3 && row_start == (row / 3) * 3
                                && col_start == (col / 3) * 3,
                    ;
                    assert(sees(row as int, col as int, row_start + i, col_start + j));
                    assert(!can_place(self@, row as int, col as int, num as int)) by {
                        assert(cell_ok(row_start + i, col_start + j));
                        assert(at(self@, row_start + i, col_start + j) == num);
                    }
                    return false;
                }
            }
        }
        assert forall|a: int, b: int|
            cell_ok(a, b) && sees(row as int, col as int, a, b) implies #[trigger] at(self@, a, b)
            != num as int by {
            if a == row {
                assert(at(self@, row as int, b) != num);
            } else if b == col {
                assert(at(self@, a, col as int) != num);
            } else {
                assert(a / 3 == row as int / 3 && b / 3 == col as int / 3);
                assert(row_start <= a < row_start + 3 && col_start <= b < col_start + 3)
                    by (nonlinear_arith)
                    requires
                        cell_ok(a, b) && row < 9 && col < 9 && a / 3 == row as int / 3 && b / 3
                            == col as int / 3 && row_start == (row / 3) * 3 && col_start == (col
                            / 3) * 3,
                ;
                assert(at(self@, row_start + (a - row_start), col_start + (b - col_start)) != num);
            }
        }
        true
    }

    /// The digit currently at (`row`, `col`); 0 when the cell is empty.
    pub fn cell(&self, row: usize, col: usize) -> (v: u32)
        requires
            row < 9,
            col < 9,
        ensures
            v == at(self.grid(), row as int, col as int),
    {
        self.board[row * 9 + col]
    }

    /// Backtracking search from the row-major cursor (`row`, `col`): every
    /// cell before the cursor is already filled, and the search fills every
    /// cell from the cursor on. Returns true exactly when the current grid
    /// has a solved extension; on false the grid is left as it was.
    pub fn solve_cell(&mut self, row: usize, col: usize) -> (r: bool)
        requires
            row <= 9,
            col <= 9,
            legal(old(self)@),
            prefix_filled(old(self)@, row * 9 + col),
        ensures
            r <==> solvable(old(self)@),
            r ==> solved(final(self)@) && extends(old(self)@, final(self)@),
            !r ==> final(self)@ == old(self)@,
        decreases 9 - row, 10 - col,
    {
        if row == 9 {
            proof {
                assert forall|x: int, y: int| cell_ok(x, y) implies #[trigger] at(self@, x, y)
                    != 0 by {
                    assert(x * 9 + y < 81 <= row * 9 + col);
                }
                assert(solved(self@));
                assert(extends(self@, self@));
            }
            return true;
        }
        if col == 9 {
            assert(row * 9 + 9 == (row + 1) * 9 + 0);
            return self.solve_cell(row + 1, 0);
        }
        let idx = row * 9 + col;
        let v0 = self.board[idx];
        if v0 != 0 {
            proof {
                assert forall|x: int, y: int|
                    cell_ok(x, y) && x * 9 + y < idx + 1 implies #[trigger] at(self@, x, y)
                    != 0 by {
                    if x * 9 + y == idx as int {
                        lemma_flat_index_injective(x, y, row as int, col as int);
                        assert(at(self@, row as int, col as int) == v0);
                    }
                }
            }
            return self.solve_cell(row, col + 1);
        }
        let ghost g0 = self@;
        assert(at(g0, row as int, col as int) == 0);
        let mut num: u32 = 1;
        while num <= 9
            invariant
                row < 9,
                col < 9,
                idx == row * 9 + col,
                legal(g0),
                prefix_filled(g0, idx as int),
                at(g0, row as int, col as int) == 0,
                g0 == old(self)@,
                self@ == g0,
                1 <= num <= 10,
                forall|s: Seq<u32>|
                    solved(s) && extends(g0, s) ==> #[trigger] at(s, row as int, col as int)
                        >= num,
            decreases 10 - num,
        {
            if self.is_valid(row, col, num) {
                self.board[idx] = num;
                proof {
                    assert(self@ == place(g0, row as int, col as int, num));
                    lemma_place_keeps_legal(g0, row as int, col as int, num);
                    assert forall|x: int, y: int|
                        cell_ok(x, y) && x * 9 + y < idx + 1 implies #[trigger] at(self@, x, y)
                        != 0 by {
                        crate::grid::lemma_at_place(g0, row as int, col as int, num, x, y);
                    }
                }
                let placed = self.solve_cell(row, col + 1);
                if placed {
                    proof {
                        lemma_extends_trans(g0, place(g0, row as int, col as int, num), self@);
                        assert(solved(self@) && extends(g0, self@));
                    }
                    return true;
                }
                self.board[idx] = 0;
                proof {
                    assert(self@ =~= g0);
                    assert forall|s: Seq<u32>| solved(s) && extends(g0, s) implies #[trigger] at(
                        s,
                        row as int,
                        col as int,
                    ) >= num + 1 by {
                        if at(s, row as int, col as int) == num {
                            lemma_extension_through_place(g0, row as int, col as int, num, s);
                            assert(solvable(place(g0, row as int, col as int, num)));
                            assert(false);
                        }
                    }
                }
            } else {
                proof {
                    assert forall|s: Seq<u32>| solved(s) && extends(g0, s) implies #[trigger] at(
                        s,
                        row as int,
                        col as int,
                    ) >= num + 1 by {
                        lemma_blocked_digit(g0, row as int, col as int, num, s);
                    }
                }
            }
            num = num + 1;
        }
        self.board[idx] = 0;
        proof {
            assert(self@ =~= g0);
            if solvable(g0) {
                let s = choose|s: Seq<u32>| solved(s) && extends(g0, s);
                assert(at(s, row as int, col as int) >= 10);
                assert(at(s, row as int, col as int) <= 9);
            }
        }
        false
    }
}

impl SudokuSolver for IntegerSudoku {
    closed spec fn grid(&self) -> Seq<u32> {
        self.board@
    }

    closed spec fn wf(&self) -> bool {
        true
    }

    /// Stores the grid as given; clue legality is checked when `solve` runs.
    fn new(board: [[u32; 9]; 9]) -> (s: Self) {
        IntegerSudoku { board: flatten(&board) }
    }

    /// Rejects an out-of-range or conflicting grid (it has no solved
    /// extension), then searches from the first cell.
    fn solve(&mut self) -> (r: bool) {
        if !check_grid(&self.board) {
            proof {
                lemma_illegal_unsolvable(self@);
            }
            return false;
        }
        self.solve_cell(0, 0)
    }
}

} // verus!
