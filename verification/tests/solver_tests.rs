use sudoku::BinarySudoku;
use sudoku::IntegerSudoku;
use sudoku::SudokuSolver;

/// A fully solved reference grid.
fn solved_grid() -> [[u32; 9]; 9] {
    [
        [1, 2, 3, 4, 5, 6, 7, 8, 9],
        [4, 5, 6, 7, 8, 9, 1, 2, 3],
        [7, 8, 9, 1, 2, 3, 4, 5, 6],
        [2, 3, 4, 5, 6, 7, 8, 9, 1],
        [5, 6, 7, 8, 9, 1, 2, 3, 4],
        [8, 9, 1, 2, 3, 4, 5, 6, 7],
        [3, 4, 5, 6, 7, 8, 9, 1, 2],
        [6, 7, 8, 9, 1, 2, 3, 4, 5],
        [9, 1, 2, 3, 4, 5, 6, 7, 8],
    ]
}

/// A classic puzzle with a unique solution.
fn classic_puzzle() -> [[u32; 9]; 9] {
    [
        [0, 0, 3, 0, 2, 0, 6, 0, 0],
        [9, 0, 0, 3, 0, 5, 0, 0, 1],
        [0, 0, 1, 8, 0, 6, 4, 0, 0],
        [0, 0, 8, 1, 0, 2, 9, 0, 0],
        [7, 0, 0, 0, 0, 0, 0, 0, 8],
        [0, 0, 6, 7, 0, 8, 2, 0, 0],
        [0, 0, 2, 6, 0, 9, 5, 0, 0],
        [8, 0, 0, 2, 0, 3, 0, 0, 9],
        [0, 0, 5, 0, 1, 0, 3, 0, 0],
    ]
}

fn integer_cells(s: &IntegerSudoku) -> [[u32; 9]; 9] {
    let mut out = [[0u32; 9]; 9];
    for r in 0..9usize {
        for c in 0..9usize {
            out[r][c] = s.cell(r, c);
        }
    }
    out
}

fn binary_cells(s: &BinarySudoku) -> [[u32; 9]; 9] {
    let mut out = [[0u32; 9]; 9];
    for r in 0..9usize {
        for c in 0..9usize {
            out[r][c] = s.cell(r, c);
        }
    }
    out
}

/// Every row, column and box holds each of 1..=9 exactly once.
fn is_solved_grid(g: &[[u32; 9]; 9]) -> bool {
    for r in 0..9usize {
        let mut seen = [false; 10];
        for c in 0..9usize {
            let v = g[r][c] as usize;
            if v < 1 || v > 9 || seen[v] {
                return false;
            }
            seen[v] = true;
        }
    }
    for c in 0..9usize {
        let mut seen = [false; 10];
        for r in 0..9usize {
            let v = g[r][c] as usize;
            if v < 1 || v > 9 || seen[v] {
                return false;
            }
            seen[v] = true;
        }
    }
    for br in 0..3usize {
        for bc in 0..3usize {
            let mut seen = [false; 10];
            for p in 0..3usize {
                for q in 0..3usize {
                    let v = g[br * 3 + p][bc * 3 + q] as usize;
                    if v < 1 || v > 9 || seen[v] {
                        return false;
                    }
                    seen[v] = true;
                }
            }
        }
    }
    true
}

/// Every clue of `orig` is kept unchanged in `out`.
fn keeps_clues(orig: &[[u32; 9]; 9], out: &[[u32; 9]; 9]) -> bool {
    for r in 0..9usize {
        for c in 0..9usize {
            if orig[r][c] != 0 && out[r][c] != orig[r][c] {
                return false;
            }
        }
    }
    true
}

#[test]
fn empty_grid_integer_solver() {
    let board = [[0u32; 9]; 9];
    let mut s = IntegerSudoku::new(board);
    assert!(s.solve());
    let out = integer_cells(&s);
    assert!(is_solved_grid(&out));
}

#[test]
fn empty_grid_binary_solver() {
    let board = [[0u32; 9]; 9];
    let mut s = BinarySudoku::new(board);
    assert!(s.solve());
    let out = binary_cells(&s);
    assert!(is_solved_grid(&out));
}

#[test]
fn single_clue_integer_solver() {
    let mut board = [[0u32; 9]; 9];
    board[5][5] = 5;
    let mut s = IntegerSudoku::new(board);
    assert!(s.solve());
    let out = integer_cells(&s);
    assert!(is_solved_grid(&out));
    assert_eq!(out[5][5], 5);
}

#[test]
fn single_clue_binary_solver() {
    let mut board = [[0u32; 9]; 9];
    board[5][5] = 5;
    let mut s = BinarySudoku::new(board);
    assert!(s.solve());
    let out = binary_cells(&s);
    assert!(is_solved_grid(&out));
    assert_eq!(out[5][5], 5);
}

#[test]
fn row_conflict_integer_solver() {
    let mut board = [[0u32; 9]; 9];
    board[0][0] = 5;
    board[0][4] = 5;
    let mut s = IntegerSudoku::new(board);
    assert!(!s.solve());
    assert_eq!(integer_cells(&s), board);
}

#[test]
fn row_conflict_binary_solver() {
    let mut board = [[0u32; 9]; 9];
    board[0][0] = 5;
    board[0][4] = 5;
    let mut s = BinarySudoku::new(board);
    assert!(!s.solve());
    assert_eq!(binary_cells(&s), board);
}

#[test]
fn column_conflict_both_solvers() {
    let mut board = [[0u32; 9]; 9];
    board[1][3] = 7;
    board[8][3] = 7;
    let mut a = IntegerSudoku::new(board);
    let mut b = BinarySudoku::new(board);
    assert!(!a.solve());
    assert!(!b.solve());
}

#[test]
fn box_conflict_both_solvers() {
    let mut board = [[0u32; 9]; 9];
    board[0][0] = 3;
    board[2][2] = 3;
    let mut a = IntegerSudoku::new(board);
    let mut b = BinarySudoku::new(board);
    assert!(!a.solve());
    assert!(!b.solve());
}

#[test]
fn out_of_range_cell_both_solvers() {
    let mut board = [[0u32; 9]; 9];
    board[4][4] = 12;
    let mut a = IntegerSudoku::new(board);
    let mut b = BinarySudoku::new(board);
    assert!(!a.solve());
    assert!(!b.solve());
    assert_eq!(integer_cells(&a), board);
    assert_eq!(binary_cells(&b), board);
}

#[test]
fn solved_grid_is_kept_integer_solver() {
    let board = solved_grid();
    let mut s = IntegerSudoku::new(board);
    assert!(s.solve());
    assert_eq!(integer_cells(&s), board);
}

#[test]
fn solved_grid_is_kept_binary_solver() {
    let board = solved_grid();
    let mut s = BinarySudoku::new(board);
    assert!(s.solve());
    assert_eq!(binary_cells(&s), board);
}

#[test]
fn classic_puzzle_both_solvers() {
    let board = classic_puzzle();
    let mut a = IntegerSudoku::new(board);
    let mut b = BinarySudoku::new(board);
    assert!(a.solve());
    assert!(b.solve());
    let out_a = integer_cells(&a);
    let out_b = binary_cells(&b);
    assert!(is_solved_grid(&out_a));
    assert!(is_solved_grid(&out_b));
    assert!(keeps_clues(&board, &out_a));
    assert!(keeps_clues(&board, &out_b));
    assert_eq!(out_a, out_b);
}

#[test]
fn unique_completion_agreement() {
    let full = solved_grid();
    let mut board = full;
    board[0][0] = 0;
    board[3][4] = 0;
    board[6][8] = 0;
    board[8][2] = 0;
    let mut a = IntegerSudoku::new(board);
    let mut b = BinarySudoku::new(board);
    assert!(a.solve());
    assert!(b.solve());
    assert_eq!(integer_cells(&a), full);
    assert_eq!(binary_cells(&b), full);
}

#[test]
fn is_valid_scans_row_column_and_box() {
    let mut board = [[0u32; 9]; 9];
    board[0][0] = 5;
    let s = IntegerSudoku::new(board);
    assert!(!s.is_valid(0, 8, 5));
    assert!(!s.is_valid(8, 0, 5));
    assert!(!s.is_valid(2, 2, 5));
    assert!(s.is_valid(0, 8, 6));
    assert!(s.is_valid(4, 4, 5));
    assert!(!s.is_valid(0, 0, 5));
}

#[test]
fn solve_cell_from_first_cell() {
    let mut s = IntegerSudoku::new(classic_puzzle());
    assert!(s.solve_cell(0, 0));
    let out = integer_cells(&s);
    assert!(is_solved_grid(&out));
}

#[test]
fn solve_cell_at_end_row_reports_success() {
    let mut s = IntegerSudoku::new(solved_grid());
    assert!(s.solve_cell(9, 0));
    assert_eq!(integer_cells(&s), solved_grid());
}

#[test]
fn candidate_masks_match_reconstruction() {
    let mut board = [[0u32; 9]; 9];
    board[0][0] = 1;
    board[0][5] = 4;
    board[4][4] = 9;
    board[8][1] = 7;
    let s = BinarySudoku::new(board);
    for r in 0..9usize {
        for c in 0..9usize {
            let expected: u32 = if board[r][c] != 0 {
                1u32 << (board[r][c] - 1)
            } else {
                let mut m: u32 = 0;
                for v in 1..10u32 {
                    let mut blocked = false;
                    for k in 0..9usize {
                        if board[r][k] == v || board[k][c] == v {
                            blocked = true;
                        }
                    }
                    for p in 0..3usize {
                        for q in 0..3usize {
                            if board[(r / 3) * 3 + p][(c / 3) * 3 + q] == v {
                                blocked = true;
                            }
                        }
                    }
                    if !blocked {
                        m |= 1u32 << (v - 1);
                    }
                }
                m
            };
            assert_eq!(s.candidate_mask(r, c), expected, "cell ({}, {})", r, c);
        }
    }
}

#[test]
fn masks_stay_consistent_after_solving() {
    let mut s = BinarySudoku::new(classic_puzzle());
    assert!(s.solve());
    for r in 0..9usize {
        for c in 0..9usize {
            let d = s.cell(r, c);
            assert!(1 <= d && d <= 9);
            assert_eq!(s.candidate_mask(r, c), 1u32 << (d - 1));
        }
    }
}
