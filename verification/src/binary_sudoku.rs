//! The masked constraint-propagation solver.
//!
//! Beside the grid it keeps, for every cell, a bitmask over the nine digits:
//! bit `v` set means digit `v + 1` is still legally placeable there given the
//! digits placed so far. Placing a digit clears its bit from every cell of
//! the same row, column and box, and the search always branches on the
//! unsolved cell with the fewest remaining candidates.

use crate::grid::at;
use crate::grid::can_place;
use crate::grid::cell_ok;
use crate::grid::check_grid;
use crate::grid::complete;
use crate::grid::extends;
use crate::grid::flatten;
use crate::grid::grid_seq;
use crate::grid::legal;
use crate::grid::lemma_at_place;
use crate::grid::lemma_blocked_digit;
use crate::grid::lemma_extends_trans;
use crate::grid::lemma_extension_through_place;
use crate::grid::lemma_illegal_unsolvable;
use crate::grid::lemma_place_keeps_legal;
use crate::grid::place;
use crate::grid::sees;
use crate::grid::solvable;
use crate::grid::solved;
use crate::sudoku::SudokuSolver;
use vstd::prelude::*;

verus! {

/// Bit `v` of mask `m`: digit `v + 1` is a remaining candidate.
pub open spec fn bit(m: u32, v: u32) -> bool {
    m & (1u32 << v) != 0
}

/// How many of the nine candidate bits below `n` are set in `m`.
pub open spec fn count_bits(m: u32, n: int) -> nat
    decreases n,
{
    if n <= 0 {
        0
    } else {
        count_bits(m, n - 1) + if bit(m, (n - 1) as u32) {
            1nat
        } else {
            0nat
        }
    }
}

/// The mask invariant tying a mask matrix to a grid: for every unsolved cell
/// the mask holds exactly the digits absent from its row, column and box, and
/// for every solved cell the mask is exactly the bit of its digit.
pub open spec fn masks_good(m: Seq<u32>, g: Seq<u32>) -> bool {
    &&& m.len() == 81
    &&& g.len() == 81
    &&& forall|r: int, c: int, v: u32|
        cell_ok(r, c) && v < 9 && at(g, r, c) == 0 ==> (#[trigger] bit(at(m, r, c), v)
            <==> can_place(g, r, c, v + 1))
    &&& forall|r: int, c: int|
        cell_ok(r, c) && at(g, r, c) != 0 ==> #[trigger] at(m, r, c) == 1u32 << (sub_one(
            at(g, r, c),
        ))
}

/// The bit index of a placed digit.
pub open spec fn sub_one(d: u32) -> u32 {
    (d - 1) as u32
}

/// Clearing bit `v` leaves exactly the other bits of the mask.
proof fn lemma_bit_clear(m: u32, v: u32, w: u32)
    requires
        v < 9,
        w < 9,
    ensures
        bit(m & !(1u32 << v), w) <==> (bit(m, w) && w != v),
{
    assert((m & !(1u32 << v)) & (1u32 << w) != 0 <==> ((m & (1u32 << w) != 0) && w != v))
        by (bit_vector)
        requires
            v < 9 && w < 9,
    ;
}

/// Clearing a bit twice is the same as clearing it once.
proof fn lemma_mask_and_idem(y: u32, mask: u32)
    ensures
        (y & mask) & mask == y & mask,
{
    assert((y & mask) & mask == y & mask) by (bit_vector);
}

/// Every candidate bit is set in the all-ones starting mask.
proof fn lemma_bit_all_ones(v: u32)
    requires
        v < 9,
    ensures
        bit(0b111111111u32, v),
{
    assert(0b111111111u32 & (1u32 << v) != 0) by (bit_vector)
        requires
            v < 9,
    ;
}

/// Placing a candidate digit keeps the mask invariant: clearing the digit's
/// bit from every cell that sees the target, and pinning the target's mask to
/// that single bit, yields exactly the candidate sets of the extended grid.
/// This is the bookkeeping step of the masked solver, applied both when the
/// initial clues are entered and at every guess of the search.
pub proof fn lemma_place_keeps_masks(g: Seq<u32>, m: Seq<u32>, m2: Seq<u32>, i: int, j: int, v: u32)
    requires
        legal(g),
        masks_good(m, g),
        cell_ok(i, j),
        at(g, i, j) == 0,
        v < 9,
        bit(at(m, i, j), v),
        m2.len() == 81,
        forall|a: int, b: int|
            cell_ok(a, b) ==> #[trigger] at(m2, a, b) == (if a == i && b == j {
                1u32 << v
            } else if sees(a, b, i, j) {
                at(m, a, b) & !(1u32 << v)
            } else {
                at(m, a, b)
            }),
    ensures
        legal(place(g, i, j, (v + 1) as u32)),
        extends(g, place(g, i, j, (v + 1) as u32)),
        masks_good(m2, place(g, i, j, (v + 1) as u32)),
{
    let v1 = (v + 1) as u32;
    assert(can_place(g, i, j, v1 as int));
    lemma_place_keeps_legal(g, i, j, v1);
    let g1 = place(g, i, j, v1);
    assert forall|a: int, b: int| cell_ok(a, b) implies #[trigger] at(g1, a, b) == (if a == i && b
        == j {
        v1
    } else {
        at(g, a, b)
    }) by {
        lemma_at_place(g, i, j, v1, a, b);
    }
    // Solved cells carry exactly their digit's bit.
    assert forall|a: int, b: int| cell_ok(a, b) && at(g1, a, b) != 0 implies #[trigger] at(
        m2,
        a,
        b,
    ) == 1u32 << (sub_one(at(g1, a, b))) by {
        if a == i && b == j {
            assert(sub_one(v1) == v);
        } else {
            let d = at(g, a, b);
            assert(at(m, a, b) == 1u32 << sub_one(d));
            assert(1 <= d <= 9);
            if sees(a, b, i, j) {
                assert(sees(i, j, a, b));
                assert(d != v1 as int);
                let wd = sub_one(d);
                assert(wd != v && wd < 9);
                assert((1u32 << wd) & !(1u32 << v) == 1u32 << wd) by (bit_vector)
                    requires
                        wd < 9 && v < 9 && wd != v,
                ;
            }
        }
    }
    // Unsolved cells hold exactly the candidate sets of the extended grid.
    assert forall|a: int, b: int, w: u32|
        cell_ok(a, b) && w < 9 && at(g1, a, b) == 0 implies (#[trigger] bit(at(m2, a, b), w)
        <==> can_place(g1, a, b, w + 1)) by {
        assert(!(a == i && b == j));
        assert(at(g, a, b) == 0);
        assert(bit(at(m, a, b), w) <==> can_place(g, a, b, w + 1));
        if sees(a, b, i, j) {
            lemma_bit_clear(at(m, a, b), v, w);
            assert(bit(at(m2, a, b), w) <==> (bit(at(m, a, b), w) && w != v));
            if bit(at(m2, a, b), w) {
                assert(can_place(g, a, b, w + 1) && w != v);
                assert forall|x: int, y: int|
                    cell_ok(x, y) && sees(a, b, x, y) implies #[trigger] at(g1, x, y) != w + 1 by {
                    if x == i && y == j {
                        assert(at(g1, x, y) == v1);
                    } else {
                        assert(at(g1, x, y) == at(g, x, y));
                    }
                }
            } else {
                if can_place(g1, a, b, w + 1) {
                    if w == v {
                        assert(at(g1, i, j) == v1);
                        assert(sees(a, b, i, j));
                        assert(at(g1, i, j) != w + 1);
                        assert(false);
                    } else {
                        assert forall|x: int, y: int|
                            cell_ok(x, y) && sees(a, b, x, y) implies #[trigger] at(g, x, y) != w
                            + 1 by {
                            if x == i && y == j {
                                assert(at(g, x, y) == 0);
                            } else {
                                assert(at(g1, x, y) == at(g, x, y));
                            }
                        }
                        assert(bit(at(m, a, b), w));
                        assert(false);
                    }
                }
            }
        } else {
            assert(at(m2, a, b) == at(m, a, b));
            if bit(at(m2, a, b), w) {
                assert forall|x: int, y: int|
                    cell_ok(x, y) && sees(a, b, x, y) implies #[trigger] at(g1, x, y) != w + 1 by {
                    if x == i && y == j {
                        assert(false);
                    } else {
                        assert(at(g1, x, y) == at(g, x, y));
                    }
                }
            } else {
                if can_place(g1, a, b, w + 1) {
                    assert forall|x: int, y: int|
                        cell_ok(x, y) && sees(a, b, x, y) implies #[trigger] at(g, x, y) != w
                        + 1 by {
                        if x == i && y == j {
                            assert(at(g, x, y) == 0);
                        } else {
                            assert(at(g1, x, y) == at(g, x, y));
                        }
                    }
                    assert(false);
                }
            }
        }
    }
}

/// The first `n` cells of `g` with all later cells still empty.
spec fn prefix_grid(g: Seq<u32>, n: int) -> Seq<u32> {
    Seq::new(
        81,
        |k: int|
            if k < n {
                g[k]
            } else {
                0u32
            },
    )
}

/// Truncating a legal grid (emptying a suffix of its cells) keeps it legal.
proof fn lemma_prefix_legal(g: Seq<u32>, n: int)
    requires
        legal(g),
    ensures
        legal(prefix_grid(g, n)),
{
    let p = prefix_grid(g, n);
    assert forall|r: int, c: int| cell_ok(r, c) implies #[trigger] at(p, r, c) <= 9 by {
        if r * 9 + c < n {
            assert(at(p, r, c) == at(g, r, c));
        }
    }
    assert forall|r1: int, c1: int, r2: int, c2: int|
        cell_ok(r1, c1) && cell_ok(r2, c2) && !(r1 == r2 && c1 == c2) && sees(r1, c1, r2, c2)
            && #[trigger] at(p, r1, c1) != 0 implies at(p, r1, c1) != #[trigger] at(
        p,
        r2,
        c2,
    ) by {
        assert(at(p, r1, c1) == at(g, r1, c1));
        if at(p, r2, c2) != 0 {
            assert(at(p, r2, c2) == at(g, r2, c2));
        }
    }
}

/// How many of the first `n` cells are empty.
spec fn zeros_upto(g: Seq<u32>, n: int) -> nat
    decreases n,
{
    if n <= 0 {
        0
    } else {
        zeros_upto(g, n - 1) + if g[n - 1] == 0 {
            1nat
        } else {
            0nat
        }
    }
}

/// How many cells of the grid are empty: the search's termination measure.
spec fn num_zeros(g: Seq<u32>) -> nat {
    zeros_upto(g, 81)
}

/// Filling an empty cell lowers the count of empty cells by one.
proof fn lemma_zeros_update(g: Seq<u32>, k: int, v: u32, n: int)
    requires
        0 <= k < g.len(),
        v != 0,
        g[k] == 0,
        0 <= n <= g.len(),
    ensures
        zeros_upto(g, n) == zeros_upto(g.update(k, v), n) + if k < n {
            1nat
        } else {
            0nat
        },
    decreases n,
{
    if n > 0 {
        lemma_zeros_update(g, k, v, n - 1);
    }
}

/// A row of cells and a row of the box lie in the same band exactly when
/// their indices agree after division by three.
proof fn lemma_box_membership(i: int, a: int)
    by (nonlinear_arith)
    requires
        0 <= i < 9,
        0 <= a < 9,
    ensures
        ((i / 3) * 3 <= a < (i / 3) * 3 + 3) <==> (a / 3 == i / 3),
{
}

/// How many candidate bits a mask holds.
fn popcount9(m: u32) -> (c: u32)
    ensures
        c as nat == count_bits(m, 9),
        c <= 9,
{
    let mut c: u32 = 0;
    for v in 0..9u32
        invariant
            c as nat == count_bits(m, v as int),
            c <= v,
    {
        if m & (1u32 << v) != 0 {
            c = c + 1;
        }
    }
    c
}

/// The masked solver: the grid and one candidate bitmask per cell.
pub struct BinarySudoku {
    masks: [u32; 81],
    board: [u32; 81],
}

impl BinarySudoku {
    /// The mask matrix, for stating the mask invariant from outside.
    pub closed spec fn masks_model(&self) -> Seq<u32> {
        self.masks@
    }

    /// A well-formed solver on a legal grid keeps the mask invariant: every
    /// unsolved cell's mask is exactly the set of digits absent from its row,
    /// column and box, and every solved cell's mask is its digit's bit.
    pub proof fn lemma_wf_masks(&self)
        requires
            self.wf(),
            legal(self.grid()),
        ensures
            masks_good(self.masks_model(), self.grid()),
    {
    }

    /// The digit currently at (`row`, `col`); 0 when the cell is empty.
    pub fn cell(&self, row: usize, col: usize) -> (v: u32)
        requires
            row < 9,
            col < 9,
        ensures
            v == at(self.grid(), row as int, col as int),
    {
        self.board[row * 9 + col]
    }

    /// The candidate mask currently at (`row`, `col`).
    pub fn candidate_mask(&self, row: usize, col: usize) -> (m: u32)
        requires
            row < 9,
            col < 9,
        ensures
            m == at(self.masks_model(), row as int, col as int),
    {
        self.masks[row * 9 + col]
    }

    /// The placement primitive: records digit `value + 1` at (`i`, `j`),
    /// clears bit `value` from the mask of every cell sharing the row, the
    /// column or the box, then pins the target cell's mask to that bit alone.
    fn assert_cell(&mut self, i: usize, j: usize, value: u32)
        requires
            i < 9,
            j < 9,
            value < 9,
        ensures
            final(self).board@ == place(old(self).board@, i as int, j as int, (value + 1) as u32),
            forall|a: int, b: int|
                cell_ok(a, b) ==> #[trigger] at(final(self).masks@, a, b) == (if a == i && b == j {
                    1u32 << value
                } else if sees(a, b, i as int, j as int) {
                    at(old(self).masks@, a, b) & !(1u32 << value)
                } else {
                    at(old(self).masks@, a, b)
                }),
    {
        self.board[i * 9 + j] = value + 1;
        let mask: u32 = !(1u32 << value);
        for x in 0..9usize
            invariant
                i < 9,
                j < 9,
                value < 9,
                mask == !(1u32 << value),
                self.board@ == place(old(self).board@, i as int, j as int, (value + 1) as u32),
                forall|a: int, b: int|
                    cell_ok(a, b) ==> #[trigger] at(self.masks@, a, b) == (if (a == i && b < x) || (
                    b == j && a < x) {
                        at(old(self).masks@, a, b) & mask
                    } else {
                        at(old(self).masks@, a, b)
                    }),
        {
            let ghost mpre = self.masks@;
            let cur = self.masks[i * 9 + x];
            self.masks[i * 9 + x] = cur & mask;
            let cur2 = self.masks[x * 9 + j];
            self.masks[x * 9 + j] = cur2 & mask;
            proof {
                assert forall|a: int, b: int| cell_ok(a, b) implies #[trigger] at(self.masks@, a, b)
                    == (if (a == i && b < x + 1) || (b == j && a < x + 1) {
                    at(old(self).masks@, a, b) & mask
                } else {
                    at(old(self).masks@, a, b)
                }) by {
                    assert(at(mpre, a, b) == (if (a == i && b < x) || (b == j && a < x) {
                        at(old(self).masks@, a, b) & mask
                    } else {
                        at(old(self).masks@, a, b)
                    }));
                    assert(cur == at(mpre, i as int, x as int));
                    lemma_mask_and_idem(at(old(self).masks@, a, b), mask);
                }
            }
        }
        let row_start = (i / 3) * 3;
        let col_start = (j / 3) * 3;
        for p in 0..3usize
            invariant
                i < 9,
                j < 9,
                value < 9,
                mask == !(1u32 << value),
                row_start == (i / 3) * 3,
                col_start == (j / 3) * 3,
                self.board@ == place(old(self).board@, i as int, j as int, (value + 1) as u32),
                forall|a: int, b: int|
                    cell_ok(a, b) ==> #[trigger] at(self.masks@, a, b) == (if a == i || b == j || (
                    row_start <= a < row_start + 3 && col_start <= b < col_start + 3 && a
                        - row_start < p) {
                        at(old(self).masks@, a, b) & mask
                    } else {
                        at(old(self).masks@, a, b)
                    }),
        {
            for q in 0..3usize
                invariant
                    i < 9,
                    j < 9,
                    value < 9,
                    p < 3,
                    mask == !(1u32 << value),
                    row_start == (i / 3) * 3,
                    col_start == (j / 3) * 3,
                    self.board@ == place(old(self).board@, i as int, j as int, (value + 1) as u32),
                    forall|a: int, b: int|
                        cell_ok(a, b) ==> #[trigger] at(self.masks@, a, b) == (if a == i || b == j
                            || (row_start <= a < row_start + 3 && col_start <= b < col_start + 3
                            && (a - row_start < p || (a - row_start == p && b - col_start < q))) {
                            at(old(self).masks@, a, b) & mask
                        } else {
                            at(old(self).masks@, a, b)
                        }),
            {
                let ghost mpre = self.masks@;
                let cur = self.masks[(row_start + p) * 9 + (col_start + q)];
                self.masks[(row_start + p) * 9 + (col_start + q)] = cur & mask;
                proof {
                    assert forall|a: int, b: int| cell_ok(a, b) implies #[trigger] at(
                        self.masks@,
                        a,
                        b,
                    ) == (if a == i || b == j || (row_start <= a < row_start + 3 && col_start <= b
                        < col_start + 3 && (a - row_start < p || (a - row_start == p && b
                        - col_start < q + 1))) {
                        at(old(self).masks@, a, b) & mask
                    } else {
                        at(old(self).masks@, a, b)
                    }) by {
                        assert(at(mpre, a, b) == (if a == i || b == j || (row_start <= a
                            < row_start + 3 && col_start <= b < col_start + 3 && (a - row_start < p
                            || (a - row_start == p && b - col_start < q))) {
                            at(old(self).masks@, a, b) & mask
                        } else {
                            at(old(self).masks@, a, b)
                        }));
                        assert(cur == at(mpre, row_start + p, col_start + q));
                        lemma_mask_and_idem(at(old(self).masks@, a, b), mask);
                    }
                }
            }
        }
        let ghost mpre = self.masks@;
        self.masks[i * 9 + j] = 1u32 << value;
        proof {
            assert forall|a: int, b: int| cell_ok(a, b) implies #[trigger] at(
                final(self).masks@,
                a,
                b,
            ) == (if a == i && b == j {
                1u32 << value
            } else if sees(a, b, i as int, j as int) {
                at(old(self).masks@, a, b) & !(1u32 << value)
            } else {
                at(old(self).masks@, a, b)
            }) by {
                assert(at(mpre, a, b) == (if a == i || b == j || (row_start <= a < row_start + 3
                    && col_start <= b < col_start + 3 && a - row_start < 3) {
                    at(old(self).masks@, a, b) & mask
                } else {
                    at(old(self).masks@, a, b)
                }));
                lemma_box_membership(i as int, a);
                lemma_box_membership(j as int, b);
            }
        }
    }

    /// Scans all cells and returns the unsolved cell with the fewest
    /// remaining candidates, ties broken by first position in row-major
    /// order; `None` when every cell is solved.
    fn find_best_cell(&self) -> (r: Option<(usize, usize)>)
        ensures
            r is None ==> complete(self.board@),
            r matches Some(p) ==> {
                &&& p.0 < 9 && p.1 < 9
                &&& at(self.board@, p.0 as int, p.1 as int) == 0
                &&& forall|a: int, b: int|
                    cell_ok(a, b) && at(self.board@, a, b) == 0 ==> count_bits(
                        at(self.masks@, p.0 as int, p.1 as int),
                        9,
                    ) <= #[trigger] count_bits(at(self.masks@, a, b), 9)
                &&& forall|a: int, b: int|
                    cell_ok(a, b) && at(self.board@, a, b) == 0 && a * 9 + b < p.0 * 9 + p.1
                        ==> count_bits(at(self.masks@, p.0 as int, p.1 as int), 9)
                        < #[trigger] count_bits(at(self.masks@, a, b), 9)
            },
    {
        let mut best: Option<(usize, usize)> = None;
        let mut best_n: u32 = 10;
        for i in 0..9usize
            invariant
                best is None ==> best_n == 10 && crate::grid::prefix_filled(
                    self.board@,
                    i as int * 9,
                ),
                best matches Some(p) ==> {
                    &&& p.0 < 9 && p.1 < 9
                    &&& p.0 * 9 + p.1 < i as int * 9
                    &&& at(self.board@, p.0 as int, p.1 as int) == 0
                    &&& best_n as nat == count_bits(at(self.masks@, p.0 as int, p.1 as int), 9)
                    &&& best_n <= 9
                    &&& forall|a: int, b: int|
                        cell_ok(a, b) && a * 9 + b < i as int * 9 && at(self.board@, a, b) == 0
                            ==> best_n as nat <= #[trigger] count_bits(at(self.masks@, a, b), 9)
                    &&& forall|a: int, b: int|
                        cell_ok(a, b) && a * 9 + b < p.0 * 9 + p.1 && at(self.board@, a, b) == 0
                            ==> (best_n as nat) < #[trigger] count_bits(at(self.masks@, a, b), 9)
                },
        {
            for j in 0..9usize
                invariant
                    i < 9,
                    best is None ==> best_n == 10 && crate::grid::prefix_filled(
                        self.board@,
                        i as int * 9 + j,
                    ),
                    best matches Some(p) ==> {
                        &&& p.0 < 9 && p.1 < 9
                        &&& p.0 * 9 + p.1 < i as int * 9 + j
                        &&& at(self.board@, p.0 as int, p.1 as int) == 0
                        &&& best_n as nat == count_bits(at(self.masks@, p.0 as int, p.1 as int), 9)
                        &&& best_n <= 9
                        &&& forall|a: int, b: int|
                            cell_ok(a, b) && a * 9 + b < i as int * 9 + j && at(self.board@, a, b)
                                == 0 ==> best_n as nat <= #[trigger] count_bits(
                                at(self.masks@, a, b),
                                9,
                            )
                        &&& forall|a: int, b: int|
                            cell_ok(a, b) && a * 9 + b < p.0 * 9 + p.1 && at(self.board@, a, b)
                                == 0 ==> (best_n as nat) < #[trigger] count_bits(
                                at(self.masks@, a, b),
                                9,
                            )
                    },
            {
                if self.board[i * 9 + j] == 0 {
                    let n = popcount9(self.masks[i * 9 + j]);
                    if n < best_n {
                        best_n = n;
                        best = Some((i, j));
                    }
                }
            }
        }
        proof {
            if best is None {
                assert forall|a: int, b: int| cell_ok(a, b) implies #[trigger] at(
                    self.board@,
                    a,
                    b,
                ) != 0 by {
                    assert(a * 9 + b < 81);
                }
            }
        }
        best
    }

    /// The recursive search: branch on the most constrained unsolved cell,
    /// snapshot the mask matrix, try each remaining candidate, and restore
    /// the snapshot after every failed guess. Returns true exactly when the
    /// current grid has a solved extension; on false both the grid and the
    /// masks are left as they were.
    fn solve_rec(&mut self) -> (r: bool)
        requires
            legal(old(self).board@),
            masks_good(old(self).masks@, old(self).board@),
        ensures
            r <==> solvable(old(self).board@),
            r ==> solved(final(self).board@) && extends(old(self).board@, final(self).board@)
                && masks_good(final(self).masks@, final(self).board@),
            !r ==> final(self).board@ == old(self).board@ && final(self).masks@ == old(
                self,
            ).masks@,
        decreases num_zeros(old(self).board@),
    {
        let best = self.find_best_cell();
        let (bi, bj) = match best {
            None => {
                proof {
                    assert(solved(self.board@));
                    assert(extends(self.board@, self.board@));
                }
                return true;
            },
            Some(p) => p,
        };
        let ghost g0 = self.board@;
        let ghost m0 = self.masks@;
        let prev_masks: [u32; 81] = self.masks;
        let mut value: u32 = 0;
        while value < 9
            invariant
                legal(g0),
                masks_good(m0, g0),
                g0 == old(self).board@,
                m0 == old(self).masks@,
                bi < 9,
                bj < 9,
                at(g0, bi as int, bj as int) == 0,
                prev_masks@ == m0,
                self.masks@ == m0,
                self.board@.len() == 81,
                forall|k: int|
                    0 <= k < 81 && k != bi * 9 + bj ==> #[trigger] self.board@[k] == g0[k],
                value <= 9,
                forall|s: Seq<u32>|
                    solved(s) && extends(g0, s) ==> #[trigger] at(s, bi as int, bj as int) > value,
            decreases 9 - value,
        {
            let vmask: u32 = 1u32 << value;
            if self.masks[bi * 9 + bj] & vmask != 0 {
                proof {
                    assert(bit(at(m0, bi as int, bj as int), value));
                }
                let ghost gpre = self.board@;
                self.assert_cell(bi, bj, value);
                proof {
                    assert(self.board@ == place(gpre, bi as int, bj as int, (value + 1) as u32));
                    assert(self.board@ =~= place(g0, bi as int, bj as int, (value + 1) as u32));
                    lemma_place_keeps_masks(g0, m0, self.masks@, bi as int, bj as int, value);
                    lemma_zeros_update(g0, bi as int * 9 + bj, (value + 1) as u32, 81);
                }
                let sub = self.solve_rec();
                if sub {
                    proof {
                        lemma_extends_trans(
                            g0,
                            place(g0, bi as int, bj as int, (value + 1) as u32),
                            self.board@,
                        );
                        assert(solved(self.board@) && extends(g0, self.board@));
                    }
                    return true;
                }
                self.masks = prev_masks;
                proof {
                    assert forall|s: Seq<u32>| solved(s) && extends(g0, s) implies #[trigger] at(
                        s,
                        bi as int,
                        bj as int,
                    ) > value + 1 by {
                        if at(s, bi as int, bj as int) == value + 1 {
                            lemma_extension_through_place(
                                g0,
                                bi as int,
                                bj as int,
                                (value + 1) as u32,
                                s,
                            );
                            assert(solvable(place(g0, bi as int, bj as int, (value + 1) as u32)));
                            assert(false);
                        }
                    }
                }
            } else {
                proof {
                    assert(!bit(at(m0, bi as int, bj as int), value));
                    assert(!can_place(g0, bi as int, bj as int, value + 1));
                    assert forall|s: Seq<u32>| solved(s) && extends(g0, s) implies #[trigger] at(
                        s,
                        bi as int,
                        bj as int,
                    ) > value + 1 by {
                        lemma_blocked_digit(g0, bi as int, bj as int, (value + 1) as u32, s);
                    }
                }
            }
            value = value + 1;
        }
        self.board[bi * 9 + bj] = 0;
        proof {
            assert(self.board@ =~= g0);
            if solvable(g0) {
                let s = choose|s: Seq<u32>| solved(s) && extends(g0, s);
                assert(at(s, bi as int, bj as int) > 9);
                assert(at(s, bi as int, bj as int) <= 9);
            }
        }
        false
    }
}

impl SudokuSolver for BinarySudoku {
    closed spec fn grid(&self) -> Seq<u32> {
        self.board@
    }

    closed spec fn wf(&self) -> bool {
        legal(self.board@) ==> masks_good(self.masks@, self.board@)
    }

    /// Validates the grid first: on a legal grid every clue is entered
    /// through the placement primitive, deriving the masks; an out-of-range
    /// or conflicting grid is stored untouched and `solve` then reports it
    /// unsolvable instead of corrupting the masks.
    fn new(board: [[u32; 9]; 9]) -> (s: Self) {
        let flat = flatten(&board);
        if !check_grid(&flat) {
            return BinarySudoku { masks: [0b111111111u32; 81], board: flat };
        }
        let mut s = BinarySudoku { masks: [0b111111111u32; 81], board: [0u32; 81] };
        proof {
            assert(s.board@ =~= prefix_grid(flat@, 0));
            lemma_prefix_legal(flat@, 0);
            assert forall|r: int, c: int, v: u32|
                cell_ok(r, c) && v < 9 && at(s.board@, r, c) == 0 implies (#[trigger] bit(
                at(s.masks@, r, c),
                v,
            ) <==> can_place(s.board@, r, c, v + 1)) by {
                lemma_bit_all_ones(v);
                assert(at(s.masks@, r, c) == 0b111111111u32);
                assert forall|a: int, b: int| cell_ok(a, b) implies #[trigger] at(s.board@, a, b)
                    != v + 1 by {
                    assert(at(s.board@, a, b) == 0);
                }
            }
            assert(masks_good(s.masks@, s.board@));
        }
        for r in 0..9usize
            invariant
                legal(flat@),
                s.board@ == prefix_grid(flat@, r as int * 9),
                legal(s.board@),
                masks_good(s.masks@, s.board@),
        {
            for c in 0..9usize
                invariant
                    r < 9,
                    legal(flat@),
                    s.board@ == prefix_grid(flat@, r as int * 9 + c),
                    legal(s.board@),
                    masks_good(s.masks@, s.board@),
            {
                let v = flat[r * 9 + c];
                if v != 0 {
                    let ghost gpre = s.board@;
                    let ghost mpre = s.masks@;
                    proof {
                        assert(at(flat@, r as int, c as int) == v);
                        assert(1 <= v <= 9);
                        assert(at(gpre, r as int, c as int) == 0);
                        assert(can_place(gpre, r as int, c as int, v as int)) by {
                            assert forall|x: int, y: int|
                                cell_ok(x, y) && sees(r as int, c as int, x, y) implies #[trigger]
                            at(gpre, x, y) != v as int by {
                                if x * 9 + y < r as int * 9 + c {
                                    assert(at(gpre, x, y) == at(flat@, x, y));
                                    if at(flat@, x, y) == v as int {
                                        assert(!(x == r as int && y == c as int));
                                        assert(at(flat@, r as int, c as int) != at(flat@, x, y));
                                    }
                                } else {
                                    assert(at(gpre, x, y) == 0);
                                }
                            }
                        }
                        assert(bit(at(mpre, r as int, c as int), (v - 1) as u32));
                    }
                    s.assert_cell(r, c, v - 1);
                    proof {
                        lemma_place_keeps_masks(
                            gpre,
                            mpre,
                            s.masks@,
                            r as int,
                            c as int,
                            (v - 1) as u32,
                        );
                        assert(s.board@ == place(gpre, r as int, c as int, v));
                        assert(s.board@ =~= prefix_grid(flat@, r as int * 9 + c + 1));
                    }
                } else {
                    proof {
                        assert(s.board@ =~= prefix_grid(flat@, r as int * 9 + c + 1));
                    }
                }
            }
        }
        proof {
            assert(s.board@ =~= flat@);
            assert(flat@ == grid_seq(board));
        }
        s
    }

    /// Rejects an out-of-range or conflicting grid (it has no solved
    /// extension), then runs the masked search.
    fn solve(&mut self) -> (r: bool) {
        if !check_grid(&self.board) {
            proof {
                lemma_illegal_unsolvable(self.board@);
            }
            return false;
        }
        self.solve_rec()
    }
}

} // verus!
