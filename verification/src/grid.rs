//! The mathematical model of a 9x9 Sudoku grid and the lemmas shared by the
//! two solver variants.
//!
//! A grid is modelled as a flat row-major sequence of 81 cells; a cell holds
//! 0 when empty and a digit 1..=9 once placed. The key predicates are
//! [`consistent`] (no placed digit is repeated in a row, column or box),
//! [`solved`] (complete and consistent), [`extends`] (every placed digit of
//! one grid is kept by another) and [`solvable`] (a solved extension exists).

use vstd::prelude::*;
use vstd::set_lib::lemma_len_subset;

verus! {

/// The cell of grid `g` at row `r`, column `c`, in the flat row-major layout.
pub open spec fn at(g: Seq<u32>, r: int, c: int) -> u32 {
    g[r * 9 + c]
}

/// Row and column indices that lie on the board.
pub open spec fn cell_ok(r: int, c: int) -> bool {
    0 <= r < 9 && 0 <= c < 9
}

/// Two cells constrain each other: same row, same column, or same 3x3 box.
pub open spec fn sees(r1: int, c1: int, r2: int, c2: int) -> bool {
    r1 == r2 || c1 == c2 || (r1 / 3 == r2 / 3 && c1 / 3 == c2 / 3)
}

/// Every cell holds 0 (empty) or a digit 1..=9.
pub open spec fn in_range(g: Seq<u32>) -> bool {
    g.len() == 81 && forall|r: int, c: int| cell_ok(r, c) ==> #[trigger] at(g, r, c) <= 9
}

/// Every cell holds a digit (no cell is empty).
pub open spec fn complete(g: Seq<u32>) -> bool {
    g.len() == 81 && forall|r: int, c: int| cell_ok(r, c) ==> #[trigger] at(g, r, c) != 0
}

/// No placed digit is repeated among cells that see each other.
pub open spec fn consistent(g: Seq<u32>) -> bool {
    forall|r1: int, c1: int, r2: int, c2: int|
        cell_ok(r1, c1) && cell_ok(r2, c2) && !(r1 == r2 && c1 == c2) && sees(r1, c1, r2, c2)
            && #[trigger] at(g, r1, c1) != 0 ==> at(g, r1, c1) != #[trigger] at(g, r2, c2)
}

/// A grid a caller may hand to a solver without the solver rejecting it:
/// all cells in range and no conflicting clues.
pub open spec fn legal(g: Seq<u32>) -> bool {
    in_range(g) && consistent(g)
}

/// A fully solved grid: complete, in range, and free of conflicts.
pub open spec fn solved(g: Seq<u32>) -> bool {
    in_range(g) && complete(g) && consistent(g)
}

/// `g1` keeps every digit already placed in `g0` (it may fill empty cells).
pub open spec fn extends(g0: Seq<u32>, g1: Seq<u32>) -> bool {
    g0.len() == 81 && g1.len() == 81 && forall|r: int, c: int|
        cell_ok(r, c) && #[trigger] at(g0, r, c) != 0 ==> at(g1, r, c) == at(g0, r, c)
}

/// Some solved grid completes `g` while keeping all of `g`'s placed digits.
pub open spec fn solvable(g: Seq<u32>) -> bool {
    exists|s: Seq<u32>| solved(s) && extends(g, s)
}

/// Digit `v` may be placed at (`r`, `c`): no cell seeing (`r`, `c`) holds it.
pub open spec fn can_place(g: Seq<u32>, r: int, c: int, v: int) -> bool {
    forall|a: int, b: int| cell_ok(a, b) && sees(r, c, a, b) ==> #[trigger] at(g, a, b) != v
}

/// The grid `g` with digit `v` written at (`r`, `c`).
pub open spec fn place(g: Seq<u32>, r: int, c: int, v: u32) -> Seq<u32> {
    g.update(r * 9 + c, v)
}

/// All cells strictly before flat index `n` in row-major order are filled.
pub open spec fn prefix_filled(g: Seq<u32>, n: int) -> bool {
    forall|r: int, c: int| cell_ok(r, c) && r * 9 + c < n ==> #[trigger] at(g, r, c) != 0
}

/// The flat row-major model of a 9x9 input array.
pub open spec fn grid_seq(b: [[u32; 9]; 9]) -> Seq<u32> {
    Seq::new(81, |k: int| b@[k / 9]@[k % 9])
}

/// Distinct on-board cells have distinct flat indices.
pub proof fn lemma_flat_index_injective(r: int, c: int, a: int, b: int)
    requires
        cell_ok(r, c),
        cell_ok(a, b),
    ensures
        (r * 9 + c == a * 9 + b) <==> (r == a && c == b),
{
}

/// Reading a cell of `place(g, r, c, v)`: the written cell holds `v`, every
/// other cell is unchanged.
pub proof fn lemma_at_place(g: Seq<u32>, r: int, c: int, v: u32, a: int, b: int)
    requires
        g.len() == 81,
        cell_ok(r, c),
        cell_ok(a, b),
    ensures
        at(place(g, r, c, v), a, b) == if a == r && b == c { v } else { at(g, a, b) },
{
    lemma_flat_index_injective(r, c, a, b);
}

/// Writing a placeable digit into an empty cell keeps the grid consistent
/// and in range.
pub proof fn lemma_place_keeps_legal(g: Seq<u32>, r: int, c: int, v: u32)
    requires
        legal(g),
        cell_ok(r, c),
        at(g, r, c) == 0,
        1 <= v <= 9,
        can_place(g, r, c, v as int),
    ensures
        legal(place(g, r, c, v)),
        extends(g, place(g, r, c, v)),
{
    let g1 = place(g, r, c, v);
    assert forall|a: int, b: int| cell_ok(a, b) implies #[trigger] at(g1, a, b) <= 9 by {
        lemma_at_place(g, r, c, v, a, b);
    }
    assert forall|a: int, b: int| cell_ok(a, b) && #[trigger] at(g, a, b) != 0 implies at(g1, a, b)
        == at(g, a, b) by {
        lemma_at_place(g, r, c, v, a, b);
    }
    assert forall|r1: int, c1: int, r2: int, c2: int|
        cell_ok(r1, c1) && cell_ok(r2, c2) && !(r1 == r2 && c1 == c2) && sees(r1, c1, r2, c2)
            && #[trigger] at(g1, r1, c1) != 0 implies at(g1, r1, c1) != #[trigger] at(
        g1,
        r2,
        c2,
    ) by {
        lemma_at_place(g, r, c, v, r1, c1);
        lemma_at_place(g, r, c, v, r2, c2);
        if r1 == r && c1 == c {
            assert(sees(r, c, r2, c2));
            assert(at(g, r2, c2) != v as int);
        } else if r2 == r && c2 == c {
            assert(sees(r2, c2, r1, c1));
            assert(sees(r, c, r1, c1));
            assert(at(g, r1, c1) != v as int);
        } else {
            assert(at(g1, r1, c1) == at(g, r1, c1));
            assert(at(g1, r2, c2) == at(g, r2, c2));
        }
    }
}

/// A digit blocked by a cell that sees (`r`, `c`) cannot stand at (`r`, `c`)
/// in any solved extension.
pub proof fn lemma_blocked_digit(g: Seq<u32>, r: int, c: int, v: u32, s: Seq<u32>)
    requires
        g.len() == 81,
        cell_ok(r, c),
        at(g, r, c) == 0,
        1 <= v <= 9,
        !can_place(g, r, c, v as int),
        solved(s),
        extends(g, s),
    ensures
        at(s, r, c) != v,
{
    let (a, b) = choose|a: int, b: int|
        cell_ok(a, b) && sees(r, c, a, b) && #[trigger] at(g, a, b) == v as int;
    assert(at(s, a, b) == v);
    if at(s, r, c) == v {
        assert(!(a == r && b == c));
        assert(sees(a, b, r, c) || sees(r, c, a, b));
        assert(at(s, a, b) != at(s, r, c));
    }
}

/// A solved extension that places `v` at the empty cell (`r`, `c`) is also an
/// extension of the grid with `v` written there.
pub proof fn lemma_extension_through_place(g: Seq<u32>, r: int, c: int, v: u32, s: Seq<u32>)
    requires
        g.len() == 81,
        cell_ok(r, c),
        at(g, r, c) == 0,
        v != 0,
        extends(g, s),
        at(s, r, c) == v,
    ensures
        extends(place(g, r, c, v), s),
{
    assert forall|a: int, b: int|
        cell_ok(a, b) && #[trigger] at(place(g, r, c, v), a, b) != 0 implies at(s, a, b) == at(
        place(g, r, c, v),
        a,
        b,
    ) by {
        lemma_at_place(g, r, c, v, a, b);
    }
}

/// Extending is transitive.
pub proof fn lemma_extends_trans(g0: Seq<u32>, g1: Seq<u32>, g2: Seq<u32>)
    requires
        extends(g0, g1),
        extends(g1, g2),
    ensures
        extends(g0, g2),
{
}

/// A grid that is out of range or holds conflicting clues has no solved
/// extension: the offending digits persist in every extension.
pub proof fn lemma_illegal_unsolvable(g: Seq<u32>)
    requires
        g.len() == 81,
        !legal(g),
    ensures
        !solvable(g),
{
    assert forall|s: Seq<u32>| solved(s) implies !extends(g, s) by {
        if extends(g, s) {
            if !in_range(g) {
                let (r, c) = choose|r: int, c: int| cell_ok(r, c) && #[trigger] at(g, r, c) > 9;
                assert(at(s, r, c) == at(g, r, c));
                assert(at(s, r, c) <= 9);
            } else {
                let (r1, c1, r2, c2) = choose|r1: int, c1: int, r2: int, c2: int|
                    cell_ok(r1, c1) && cell_ok(r2, c2) && !(r1 == r2 && c1 == c2)
                        && sees(r1, c1, r2, c2) && #[trigger] at(g, r1, c1) != 0
                        && at(g, r1, c1) == #[trigger] at(g, r2, c2);
                assert(at(s, r1, c1) == at(g, r1, c1));
                assert(at(s, r2, c2) == at(g, r2, c2));
                assert(at(s, r1, c1) != at(s, r2, c2));
            }
        }
    }
}

/// A length-81 sequence that matches a 9x9 board cell by cell is its flat
/// row-major model.
pub proof fn lemma_grid_seq_pointwise(g: Seq<u32>, b: [[u32; 9]; 9])
    requires
        g.len() == 81,
        forall|r: int, c: int| cell_ok(r, c) ==> #[trigger] at(g, r, c) == b@[r]@[c],
    ensures
        g == grid_seq(b),
{
    assert forall|k: int| 0 <= k < 81 implies g[k] == grid_seq(b)[k] by {
        let r = k / 9;
        let c = k % 9;
        assert(cell_ok(r, c) && r * 9 + c == k) by (nonlinear_arith)
            requires
                0 <= k < 81 && r == k / 9 && c == k % 9,
        ;
        assert(at(g, r, c) == b@[r]@[c]);
    }
    assert(g =~= grid_seq(b));
}

/// Copies a 9x9 board into its flat row-major form.
pub(crate) fn flatten(b: &[[u32; 9]; 9]) -> (g: [u32; 81])
    ensures
        g@ == grid_seq(*b),
{
    let mut g = [0u32; 81];
    for r in 0..9usize
        invariant
            forall|x: int, y: int| cell_ok(x, y) && x < r ==> #[trigger] at(g@, x, y) == b@[x]@[y],
    {
        for c in 0..9usize
            invariant
                r < 9,
                forall|x: int, y: int|
                    cell_ok(x, y) && x < r ==> #[trigger] at(g@, x, y) == b@[x]@[y],
                forall|y: int| 0 <= y < c ==> #[trigger] at(g@, r as int, y) == b@[r as int]@[y],
        {
            let row = b[r];
            let v = row[c];
            assert(v == b@[r as int]@[c as int]);
            let ghost gpre = g@;
            g[r * 9 + c] = v;
            proof {
                assert(g@ == gpre.update(r as int * 9 + c as int, v));
                assert(at(g@, r as int, c as int) == v);
                assert forall|x: int, y: int| cell_ok(x, y) && !(x == r && y == c) implies #[trigger] at(
                    g@,
                    x,
                    y,
                ) == at(gpre, x, y) by {
                    lemma_flat_index_injective(x, y, r as int, c as int);
                }
            }
        }
    }
    proof {
        lemma_grid_seq_pointwise(g@, *b);
    }
    g
}

/// No cell that sees (`r`, `c`) repeats the digit placed at (`r`, `c`).
pub open spec fn cell_conflict_free(g: Seq<u32>, r: int, c: int) -> bool {
    forall|a: int, b: int|
        cell_ok(a, b) && !(a == r && b == c) && sees(r, c, a, b) ==> #[trigger] at(g, a, b) != at(
            g,
            r,
            c,
        )
}

/// Whether two on-board cells see each other.
pub(crate) fn sees_cells(r1: usize, c1: usize, r2: usize, c2: usize) -> (r: bool)
    requires
        r1 < 9,
        c1 < 9,
        r2 < 9,
        c2 < 9,
    ensures
        r == sees(r1 as int, c1 as int, r2 as int, c2 as int),
{
    r1 == r2 || c1 == c2 || (r1 / 3 == r2 / 3 && c1 / 3 == c2 / 3)
}

/// Whether the digit placed at (`r`, `c`), if any, conflicts with a cell that
/// sees it.
fn conflict_free_at(g: &[u32; 81], r: usize, c: usize) -> (ok: bool)
    requires
        r < 9,
        c < 9,
    ensures
        ok <==> (at(g@, r as int, c as int) == 0 || cell_conflict_free(g@, r as int, c as int)),
{
    let v = g[r * 9 + c];
    if v == 0 {
        return true;
    }
    for a in 0..9usize
        invariant
            r < 9,
            c < 9,
            v == at(g@, r as int, c as int),
            v != 0,
            forall|x: int, y: int|
                cell_ok(x, y) && x < a && !(x == r && y == c) && sees(r as int, c as int, x, y)
                    ==> #[trigger] at(g@, x, y) != v,
    {
        for b in 0..9usize
            invariant
                r < 9,
                c < 9,
                a < 9,
                v == at(g@, r as int, c as int),
                v != 0,
                forall|x: int, y: int|
                    cell_ok(x, y) && x < a && !(x == r && y == c) && sees(r as int, c as int, x, y)
                        ==> #[trigger] at(g@, x, y) != v,
                forall|y: int|
                    0 <= y < b && !(a == r && y == c) && sees(r as int, c as int, a as int, y)
                        ==> #[trigger] at(g@, a as int, y) != v,
        {
            if !(a == r && b == c) && sees_cells(r, c, a, b) && g[a * 9 + b] == v {
                assert(at(g@, a as int, b as int) == v);
                assert(!cell_conflict_free(g@, r as int, c as int));
                return false;
            }
        }
    }
    true
}

/// Whether the grid is legal: all cells in 0..=9 and no placed digit repeated
/// in a row, column or box.
pub(crate) fn check_grid(g: &[u32; 81]) -> (ok: bool)
    ensures
        ok <==> legal(g@),
{
    for r in 0..9usize
        invariant
            forall|x: int, y: int| cell_ok(x, y) && x < r ==> #[trigger] at(g@, x, y) <= 9,
    {
        for c in 0..9usize
            invariant
                r < 9,
                forall|x: int, y: int| cell_ok(x, y) && x < r ==> #[trigger] at(g@, x, y) <= 9,
                forall|y: int| 0 <= y < c ==> #[trigger] at(g@, r as int, y) <= 9,
        {
            if g[r * 9 + c] > 9 {
                assert(at(g@, r as int, c as int) > 9);
                assert(!in_range(g@));
                return false;
            }
        }
    }
    for r in 0..9usize
        invariant
            in_range(g@),
            forall|x: int, y: int|
                cell_ok(x, y) && x < r && #[trigger] at(g@, x, y) != 0 ==> cell_conflict_free(
                    g@,
                    x,
                    y,
                ),
    {
        for c in 0..9usize
            invariant
                r < 9,
                in_range(g@),
                forall|x: int, y: int|
                    cell_ok(x, y) && x < r && #[trigger] at(g@, x, y) != 0 ==> cell_conflict_free(
                        g@,
                        x,
                        y,
                    ),
                forall|y: int|
                    0 <= y < c && #[trigger] at(g@, r as int, y) != 0 ==> cell_conflict_free(
                        g@,
                        r as int,
                        y,
                    ),
        {
            if !conflict_free_at(g, r, c) {
                assert(!consistent(g@)) by {
                    let (a, b) = choose|a: int, b: int|
                        cell_ok(a, b) && !(a == r && b == c) && sees(r as int, c as int, a, b)
                            && #[trigger] at(g@, a, b) == at(g@, r as int, c as int);
                }
                return false;
            }
        }
    }
    assert(consistent(g@));
    true
}

/// A complete grid is its own only extension.
pub proof fn lemma_complete_extension_is_self(g: Seq<u32>, s: Seq<u32>)
    requires
        complete(g),
        extends(g, s),
    ensures
        s == g,
{
    assert forall|k: int| 0 <= k < 81 implies s[k] == g[k] by {
        let r = k / 9;
        let c = k % 9;
        assert(cell_ok(r, c) && r * 9 + c == k) by (nonlinear_arith)
            requires
                0 <= k < 81 && r == k / 9 && c == k % 9,
        ;
        assert(at(g, r, c) != 0);
        assert(at(s, r, c) == at(g, r, c));
    }
    assert(s =~= g);
}

/// Digit `d` occurs somewhere in row `r`.
pub open spec fn row_has(g: Seq<u32>, r: int, d: u32) -> bool {
    exists|c: int| 0 <= c < 9 && #[trigger] at(g, r, c) == d
}

/// Digit `d` occurs somewhere in column `c`.
pub open spec fn col_has(g: Seq<u32>, c: int, d: u32) -> bool {
    exists|r: int| 0 <= r < 9 && #[trigger] at(g, r, c) == d
}

/// Digit `d` occurs somewhere in the box with corner (`br * 3`, `bc * 3`).
pub open spec fn box_has(g: Seq<u32>, br: int, bc: int, d: u32) -> bool {
    exists|a: int, b: int|
        br * 3 <= a < br * 3 + 3 && bc * 3 <= b < bc * 3 + 3 && #[trigger] at(g, a, b) == d
}

/// Nine pairwise distinct digits drawn from 1..=9 cover every digit of 1..=9.
proof fn lemma_nine_distinct_cover(vals: Seq<u32>, d: u32)
    requires
        vals.len() == 9,
        forall|k: int| 0 <= k < 9 ==> 1 <= #[trigger] vals[k] <= 9,
        forall|k1: int, k2: int| 0 <= k1 < k2 < 9 ==> vals[k1] != vals[k2],
        1 <= d <= 9,
    ensures
        exists|k: int| 0 <= k < 9 && vals[k] == d,
{
    broadcast use vstd::set::group_set_axioms;

    if !(exists|k: int| 0 <= k < 9 && vals[k] == d) {
        let s1 = Set::<int>::empty().insert(vals[0] as int);
        let s2 = s1.insert(vals[1] as int);
        let s3 = s2.insert(vals[2] as int);
        let s4 = s3.insert(vals[3] as int);
        let s5 = s4.insert(vals[4] as int);
        let s6 = s5.insert(vals[5] as int);
        let s7 = s6.insert(vals[6] as int);
        let s8 = s7.insert(vals[7] as int);
        let s9 = s8.insert(vals[8] as int);
        assert(s9.len() == 9);
        let target = vstd::set_lib::set_int_range(1, 10).remove(d as int);
        vstd::set_lib::lemma_int_range(1, 10);
        assert(vstd::set_lib::set_int_range(1, 10).contains(d as int));
        assert(target.len() == 8);
        assert forall|x: int| s9.contains(x) implies target.contains(x) by {
            assert(exists|k: int| 0 <= k < 9 && vals[k] == x);
        }
        vstd::set_lib::lemma_len_subset(s9, target);
        assert(false);
    }
}

/// In a solved grid every row, every column and every box contains each of
/// the digits 1..=9, and contains it exactly once: no two distinct cells of
/// one unit agree.
pub proof fn lemma_solved_grid_units(g: Seq<u32>)
    requires
        solved(g),
    ensures
        forall|r: int, d: u32| 0 <= r < 9 && 1 <= d <= 9 ==> #[trigger] row_has(g, r, d),
        forall|c: int, d: u32| 0 <= c < 9 && 1 <= d <= 9 ==> #[trigger] col_has(g, c, d),
        forall|br: int, bc: int, d: u32|
            0 <= br < 3 && 0 <= bc < 3 && 1 <= d <= 9 ==> #[trigger] box_has(g, br, bc, d),
        forall|r1: int, c1: int, r2: int, c2: int|
            cell_ok(r1, c1) && cell_ok(r2, c2) && !(r1 == r2 && c1 == c2) && sees(r1, c1, r2, c2)
                ==> at(g, r1, c1) != at(g, r2, c2),
{
    assert forall|r: int, d: u32| 0 <= r < 9 && 1 <= d <= 9 implies #[trigger] row_has(
        g,
        r,
        d,
    ) by {
        let vals = Seq::new(9, |k: int| at(g, r, k));
        lemma_nine_distinct_cover(vals, d);
        let k = choose|k: int| 0 <= k < 9 && vals[k] == d;
        assert(at(g, r, k) == d);
    }
    assert forall|c: int, d: u32| 0 <= c < 9 && 1 <= d <= 9 implies #[trigger] col_has(
        g,
        c,
        d,
    ) by {
        let vals = Seq::new(9, |k: int| at(g, k, c));
        lemma_nine_distinct_cover(vals, d);
        let k = choose|k: int| 0 <= k < 9 && vals[k] == d;
        assert(at(g, k, c) == d);
    }
    assert forall|br: int, bc: int, d: u32|
        0 <= br < 3 && 0 <= bc < 3 && 1 <= d <= 9 implies #[trigger] box_has(g, br, bc, d) by {
        let vals = Seq::new(9, |k: int| at(g, br * 3 + k / 3, bc * 3 + k % 3));
        assert forall|k1: int, k2: int| 0 <= k1 < k2 < 9 implies vals[k1] != vals[k2] by {
            let (p1, q1) = (k1 / 3, k1 % 3);
            let (p2, q2) = (k2 / 3, k2 % 3);
            assert(0 <= p1 < 3 && 0 <= q1 < 3 && p1 * 3 + q1 == k1) by (nonlinear_arith)
                requires
                    0 <= k1 < 9 && p1 == k1 / 3 && q1 == k1 % 3,
            ;
            assert(0 <= p2 < 3 && 0 <= q2 < 3 && p2 * 3 + q2 == k2) by (nonlinear_arith)
                requires
                    0 <= k2 < 9 && p2 == k2 / 3 && q2 == k2 % 3,
            ;
            assert((br * 3 + p1) / 3 == br && (br * 3 + p2) / 3 == br) by (nonlinear_arith)
                requires
                    0 <= br < 3 && 0 <= p1 < 3 && 0 <= p2 < 3,
            ;
            assert((bc * 3 + q1) / 3 == bc && (bc * 3 + q2) / 3 == bc) by (nonlinear_arith)
                requires
                    0 <= bc < 3 && 0 <= q1 < 3 && 0 <= q2 < 3,
            ;
            assert(sees(br * 3 + p1, bc * 3 + q1, br * 3 + p2, bc * 3 + q2));
            assert(at(g, br * 3 + p1, bc * 3 + q1) != 0);
        }
        lemma_nine_distinct_cover(vals, d);
        let k = choose|k: int| 0 <= k < 9 && vals[k] == d;
        assert(at(g, br * 3 + k / 3, bc * 3 + k % 3) == d);
        assert(0 <= k / 3 < 3 && 0 <= k % 3 < 3);
    }
}

/// An already solved grid is solvable and is its own only solved extension:
/// a solver given such a grid must report success and leave it unchanged.
pub proof fn lemma_solved_is_only_self_extension(g: Seq<u32>)
    requires
        solved(g),
    ensures
        solvable(g),
        forall|s: Seq<u32>| solved(s) && #[trigger] extends(g, s) ==> s == g,
{
    assert(extends(g, g));
    assert(solvable(g));
    assert forall|s: Seq<u32>| solved(s) && #[trigger] extends(g, s) implies s == g by {
        lemma_complete_extension_is_self(g, s);
    }
}

/// Cross-implementation agreement: when a grid has exactly one solved
/// extension, any two solver runs that each return a solved extension of it
/// return the same grid.
pub proof fn lemma_unique_solution_agreement(g: Seq<u32>, s1: Seq<u32>, s2: Seq<u32>)
    requires
        solved(s1),
        extends(g, s1),
        solved(s2),
        extends(g, s2),
        forall|t1: Seq<u32>, t2: Seq<u32>|
            solved(t1) && solved(t2) && #[trigger] extends(g, t1) && #[trigger] extends(g, t2)
                ==> t1 == t2,
    ensures
        s1 == s2,
{
}

} // verus!
