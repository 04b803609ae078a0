//! The mathematical model of a hexadoku grid: cell addressing, the three
//! kinds of units (rows, columns, 4x4 boxes), and the predicates that say
//! when a grid is well formed, consistent, and solved.

use vstd::prelude::*;

verus! {

/// Flat index of the cell at row `r`, column `c` (row-major order).
pub open spec fn idx(r: int, c: int) -> int {
    r * 16 + c
}

/// Row of the cell at flat position `p`.
pub open spec fn row_of(p: int) -> int {
    p / 16
}

/// Column of the cell at flat position `p`.
pub open spec fn col_of(p: int) -> int {
    p % 16
}

/// Index of the 4x4 box that contains the cell at flat position `p`.
pub open spec fn box_of(p: int) -> int {
    (row_of(p) / 4) * 4 + col_of(p) / 4
}

/// Two distinct cells constrain each other iff they share a row, a column,
/// or a box.
pub open spec fn same_unit(p: int, q: int) -> bool {
    ||| row_of(p) == row_of(q)
    ||| col_of(p) == col_of(q)
    ||| box_of(p) == box_of(q)
}

/// Every cell is empty (0) or holds a symbol 1..=16.
pub open spec fn grid_in_range(g: Seq<u8>) -> bool {
    forall|p: int| 0 <= p < 256 ==> #[trigger] g[p] <= 16
}

/// No cell is empty.
pub open spec fn grid_full(g: Seq<u8>) -> bool {
    forall|p: int| 0 <= p < 256 ==> #[trigger] g[p] != 0
}

/// Symbol `v` does not occur in any cell, other than `p` itself, that shares
/// a unit with `p`.
pub open spec fn unit_free(g: Seq<u8>, p: int, v: u8) -> bool {
    forall|q: int| 0 <= q < 256 && q != p && same_unit(p, q) ==> #[trigger] g[q] != v
}

/// No two distinct filled cells in a common unit hold the same symbol.
pub open spec fn grid_consistent(g: Seq<u8>) -> bool {
    forall|p: int| 0 <= p < 256 && #[trigger] g[p] != 0 ==> unit_free(g, p, g[p])
}

/// A well-formed partial grid: the precondition of the solver.
pub open spec fn valid_grid(g: Seq<u8>) -> bool {
    &&& g.len() == 256
    &&& grid_in_range(g)
    &&& grid_consistent(g)
}

/// A completely solved grid.
pub open spec fn solved_grid(g: Seq<u8>) -> bool {
    &&& valid_grid(g)
    &&& grid_full(g)
}

/// `g2` keeps every filled cell of `g1` as it is.
pub open spec fn extends(g1: Seq<u8>, g2: Seq<u8>) -> bool {
    &&& g2.len() == g1.len()
    &&& forall|p: int| 0 <= p < g1.len() && #[trigger] g1[p] != 0 ==> g2[p] == g1[p]
}

/// `s` is a solution of the puzzle `g`: solved, and agreeing with `g` on all
/// of `g`'s givens.
pub open spec fn is_completion(g: Seq<u8>, s: Seq<u8>) -> bool {
    &&& solved_grid(s)
    &&& extends(g, s)
}

/// `g` has at least one solution.
pub open spec fn has_completion(g: Seq<u8>) -> bool {
    exists|s: Seq<u8>| is_completion(g, s)
}

/// Placing symbol `v` at the empty cell `p` keeps the grid consistent.
pub open spec fn can_place(g: Seq<u8>, p: int, v: u8) -> bool {
    &&& g[p] == 0
    &&& 1 <= v <= 16
    &&& unit_free(g, p, v)
}

/// All cells before flat position `n` are filled.
pub open spec fn prefix_filled(g: Seq<u8>, n: int) -> bool {
    forall|p: int| 0 <= p < n ==> #[trigger] g[p] != 0
}

/// Placing a legal symbol at an empty cell preserves well-formedness, and
/// the updated grid extends the one it came from.
pub proof fn lemma_place_preserves(g: Seq<u8>, p: int, v: u8)
    requires
        valid_grid(g),
        0 <= p < 256,
        can_place(g, p, v),
    ensures
        valid_grid(g.update(p, v)),
        extends(g, g.update(p, v)),
{
    let g2 = g.update(p, v);
    assert forall|q: int| 0 <= q < 256 && #[trigger] g2[q] != 0 implies unit_free(g2, q, g2[q]) by {
        if q == p {
            assert forall|r: int| 0 <= r < 256 && r != q && same_unit(q, r) implies #[trigger] g2[r] != g2[q] by {
                assert(g2[r] == g[r]);
            }
        } else {
            assert(g2[q] == g[q]);
            assert forall|r: int| 0 <= r < 256 && r != q && same_unit(q, r) implies #[trigger] g2[r] != g2[q] by {
                if r == p {
                    assert(same_unit(p, q));
                    assert(g[q] != v);
                } else {
                    assert(g2[r] == g[r]);
                }
            }
        }
    }
}

} // verus!
