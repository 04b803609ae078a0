//! Global properties of solved grids.  The solver's contract says a
//! successful result is full and consistent; the law here draws the
//! classical consequence: every row, every column, and every 4x4 box of
//! such a grid contains each of the 16 symbols exactly once.

use vstd::prelude::*;
use vstd::seq_lib::seq_to_set_is_finite;
use vstd::set_lib::{lemma_int_range, lemma_len_subset, set_int_range};
use crate::model::{box_of, col_of, idx, is_completion, row_of, same_unit, solved_grid, valid_grid};
use crate::search::{lemma_search_sound, spec_solve};

verus! {

/// Some index of the 16-element sequence `s` holds value `v`.
pub open spec fn covers(s: Seq<u8>, v: u8) -> bool {
    exists|i: int| 0 <= i < 16 && s[i] == v
}

/// Row `r` of grid `g` holds symbol `v` somewhere.
pub open spec fn row_covers(g: Seq<u8>, r: int, v: u8) -> bool {
    exists|c: int| 0 <= c < 16 && g[idx(r, c)] == v
}

/// Column `c` of grid `g` holds symbol `v` somewhere.
pub open spec fn col_covers(g: Seq<u8>, c: int, v: u8) -> bool {
    exists|r: int| 0 <= r < 16 && g[idx(r, c)] == v
}

/// Box `b` of grid `g` holds symbol `v` somewhere.
pub open spec fn box_covers(g: Seq<u8>, b: int, v: u8) -> bool {
    exists|p: int| 0 <= p < 256 && box_of(p) == b && g[p] == v
}

/// Sixteen pairwise-distinct values drawn from sixteen symbols must cover
/// them all.
proof fn lemma_sixteen_distinct_cover(s: Seq<u8>)
    requires
        s.len() == 16,
        forall|i: int| 0 <= i < 16 ==> 1 <= #[trigger] s[i] <= 16,
        forall|i: int, j: int| 0 <= i < 16 && 0 <= j < 16 && i != j ==> s[i] != s[j],
    ensures
        forall|v: u8| 1 <= v <= 16 ==> #[trigger] covers(s, v),
{
    broadcast use seq_to_set_is_finite;

    let m = s.map_values(|x: u8| x as int);
    assert(m.no_duplicates());
    m.unique_seq_to_set();
    let vals = m.to_set();
    let range = set_int_range(1, 17);
    lemma_int_range(1, 17);
    assert(vals.subset_of(range)) by {
        assert forall|x: int| vals.contains(x) implies range.contains(x) by {
            let i = choose|i: int| 0 <= i < m.len() && m[i] == x;
            assert(1 <= s[i] <= 16);
        }
    }
    assert forall|v: u8| 1 <= v <= 16 implies #[trigger] covers(s, v) by {
        let x = v as int;
        if !vals.contains(x) {
            assert(vals.subset_of(range.remove(x)));
            lemma_len_subset(vals, range.remove(x));
            assert(range.remove(x).len() == 15);
            assert(false);
        }
        assert(m.contains(x));
        let i = choose|i: int| 0 <= i < m.len() && m[i] == x;
        assert(s[i] == v);
    }
}

/// Validity of solved grids: each row, each column, and each box of a
/// solved grid holds every one of the 16 symbols exactly once — at least
/// once by the three cover clauses, at most once by the last.
pub proof fn lemma_solved_grid_units(g: Seq<u8>)
    requires
        solved_grid(g),
    ensures
        forall|r: int, v: u8| 0 <= r < 16 && 1 <= v <= 16 ==> #[trigger] row_covers(g, r, v),
        forall|c: int, v: u8| 0 <= c < 16 && 1 <= v <= 16 ==> #[trigger] col_covers(g, c, v),
        forall|b: int, v: u8| 0 <= b < 16 && 1 <= v <= 16 ==> #[trigger] box_covers(g, b, v),
        forall|p: int, q: int|
            0 <= p < 256 && 0 <= q < 256 && p != q && same_unit(p, q) ==> g[p] != g[q],
{
    assert forall|r: int, v: u8| 0 <= r < 16 && 1 <= v <= 16 implies #[trigger] row_covers(
        g,
        r,
        v,
    ) by {
        let s = Seq::new(16, |c: int| g[idx(r, c)]);
        assert forall|i: int| 0 <= i < 16 implies 1 <= #[trigger] s[i] <= 16 by {
            assert(0 <= idx(r, i) < 256);
        }
        assert forall|i: int, j: int| 0 <= i < 16 && 0 <= j < 16 && i != j implies s[i] != s[j] by {
            let p = idx(r, i);
            let q = idx(r, j);
            assert(row_of(p) == r && row_of(q) == r);
            assert(same_unit(p, q));
            assert(g[p] != 0);
        }
        lemma_sixteen_distinct_cover(s);
        assert(covers(s, v));
        let c = choose|i: int| 0 <= i < 16 && s[i] == v;
        assert(g[idx(r, c)] == v);
    }
    assert forall|c: int, v: u8| 0 <= c < 16 && 1 <= v <= 16 implies #[trigger] col_covers(
        g,
        c,
        v,
    ) by {
        let s = Seq::new(16, |r: int| g[idx(r, c)]);
        assert forall|i: int| 0 <= i < 16 implies 1 <= #[trigger] s[i] <= 16 by {
            assert(0 <= idx(i, c) < 256);
        }
        assert forall|i: int, j: int| 0 <= i < 16 && 0 <= j < 16 && i != j implies s[i] != s[j] by {
            let p = idx(i, c);
            let q = idx(j, c);
            assert(col_of(p) == c && col_of(q) == c);
            assert(same_unit(p, q));
            assert(p != q);
            assert(g[p] != 0);
        }
        lemma_sixteen_distinct_cover(s);
        assert(covers(s, v));
        let r = choose|i: int| 0 <= i < 16 && s[i] == v;
        assert(g[idx(r, c)] == v);
    }
    assert forall|b: int, v: u8| 0 <= b < 16 && 1 <= v <= 16 implies #[trigger] box_covers(
        g,
        b,
        v,
    ) by {
        let s = Seq::new(16, |k: int| g[box_cell(b, k)]);
        assert forall|k: int| 0 <= k < 16 implies 0 <= box_cell(b, k) < 256 && box_of(
            box_cell(b, k),
        ) == b by {
            lemma_box_cell(b, k);
        }
        assert forall|i: int| 0 <= i < 16 implies 1 <= #[trigger] s[i] <= 16 by {
            lemma_box_cell(b, i);
        }
        assert forall|i: int, j: int| 0 <= i < 16 && 0 <= j < 16 && i != j implies s[i] != s[j] by {
            lemma_box_cell(b, i);
            lemma_box_cell(b, j);
            let p = box_cell(b, i);
            let q = box_cell(b, j);
            assert(p != q);
            assert(same_unit(p, q));
            assert(g[p] != 0);
        }
        lemma_sixteen_distinct_cover(s);
        assert(covers(s, v));
        let k = choose|i: int| 0 <= i < 16 && s[i] == v;
        lemma_box_cell(b, k);
        assert(box_of(box_cell(b, k)) == b && g[box_cell(b, k)] == v);
    }
    assert forall|p: int, q: int|
        0 <= p < 256 && 0 <= q < 256 && p != q && same_unit(p, q) implies g[p] != g[q] by {
        assert(g[p] != 0);
    }
}

/// The same, stated of the solver's outcome: whenever solving a well-formed
/// grid succeeds, the grid it leaves behind holds every symbol exactly once
/// in each row, column and box, and it keeps all the givens.
pub proof fn lemma_solver_result_units(g: Seq<u8>, s: Seq<u8>)
    requires
        valid_grid(g),
        spec_solve(g) == Some(s),
    ensures
        is_completion(g, s),
        forall|r: int, v: u8| 0 <= r < 16 && 1 <= v <= 16 ==> #[trigger] row_covers(s, r, v),
        forall|c: int, v: u8| 0 <= c < 16 && 1 <= v <= 16 ==> #[trigger] col_covers(s, c, v),
        forall|b: int, v: u8| 0 <= b < 16 && 1 <= v <= 16 ==> #[trigger] box_covers(s, b, v),
        forall|p: int, q: int|
            0 <= p < 256 && 0 <= q < 256 && p != q && same_unit(p, q) ==> s[p] != s[q],
{
    lemma_search_sound(g, 0);
    lemma_solved_grid_units(s);
}

/// The flat position of the `k`-th cell (row-major within the box) of box
/// `b`.
spec fn box_cell(b: int, k: int) -> int {
    idx((b / 4) * 4 + k / 4, (b % 4) * 4 + k % 4)
}

/// The sixteen cells of a box are sixteen distinct positions of that box.
proof fn lemma_box_cell(b: int, k: int)
    requires
        0 <= b < 16,
        0 <= k < 16,
    ensures
        0 <= box_cell(b, k) < 256,
        box_of(box_cell(b, k)) == b,
        forall|k2: int| 0 <= k2 < 16 && k2 != k ==> box_cell(b, k2) != box_cell(b, k),
{
    let r = (b / 4) * 4 + k / 4;
    let c = (b % 4) * 4 + k % 4;
    assert(0 <= r < 16 && 0 <= c < 16);
    assert(row_of(idx(r, c)) == r && col_of(idx(r, c)) == c) by {
        assert(idx(r, c) == r * 16 + c);
    }
    assert(r / 4 == b / 4 && c / 4 == b % 4);
    assert forall|k2: int| 0 <= k2 < 16 && k2 != k implies box_cell(b, k2) != box_cell(b, k) by {
        let r2 = (b / 4) * 4 + k2 / 4;
        let c2 = (b % 4) * 4 + k2 % 4;
        assert(k2 / 4 != k / 4 || k2 % 4 != k % 4);
        assert(row_of(idx(r2, c2)) == r2 && col_of(idx(r2, c2)) == c2) by {
            assert(idx(r2, c2) == r2 * 16 + c2);
        }
    }
}

} // verus!
