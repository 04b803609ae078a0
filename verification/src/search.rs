//! A mathematical model of the depth-first search: what the solver returns
//! is fully determined by its input.  `search_from` walks the cells in
//! row-major order; at each empty cell `try_from` tries the symbols in
//! ascending order and keeps the first that leads to a solution.
//!
//! The two lemmas at the bottom tie the model to the grid predicates: a
//! result is always a solution of the input (soundness), and whenever some
//! solution exists the model finds one (completeness).

use vstd::prelude::*;
use crate::model::{
    can_place, extends, grid_full, is_completion, lemma_place_preserves, prefix_filled, same_unit,
    solved_grid, valid_grid,
};

verus! {

/// The solution the search finds from position `pos` on, if any.  Cells
/// before `pos` are assumed filled; the result keeps them.
pub open spec fn search_from(g: Seq<u8>, pos: int) -> Option<Seq<u8>>
    decreases 256 - pos, 1int, 0int,
        when pos <= 256
{
    if pos >= 256 {
        Some(g)
    } else if g[pos] != 0 {
        search_from(g, pos + 1)
    } else {
        try_from(g, pos, 1)
    }
}

/// The solution found at the empty cell `pos` by trying symbols
/// `num..=16` in ascending order, if any.
pub open spec fn try_from(g: Seq<u8>, pos: int, num: u8) -> Option<Seq<u8>>
    decreases 256 - pos, 0int, 17 - num,
        when 0 <= pos < 256 && 1 <= num <= 16
{
    if can_place(g, pos, num) && search_from(g.update(pos, num), pos + 1) is Some {
        search_from(g.update(pos, num), pos + 1)
    } else if num < 16 {
        try_from(g, pos, (num + 1) as u8)
    } else {
        None
    }
}

/// The full search: the unique result of solving `g`, if `g` has a solution.
pub open spec fn spec_solve(g: Seq<u8>) -> Option<Seq<u8>> {
    search_from(g, 0)
}

/// Soundness: whatever the search returns is a solution of its input.
pub proof fn lemma_search_sound(g: Seq<u8>, pos: int)
    requires
        valid_grid(g),
        0 <= pos <= 256,
        prefix_filled(g, pos),
        search_from(g, pos) is Some,
    ensures
        is_completion(g, search_from(g, pos)->Some_0),
    decreases 256 - pos, 1int, 0int,
{
    if pos >= 256 {
        assert(grid_full(g));
        assert(extends(g, g));
    } else if g[pos] != 0 {
        lemma_search_sound(g, pos + 1);
    } else {
        lemma_try_sound(g, pos, 1);
    }
}

/// Soundness of the candidate loop at one empty cell.
proof fn lemma_try_sound(g: Seq<u8>, pos: int, num: u8)
    requires
        valid_grid(g),
        0 <= pos < 256,
        g[pos] == 0,
        prefix_filled(g, pos),
        1 <= num <= 16,
        try_from(g, pos, num) is Some,
    ensures
        is_completion(g, try_from(g, pos, num)->Some_0),
    decreases 256 - pos, 0int, 17 - num,
{
    if can_place(g, pos, num) && search_from(g.update(pos, num), pos + 1) is Some {
        let g2 = g.update(pos, num);
        lemma_place_preserves(g, pos, num);
        assert(prefix_filled(g2, pos + 1));
        lemma_search_sound(g2, pos + 1);
        let s = search_from(g2, pos + 1)->Some_0;
        assert(extends(g, s)) by {
            assert(forall|p: int| 0 <= p < 256 && #[trigger] g[p] != 0 ==> g2[p] == g[p]);
        }
    } else if num < 16 {
        lemma_try_sound(g, pos, (num + 1) as u8);
    }
}

/// Completeness: if some solution `s` of the input exists, the search
/// succeeds (with the first solution in its fixed order, not necessarily
/// with `s`).
pub proof fn lemma_search_complete(g: Seq<u8>, pos: int, s: Seq<u8>)
    requires
        valid_grid(g),
        0 <= pos <= 256,
        prefix_filled(g, pos),
        is_completion(g, s),
    ensures
        search_from(g, pos) is Some,
    decreases 256 - pos, 1int, 0int,
{
    if pos >= 256 {
    } else if g[pos] != 0 {
        lemma_search_complete(g, pos + 1, s);
    } else {
        let v = s[pos];
        assert(1 <= v <= 16) by {
            assert(s[pos] != 0 && s[pos] <= 16);
        }
        assert(can_place(g, pos, v)) by {
            assert forall|q: int| 0 <= q < 256 && q != pos && same_unit(pos, q) implies #[trigger] g[q] != v by {
                if g[q] != 0 {
                    assert(s[q] == g[q]);
                    assert(s[pos] != 0);
                    assert(s[q] != s[pos]);
                }
            }
        }
        let g2 = g.update(pos, v);
        lemma_place_preserves(g, pos, v);
        assert(extends(g2, s)) by {
            assert forall|p: int| 0 <= p < 256 && #[trigger] g2[p] != 0 implies s[p] == g2[p] by {
                if p != pos {
                    assert(g2[p] == g[p]);
                }
            }
        }
        lemma_search_complete(g2, pos + 1, s);
        lemma_try_complete(g, pos, 1, v);
    }
}

/// If some symbol `v >= num` works at `pos`, trying upward from `num`
/// succeeds.
proof fn lemma_try_complete(g: Seq<u8>, pos: int, num: u8, v: u8)
    requires
        0 <= pos < 256,
        1 <= num <= v <= 16,
        can_place(g, pos, v),
        search_from(g.update(pos, v), pos + 1) is Some,
    ensures
        try_from(g, pos, num) is Some,
    decreases v - num,
{
    if can_place(g, pos, num) && search_from(g.update(pos, num), pos + 1) is Some {
    } else {
        assert(num < v);
        lemma_try_complete(g, pos, (num + 1) as u8, v);
    }
}

/// A full, consistent grid is its own first solution: the search changes
/// nothing.
pub proof fn lemma_search_on_solved(g: Seq<u8>, pos: int)
    requires
        solved_grid(g),
        0 <= pos <= 256,
    ensures
        search_from(g, pos) == Some(g),
    decreases 256 - pos,
{
    if pos < 256 {
        lemma_search_on_solved(g, pos + 1);
    }
}

} // verus!
