//! The executable solver: one linear pass builds the three mask families
//! from the given grid, then a depth-first search over the 256 cells in
//! row-major order fills the empty ones, trying symbols in ascending order
//! and pruning through the masks.  The result is pinned to the search model
//! of `crate::search`, so the whole outcome is a function of the input.

use vstd::prelude::*;
use crate::masks::{
    lemma_mask_clear, lemma_mask_decides, lemma_mask_empty, lemma_place_record, lemma_scan_record,
    lemma_scan_skip, mask_has, masks_match, masks_match_upto, sym_bit,
};
use crate::model::{
    box_of, col_of, grid_consistent, has_completion, is_completion,
    lemma_place_preserves, prefix_filled, row_of, same_unit, solved_grid, unit_free, valid_grid,
};
use crate::search::{
    lemma_search_complete, lemma_search_on_solved, lemma_search_sound, search_from, spec_solve,
    try_from,
};

verus! {

/// Depth-first search from flat position `pos`, all earlier cells filled.
/// Returns exactly what the search model returns; on failure the grid and
/// the masks are left as they were.
fn backtrack(
    grid: &mut [u8; 256],
    pos: usize,
    rows: &mut [u16; 16],
    cols: &mut [u16; 16],
    boxes: &mut [u16; 16],
) -> (r: bool)
    requires
        pos <= 256,
        valid_grid(old(grid)@),
        prefix_filled(old(grid)@, pos as int),
        masks_match(old(grid)@, old(rows)@, old(cols)@, old(boxes)@),
    ensures
        r == (search_from(old(grid)@, pos as int) is Some),
        r ==> Some(final(grid)@) == search_from(old(grid)@, pos as int),
        !r ==> final(grid)@ == old(grid)@ && final(rows)@ == old(rows)@ && final(cols)@ == old(
            cols,
        )@ && final(boxes)@ == old(boxes)@,
    decreases 256 - pos,
{
    if pos == 256 {
        return true;
    }
    if grid[pos] != 0 {
        return backtrack(grid, pos + 1, rows, cols, boxes);
    }
    let row: usize = pos / 16;
    let col: usize = pos % 16;
    let bx: usize = (row / 4) * 4 + col / 4;
    proof {
        assert(row == row_of(pos as int));
        assert(col == col_of(pos as int));
        assert(bx == box_of(pos as int));
        assert(search_from(old(grid)@, pos as int) == try_from(old(grid)@, pos as int, 1));
    }
    let mut num: u8 = 1;
    while num <= 16
        invariant
            1 <= num <= 17,
            pos < 256,
            row == row_of(pos as int),
            col == col_of(pos as int),
            bx == box_of(pos as int),
            grid@ == old(grid)@,
            rows@ == old(rows)@,
            cols@ == old(cols)@,
            boxes@ == old(boxes)@,
            valid_grid(old(grid)@),
            old(grid)@[pos as int] == 0,
            prefix_filled(old(grid)@, pos as int),
            masks_match(old(grid)@, old(rows)@, old(cols)@, old(boxes)@),
            num <= 16 ==> search_from(old(grid)@, pos as int) == try_from(
                old(grid)@,
                pos as int,
                num,
            ),
            num == 17 ==> search_from(old(grid)@, pos as int) is None,
        decreases 17 - num,
    {
        let bit: u16 = 1u16 << ((num - 1) as u16);
        proof {
            assert(bit == sym_bit(num));
        }
        if rows[row] & bit == 0 && cols[col] & bit == 0 && boxes[bx] & bit == 0 {
            let ghost g0 = grid@;
            let ghost rows0 = rows@;
            let ghost cols0 = cols@;
            let ghost boxes0 = boxes@;
            proof {
                lemma_mask_decides(g0, rows0, cols0, boxes0, pos as int, num);
                lemma_place_record(g0, rows0, cols0, boxes0, pos as int, num);
                lemma_place_preserves(g0, pos as int, num);
            }
            grid[pos] = num;
            rows[row] = rows[row] | bit;
            cols[col] = cols[col] | bit;
            boxes[bx] = boxes[bx] | bit;
            proof {
                assert(masks_match(grid@, rows@, cols@, boxes@));
                assert(prefix_filled(grid@, pos as int + 1));
            }
            if backtrack(grid, pos + 1, rows, cols, boxes) {
                proof {
                    assert(search_from(g0.update(pos as int, num), pos as int + 1) == Some(
                        grid@,
                    ));
                    assert(try_from(g0, pos as int, num) == Some(grid@));
                }
                return true;
            }
            grid[pos] = 0;
            rows[row] = rows[row] & !bit;
            cols[col] = cols[col] & !bit;
            boxes[bx] = boxes[bx] & !bit;
            proof {
                assert(grid@ =~= g0);
                lemma_mask_clear(rows0[row as int], num);
                lemma_mask_clear(cols0[col as int], num);
                lemma_mask_clear(boxes0[bx as int], num);
                assert(rows@ =~= rows0);
                assert(cols@ =~= cols0);
                assert(boxes@ =~= boxes0);
                assert(search_from(g0.update(pos as int, num), pos as int + 1) is None);
                if num < 16 {
                    assert(try_from(g0, pos as int, num) == try_from(
                        g0,
                        pos as int,
                        (num + 1) as u8,
                    ));
                } else {
                    assert(try_from(g0, pos as int, num) is None);
                }
            }
        } else {
            proof {
                lemma_mask_decides(grid@, rows@, cols@, boxes@, pos as int, num);
                if num < 16 {
                    assert(try_from(grid@, pos as int, num) == try_from(
                        grid@,
                        pos as int,
                        (num + 1) as u8,
                    ));
                } else {
                    assert(try_from(grid@, pos as int, num) is None);
                }
            }
        }
        num = num + 1;
    }
    false
}

/// Solve the hexadoku held in `grid` in place.
///
/// The grid must be well formed: every cell empty (0) or a symbol 1..=16,
/// with no symbol repeated in a row, a column, or a 4x4 box.  On success
/// the grid holds the first solution in the solver's fixed order (cells in
/// row-major order, symbols ascending) — the same input always yields the
/// same solution.  On failure the grid is untouched, and failure occurs
/// exactly when the given grid has no completion at all.
pub fn solve_hexadoku(grid: &mut [u8; 256]) -> (r: bool)
    requires
        valid_grid(old(grid)@),
    ensures
        r == has_completion(old(grid)@),
        r == (spec_solve(old(grid)@) is Some),
        r ==> Some(final(grid)@) == spec_solve(old(grid)@),
        r ==> is_completion(old(grid)@, final(grid)@),
        !r ==> final(grid)@ == old(grid)@,
        solved_grid(old(grid)@) ==> r && final(grid)@ == old(grid)@,
{
    let mut rows: [u16; 16] = [0u16; 16];
    let mut cols: [u16; 16] = [0u16; 16];
    let mut boxes: [u16; 16] = [0u16; 16];
    proof {
        assert forall|v: u8| 1 <= v <= 16 implies !mask_has(0u16, v) by {
            lemma_mask_empty(v);
        }
        assert(masks_match_upto(grid@, rows@, cols@, boxes@, 0));
    }
    let mut p: usize = 0;
    while p < 256
        invariant
            p <= 256,
            grid@ == old(grid)@,
            valid_grid(old(grid)@),
            masks_match_upto(grid@, rows@, cols@, boxes@, p as int),
        decreases 256 - p,
    {
        let val = grid[p];
        if val != 0 {
            let row: usize = p / 16;
            let col: usize = p % 16;
            let bx: usize = (row / 4) * 4 + col / 4;
            let bit: u16 = 1u16 << ((val - 1) as u16);
            proof {
                assert(row == row_of(p as int));
                assert(col == col_of(p as int));
                assert(bx == box_of(p as int));
                assert(bit == sym_bit(val));
                lemma_scan_record(grid@, rows@, cols@, boxes@, p as int);
            }
            rows[row] = rows[row] | bit;
            cols[col] = cols[col] | bit;
            boxes[bx] = boxes[bx] | bit;
        } else {
            proof {
                lemma_scan_skip(grid@, rows@, cols@, boxes@, p as int);
            }
        }
        p = p + 1;
    }
    let r = backtrack(grid, 0, &mut rows, &mut cols, &mut boxes);
    proof {
        if r {
            lemma_search_sound(old(grid)@, 0);
            assert(has_completion(old(grid)@));
        } else if has_completion(old(grid)@) {
            let s = choose|s: Seq<u8>| is_completion(old(grid)@, s);
            lemma_search_complete(old(grid)@, 0, s);
            assert(false);
        }
        if solved_grid(old(grid)@) {
            lemma_search_on_solved(old(grid)@, 0);
        }
    }
    r
}

/// Whether the cells at flat positions `p` and `q` share a row, a column,
/// or a 4x4 box.
fn cells_share_unit(p: usize, q: usize) -> (r: bool)
    requires
        p < 256,
        q < 256,
    ensures
        r == same_unit(p as int, q as int),
{
    let pr = p / 16;
    let pc = p % 16;
    let qr = q / 16;
    let qc = q % 16;
    pr == qr || pc == qc || (pr / 4) * 4 + pc / 4 == (qr / 4) * 4 + qc / 4
}

/// Whether `grid` is a well-formed partial hexadoku: every cell empty or a
/// symbol 1..=16, and no symbol twice in a row, a column, or a box.  This is
/// exactly the precondition of `solve_hexadoku`.
pub fn is_valid_grid(grid: &[u8; 256]) -> (r: bool)
    ensures
        r == valid_grid(grid@),
{
    let mut p: usize = 0;
    while p < 256
        invariant
            p <= 256,
            forall|t: int| 0 <= t < p ==> #[trigger] grid@[t] <= 16,
            forall|t: int| 0 <= t < p && #[trigger] grid@[t] != 0 ==> unit_free(
                grid@,
                t,
                grid@[t],
            ),
        decreases 256 - p,
    {
        let v = grid[p];
        if v > 16 {
            return false;
        }
        if v != 0 {
            let mut q: usize = 0;
            while q < 256
                invariant
                    q <= 256,
                    p < 256,
                    v == grid@[p as int],
                    1 <= v <= 16,
                    forall|t: int| 0 <= t < p ==> #[trigger] grid@[t] <= 16,
                    forall|t: int| 0 <= t < p && #[trigger] grid@[t] != 0 ==> unit_free(
                        grid@,
                        t,
                        grid@[t],
                    ),
                    forall|t: int|
                        0 <= t < q && t != p && same_unit(p as int, t) ==> #[trigger] grid@[t]
                            != v,
                decreases 256 - q,
            {
                if q != p && grid[q] == v && cells_share_unit(p, q) {
                    proof {
                        assert(!unit_free(grid@, p as int, v));
                        assert(!grid_consistent(grid@));
                    }
                    return false;
                }
                q = q + 1;
            }
        }
        p = p + 1;
    }
    true
}

/// Whether `grid` is a complete, valid solution: well formed and with no
/// empty cell left.
pub fn is_solved_grid(grid: &[u8; 256]) -> (r: bool)
    ensures
        r == solved_grid(grid@),
{
    if !is_valid_grid(grid) {
        return false;
    }
    let mut p: usize = 0;
    while p < 256
        invariant
            p <= 256,
            valid_grid(grid@),
            forall|t: int| 0 <= t < p ==> #[trigger] grid@[t] != 0,
        decreases 256 - p,
    {
        if grid[p] == 0 {
            return false;
        }
        p = p + 1;
    }
    true
}

} // verus!
