//! Bitmask-based constraint tracking.  The solver keeps one 16-bit mask per
//! row, per column, and per 4x4 box; bit `v - 1` of a mask is set iff symbol
//! `v` occurs in that unit.  This module defines what it means for the three
//! mask families to reflect a grid, and proves how placements keep them in
//! step.

use vstd::prelude::*;
use crate::model::{box_of, can_place, col_of, row_of, same_unit, unit_free};

verus! {

/// The mask bit that stands for symbol `v`.
pub open spec fn sym_bit(v: u8) -> u16 {
    1u16 << ((v - 1) as u16)
}

/// Symbol `v` is recorded in mask `m`.
pub open spec fn mask_has(m: u16, v: u8) -> bool {
    m & sym_bit(v) != 0
}

/// Symbol `v` occurs in row `i` among the cells before flat position `n`.
pub open spec fn row_has_upto(g: Seq<u8>, i: int, v: u8, n: int) -> bool {
    exists|p: int| 0 <= p < n && row_of(p) == i && #[trigger] g[p] == v
}

/// Symbol `v` occurs in column `j` among the cells before flat position `n`.
pub open spec fn col_has_upto(g: Seq<u8>, j: int, v: u8, n: int) -> bool {
    exists|p: int| 0 <= p < n && col_of(p) == j && #[trigger] g[p] == v
}

/// Symbol `v` occurs in box `b` among the cells before flat position `n`.
pub open spec fn box_has_upto(g: Seq<u8>, b: int, v: u8, n: int) -> bool {
    exists|p: int| 0 <= p < n && box_of(p) == b && #[trigger] g[p] == v
}

/// The three mask families record exactly the symbols among the cells
/// before flat position `n`.
pub open spec fn masks_match_upto(
    g: Seq<u8>,
    rows: Seq<u16>,
    cols: Seq<u16>,
    boxes: Seq<u16>,
    n: int,
) -> bool {
    &&& rows.len() == 16
    &&& cols.len() == 16
    &&& boxes.len() == 16
    &&& forall|i: int, v: u8|
        0 <= i < 16 && 1 <= v <= 16 ==> #[trigger] mask_has(rows[i], v) == row_has_upto(
            g,
            i,
            v,
            n,
        )
    &&& forall|j: int, v: u8|
        0 <= j < 16 && 1 <= v <= 16 ==> #[trigger] mask_has(cols[j], v) == col_has_upto(
            g,
            j,
            v,
            n,
        )
    &&& forall|b: int, v: u8|
        0 <= b < 16 && 1 <= v <= 16 ==> #[trigger] mask_has(boxes[b], v) == box_has_upto(
            g,
            b,
            v,
            n,
        )
}

/// The three mask families record exactly the symbols of the whole grid.
pub open spec fn masks_match(g: Seq<u8>, rows: Seq<u16>, cols: Seq<u16>, boxes: Seq<u16>) -> bool {
    masks_match_upto(g, rows, cols, boxes, 256)
}

/// An all-zero mask records no symbol.
pub proof fn lemma_mask_empty(v: u8)
    requires
        1 <= v <= 16,
    ensures
        !mask_has(0u16, v),
{
    let b = (v - 1) as u16;
    assert(0u16 & (1u16 << b) == 0) by (bit_vector);
}

/// Setting the bit of symbol `w` records `w` and keeps every other symbol
/// as it was.
pub proof fn lemma_mask_set(m: u16, w: u8, v: u8)
    requires
        1 <= w <= 16,
        1 <= v <= 16,
    ensures
        mask_has(m | sym_bit(w), v) == (mask_has(m, v) || v == w),
{
    let a = (w - 1) as u16;
    let b = (v - 1) as u16;
    assert(((m | (1u16 << a)) & (1u16 << b) != 0) == ((m & (1u16 << b) != 0) || a == b))
        by (bit_vector)
        requires
            a < 16,
            b < 16,
    ;
}

/// Clearing a bit that was not set before the matching set restores the
/// mask exactly.
pub proof fn lemma_mask_clear(m: u16, w: u8)
    requires
        1 <= w <= 16,
        !mask_has(m, w),
    ensures
        (m | sym_bit(w)) & !sym_bit(w) == m,
{
    let a = (w - 1) as u16;
    assert(m & (1u16 << a) == 0 ==> (m | (1u16 << a)) & !(1u16 << a) == m) by (bit_vector);
}

/// When the masks reflect the grid, the bit test at an empty cell decides
/// legality of a placement exactly.
pub proof fn lemma_mask_decides(
    g: Seq<u8>,
    rows: Seq<u16>,
    cols: Seq<u16>,
    boxes: Seq<u16>,
    pos: int,
    num: u8,
)
    requires
        g.len() == 256,
        0 <= pos < 256,
        g[pos] == 0,
        1 <= num <= 16,
        masks_match(g, rows, cols, boxes),
    ensures
        can_place(g, pos, num) == (!mask_has(rows[row_of(pos)], num) && !mask_has(
            cols[col_of(pos)],
            num,
        ) && !mask_has(boxes[box_of(pos)], num)),
{
    let r = row_of(pos);
    let c = col_of(pos);
    let b = box_of(pos);
    assert(0 <= r < 16 && 0 <= c < 16 && 0 <= b < 16);
    if !mask_has(rows[r], num) && !mask_has(cols[c], num) && !mask_has(boxes[b], num) {
        assert forall|q: int| 0 <= q < 256 && q != pos && same_unit(pos, q) implies #[trigger] g[q]
            != num by {
            if g[q] == num {
                if row_of(q) == r {
                    assert(row_has_upto(g, r, num, 256));
                } else if col_of(q) == c {
                    assert(col_has_upto(g, c, num, 256));
                } else {
                    assert(box_has_upto(g, b, num, 256));
                }
            }
        }
        assert(can_place(g, pos, num));
    }
    if mask_has(rows[r], num) {
        let q = choose|p: int| 0 <= p < 256 && row_of(p) == r && #[trigger] g[p] == num;
        assert(q != pos && same_unit(pos, q) && g[q] == num);
        assert(!unit_free(g, pos, num));
    }
    if mask_has(cols[c], num) {
        let q = choose|p: int| 0 <= p < 256 && col_of(p) == c && #[trigger] g[p] == num;
        assert(q != pos && same_unit(pos, q) && g[q] == num);
        assert(!unit_free(g, pos, num));
    }
    if mask_has(boxes[b], num) {
        let q = choose|p: int| 0 <= p < 256 && box_of(p) == b && #[trigger] g[p] == num;
        assert(q != pos && same_unit(pos, q) && g[q] == num);
        assert(!unit_free(g, pos, num));
    }
}

/// Scanning one more cell that is empty changes nothing.
pub proof fn lemma_scan_skip(g: Seq<u8>, rows: Seq<u16>, cols: Seq<u16>, boxes: Seq<u16>, n: int)
    requires
        g.len() == 256,
        0 <= n < 256,
        g[n] == 0,
        masks_match_upto(g, rows, cols, boxes, n),
    ensures
        masks_match_upto(g, rows, cols, boxes, n + 1),
{
    assert forall|i: int, v: u8| 0 <= i < 16 && 1 <= v <= 16 implies #[trigger] mask_has(rows[i], v)
        == row_has_upto(g, i, v, n + 1) by {
        if row_has_upto(g, i, v, n + 1) {
            let p = choose|p: int| 0 <= p < n + 1 && row_of(p) == i && #[trigger] g[p] == v;
            assert(p != n);
            assert(row_has_upto(g, i, v, n));
        }
        if row_has_upto(g, i, v, n) {
            let p = choose|p: int| 0 <= p < n && row_of(p) == i && #[trigger] g[p] == v;
            assert(row_has_upto(g, i, v, n + 1));
        }
    }
    assert forall|j: int, v: u8| 0 <= j < 16 && 1 <= v <= 16 implies #[trigger] mask_has(cols[j], v)
        == col_has_upto(g, j, v, n + 1) by {
        if col_has_upto(g, j, v, n + 1) {
            let p = choose|p: int| 0 <= p < n + 1 && col_of(p) == j && #[trigger] g[p] == v;
            assert(p != n);
            assert(col_has_upto(g, j, v, n));
        }
        if col_has_upto(g, j, v, n) {
            let p = choose|p: int| 0 <= p < n && col_of(p) == j && #[trigger] g[p] == v;
            assert(col_has_upto(g, j, v, n + 1));
        }
    }
    assert forall|b: int, v: u8| 0 <= b < 16 && 1 <= v <= 16 implies #[trigger] mask_has(
        boxes[b],
        v,
    ) == box_has_upto(g, b, v, n + 1) by {
        if box_has_upto(g, b, v, n + 1) {
            let p = choose|p: int| 0 <= p < n + 1 && box_of(p) == b && #[trigger] g[p] == v;
            assert(p != n);
            assert(box_has_upto(g, b, v, n));
        }
        if box_has_upto(g, b, v, n) {
            let p = choose|p: int| 0 <= p < n && box_of(p) == b && #[trigger] g[p] == v;
            assert(box_has_upto(g, b, v, n + 1));
        }
    }
}

/// Scanning one more cell that holds a symbol: setting that symbol's bit in
/// the cell's row, column and box masks keeps the masks in step.
pub proof fn lemma_scan_record(g: Seq<u8>, rows: Seq<u16>, cols: Seq<u16>, boxes: Seq<u16>, n: int)
    requires
        g.len() == 256,
        0 <= n < 256,
        1 <= g[n] <= 16,
        masks_match_upto(g, rows, cols, boxes, n),
    ensures
        masks_match_upto(
            g,
            rows.update(row_of(n), rows[row_of(n)] | sym_bit(g[n])),
            cols.update(col_of(n), cols[col_of(n)] | sym_bit(g[n])),
            boxes.update(box_of(n), boxes[box_of(n)] | sym_bit(g[n])),
            n + 1,
        ),
{
    let w = g[n];
    let rows2 = rows.update(row_of(n), rows[row_of(n)] | sym_bit(w));
    let cols2 = cols.update(col_of(n), cols[col_of(n)] | sym_bit(w));
    let boxes2 = boxes.update(box_of(n), boxes[box_of(n)] | sym_bit(w));
    assert(0 <= row_of(n) < 16 && 0 <= col_of(n) < 16 && 0 <= box_of(n) < 16);
    assert forall|i: int, v: u8| 0 <= i < 16 && 1 <= v <= 16 implies #[trigger] mask_has(
        rows2[i],
        v,
    ) == row_has_upto(g, i, v, n + 1) by {
        if i == row_of(n) {
            lemma_mask_set(rows[i], w, v);
            if mask_has(rows[i], v) {
                let p = choose|p: int| 0 <= p < n && row_of(p) == i && #[trigger] g[p] == v;
                assert(row_has_upto(g, i, v, n + 1));
            }
            if v == w {
                assert(0 <= n < n + 1 && row_of(n) == i && g[n] == v);
                assert(row_has_upto(g, i, v, n + 1));
            }
            if row_has_upto(g, i, v, n + 1) {
                let p = choose|p: int| 0 <= p < n + 1 && row_of(p) == i && #[trigger] g[p] == v;
                if p < n {
                    assert(row_has_upto(g, i, v, n));
                } else {
                    assert(v == w);
                }
            }
        } else {
            if row_has_upto(g, i, v, n + 1) {
                let p = choose|p: int| 0 <= p < n + 1 && row_of(p) == i && #[trigger] g[p] == v;
                assert(p != n);
                assert(row_has_upto(g, i, v, n));
            }
            if row_has_upto(g, i, v, n) {
                let p = choose|p: int| 0 <= p < n && row_of(p) == i && #[trigger] g[p] == v;
                assert(row_has_upto(g, i, v, n + 1));
            }
        }
    }
    assert forall|j: int, v: u8| 0 <= j < 16 && 1 <= v <= 16 implies #[trigger] mask_has(
        cols2[j],
        v,
    ) == col_has_upto(g, j, v, n + 1) by {
        if j == col_of(n) {
            lemma_mask_set(cols[j], w, v);
            if mask_has(cols[j], v) {
                let p = choose|p: int| 0 <= p < n && col_of(p) == j && #[trigger] g[p] == v;
                assert(col_has_upto(g, j, v, n + 1));
            }
            if v == w {
                assert(0 <= n < n + 1 && col_of(n) == j && g[n] == v);
                assert(col_has_upto(g, j, v, n + 1));
            }
            if col_has_upto(g, j, v, n + 1) {
                let p = choose|p: int| 0 <= p < n + 1 && col_of(p) == j && #[trigger] g[p] == v;
                if p < n {
                    assert(col_has_upto(g, j, v, n));
                } else {
                    assert(v == w);
                }
            }
        } else {
            if col_has_upto(g, j, v, n + 1) {
                let p = choose|p: int| 0 <= p < n + 1 && col_of(p) == j && #[trigger] g[p] == v;
                assert(p != n);
                assert(col_has_upto(g, j, v, n));
            }
            if col_has_upto(g, j, v, n) {
                let p = choose|p: int| 0 <= p < n && col_of(p) == j && #[trigger] g[p] == v;
                assert(col_has_upto(g, j, v, n + 1));
            }
        }
    }
    assert forall|b: int, v: u8| 0 <= b < 16 && 1 <= v <= 16 implies #[trigger] mask_has(
        boxes2[b],
        v,
    ) == box_has_upto(g, b, v, n + 1) by {
        if b == box_of(n) {
            lemma_mask_set(boxes[b], w, v);
            if mask_has(boxes[b], v) {
                let p = choose|p: int| 0 <= p < n && box_of(p) == b && #[trigger] g[p] == v;
                assert(box_has_upto(g, b, v, n + 1));
            }
            if v == w {
                assert(0 <= n < n + 1 && box_of(n) == b && g[n] == v);
                assert(box_has_upto(g, b, v, n + 1));
            }
            if box_has_upto(g, b, v, n + 1) {
                let p = choose|p: int| 0 <= p < n + 1 && box_of(p) == b && #[trigger] g[p] == v;
                if p < n {
                    assert(box_has_upto(g, b, v, n));
                } else {
                    assert(v == w);
                }
            }
        } else {
            if box_has_upto(g, b, v, n + 1) {
                let p = choose|p: int| 0 <= p < n + 1 && box_of(p) == b && #[trigger] g[p] == v;
                assert(p != n);
                assert(box_has_upto(g, b, v, n));
            }
            if box_has_upto(g, b, v, n) {
                let p = choose|p: int| 0 <= p < n && box_of(p) == b && #[trigger] g[p] == v;
                assert(box_has_upto(g, b, v, n + 1));
            }
        }
    }
}

/// Placing a symbol at an empty cell: setting its bit in the cell's row,
/// column and box masks keeps the masks in step with the updated grid.
pub proof fn lemma_place_record(
    g: Seq<u8>,
    rows: Seq<u16>,
    cols: Seq<u16>,
    boxes: Seq<u16>,
    pos: int,
    num: u8,
)
    requires
        g.len() == 256,
        0 <= pos < 256,
        g[pos] == 0,
        1 <= num <= 16,
        masks_match(g, rows, cols, boxes),
    ensures
        masks_match(
            g.update(pos, num),
            rows.update(row_of(pos), rows[row_of(pos)] | sym_bit(num)),
            cols.update(col_of(pos), cols[col_of(pos)] | sym_bit(num)),
            boxes.update(box_of(pos), boxes[box_of(pos)] | sym_bit(num)),
        ),
{
    let g2 = g.update(pos, num);
    let rows2 = rows.update(row_of(pos), rows[row_of(pos)] | sym_bit(num));
    let cols2 = cols.update(col_of(pos), cols[col_of(pos)] | sym_bit(num));
    let boxes2 = boxes.update(box_of(pos), boxes[box_of(pos)] | sym_bit(num));
    assert(0 <= row_of(pos) < 16 && 0 <= col_of(pos) < 16 && 0 <= box_of(pos) < 16);
    assert forall|i: int, v: u8| 0 <= i < 16 && 1 <= v <= 16 implies #[trigger] mask_has(
        rows2[i],
        v,
    ) == row_has_upto(g2, i, v, 256) by {
        if i == row_of(pos) {
            lemma_mask_set(rows[i], num, v);
            if mask_has(rows[i], v) {
                let p = choose|p: int| 0 <= p < 256 && row_of(p) == i && #[trigger] g[p] == v;
                assert(p != pos && g2[p] == v);
                assert(row_has_upto(g2, i, v, 256));
            }
            if v == num {
                assert(g2[pos] == v && row_of(pos) == i);
                assert(row_has_upto(g2, i, v, 256));
            }
            if row_has_upto(g2, i, v, 256) {
                let p = choose|p: int| 0 <= p < 256 && row_of(p) == i && #[trigger] g2[p] == v;
                if p == pos {
                    assert(v == num);
                } else {
                    assert(g[p] == v);
                    assert(row_has_upto(g, i, v, 256));
                }
            }
        } else {
            if row_has_upto(g2, i, v, 256) {
                let p = choose|p: int| 0 <= p < 256 && row_of(p) == i && #[trigger] g2[p] == v;
                assert(p != pos && g[p] == v);
                assert(row_has_upto(g, i, v, 256));
            }
            if row_has_upto(g, i, v, 256) {
                let p = choose|p: int| 0 <= p < 256 && row_of(p) == i && #[trigger] g[p] == v;
                assert(p != pos && g2[p] == v);
                assert(row_has_upto(g2, i, v, 256));
            }
        }
    }
    assert forall|j: int, v: u8| 0 <= j < 16 && 1 <= v <= 16 implies #[trigger] mask_has(
        cols2[j],
        v,
    ) == col_has_upto(g2, j, v, 256) by {
        if j == col_of(pos) {
            lemma_mask_set(cols[j], num, v);
            if mask_has(cols[j], v) {
                let p = choose|p: int| 0 <= p < 256 && col_of(p) == j && #[trigger] g[p] == v;
                assert(p != pos && g2[p] == v);
                assert(col_has_upto(g2, j, v, 256));
            }
            if v == num {
                assert(g2[pos] == v && col_of(pos) == j);
                assert(col_has_upto(g2, j, v, 256));
            }
            if col_has_upto(g2, j, v, 256) {
                let p = choose|p: int| 0 <= p < 256 && col_of(p) == j && #[trigger] g2[p] == v;
                if p == pos {
                    assert(v == num);
                } else {
                    assert(g[p] == v);
                    assert(col_has_upto(g, j, v, 256));
                }
            }
        } else {
            if col_has_upto(g2, j, v, 256) {
                let p = choose|p: int| 0 <= p < 256 && col_of(p) == j && #[trigger] g2[p] == v;
                assert(p != pos && g[p] == v);
                assert(col_has_upto(g, j, v, 256));
            }
            if col_has_upto(g, j, v, 256) {
                let p = choose|p: int| 0 <= p < 256 && col_of(p) == j && #[trigger] g[p] == v;
                assert(p != pos && g2[p] == v);
                assert(col_has_upto(g2, j, v, 256));
            }
        }
    }
    assert forall|b: int, v: u8| 0 <= b < 16 && 1 <= v <= 16 implies #[trigger] mask_has(
        boxes2[b],
        v,
    ) == box_has_upto(g2, b, v, 256) by {
        if b == box_of(pos) {
            lemma_mask_set(boxes[b], num, v);
            if mask_has(boxes[b], v) {
                let p = choose|p: int| 0 <= p < 256 && box_of(p) == b && #[trigger] g[p] == v;
                assert(p != pos && g2[p] == v);
                assert(box_has_upto(g2, b, v, 256));
            }
            if v == num {
                assert(g2[pos] == v && box_of(pos) == b);
                assert(box_has_upto(g2, b, v, 256));
            }
            if box_has_upto(g2, b, v, 256) {
                let p = choose|p: int| 0 <= p < 256 && box_of(p) == b && #[trigger] g2[p] == v;
                if p == pos {
                    assert(v == num);
                } else {
                    assert(g[p] == v);
                    assert(box_has_upto(g, b, v, 256));
                }
            }
        } else {
            if box_has_upto(g2, b, v, 256) {
                let p = choose|p: int| 0 <= p < 256 && box_of(p) == b && #[trigger] g2[p] == v;
                assert(p != pos && g[p] == v);
                assert(box_has_upto(g, b, v, 256));
            }
            if box_has_upto(g, b, v, 256) {
                let p = choose|p: int| 0 <= p < 256 && box_of(p) == b && #[trigger] g[p] == v;
                assert(p != pos && g2[p] == v);
                assert(box_has_upto(g2, b, v, 256));
            }
        }
    }
}

} // verus!
