//! Bit-set masks that record which digits each row, column and subgrid holds.
use vstd::prelude::*;
use crate::grid::{
    box_col, box_index, box_row, in_bounds, in_box, in_col, in_row, lemma_box_cell,
    lemma_box_coords, Grid,
};
use crate::solver::scan_pos;

verus! {

/// Bit `d` of mask `m` is set: digit `d` is recorded as present.
pub open spec fn has_digit(m: u16, d: u8) -> bool {
    m & (1u16 << d) != 0
}

/// The row, column and subgrid masks record exactly the digits placed in `g`.
pub open spec fn masks_match(g: Grid, rows: [u16; 9], cols: [u16; 9], subgrids: [u16; 9]) -> bool {
    &&& forall|r: int, d: u8| 0 <= r < 9 && 1 <= d <= 9 ==>
        (#[trigger] has_digit(rows[r], d) <==> in_row(g, r, d))
    &&& forall|c: int, d: u8| 0 <= c < 9 && 1 <= d <= 9 ==>
        (#[trigger] has_digit(cols[c], d) <==> in_col(g, c, d))
    &&& forall|b: int, d: u8| 0 <= b < 9 && 1 <= d <= 9 ==>
        (#[trigger] has_digit(subgrids[b], d) <==> in_box(g, b, d))
}

/// Setting bit `d` adds digit `d` and nothing else.
pub proof fn lemma_bit_set(m: u16, d: u8, e: u8)
    by (bit_vector)
    requires
        1 <= d <= 9,
        1 <= e <= 9,
    ensures
        has_digit(m | (1u16 << d), e) <==> (has_digit(m, e) || d == e),
{
}

/// Clearing a bit that was just set restores the mask.
pub proof fn lemma_bit_clear(m: u16, d: u8)
    by (bit_vector)
    requires
        1 <= d <= 9,
        !has_digit(m, d),
    ensures
        (m | (1u16 << d)) & !(1u16 << d) == m,
{
}

/// Digit `d` occurs in row `r` among the first `k` cells in scan order.
pub open spec fn row_has_before(g: Grid, r: int, d: u8, k: int) -> bool {
    exists|i: int| 0 <= i < 9 && scan_pos(r, i) < k && #[trigger] g[r][i] == d
}

/// Digit `d` occurs in column `c` among the first `k` cells in scan order.
pub open spec fn col_has_before(g: Grid, c: int, d: u8, k: int) -> bool {
    exists|i: int| 0 <= i < 9 && scan_pos(i, c) < k && #[trigger] g[i][c] == d
}

/// Digit `d` occurs in subgrid `b` among the first `k` cells in scan order.
pub open spec fn box_has_before(g: Grid, b: int, d: u8, k: int) -> bool {
    exists|i: int, j: int|
        0 <= i < 3 && 0 <= j < 3 && scan_pos(box_row(b, i), box_col(b, j)) < k
            && #[trigger] g[box_row(b, i)][box_col(b, j)] == d
}

/// The masks record exactly the digits of the first `k` cells in scan order.
pub open spec fn masks_before(g: Grid, rows: [u16; 9], cols: [u16; 9], subgrids: [u16; 9], k: int) -> bool {
    &&& forall|r: int, d: u8| 0 <= r < 9 && 1 <= d <= 9 ==>
        (#[trigger] has_digit(rows[r], d) <==> row_has_before(g, r, d, k))
    &&& forall|c: int, d: u8| 0 <= c < 9 && 1 <= d <= 9 ==>
        (#[trigger] has_digit(cols[c], d) <==> col_has_before(g, c, d, k))
    &&& forall|b: int, d: u8| 0 <= b < 9 && 1 <= d <= 9 ==>
        (#[trigger] has_digit(subgrids[b], d) <==> box_has_before(g, b, d, k))
}

/// The empty mask records no digit.
pub proof fn lemma_bit_empty(d: u8)
    by (bit_vector)
    requires
        1 <= d <= 9,
    ensures
        !has_digit(0u16, d),
{
}

/// Taking one more cell of the scan adds its digit to its row, column and
/// subgrid.
pub proof fn lemma_scan_step(g: Grid, r: int, c: int)
    requires
        in_bounds(r, c),
    ensures
        forall|r2: int, d: u8| 0 <= r2 < 9 ==>
            (#[trigger] row_has_before(g, r2, d, scan_pos(r, c) + 1)
                <==> row_has_before(g, r2, d, scan_pos(r, c)) || (r2 == r && g[r][c] == d)),
        forall|c2: int, d: u8| 0 <= c2 < 9 ==>
            (#[trigger] col_has_before(g, c2, d, scan_pos(r, c) + 1)
                <==> col_has_before(g, c2, d, scan_pos(r, c)) || (c2 == c && g[r][c] == d)),
        forall|b: int, d: u8| 0 <= b < 9 ==>
            (#[trigger] box_has_before(g, b, d, scan_pos(r, c) + 1)
                <==> box_has_before(g, b, d, scan_pos(r, c)) || (b == box_index(r, c) && g[r][c] == d)),
{
    let k = scan_pos(r, c);
    lemma_box_coords(r, c);
    assert forall|r2: int, d: u8| 0 <= r2 < 9 implies
        (#[trigger] row_has_before(g, r2, d, k + 1)
            <==> row_has_before(g, r2, d, k) || (r2 == r && g[r][c] == d)) by {
        if row_has_before(g, r2, d, k + 1) {
            let i = choose|i: int| 0 <= i < 9 && scan_pos(r2, i) < k + 1 && #[trigger] g[r2][i] == d;
            if scan_pos(r2, i) != k {
                assert(row_has_before(g, r2, d, k));
            }
        }
        if r2 == r && g[r][c] == d {
            assert(scan_pos(r, c) < k + 1 && g[r][c] == d);
        }
    }
    assert forall|c2: int, d: u8| 0 <= c2 < 9 implies
        (#[trigger] col_has_before(g, c2, d, k + 1)
            <==> col_has_before(g, c2, d, k) || (c2 == c && g[r][c] == d)) by {
        if col_has_before(g, c2, d, k + 1) {
            let i = choose|i: int| 0 <= i < 9 && scan_pos(i, c2) < k + 1 && #[trigger] g[i][c2] == d;
            if scan_pos(i, c2) != k {
                assert(col_has_before(g, c2, d, k));
            }
        }
        if c2 == c && g[r][c] == d {
            assert(scan_pos(r, c) < k + 1 && g[r][c] == d);
        }
    }
    assert forall|b: int, d: u8| 0 <= b < 9 implies
        (#[trigger] box_has_before(g, b, d, k + 1)
            <==> box_has_before(g, b, d, k) || (b == box_index(r, c) && g[r][c] == d)) by {
        if box_has_before(g, b, d, k + 1) {
            let (i, j) = choose|i: int, j: int|
                0 <= i < 3 && 0 <= j < 3 && scan_pos(box_row(b, i), box_col(b, j)) < k + 1
                    && #[trigger] g[box_row(b, i)][box_col(b, j)] == d;
            lemma_box_cell(b, i, j);
            if scan_pos(box_row(b, i), box_col(b, j)) != k {
                assert(box_has_before(g, b, d, k));
            }
        }
        if b == box_index(r, c) && g[r][c] == d {
            assert(box_row(b, r % 3) == r && box_col(b, c % 3) == c);
            assert(g[box_row(b, r % 3)][box_col(b, c % 3)] == d);
        }
    }
}

} // verus!
