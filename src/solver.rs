//! Backtracking search with bitmask bookkeeping and the
//! minimum-remaining-values choice of the next cell.
use vstd::prelude::*;
use crate::grid::{
    box_col, box_index, box_row, in_bounds, in_box, in_col, in_row, is_solution_of, is_valid,
    lemma_blocked, lemma_box_cell, lemma_box_coords, lemma_grid_ext, lemma_place, placeable,
    solvable, updated, valid_grid, Grid,
};
use crate::masks::{
    box_has_before, col_has_before, has_digit, lemma_bit_clear, lemma_bit_empty, lemma_bit_set,
    lemma_scan_step, masks_before, masks_match, row_has_before,
};

verus! {

/// Number of digits among 1..=n that may be placed at (r, c).
pub open spec fn options_upto(g: Grid, r: int, c: int, n: int) -> int
    decreases n,
{
    if n <= 0 {
        0
    } else {
        options_upto(g, r, c, n - 1) + if placeable(g, r, c, n as u8) { 1int } else { 0int }
    }
}

/// Number of digits that may be placed at (r, c).
pub open spec fn options(g: Grid, r: int, c: int) -> int {
    options_upto(g, r, c, 9)
}

/// Position of cell (r, c) in row-major scan order.
pub open spec fn scan_pos(r: int, c: int) -> int {
    r * 9 + c
}

/// (r, c) is the empty cell with the fewest options, the first in scan order
/// among those that tie.
pub open spec fn is_mrv_cell(g: Grid, r: int, c: int) -> bool {
    &&& in_bounds(r, c)
    &&& g[r][c] == 0
    &&& forall|r2: int, c2: int| in_bounds(r2, c2) && g[r2][c2] == 0 ==> {
        &&& #[trigger] options(g, r2, c2) >= options(g, r, c)
        &&& scan_pos(r2, c2) < scan_pos(r, c) ==> options(g, r2, c2) > options(g, r, c)
    }
}

/// No cell is empty.
pub open spec fn filled(g: Grid) -> bool {
    forall|r: int, c: int| in_bounds(r, c) ==> #[trigger] g[r][c] != 0
}

proof fn lemma_options_bound(g: Grid, r: int, c: int, n: int)
    requires
        0 <= n,
    ensures
        0 <= options_upto(g, r, c, n) <= n,
    decreases n,
{
    if n > 0 {
        lemma_options_bound(g, r, c, n - 1);
    }
}

/// Number of digits that may be placed at the empty cell (row, col).
fn count_options(grid: &Grid, row: usize, col: usize) -> (count: u8)
    requires
        row < 9,
        col < 9,
    ensures
        count == options(*grid, row as int, col as int),
{
    let mut count: u8 = 0;
    let mut num: u8 = 1;
    while num <= 9
        invariant
            row < 9,
            col < 9,
            1 <= num <= 10,
            count == options_upto(*grid, row as int, col as int, num - 1),
        decreases 10 - num,
    {
        proof {
            lemma_options_bound(*grid, row as int, col as int, num - 1);
        }
        if is_valid(grid, row, col, num) {
            count += 1;
        }
        num += 1;
    }
    count
}

/// The empty cell with the fewest placeable digits, scanning row-major and
/// keeping the earliest cell on ties; `None` when no cell is empty.
pub fn find_empty_cell(grid: &Grid) -> (res: Option<(usize, usize)>)
    ensures
        match res {
            None => filled(*grid),
            Some((r, c)) => r < 9 && c < 9 && is_mrv_cell(*grid, r as int, c as int),
        },
{
    let mut min_possibilities: u8 = 10;
    let mut target_cell: Option<(usize, usize)> = None;
    let mut row: usize = 0;
    while row < 9
        invariant
            0 <= row <= 9,
            match target_cell {
                None => min_possibilities == 10 && forall|r: int, c: int|
                    in_bounds(r, c) && scan_pos(r, c) < scan_pos(row as int, 0) ==> #[trigger] grid[r][c] != 0,
                Some((tr, tc)) => {
                    &&& tr < 9 && tc < 9
                    &&& scan_pos(tr as int, tc as int) < scan_pos(row as int, 0)
                    &&& grid[tr as int][tc as int] == 0
                    &&& min_possibilities == options(*grid, tr as int, tc as int)
                    &&& forall|r2: int, c2: int| in_bounds(r2, c2) && grid[r2][c2] == 0
                        && scan_pos(r2, c2) < scan_pos(row as int, 0) ==> {
                        &&& #[trigger] options(*grid, r2, c2) >= min_possibilities
                        &&& scan_pos(r2, c2) < scan_pos(tr as int, tc as int) ==> options(*grid, r2, c2) > min_possibilities
                    }
                },
            },
        decreases 9 - row,
    {
        let mut col: usize = 0;
        while col < 9
            invariant
                0 <= row < 9,
                0 <= col <= 9,
                match target_cell {
                    None => min_possibilities == 10 && forall|r: int, c: int|
                        in_bounds(r, c) && scan_pos(r, c) < scan_pos(row as int, col as int) ==> #[trigger] grid[r][c] != 0,
                    Some((tr, tc)) => {
                        &&& tr < 9 && tc < 9
                        &&& scan_pos(tr as int, tc as int) < scan_pos(row as int, col as int)
                        &&& grid[tr as int][tc as int] == 0
                        &&& min_possibilities == options(*grid, tr as int, tc as int)
                        &&& forall|r2: int, c2: int| in_bounds(r2, c2) && grid[r2][c2] == 0
                            && scan_pos(r2, c2) < scan_pos(row as int, col as int) ==> {
                            &&& #[trigger] options(*grid, r2, c2) >= min_possibilities
                            &&& scan_pos(r2, c2) < scan_pos(tr as int, tc as int) ==> options(*grid, r2, c2) > min_possibilities
                        }
                    },
                },
            decreases 9 - col,
        {
            if grid[row][col] == 0 {
                let count = count_options(grid, row, col);
                proof {
                    lemma_options_bound(*grid, row as int, col as int, 9);
                }
                if count < min_possibilities {
                    min_possibilities = count;
                    target_cell = Some((row, col));
                }
            }
            col += 1;
        }
        row += 1;
    }
    target_cell
}

/// (r, c) and (r2, c2) both meet the cell-choice rule only when they are the same cell.
proof fn lemma_mrv_unique(g: Grid, r: int, c: int, r2: int, c2: int)
    requires
        is_mrv_cell(g, r, c),
        is_mrv_cell(g, r2, c2),
    ensures
        r == r2 && c == c2,
{
    assert(options(g, r2, c2) >= options(g, r, c));
    assert(options(g, r, c) >= options(g, r2, c2));
}

/// The empty cell that the search fills next.
pub open spec fn next_cell(g: Grid) -> (int, int) {
    choose|rc: (int, int)| is_mrv_cell(g, rc.0, rc.1)
}

/// `g` with cell (r, c) set to `d`.
pub open spec fn with_cell(g: Grid, r: int, c: int, d: u8) -> Grid {
    vstd::array::spec_array_update(g, r, vstd::array::spec_array_update(g[r], c, d))
}

/// What the search finds from `g` with at most `n` cells left to fill: the
/// first completion reached by filling the chosen cell with digits in
/// ascending order, or `None`.
pub open spec fn search(g: Grid, n: nat) -> Option<Grid>
    decreases n, 11int,
{
    if filled(g) {
        Some(g)
    } else if n == 0 {
        None
    } else {
        try_digits(g, next_cell(g).0, next_cell(g).1, 1, n)
    }
}

/// The search from cell (r, c) of `g`, trying digits `d` to 9 in turn.
pub open spec fn try_digits(g: Grid, r: int, c: int, d: int, n: nat) -> Option<Grid>
    decreases n, 10 - d,
{
    if d > 9 || n == 0 {
        None
    } else if placeable(g, r, c, d as u8) {
        match search(with_cell(g, r, c, d as u8), (n - 1) as nat) {
            Some(s) => Some(s),
            None => try_digits(g, r, c, d + 1, n),
        }
    } else {
        try_digits(g, r, c, d + 1, n)
    }
}

/// The grid that solving `g` leaves: the completion found, else `g` itself.
pub open spec fn outcome(g: Grid) -> Grid {
    match search(g, empties(g) as nat) {
        Some(s) => s,
        None => g,
    }
}

/// Whether solving `g` succeeds.
pub open spec fn found(g: Grid) -> bool {
    search(g, empties(g) as nat) is Some
}

proof fn lemma_with_cell(g: Grid, r: int, c: int, d: u8)
    requires
        in_bounds(r, c),
    ensures
        updated(g, with_cell(g, r, c, d), r, c, d),
{
    broadcast use vstd::array::group_array_axioms;
    let h = with_cell(g, r, c, d);
    assert forall|r2: int, c2: int| in_bounds(r2, c2) implies
        #[trigger] h[r2][c2] == (if r2 == r && c2 == c { d } else { g[r2][c2] }) by {
    }
}

/// Number of empty cells among the first `k` in scan order.
pub open spec fn empties_upto(g: Grid, k: int) -> int
    decreases k,
{
    if k <= 0 {
        0
    } else {
        empties_upto(g, k - 1) + if g[(k - 1) / 9][(k - 1) % 9] == 0 { 1int } else { 0int }
    }
}

/// Number of empty cells.
pub open spec fn empties(g: Grid) -> int {
    empties_upto(g, 81)
}

/// Filling one empty cell lowers the count of empty cells by one.
proof fn lemma_fill_empties(g: Grid, h: Grid, r: int, c: int, d: u8, k: int)
    requires
        in_bounds(r, c),
        g[r][c] == 0,
        d != 0,
        updated(g, h, r, c, d),
        0 <= k <= 81,
    ensures
        empties_upto(h, k) == empties_upto(g, k) - if scan_pos(r, c) < k { 1int } else { 0int },
        empties_upto(h, k) >= 0,
    decreases k,
{
    if k > 0 {
        lemma_fill_empties(g, h, r, c, d, k - 1);
        assert(in_bounds((k - 1) / 9, (k - 1) % 9));
        assert(h[(k - 1) / 9][(k - 1) % 9] == (if (k - 1) / 9 == r && (k - 1) % 9 == c { d } else {
            g[(k - 1) / 9][(k - 1) % 9]
        }));
    }
}

/// Completes `grid` by depth-first search, keeping the masks in step with it.
/// Success comes exactly when a solution exists; the grid is then the first
/// solution that the search reaches (`outcome`). On failure the grid and the
/// masks are as they were given.
pub fn solve(grid: &mut Grid, rows: &mut [u16; 9], cols: &mut [u16; 9], subgrids: &mut [u16; 9]) -> (solved: bool)
    requires
        valid_grid(*old(grid)),
        masks_match(*old(grid), *old(rows), *old(cols), *old(subgrids)),
    ensures
        solved == solvable(*old(grid)),
        solved == found(*old(grid)),
        *final(grid) == outcome(*old(grid)),
        solved ==> is_solution_of(*final(grid), *old(grid)),
        !solved ==> {
            &&& *final(grid) == *old(grid)
            &&& *final(rows) == *old(rows)
            &&& *final(cols) == *old(cols)
            &&& *final(subgrids) == *old(subgrids)
        },
    decreases empties(*grid),
{
    let ghost g0 = *grid;
    let ghost rows0 = *rows;
    let ghost cols0 = *cols;
    let ghost subs0 = *subgrids;
    if let Some((row, col)) = find_empty_cell(grid) {
        let b: usize = (row / 3) * 3 + (col / 3);
        proof {
            lemma_box_coords(row as int, col as int);
            lemma_with_cell(g0, row as int, col as int, 1);
            lemma_fill_empties(g0, with_cell(g0, row as int, col as int, 1), row as int, col as int, 1, 81);
            assert(scan_pos(row as int, col as int) < 81);
            assert(!filled(g0));
            lemma_mrv_unique(g0, row as int, col as int, next_cell(g0).0, next_cell(g0).1);
        }
        let mut num: u8 = 1;
        while num <= 9
            invariant
                row < 9,
                col < 9,
                b == box_index(row as int, col as int),
                g0[row as int][col as int] == 0,
                valid_grid(g0),
                masks_match(g0, rows0, cols0, subs0),
                g0 == *old(grid),
                *grid == g0,
                *rows == rows0,
                *cols == cols0,
                *subgrids == subs0,
                1 <= num <= 10,
                forall|s: Grid| is_solution_of(s, g0) ==> #[trigger] s[row as int][col as int] >= num,
                empties(g0) >= 1,
                search(g0, empties(g0) as nat) == try_digits(g0, row as int, col as int, num as int, empties(g0) as nat),
            decreases 10 - num,
        {
            let mask: u16 = 1u16 << num;
            if (rows[row] & mask) == 0 && (cols[col] & mask) == 0 && (subgrids[b] & mask) == 0 {
                assert(!has_digit(rows[row as int], num) && !has_digit(cols[col as int], num)
                    && !has_digit(subgrids[b as int], num));
                assert(placeable(g0, row as int, col as int, num));
                grid[row][col] = num;
                rows[row] |= mask;
                cols[col] |= mask;
                subgrids[b] |= mask;
                let ghost g1 = *grid;
                proof {
                    assert(updated(g0, g1, row as int, col as int, num));
                    lemma_with_cell(g0, row as int, col as int, num);
                    lemma_grid_ext(g1, with_cell(g0, row as int, col as int, num));
                    lemma_place(g0, g1, row as int, col as int, num);
                    lemma_fill_empties(g0, g1, row as int, col as int, num, 81);
                    assert(scan_pos(row as int, col as int) < 81);
                    assert(0 <= empties(g1) < empties(g0));
                    assert forall|r: int, d: u8| 0 <= r < 9 && 1 <= d <= 9 implies
                        (#[trigger] has_digit(rows[r], d) <==> in_row(g1, r, d)) by {
                        lemma_bit_set(rows0[r], num, d);
                    }
                    assert forall|c: int, d: u8| 0 <= c < 9 && 1 <= d <= 9 implies
                        (#[trigger] has_digit(cols[c], d) <==> in_col(g1, c, d)) by {
                        lemma_bit_set(cols0[c], num, d);
                    }
                    assert forall|bb: int, d: u8| 0 <= bb < 9 && 1 <= d <= 9 implies
                        (#[trigger] has_digit(subgrids[bb], d) <==> in_box(g1, bb, d)) by {
                        lemma_bit_set(subs0[bb], num, d);
                    }
                }
                if solve(grid, rows, cols, subgrids) {
                    assert(is_solution_of(*grid, g0));
                    return true;
                }
                assert forall|s: Grid| is_solution_of(s, g0) implies #[trigger] s[row as int][col as int] != num by {
                    if s[row as int][col as int] == num {
                        assert forall|r: int, c: int| in_bounds(r, c) && g1[r][c] != 0 implies
                            #[trigger] s[r][c] == g1[r][c] by {}
                        assert(is_solution_of(s, g1));
                    }
                }
                grid[row][col] = 0;
                rows[row] &= !mask;
                cols[col] &= !mask;
                subgrids[b] &= !mask;
                proof {
                    lemma_grid_ext(*grid, g0);
                    lemma_bit_clear(rows0[row as int], num);
                    lemma_bit_clear(cols0[col as int], num);
                    lemma_bit_clear(subs0[b as int], num);
                    assert(*rows =~= rows0);
                    assert(*cols =~= cols0);
                    assert(*subgrids =~= subs0);
                }
            } else {
                assert(has_digit(rows[row as int], num) || has_digit(cols[col as int], num)
                    || has_digit(subgrids[b as int], num));
                proof {
                    assert forall|s: Grid| is_solution_of(s, g0) implies #[trigger] s[row as int][col as int] != num by {
                        lemma_blocked(g0, s, row as int, col as int, num);
                    }
                }
            }
            num += 1;
        }
        proof {
            assert forall|s: Grid| !is_solution_of(s, g0) by {
                if is_solution_of(s, g0) {
                    assert(in_bounds(row as int, col as int));
                    assert(s[row as int][col as int] <= 9);
                }
            }
        }
        false
    } else {
        proof {
            assert(is_solution_of(g0, g0));
        }
        true
    }
}

/// Solves `grid` in place. Returns whether it was solved, which is exactly
/// when a solution exists: the grid then holds the first solution that the
/// search reaches (`outcome`, a function of the input alone); otherwise it is
/// left as it was given.
pub fn solve_sudoku(grid: &mut Grid) -> (solved: bool)
    requires
        valid_grid(*old(grid)),
    ensures
        solved == solvable(*old(grid)),
        solved == found(*old(grid)),
        *final(grid) == outcome(*old(grid)),
        solved ==> is_solution_of(*final(grid), *old(grid)),
        !solved ==> *final(grid) == *old(grid),
{
    let mut rows: [u16; 9] = [0u16; 9];
    let mut cols: [u16; 9] = [0u16; 9];
    let mut subgrids: [u16; 9] = [0u16; 9];
    proof {
        assert forall|d: u8| 1 <= d <= 9 implies !has_digit(0u16, d) by {
            lemma_bit_empty(d);
        }
    }
    let mut row: usize = 0;
    while row < 9
        invariant
            0 <= row <= 9,
            valid_grid(*grid),
            masks_before(*grid, rows, cols, subgrids, scan_pos(row as int, 0)),
        decreases 9 - row,
    {
        let mut col: usize = 0;
        while col < 9
            invariant
                0 <= row < 9,
                0 <= col <= 9,
                valid_grid(*grid),
                masks_before(*grid, rows, cols, subgrids, scan_pos(row as int, col as int)),
            decreases 9 - col,
        {
            let ghost k = scan_pos(row as int, col as int);
            let ghost (rows0, cols0, subs0) = (rows, cols, subgrids);
            proof {
                lemma_scan_step(*grid, row as int, col as int);
                lemma_box_coords(row as int, col as int);
                assert(in_bounds(row as int, col as int));
            }
            let num = grid[row][col];
            if num != 0 {
                let mask: u16 = 1u16 << num;
                let b: usize = (row / 3) * 3 + (col / 3);
                rows[row] |= mask;
                cols[col] |= mask;
                subgrids[b] |= mask;
                proof {
                    assert forall|r: int, d: u8| 0 <= r < 9 && 1 <= d <= 9 implies
                        (#[trigger] has_digit(rows[r], d) <==> row_has_before(*grid, r, d, k + 1)) by {
                        lemma_bit_set(rows0[r], num, d);
                    }
                    assert forall|c: int, d: u8| 0 <= c < 9 && 1 <= d <= 9 implies
                        (#[trigger] has_digit(cols[c], d) <==> col_has_before(*grid, c, d, k + 1)) by {
                        lemma_bit_set(cols0[c], num, d);
                    }
                    assert forall|bb: int, d: u8| 0 <= bb < 9 && 1 <= d <= 9 implies
                        (#[trigger] has_digit(subgrids[bb], d) <==> box_has_before(*grid, bb, d, k + 1)) by {
                        lemma_bit_set(subs0[bb], num, d);
                    }
                }
            }
            assert(scan_pos(row as int, col as int + 1) == k + 1);
            col += 1;
        }
        assert(scan_pos(row as int, 9) == scan_pos(row as int + 1, 0));
        row += 1;
    }
    proof {
        assert forall|r: int, d: u8| 0 <= r < 9 && 1 <= d <= 9 implies
            (#[trigger] has_digit(rows[r], d) <==> in_row(*grid, r, d)) by {
            if in_row(*grid, r, d) {
                let i = choose|i: int| 0 <= i < 9 && grid[r][i] == d;
                assert(scan_pos(r, i) < 81);
            }
        }
        assert forall|c: int, d: u8| 0 <= c < 9 && 1 <= d <= 9 implies
            (#[trigger] has_digit(cols[c], d) <==> in_col(*grid, c, d)) by {
            if in_col(*grid, c, d) {
                let i = choose|i: int| 0 <= i < 9 && grid[i][c] == d;
                assert(scan_pos(i, c) < 81);
            }
        }
        assert forall|b: int, d: u8| 0 <= b < 9 && 1 <= d <= 9 implies
            (#[trigger] has_digit(subgrids[b], d) <==> in_box(*grid, b, d)) by {
            if in_box(*grid, b, d) {
                let (i, j) = choose|i: int, j: int|
                    0 <= i < 3 && 0 <= j < 3 && #[trigger] grid[box_row(b, i)][box_col(b, j)] == d;
                lemma_box_cell(b, i, j);
                assert(scan_pos(box_row(b, i), box_col(b, j)) < 81);
            }
        }
    }
    solve(grid, &mut rows, &mut cols, &mut subgrids)
}

} // verus!
