//! The grid model, the placement rule and the validator.
use vstd::prelude::*;

verus! {

/// A 9x9 grid; 0 marks an empty cell, 1 to 9 a placed digit.
pub type Grid = [[u8; 9]; 9];

pub open spec fn in_bounds(r: int, c: int) -> bool {
    0 <= r < 9 && 0 <= c < 9
}

/// Index of the 3x3 subgrid holding cell (r, c).
pub open spec fn box_index(r: int, c: int) -> int {
    (r / 3) * 3 + c / 3
}

/// Two distinct cells that share a row, a column or a subgrid.
pub open spec fn peers(r1: int, c1: int, r2: int, c2: int) -> bool {
    &&& (r1 != r2 || c1 != c2)
    &&& (r1 == r2 || c1 == c2 || (r1 / 3 == r2 / 3 && c1 / 3 == c2 / 3))
}

/// Digit `d` occurs in row `r`.
pub open spec fn in_row(g: Grid, r: int, d: u8) -> bool {
    exists|i: int| 0 <= i < 9 && g[r][i] == d
}

/// Digit `d` occurs in column `c`.
pub open spec fn in_col(g: Grid, c: int, d: u8) -> bool {
    exists|i: int| 0 <= i < 9 && g[i][c] == d
}

/// Row of the `i`-th line of subgrid `b` (subgrids are numbered row-major).
pub open spec fn box_row(b: int, i: int) -> int {
    (b / 3) * 3 + i
}

/// Column of the `j`-th column of subgrid `b`.
pub open spec fn box_col(b: int, j: int) -> int {
    (b % 3) * 3 + j
}

/// Digit `d` occurs in subgrid `b`.
pub open spec fn in_box(g: Grid, b: int, d: u8) -> bool {
    exists|i: int, j: int| 0 <= i < 3 && 0 <= j < 3 && #[trigger] g[box_row(b, i)][box_col(b, j)] == d
}

/// Digit `d` may be written at (r, c): it occurs nowhere in the cell's row,
/// column or subgrid.
pub open spec fn placeable(g: Grid, r: int, c: int, d: u8) -> bool {
    !in_row(g, r, d) && !in_col(g, c, d) && !in_box(g, box_index(r, c), d)
}

/// Every cell holds 0 or a digit 1 to 9.
pub open spec fn in_range(g: Grid) -> bool {
    forall|r: int, c: int| in_bounds(r, c) ==> #[trigger] g[r][c] <= 9
}

/// The digit at (r, c), if any, occurs at no peer of (r, c).
pub open spec fn cell_unique(g: Grid, r: int, c: int) -> bool {
    g[r][c] != 0 ==> forall|r2: int, c2: int|
        in_bounds(r2, c2) && peers(r, c, r2, c2) ==> #[trigger] g[r2][c2] != g[r][c]
}

/// No placed digit is repeated within a row, a column or a subgrid.
pub open spec fn consistent(g: Grid) -> bool {
    forall|r: int, c: int| in_bounds(r, c) ==> #[trigger] cell_unique(g, r, c)
}

/// What the validator accepts.
pub open spec fn valid_grid(g: Grid) -> bool {
    in_range(g) && consistent(g)
}

/// Every cell holds a digit 1 to 9.
pub open spec fn complete(g: Grid) -> bool {
    forall|r: int, c: int| in_bounds(r, c) ==> 1 <= #[trigger] g[r][c] <= 9
}

/// `s` keeps every digit placed in `g`.
pub open spec fn extends(s: Grid, g: Grid) -> bool {
    forall|r: int, c: int| in_bounds(r, c) && g[r][c] != 0 ==> #[trigger] s[r][c] == g[r][c]
}

/// `s` is a legal completion of `g`.
pub open spec fn is_solution_of(s: Grid, g: Grid) -> bool {
    complete(s) && consistent(s) && extends(s, g)
}

/// `g` has at least one legal completion.
pub open spec fn solvable(g: Grid) -> bool {
    exists|s: Grid| is_solution_of(s, g)
}

/// How a cell's subgrid index relates to its coordinates.
pub proof fn lemma_box_coords(r: int, c: int)
    requires
        in_bounds(r, c),
    ensures
        box_index(r, c) / 3 == r / 3,
        box_index(r, c) % 3 == c / 3,
        0 <= box_index(r, c) < 9,
        (box_index(r, c) / 3) * 3 + r % 3 == r,
        (box_index(r, c) % 3) * 3 + c % 3 == c,
{
}

/// Two grids equal cell by cell are equal.
pub proof fn lemma_grid_ext(a: Grid, b: Grid)
    requires
        forall|r: int, c: int| in_bounds(r, c) ==> #[trigger] a[r][c] == b[r][c],
    ensures
        a == b,
{
    broadcast use vstd::array::group_array_axioms;
    assert forall|r: int| 0 <= r < 9 implies a[r] == b[r] by {
        assert(a[r] =~= b[r]) by {
            assert forall|c: int| 0 <= c < 9 implies a[r][c] == b[r][c] by {
                assert(in_bounds(r, c));
            }
        }
    }
    assert(a =~= b);
}

/// Whether `num` may be placed at (row, col): no cell of its row, column or
/// subgrid holds it.
pub fn is_valid(grid: &Grid, row: usize, col: usize, num: u8) -> (r: bool)
    requires
        row < 9,
        col < 9,
    ensures
        r == placeable(*grid, row as int, col as int, num),
{
    let mut i: usize = 0;
    while i < 9
        invariant
            row < 9,
            col < 9,
            0 <= i <= 9,
            forall|k: int| 0 <= k < i ==> #[trigger] grid[row as int][k] != num,
            forall|k: int| 0 <= k < i ==> #[trigger] grid[k][col as int] != num,
        decreases 9 - i,
    {
        if grid[row][i] == num || grid[i][col] == num {
            return false;
        }
        i += 1;
    }
    let start_row: usize = row / 3 * 3;
    let start_col: usize = col / 3 * 3;
    proof {
        lemma_box_coords(row as int, col as int);
    }
    let ghost b = box_index(row as int, col as int);
    assert(start_row == (b / 3) * 3 && start_col == (b % 3) * 3);
    assert(!in_row(*grid, row as int, num) && !in_col(*grid, col as int, num));
    let mut i: usize = 0;
    while i < 3
        invariant
            start_row == (b / 3) * 3,
            start_col == (b % 3) * 3,
            0 <= b < 9,
            0 <= i <= 3,
            b == box_index(row as int, col as int),
            !in_row(*grid, row as int, num) && !in_col(*grid, col as int, num),
            forall|x: int, y: int| 0 <= x < i && 0 <= y < 3 ==> #[trigger] grid[box_row(b, x)][box_col(b, y)] != num,
        decreases 3 - i,
    {
        let mut j: usize = 0;
        while j < 3
            invariant
                start_row == (b / 3) * 3,
                start_col == (b % 3) * 3,
                0 <= b < 9,
                0 <= i < 3,
                b == box_index(row as int, col as int),
                !in_row(*grid, row as int, num) && !in_col(*grid, col as int, num),
                0 <= j <= 3,
                forall|x: int, y: int| 0 <= x < i && 0 <= y < 3 ==> #[trigger] grid[box_row(b, x)][box_col(b, y)] != num,
                forall|y: int| 0 <= y < j ==> #[trigger] grid[box_row(b, i as int)][box_col(b, y)] != num,
            decreases 3 - j,
        {
            if grid[start_row + i][start_col + j] == num {
                assert(grid[box_row(b, i as int)][box_col(b, j as int)] == num);
                return false;
            }
            j += 1;
        }
        i += 1;
    }
    assert(!in_box(*grid, b, num));
    true
}

/// `g2` is `g` with cell (r, c) set to `d`.
pub open spec fn updated(g: Grid, g2: Grid, r: int, c: int, d: u8) -> bool {
    forall|r2: int, c2: int| in_bounds(r2, c2) ==>
        #[trigger] g2[r2][c2] == (if r2 == r && c2 == c { d } else { g[r2][c2] })
}

/// With its own cell emptied, a placed digit is placeable exactly when no peer
/// holds it.
proof fn lemma_self_excluded(g: Grid, h: Grid, r: int, c: int)
    requires
        in_bounds(r, c),
        g[r][c] != 0,
        updated(g, h, r, c, 0),
    ensures
        placeable(h, r, c, g[r][c]) == cell_unique(g, r, c),
{
    let d = g[r][c];
    let b = box_index(r, c);
    lemma_box_coords(r, c);
    if cell_unique(g, r, c) {
        if in_row(h, r, d) {
            let i = choose|i: int| 0 <= i < 9 && h[r][i] == d;
            assert(g[r][i] == d && peers(r, c, r, i));
        }
        if in_col(h, c, d) {
            let i = choose|i: int| 0 <= i < 9 && h[i][c] == d;
            assert(g[i][c] == d && peers(r, c, i, c));
        }
        if in_box(h, b, d) {
            let (i, j) = choose|i: int, j: int|
                0 <= i < 3 && 0 <= j < 3 && #[trigger] h[box_row(b, i)][box_col(b, j)] == d;
            let (r2, c2) = (box_row(b, i), box_col(b, j));
            assert(in_bounds(r2, c2));
            assert(g[r2][c2] == d && peers(r, c, r2, c2));
        }
    } else {
        let (r2, c2) = choose|r2: int, c2: int|
            in_bounds(r2, c2) && peers(r, c, r2, c2) && !(#[trigger] g[r2][c2] != g[r][c]);
        assert(h[r2][c2] == d);
        lemma_peer_blocks(h, r, c, r2, c2);
    }
}

/// Whether the grid is acceptable input: every cell holds 0 to 9 and no placed
/// digit repeats within its row, column or subgrid. Each placed digit is tested
/// against a copy of the grid in which its own cell is empty.
pub fn is_valid_grid(grid: &Grid) -> (r: bool)
    ensures
        r == valid_grid(*grid),
{
    let mut row: usize = 0;
    while row < 9
        invariant
            0 <= row <= 9,
            forall|r: int, c: int| 0 <= r < row && 0 <= c < 9 ==> #[trigger] grid[r][c] <= 9,
        decreases 9 - row,
    {
        let mut col: usize = 0;
        while col < 9
            invariant
                0 <= row < 9,
                0 <= col <= 9,
                forall|r: int, c: int| 0 <= r < row && 0 <= c < 9 ==> #[trigger] grid[r][c] <= 9,
                forall|c: int| 0 <= c < col ==> #[trigger] grid[row as int][c] <= 9,
            decreases 9 - col,
        {
            if grid[row][col] > 9 {
                assert(!in_range(*grid)) by {
                    assert(in_bounds(row as int, col as int));
                }
                return false;
            }
            col += 1;
        }
        row += 1;
    }
    assert(in_range(*grid));
    let mut row: usize = 0;
    while row < 9
        invariant
            0 <= row <= 9,
            in_range(*grid),
            forall|r: int, c: int| 0 <= r < row && 0 <= c < 9 ==> #[trigger] cell_unique(*grid, r, c),
        decreases 9 - row,
    {
        let mut col: usize = 0;
        while col < 9
            invariant
                0 <= row < 9,
                0 <= col <= 9,
                in_range(*grid),
                forall|r: int, c: int| 0 <= r < row && 0 <= c < 9 ==> #[trigger] cell_unique(*grid, r, c),
                forall|c: int| 0 <= c < col ==> #[trigger] cell_unique(*grid, row as int, c),
            decreases 9 - col,
        {
            let num = grid[row][col];
            if num != 0 {
                let mut grid_copy = *grid;
                grid_copy[row][col] = 0;
                proof {
                    assert(updated(*grid, grid_copy, row as int, col as int, 0));
                    lemma_self_excluded(*grid, grid_copy, row as int, col as int);
                }
                if !is_valid(&grid_copy, row, col, num) {
                    assert(!consistent(*grid)) by {
                        assert(in_bounds(row as int, col as int));
                    }
                    return false;
                }
            }
            col += 1;
        }
        row += 1;
    }
    true
}

/// Cell `(i, j)` of subgrid `b` lies in that subgrid.
pub proof fn lemma_box_cell(b: int, i: int, j: int)
    requires
        0 <= b < 9,
        0 <= i < 3,
        0 <= j < 3,
    ensures
        in_bounds(box_row(b, i), box_col(b, j)),
        box_row(b, i) / 3 == b / 3,
        box_col(b, j) / 3 == b % 3,
        box_index(box_row(b, i), box_col(b, j)) == b,
{
}

/// The digit held by a peer of (r, c) is not placeable at (r, c).
pub proof fn lemma_peer_blocks(g: Grid, r: int, c: int, r2: int, c2: int)
    requires
        in_bounds(r, c),
        in_bounds(r2, c2),
        peers(r, c, r2, c2),
    ensures
        !placeable(g, r, c, g[r2][c2]),
{
    let d = g[r2][c2];
    let b = box_index(r, c);
    lemma_box_coords(r, c);
    if r2 == r {
        assert(in_row(g, r, d));
    } else if c2 == c {
        assert(in_col(g, c, d));
    } else {
        assert(box_row(b, r2 % 3) == r2 && box_col(b, c2 % 3) == c2);
        assert(g[box_row(b, r2 % 3)][box_col(b, c2 % 3)] == d);
        assert(in_box(g, b, d));
    }
}

/// A digit that is not placeable at an empty cell is held by a peer, so no
/// solution puts it there.
pub proof fn lemma_blocked(g: Grid, s: Grid, r: int, c: int, d: u8)
    requires
        in_bounds(r, c),
        g[r][c] == 0,
        d != 0,
        !placeable(g, r, c, d),
        is_solution_of(s, g),
    ensures
        s[r][c] != d,
{
    let b = box_index(r, c);
    lemma_box_coords(r, c);
    let (r2, c2) = if in_row(g, r, d) {
        let i = choose|i: int| 0 <= i < 9 && g[r][i] == d;
        (r, i)
    } else if in_col(g, c, d) {
        let i = choose|i: int| 0 <= i < 9 && g[i][c] == d;
        (i, c)
    } else {
        let (i, j) = choose|i: int, j: int|
            0 <= i < 3 && 0 <= j < 3 && #[trigger] g[box_row(b, i)][box_col(b, j)] == d;
        lemma_box_cell(b, i, j);
        (box_row(b, i), box_col(b, j))
    };
    assert(in_bounds(r2, c2) && g[r2][c2] == d && peers(r, c, r2, c2));
    assert(s[r2][c2] == d);
    assert(cell_unique(s, r, c));
}

/// Writing a placeable digit into an empty cell adds exactly that digit to the
/// cell's row, column and subgrid, and keeps the grid valid.
pub proof fn lemma_place(g: Grid, h: Grid, r: int, c: int, d: u8)
    requires
        in_bounds(r, c),
        g[r][c] == 0,
        1 <= d <= 9,
        placeable(g, r, c, d),
        valid_grid(g),
        updated(g, h, r, c, d),
    ensures
        valid_grid(h),
        forall|r2: int, e: u8| 0 <= r2 < 9 && 1 <= e <= 9 ==>
            (#[trigger] in_row(h, r2, e) <==> in_row(g, r2, e) || (r2 == r && e == d)),
        forall|c2: int, e: u8| 0 <= c2 < 9 && 1 <= e <= 9 ==>
            (#[trigger] in_col(h, c2, e) <==> in_col(g, c2, e) || (c2 == c && e == d)),
        forall|b: int, e: u8| 0 <= b < 9 && 1 <= e <= 9 ==>
            (#[trigger] in_box(h, b, e) <==> in_box(g, b, e) || (b == box_index(r, c) && e == d)),
        forall|s: Grid| is_solution_of(s, h) ==> #[trigger] is_solution_of(s, g),
{
    lemma_box_coords(r, c);
    assert forall|r2: int, e: u8| 0 <= r2 < 9 && 1 <= e <= 9 implies
        (#[trigger] in_row(h, r2, e) <==> in_row(g, r2, e) || (r2 == r && e == d)) by {
        if in_row(h, r2, e) {
            let i = choose|i: int| 0 <= i < 9 && h[r2][i] == e;
            assert(in_bounds(r2, i));
        }
        if in_row(g, r2, e) {
            let i = choose|i: int| 0 <= i < 9 && g[r2][i] == e;
            assert(in_bounds(r2, i));
            assert(h[r2][i] == e);
        }
        if r2 == r && e == d {
            assert(h[r][c] == d);
        }
    }
    assert forall|c2: int, e: u8| 0 <= c2 < 9 && 1 <= e <= 9 implies
        (#[trigger] in_col(h, c2, e) <==> in_col(g, c2, e) || (c2 == c && e == d)) by {
        if in_col(h, c2, e) {
            let i = choose|i: int| 0 <= i < 9 && h[i][c2] == e;
            assert(in_bounds(i, c2));
        }
        if in_col(g, c2, e) {
            let i = choose|i: int| 0 <= i < 9 && g[i][c2] == e;
            assert(in_bounds(i, c2));
            assert(h[i][c2] == e);
        }
        if c2 == c && e == d {
            assert(h[r][c] == d);
        }
    }
    assert forall|b: int, e: u8| 0 <= b < 9 && 1 <= e <= 9 implies
        (#[trigger] in_box(h, b, e) <==> in_box(g, b, e) || (b == box_index(r, c) && e == d)) by {
        if in_box(h, b, e) {
            let (i, j) = choose|i: int, j: int|
                0 <= i < 3 && 0 <= j < 3 && #[trigger] h[box_row(b, i)][box_col(b, j)] == e;
            lemma_box_cell(b, i, j);
        }
        if in_box(g, b, e) {
            let (i, j) = choose|i: int, j: int|
                0 <= i < 3 && 0 <= j < 3 && #[trigger] g[box_row(b, i)][box_col(b, j)] == e;
            lemma_box_cell(b, i, j);
            assert(h[box_row(b, i)][box_col(b, j)] == e);
        }
        if b == box_index(r, c) && e == d {
            assert(box_row(b, r % 3) == r && box_col(b, c % 3) == c);
            assert(h[box_row(b, r % 3)][box_col(b, c % 3)] == d);
        }
    }
    assert forall|r1: int, c1: int| in_bounds(r1, c1) implies #[trigger] h[r1][c1] <= 9 by {
        assert(g[r1][c1] <= 9);
    }
    assert forall|r1: int, c1: int| in_bounds(r1, c1) implies #[trigger] cell_unique(h, r1, c1) by {
        if h[r1][c1] != 0 {
            assert forall|r2: int, c2: int| in_bounds(r2, c2) && peers(r1, c1, r2, c2) implies
                #[trigger] h[r2][c2] != h[r1][c1] by {
                if r1 == r && c1 == c {
                    lemma_peer_blocks(g, r, c, r2, c2);
                } else if r2 == r && c2 == c {
                    lemma_peer_blocks(g, r, c, r1, c1);
                } else {
                    assert(cell_unique(g, r1, c1));
                }
            }
        }
    }
    assert forall|s: Grid| is_solution_of(s, h) implies #[trigger] is_solution_of(s, g) by {
        assert forall|r1: int, c1: int| in_bounds(r1, c1) && g[r1][c1] != 0 implies
            #[trigger] s[r1][c1] == g[r1][c1] by {
            assert(h[r1][c1] == g[r1][c1]);
        }
    }
}

} // verus!
