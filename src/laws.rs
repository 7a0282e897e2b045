//! Properties that relate the validator and the solver.
use vstd::prelude::*;
use vstd::set_lib::{lemma_int_range, lemma_subset_equality, set_int_range};
use crate::grid::{
    box_col, box_row, cell_unique, in_bounds, in_box, in_col, in_row, is_solution_of,
    lemma_box_cell, peers, valid_grid, Grid,
};
use crate::solver::{found, outcome};

verus! {

/// Nine pairwise distinct digits, each from 1 to 9, include every digit 1 to 9.
proof fn lemma_nine_distinct(vals: Seq<u8>, d: u8)
    requires
        vals.len() == 9,
        forall|i: int, j: int| 0 <= i < 9 && 0 <= j < 9 && i != j ==> vals[i] != vals[j],
        forall|i: int| 0 <= i < 9 ==> 1 <= #[trigger] vals[i] <= 9,
        1 <= d <= 9,
    ensures
        exists|i: int| 0 <= i < 9 && vals[i] == d,
{
    let s = Seq::new(9, |i: int| vals[i] as int);
    assert(s.no_duplicates());
    s.unique_seq_to_set();
    lemma_int_range(1, 10);
    assert forall|x: int| s.to_set().contains(x) implies set_int_range(1, 10).contains(x) by {
        let i = choose|i: int| 0 <= i < s.len() && s[i] == x;
        assert(1 <= vals[i] <= 9);
    }
    lemma_subset_equality(s.to_set(), set_int_range(1, 10));
    assert(set_int_range(1, 10).contains(d as int));
    assert(s.to_set().contains(d as int));
    let i = choose|i: int| 0 <= i < s.len() && s[i] == d as int;
    assert(vals[i] == d);
}

/// A grid that the validator accepts holds no digit twice within a row, a
/// column or a subgrid.
pub proof fn law_valid_digits_unique(g: Grid)
    requires
        valid_grid(g),
    ensures
        forall|r: int, i: int, j: int| 0 <= r < 9 && 0 <= i < 9 && 0 <= j < 9 && i != j && g[r][i] != 0
            ==> #[trigger] g[r][i] != #[trigger] g[r][j],
        forall|c: int, i: int, j: int| 0 <= c < 9 && 0 <= i < 9 && 0 <= j < 9 && i != j && g[i][c] != 0
            ==> #[trigger] g[i][c] != #[trigger] g[j][c],
        forall|b: int, i1: int, j1: int, i2: int, j2: int|
            0 <= b < 9 && 0 <= i1 < 3 && 0 <= j1 < 3 && 0 <= i2 < 3 && 0 <= j2 < 3
                && (i1 != i2 || j1 != j2) && g[box_row(b, i1)][box_col(b, j1)] != 0
            ==> #[trigger] g[box_row(b, i1)][box_col(b, j1)] != #[trigger] g[box_row(b, i2)][box_col(b, j2)],
{
    assert forall|r: int, i: int, j: int| 0 <= r < 9 && 0 <= i < 9 && 0 <= j < 9 && i != j && g[r][i] != 0
        implies #[trigger] g[r][i] != #[trigger] g[r][j] by {
        assert(cell_unique(g, r, i) && peers(r, i, r, j) && in_bounds(r, j));
    }
    assert forall|c: int, i: int, j: int| 0 <= c < 9 && 0 <= i < 9 && 0 <= j < 9 && i != j && g[i][c] != 0
        implies #[trigger] g[i][c] != #[trigger] g[j][c] by {
        assert(cell_unique(g, i, c) && peers(i, c, j, c) && in_bounds(j, c));
    }
    assert forall|b: int, i1: int, j1: int, i2: int, j2: int|
        0 <= b < 9 && 0 <= i1 < 3 && 0 <= j1 < 3 && 0 <= i2 < 3 && 0 <= j2 < 3
            && (i1 != i2 || j1 != j2) && g[box_row(b, i1)][box_col(b, j1)] != 0
        implies #[trigger] g[box_row(b, i1)][box_col(b, j1)] != #[trigger] g[box_row(b, i2)][box_col(b, j2)] by {
        lemma_box_cell(b, i1, j1);
        lemma_box_cell(b, i2, j2);
        let (r1, c1, r2, c2) = (box_row(b, i1), box_col(b, j1), box_row(b, i2), box_col(b, j2));
        assert(cell_unique(g, r1, c1) && peers(r1, c1, r2, c2));
    }
}

/// A cell holding 10 or more makes the grid invalid, wherever it stands.
pub proof fn law_out_of_range_invalid(g: Grid, r: int, c: int)
    requires
        in_bounds(r, c),
        g[r][c] >= 10,
    ensures
        !valid_grid(g),
{
}

/// In a solution every row, column and subgrid holds each digit 1 to 9, and
/// (the solution being consistent) each exactly once.
pub proof fn law_solution_units_are_permutations(s: Grid, g: Grid)
    requires
        is_solution_of(s, g),
    ensures
        valid_grid(s),
        forall|r: int, d: u8| 0 <= r < 9 && 1 <= d <= 9 ==> #[trigger] in_row(s, r, d),
        forall|c: int, d: u8| 0 <= c < 9 && 1 <= d <= 9 ==> #[trigger] in_col(s, c, d),
        forall|b: int, d: u8| 0 <= b < 9 && 1 <= d <= 9 ==> #[trigger] in_box(s, b, d),
{
    assert forall|r1: int, c1: int| in_bounds(r1, c1) implies #[trigger] s[r1][c1] <= 9 by {}
    law_valid_digits_unique(s);
    assert forall|r: int, d: u8| 0 <= r < 9 && 1 <= d <= 9 implies #[trigger] in_row(s, r, d) by {
        let vals = Seq::new(9, |i: int| s[r][i]);
        assert forall|i: int| 0 <= i < 9 implies 1 <= #[trigger] vals[i] <= 9 by {
            assert(in_bounds(r, i));
        }
        assert forall|i: int, j: int| 0 <= i < 9 && 0 <= j < 9 && i != j implies vals[i] != vals[j] by {
            assert(in_bounds(r, i));
            assert(s[r][i] != s[r][j]);
        }
        lemma_nine_distinct(vals, d);
        let i = choose|i: int| 0 <= i < 9 && vals[i] == d;
        assert(s[r][i] == d);
    }
    assert forall|c: int, d: u8| 0 <= c < 9 && 1 <= d <= 9 implies #[trigger] in_col(s, c, d) by {
        let vals = Seq::new(9, |i: int| s[i][c]);
        assert forall|i: int| 0 <= i < 9 implies 1 <= #[trigger] vals[i] <= 9 by {
            assert(in_bounds(i, c));
        }
        assert forall|i: int, j: int| 0 <= i < 9 && 0 <= j < 9 && i != j implies vals[i] != vals[j] by {
            assert(in_bounds(i, c));
            assert(s[i][c] != s[j][c]);
        }
        lemma_nine_distinct(vals, d);
        let i = choose|i: int| 0 <= i < 9 && vals[i] == d;
        assert(s[i][c] == d);
    }
    assert forall|b: int, d: u8| 0 <= b < 9 && 1 <= d <= 9 implies #[trigger] in_box(s, b, d) by {
        let vals = Seq::new(9, |k: int| s[box_row(b, k / 3)][box_col(b, k % 3)]);
        assert forall|k: int| 0 <= k < 9 implies 1 <= #[trigger] vals[k] <= 9 by {
            lemma_box_cell(b, k / 3, k % 3);
        }
        assert forall|k1: int, k2: int| 0 <= k1 < 9 && 0 <= k2 < 9 && k1 != k2 implies vals[k1] != vals[k2] by {
            lemma_box_cell(b, k1 / 3, k1 % 3);
            assert(s[box_row(b, k1 / 3)][box_col(b, k1 % 3)] != s[box_row(b, k2 / 3)][box_col(b, k2 % 3)]);
        }
        lemma_nine_distinct(vals, d);
        let k = choose|k: int| 0 <= k < 9 && vals[k] == d;
        assert(s[box_row(b, k / 3)][box_col(b, k % 3)] == d);
    }
}

/// A failed solve leaves its input as it was, so solving again fails again and
/// leaves it once more.
pub proof fn law_failed_solve_repeats(g: Grid)
    requires
        !found(g),
    ensures
        outcome(g) == g,
        !found(outcome(g)),
        outcome(outcome(g)) == g,
{
}

} // verus!
