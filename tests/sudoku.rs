use sudoku_solver::grid::{is_valid, is_valid_grid, Grid};
use sudoku_solver::solver::{find_empty_cell, solve, solve_sudoku};

fn parse(rows: [&str; 9]) -> Grid {
    let mut g: Grid = [[0u8; 9]; 9];
    for (r, line) in rows.iter().enumerate() {
        for (c, ch) in line.chars().enumerate() {
            g[r][c] = if ch == '.' { 0 } else { ch.to_digit(10).unwrap() as u8 };
        }
    }
    g
}

fn puzzle() -> Grid {
    parse([
        "53..7....",
        "6..195...",
        ".98....6.",
        "8...6...3",
        "4..8.3..1",
        "7...2...6",
        ".6....28.",
        "...419..5",
        "....8..79",
    ])
}

fn puzzle_solution() -> Grid {
    parse([
        "534678912",
        "672195348",
        "198342567",
        "859761423",
        "426853791",
        "713924856",
        "961537284",
        "287419635",
        "345286179",
    ])
}

/// Every row, column and subgrid holds each digit 1 to 9 exactly once.
fn is_full_solution(g: &Grid) -> bool {
    for i in 0..9 {
        let mut row = [false; 10];
        let mut col = [false; 10];
        let mut sub = [false; 10];
        for j in 0..9 {
            let a = g[i][j] as usize;
            let b = g[j][i] as usize;
            let c = g[(i / 3) * 3 + j / 3][(i % 3) * 3 + j % 3] as usize;
            if a == 0 || a > 9 || b == 0 || b > 9 || c == 0 || c > 9 {
                return false;
            }
            if row[a] || col[b] || sub[c] {
                return false;
            }
            row[a] = true;
            col[b] = true;
            sub[c] = true;
        }
    }
    true
}

fn extends(s: &Grid, g: &Grid) -> bool {
    (0..9).all(|r| (0..9).all(|c| g[r][c] == 0 || s[r][c] == g[r][c]))
}

/// Valid, but cell (0, 8) can only take 9, which column 8 already holds.
fn dead_end() -> Grid {
    let mut g: Grid = [[0u8; 9]; 9];
    for c in 0..8 {
        g[0][c] = (c + 1) as u8;
    }
    g[1][8] = 9;
    g
}

#[test]
fn is_valid_on_empty_grid() {
    let g: Grid = [[0u8; 9]; 9];
    for d in 1..=9u8 {
        assert!(is_valid(&g, 4, 4, d));
    }
}

#[test]
fn is_valid_sees_row_column_and_subgrid() {
    let g = puzzle();
    // row 0 holds 5, column 2 holds 8, subgrid 0 holds 6
    assert!(!is_valid(&g, 0, 2, 5));
    assert!(!is_valid(&g, 0, 2, 8));
    assert!(!is_valid(&g, 0, 2, 6));
    assert!(!is_valid(&g, 0, 2, 9));
    assert!(is_valid(&g, 0, 2, 4));
    assert!(is_valid(&g, 0, 2, 1));
    assert!(is_valid(&g, 0, 2, 2));
}

#[test]
fn empty_grid_is_valid() {
    let g: Grid = [[0u8; 9]; 9];
    assert!(is_valid_grid(&g));
}

#[test]
fn puzzle_and_its_solution_are_valid() {
    assert!(is_valid_grid(&puzzle()));
    assert!(is_valid_grid(&puzzle_solution()));
}

#[test]
fn duplicate_in_row_is_invalid() {
    let mut g: Grid = [[0u8; 9]; 9];
    g[0][0] = 5;
    g[0][7] = 5;
    assert!(!is_valid_grid(&g));
}

#[test]
fn duplicate_in_column_is_invalid() {
    let mut g: Grid = [[0u8; 9]; 9];
    g[1][3] = 7;
    g[8][3] = 7;
    assert!(!is_valid_grid(&g));
}

#[test]
fn duplicate_in_subgrid_is_invalid() {
    let mut g: Grid = [[0u8; 9]; 9];
    g[3][3] = 2;
    g[5][5] = 2;
    assert!(!is_valid_grid(&g));
}

#[test]
fn digit_ten_or_more_is_invalid() {
    let mut g: Grid = [[0u8; 9]; 9];
    g[8][8] = 10;
    assert!(!is_valid_grid(&g));
    let mut g = puzzle();
    g[4][4] = 255;
    assert!(!is_valid_grid(&g));
}

#[test]
fn validation_leaves_grid_intact() {
    let g = puzzle();
    let before = g;
    is_valid_grid(&g);
    assert_eq!(g, before);
}

#[test]
fn find_empty_cell_on_full_grid_is_none() {
    assert_eq!(find_empty_cell(&puzzle_solution()), None);
}

#[test]
fn find_empty_cell_on_empty_grid_takes_first() {
    let g: Grid = [[0u8; 9]; 9];
    assert_eq!(find_empty_cell(&g), Some((0, 0)));
}

#[test]
fn find_empty_cell_takes_fewest_options() {
    let mut g = puzzle_solution();
    // two holes: (2, 2) has one option, (7, 7) too; the earlier one wins
    g[2][2] = 0;
    g[7][7] = 0;
    assert_eq!(find_empty_cell(&g), Some((2, 2)));
    // a row with two holes has two options each at those cells
    let mut g = puzzle_solution();
    g[0][0] = 0;
    g[0][1] = 0;
    g[8][8] = 0;
    assert_eq!(find_empty_cell(&g), Some((0, 0)));
    let mut g = dead_end();
    g[5][5] = 0;
    assert_eq!(find_empty_cell(&g), Some((0, 8)));
}

#[test]
fn find_empty_cell_prefers_fewer_options_over_scan_order() {
    // only (4, 8) is down to a single option; every earlier cell has more
    let mut g: Grid = [[0u8; 9]; 9];
    for c in 0..8 {
        g[4][c] = (c + 1) as u8;
    }
    assert_eq!(find_empty_cell(&g), Some((4, 8)));
}

#[test]
fn empty_grid_is_solvable() {
    let mut g: Grid = [[0u8; 9]; 9];
    assert!(solve_sudoku(&mut g));
    assert!(is_full_solution(&g));
}

#[test]
fn solves_classic_puzzle() {
    let mut g = puzzle();
    assert!(solve_sudoku(&mut g));
    assert_eq!(g, puzzle_solution());
}

#[test]
fn solved_grid_extends_input() {
    let mut g = parse([
        "1........",
        "....2....",
        "........3",
        ".4.......",
        ".....5...",
        ".......6.",
        "..7......",
        "......8..",
        "...9.....",
    ]);
    let input = g;
    assert!(solve_sudoku(&mut g));
    assert!(is_full_solution(&g));
    assert!(extends(&g, &input));
}

#[test]
fn full_grid_is_solved_as_is() {
    let mut g = puzzle_solution();
    assert!(solve_sudoku(&mut g));
    assert_eq!(g, puzzle_solution());
}

#[test]
fn dead_end_is_valid_but_unsolvable() {
    let mut g = dead_end();
    assert!(is_valid_grid(&g));
    assert!(!solve_sudoku(&mut g));
    assert_eq!(g, dead_end());
}

#[test]
fn failed_solve_is_repeatable() {
    let mut g = dead_end();
    assert!(!solve_sudoku(&mut g));
    assert!(!solve_sudoku(&mut g));
    assert_eq!(g, dead_end());
}

#[test]
fn unsolvable_after_search_restores_grid() {
    // every cell of row 0 but two is set; the two holes need {8, 9}, yet
    // columns 7 and 8 both hold 9 further down: no completion
    let mut g: Grid = [[0u8; 9]; 9];
    for c in 0..7 {
        g[0][c] = (c + 1) as u8;
    }
    g[4][7] = 9;
    g[7][8] = 9;
    let before = g;
    assert!(is_valid_grid(&g));
    assert!(!solve_sudoku(&mut g));
    assert_eq!(g, before);
}

#[test]
fn repeated_solves_agree() {
    let mut a: Grid = [[0u8; 9]; 9];
    let mut b: Grid = [[0u8; 9]; 9];
    assert!(solve_sudoku(&mut a));
    assert!(solve_sudoku(&mut b));
    assert_eq!(a, b);
}

#[test]
fn solve_with_masks_from_empty() {
    let mut g: Grid = [[0u8; 9]; 9];
    let mut rows = [0u16; 9];
    let mut cols = [0u16; 9];
    let mut subs = [0u16; 9];
    assert!(solve(&mut g, &mut rows, &mut cols, &mut subs));
    assert!(is_full_solution(&g));
}

#[test]
fn solve_with_masks_failure_restores_masks() {
    let mut g = dead_end();
    let mut rows = [0u16; 9];
    let mut cols = [0u16; 9];
    let mut subs = [0u16; 9];
    for r in 0..9 {
        for c in 0..9 {
            let d = g[r][c];
            if d != 0 {
                rows[r] |= 1 << d;
                cols[c] |= 1 << d;
                subs[(r / 3) * 3 + c / 3] |= 1 << d;
            }
        }
    }
    let (r0, c0, s0) = (rows, cols, subs);
    assert!(!solve(&mut g, &mut rows, &mut cols, &mut subs));
    assert_eq!(g, dead_end());
    assert_eq!((rows, cols, subs), (r0, c0, s0));
}

#[test]
fn accepted_grid_has_unique_digits() {
    let g = puzzle();
    assert!(is_valid_grid(&g));
    for i in 0..9 {
        for j in 0..9 {
            for k in 0..9 {
                if j != k && g[i][j] != 0 {
                    assert_ne!(g[i][j], g[i][k]);
                }
                if j != k && g[j][i] != 0 {
                    assert_ne!(g[j][i], g[k][i]);
                }
                let (r1, c1) = ((i / 3) * 3 + j / 3, (i % 3) * 3 + j % 3);
                let (r2, c2) = ((i / 3) * 3 + k / 3, (i % 3) * 3 + k % 3);
                if j != k && g[r1][c1] != 0 {
                    assert_ne!(g[r1][c1], g[r2][c2]);
                }
            }
        }
    }
}
