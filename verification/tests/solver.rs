use hexadoku::{is_solved_grid, is_valid_grid, solve_hexadoku};

/// A full valid hexadoku built from the classical shifted pattern:
/// cell (r, c) holds ((r*4 + r/4 + c) % 16) + 1.
fn pattern_solution() -> [u8; 256] {
    let mut g = [0u8; 256];
    for r in 0..16usize {
        for c in 0..16usize {
            g[r * 16 + c] = (((r * 4 + r / 4 + c) % 16) + 1) as u8;
        }
    }
    g
}

/// An independent check, written without the library: every row, column,
/// and 4x4 box holds each of 1..=16 exactly once.
fn check_solved(g: &[u8; 256]) -> bool {
    for r in 0..16usize {
        let mut seen = [false; 17];
        for c in 0..16usize {
            let v = g[r * 16 + c] as usize;
            if v < 1 || v > 16 || seen[v] {
                return false;
            }
            seen[v] = true;
        }
    }
    for c in 0..16usize {
        let mut seen = [false; 17];
        for r in 0..16usize {
            let v = g[r * 16 + c] as usize;
            if v < 1 || v > 16 || seen[v] {
                return false;
            }
            seen[v] = true;
        }
    }
    for br in 0..4usize {
        for bc in 0..4usize {
            let mut seen = [false; 17];
            for r in br * 4..br * 4 + 4 {
                for c in bc * 4..bc * 4 + 4 {
                    let v = g[r * 16 + c] as usize;
                    if v < 1 || v > 16 || seen[v] {
                        return false;
                    }
                    seen[v] = true;
                }
            }
        }
    }
    true
}

/// A consistent grid with no completion: row 0 pins symbols 4..=16 to
/// columns 3..=15, and column 2 already holds 1, 2 and 3 further down, so
/// cell (0, 2) has no candidate.  The solver must explore the cells (0, 0)
/// and (0, 1) first and backtrack out again.
fn dead_end_grid() -> [u8; 256] {
    let mut g = [0u8; 256];
    for c in 3..16usize {
        g[c] = (c + 1) as u8;
    }
    g[4 * 16 + 2] = 1;
    g[5 * 16 + 2] = 2;
    g[6 * 16 + 2] = 3;
    g
}

#[test]
fn empty_grid_solves() {
    let mut g = [0u8; 256];
    assert!(is_valid_grid(&g));
    assert!(solve_hexadoku(&mut g));
    assert!(check_solved(&g));
    assert!(is_solved_grid(&g));
}

#[test]
fn empty_grid_first_row_ascending() {
    // With every cell free, the fixed orders (cells row-major, symbols
    // ascending) fill row 0 with 1..=16 in order.
    let mut g = [0u8; 256];
    assert!(solve_hexadoku(&mut g));
    for c in 0..16usize {
        assert_eq!(g[c], (c + 1) as u8);
    }
}

#[test]
fn dead_end_fails_and_leaves_grid_untouched() {
    let mut g = dead_end_grid();
    let before = g;
    assert!(is_valid_grid(&g));
    assert!(!solve_hexadoku(&mut g));
    assert_eq!(g, before);
}

#[test]
fn solved_grid_returns_true_unchanged() {
    let mut g = pattern_solution();
    let before = g;
    assert!(is_solved_grid(&g));
    assert!(solve_hexadoku(&mut g));
    assert_eq!(g, before);
}

#[test]
fn one_missing_cell_gets_its_unique_symbol() {
    let mut g = pattern_solution();
    let before = g;
    let hole = 5 * 16 + 7;
    let expected = g[hole];
    g[hole] = 0;
    assert!(is_valid_grid(&g));
    assert!(!is_solved_grid(&g));
    assert!(solve_hexadoku(&mut g));
    assert_eq!(g[hole], expected);
    assert_eq!(g, before);
}

#[test]
fn identical_inputs_give_identical_outputs() {
    let mut a = pattern_solution();
    for p in 0..256usize {
        if (p / 16 + p % 16) % 3 == 0 {
            a[p] = 0;
        }
    }
    let mut b = a;
    let ra = solve_hexadoku(&mut a);
    let rb = solve_hexadoku(&mut b);
    assert_eq!(ra, rb);
    assert_eq!(a, b);
    assert!(ra);
    assert!(check_solved(&a));
}

#[test]
fn solution_keeps_the_givens() {
    let mut g = pattern_solution();
    for p in 0..256usize {
        if p % 5 != 0 {
            g[p] = 0;
        }
    }
    let given = g;
    assert!(is_valid_grid(&g));
    assert!(solve_hexadoku(&mut g));
    assert!(check_solved(&g));
    for p in 0..256usize {
        if given[p] != 0 {
            assert_eq!(g[p], given[p]);
        }
    }
}

#[test]
fn valid_grid_accepts_partial_and_empty() {
    let g = [0u8; 256];
    assert!(is_valid_grid(&g));
    let mut h = pattern_solution();
    h[0] = 0;
    h[100] = 0;
    assert!(is_valid_grid(&h));
}

#[test]
fn valid_grid_rejects_out_of_range_symbol() {
    let mut g = [0u8; 256];
    g[10] = 17;
    assert!(!is_valid_grid(&g));
}

#[test]
fn valid_grid_rejects_row_duplicate() {
    let mut g = [0u8; 256];
    g[0] = 7;
    g[9] = 7;
    assert!(!is_valid_grid(&g));
}

#[test]
fn valid_grid_rejects_column_duplicate() {
    let mut g = [0u8; 256];
    g[3] = 5;
    g[12 * 16 + 3] = 5;
    assert!(!is_valid_grid(&g));
}

#[test]
fn valid_grid_rejects_box_duplicate() {
    let mut g = [0u8; 256];
    g[0] = 9;
    g[3 * 16 + 3] = 9;
    assert!(!is_valid_grid(&g));
}

#[test]
fn solved_grid_rejects_incomplete_and_invalid() {
    let mut g = pattern_solution();
    assert!(is_solved_grid(&g));
    g[42] = 0;
    assert!(!is_solved_grid(&g));
    let mut h = pattern_solution();
    let tmp = h[0];
    h[0] = h[1];
    h[1] = tmp;
    assert!(!is_solved_grid(&h));
}
