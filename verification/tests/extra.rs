use sudoku::{
    barre, grid_from_rows, is_full, only_possible_slot, solve, trivial, trivial_digit, valid,
    Grid, Mask, StopReason, UpdatedGrid,
};

fn g(rows: [[u8; 9]; 9]) -> Grid {
    let mut v: Vec<Vec<u8>> = Vec::new();
    for r in rows.iter() {
        v.push(r.to_vec());
    }
    grid_from_rows(&v)
}

fn valid_grid() -> Grid {
    g([
        [5, 9, 7, 8, 3, 2, 1, 6, 4],
        [8, 2, 1, 4, 6, 9, 7, 3, 5],
        [3, 6, 4, 5, 7, 1, 2, 8, 9],
        [4, 5, 9, 2, 8, 3, 6, 7, 1],
        [1, 8, 3, 7, 4, 6, 5, 9, 2],
        [6, 7, 2, 9, 1, 5, 8, 4, 3],
        [7, 1, 5, 3, 9, 8, 4, 2, 6],
        [2, 3, 8, 6, 5, 4, 9, 1, 7],
        [9, 4, 6, 1, 2, 7, 3, 5, 8],
    ])
}

fn miss_one() -> Grid {
    g([
        [0, 9, 7, 8, 3, 2, 1, 6, 4],
        [8, 2, 1, 4, 6, 9, 7, 3, 5],
        [3, 6, 4, 5, 7, 1, 2, 8, 9],
        [4, 5, 9, 2, 8, 3, 6, 7, 1],
        [1, 8, 3, 7, 4, 6, 5, 9, 2],
        [6, 7, 2, 9, 1, 5, 8, 4, 3],
        [7, 1, 5, 3, 9, 8, 4, 2, 6],
        [2, 3, 8, 6, 5, 4, 9, 1, 7],
        [9, 4, 6, 1, 2, 7, 3, 5, 8],
    ])
}

fn default_grid() -> Grid {
    g([
        [1, 2, 3, 4, 5, 6, 7, 8, 9],
        [2, 3, 4, 5, 6, 7, 8, 9, 1],
        [3, 4, 5, 6, 7, 8, 9, 1, 2],
        [4, 5, 6, 7, 8, 9, 1, 2, 3],
        [5, 6, 7, 8, 9, 1, 2, 3, 4],
        [6, 7, 8, 9, 1, 2, 3, 4, 5],
        [7, 8, 9, 1, 2, 3, 4, 5, 6],
        [8, 9, 1, 2, 3, 4, 5, 6, 7],
        [9, 1, 2, 3, 4, 5, 6, 7, 8],
    ])
}

fn nearly_empty() -> Grid {
    let mut rows = [[0u8; 9]; 9];
    rows[0][0] = 1;
    g(rows)
}

#[test]
fn slot_found_when_unique() {
    assert_eq!(
        only_possible_slot(vec![false, false, true, false, false, false, false, false, false]),
        Some(2)
    );
    assert_eq!(only_possible_slot(vec![true]), Some(0));
}

#[test]
fn slot_none_when_empty() {
    assert_eq!(only_possible_slot(vec![false; 9]), None);
    assert_eq!(only_possible_slot(Vec::new()), None);
}

#[test]
fn slot_none_when_ambiguous() {
    assert_eq!(
        only_possible_slot(vec![true, false, false, false, true, false, false, false, false]),
        None
    );
    assert_eq!(only_possible_slot(vec![true; 9]), None);
}

#[test]
fn grid_cells_read_back() {
    let grid = valid_grid();
    assert_eq!(grid.get(0, 0), Some(5));
    assert_eq!(grid.get(8, 8), Some(8));
    assert_eq!(miss_one().get(0, 0), None);
}

#[test]
fn fullness_is_detected() {
    assert!(is_full(&valid_grid()));
    assert!(!is_full(&miss_one()));
}

#[test]
fn mask_marks_only_the_open_cell() {
    // in MISS_ONE the single empty cell (0, 0) is the only one left for 5
    let m: Mask = barre(&miss_one(), 5);
    for r in 0..9 {
        for c in 0..9 {
            assert_eq!(m.ligne(r)[c], r == 0 && c == 0);
        }
    }
}

#[test]
fn solved_grid_is_a_fixed_point() {
    // a fully solved valid grid yields no further deductions
    let res = trivial(valid_grid());
    assert_eq!(res.updates, 0);
    assert_eq!(res.grid, valid_grid());
}

#[test]
fn single_digit_pass_is_monotonic() {
    let before = miss_one();
    let after = trivial_digit(miss_one(), 5).grid;
    for r in 0..9 {
        for c in 0..9 {
            if let Some(d) = before.get(r, c) {
                assert_eq!(after.get(r, c), Some(d));
            }
        }
    }
}

#[test]
fn sweep_keeps_grid_valid() {
    // running sweeps repeatedly never introduces a conflict
    let mut grid = miss_one();
    for _ in 0..3 {
        let UpdatedGrid { grid: next, updates: _ } = trivial(grid);
        assert!(valid(&next));
        grid = next;
    }
}

#[test]
fn solve_rejects_invalid_grid() {
    assert!(matches!(solve(default_grid()), Err(StopReason::Invalid)));
}

#[test]
fn solve_reports_already_full_grid() {
    assert!(matches!(solve(valid_grid()), Err(StopReason::Full)));
}

#[test]
fn solve_completes_forced_grid() {
    match solve(miss_one()) {
        Ok(UpdatedGrid { grid, updates }) => {
            assert_eq!(grid, valid_grid());
            assert_eq!(updates, 1);
        },
        Err(_) => panic!("expected the single missing cell to be deduced"),
    }
}

#[test]
fn solve_stops_without_guesswork() {
    assert!(matches!(solve(nearly_empty()), Err(StopReason::NoProgressMade)));
}
