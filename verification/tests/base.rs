use sudoku::{barre, carre, colonne, grid_from_rows, ligne, valid, Grid, Mask};

fn g(rows: [[u8; 9]; 9]) -> Grid {
    let mut v: Vec<Vec<u8>> = Vec::new();
    for r in rows.iter() {
        v.push(r.to_vec());
    }
    grid_from_rows(&v)
}

fn opt_row(vals: [u8; 9]) -> Vec<Option<u8>> {
    vals.iter().map(|&v| if v == 0 { None } else { Some(v) }).collect()
}

fn mask_rows(m: &Mask) -> Vec<Vec<bool>> {
    let mut rows: Vec<Vec<bool>> = Vec::new();
    for r in 0..9 {
        rows.push(m.ligne(r));
    }
    rows
}

fn valid_grid() -> Grid {
    g([
        [5, 9, 7, 8, 3, 2, 1, 6, 4],
        [8, 2, 1, 4, 6, 9, 7, 3, 5],
        [3, 6, 4, 5, 7, 1, 2, 8, 9],
        [4, 5, 9, 2, 8, 3, 6, 7, 1],
        [1, 8, 3, 7, 4, 6, 5, 9, 2],
        [6, 7, 2, 9, 1, 5, 8, 4, 3],
        [7, 1, 5, 3, 9, 8, 4, 2, 6],
        [2, 3, 8, 6, 5, 4, 9, 1, 7],
        [9, 4, 6, 1, 2, 7, 3, 5, 8],
    ])
}

fn with_holes() -> Grid {
    g([
        [5, 0, 0, 0, 0, 2, 1, 0, 4],
        [8, 0, 0, 4, 0, 0, 0, 3, 0],
        [3, 6, 0, 0, 0, 0, 0, 0, 0],
        [0, 0, 0, 0, 8, 3, 6, 0, 0],
        [0, 8, 0, 0, 0, 0, 0, 9, 0],
        [0, 0, 2, 9, 1, 0, 0, 0, 0],
        [0, 0, 0, 0, 0, 0, 0, 2, 6],
        [0, 3, 0, 0, 0, 4, 0, 0, 7],
        [9, 0, 6, 1, 0, 0, 0, 0, 8],
    ])
}

fn default_grid() -> Grid {
    g([
        [1, 2, 3, 4, 5, 6, 7, 8, 9],
        [2, 3, 4, 5, 6, 7, 8, 9, 1],
        [3, 4, 5, 6, 7, 8, 9, 1, 2],
        [4, 5, 6, 7, 8, 9, 1, 2, 3],
        [5, 6, 7, 8, 9, 1, 2, 3, 4],
        [6, 7, 8, 9, 1, 2, 3, 4, 5],
        [7, 8, 9, 1, 2, 3, 4, 5, 6],
        [8, 9, 1, 2, 3, 4, 5, 6, 7],
        [9, 1, 2, 3, 4, 5, 6, 7, 8],
    ])
}

#[test]
fn base_extract_ligne() {
    assert_eq!(ligne(&valid_grid(), 0), opt_row([5, 9, 7, 8, 3, 2, 1, 6, 4]));
    assert_eq!(
        ligne(&with_holes(), 0),
        vec![
            Some(5),
            None,
            None,
            None,
            None,
            Some(2),
            Some(1),
            None,
            Some(4)
        ]
    )
}

#[test]
fn base_extract_colonne() {
    assert_eq!(colonne(&valid_grid(), 0), opt_row([5, 8, 3, 4, 1, 6, 7, 2, 9]));
}

#[test]
fn base_extract_carre() {
    assert_eq!(
        carre(&valid_grid(), 0, 0),
        vec![
            vec![Some(5), Some(9), Some(7)],
            vec![Some(8), Some(2), Some(1)],
            vec![Some(3), Some(6), Some(4)],
        ]
    );
}

#[test]
fn base_assert_valid() {
    assert!(valid(&valid_grid()));
    assert!(valid(&with_holes()));
}

#[test]
fn base_assert_invalid() {
    assert!(!valid(&default_grid()))
}

#[test]
fn base_test_barre() {
    assert_eq!(mask_rows(&barre(&valid_grid(), 3)), vec![vec![false; 9]; 9]);
    assert_eq!(
        mask_rows(&barre(&with_holes(), 2)),
        vec![
            vec![false, false, false, false, false, false, false, false, false],
            vec![false, true, false, false, false, false, true, false, true],
            vec![false, false, false, false, false, false, true, false, true],
            vec![false, false, false, true, false, false, false, false, true],
            vec![false, false, false, true, true, false, true, false, true],
            vec![false, false, false, false, false, false, false, false, false],
            vec![false, false, false, false, false, false, false, false, false],
            vec![true, false, false, true, true, false, false, false, false],
            vec![false, true, false, false, true, false, false, false, false],
        ]
    )
}
