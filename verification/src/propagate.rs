//! Sole-candidate propagation: for one digit, scan every row, column, and
//! block; wherever exactly one legal cell is left for that digit, place it,
//! and immediately re-tighten the elimination mask so later scans of the same
//! pass see the new constraint.

use crate::grid::{
    cell, count_filled, grid_full, idx, in_range, lemma_coord_decompose, lemma_count_filled_bounds,
    lemma_count_filled_update, lemma_idx_decompose, Grid,
};
use crate::mask::{
    barre, barre_carre, barre_colonne, barre_ligne, block_has, can_place, col_has, mask_at,
    mask_exact, row_has, Mask,
};
use crate::validity::{block_dup_free, col_dup_free, grid_valid, row_dup_free};
use vstd::prelude::*;

verus! {

/// The result of a propagation pass: the new grid, and how many cells the
/// pass filled.
#[derive(Debug, PartialEq)]
pub struct UpdatedGrid {
    pub grid: Grid,
    pub updates: usize,
}

/// The sequence holds `true` at exactly one position.
pub open spec fn exactly_one_true(s: Seq<bool>) -> bool {
    exists|i: int|
        0 <= i < s.len() && s[i] && (forall|j: int| 0 <= j < s.len() && j != i ==> !s[j])
}

/// The index of the single `true` entry, if exactly one exists; `None` when
/// the unit has no eligible cell left or still has several.
pub fn only_possible_slot(ligne: Vec<bool>) -> (r: Option<usize>)
    ensures
        match r {
            Some(i) => i < ligne@.len() && ligne@[i as int] && (forall|j: int|
                0 <= j < ligne@.len() && j != i ==> !ligne@[j]),
            None => !exactly_one_true(ligne@),
        },
{
    let mut index: Option<usize> = None;
    for i in 0..ligne.len()
        invariant
            match index {
                Some(x) => x < i && ligne@[x as int] && (forall|j: int|
                    0 <= j < i && j != x ==> !ligne@[j]),
                None => forall|j: int| 0 <= j < i ==> !ligne@[j],
            },
    {
        if ligne[i] {
            if let Some(x) = index {
                proof {
                    assert(!exactly_one_true(ligne@)) by {
                        if exactly_one_true(ligne@) {
                            let w = choose|w: int|
                                0 <= w < ligne@.len() && ligne@[w] && (forall|j: int|
                                    0 <= j < ligne@.len() && j != w ==> !ligne@[j]);
                            assert(ligne@[x as int]);
                            assert(ligne@[i as int]);
                        }
                    }
                }
                return None;
            }
            index = Some(i);
        }
    }
    proof {
        if index is None && exactly_one_true(ligne@) {
            let w = choose|w: int|
                0 <= w < ligne@.len() && ligne@[w] && (forall|j: int|
                    0 <= j < ligne@.len() && j != w ==> !ligne@[j]);
            assert(!ligne@[w]);
        }
    }
    index
}

/// Cells (r1, c1) and (r2, c2) lie in the same row, column, or block.
pub open spec fn shares_unit(r1: int, c1: int, r2: int, c2: int) -> bool {
    r1 == r2 || c1 == c2 || (r1 / 3 == r2 / 3 && c1 / 3 == c2 / 3)
}

/// Propagation never clears or rewrites an already-filled cell.
pub open spec fn preserves_filled(g0: Seq<Option<u8>>, g1: Seq<Option<u8>>) -> bool {
    forall|r: int, c: int|
        #![trigger cell(g0, r, c)]
        #![trigger cell(g1, r, c)]
        in_range(r, c) && cell(g0, r, c) is Some ==> cell(g1, r, c) == cell(g0, r, c)
}

/// Every cell that changed was empty before and now holds digit `d`.
pub open spec fn only_places_digit(g0: Seq<Option<u8>>, g1: Seq<Option<u8>>, d: u8) -> bool {
    forall|r: int, c: int|
        #![trigger cell(g0, r, c)]
        #![trigger cell(g1, r, c)]
        in_range(r, c) && cell(g1, r, c) != cell(g0, r, c) ==> cell(g0, r, c) is None && cell(
            g1,
            r,
            c,
        ) == Some(d)
}

/// `v` is a digit placed on the board: some value between 1 and 9.
pub open spec fn is_digit(v: Option<u8>) -> bool {
    v matches Some(d) && 1 <= d <= 9
}

/// Every cell that changed was empty before and now holds some digit 1..=9.
pub open spec fn only_places_digits(g0: Seq<Option<u8>>, g1: Seq<Option<u8>>) -> bool {
    forall|r: int, c: int|
        #![trigger cell(g0, r, c)]
        #![trigger cell(g1, r, c)]
        in_range(r, c) && cell(g1, r, c) != cell(g0, r, c) ==> cell(g0, r, c) is None && is_digit(
            cell(g1, r, c),
        )
}

/// No cell sharing a row, column, or block with (r, c) — other than (r, c)
/// itself — holds digit `d` in `g`.
pub open spec fn no_peer_holds(g: Seq<Option<u8>>, d: u8, r: int, c: int) -> bool {
    forall|r2: int, c2: int|
        in_range(r2, c2) && !(r2 == r && c2 == c) && shares_unit(r, c, r2, c2) ==> #[trigger] cell(
            g,
            r2,
            c2,
        ) != Some(d)
}

/// Every cell filled with `d` between `g0` and `g1` is sound: in `g1` its
/// digit appears nowhere else in its row, column, or block.
pub open spec fn placements_isolated(g0: Seq<Option<u8>>, g1: Seq<Option<u8>>, d: u8) -> bool {
    forall|r: int, c: int|
        in_range(r, c) && cell(g0, r, c) is None && #[trigger] cell(g1, r, c) == Some(d)
            ==> no_peer_holds(g1, d, r, c)
}

/// Every cell filled between `g0` and `g1`, with whatever digit, is sound in
/// `g1`.
pub open spec fn placements_isolated_all(g0: Seq<Option<u8>>, g1: Seq<Option<u8>>) -> bool {
    forall|r: int, c: int|
        in_range(r, c) && cell(g0, r, c) is None ==> ((#[trigger] cell(g1, r, c)) matches Some(d)
            ==> no_peer_holds(g1, d, r, c))
}

/// Every mask entry of (r, c)'s row, column, and block is cleared.
pub open spec fn peers_cleared(m: Seq<bool>, r: int, c: int) -> bool {
    forall|r2: int, c2: int|
        in_range(r2, c2) && shares_unit(r, c, r2, c2) ==> !#[trigger] mask_at(m, r2, c2)
}

/// A `true` mask entry only ever marks a cell where `d` may legally go.
pub open spec fn mask_sound(g: Seq<Option<u8>>, d: u8, m: Seq<bool>) -> bool {
    m.len() == 81 && forall|r: int, c: int|
        in_range(r, c) && #[trigger] mask_at(m, r, c) ==> can_place(g, d, r, c)
}

/// After each placement the whole unit of the placed cell was barred, so the
/// mask stays cleared around every cell this pass has filled.
pub open spec fn placements_sealed(
    g0: Seq<Option<u8>>,
    g: Seq<Option<u8>>,
    m: Seq<bool>,
    d: u8,
) -> bool {
    forall|r: int, c: int|
        in_range(r, c) && cell(g0, r, c) is None && #[trigger] cell(g, r, c) == Some(d)
            ==> peers_cleared(m, r, c)
}

/// Everything a single-digit pass maintains while it scans: `g0` is the grid
/// the pass started from, `g` and `m` the current grid and mask, `u` how many
/// cells were filled so far.
pub open spec fn pass_inv(
    g0: Seq<Option<u8>>,
    d: u8,
    g: Seq<Option<u8>>,
    m: Seq<bool>,
    u: int,
) -> bool {
    &&& g0.len() == 81
    &&& g.len() == 81
    &&& preserves_filled(g0, g)
    &&& only_places_digit(g0, g, d)
    &&& u == count_filled(g) - count_filled(g0)
    &&& mask_sound(g, d, m)
    &&& placements_isolated(g0, g, d)
    &&& placements_sealed(g0, g, m, d)
    &&& (grid_valid(g0) ==> grid_valid(g))
    &&& (u == 0 ==> g == g0 && mask_exact(g0, d, m))
}

/// Which cells of row `r` could take digit `d`, in column order.
pub open spec fn row_candidates(g: Seq<Option<u8>>, d: u8, r: int) -> Seq<bool> {
    Seq::new(9, |c: int| can_place(g, d, r, c))
}

/// Which cells of column `c` could take digit `d`, in row order.
pub open spec fn col_candidates(g: Seq<Option<u8>>, d: u8, c: int) -> Seq<bool> {
    Seq::new(9, |r: int| can_place(g, d, r, c))
}

/// Which cells of block (bi, bj) could take digit `d`, row by row.
pub open spec fn block_candidates(g: Seq<Option<u8>>, d: u8, bi: int, bj: int) -> Seq<bool> {
    Seq::new(9, |k: int| can_place(g, d, 3 * bi + k / 3, 3 * bj + k % 3))
}

/// No row, column, or block of `g` has exactly one cell left that could take
/// digit `d` — so a sole-candidate pass for `d` finds nothing to do.
pub open spec fn no_sole_candidates(g: Seq<Option<u8>>, d: u8) -> bool {
    &&& forall|r: int| 0 <= r < 9 ==> !exactly_one_true(row_candidates(g, d, r))
    &&& forall|c: int| 0 <= c < 9 ==> !exactly_one_true(col_candidates(g, d, c))
    &&& forall|bi: int, bj: int|
        0 <= bi < 3 && 0 <= bj < 3 ==> !exactly_one_true(block_candidates(g, d, bi, bj))
}

/// Places `chiffre` at (i, j) and bars the cell's row, column, and block in
/// the mask.
fn place(grille: Grid, mask: Mask, chiffre: u8, i: usize, j: usize) -> (res: (Grid, Mask))
    requires
        grille.wf(),
        mask.wf(),
        i < 9,
        j < 9,
    ensures
        res.0.wf(),
        res.1.wf(),
        res.0@ == grille@.update(idx(i as int, j as int), Some(chiffre)),
        forall|r: int, c: int|
            in_range(r, c) ==> mask_at(res.1@, r, c) == (if shares_unit(i as int, j as int, r, c) {
                false
            } else {
                mask_at(mask@, r, c)
            }),
{
    let mask = barre_ligne(mask, i);
    let mask = barre_colonne(mask, j);
    let mask = barre_carre(mask, i / 3, j / 3);
    let grille = grille.with_cell(i, j, Some(chiffre));
    (grille, mask)
}

/// A cell update at (i, j) leaves every other cell as it was.
proof fn lemma_update_frame(g: Seq<Option<u8>>, i: int, j: int, v: Option<u8>)
    requires
        g.len() == 81,
        in_range(i, j),
    ensures
        cell(g.update(idx(i, j), v), i, j) == v,
        forall|r: int, c: int|
            in_range(r, c) && !(r == i && c == j) ==> cell(g.update(idx(i, j), v), r, c) == cell(
                g,
                r,
                c,
            ),
{
    lemma_idx_decompose(i, j);
    assert forall|r: int, c: int| in_range(r, c) && !(r == i && c == j) implies cell(
        g.update(idx(i, j), v),
        r,
        c,
    ) == cell(g, r, c) by {
        lemma_idx_decompose(r, c);
        assert(idx(r, c) != idx(i, j));
    }
}

/// Placing a digit where `can_place` holds keeps the grid valid.
proof fn lemma_place_keeps_valid(g: Seq<Option<u8>>, d: u8, i: int, j: int)
    requires
        g.len() == 81,
        in_range(i, j),
        can_place(g, d, i, j),
        grid_valid(g),
    ensures
        grid_valid(g.update(idx(i, j), Some(d))),
{
    let g2 = g.update(idx(i, j), Some(d));
    lemma_update_frame(g, i, j, Some(d));
    assert forall|r: int| 0 <= r < 9 implies row_dup_free(g2, r) by {
        assert forall|c1: int, c2: int|
            0 <= c1 < 9 && 0 <= c2 < 9 && c1 != c2 && cell(g2, r, c1) is Some implies cell(
            g2,
            r,
            c1,
        ) != cell(g2, r, c2) by {
            if cell(g2, r, c1) == cell(g2, r, c2) {
                if r == i && c1 == j {
                    assert(cell(g, r, c2) == Some(d));
                    assert(row_has(g, d, i));
                } else if r == i && c2 == j {
                    assert(cell(g, r, c1) == Some(d));
                    assert(row_has(g, d, i));
                } else {
                    assert(cell(g, r, c1) == cell(g2, r, c1));
                    assert(cell(g, r, c2) == cell(g2, r, c2));
                    assert(row_dup_free(g, r));
                }
            }
        }
    }
    assert forall|c: int| 0 <= c < 9 implies col_dup_free(g2, c) by {
        assert forall|r1: int, r2: int|
            0 <= r1 < 9 && 0 <= r2 < 9 && r1 != r2 && cell(g2, r1, c) is Some implies cell(
            g2,
            r1,
            c,
        ) != cell(g2, r2, c) by {
            if cell(g2, r1, c) == cell(g2, r2, c) {
                if r1 == i && c == j {
                    assert(cell(g, r2, c) == Some(d));
                    assert(col_has(g, d, j));
                } else if r2 == i && c == j {
                    assert(cell(g, r1, c) == Some(d));
                    assert(col_has(g, d, j));
                } else {
                    assert(col_dup_free(g, c));
                }
            }
        }
    }
    assert forall|bi: int, bj: int| 0 <= bi < 3 && 0 <= bj < 3 implies block_dup_free(g2, bi, bj) by {
        assert forall|r1: int, c1: int, r2: int, c2: int|
            in_range(r1, c1) && in_range(r2, c2) && r1 / 3 == bi && c1 / 3 == bj && r2 / 3 == bi
                && c2 / 3 == bj && !(r1 == r2 && c1 == c2) && #[trigger] cell(g2, r1, c1) is Some
            implies cell(g2, r1, c1) != #[trigger] cell(g2, r2, c2) by {
            if cell(g2, r1, c1) == cell(g2, r2, c2) {
                if r1 == i && c1 == j {
                    assert(cell(g, r2, c2) == Some(d));
                    assert(block_has(g, d, i / 3, j / 3));
                } else if r2 == i && c2 == j {
                    assert(cell(g, r1, c1) == Some(d));
                    assert(block_has(g, d, i / 3, j / 3));
                } else {
                    assert(block_dup_free(g, bi, bj));
                }
            }
        }
    }
}

/// One placement at a masked cell carries the pass invariant forward.
proof fn lemma_place_step(
    g0: Seq<Option<u8>>,
    d: u8,
    g: Seq<Option<u8>>,
    m: Seq<bool>,
    u: int,
    i: int,
    j: int,
    g2: Seq<Option<u8>>,
    m2: Seq<bool>,
)
    requires
        pass_inv(g0, d, g, m, u),
        u >= 0,
        in_range(i, j),
        mask_at(m, i, j),
        g2 == g.update(idx(i, j), Some(d)),
        m2.len() == 81,
        forall|r: int, c: int|
            in_range(r, c) ==> mask_at(m2, r, c) == (if shares_unit(i, j, r, c) {
                false
            } else {
                mask_at(m, r, c)
            }),
    ensures
        pass_inv(g0, d, g2, m2, u + 1),
{
    assert(can_place(g, d, i, j));
    lemma_update_frame(g, i, j, Some(d));
    lemma_idx_decompose(i, j);
    lemma_count_filled_update(g, idx(i, j), Some(d));
    assert(cell(g0, i, j) is None) by {
        if cell(g0, i, j) is Some {
            assert(cell(g, i, j) == cell(g0, i, j));
        }
    }
    // the cell that was just filled is sound and sealed
    assert forall|r2: int, c2: int|
        in_range(r2, c2) && !(r2 == i && c2 == j) && shares_unit(i, j, r2, c2) implies cell(
        g2,
        r2,
        c2,
    ) != Some(d) by {
        if cell(g2, r2, c2) == Some(d) {
            assert(cell(g, r2, c2) == Some(d));
            if r2 == i {
                assert(row_has(g, d, i));
            } else if c2 == j {
                assert(col_has(g, d, j));
            } else {
                assert(block_has(g, d, i / 3, j / 3));
            }
        }
    }
    assert(no_peer_holds(g2, d, i, j));
    // cells filled earlier in the pass stay sound and sealed
    assert forall|r: int, c: int|
        in_range(r, c) && cell(g0, r, c) is None && !(r == i && c == j) && #[trigger] cell(
            g2,
            r,
            c,
        ) == Some(d) implies no_peer_holds(g2, d, r, c) && peers_cleared(m2, r, c) by {
        assert(cell(g, r, c) == Some(d));
        assert(no_peer_holds(g, d, r, c));
        assert(peers_cleared(m, r, c));
        assert forall|r2: int, c2: int|
            in_range(r2, c2) && !(r2 == r && c2 == c) && shares_unit(r, c, r2, c2) implies cell(
            g2,
            r2,
            c2,
        ) != Some(d) by {
            if r2 == i && c2 == j {
                assert(!mask_at(m, i, j));
            } else {
                assert(cell(g2, r2, c2) == cell(g, r2, c2));
            }
        }
        assert forall|r2: int, c2: int|
            in_range(r2, c2) && shares_unit(r, c, r2, c2) implies !mask_at(m2, r2, c2) by {
            assert(!mask_at(m, r2, c2));
        }
    }
    assert(placements_isolated(g0, g2, d));
    assert forall|r: int, c: int|
        in_range(r, c) && cell(g0, r, c) is None && #[trigger] cell(g2, r, c) == Some(d)
        implies peers_cleared(m2, r, c) by {
        if r == i && c == j {
            assert forall|r2: int, c2: int|
                in_range(r2, c2) && shares_unit(i, j, r2, c2) implies !mask_at(m2, r2, c2) by {}
        }
    }
    assert(placements_sealed(g0, g2, m2, d));
    // the tightened mask stays sound for the new grid
    assert forall|r: int, c: int| in_range(r, c) && mask_at(m2, r, c) implies can_place(
        g2,
        d,
        r,
        c,
    ) by {
        assert(!shares_unit(i, j, r, c));
        assert(mask_at(m, r, c));
        assert(can_place(g, d, r, c));
        assert(cell(g2, r, c) == cell(g, r, c));
        if row_has(g2, d, r) {
            let c2 = choose|c2: int| 0 <= c2 < 9 && cell(g2, r, c2) == Some(d);
            assert(!(r == i && c2 == j));
            assert(cell(g, r, c2) == Some(d));
            assert(row_has(g, d, r));
        }
        if col_has(g2, d, c) {
            let r2 = choose|r2: int| 0 <= r2 < 9 && cell(g2, r2, c) == Some(d);
            assert(!(r2 == i && c == j));
            assert(cell(g, r2, c) == Some(d));
            assert(col_has(g, d, c));
        }
        if block_has(g2, d, r / 3, c / 3) {
            let (r2, c2) = choose|r2: int, c2: int|
                in_range(r2, c2) && r2 / 3 == r / 3 && c2 / 3 == c / 3 && cell(g2, r2, c2) == Some(
                    d,
                );
            assert(!(r2 == i && c2 == j));
            assert(cell(g, r2, c2) == Some(d));
            assert(block_has(g, d, r / 3, c / 3));
        }
    }
    assert(mask_sound(g2, d, m2));
    if grid_valid(g0) {
        lemma_place_keeps_valid(g, d, i, j);
    }
}

/// One single-digit propagation pass. Builds the elimination mask for
/// `chiffre`, then scans every row, every column, and every block in order;
/// wherever exactly one eligible cell is left and that cell is still empty,
/// places `chiffre` there and re-tightens the mask at once. Returns the new
/// grid and the number of cells filled.
#[verifier::loop_isolation(false)]
pub fn trivial_digit(grille: Grid, chiffre: u8) -> (res: UpdatedGrid)
    requires
        grille.wf(),
        1 <= chiffre <= 9,
    ensures
        res.grid.wf(),
        preserves_filled(grille@, res.grid@),
        only_places_digit(grille@, res.grid@, chiffre),
        res.updates == count_filled(res.grid@) - count_filled(grille@),
        placements_isolated(grille@, res.grid@, chiffre),
        grid_valid(grille@) ==> grid_valid(res.grid@),
        res.updates == 0 ==> res.grid@ == grille@ && no_sole_candidates(grille@, chiffre),
        no_sole_candidates(grille@, chiffre) ==> res.updates == 0,
{
    let ghost g0 = grille@;
    let mut grille = grille;
    let mut mask = barre(&grille, chiffre);
    let mut nb_updates: usize = 0;

    for i in 0..9usize
        invariant
            grille.wf(),
            mask.wf(),
            pass_inv(g0, chiffre, grille@, mask@, nb_updates as int),
            no_sole_candidates(g0, chiffre) ==> nb_updates == 0,
            nb_updates == 0 ==> forall|i2: int|
                0 <= i2 < i ==> !exactly_one_true(row_candidates(g0, chiffre, i2)),
    {
        let v = mask.ligne(i);
        let ghost vs = v@;
        if let Some(j) = only_possible_slot(v) {
            proof {
                assert(mask_at(mask@, i as int, j as int));
                if no_sole_candidates(g0, chiffre) {
                    assert(vs =~= row_candidates(g0, chiffre, i as int));
                    assert(exactly_one_true(vs)) by {
                        assert(vs[j as int]);
                    }
                    assert(false);
                }
            }
            if grille.get(i, j).is_none() {
                proof {
                    lemma_count_filled_bounds(g0);
                    lemma_count_filled_bounds(grille@);
                }
                let ghost gprev = grille@;
                let ghost mprev = mask@;
                let pm = place(grille, mask, chiffre, i, j);
                grille = pm.0;
                mask = pm.1;
                proof {
                    lemma_place_step(
                        g0,
                        chiffre,
                        gprev,
                        mprev,
                        nb_updates as int,
                        i as int,
                        j as int,
                        grille@,
                        mask@,
                    );
                }
                nb_updates += 1;
            } else {
                // the re-check guards against a stale mask; since every
                // placement re-tightens the mask at once, a marked cell is in
                // fact always still empty
                proof {
                    assert(can_place(grille@, chiffre, i as int, j as int));
                    assert(false);
                }
            }
        } else {
            proof {
                if nb_updates == 0 {
                    assert(vs =~= row_candidates(g0, chiffre, i as int));
                }
            }
        }
    }

    for j in 0..9usize
        invariant
            grille.wf(),
            mask.wf(),
            pass_inv(g0, chiffre, grille@, mask@, nb_updates as int),
            no_sole_candidates(g0, chiffre) ==> nb_updates == 0,
            nb_updates == 0 ==> forall|i2: int|
                0 <= i2 < 9 ==> !exactly_one_true(row_candidates(g0, chiffre, i2)),
            nb_updates == 0 ==> forall|j2: int|
                0 <= j2 < j ==> !exactly_one_true(col_candidates(g0, chiffre, j2)),
    {
        let v = mask.colonne(j);
        let ghost vs = v@;
        if let Some(i) = only_possible_slot(v) {
            proof {
                assert(mask_at(mask@, i as int, j as int));
                if no_sole_candidates(g0, chiffre) {
                    assert(vs =~= col_candidates(g0, chiffre, j as int));
                    assert(exactly_one_true(vs)) by {
                        assert(vs[i as int]);
                    }
                    assert(false);
                }
            }
            if grille.get(i, j).is_none() {
                proof {
                    lemma_count_filled_bounds(g0);
                    lemma_count_filled_bounds(grille@);
                }
                let ghost gprev = grille@;
                let ghost mprev = mask@;
                let pm = place(grille, mask, chiffre, i, j);
                grille = pm.0;
                mask = pm.1;
                proof {
                    lemma_place_step(
                        g0,
                        chiffre,
                        gprev,
                        mprev,
                        nb_updates as int,
                        i as int,
                        j as int,
                        grille@,
                        mask@,
                    );
                }
                nb_updates += 1;
            } else {
                // the re-check guards against a stale mask; since every
                // placement re-tightens the mask at once, a marked cell is in
                // fact always still empty
                proof {
                    assert(can_place(grille@, chiffre, i as int, j as int));
                    assert(false);
                }
            }
        } else {
            proof {
                if nb_updates == 0 {
                    assert(vs =~= col_candidates(g0, chiffre, j as int));
                }
            }
        }
    }

    for bi in 0..3usize
        invariant
            grille.wf(),
            mask.wf(),
            pass_inv(g0, chiffre, grille@, mask@, nb_updates as int),
            no_sole_candidates(g0, chiffre) ==> nb_updates == 0,
            nb_updates == 0 ==> forall|i2: int|
                0 <= i2 < 9 ==> !exactly_one_true(row_candidates(g0, chiffre, i2)),
            nb_updates == 0 ==> forall|j2: int|
                0 <= j2 < 9 ==> !exactly_one_true(col_candidates(g0, chiffre, j2)),
            nb_updates == 0 ==> forall|a: int, b: int|
                0 <= a < bi && 0 <= b < 3 ==> !exactly_one_true(block_candidates(g0, chiffre, a, b)),
    {
        for bj in 0..3usize
            invariant
                grille.wf(),
                mask.wf(),
                pass_inv(g0, chiffre, grille@, mask@, nb_updates as int),
                no_sole_candidates(g0, chiffre) ==> nb_updates == 0,
                nb_updates == 0 ==> forall|i2: int|
                    0 <= i2 < 9 ==> !exactly_one_true(row_candidates(g0, chiffre, i2)),
                nb_updates == 0 ==> forall|j2: int|
                    0 <= j2 < 9 ==> !exactly_one_true(col_candidates(g0, chiffre, j2)),
                nb_updates == 0 ==> forall|a: int, b: int|
                    0 <= a < bi && 0 <= b < 3 ==> !exactly_one_true(
                        block_candidates(g0, chiffre, a, b),
                    ),
                nb_updates == 0 ==> forall|b: int|
                    0 <= b < bj ==> !exactly_one_true(block_candidates(g0, chiffre, bi as int, b)),
        {
            let v = mask.carre(bi, bj);
            let ghost vs = v@;
            if let Some(k) = only_possible_slot(v) {
                let a = k / 3;
                let b = k % 3;
                let ip = 3 * bi + a;
                let jp = 3 * bj + b;
                proof {
                    lemma_coord_decompose(k as int);
                    assert(mask_at(mask@, ip as int, jp as int));
                    if no_sole_candidates(g0, chiffre) {
                        assert(vs =~= block_candidates(g0, chiffre, bi as int, bj as int));
                        assert(exactly_one_true(vs)) by {
                            assert(vs[k as int]);
                        }
                        assert(false);
                    }
                }
                if grille.get(ip, jp).is_none() {
                    proof {
                        lemma_count_filled_bounds(g0);
                        lemma_count_filled_bounds(grille@);
                    }
                    let ghost gprev = grille@;
                    let ghost mprev = mask@;
                    let pm = place(grille, mask, chiffre, ip, jp);
                    grille = pm.0;
                    mask = pm.1;
                    proof {
                        lemma_place_step(
                            g0,
                            chiffre,
                            gprev,
                            mprev,
                            nb_updates as int,
                            ip as int,
                            jp as int,
                            grille@,
                            mask@,
                        );
                    }
                    nb_updates += 1;
                } else {
                    // as in the row and column phases, the re-check cannot
                    // fire: the mask never marks a filled cell
                    proof {
                        assert(can_place(grille@, chiffre, ip as int, jp as int));
                        assert(false);
                    }
                }
            } else {
                proof {
                    if nb_updates == 0 {
                        assert(vs =~= block_candidates(g0, chiffre, bi as int, bj as int));
                    }
                }
            }
        }
    }

    UpdatedGrid { grid: grille, updates: nb_updates }
}

/// Chains the guarantees of one single-digit pass (from `g1` to `g2`) onto
/// those accumulated since the sweep started (from `g0` to `g1`).
proof fn lemma_sweep_step(g0: Seq<Option<u8>>, g1: Seq<Option<u8>>, g2: Seq<Option<u8>>, d: u8)
    requires
        g0.len() == 81,
        g1.len() == 81,
        g2.len() == 81,
        1 <= d <= 9,
        preserves_filled(g0, g1),
        only_places_digits(g0, g1),
        placements_isolated_all(g0, g1),
        preserves_filled(g1, g2),
        only_places_digit(g1, g2, d),
        placements_isolated(g1, g2, d),
    ensures
        preserves_filled(g0, g2),
        only_places_digits(g0, g2),
        placements_isolated_all(g0, g2),
{
    // the pass places only the single digit d, so its guarantees are a
    // special case of the sweep-level ones
    assert forall|r: int, c: int|
        in_range(r, c) && cell(g1, r, c) is None && #[trigger] cell(g2, r, c) is Some
        implies no_peer_holds(g2, cell(g2, r, c)->Some_0, r, c) by {
        assert(cell(g2, r, c) != cell(g1, r, c));
        assert(cell(g2, r, c) == Some(d));
    }
    assert(only_places_digits(g1, g2));
    assert(placements_isolated_all(g1, g2));
    lemma_sweep_chain(g0, g1, g2);
}

/// Chains the guarantees of a whole sweep (from `g1` to `g2`) onto those of
/// the sweeps run before it (from `g0` to `g1`).
pub(crate) proof fn lemma_sweep_chain(g0: Seq<Option<u8>>, g1: Seq<Option<u8>>, g2: Seq<Option<u8>>)
    requires
        g0.len() == 81,
        g1.len() == 81,
        g2.len() == 81,
        preserves_filled(g0, g1),
        only_places_digits(g0, g1),
        placements_isolated_all(g0, g1),
        preserves_filled(g1, g2),
        only_places_digits(g1, g2),
        placements_isolated_all(g1, g2),
    ensures
        preserves_filled(g0, g2),
        only_places_digits(g0, g2),
        placements_isolated_all(g0, g2),
{
    assert forall|r: int, c: int|
        in_range(r, c) && cell(g2, r, c) != cell(g0, r, c) implies cell(g0, r, c) is None
        && is_digit(cell(g2, r, c)) by {
        if cell(g2, r, c) == cell(g1, r, c) {
            assert(cell(g1, r, c) != cell(g0, r, c));
        } else {
            assert(cell(g1, r, c) is None && is_digit(cell(g2, r, c)));
            if cell(g0, r, c) is Some {
                assert(cell(g1, r, c) == cell(g0, r, c));
            }
        }
    }
    assert forall|r: int, c: int|
        in_range(r, c) && cell(g0, r, c) is None && #[trigger] cell(g2, r, c) is Some
        implies no_peer_holds(g2, cell(g2, r, c)->Some_0, r, c) by {
        let e = cell(g2, r, c)->Some_0;
        assert(cell(g2, r, c) == Some(e));
        if cell(g1, r, c) == cell(g2, r, c) {
            // filled by an earlier sweep
            assert(no_peer_holds(g1, e, r, c));
            assert forall|r2: int, c2: int|
                in_range(r2, c2) && !(r2 == r && c2 == c) && shares_unit(r, c, r2, c2)
                implies #[trigger] cell(g2, r2, c2) != Some(e) by {
                if cell(g2, r2, c2) == Some(e) {
                    assert(cell(g1, r2, c2) != Some(e));
                    assert(cell(g2, r2, c2) != cell(g1, r2, c2));
                    assert(cell(g1, r2, c2) is None);
                    // the later sweep placed e at the peer (r2, c2), yet
                    // (r, c) is a peer of (r2, c2) already holding e
                    assert(no_peer_holds(g2, e, r2, c2));
                    assert(shares_unit(r2, c2, r, c));
                    assert(cell(g2, r, c) != Some(e));
                }
            }
        } else {
            // filled by the later sweep
            assert(cell(g1, r, c) is None);
            assert(no_peer_holds(g2, e, r, c));
        }
    }
    assert(placements_isolated_all(g0, g2));
}

/// One full sweep: runs the single-digit pass for every digit 1 through 9 in
/// ascending order, threading the grid through and summing the counts of
/// placed digits. A single sweep, not a fixed-point loop: reaching a fixed
/// point is a driver the caller writes on top.
#[verifier::loop_isolation(false)]
pub fn trivial(grille: Grid) -> (res: UpdatedGrid)
    requires
        grille.wf(),
    ensures
        res.grid.wf(),
        preserves_filled(grille@, res.grid@),
        only_places_digits(grille@, res.grid@),
        res.updates == count_filled(res.grid@) - count_filled(grille@),
        placements_isolated_all(grille@, res.grid@),
        grid_valid(grille@) ==> grid_valid(res.grid@),
        grid_full(grille@) ==> res.updates == 0 && res.grid@ == grille@,
        res.updates == 0 ==> res.grid@ == grille@ && (forall|d: u8|
            1 <= d <= 9 ==> no_sole_candidates(grille@, d)),
        (forall|d: u8| 1 <= d <= 9 ==> no_sole_candidates(grille@, d)) ==> res.updates == 0,
{
    let ghost g0 = grille@;
    let mut grille = grille;
    let mut nb_updates: usize = 0;

    for chiffre in 1..10u8
        invariant
            grille.wf(),
            preserves_filled(g0, grille@),
            only_places_digits(g0, grille@),
            nb_updates as int == count_filled(grille@) - count_filled(g0),
            placements_isolated_all(g0, grille@),
            grid_valid(g0) ==> grid_valid(grille@),
            nb_updates == 0 ==> grille@ == g0 && (forall|d: u8|
                1 <= d < chiffre ==> no_sole_candidates(g0, d)),
            (forall|d: u8| 1 <= d <= 9 ==> no_sole_candidates(g0, d)) ==> nb_updates == 0,
    {
        let ghost gprev = grille@;
        let res = trivial_digit(grille, chiffre);
        grille = res.grid;
        proof {
            lemma_sweep_step(g0, gprev, grille@, chiffre);
            lemma_count_filled_bounds(g0);
            lemma_count_filled_bounds(grille@);
            if forall|d: u8| 1 <= d <= 9 ==> no_sole_candidates(g0, d) {
                assert(no_sole_candidates(g0, chiffre));
                assert(gprev == g0);
                assert(res.updates == 0);
            }
        }
        nb_updates += res.updates;
    }

    proof {
        if grid_full(g0) {
            assert forall|k: int| 0 <= k < 81 implies grille@[k] == g0[k] by {
                crate::grid::lemma_cell_of_index(k);
                assert(cell(g0, k / 9, k % 9) is Some);
                assert(cell(grille@, k / 9, k % 9) == cell(g0, k / 9, k % 9));
            }
            assert(grille@ =~= g0);
        }
    }
    UpdatedGrid { grid: grille, updates: nb_updates }
}

} // verus!
