//! The elimination mask: for one digit, which cells could still legally
//! receive it.

use crate::grid::{cell, idx, in_range, Grid};
use vstd::prelude::*;

verus! {

/// A 9x9 matrix of booleans, stored row-major. For the digit a mask was built
/// for, `true` at (r, c) means the digit may still be placed there.
pub struct Mask {
    pub(crate) cells: Vec<bool>,
}

impl View for Mask {
    type V = Seq<bool>;

    closed spec fn view(&self) -> Seq<bool> {
        self.cells@
    }
}

impl Mask {
    /// A mask is well formed when it holds exactly 81 entries.
    pub open spec fn wf(&self) -> bool {
        self@.len() == 81
    }
}

/// The mask entry at row `r`, column `c`.
pub open spec fn mask_at(m: Seq<bool>, r: int, c: int) -> bool {
    m[idx(r, c)]
}

/// Some cell of row `r` holds digit `d`.
pub open spec fn row_has(g: Seq<Option<u8>>, d: u8, r: int) -> bool {
    exists|c: int| 0 <= c < 9 && cell(g, r, c) == Some(d)
}

/// Some cell of column `c` holds digit `d`.
pub open spec fn col_has(g: Seq<Option<u8>>, d: u8, c: int) -> bool {
    exists|r: int| 0 <= r < 9 && cell(g, r, c) == Some(d)
}

/// Some cell of block (bi, bj) holds digit `d`.
pub open spec fn block_has(g: Seq<Option<u8>>, d: u8, bi: int, bj: int) -> bool {
    exists|r: int, c: int|
        in_range(r, c) && r / 3 == bi && c / 3 == bj && cell(g, r, c) == Some(d)
}

/// Digit `d` may legally be placed at (r, c): the cell is empty, and no cell
/// of its row, column, or block already holds `d`.
pub open spec fn can_place(g: Seq<Option<u8>>, d: u8, r: int, c: int) -> bool {
    &&& cell(g, r, c) is None
    &&& !row_has(g, d, r)
    &&& !col_has(g, d, c)
    &&& !block_has(g, d, r / 3, c / 3)
}

/// The mask holds `true` exactly at the cells where `d` may still be placed.
pub open spec fn mask_exact(g: Seq<Option<u8>>, d: u8, m: Seq<bool>) -> bool {
    m.len() == 81 && forall|r: int, c: int|
        in_range(r, c) ==> #[trigger] mask_at(m, r, c) == can_place(g, d, r, c)
}

/// Whether some cell of row `r` holds digit `d`.
fn row_contains(grille: &Grid, chiffre: u8, r: usize) -> (b: bool)
    requires
        grille.wf(),
        r < 9,
    ensures
        b == row_has(grille@, chiffre, r as int),
{
    for c in 0..9usize
        invariant
            grille.wf(),
            r < 9,
            forall|j: int| 0 <= j < c ==> cell(grille@, r as int, j) != Some(chiffre),
    {
        if let Some(n) = grille.get(r, c) {
            if n == chiffre {
                proof {
                    assert(cell(grille@, r as int, c as int) == Some(chiffre));
                }
                return true;
            }
        }
    }
    false
}

/// Whether some cell of column `c` holds digit `d`.
fn col_contains(grille: &Grid, chiffre: u8, c: usize) -> (b: bool)
    requires
        grille.wf(),
        c < 9,
    ensures
        b == col_has(grille@, chiffre, c as int),
{
    for r in 0..9usize
        invariant
            grille.wf(),
            c < 9,
            forall|i: int| 0 <= i < r ==> cell(grille@, i, c as int) != Some(chiffre),
    {
        if let Some(n) = grille.get(r, c) {
            if n == chiffre {
                proof {
                    assert(cell(grille@, r as int, c as int) == Some(chiffre));
                }
                return true;
            }
        }
    }
    false
}

/// Whether some cell of block (bi, bj) holds digit `d`.
fn block_contains(grille: &Grid, chiffre: u8, bi: usize, bj: usize) -> (b: bool)
    requires
        grille.wf(),
        bi < 3,
        bj < 3,
    ensures
        b == block_has(grille@, chiffre, bi as int, bj as int),
{
    for a in 0..3usize
        invariant
            grille.wf(),
            bi < 3,
            bj < 3,
            forall|r: int, c: int|
                in_range(r, c) && r / 3 == bi && c / 3 == bj && r % 3 < a ==> cell(grille@, r, c)
                    != Some(chiffre),
    {
        for b in 0..3usize
            invariant
                grille.wf(),
                bi < 3,
                bj < 3,
                a < 3,
                forall|r: int, c: int|
                    in_range(r, c) && r / 3 == bi && c / 3 == bj && r % 3 < a ==> cell(
                        grille@,
                        r,
                        c,
                    ) != Some(chiffre),
                forall|r: int, c: int|
                    in_range(r, c) && r / 3 == bi && c / 3 == bj && r % 3 == a && c % 3 < b ==> cell(
                        grille@,
                        r,
                        c,
                    ) != Some(chiffre),
        {
            proof {
                crate::grid::lemma_band_decompose(bi as int, a as int);
                crate::grid::lemma_band_decompose(bj as int, b as int);
            }
            if let Some(n) = grille.get(3 * bi + a, 3 * bj + b) {
                if n == chiffre {
                    proof {
                        let r = 3 * (bi as int) + (a as int);
                        let c = 3 * (bj as int) + (b as int);
                        assert(in_range(r, c) && r / 3 == bi as int && c / 3 == bj as int && cell(
                            grille@,
                            r,
                            c,
                        ) == Some(chiffre));
                    }
                    return true;
                }
            }
            proof {
                assert forall|r: int, c: int|
                    in_range(r, c) && r / 3 == bi && c / 3 == bj && r % 3 == a && c % 3 <= b
                    implies cell(grille@, r, c) != Some(chiffre) by {
                    crate::grid::lemma_coord_decompose(r);
                    crate::grid::lemma_coord_decompose(c);
                }
            }
        }
    }
    false
}

/// Builds the elimination mask for `chiffre`: `true` exactly at the cells that
/// are empty and share no row, column, or block with a cell already holding
/// `chiffre`.
pub fn barre(grille: &Grid, chiffre: u8) -> (m: Mask)
    requires
        grille.wf(),
    ensures
        m.wf(),
        mask_exact(grille@, chiffre, m@),
{
    let mut cells: Vec<bool> = Vec::new();
    for r in 0..9usize
        invariant
            grille.wf(),
            cells@.len() == r * 9,
            forall|i: int, j: int|
                in_range(i, j) && i < r ==> mask_at(cells@, i, j) == can_place(
                    grille@,
                    chiffre,
                    i,
                    j,
                ),
    {
        for c in 0..9usize
            invariant
                grille.wf(),
                r < 9,
                cells@.len() == r * 9 + c,
                forall|i: int, j: int|
                    in_range(i, j) && (i < r || (i == r && j < c)) ==> mask_at(cells@, i, j)
                        == can_place(grille@, chiffre, i, j),
        {
            let open = grille.get(r, c).is_none() && !row_contains(grille, chiffre, r)
                && !col_contains(grille, chiffre, c) && !block_contains(
                grille,
                chiffre,
                r / 3,
                c / 3,
            );
            cells.push(open);
        }
    }
    Mask { cells }
}

/// The mask with every entry of row `ligne` cleared.
pub fn barre_ligne(grille: Mask, ligne: usize) -> (m: Mask)
    requires
        grille.wf(),
        ligne < 9,
    ensures
        m.wf(),
        forall|r: int, c: int|
            in_range(r, c) ==> mask_at(m@, r, c) == (if r == ligne {
                false
            } else {
                mask_at(grille@, r, c)
            }),
{
    let mut cells = grille.cells;
    for j in 0..9usize
        invariant
            cells@.len() == 81,
            ligne < 9,
            forall|r: int, c: int|
                in_range(r, c) ==> mask_at(cells@, r, c) == (if r == ligne && c < j {
                    false
                } else {
                    mask_at(grille@, r, c)
                }),
    {
        cells.set(ligne * 9 + j, false);
    }
    Mask { cells }
}

/// The mask with every entry of column `colonne` cleared.
pub fn barre_colonne(grille: Mask, colonne: usize) -> (m: Mask)
    requires
        grille.wf(),
        colonne < 9,
    ensures
        m.wf(),
        forall|r: int, c: int|
            in_range(r, c) ==> mask_at(m@, r, c) == (if c == colonne {
                false
            } else {
                mask_at(grille@, r, c)
            }),
{
    let mut cells = grille.cells;
    for i in 0..9usize
        invariant
            cells@.len() == 81,
            colonne < 9,
            forall|r: int, c: int|
                in_range(r, c) ==> mask_at(cells@, r, c) == (if c == colonne && r < i {
                    false
                } else {
                    mask_at(grille@, r, c)
                }),
    {
        cells.set(i * 9 + colonne, false);
    }
    Mask { cells }
}

/// The mask with every entry of block (i, j) cleared; i and j must be below 3.
pub fn barre_carre(grille: Mask, i: usize, j: usize) -> (m: Mask)
    requires
        grille.wf(),
        i < 3,
        j < 3,
    ensures
        m.wf(),
        forall|r: int, c: int|
            in_range(r, c) ==> mask_at(m@, r, c) == (if r / 3 == i && c / 3 == j {
                false
            } else {
                mask_at(grille@, r, c)
            }),
{
    let mut cells = grille.cells;
    for a in 0..3usize
        invariant
            cells@.len() == 81,
            i < 3,
            j < 3,
            forall|r: int, c: int|
                in_range(r, c) ==> mask_at(cells@, r, c) == (if r / 3 == i && c / 3 == j && r % 3
                    < a {
                    false
                } else {
                    mask_at(grille@, r, c)
                }),
    {
        for b in 0..3usize
            invariant
                cells@.len() == 81,
                i < 3,
                j < 3,
                a < 3,
                forall|r: int, c: int|
                    in_range(r, c) ==> mask_at(cells@, r, c) == (if r / 3 == i && c / 3 == j && (r
                        % 3 < a || (r % 3 == a && c % 3 < b)) {
                        false
                    } else {
                        mask_at(grille@, r, c)
                    }),
        {
            proof {
                crate::grid::lemma_band_decompose(i as int, a as int);
                crate::grid::lemma_band_decompose(j as int, b as int);
            }
            cells.set((3 * i + a) * 9 + (3 * j + b), false);
        }
    }
    Mask { cells }
}

impl Mask {
    /// The 9 mask entries of row `l`, in column order.
    pub fn ligne(&self, l: usize) -> (v: Vec<bool>)
        requires
            self.wf(),
            l < 9,
        ensures
            v@.len() == 9,
            forall|c: int| 0 <= c < 9 ==> v@[c] == mask_at(self@, l as int, c),
    {
        let mut v: Vec<bool> = Vec::new();
        for c in 0..9usize
            invariant
                self.wf(),
                l < 9,
                v@.len() == c,
                forall|y: int| 0 <= y < c ==> v@[y] == mask_at(self@, l as int, y),
        {
            v.push(self.cells[l * 9 + c]);
        }
        v
    }

    /// The 9 mask entries of column `l`, in row order.
    pub fn colonne(&self, l: usize) -> (v: Vec<bool>)
        requires
            self.wf(),
            l < 9,
        ensures
            v@.len() == 9,
            forall|r: int| 0 <= r < 9 ==> v@[r] == mask_at(self@, r, l as int),
    {
        let mut v: Vec<bool> = Vec::new();
        for r in 0..9usize
            invariant
                self.wf(),
                l < 9,
                v@.len() == r,
                forall|x: int| 0 <= x < r ==> v@[x] == mask_at(self@, x, l as int),
        {
            v.push(self.cells[r * 9 + l]);
        }
        v
    }

    /// The 9 mask entries of block (i, j), flattened row by row: position k
    /// maps to grid row 3i + k / 3 and grid column 3j + k % 3.
    pub fn carre(&self, i: usize, j: usize) -> (v: Vec<bool>)
        requires
            self.wf(),
            i < 3,
            j < 3,
        ensures
            v@.len() == 9,
            forall|k: int|
                0 <= k < 9 ==> v@[k] == mask_at(self@, 3 * (i as int) + k / 3, 3 * (j as int) + k
                    % 3),
    {
        let mut v: Vec<bool> = Vec::new();
        for a in 0..3usize
            invariant
                self.wf(),
                i < 3,
                j < 3,
                v@.len() == a * 3,
                forall|k: int|
                    0 <= k < a * 3 ==> v@[k] == mask_at(
                        self@,
                        3 * (i as int) + k / 3,
                        3 * (j as int) + k % 3,
                    ),
        {
            for b in 0..3usize
                invariant
                    self.wf(),
                    i < 3,
                    j < 3,
                    a < 3,
                    v@.len() == a * 3 + b,
                    forall|k: int|
                        0 <= k < a * 3 + b ==> v@[k] == mask_at(
                            self@,
                            3 * (i as int) + k / 3,
                            3 * (j as int) + k % 3,
                        ),
            {
                proof {
                    crate::grid::lemma_band_decompose(a as int, b as int);
                }
                v.push(self.cells[(3 * i + a) * 9 + (3 * j + b)]);
            }
        }
        v
    }
}

} // verus!
