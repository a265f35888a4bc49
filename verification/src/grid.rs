//! The 9x9 grid type, its mathematical model, and the row / column / block
//! projections every other component is built on.

use vstd::arithmetic::div_mod::{lemma_fundamental_div_mod, lemma_fundamental_div_mod_converse};
use vstd::prelude::*;

verus! {

/// A 9x9 sudoku grid. Each cell holds `Some(d)` for a placed digit `d`, or
/// `None` while the cell is still empty. Cells are stored row-major.
#[derive(Debug)]
pub struct Grid {
    pub(crate) cells: Vec<Option<u8>>,
}

impl View for Grid {
    type V = Seq<Option<u8>>;

    closed spec fn view(&self) -> Seq<Option<u8>> {
        self.cells@
    }
}

impl Grid {
    /// A grid is well formed when it holds exactly 81 cells.
    pub open spec fn wf(&self) -> bool {
        self@.len() == 81
    }
}

/// Row and column indices both range over [0, 9).
pub open spec fn in_range(r: int, c: int) -> bool {
    0 <= r < 9 && 0 <= c < 9
}

/// Position of cell (r, c) in the row-major cell sequence.
pub open spec fn idx(r: int, c: int) -> int {
    r * 9 + c
}

/// The cell at row `r`, column `c` of a cell sequence.
pub open spec fn cell(g: Seq<Option<u8>>, r: int, c: int) -> Option<u8> {
    g[idx(r, c)]
}

/// Every cell of the grid is filled.
pub open spec fn grid_full(g: Seq<Option<u8>>) -> bool {
    forall|r: int, c: int| in_range(r, c) ==> #[trigger] cell(g, r, c) is Some
}

/// How many cells of the sequence are filled.
pub open spec fn count_filled(g: Seq<Option<u8>>) -> int
    decreases g.len(),
{
    if g.len() == 0 {
        0
    } else {
        count_filled(g.drop_last()) + if g.last() is Some {
            1int
        } else {
            0int
        }
    }
}

/// The number of filled cells is at least 0 and at most the length.
pub proof fn lemma_count_filled_bounds(g: Seq<Option<u8>>)
    ensures
        0 <= count_filled(g) <= g.len(),
    decreases g.len(),
{
    if g.len() > 0 {
        lemma_count_filled_bounds(g.drop_last());
    }
}

/// Filling one empty cell raises the filled count by exactly one.
pub proof fn lemma_count_filled_update(g: Seq<Option<u8>>, i: int, v: Option<u8>)
    requires
        0 <= i < g.len(),
        g[i] is None,
        v is Some,
    ensures
        count_filled(g.update(i, v)) == count_filled(g) + 1,
    decreases g.len(),
{
    let h = g.update(i, v);
    if i == g.len() - 1 {
        assert(h.drop_last() =~= g.drop_last());
    } else {
        assert(h.drop_last() =~= g.drop_last().update(i, v));
        lemma_count_filled_update(g.drop_last(), i, v);
    }
}

/// In-range coordinates are recovered from the row-major position.
pub proof fn lemma_idx_decompose(r: int, c: int)
    requires
        in_range(r, c),
    ensures
        0 <= idx(r, c) < 81,
        idx(r, c) / 9 == r,
        idx(r, c) % 9 == c,
{
    lemma_fundamental_div_mod_converse(r * 9 + c, 9, r, c);
}

/// A band (row or column triple) index is recovered from an offset within it.
pub proof fn lemma_band_decompose(b: int, a: int)
    requires
        0 <= a < 3,
    ensures
        (3 * b + a) / 3 == b,
        (3 * b + a) % 3 == a,
{
    lemma_fundamental_div_mod_converse(3 * b + a, 3, b, a);
}

/// A coordinate splits into its band (its value divided by 3) and an offset
/// within that band.
pub proof fn lemma_coord_decompose(x: int)
    requires
        0 <= x < 9,
    ensures
        x == 3 * (x / 3) + x % 3,
        0 <= x % 3 < 3,
        0 <= x / 3 < 3,
{
    lemma_fundamental_div_mod(x, 3);
}

/// Every position below 81 is the row-major index of an in-range cell.
pub proof fn lemma_cell_of_index(k: int)
    requires
        0 <= k < 81,
    ensures
        in_range(k / 9, k % 9),
        idx(k / 9, k % 9) == k,
{
    lemma_fundamental_div_mod(k, 9);
}

/// Builds a grid from 9 rows of 9 plain numbers each, where `0` stands for an
/// empty cell and any other value for a placed digit.
pub fn grid_from_rows(rows: &Vec<Vec<u8>>) -> (g: Grid)
    requires
        rows@.len() == 9,
        forall|r: int| 0 <= r < 9 ==> rows@[r]@.len() == 9,
    ensures
        g.wf(),
        forall|r: int, c: int|
            in_range(r, c) ==> cell(g@, r, c) == (if rows@[r]@[c] == 0 {
                Option::<u8>::None
            } else {
                Option::Some(rows@[r]@[c])
            }),
{
    let mut cells: Vec<Option<u8>> = Vec::new();
    for r in 0..9usize
        invariant
            rows@.len() == 9,
            forall|i: int| 0 <= i < 9 ==> rows@[i]@.len() == 9,
            cells@.len() == r * 9,
            forall|i: int, j: int|
                in_range(i, j) && i < r ==> cell(cells@, i, j) == (if rows@[i]@[j] == 0 {
                    Option::<u8>::None
                } else {
                    Option::Some(rows@[i]@[j])
                }),
    {
        for c in 0..9usize
            invariant
                rows@.len() == 9,
                forall|i: int| 0 <= i < 9 ==> rows@[i]@.len() == 9,
                r < 9,
                cells@.len() == r * 9 + c,
                forall|i: int, j: int|
                    in_range(i, j) && (i < r || (i == r && j < c)) ==> cell(cells@, i, j) == (
                    if rows@[i]@[j] == 0 {
                        Option::<u8>::None
                    } else {
                        Option::Some(rows@[i]@[j])
                    }),
        {
            let v = rows[r][c];
            if v == 0 {
                cells.push(None);
            } else {
                cells.push(Some(v));
            }
        }
    }
    Grid { cells }
}

/// The 9 cells of row `l`, in column order.
pub fn ligne(grille: &Grid, l: usize) -> (v: Vec<Option<u8>>)
    requires
        grille.wf(),
        l < 9,
    ensures
        v@.len() == 9,
        forall|c: int| 0 <= c < 9 ==> v@[c] == cell(grille@, l as int, c),
{
    let mut v: Vec<Option<u8>> = Vec::new();
    for c in 0..9usize
        invariant
            grille.wf(),
            l < 9,
            v@.len() == c,
            forall|j: int| 0 <= j < c ==> v@[j] == cell(grille@, l as int, j),
    {
        v.push(grille.cells[l * 9 + c]);
    }
    v
}

/// The 9 cells of column `l`, in row order.
pub fn colonne(grille: &Grid, l: usize) -> (v: Vec<Option<u8>>)
    requires
        grille.wf(),
        l < 9,
    ensures
        v@.len() == 9,
        forall|r: int| 0 <= r < 9 ==> v@[r] == cell(grille@, r, l as int),
{
    let mut v: Vec<Option<u8>> = Vec::new();
    for r in 0..9usize
        invariant
            grille.wf(),
            l < 9,
            v@.len() == r,
            forall|i: int| 0 <= i < r ==> v@[i] == cell(grille@, i, l as int),
    {
        v.push(grille.cells[r * 9 + l]);
    }
    v
}

/// The 3x3 sub-grid of block (i, j), with i and j both below 3: its rows are
/// grid rows 3i..3i+3, its columns grid columns 3j..3j+3.
pub fn carre(grille: &Grid, i: usize, j: usize) -> (v: Vec<Vec<Option<u8>>>)
    requires
        grille.wf(),
        i < 3,
        j < 3,
    ensures
        v@.len() == 3,
        forall|a: int| 0 <= a < 3 ==> v@[a]@.len() == 3,
        forall|a: int, b: int|
            0 <= a < 3 && 0 <= b < 3 ==> v@[a]@[b] == cell(
                grille@,
                3 * (i as int) + a,
                3 * (j as int) + b,
            ),
{
    let mut v: Vec<Vec<Option<u8>>> = Vec::new();
    for a in 0..3usize
        invariant
            grille.wf(),
            i < 3,
            j < 3,
            v@.len() == a,
            forall|x: int| 0 <= x < a ==> v@[x]@.len() == 3,
            forall|x: int, y: int|
                0 <= x < a && 0 <= y < 3 ==> v@[x]@[y] == cell(
                    grille@,
                    3 * (i as int) + x,
                    3 * (j as int) + y,
                ),
    {
        let mut row: Vec<Option<u8>> = Vec::new();
        for b in 0..3usize
            invariant
                grille.wf(),
                i < 3,
                j < 3,
                a < 3,
                row@.len() == b,
                forall|y: int|
                    0 <= y < b ==> row@[y] == cell(grille@, 3 * (i as int) + a, 3 * (j as int) + y),
        {
            row.push(grille.cells[(3 * i + a) * 9 + (3 * j + b)]);
        }
        v.push(row);
    }
    v
}

impl Grid {
    /// The value held at row `r`, column `c`.
    pub fn get(&self, r: usize, c: usize) -> (v: Option<u8>)
        requires
            self.wf(),
            r < 9,
            c < 9,
        ensures
            v == cell(self@, r as int, c as int),
    {
        self.cells[r * 9 + c]
    }

    /// The same grid with the cell at (r, c) replaced by `v`.
    pub(crate) fn with_cell(self, r: usize, c: usize, v: Option<u8>) -> (g: Grid)
        requires
            self.wf(),
            r < 9,
            c < 9,
        ensures
            g.wf(),
            g@ == self@.update(idx(r as int, c as int), v),
    {
        let mut cells = self.cells;
        cells.set(r * 9 + c, v);
        Grid { cells }
    }
}

/// Whether every cell of the grid is filled.
pub fn is_full(grille: &Grid) -> (b: bool)
    requires
        grille.wf(),
    ensures
        b == grid_full(grille@),
{
    for r in 0..9usize
        invariant
            grille.wf(),
            forall|i: int, j: int| in_range(i, j) && i < r ==> cell(grille@, i, j) is Some,
    {
        for c in 0..9usize
            invariant
                grille.wf(),
                r < 9,
                forall|i: int, j: int|
                    in_range(i, j) && (i < r || (i == r && j < c)) ==> cell(grille@, i, j) is Some,
        {
            if grille.get(r, c).is_none() {
                proof {
                    assert(in_range(r as int, c as int) && cell(grille@, r as int, c as int) is None);
                }
                return false;
            }
        }
    }
    true
}

impl PartialEq for Grid {
    /// Two grids are equal when they hold the same cells.
    fn eq(&self, other: &Grid) -> (r: bool) {
        if self.cells.len() != other.cells.len() {
            return false;
        }
        for k in 0..self.cells.len()
            invariant
                self@.len() == other@.len(),
                k <= self@.len(),
                forall|j: int| 0 <= j < k ==> self@[j] == other@[j],
        {
            if self.cells[k] != other.cells[k] {
                return false;
            }
        }
        proof {
            assert(self@ =~= other@);
        }
        true
    }
}

impl vstd::std_specs::cmp::PartialEqSpecImpl for Grid {
    open spec fn obeys_eq_spec() -> bool {
        true
    }

    open spec fn eq_spec(&self, other: &Grid) -> bool {
        self@ == other@
    }
}

} // verus!
