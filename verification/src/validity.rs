//! The validator: no row, column, or block may hold the same digit twice.

use crate::grid::{cell, in_range, lemma_band_decompose, Grid};
use vstd::prelude::*;

verus! {

/// Row `r` holds no digit twice.
pub open spec fn row_dup_free(g: Seq<Option<u8>>, r: int) -> bool {
    forall|c1: int, c2: int|
        0 <= c1 < 9 && 0 <= c2 < 9 && c1 != c2 && cell(g, r, c1) is Some ==> cell(g, r, c1)
            != cell(g, r, c2)
}

/// Column `c` holds no digit twice.
pub open spec fn col_dup_free(g: Seq<Option<u8>>, c: int) -> bool {
    forall|r1: int, r2: int|
        0 <= r1 < 9 && 0 <= r2 < 9 && r1 != r2 && cell(g, r1, c) is Some ==> cell(g, r1, c)
            != cell(g, r2, c)
}

/// Block (bi, bj) holds no digit twice. A cell (r, c) lies in that block
/// exactly when r / 3 == bi and c / 3 == bj.
pub open spec fn block_dup_free(g: Seq<Option<u8>>, bi: int, bj: int) -> bool {
    forall|r1: int, c1: int, r2: int, c2: int|
        in_range(r1, c1) && in_range(r2, c2) && r1 / 3 == bi && c1 / 3 == bj && r2 / 3 == bi && c2
            / 3 == bj && !(r1 == r2 && c1 == c2) && #[trigger] cell(g, r1, c1) is Some ==> cell(
            g,
            r1,
            c1,
        ) != #[trigger] cell(g, r2, c2)
}

/// No row, column, or block of the grid holds the same digit twice.
pub open spec fn grid_valid(g: Seq<Option<u8>>) -> bool {
    &&& forall|r: int| 0 <= r < 9 ==> row_dup_free(g, r)
    &&& forall|c: int| 0 <= c < 9 ==> col_dup_free(g, c)
    &&& forall|bi: int, bj: int| 0 <= bi < 3 && 0 <= bj < 3 ==> block_dup_free(g, bi, bj)
}

/// The cell of block (bi, bj) at flat position k, counting its cells row by
/// row.
pub open spec fn bcell(g: Seq<Option<u8>>, bi: int, bj: int, k: int) -> Option<u8> {
    cell(g, 3 * bi + k / 3, 3 * bj + k % 3)
}

/// `block_dup_free`, restated over the block's flat positions 0..9.
pub open spec fn block_dup_free_flat(g: Seq<Option<u8>>, bi: int, bj: int) -> bool {
    forall|k1: int, k2: int|
        0 <= k1 < 9 && 0 <= k2 < 9 && k1 != k2 && #[trigger] bcell(g, bi, bj, k1) is Some ==> bcell(
            g,
            bi,
            bj,
            k1,
        ) != #[trigger] bcell(g, bi, bj, k2)
}

/// The flat and the coordinate form of block duplicate-freedom agree.
pub proof fn lemma_block_dup_free_flat(g: Seq<Option<u8>>, bi: int, bj: int)
    requires
        0 <= bi < 3,
        0 <= bj < 3,
    ensures
        block_dup_free_flat(g, bi, bj) == block_dup_free(g, bi, bj),
{
    if block_dup_free_flat(g, bi, bj) {
        assert forall|r1: int, c1: int, r2: int, c2: int|
            in_range(r1, c1) && in_range(r2, c2) && r1 / 3 == bi && c1 / 3 == bj && r2 / 3 == bi
                && c2 / 3 == bj && !(r1 == r2 && c1 == c2) && #[trigger] cell(g, r1, c1) is Some
            implies cell(g, r1, c1) != #[trigger] cell(g, r2, c2) by {
            let k1 = 3 * (r1 % 3) + c1 % 3;
            let k2 = 3 * (r2 % 3) + c2 % 3;
            lemma_band_decompose(r1 % 3, c1 % 3);
            lemma_band_decompose(r2 % 3, c2 % 3);
            assert(bcell(g, bi, bj, k1) == cell(g, r1, c1));
            assert(bcell(g, bi, bj, k2) == cell(g, r2, c2));
            assert(k1 != k2);
        }
    }
    if block_dup_free(g, bi, bj) {
        assert forall|k1: int, k2: int|
            0 <= k1 < 9 && 0 <= k2 < 9 && k1 != k2 && #[trigger] bcell(g, bi, bj, k1) is Some
            implies bcell(g, bi, bj, k1) != #[trigger] bcell(g, bi, bj, k2) by {
            let (r1, c1) = (3 * bi + k1 / 3, 3 * bj + k1 % 3);
            let (r2, c2) = (3 * bi + k2 / 3, 3 * bj + k2 % 3);
            lemma_band_decompose(bi, k1 / 3);
            lemma_band_decompose(bj, k1 % 3);
            lemma_band_decompose(bi, k2 / 3);
            lemma_band_decompose(bj, k2 % 3);
            assert(!(r1 == r2 && c1 == c2));
            assert(cell(g, r1, c1) is Some);
        }
    }
}

/// Whether row `r` is free of duplicates.
fn row_ok(grille: &Grid, r: usize) -> (b: bool)
    requires
        grille.wf(),
        r < 9,
    ensures
        b == row_dup_free(grille@, r as int),
{
    for c1 in 0..9usize
        invariant
            grille.wf(),
            r < 9,
            forall|a: int, b2: int|
                0 <= a < c1 && 0 <= b2 < 9 && a != b2 && cell(grille@, r as int, a) is Some ==> cell(
                    grille@,
                    r as int,
                    a,
                ) != cell(grille@, r as int, b2),
    {
        for c2 in 0..9usize
            invariant
                grille.wf(),
                r < 9,
                c1 < 9,
                forall|a: int, b2: int|
                    0 <= a < c1 && 0 <= b2 < 9 && a != b2 && cell(grille@, r as int, a) is Some
                        ==> cell(grille@, r as int, a) != cell(grille@, r as int, b2),
                forall|b2: int|
                    0 <= b2 < c2 && c1 != b2 && cell(grille@, r as int, c1 as int) is Some ==> cell(
                        grille@,
                        r as int,
                        c1 as int,
                    ) != cell(grille@, r as int, b2),
        {
            if c1 != c2 {
                if let Some(x) = grille.get(r, c1) {
                    if let Some(y) = grille.get(r, c2) {
                        if x == y {
                            return false;
                        }
                    }
                }
            }
        }
    }
    true
}

/// Whether column `c` is free of duplicates.
fn col_ok(grille: &Grid, c: usize) -> (b: bool)
    requires
        grille.wf(),
        c < 9,
    ensures
        b == col_dup_free(grille@, c as int),
{
    for r1 in 0..9usize
        invariant
            grille.wf(),
            c < 9,
            forall|a: int, b2: int|
                0 <= a < r1 && 0 <= b2 < 9 && a != b2 && cell(grille@, a, c as int) is Some ==> cell(
                    grille@,
                    a,
                    c as int,
                ) != cell(grille@, b2, c as int),
    {
        for r2 in 0..9usize
            invariant
                grille.wf(),
                c < 9,
                r1 < 9,
                forall|a: int, b2: int|
                    0 <= a < r1 && 0 <= b2 < 9 && a != b2 && cell(grille@, a, c as int) is Some
                        ==> cell(grille@, a, c as int) != cell(grille@, b2, c as int),
                forall|b2: int|
                    0 <= b2 < r2 && r1 != b2 && cell(grille@, r1 as int, c as int) is Some ==> cell(
                        grille@,
                        r1 as int,
                        c as int,
                    ) != cell(grille@, b2, c as int),
        {
            if r1 != r2 {
                if let Some(x) = grille.get(r1, c) {
                    if let Some(y) = grille.get(r2, c) {
                        if x == y {
                            return false;
                        }
                    }
                }
            }
        }
    }
    true
}

/// Whether block (bi, bj) is free of duplicates.
fn block_ok(grille: &Grid, bi: usize, bj: usize) -> (b: bool)
    requires
        grille.wf(),
        bi < 3,
        bj < 3,
    ensures
        b == block_dup_free(grille@, bi as int, bj as int),
{
    for k1 in 0..9usize
        invariant
            grille.wf(),
            bi < 3,
            bj < 3,
            forall|a: int, b2: int|
                0 <= a < k1 && 0 <= b2 < 9 && a != b2 && #[trigger] bcell(
                    grille@,
                    bi as int,
                    bj as int,
                    a,
                ) is Some ==> bcell(grille@, bi as int, bj as int, a) != #[trigger] bcell(grille@, bi as int, bj as int, b2),
    {
        for k2 in 0..9usize
            invariant
                grille.wf(),
                bi < 3,
                bj < 3,
                k1 < 9,
                forall|a: int, b2: int|
                    0 <= a < k1 && 0 <= b2 < 9 && a != b2 && #[trigger] bcell(
                        grille@,
                        bi as int,
                        bj as int,
                        a,
                    ) is Some ==> bcell(grille@, bi as int, bj as int, a) != #[trigger] bcell(
                        grille@,
                        bi as int,
                        bj as int,
                        b2,
                    ),
                forall|b2: int|
                    0 <= b2 < k2 && k1 != b2 && bcell(grille@, bi as int, bj as int, k1 as int) is Some
                        ==> bcell(grille@, bi as int, bj as int, k1 as int) != #[trigger] bcell(
                        grille@,
                        bi as int,
                        bj as int,
                        b2,
                    ),
        {
            if k1 != k2 {
                let r1 = 3 * bi + k1 / 3;
                let c1 = 3 * bj + k1 % 3;
                let r2 = 3 * bi + k2 / 3;
                let c2 = 3 * bj + k2 % 3;
                proof {
                    assert(r1 as int == 3 * bi as int + (k1 as int) / 3);
                    assert(c1 as int == 3 * bj as int + (k1 as int) % 3);
                    assert(r2 as int == 3 * bi as int + (k2 as int) / 3);
                    assert(c2 as int == 3 * bj as int + (k2 as int) % 3);
                    assert(bcell(grille@, bi as int, bj as int, k1 as int) == cell(
                        grille@,
                        r1 as int,
                        c1 as int,
                    ));
                    assert(bcell(grille@, bi as int, bj as int, k2 as int) == cell(
                        grille@,
                        r2 as int,
                        c2 as int,
                    ));
                }
                if let Some(x) = grille.get(r1, c1) {
                    if let Some(y) = grille.get(r2, c2) {
                        if x == y {
                            proof {
                                assert(bcell(grille@, bi as int, bj as int, k1 as int) is Some);
                                assert(bcell(grille@, bi as int, bj as int, k1 as int) == bcell(
                                    grille@,
                                    bi as int,
                                    bj as int,
                                    k2 as int,
                                ));
                                assert(!block_dup_free_flat(grille@, bi as int, bj as int));
                                lemma_block_dup_free_flat(grille@, bi as int, bj as int);
                            }
                            return false;
                        }
                    }
                }
            }
        }
    }
    proof {
        lemma_block_dup_free_flat(grille@, bi as int, bj as int);
    }
    true
}

/// Whether no row, column, or block of the grid holds the same digit twice.
/// Total over every grid, valid or not.
pub fn valid(grille: &Grid) -> (b: bool)
    requires
        grille.wf(),
    ensures
        b == grid_valid(grille@),
{
    for r in 0..9usize
        invariant
            grille.wf(),
            forall|i: int| 0 <= i < r ==> row_dup_free(grille@, i),
    {
        if !row_ok(grille, r) {
            return false;
        }
    }
    for c in 0..9usize
        invariant
            grille.wf(),
            forall|i: int| 0 <= i < 9 ==> row_dup_free(grille@, i),
            forall|i: int| 0 <= i < c ==> col_dup_free(grille@, i),
    {
        if !col_ok(grille, c) {
            return false;
        }
    }
    for bi in 0..3usize
        invariant
            grille.wf(),
            forall|i: int| 0 <= i < 9 ==> row_dup_free(grille@, i),
            forall|i: int| 0 <= i < 9 ==> col_dup_free(grille@, i),
            forall|i: int, j: int| 0 <= i < bi && 0 <= j < 3 ==> block_dup_free(grille@, i, j),
    {
        for bj in 0..3usize
            invariant
                grille.wf(),
                bi < 3,
                forall|i: int| 0 <= i < 9 ==> row_dup_free(grille@, i),
                forall|i: int| 0 <= i < 9 ==> col_dup_free(grille@, i),
                forall|i: int, j: int| 0 <= i < bi && 0 <= j < 3 ==> block_dup_free(grille@, i, j),
                forall|j: int| 0 <= j < bj ==> block_dup_free(grille@, bi as int, j),
        {
            if !block_ok(grille, bi, bj) {
                return false;
            }
        }
    }
    true
}

} // verus!
