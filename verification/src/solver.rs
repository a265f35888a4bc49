//! The solving driver built on propagation alone: sweeps to a fixed point and
//! reports why it stopped. No search or guessing is attempted, so grids that
//! need more than forced deductions end with `StopReason::NoProgressMade`.

use crate::grid::{count_filled, grid_full, is_full, lemma_count_filled_bounds, Grid};
use crate::propagate::{
    no_sole_candidates, only_places_digits, placements_isolated_all, preserves_filled, trivial,
    UpdatedGrid,
};
use crate::validity::{grid_valid, valid};
use vstd::prelude::*;

verus! {

/// `g1` is a valid, still-incomplete extension of `g0` filled only with
/// digits, on which no sole-candidate deduction applies anywhere: the state
/// in which propagation alone must give up.
pub open spec fn stalled_extension(g0: Seq<Option<u8>>, g1: Seq<Option<u8>>) -> bool {
    &&& g1.len() == 81
    &&& preserves_filled(g0, g1)
    &&& only_places_digits(g0, g1)
    &&& grid_valid(g1)
    &&& !grid_full(g1)
    &&& forall|d: u8| 1 <= d <= 9 ==> no_sole_candidates(g1, d)
}

/// Why solving stopped short of a completed grid.
#[derive(Debug, PartialEq, Eq, Structural)]
pub enum StopReason {
    /// The grid already breaks a row, column, or block constraint.
    Invalid,
    /// Propagation reached a fixed point with empty cells left: the grid
    /// needs guesswork, which this engine does not attempt.
    NoProgressMade,
    /// The grid was already full, so there was nothing to solve.
    Full,
}

/// Runs full sweeps until one places no digit. Returns the completed grid if
/// propagation alone finishes it; otherwise says why it stopped: `Invalid`
/// exactly when the grid breaks a constraint, `Full` exactly when a valid
/// grid had no empty cell to begin with, and `NoProgressMade` when forced
/// deductions dried up with holes left.
#[verifier::loop_isolation(false)]
pub fn solve(grille: Grid) -> (res: Result<UpdatedGrid, StopReason>)
    requires
        grille.wf(),
    ensures
        res matches Err(StopReason::Invalid) <==> !grid_valid(grille@),
        res matches Err(StopReason::Full) <==> grid_valid(grille@) && grid_full(grille@),
        res matches Err(StopReason::NoProgressMade) ==> grid_valid(grille@) && !grid_full(grille@)
            && (exists|g1: Seq<Option<u8>>| #[trigger] stalled_extension(grille@, g1)),
        res matches Ok(u) ==> {
            &&& u.grid.wf()
            &&& grid_valid(grille@)
            &&& !grid_full(grille@)
            &&& grid_valid(u.grid@)
            &&& grid_full(u.grid@)
            &&& preserves_filled(grille@, u.grid@)
            &&& only_places_digits(grille@, u.grid@)
            &&& placements_isolated_all(grille@, u.grid@)
            &&& u.updates == count_filled(u.grid@) - count_filled(grille@)
        },
{
    if !valid(&grille) {
        return Err(StopReason::Invalid);
    }
    if is_full(&grille) {
        return Err(StopReason::Full);
    }

    let ghost g0 = grille@;
    proof {
        lemma_count_filled_bounds(g0);
    }
    let mut current = grille;
    let mut total: usize = 0;
    let mut done: bool = false;

    while !done
        invariant
            current.wf(),
            0 <= count_filled(current@) <= 81,
            preserves_filled(g0, current@),
            only_places_digits(g0, current@),
            placements_isolated_all(g0, current@),
            grid_valid(current@),
            total as int == count_filled(current@) - count_filled(g0),
            done ==> forall|d: u8| 1 <= d <= 9 ==> no_sole_candidates(current@, d),
        decreases 82 - count_filled(current@) + (if done {
            0int
        } else {
            1int
        }),
    {
        let ghost gprev = current@;
        let res = trivial(current);
        current = res.grid;
        proof {
            crate::propagate::lemma_sweep_chain(g0, gprev, current@);
            lemma_count_filled_bounds(g0);
            lemma_count_filled_bounds(current@);
        }
        total += res.updates;
        if res.updates == 0 {
            done = true;
        }
    }

    if is_full(&current) {
        Ok(UpdatedGrid { grid: current, updates: total })
    } else {
        proof {
            assert(stalled_extension(g0, current@));
        }
        Err(StopReason::NoProgressMade)
    }
}

} // verus!
