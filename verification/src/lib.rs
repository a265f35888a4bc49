//! Constraint propagation for 9x9 sudoku grids.
//!
//! A grid is a 9x9 matrix of optional digits; `None` marks an empty cell.
//! The engine deduces forced placements with "sole candidate" logic: for a
//! given digit, a mask of still-legal cells is built, and whenever a row,
//! column, or block keeps exactly one legal cell for that digit, the digit is
//! placed there. Every operation is a pure transformation: it consumes a grid
//! and returns a new one together with the number of cells it filled.

pub mod grid;
pub mod mask;
pub mod propagate;
pub mod solver;
pub mod validity;

pub use grid::{carre, colonne, grid_from_rows, is_full, ligne, Grid};
pub use mask::{barre, barre_carre, barre_colonne, barre_ligne, Mask};
pub use propagate::{only_possible_slot, trivial, trivial_digit, UpdatedGrid};
pub use solver::{solve, StopReason};
pub use validity::valid;
