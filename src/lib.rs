//! Solver for the 4x4 balance puzzle: sixteen cell readings are rearranged by
//! pairwise swaps until designated pairs of cells are close together (solve)
//! or far apart (unsolve).
//!
//! - `balance`: the groups of cell pairs of each mode and their evaluation.
//! - `permutation`: swaps, and the decomposition of a rearrangement into them.
//! - `solver`: the randomised search for a short list of swaps.
//! - `grid`: cell coordinates and the removal of duplicate readings.
//! - `layout`: a text picture of a list of swaps.
use vstd::prelude::*;

pub mod balance;
pub mod grid;
pub mod layout;
pub mod permutation;
pub mod solver;

verus! {

} // verus!
