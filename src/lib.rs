//! Lowest-cost route search over a weighted, eight-way connected grid.
use vstd::prelude::*;

pub mod cell;
pub mod error;
pub mod grid;
pub mod heuristic;
pub mod search;

verus! {

} // verus!
