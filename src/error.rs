//! Failures reported by grid edits and route searches.
use vstd::prelude::*;

verus! {

/// Why a grid edit or a route search failed.
#[derive(Clone, Copy, Debug, PartialEq, Eq, Structural)]
pub enum PathError {
    /// A coordinate lies outside the grid.
    OutOfBounds,
    /// A grid was asked for with zero rows or zero columns.
    InvalidDimension,
    /// A search was asked for before the start or the finish was marked.
    MissingMarker,
    /// The start or the finish is blocked or outside the grid.
    UnreachableEndpoint,
    /// Every cell reachable from the start was searched without meeting the finish.
    NoPathExists,
}

} // verus!
