//! Terrain kinds and what it costs to step onto them.
use vstd::prelude::*;

verus! {

/// Terrain of one cell, or one of the two route markers.
#[derive(Clone, Copy, Debug, PartialEq, Eq, Structural)]
pub enum CellKind {
    /// Light terrain: as cheap as open ground, drawn differently.
    Easy,
    /// Open ground.
    Normal,
    /// Heavy terrain.
    Hard,
    /// Impassable.
    Blocked,
    /// Where a route begins; traversable like open ground.
    Start,
    /// Where a route ends.
    Finish,
}

/// Cost of stepping onto a cell of kind `k`, or `None` when it cannot be entered.
pub open spec fn cost_of(k: CellKind) -> Option<u32> {
    match k {
        CellKind::Easy => Some(1u32),
        CellKind::Normal => Some(1u32),
        CellKind::Hard => Some(6u32),
        CellKind::Blocked => None,
        CellKind::Start => Some(1u32),
        CellKind::Finish => Some(3u32),
    }
}

/// Whether a cell of kind `k` may be entered.
pub open spec fn passable(k: CellKind) -> bool {
    k != CellKind::Blocked
}

impl CellKind {
    /// Cost of stepping onto a cell of this kind; `None` for blocked terrain.
    pub fn movement_cost(&self) -> (r: Option<u32>)
        ensures
            r == cost_of(*self),
            r is Some <==> passable(*self),
            r matches Some(c) ==> 1 <= c <= 6,
    {
        match self {
            CellKind::Easy => Some(1),
            CellKind::Normal => Some(1),
            CellKind::Hard => Some(6),
            CellKind::Blocked => None,
            CellKind::Start => Some(1),
            CellKind::Finish => Some(3),
        }
    }
}

/// One cell of a grid: its column `x`, its row `y` and its kind.
#[derive(Clone, Copy, Debug, PartialEq, Eq, Structural)]
pub struct Cell {
    pub y: u32,
    pub x: u32,
    pub passable: CellKind,
}

impl Cell {
    /// Cost of stepping onto this cell; `None` when it is blocked.
    pub fn get_penalty(&self) -> (r: Option<u32>)
        ensures
            r == cost_of(self.passable),
    {
        self.passable.movement_cost()
    }

    /// Octile distance from this cell to `target`, in thousandths of a straight step.
    pub fn get_heuristic(&self, target: &Cell) -> (r: u64)
        ensures
            r == crate::heuristic::octile(self.x as int, self.y as int, target.x as int, target.y as int),
    {
        crate::heuristic::octile_distance((self.x, self.y), (target.x, target.y))
    }
}

} // verus!
