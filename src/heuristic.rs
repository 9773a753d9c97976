//! Octile distance: the length of a shortest unobstructed eight-way route.
//!
//! Distances are integers in thousandths of a straight step. A diagonal step
//! counts 1414, the square root of two rounded down, so the value never exceeds
//! the real octile distance.
use vstd::prelude::*;

verus! {

/// Length of a straight step.
pub const STRAIGHT_STEP: u64 = 1000;

/// Length of a diagonal step, rounded down.
pub const DIAGONAL_STEP: u64 = 1414;

pub open spec fn abs_diff(a: int, b: int) -> int {
    if a >= b { a - b } else { b - a }
}

pub open spec fn max_of(a: int, b: int) -> int {
    if a >= b { a } else { b }
}

pub open spec fn min_of(a: int, b: int) -> int {
    if a <= b { a } else { b }
}

/// Chebyshev distance: the fewest eight-way steps between two cells.
pub open spec fn chebyshev(ax: int, ay: int, bx: int, by: int) -> int {
    max_of(abs_diff(ax, bx), abs_diff(ay, by))
}

/// Octile distance between `(ax, ay)` and `(bx, by)`:
/// `min(dx, dy)` diagonal steps and `max(dx, dy) - min(dx, dy)` straight ones.
pub open spec fn octile(ax: int, ay: int, bx: int, by: int) -> int {
    let dx = abs_diff(ax, bx);
    let dy = abs_diff(ay, by);
    DIAGONAL_STEP * min_of(dx, dy) + STRAIGHT_STEP * (max_of(dx, dy) - min_of(dx, dy))
}

/// Octile distance between two `(x, y)` coordinates.
pub fn octile_distance(a: (u32, u32), b: (u32, u32)) -> (r: u64)
    ensures
        r == octile(a.0 as int, a.1 as int, b.0 as int, b.1 as int),
{
    let dx: u32 = if a.0 >= b.0 { a.0 - b.0 } else { b.0 - a.0 };
    let dy: u32 = if a.1 >= b.1 { a.1 - b.1 } else { b.1 - a.1 };
    let lo: u32 = if dx <= dy { dx } else { dy };
    let hi: u32 = if dx <= dy { dy } else { dx };
    DIAGONAL_STEP * (lo as u64) + STRAIGHT_STEP * ((hi - lo) as u64)
}

/// Chebyshev distance between two `(x, y)` coordinates: the fewest eight-way steps.
pub fn chebyshev_distance(a: (u32, u32), b: (u32, u32)) -> (r: u64)
    ensures
        r == chebyshev(a.0 as int, a.1 as int, b.0 as int, b.1 as int),
{
    let dx: u32 = if a.0 >= b.0 { a.0 - b.0 } else { b.0 - a.0 };
    let dy: u32 = if a.1 >= b.1 { a.1 - b.1 } else { b.1 - a.1 };
    if dx >= dy { dx as u64 } else { dy as u64 }
}

/// The octile distance does not depend on the order of its two points.
pub proof fn octile_symmetric(ax: int, ay: int, bx: int, by: int)
    ensures
        octile(ax, ay, bx, by) == octile(bx, by, ax, ay),
{
}

/// A point is at octile distance zero from itself.
pub proof fn octile_zero(ax: int, ay: int)
    ensures
        octile(ax, ay, ax, ay) == 0,
{
}

/// Going through a third point is never shorter.
pub proof fn octile_triangle(ax: int, ay: int, bx: int, by: int, cx: int, cy: int)
    ensures
        octile(ax, ay, bx, by) <= octile(ax, ay, cx, cy) + octile(cx, cy, bx, by),
{
}

} // verus!
