//! Distances between points of a grid, for use as heuristics.
use vstd::prelude::*;

verus! {

/// The distance between two coordinates.
pub open spec fn gap(a: int, b: int) -> int {
    if a >= b {
        a - b
    } else {
        b - a
    }
}

/// The Manhattan distance between `(x1, y1)` and `(x2, y2)`.
pub open spec fn manhattan(x1: int, y1: int, x2: int, y2: int) -> int {
    gap(x1, x2) + gap(y1, y2)
}

/// The Chebyshev distance between `(x1, y1)` and `(x2, y2)`.
pub open spec fn chebyshev(x1: int, y1: int, x2: int, y2: int) -> int {
    if gap(x1, x2) >= gap(y1, y2) {
        gap(x1, x2)
    } else {
        gap(y1, y2)
    }
}

/// The distance between two coordinates.
pub fn distance(a: usize, b: usize) -> (d: usize)
    ensures
        d == gap(a as int, b as int),
{
    if a >= b {
        a - b
    } else {
        b - a
    }
}

/// The Manhattan distance between two points: the number of steps between
/// them when only horizontal and vertical steps are allowed.
pub fn manhattan_distance_2d(x1: usize, y1: usize, x2: usize, y2: usize) -> (d: usize)
    requires
        manhattan(x1 as int, y1 as int, x2 as int, y2 as int) <= usize::MAX,
    ensures
        d == manhattan(x1 as int, y1 as int, x2 as int, y2 as int),
{
    distance(x1, x2) + distance(y1, y2)
}

/// The Chebyshev distance between two points: the number of steps between
/// them when diagonal steps are allowed too.
pub fn chebyshev_distance(x1: usize, y1: usize, x2: usize, y2: usize) -> (d: usize)
    ensures
        d == chebyshev(x1 as int, y1 as int, x2 as int, y2 as int),
{
    let dx = distance(x1, x2);
    let dy = distance(y1, y2);
    if dx >= dy {
        dx
    } else {
        dy
    }
}

} // verus!
