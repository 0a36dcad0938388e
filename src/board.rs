//! The fixed rectangle of cells that are eligible for display.

use vstd::prelude::*;

verus! {

/// Smallest x of the boundary (inclusive).
pub const MIN_X: i32 = 0;

/// Smallest y of the boundary (inclusive).
pub const MIN_Y: i32 = 0;

/// Largest x of the boundary (exclusive).
pub const MAX_X: i32 = 1000;

/// Largest y of the boundary (exclusive).
pub const MAX_Y: i32 = 1000;

/// The cell `(x, y)` lies in the half-open rectangle
/// `[MIN_X, MAX_X) x [MIN_Y, MAX_Y)`.
pub open spec fn within(x: int, y: int) -> bool {
    MIN_X <= x < MAX_X && MIN_Y <= y < MAX_Y
}

/// Tells whether the cell `(x, y)` lies inside the boundary. The answer
/// depends on the coordinates alone, so two calls on one cell always agree.
pub fn in_bounds(x: i32, y: i32) -> (r: bool)
    ensures
        r == within(x as int, y as int),
{
    x >= MIN_X && x < MAX_X && y >= MIN_Y && y < MAX_Y
}

} // verus!
