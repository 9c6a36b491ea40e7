use vstd::prelude::*;

verus! {

/// An (x, y) coordinate on a `Grid`.
///
/// Coordinates are signed: intermediate computations (such as probing the
/// neighbours of a border cell) may step outside the grid, and such points
/// are simply reported as not walkable.
#[derive(Debug, Clone, Copy, PartialEq, Eq, Structural, Hash)]
pub struct Point {
    pub x: isize,
    pub y: isize,
}

impl Point {
    /// Builds the point (x, y).
    pub fn new(x: isize, y: isize) -> (r: Self)
        ensures
            r == (Point { x, y }),
    {
        Point { x, y }
    }
}

} // verus!
