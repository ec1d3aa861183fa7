use vstd::prelude::*;

verus! {

/// A pixel position on a bitmap, with 16-bit signed coordinates.
#[derive(Clone, Copy, Debug, PartialEq, Eq, Structural)]
pub struct Point {
    pub x: i16,
    pub y: i16,
}

impl Point {
    /// The point at `(x, y)`.
    pub fn new(x: i16, y: i16) -> (p: Point)
        ensures
            p.x == x,
            p.y == y,
    {
        Point { x, y }
    }

    /// The point at `(x, y)`; each coordinate keeps the low 16 bits of its value.
    pub fn from_usize(x: usize, y: usize) -> (p: Point)
        ensures
            p.x == x as i16,
            p.y == y as i16,
    {
        Point { x: x as i16, y: y as i16 }
    }
}

} // verus!
