//! Small 2D vector used for pixel positions, block sizes and level indices.

use vstd::prelude::*;

verus! {

/// A pair of unsigned coordinates: a position, an extent, or a level index.
#[derive(Clone, Copy, PartialEq, Eq, Structural, Debug, Hash)]
pub struct Vec2 {
    /// Horizontal component.
    pub x: usize,
    /// Vertical component.
    pub y: usize,
}

impl Vec2 {
    /// The number of pixels covered when this vector is an extent.
    pub open spec fn spec_area(self) -> int {
        self.x * self.y
    }

    /// Build a vector from its two components.
    pub fn new(x: usize, y: usize) -> (r: Vec2)
        ensures
            r.x == x,
            r.y == y,
    {
        Vec2 { x, y }
    }

    /// The number of pixels covered when this vector is an extent.
    pub fn area(self) -> (r: usize)
        requires
            self.x * self.y <= usize::MAX,
        ensures
            r == self.spec_area(),
    {
        self.x * self.y
    }
}

} // verus!
