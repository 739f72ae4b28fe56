//! Axial hex-grid coordinates and the six discrete facing directions.

use vstd::prelude::*;

verus! {

/// An axial coordinate pair naming one cell of the hex grid.
/// Purely structural: no grid bounds are enforced here.
#[derive(Debug, Clone, Copy, Eq, PartialEq, Structural)]
pub struct HexCoordinate {
    pub x: i32,
    pub y: i32,
}

impl HexCoordinate {
    pub fn new(x: i32, y: i32) -> (r: Self)
        ensures
            r.x == x,
            r.y == y,
    {
        HexCoordinate { x, y }
    }

    pub fn x(&self) -> (r: i32)
        ensures
            r == self.x,
    {
        self.x
    }

    pub fn y(&self) -> (r: i32)
        ensures
            r == self.y,
    {
        self.y
    }
}

/// One of the six facings on the hex grid, used both as a ship heading and
/// as a step vector when enumerating hex neighbours.
#[derive(Debug, Clone, Copy, Eq, PartialEq, Structural)]
pub enum Direction {
    East,
    SouthEast,
    SouthWest,
    West,
    NorthWest,
    NorthEast,
}

} // verus!
