use vstd::prelude::*;

verus! {

/// A position on the tile grid (column `x`, row `y`).
#[derive(Clone, Copy, Debug, PartialEq, Eq, Structural, Hash)]
pub struct TileVec {
    pub x: i32,
    pub y: i32,
}

impl TileVec {
    pub fn new(x: i32, y: i32) -> (r: TileVec)
        ensures
            r.x == x,
            r.y == y,
    {
        TileVec { x, y }
    }
}

pub open spec fn abs(v: int) -> int {
    if v < 0 {
        -v
    } else {
        v
    }
}

/// Number of cardinal steps between two tiles.
pub open spec fn manhattan(a: TileVec, b: TileVec) -> int {
    abs(a.x - b.x) + abs(a.y - b.y)
}

/// Number of king moves between two tiles.
pub open spec fn chebyshev(a: TileVec, b: TileVec) -> int {
    if abs(a.x - b.x) >= abs(a.y - b.y) {
        abs(a.x - b.x)
    } else {
        abs(a.y - b.y)
    }
}

} // verus!
