//! Grid positions and distances.
use vstd::prelude::*;

verus! {

/// A tile coordinate on the map.
#[derive(Clone, Copy, Debug, PartialEq, Eq, Structural, Hash)]
pub struct Pos {
    pub x: i32,
    pub y: i32,
}

/// The absolute value of an integer.
pub open spec fn abs(v: int) -> int {
    if v < 0 { -v } else { v }
}

/// Manhattan distance between two positions, over the integers.
pub open spec fn manhattan(a: Pos, b: Pos) -> int {
    abs(a.x - b.x) + abs(a.y - b.y)
}

impl Pos {
    /// Manhattan distance; it must fit in an `i32`.
    pub fn distance(self, other: Self) -> (d: i32)
        requires
            manhattan(self, other) <= i32::MAX,
        ensures
            d == manhattan(self, other),
    {
        let dx: i64 = self.x as i64 - other.x as i64;
        let dy: i64 = self.y as i64 - other.y as i64;
        let ax: i64 = if dx < 0 { -dx } else { dx };
        let ay: i64 = if dy < 0 { -dy } else { dy };
        (ax + ay) as i32
    }

    /// The position shifted by `(dx, dy)`.
    pub fn offset(self, dx: i32, dy: i32) -> (p: Self)
        requires
            i32::MIN <= self.x + dx <= i32::MAX,
            i32::MIN <= self.y + dy <= i32::MAX,
        ensures
            p.x == self.x + dx,
            p.y == self.y + dy,
    {
        Pos { x: self.x + dx, y: self.y + dy }
    }
}

} // verus!
