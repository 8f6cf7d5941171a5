//! A 2D point in image space: `x` grows right, `y` grows down.
//!
//! Coordinates are fixed-point integers (`crate::SCALE` units per pixel), so
//! every geometric computation downstream is exact integer arithmetic.
use vstd::prelude::*;

verus! {

/// Represents a 2D point of the plane, in fixed-point image coordinates.
#[derive(Clone, Copy, PartialEq, Eq, Structural, Debug, Hash)]
pub struct Point {
    pub x: i64,
    pub y: i64,
}

impl Point {
    /// True when both coordinates are small enough for the library's
    /// arithmetic: squared distances and cross products then fit in `i64`.
    pub open spec fn in_range(self) -> bool {
        -crate::MAX_COORD <= self.x <= crate::MAX_COORD
            && -crate::MAX_COORD <= self.y <= crate::MAX_COORD
    }

    /// Squared Euclidean distance between two points, as a mathematical integer.
    pub open spec fn dist2_spec(self, p: Point) -> int {
        (self.x - p.x) * (self.x - p.x) + (self.y - p.y) * (self.y - p.y)
    }

    pub fn new(x: i64, y: i64) -> (r: Point)
        ensures
            r == (Point { x, y }),
    {
        Point { x, y }
    }

    /// Squared Euclidean distance to `p`.
    pub fn dist2(&self, p: &Point) -> (r: i64)
        requires
            self.in_range(),
            p.in_range(),
        ensures
            r == self.dist2_spec(*p),
            r >= 0,
    {
        let dx = self.x - p.x;
        let dy = self.y - p.y;
        proof {
            crate::math::lemma_mul_bound(dx as int, dx as int, 2 * crate::MAX_COORD as int);
            crate::math::lemma_mul_bound(dy as int, dy as int, 2 * crate::MAX_COORD as int);
            assert(dx * dx >= 0 && dy * dy >= 0) by (nonlinear_arith);
        }
        dx * dx + dy * dy
    }

    /// Whether `p` coincides with `self`.  Coordinates are exact integers, so
    /// near-equality collapses to equality.
    pub fn nearly_equals(&self, p: &Point) -> (r: bool)
        ensures
            r == (*self == *p),
    {
        self.x == p.x && self.y == p.y
    }

    /// Component-wise sum.
    pub fn add(self, right: Point) -> (r: Point)
        requires
            self.in_range(),
            right.in_range(),
        ensures
            r.x == self.x + right.x,
            r.y == self.y + right.y,
    {
        Point { x: self.x + right.x, y: self.y + right.y }
    }

    /// Component-wise difference.
    pub fn sub(self, right: Point) -> (r: Point)
        requires
            self.in_range(),
            right.in_range(),
        ensures
            r.x == self.x - right.x,
            r.y == self.y - right.y,
    {
        Point { x: self.x - right.x, y: self.y - right.y }
    }
}

} // verus!
