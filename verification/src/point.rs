//! Plain and homogeneous integer points, with the orientation and
//! distance forms the rest of the engine is specified with.

use vstd::prelude::*;
use crate::arith::lemma_mul_bound;

verus! {

/// Largest coordinate magnitude the engine accepts.
///
/// Every polygon vertex and every triangulation input point lies in
/// `[-MAX_COORD, MAX_COORD]` on both axes. The bound is what lets every
/// intermediate product of the exact predicates fit in `i128`.
pub const MAX_COORD: i64 = 100_000;

/// A point of the scaled-integer plane. A value type: two points are the
/// same point exactly when their coordinates are equal.
#[derive(Clone, Copy, Debug, PartialEq, Eq, Structural)]
pub struct Point {
    pub x: i64,
    pub y: i64,
}

/// A point with exact rational coordinates `(x/w, y/w)`, kept in
/// homogeneous form so that no rounding happens: `w` is always positive.
/// Line intersections and circumcenters are reported this way.
#[derive(Clone, Copy, Debug, PartialEq, Eq, Structural)]
pub struct HPoint {
    pub x: i64,
    pub y: i64,
    pub w: i64,
}

impl Point {
    /// Both coordinates within the engine's working range.
    pub open spec fn in_range(self) -> bool {
        -MAX_COORD <= self.x <= MAX_COORD && -MAX_COORD <= self.y <= MAX_COORD
    }

    pub fn new(x: i64, y: i64) -> (r: Point)
        ensures
            r.x == x,
            r.y == y,
    {
        Point { x, y }
    }
}

impl HPoint {
    /// A homogeneous point is well formed when its denominator is positive.
    pub open spec fn wf(self) -> bool {
        self.w >= 1
    }
}

/// Twice the signed area of the triangle `(p, q, r)`: positive when `r`
/// lies to the left of the directed line `p -> q`, negative when to the
/// right, zero exactly when the three points are collinear.
pub open spec fn cross3(p: Point, q: Point, r: Point) -> int {
    (q.x - p.x) * (r.y - p.y) - (q.y - p.y) * (r.x - p.x)
}

/// Executable form of [`cross3`]: the orientation form, exactly.
pub fn cross_of(p: Point, q: Point, r: Point) -> (c: i128)
    requires
        p.in_range(),
        q.in_range(),
        r.in_range(),
    ensures
        c == cross3(p, q, r),
        -80_000_000_000 <= c <= 80_000_000_000,
{
    proof {
        lemma_mul_bound(q.x - p.x, r.y - p.y, 200_000, 200_000);
        lemma_mul_bound(q.y - p.y, r.x - p.x, 200_000, 200_000);
    }
    (q.x as i128 - p.x as i128) * (r.y as i128 - p.y as i128) - (q.y as i128 - p.y as i128) * (
    r.x as i128 - p.x as i128)
}

} // verus!
