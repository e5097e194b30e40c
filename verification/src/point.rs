//! Points and the squared-distance predicate used by radius queries.

use vstd::prelude::*;

verus! {

/// A 2-D point with integer coordinates.
///
/// The tree stores points by value; a caller that keeps extra data per point
/// (a colour, a velocity) keeps it in its own storage and pairs it back up by
/// coordinates or by position in its own collection.
#[derive(Clone, Copy, PartialEq, Eq, Structural, Debug)]
pub struct Point {
    pub x: i32,
    pub y: i32,
}

/// Squared Euclidean distance between `(px, py)` and `(cx, cy)`.
pub open spec fn squared_distance(px: int, py: int, cx: int, cy: int) -> int {
    (px - cx) * (px - cx) + (py - cy) * (py - cy)
}

/// The closed disk of radius `r` around `(cx, cy)` contains `p`.
///
/// Stated over squared distances, so no square root is ever needed.
pub open spec fn in_circle(p: Point, cx: int, cy: int, r: int) -> bool {
    squared_distance(p.x as int, p.y as int, cx, cy) <= r * r
}

/// Runtime disk-membership test, computed over widened integers so the
/// squares cannot overflow.
pub fn point_in_circle(p: Point, cx: i32, cy: i32, r: i32) -> (res: bool)
    ensures
        res == in_circle(p, cx as int, cy as int, r as int),
{
    let dx: i128 = p.x as i128 - cx as i128;
    let dy: i128 = p.y as i128 - cy as i128;
    let rw: i128 = r as i128;
    proof {
        assert(0 <= dx * dx <= 0x10000000000000000i128) by (nonlinear_arith)
            requires
                -0x100000000i128 <= dx <= 0x100000000i128,
        ;
        assert(0 <= dy * dy <= 0x10000000000000000i128) by (nonlinear_arith)
            requires
                -0x100000000i128 <= dy <= 0x100000000i128,
        ;
        assert(0 <= rw * rw <= 0x4000000000000000i128) by (nonlinear_arith)
            requires
                -0x80000000i128 <= rw <= 0x80000000i128,
        ;
    }
    dx * dx + dy * dy <= rw * rw
}

} // verus!
