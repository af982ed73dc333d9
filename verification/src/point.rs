use vstd::prelude::*;

verus! {

/// Largest coordinate magnitude the library accepts from callers.
///
/// The bound is chosen so that every intermediate value of the geometric
/// computations stays exact: the super-triangle built during triangulation
/// has coordinates of magnitude at most `41 * COORD_LIMIT`, which is below
/// `WORK_LIMIT`, and with all working coordinates below `WORK_LIMIT` the
/// degree-four products of the circumcircle tests fit in `i128`.
pub const COORD_LIMIT: i64 = 10000;

/// Bound on the coordinates of internal working points (inputs plus the
/// super-triangle vertices). Equal to `1 << 19`.
pub const WORK_LIMIT: i64 = 524288;

/// A 2D coordinate value; no behavior beyond construction.
#[derive(Clone, Copy, PartialEq, Eq, Structural, Debug)]
pub struct Point {
    pub x: i64,
    pub y: i64,
}

impl Point {
    pub fn new(in_x: i64, in_y: i64) -> (p: Point)
        ensures
            p.x == in_x,
            p.y == in_y,
    {
        Point { x: in_x, y: in_y }
    }
}

/// A point whose coordinates are within the range accepted from callers.
pub open spec fn valid_point(p: Point) -> bool {
    &&& -COORD_LIMIT <= p.x <= COORD_LIMIT
    &&& -COORD_LIMIT <= p.y <= COORD_LIMIT
}

/// A point within the wider internal working range.
pub open spec fn work_point(p: Point) -> bool {
    &&& -WORK_LIMIT <= p.x <= WORK_LIMIT
    &&& -WORK_LIMIT <= p.y <= WORK_LIMIT
}

/// Twice the signed area of the triangle `(o, u, v)`: the cross product of
/// `u - o` with `v - o`. Positive when `(o, u, v)` turns counterclockwise.
pub open spec fn cross(o: Point, u: Point, v: Point) -> int {
    (u.x - o.x) * (v.y - o.y) - (u.y - o.y) * (v.x - o.x)
}

/// `|a * b| <= m * n` whenever `|a| <= m` and `|b| <= n`.
pub proof fn lemma_mul_bound(a: int, b: int, m: int, n: int)
    by (nonlinear_arith)
    requires
        -m <= a <= m,
        -n <= b <= n,
        0 <= m,
        0 <= n,
    ensures
        -(m * n) <= a * b <= m * n,
{
}

} // verus!
