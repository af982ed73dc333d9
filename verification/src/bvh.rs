use vstd::prelude::*;
use vstd::multiset::Multiset;

use crate::point::{cross, lemma_mul_bound, valid_point, work_point, Point};

verus! {

/// Axis-aligned bounding box: the smallest axis-parallel rectangle
/// enclosing its owner's geometry. Derived, never independently mutated.
#[derive(Clone, Copy, PartialEq, Eq, Structural, Debug)]
pub struct AABB {
    pub x_min: i64,
    pub y_min: i64,
    pub x_max: i64,
    pub y_max: i64,
}

pub open spec fn min_i(a: int, b: int) -> int {
    if a < b {
        a
    } else {
        b
    }
}

pub open spec fn max_i(a: int, b: int) -> int {
    if a < b {
        b
    } else {
        a
    }
}

/// The tight bounding box of three points.
pub open spec fn aabb_of(a: Point, b: Point, c: Point) -> AABB {
    AABB {
        x_min: min_i(min_i(a.x as int, b.x as int), c.x as int) as i64,
        y_min: min_i(min_i(a.y as int, b.y as int), c.y as int) as i64,
        x_max: max_i(max_i(a.x as int, b.x as int), c.x as int) as i64,
        y_max: max_i(max_i(a.y as int, b.y as int), c.y as int) as i64,
    }
}

/// `p` lies strictly inside `bb` (points on the border are outside).
pub open spec fn in_aabb_strict(bb: AABB, p: Point) -> bool {
    &&& bb.x_min < p.x < bb.x_max
    &&& bb.y_min < p.y < bb.y_max
}

/// Every point of `inner` lies within `outer`.
pub open spec fn aabb_contains_aabb(outer: AABB, inner: AABB) -> bool {
    &&& outer.x_min <= inner.x_min
    &&& outer.y_min <= inner.y_min
    &&& inner.x_max <= outer.x_max
    &&& inner.y_max <= outer.y_max
}

/// The smallest box enclosing both arguments.
pub open spec fn union_aabb_spec(x: AABB, y: AABB) -> AABB {
    AABB {
        x_min: min_i(x.x_min as int, y.x_min as int) as i64,
        y_min: min_i(x.y_min as int, y.y_min as int) as i64,
        x_max: max_i(x.x_max as int, y.x_max as int) as i64,
        y_max: max_i(x.y_max as int, y.y_max as int) as i64,
    }
}

fn minimum(a: i64, b: i64) -> (r: i64)
    ensures
        r == min_i(a as int, b as int),
{
    if a < b {
        a
    } else {
        b
    }
}

fn maximum(a: i64, b: i64) -> (r: i64)
    ensures
        r == max_i(a as int, b as int),
{
    if a < b {
        b
    } else {
        a
    }
}

fn union_aabb(x: AABB, y: AABB) -> (r: AABB)
    ensures
        r == union_aabb_spec(x, y),
{
    AABB {
        x_min: minimum(x.x_min, y.x_min),
        y_min: minimum(x.y_min, y.y_min),
        x_max: maximum(x.x_max, y.x_max),
        y_max: maximum(x.y_max, y.y_max),
    }
}

/// A triangle with its derived data: `aabb` exactly bounds `{a, b, c}` and
/// `center` holds the componentwise sum of the three vertices, three times
/// the centroid. Keeping the sum instead of the mean keeps it an integer;
/// all comparisons on centers are scale-invariant.
#[derive(Clone, Copy, PartialEq, Eq, Structural, Debug)]
pub struct Triangle {
    pub a: Point,
    pub b: Point,
    pub c: Point,
    pub aabb: AABB,
    pub center: Point,
}

/// The derived fields agree with the vertices and the vertices are in range.
pub open spec fn triangle_wf(t: Triangle) -> bool {
    &&& valid_point(t.a)
    &&& valid_point(t.b)
    &&& valid_point(t.c)
    &&& t.aabb == aabb_of(t.a, t.b, t.c)
    &&& t.center.x == t.a.x + t.b.x + t.c.x
    &&& t.center.y == t.a.y + t.b.y + t.c.y
}

/// The sign test the sampler runs: `p` is classified inside when the cross
/// product of `(b - a, p - a)` disagrees in positivity with that of
/// `(c - a, p - a)` and agrees with that of `(c - b, p - b)`.
pub open spec fn inside_triangle(t: Triangle, p: Point) -> bool {
    let d1 = cross(t.a, t.b, p);
    let d2 = cross(t.a, t.c, p);
    let d3 = cross(t.b, t.c, p);
    if d1 > 0 {
        !(d2 > 0) && d3 > 0
    } else {
        d2 > 0 && !(d3 > 0)
    }
}

/// `p` lies strictly inside `t`: all three edge cross products are strictly
/// on the same side. This implies `inside_triangle` and excludes the border.
pub open spec fn strictly_inside_triangle(t: Triangle, p: Point) -> bool {
    let d1 = cross(t.a, t.b, p);
    let d2 = cross(t.a, t.c, p);
    let d3 = cross(t.b, t.c, p);
    ||| (d1 > 0 && d2 < 0 && d3 > 0)
    ||| (d1 < 0 && d2 > 0 && d3 < 0)
}

/// Cross product of `(u - o, v - o)`, exact for working-range points.
fn cross_exec(o: &Point, u: &Point, v: &Point) -> (r: i64)
    requires
        work_point(*o),
        work_point(*u),
        work_point(*v),
    ensures
        r == cross(*o, *u, *v),
{
    proof {
        lemma_mul_bound((u.x - o.x) as int, (v.y - o.y) as int, 1048576, 1048576);
        lemma_mul_bound((u.y - o.y) as int, (v.x - o.x) as int, 1048576, 1048576);
    }
    (u.x - o.x) * (v.y - o.y) - (u.y - o.y) * (v.x - o.x)
}

impl Triangle {
    pub fn new(a: Point, b: Point, c: Point) -> (t: Triangle)
        requires
            valid_point(a),
            valid_point(b),
            valid_point(c),
        ensures
            t.a == a,
            t.b == b,
            t.c == c,
            triangle_wf(t),
    {
        let mut x_min: i64 = a.x;
        let mut y_min: i64 = a.y;
        let mut x_max: i64 = a.x;
        let mut y_max: i64 = a.y;

        if b.x < x_min {
            x_min = b.x;
        }
        if b.x > x_max {
            x_max = b.x;
        }
        if b.y < y_min {
            y_min = b.y;
        }
        if b.y > y_max {
            y_max = b.y;
        }

        if c.x < x_min {
            x_min = c.x;
        }
        if c.x > x_max {
            x_max = c.x;
        }
        if c.y < y_min {
            y_min = c.y;
        }
        if c.y > y_max {
            y_max = c.y;
        }

        let x_c = a.x + b.x + c.x;
        let y_c = a.y + b.y + c.y;

        Triangle {
            a,
            b,
            c,
            aabb: AABB { x_min, y_min, x_max, y_max },
            center: Point::new(x_c, y_c),
        }
    }

    fn get_aabb(&self) -> (r: AABB)
        ensures
            r == self.aabb,
    {
        self.aabb
    }

    fn get_center(&self) -> (r: Point)
        ensures
            r == self.center,
    {
        self.center
    }

    pub fn is_point_inside(&self, point: &Point) -> (r: bool)
        requires
            triangle_wf(*self),
            valid_point(*point),
        ensures
            r == inside_triangle(*self, *point),
    {
        let d1 = cross_exec(&self.a, &self.b, point);
        let d2 = cross_exec(&self.a, &self.c, point);
        let d3 = cross_exec(&self.b, &self.c, point);
        let s_ab = d1 > 0;
        if (d2 > 0) == s_ab {
            return false;
        }
        if (d3 > 0) != s_ab {
            return false;
        }
        true
    }
}

/// Squared distance between the centroid of `t` and `p`, scaled by nine:
/// `t.center` is three times the centroid, so `t.center - 3p` is three
/// times the centroid offset. The scale is shared by every triangle, so
/// comparisons between these values order centroids by true distance.
pub open spec fn dist2_center(t: Triangle, p: Point) -> int {
    (t.center.x - 3 * p.x) * (t.center.x - 3 * p.x) + (t.center.y - 3 * p.y) * (t.center.y - 3
        * p.y)
}

/// What makes a leaf report its triangle for `p`: the sign test passes and
/// `p` lies strictly within the triangle's own bounding box.
pub open spec fn sample_hit(t: Triangle, p: Point) -> bool {
    &&& inside_triangle(t, p)
    &&& in_aabb_strict(t.aabb, p)
}

/// Full characterization of a query result over the triangles of a tree:
/// a returned triangle is one of the tree's, admits the point, and has the
/// centroid closest to the point among all triangles that admit it; an
/// empty result means no triangle of the tree admits the point.
pub open spec fn sample_post(ts: Seq<Triangle>, p: Point, r: Option<Triangle>) -> bool {
    match r {
        Option::Some(u) => {
            &&& ts.contains(u)
            &&& sample_hit(u, p)
            &&& forall|i: int|
                0 <= i < ts.len() && sample_hit(#[trigger] ts[i], p) ==> dist2_center(u, p)
                    <= dist2_center(ts[i], p)
        },
        Option::None => forall|i: int| 0 <= i < ts.len() ==> !sample_hit(#[trigger] ts[i], p),
    }
}

/// A strictly positive convex combination stays strictly below any bound
/// that dominates the combined values, unless the values are all equal.
proof fn lemma_convex_upper(
    wa: int,
    wb: int,
    wc: int,
    xa: int,
    xb: int,
    xc: int,
    x: int,
    m: int,
)
    by (nonlinear_arith)
    requires
        wa > 0,
        wb > 0,
        wc > 0,
        wa * xa + wb * xb + wc * xc == (wa + wb + wc) * x,
        xa <= m,
        xb <= m,
        xc <= m,
        !(xa == xb && xb == xc),
    ensures
        x < m,
{
}

/// Counterpart of `lemma_convex_upper` for a dominating lower bound.
proof fn lemma_convex_lower(
    wa: int,
    wb: int,
    wc: int,
    xa: int,
    xb: int,
    xc: int,
    x: int,
    m: int,
)
    by (nonlinear_arith)
    requires
        wa > 0,
        wb > 0,
        wc > 0,
        wa * xa + wb * xb + wc * xc == (wa + wb + wc) * x,
        xa >= m,
        xb >= m,
        xc >= m,
        !(xa == xb && xb == xc),
    ensures
        x > m,
{
}

/// A point strictly inside a triangle lies strictly inside the triangle's
/// bounding box: the three edge cross products are barycentric weights, so
/// the point is a strictly positive combination of the vertices.
pub proof fn lemma_strictly_inside_in_aabb(t: Triangle, p: Point)
    requires
        triangle_wf(t),
        strictly_inside_triangle(t, p),
    ensures
        sample_hit(t, p),
{
    let ax = t.a.x as int;
    let ay = t.a.y as int;
    let bx = t.b.x as int;
    let by = t.b.y as int;
    let cx = t.c.x as int;
    let cy = t.c.y as int;
    let px = p.x as int;
    let py = p.y as int;
    let d1 = (bx - ax) * (py - ay) - (by - ay) * (px - ax);
    let d2 = (cx - ax) * (py - ay) - (cy - ay) * (px - ax);
    let d3 = (cx - bx) * (py - by) - (cy - by) * (px - bx);
    assert(d1 == cross(t.a, t.b, p) && d2 == cross(t.a, t.c, p) && d3 == cross(t.b, t.c, p));
    // Work with coordinates shifted so p is the origin: the weights d3
    // (for a), -d2 (for b), d1 (for c) then combine the shifted vertices
    // to zero, a plain cancelling identity.
    let qx = ax - px;
    let qy = ay - py;
    let rx = bx - px;
    let ry = by - py;
    let sx = cx - px;
    let sy = cy - py;
    assert(d1 == qx * ry - qy * rx) by (nonlinear_arith)
        requires
            d1 == (bx - ax) * (py - ay) - (by - ay) * (px - ax),
            qx == ax - px,
            qy == ay - py,
            rx == bx - px,
            ry == by - py,
    ;
    assert(d2 == qx * sy - qy * sx) by (nonlinear_arith)
        requires
            d2 == (cx - ax) * (py - ay) - (cy - ay) * (px - ax),
            qx == ax - px,
            qy == ay - py,
            sx == cx - px,
            sy == cy - py,
    ;
    assert(d3 == rx * sy - ry * sx) by (nonlinear_arith)
        requires
            d3 == (cx - bx) * (py - by) - (cy - by) * (px - bx),
            rx == bx - px,
            ry == by - py,
            sx == cx - px,
            sy == cy - py,
    ;
    assert((rx * sy - ry * sx) * qx - (qx * sy - qy * sx) * rx + (qx * ry - qy * rx) * sx == 0)
        by (nonlinear_arith);
    assert((rx * sy - ry * sx) * qy - (qx * sy - qy * sx) * ry + (qx * ry - qy * rx) * sy == 0)
        by (nonlinear_arith);
    assert(d3 * qx + (-d2) * rx + d1 * sx == 0) by (nonlinear_arith)
        requires
            d1 == qx * ry - qy * rx,
            d2 == qx * sy - qy * sx,
            d3 == rx * sy - ry * sx,
            (rx * sy - ry * sx) * qx - (qx * sy - qy * sx) * rx + (qx * ry - qy * rx) * sx == 0,
    ;
    assert(d3 * qy + (-d2) * ry + d1 * sy == 0) by (nonlinear_arith)
        requires
            d1 == qx * ry - qy * rx,
            d2 == qx * sy - qy * sx,
            d3 == rx * sy - ry * sx,
            (rx * sy - ry * sx) * qy - (qx * sy - qy * sx) * ry + (qx * ry - qy * rx) * sy == 0,
    ;
    if d1 > 0 {
        assert(!(qx == rx && rx == sx) && !(qy == ry && ry == sy)) by (nonlinear_arith)
            requires
                d1 == qx * ry - qy * rx,
                d2 == qx * sy - qy * sx,
                d3 == rx * sy - ry * sx,
                d1 > 0,
                d2 < 0,
                d3 > 0,
        ;
        lemma_convex_upper(d3, -d2, d1, qx, rx, sx, 0, max_i(max_i(qx, rx), sx));
        lemma_convex_lower(d3, -d2, d1, qx, rx, sx, 0, min_i(min_i(qx, rx), sx));
        lemma_convex_upper(d3, -d2, d1, qy, ry, sy, 0, max_i(max_i(qy, ry), sy));
        lemma_convex_lower(d3, -d2, d1, qy, ry, sy, 0, min_i(min_i(qy, ry), sy));
    } else {
        assert(!(qx == rx && rx == sx) && !(qy == ry && ry == sy)) by (nonlinear_arith)
            requires
                d1 == qx * ry - qy * rx,
                d2 == qx * sy - qy * sx,
                d3 == rx * sy - ry * sx,
                d1 < 0,
                d2 > 0,
                d3 < 0,
        ;
        assert((-d3) * qx + d2 * rx + (-d1) * sx == 0) by (nonlinear_arith)
            requires
                d3 * qx + (-d2) * rx + d1 * sx == 0,
        ;
        assert((-d3) * qy + d2 * ry + (-d1) * sy == 0) by (nonlinear_arith)
            requires
                d3 * qy + (-d2) * ry + d1 * sy == 0,
        ;
        lemma_convex_upper(-d3, d2, -d1, qx, rx, sx, 0, max_i(max_i(qx, rx), sx));
        lemma_convex_lower(-d3, d2, -d1, qx, rx, sx, 0, min_i(min_i(qx, rx), sx));
        lemma_convex_upper(-d3, d2, -d1, qy, ry, sy, 0, max_i(max_i(qy, ry), sy));
        lemma_convex_lower(-d3, d2, -d1, qy, ry, sy, 0, min_i(min_i(qy, ry), sy));
    }
}

/// A node of the bounding-volume hierarchy: either a leaf owning exactly
/// one triangle, or an internal node owning exactly two children whose
/// box is the union of the children's boxes. Immutable once built.
#[derive(Debug)]
pub struct BVHNode {
    pub triangle: Option<Triangle>,
    pub left_node: Option<Box<BVHNode>>,
    pub right_node: Option<Box<BVHNode>>,
    pub aabb: AABB,
}

pub open spec fn bvh_leaf(n: BVHNode) -> bool {
    &&& n.triangle is Some
    &&& n.left_node is None
    &&& n.right_node is None
}

pub open spec fn bvh_inner(n: BVHNode) -> bool {
    &&& n.triangle is None
    &&& n.left_node is Some
    &&& n.right_node is Some
}

/// Structural invariant of a built tree: a node is a leaf whose box is its
/// triangle's box, or an internal node with two well-formed children and
/// the union of their boxes.
pub open spec fn bvh_wf(n: BVHNode) -> bool
    decreases n,
{
    if bvh_leaf(n) {
        &&& triangle_wf(n.triangle->Some_0)
        &&& n.aabb == n.triangle->Some_0.aabb
    } else {
        &&& bvh_inner(n)
        &&& bvh_wf(*n.left_node->Some_0)
        &&& bvh_wf(*n.right_node->Some_0)
        &&& n.aabb == union_aabb_spec((*n.left_node->Some_0).aabb, (*n.right_node->Some_0).aabb)
    }
}

/// All triangles held by the subtree, leaves left to right.
pub open spec fn bvh_triangles(n: BVHNode) -> Seq<Triangle>
    decreases n,
{
    if bvh_leaf(n) {
        seq![n.triangle->Some_0]
    } else if bvh_inner(n) {
        bvh_triangles(*n.left_node->Some_0) + bvh_triangles(*n.right_node->Some_0)
    } else {
        Seq::empty()
    }
}

/// The exact query recursion: prune when the point is not strictly
/// inside the node's box; test the triangle at a leaf; otherwise query
/// both children and, when both report a triangle, keep the one whose
/// centroid is strictly closer — the right child's wins a distance tie.
pub open spec fn sample_model(n: BVHNode, p: Point) -> Option<Triangle>
    decreases n,
{
    if !in_aabb_strict(n.aabb, p) {
        Option::None
    } else if n.triangle is Some {
        if inside_triangle(n.triangle->Some_0, p) {
            Option::Some(n.triangle->Some_0)
        } else {
            Option::None
        }
    } else if n.left_node is Some && n.right_node is Some {
        let ls = sample_model(*n.left_node->Some_0, p);
        let rs = sample_model(*n.right_node->Some_0, p);
        if ls is Some && rs is Some {
            if dist2_center(ls->Some_0, p) < dist2_center(rs->Some_0, p) {
                ls
            } else {
                rs
            }
        } else if ls is Some {
            ls
        } else {
            rs
        }
    } else {
        Option::None
    }
}

/// A well-formed tree is non-empty, holds only well-formed triangles, and
/// every node's box contains the boxes of all triangles below it.
pub proof fn lemma_bvh_triangles_props(n: BVHNode)
    requires
        bvh_wf(n),
    ensures
        bvh_triangles(n).len() >= 1,
        forall|i: int|
            0 <= i < bvh_triangles(n).len() ==> triangle_wf(#[trigger] bvh_triangles(n)[i])
                && aabb_contains_aabb(n.aabb, bvh_triangles(n)[i].aabb),
    decreases n,
{
    if bvh_leaf(n) {
    } else {
        let l = *n.left_node->Some_0;
        let r = *n.right_node->Some_0;
        lemma_bvh_triangles_props(l);
        lemma_bvh_triangles_props(r);
        assert forall|i: int| 0 <= i < bvh_triangles(n).len() implies triangle_wf(
            #[trigger] bvh_triangles(n)[i],
        ) && aabb_contains_aabb(n.aabb, bvh_triangles(n)[i].aabb) by {
            if i < bvh_triangles(l).len() {
                assert(bvh_triangles(n)[i] == bvh_triangles(l)[i]);
            } else {
                assert(bvh_triangles(n)[i] == bvh_triangles(r)[i - bvh_triangles(l).len()]);
            }
        }
    }
}

proof fn lemma_to_ms_drop_last(s: Seq<Triangle>)
    requires
        s.len() >= 1,
    ensures
        s.to_multiset() =~= s.drop_last().to_multiset().insert(s.last()),
{
    broadcast use vstd::seq_lib::group_to_multiset_ensures;

    assert(s.drop_last().push(s.last()) =~= s);
    assert(s.drop_last().push(s.last()).to_multiset() =~= s.drop_last().to_multiset().insert(
        s.last(),
    ));
}

proof fn lemma_to_ms_push(s: Seq<Triangle>, t: Triangle)
    ensures
        s.push(t).to_multiset() =~= s.to_multiset().insert(t),
{
    broadcast use vstd::seq_lib::group_to_multiset_ensures;

}

proof fn lemma_ms_shuffle(
    l: Multiset<Triangle>,
    r: Multiset<Triangle>,
    rest: Multiset<Triangle>,
    t: Triangle,
)
    ensures
        l.insert(t).add(r).add(rest) =~= l.add(r).add(rest.insert(t)),
        l.add(r.insert(t)).add(rest) =~= l.add(r).add(rest.insert(t)),
{
    broadcast use vstd::multiset::group_multiset_axioms;

}

proof fn lemma_empty_pair_add(s1: Seq<Triangle>, s2: Seq<Triangle>, m: Multiset<Triangle>)
    requires
        s1.len() == 0,
        s2.len() == 0,
    ensures
        s1.to_multiset().add(s2.to_multiset()).add(m) =~= m,
{
    broadcast use vstd::seq_lib::group_to_multiset_ensures, vstd::multiset::group_multiset_axioms;

    assert forall|x: Triangle|
        s1.to_multiset().add(s2.to_multiset()).add(m).count(x) == m.count(x) by {
        assert(!s1.contains(x));
        assert(!s2.contains(x));
        assert(s1.to_multiset().count(x) == 0);
        assert(s2.to_multiset().count(x) == 0);
    }
}

proof fn lemma_drop_empty_part(
    l: Multiset<Triangle>,
    r: Multiset<Triangle>,
    s: Seq<Triangle>,
    orig_ms: Multiset<Triangle>,
)
    requires
        s.len() == 0,
        l.add(r).add(s.to_multiset()) == orig_ms,
    ensures
        l.add(r) =~= orig_ms,
{
    broadcast use vstd::seq_lib::group_to_multiset_ensures, vstd::multiset::group_multiset_axioms;

    assert forall|x: Triangle| l.add(r).count(x) == orig_ms.count(x) by {
        assert(!s.contains(x));
        assert(s.to_multiset().count(x) == 0);
    }
}

impl BVHNode {
    fn get_aabb(&self) -> (r: AABB)
        ensures
            r == self.aabb,
    {
        self.aabb
    }

    fn is_inside_aabb(&self, point: &Point) -> (r: bool)
        ensures
            r == in_aabb_strict(self.aabb, *point),
    {
        self.aabb.x_min < point.x && self.aabb.y_min < point.y && self.aabb.x_max > point.x
            && self.aabb.y_max > point.y
    }

    /// Builds the hierarchy over a non-empty triangle collection by
    /// recursive splitting: the split axis is the one with the larger
    /// centroid extent, the threshold the arithmetic mean of the centroid
    /// coordinates, and an empty side of a degenerate partition is refilled
    /// with one triangle so each recursive call strictly shrinks.
    ///
    /// The result is a well-formed tree holding exactly the triangles given.
    pub fn new(triangles: Vec<Triangle>) -> (r: BVHNode)
        requires
            triangles@.len() >= 1,
            forall|i: int| 0 <= i < triangles@.len() ==> triangle_wf(#[trigger] triangles@[i]),
        ensures
            bvh_wf(r),
            bvh_triangles(r).to_multiset() == triangles@.to_multiset(),
        decreases triangles@.len(),
    {
        let mut triangles = triangles;
        let ghost orig = triangles@;
        let objects_count = triangles.len();
        if objects_count == 1 {
            let t = triangles.pop().unwrap();
            let aabb = t.get_aabb();
            let node = BVHNode { triangle: Some(t), left_node: None, right_node: None, aabb };
            proof {
                lemma_to_ms_drop_last(orig);
                assert(orig.drop_last() =~= Seq::<Triangle>::empty());
                lemma_to_ms_push(Seq::<Triangle>::empty(), t);
                assert(Seq::<Triangle>::empty().push(t) =~= seq![t]);
                assert(bvh_triangles(node) =~= seq![t]);
                assert(bvh_triangles(node).to_multiset() =~= orig.to_multiset());
            }
            node
        } else {
            let mut x_median: i128 = 0;
            let mut y_median: i128 = 0;

            let mut x_min: i64 = i64::MAX;
            let mut x_max: i64 = i64::MIN;
            let mut y_min: i64 = i64::MAX;
            let mut y_max: i64 = i64::MIN;

            let mut i: usize = 0;
            while i < objects_count
                invariant
                    triangles@ == orig,
                    objects_count == orig.len(),
                    forall|k: int| 0 <= k < orig.len() ==> triangle_wf(#[trigger] orig[k]),
                    0 <= i <= objects_count,
                    -30000 * i <= x_median <= 30000 * i,
                    -30000 * i <= y_median <= 30000 * i,
                    i == 0 ==> x_min == i64::MAX && x_max == i64::MIN && y_min == i64::MAX && y_max
                        == i64::MIN,
                    i >= 1 ==> -30000 <= x_min <= x_max <= 30000 && -30000 <= y_min <= y_max
                        <= 30000,
                decreases objects_count - i,
            {
                let c = triangles[i].get_center();
                x_median = x_median + c.x as i128;
                y_median = y_median + c.y as i128;

                if c.x < x_min {
                    x_min = c.x;
                }
                if c.x > x_max {
                    x_max = c.x;
                }
                if c.y < y_min {
                    y_min = c.y;
                }
                if c.y > y_max {
                    y_max = c.y;
                }
                i = i + 1;
            }

            let split_axis_x: bool = (x_max - x_min) > (y_max - y_min);
            let total: i128 = if split_axis_x {
                x_median
            } else {
                y_median
            };
            let count: i128 = objects_count as i128;

            let mut left: Vec<Triangle> = Vec::new();
            let mut right: Vec<Triangle> = Vec::new();

            proof {
                lemma_empty_pair_add(left@, right@, orig.to_multiset());
            }

            while triangles.len() > 0
                invariant
                    orig.len() <= usize::MAX,
                    forall|k: int|
                        0 <= k < triangles@.len() ==> triangle_wf(#[trigger] triangles@[k]),
                    forall|k: int| 0 <= k < left@.len() ==> triangle_wf(#[trigger] left@[k]),
                    forall|k: int| 0 <= k < right@.len() ==> triangle_wf(#[trigger] right@[k]),
                    left@.len() + right@.len() + triangles@.len() == orig.len(),
                    left@.to_multiset().add(right@.to_multiset()).add(triangles@.to_multiset())
                        == orig.to_multiset(),
                    -30000 * orig.len() <= total <= 30000 * orig.len(),
                    count == orig.len(),
                decreases triangles@.len(),
            {
                let ghost tri_before = triangles@;
                let ghost left_before = left@;
                let ghost right_before = right@;
                let t = triangles.pop().unwrap();
                proof {
                    lemma_to_ms_drop_last(tri_before);
                }
                let c = t.get_center();
                let v: i128 = if split_axis_x {
                    c.x as i128
                } else {
                    c.y as i128
                };
                proof {
                    lemma_mul_bound(v as int, count as int, 30000, count as int);
                }
                if v * count < total {
                    left.push(t);
                    proof {
                        lemma_to_ms_push(left_before, t);
                        lemma_ms_shuffle(
                            left_before.to_multiset(),
                            right_before.to_multiset(),
                            triangles@.to_multiset(),
                            t,
                        );
                        assert(left@.to_multiset().add(right@.to_multiset()).add(
                            triangles@.to_multiset(),
                        ) =~= orig.to_multiset());
                    }
                } else {
                    right.push(t);
                    proof {
                        lemma_to_ms_push(right_before, t);
                        lemma_ms_shuffle(
                            left_before.to_multiset(),
                            right_before.to_multiset(),
                            triangles@.to_multiset(),
                            t,
                        );
                        assert(left@.to_multiset().add(right@.to_multiset()).add(
                            triangles@.to_multiset(),
                        ) =~= orig.to_multiset());
                    }
                }
            }

            let ghost rest = triangles@.to_multiset();

            if left.len() == 0 {
                let ghost left_before = left@;
                let ghost right_before = right@;
                let t = right.pop().unwrap();
                left.push(t);
                proof {
                    lemma_to_ms_drop_last(right_before);
                    lemma_to_ms_push(left_before, t);
                    lemma_ms_shuffle(left_before.to_multiset(), right@.to_multiset(), rest, t);
                    assert(left@.to_multiset().add(right@.to_multiset()).add(rest)
                        =~= orig.to_multiset());
                }
            }

            if right.len() == 0 {
                let ghost left_before = left@;
                let ghost right_before = right@;
                let t = left.pop().unwrap();
                right.push(t);
                proof {
                    lemma_to_ms_drop_last(left_before);
                    lemma_to_ms_push(right_before, t);
                    lemma_ms_shuffle(left@.to_multiset(), right_before.to_multiset(), rest, t);
                    assert(left@.to_multiset().add(right@.to_multiset()).add(rest)
                        =~= orig.to_multiset());
                }
            }

            proof {
                lemma_drop_empty_part(
                    left@.to_multiset(),
                    right@.to_multiset(),
                    triangles@,
                    orig.to_multiset(),
                );
            }

            let ghost left_seq = left@;
            let ghost right_seq = right@;
            let left_node = BVHNode::new(left);
            let right_node = BVHNode::new(right);

            let left_aabb = left_node.get_aabb();
            let right_aabb = right_node.get_aabb();

            let node = BVHNode {
                left_node: Some(Box::new(left_node)),
                right_node: Some(Box::new(right_node)),
                triangle: None,
                aabb: union_aabb(left_aabb, right_aabb),
            };
            proof {
                vstd::seq_lib::lemma_multiset_commutative(
                    bvh_triangles(*node.left_node->Some_0),
                    bvh_triangles(*node.right_node->Some_0),
                );
                assert(bvh_triangles(node).to_multiset() =~= orig.to_multiset());
            }
            node
        }
    }

    /// Point location: returns the triangle of the tree that admits the
    /// query point, or none. When several admit it, the one with the
    /// closest centroid wins, the right subtree's on a tie: the result
    /// equals `sample_model`, a pure function of the tree and the point,
    /// so repeated queries of one tree agree. A point strictly inside any
    /// triangle of the tree is never missed.
    pub fn sample(&self, point: &Point) -> (r: Option<Triangle>)
        requires
            bvh_wf(*self),
            valid_point(*point),
        ensures
            r == sample_model(*self, *point),
            sample_post(bvh_triangles(*self), *point, r),
            forall|i: int|
                0 <= i < bvh_triangles(*self).len() && strictly_inside_triangle(
                    #[trigger] bvh_triangles(*self)[i],
                    *point,
                ) ==> r is Some && inside_triangle(r->Some_0, *point),
    {
        let r = self.sample_rec(point);
        proof {
            let ts = bvh_triangles(*self);
            lemma_bvh_triangles_props(*self);
            assert forall|i: int|
                0 <= i < ts.len() && strictly_inside_triangle(
                    #[trigger] ts[i],
                    *point,
                ) implies r is Some && inside_triangle(r->Some_0, *point) by {
                lemma_strictly_inside_in_aabb(ts[i], *point);
            }
        }
        r
    }

    fn sample_rec(&self, point: &Point) -> (r: Option<Triangle>)
        requires
            bvh_wf(*self),
            valid_point(*point),
        ensures
            r == sample_model(*self, *point),
            sample_post(bvh_triangles(*self), *point, r),
        decreases *self,
    {
        let ghost ts = bvh_triangles(*self);
        if self.is_inside_aabb(point) {
            match &self.triangle {
                Some(t) => {
                    proof {
                        assert(ts[0] == *t);
                    }
                    if t.is_point_inside(point) {
                        Some(*t)
                    } else {
                        None
                    }
                },
                None => {
                    match (&self.left_node, &self.right_node) {
                        (Some(node), Some(other)) => {
                            let ghost lts = bvh_triangles(**node);
                            let ghost rts = bvh_triangles(**other);
                            let left_sample = node.sample_rec(point);
                            let right_sample = other.sample_rec(point);

                            match (left_sample, right_sample) {
                                (Some(t), Some(u)) => {
                                    proof {
                                        lemma_bvh_triangles_props(**node);
                                        lemma_bvh_triangles_props(**other);
                                        let j = choose|j: int|
                                            0 <= j < lts.len() && lts[j] == t;
                                        assert(ts[j] == t);
                                        let k = choose|k: int|
                                            0 <= k < rts.len() && rts[k] == u;
                                        assert(ts[lts.len() + k] == u);
                                        assert(triangle_wf(t) && triangle_wf(u));
                                    }
                                    let l_c = t.get_center();
                                    let r_c = u.get_center();

                                    let l_dx = l_c.x - 3 * point.x;
                                    let l_dy = l_c.y - 3 * point.y;
                                    let r_dx = r_c.x - 3 * point.x;
                                    let r_dy = r_c.y - 3 * point.y;
                                    proof {
                                        lemma_mul_bound(l_dx as int, l_dx as int, 60000, 60000);
                                        lemma_mul_bound(l_dy as int, l_dy as int, 60000, 60000);
                                        lemma_mul_bound(r_dx as int, r_dx as int, 60000, 60000);
                                        lemma_mul_bound(r_dy as int, r_dy as int, 60000, 60000);
                                    }
                                    let l_dist = l_dx * l_dx + l_dy * l_dy;
                                    let r_dist = r_dx * r_dx + r_dy * r_dy;

                                    let picked = if l_dist < r_dist {
                                        Some(t)
                                    } else {
                                        Some(u)
                                    };
                                    proof {
                                        lemma_sample_both(lts, rts, *point, t, u, picked);
                                    }
                                    picked
                                },
                                (Some(t), None) => {
                                    proof {
                                        lemma_sample_one_side(lts, rts, *point, t, true);
                                    }
                                    Some(t)
                                },
                                (None, Some(u)) => {
                                    proof {
                                        lemma_sample_one_side(lts, rts, *point, u, false);
                                    }
                                    Some(u)
                                },
                                (None, None) => {
                                    proof {
                                        assert forall|i: int|
                                            0 <= i < ts.len() implies !sample_hit(
                                            #[trigger] ts[i],
                                            *point,
                                        ) by {
                                            if i < lts.len() {
                                                assert(ts[i] == lts[i]);
                                            } else {
                                                assert(ts[i] == rts[i - lts.len()]);
                                            }
                                        }
                                    }
                                    None
                                },
                            }
                        },
                        _ => {
                            proof {
                                assert(false);
                            }
                            None
                        },
                    }
                },
            }
        } else {
            proof {
                lemma_bvh_triangles_props(*self);
                assert forall|i: int| 0 <= i < ts.len() implies !sample_hit(
                    #[trigger] ts[i],
                    *point,
                ) by {
                    assert(aabb_contains_aabb(self.aabb, ts[i].aabb));
                }
            }
            None
        }
    }
}

/// Combining step of the query at an internal node when both subtrees
/// report a triangle: whichever the tie-break picks satisfies the query
/// characterization over the concatenated triangle sequence.
proof fn lemma_sample_both(
    lts: Seq<Triangle>,
    rts: Seq<Triangle>,
    p: Point,
    t: Triangle,
    u: Triangle,
    picked: Option<Triangle>,
)
    requires
        sample_post(lts, p, Some(t)),
        sample_post(rts, p, Some(u)),
        picked == if dist2_center(t, p) < dist2_center(u, p) {
            Some(t)
        } else {
            Some(u)
        },
    ensures
        sample_post(lts + rts, p, picked),
{
    let ts = lts + rts;
    let w = picked->Some_0;
    let j = choose|j: int| 0 <= j < lts.len() && lts[j] == t;
    let k = choose|k: int| 0 <= k < rts.len() && rts[k] == u;
    if dist2_center(t, p) < dist2_center(u, p) {
        assert(ts[j] == t);
        assert(ts.contains(t));
    } else {
        assert(ts[lts.len() + k] == u);
        assert(ts.contains(u));
    }
    assert forall|i: int|
        0 <= i < ts.len() && sample_hit(#[trigger] ts[i], p) implies dist2_center(w, p)
        <= dist2_center(ts[i], p) by {
        if i < lts.len() {
            assert(ts[i] == lts[i]);
        } else {
            assert(ts[i] == rts[i - lts.len()]);
        }
    }
}

/// Combining step when exactly one subtree reports a triangle; `from_left`
/// says which. The reported triangle satisfies the characterization over
/// the concatenation.
proof fn lemma_sample_one_side(
    lts: Seq<Triangle>,
    rts: Seq<Triangle>,
    p: Point,
    t: Triangle,
    from_left: bool,
)
    requires
        from_left ==> sample_post(lts, p, Some(t)) && sample_post(rts, p, None),
        !from_left ==> sample_post(lts, p, None) && sample_post(rts, p, Some(t)),
    ensures
        sample_post(lts + rts, p, Some(t)),
{
    let ts = lts + rts;
    if from_left {
        let j = choose|j: int| 0 <= j < lts.len() && lts[j] == t;
        assert(ts[j] == t);
        assert(ts.contains(t));
    } else {
        let k = choose|k: int| 0 <= k < rts.len() && rts[k] == t;
        assert(ts[lts.len() + k] == t);
        assert(ts.contains(t));
    }
    assert forall|i: int|
        0 <= i < ts.len() && sample_hit(#[trigger] ts[i], p) implies dist2_center(t, p)
        <= dist2_center(ts[i], p) by {
        if i < lts.len() {
            assert(ts[i] == lts[i]);
        } else {
            assert(ts[i] == rts[i - lts.len()]);
        }
    }
}

/// The query result depends only on the collection of triangles in the
/// tree, not on the order they were supplied to the builder: over equal
/// multisets, two results agree on presence, and any two returned
/// triangles are equally close to the query point (the documented
/// tie-break rule decides between equally close candidates).
pub proof fn lemma_sample_order_independent(
    ts1: Seq<Triangle>,
    ts2: Seq<Triangle>,
    p: Point,
    r1: Option<Triangle>,
    r2: Option<Triangle>,
)
    requires
        ts1.to_multiset() == ts2.to_multiset(),
        sample_post(ts1, p, r1),
        sample_post(ts2, p, r2),
    ensures
        r1 is Some <==> r2 is Some,
        r1 is Some ==> dist2_center(r1->Some_0, p) == dist2_center(r2->Some_0, p),
{
    broadcast use vstd::seq_lib::group_to_multiset_ensures;

    if r1 is Some && r2 is None {
        let u = r1->Some_0;
        assert(ts1.to_multiset().count(u) > 0);
        assert(ts2.to_multiset().count(u) > 0);
        assert(ts2.contains(u));
        let j = choose|j: int| 0 <= j < ts2.len() && ts2[j] == u;
        assert(!sample_hit(ts2[j], p));
    }
    if r2 is Some && r1 is None {
        let u = r2->Some_0;
        assert(ts2.to_multiset().count(u) > 0);
        assert(ts1.to_multiset().count(u) > 0);
        assert(ts1.contains(u));
        let j = choose|j: int| 0 <= j < ts1.len() && ts1[j] == u;
        assert(!sample_hit(ts1[j], p));
    }
    if r1 is Some && r2 is Some {
        let u1 = r1->Some_0;
        let u2 = r2->Some_0;
        assert(ts2.to_multiset().count(u2) > 0);
        assert(ts1.to_multiset().count(u2) > 0);
        assert(ts1.contains(u2));
        let j1 = choose|j: int| 0 <= j < ts1.len() && ts1[j] == u2;
        assert(dist2_center(u1, p) <= dist2_center(ts1[j1], p));
        assert(ts1.to_multiset().count(u1) > 0);
        assert(ts2.to_multiset().count(u1) > 0);
        assert(ts2.contains(u1));
        let j2 = choose|j: int| 0 <= j < ts2.len() && ts2[j] == u1;
        assert(dist2_center(u2, p) <= dist2_center(ts2[j2], p));
    }
}

/// When exactly one triangle of the tree admits the point and the point is
/// strictly inside it, the query returns precisely that triangle.
pub proof fn lemma_sample_unique_container(
    ts: Seq<Triangle>,
    p: Point,
    r: Option<Triangle>,
    i: int,
)
    requires
        sample_post(ts, p, r),
        0 <= i < ts.len(),
        triangle_wf(ts[i]),
        strictly_inside_triangle(ts[i], p),
        forall|j: int| 0 <= j < ts.len() && j != i ==> !sample_hit(#[trigger] ts[j], p),
    ensures
        r == Some(ts[i]),
{
    lemma_strictly_inside_in_aabb(ts[i], p);
    if r is None {
        assert(!sample_hit(ts[i], p));
    }
    let u = r->Some_0;
    let j = choose|j: int| 0 <= j < ts.len() && ts[j] == u;
    if j != i {
        assert(!sample_hit(ts[j], p));
    }
}

} // verus!
