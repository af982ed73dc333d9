use vstd::prelude::*;
use vstd::multiset::Multiset;

use crate::bvh::{max_i, min_i};
use crate::point::{cross, lemma_mul_bound, valid_point, work_point, Point, COORD_LIMIT};

verus! {

// Bounds on the exact circumcircle representation. With every working
// coordinate within WORK_LIMIT (= 1 << 19), the doubled orientation `den`
// stays within 16 * WORK_LIMIT^2, the center numerators within
// 12 * WORK_LIMIT^3, every distance numerator `x * den - ux` within
// 28 * WORK_LIMIT^3 (= 4035225266123964416, the bound the overflow
// lemmas cite), and the squared-radius numerator within twice its
// square, all inside i128.
const DEN_MAX: i128 = 16 * 524288 * 524288;

const U_MAX: i128 = 12 * 524288 * 524288 * 524288;

const R_MAX: i128 = 32566085896730438886143272976868442112;

/// A candidate circumcircle during triangulation: the circle through the
/// working points at indices `i`, `j`, `k`. The center is the exact
/// rational `(ux / den, uy / den)` with `den > 0`, and the squared radius
/// the exact rational `rsq / den^2`. Transient: never exposed.
#[derive(Clone, Copy, Debug)]
struct TriangleCircle {
    i: usize,
    j: usize,
    k: usize,
    den: i128,
    ux: i128,
    uy: i128,
    rsq: i128,
}

/// Numerator of the circumcenter x-coordinate of `(a, b, c)`, before
/// orientation normalization; the center is this over `2 * cross(a, b, c)`.
pub open spec fn circum_raw_ux(a: Point, b: Point, c: Point) -> int {
    (a.x * a.x + a.y * a.y) * (b.y - c.y) + (b.x * b.x + b.y * b.y) * (c.y - a.y) + (c.x * c.x
        + c.y * c.y) * (a.y - b.y)
}

/// Numerator of the circumcenter y-coordinate, as `circum_raw_ux`.
pub open spec fn circum_raw_uy(a: Point, b: Point, c: Point) -> int {
    (a.x * a.x + a.y * a.y) * (c.x - b.x) + (b.x * b.x + b.y * b.y) * (a.x - c.x) + (c.x * c.x
        + c.y * c.y) * (b.x - a.x)
}

/// Squared distance from vertex `a` to the center `(ux / den, uy / den)`,
/// scaled by `den^2`: the squared-radius numerator.
pub open spec fn circum_rsq(a: Point, den: int, ux: int, uy: int) -> int {
    (a.x * den - ux) * (a.x * den - ux) + (a.y * den - uy) * (a.y * den - uy)
}

/// The candidate's triangle is non-degenerate over the working points:
/// a circle only exists through three points of nonzero orientation.
spec fn candidate_nd(c: TriangleCircle, ps: Seq<Point>) -> bool {
    cross(ps[c.i as int], ps[c.j as int], ps[c.k as int]) != 0
}

/// Index validity and representation bounds of a candidate circle with
/// respect to a working point list of length `plen`.
spec fn candidate_wf(c: TriangleCircle, plen: nat) -> bool {
    &&& c.i < plen
    &&& c.j < plen
    &&& c.k < plen
    &&& 0 < c.den <= DEN_MAX
    &&& -U_MAX <= c.ux <= U_MAX
    &&& -U_MAX <= c.uy <= U_MAX
    &&& 0 <= c.rsq <= R_MAX
}

fn maximum(a: i64, b: i64) -> (r: i64)
    ensures
        r == if a > b {
            a
        } else {
            b
        },
{
    if a > b {
        a
    } else {
        b
    }
}

/// Least x-coordinate among the first `n` points (for `n >= 1`).
pub open spec fn xs_min(ps: Seq<Point>, n: int) -> int
    decreases n,
{
    if n <= 1 {
        ps[0].x as int
    } else {
        min_i(xs_min(ps, n - 1), ps[n - 1].x as int)
    }
}

/// Greatest x-coordinate among the first `n` points (for `n >= 1`).
pub open spec fn xs_max(ps: Seq<Point>, n: int) -> int
    decreases n,
{
    if n <= 1 {
        ps[0].x as int
    } else {
        max_i(xs_max(ps, n - 1), ps[n - 1].x as int)
    }
}

/// Least y-coordinate among the first `n` points (for `n >= 1`).
pub open spec fn ys_min(ps: Seq<Point>, n: int) -> int
    decreases n,
{
    if n <= 1 {
        ps[0].y as int
    } else {
        min_i(ys_min(ps, n - 1), ps[n - 1].y as int)
    }
}

/// Greatest y-coordinate among the first `n` points (for `n >= 1`).
pub open spec fn ys_max(ps: Seq<Point>, n: int) -> int
    decreases n,
{
    if n <= 1 {
        ps[0].y as int
    } else {
        max_i(ys_max(ps, n - 1), ps[n - 1].y as int)
    }
}

/// The exact super-triangle construction over a non-empty point list:
/// the midpoint of the bounding box, pushed out by twenty times the
/// larger box extent sideways and upward, and by one extent downward.
pub open spec fn super_triangle_of(ps: Seq<Point>) -> Seq<Point> {
    let n = ps.len() as int;
    let x_min = xs_min(ps, n);
    let x_max = xs_max(ps, n);
    let y_min = ys_min(ps, n);
    let y_max = ys_max(ps, n);
    let dx = x_max - x_min;
    let dy = y_max - y_min;
    let d_max = max_i(dx, dy);
    let x_mid = x_min + dx / 2;
    let y_mid = y_min + dy / 2;
    seq![
        Point { x: (x_mid - 20 * d_max) as i64, y: (y_mid - d_max) as i64 },
        Point { x: x_mid as i64, y: (y_mid + 20 * d_max) as i64 },
        Point { x: (x_mid + 20 * d_max) as i64, y: (y_mid - d_max) as i64 },
    ]
}

/// The three vertices of a triangle that strictly contains every point of
/// the input: the bounding box of the input, widened by twenty times its
/// larger extent. The result is pinned to `super_triangle_of`.
fn build_supertriangle(points: &Vec<Point>) -> (st: Vec<Point>)
    requires
        points@.len() >= 1,
        forall|t: int| 0 <= t < points@.len() ==> valid_point(#[trigger] points@[t]),
    ensures
        st@.len() == 3,
        forall|t: int| 0 <= t < st@.len() ==> work_point(#[trigger] st@[t]),
        st@ == super_triangle_of(points@),
{
    let mut x_min: i64 = i64::MAX;
    let mut y_min: i64 = i64::MAX;
    let mut x_max: i64 = i64::MIN;
    let mut y_max: i64 = i64::MIN;

    let points_count = points.len();

    let mut i: usize = 0;
    while i < points_count
        invariant
            points_count == points@.len(),
            forall|t: int| 0 <= t < points@.len() ==> valid_point(#[trigger] points@[t]),
            0 <= i <= points_count,
            i == 0 ==> x_min == i64::MAX && x_max == i64::MIN && y_min == i64::MAX && y_max
                == i64::MIN,
            i >= 1 ==> -COORD_LIMIT <= x_min <= x_max <= COORD_LIMIT && -COORD_LIMIT <= y_min
                <= y_max <= COORD_LIMIT,
            i >= 1 ==> x_min == xs_min(points@, i as int) && x_max == xs_max(points@, i as int)
                && y_min == ys_min(points@, i as int) && y_max == ys_max(points@, i as int),
        decreases points_count - i,
    {
        let p = points[i];
        if p.x < x_min {
            x_min = p.x;
        }
        if p.x > x_max {
            x_max = p.x;
        }
        if p.y < y_min {
            y_min = p.y;
        }
        if p.y > y_max {
            y_max = p.y;
        }
        i = i + 1;
    }

    let dx = x_max - x_min;
    let dy = y_max - y_min;

    let d_max = maximum(dx, dy);
    let x_mid = x_min + dx / 2;
    let y_mid = y_min + dy / 2;

    let p_left = Point::new(x_mid - 20 * d_max, y_mid - d_max);
    let p_top = Point::new(x_mid, y_mid + 20 * d_max);
    let p_right = Point::new(x_mid + 20 * d_max, y_mid - d_max);
    let st = vec![p_left, p_top, p_right];
    proof {
        assert(st@ =~= super_triangle_of(points@));
    }
    st
}

/// The exact circumcircle of the working points at indices `i`, `j`, `k`,
/// or none when the three points are collinear (zero orientation), in
/// which case no circle through them exists. Replaces a floating
/// computation that could produce non-finite centers on such triples.
fn circumcircle(points: &Vec<Point>, i: usize, j: usize, k: usize) -> (r: Option<TriangleCircle>)
    requires
        i < points@.len(),
        j < points@.len(),
        k < points@.len(),
        forall|t: int| 0 <= t < points@.len() ==> work_point(#[trigger] points@[t]),
    ensures
        r is Some <==> cross(points@[i as int], points@[j as int], points@[k as int]) != 0,
        r is Some ==> candidate_wf(r->Some_0, points@.len() as nat) && r->Some_0.i == i
            && r->Some_0.j == j && r->Some_0.k == k,
        r is Some && cross(points@[i as int], points@[j as int], points@[k as int]) > 0
            ==> r->Some_0.den == 2 * cross(points@[i as int], points@[j as int], points@[k as int])
            && r->Some_0.ux == circum_raw_ux(points@[i as int], points@[j as int], points@[k as int])
            && r->Some_0.uy == circum_raw_uy(points@[i as int], points@[j as int], points@[k as int]),
        r is Some && cross(points@[i as int], points@[j as int], points@[k as int]) < 0
            ==> r->Some_0.den == -2 * cross(points@[i as int], points@[j as int], points@[k as int])
            && r->Some_0.ux == -circum_raw_ux(points@[i as int], points@[j as int], points@[k as int])
            && r->Some_0.uy == -circum_raw_uy(points@[i as int], points@[j as int], points@[k as int]),
        r is Some ==> r->Some_0.rsq == circum_rsq(
            points@[i as int],
            r->Some_0.den as int,
            r->Some_0.ux as int,
            r->Some_0.uy as int,
        ),
{
    let p1 = points[i];
    let p2 = points[j];
    let p3 = points[k];

    let x1: i128 = p1.x as i128;
    let y1: i128 = p1.y as i128;
    let x2: i128 = p2.x as i128;
    let y2: i128 = p2.y as i128;
    let x3: i128 = p3.x as i128;
    let y3: i128 = p3.y as i128;

    proof {
        lemma_mul_bound((x2 - x1) as int, (y3 - y1) as int, 1048576, 1048576);
        lemma_mul_bound((y2 - y1) as int, (x3 - x1) as int, 1048576, 1048576);
    }
    let d: i128 = (x2 - x1) * (y3 - y1) - (y2 - y1) * (x3 - x1);
    if d == 0 {
        return None;
    }
    proof {
        lemma_mul_bound(x1 as int, x1 as int, 524288, 524288);
        lemma_mul_bound(y1 as int, y1 as int, 524288, 524288);
        lemma_mul_bound(x2 as int, x2 as int, 524288, 524288);
        lemma_mul_bound(y2 as int, y2 as int, 524288, 524288);
        lemma_mul_bound(x3 as int, x3 as int, 524288, 524288);
        lemma_mul_bound(y3 as int, y3 as int, 524288, 524288);
    }
    let sq1: i128 = x1 * x1 + y1 * y1;
    let sq2: i128 = x2 * x2 + y2 * y2;
    let sq3: i128 = x3 * x3 + y3 * y3;
    proof {
        lemma_mul_bound(sq1 as int, (y2 - y3) as int, 549755813888, 1048576);
        lemma_mul_bound(sq2 as int, (y3 - y1) as int, 549755813888, 1048576);
        lemma_mul_bound(sq3 as int, (y1 - y2) as int, 549755813888, 1048576);
        lemma_mul_bound(sq1 as int, (x3 - x2) as int, 549755813888, 1048576);
        lemma_mul_bound(sq2 as int, (x1 - x3) as int, 549755813888, 1048576);
        lemma_mul_bound(sq3 as int, (x2 - x1) as int, 549755813888, 1048576);
    }
    let ux0: i128 = sq1 * (y2 - y3) + sq2 * (y3 - y1) + sq3 * (y1 - y2);
    let uy0: i128 = sq1 * (x3 - x2) + sq2 * (x1 - x3) + sq3 * (x2 - x1);

    let den: i128;
    let ux: i128;
    let uy: i128;
    if d < 0 {
        den = -(2 * d);
        ux = -ux0;
        uy = -uy0;
    } else {
        den = 2 * d;
        ux = ux0;
        uy = uy0;
    }

    proof {
        lemma_mul_bound(x1 as int, den as int, 524288, 4398046511104);
        lemma_mul_bound(y1 as int, den as int, 524288, 4398046511104);
        lemma_mul_bound(
            (x1 * den - ux) as int,
            (x1 * den - ux) as int,
            4035225266123964416,
            4035225266123964416,
        );
        lemma_mul_bound(
            (y1 * den - uy) as int,
            (y1 * den - uy) as int,
            4035225266123964416,
            4035225266123964416,
        );
        assert((x1 * den - ux) * (x1 * den - ux) >= 0) by (nonlinear_arith);
        assert((y1 * den - uy) * (y1 * den - uy) >= 0) by (nonlinear_arith);
    }
    let rsq: i128 = (x1 * den - ux) * (x1 * den - ux) + (y1 * den - uy) * (y1 * den - uy);

    proof {
        assert(DEN_MAX == 4398046511104);
        assert(U_MAX == 1729382256910270464);
    }
    Some(TriangleCircle { i, j, k, den, ux, uy, rsq })
}

/// The sequence of index pairs held by a flat edge list, two entries per
/// edge; a trailing odd entry is ignored.
pub open spec fn pairs_of(s: Seq<usize>) -> Seq<(usize, usize)> {
    Seq::new((s.len() / 2) as nat, |i: int| (s[2 * i], s[2 * i + 1]))
}

/// Two index pairs name the same undirected edge.
pub open spec fn same_edge(p: (usize, usize), q: (usize, usize)) -> bool {
    ||| (p.0 == q.0 && p.1 == q.1)
    ||| (p.0 == q.1 && p.1 == q.0)
}

/// How many pairs of `s` name the same undirected edge as `e`.
pub open spec fn edge_count(s: Seq<(usize, usize)>, e: (usize, usize)) -> int
    decreases s.len(),
{
    if s.len() == 0 {
        0
    } else {
        edge_count(s.drop_last(), e) + if same_edge(s.last(), e) {
            1int
        } else {
            0int
        }
    }
}

/// The pair at position `t` of `all` survives cancellation: occurrences
/// of one undirected edge cancel in pairs, so a pair survives exactly
/// when its edge occurs an odd number of times in all of `all` and `t` is
/// the earliest occurrence.
pub open spec fn keep_at(all: Seq<(usize, usize)>, t: int) -> bool {
    &&& edge_count(all, all[t]) % 2 == 1
    &&& edge_count(all.take(t), all[t]) == 0
}

/// The first `n` pairs of `all` that survive cancellation, in order.
pub open spec fn surviving_pairs(all: Seq<(usize, usize)>, n: int) -> Seq<(usize, usize)>
    decreases n,
{
    if n <= 0 {
        Seq::empty()
    } else {
        surviving_pairs(all, n - 1) + if keep_at(all, n - 1) {
            seq![all[n - 1]]
        } else {
            Seq::empty()
        }
    }
}

proof fn lemma_edge_count_take_step(s: Seq<(usize, usize)>, e: (usize, usize), j: int)
    requires
        0 <= j < s.len(),
    ensures
        edge_count(s.take(j + 1), e) == edge_count(s.take(j), e) + if same_edge(s[j], e) {
            1int
        } else {
            0int
        },
{
    assert(s.take(j + 1).drop_last() =~= s.take(j));
    assert(s.take(j + 1).last() == s[j]);
}

/// Cancels edges of the flat edge list that occur more than once, in
/// either vertex order, in pairs: an edge occurring an even number of
/// times vanishes entirely, one occurring an odd number of times keeps
/// its earliest copy. In particular interior edges of a union of
/// invalidated triangles, which occur exactly twice, are discarded, and
/// the surviving edges form the cavity boundary.
pub fn remove_duplicates(edges: &mut Vec<usize>)
    requires
        old(edges)@.len() % 2 == 0,
    ensures
        final(edges)@.len() % 2 == 0,
        pairs_of(final(edges)@) == surviving_pairs(
            pairs_of(old(edges)@),
            pairs_of(old(edges)@).len() as int,
        ),
        forall|t: int|
            0 <= t < final(edges)@.len() ==> old(edges)@.contains(#[trigger] final(edges)@[t]),
{
    let ghost all = pairs_of(edges@);
    let n_pairs = edges.len() / 2;
    proof {
        assert(2 * (n_pairs as int) == edges@.len());
    }
    let mut result: Vec<usize> = Vec::new();
    let mut idx: usize = 0;
    while idx < n_pairs
        invariant
            edges@ == old(edges)@,
            edges@.len() <= usize::MAX,
            edges@.len() % 2 == 0,
            n_pairs == edges@.len() / 2,
            2 * n_pairs == edges@.len(),
            all == pairs_of(edges@),
            0 <= idx <= n_pairs,
            result@.len() % 2 == 0,
            pairs_of(result@) == surviving_pairs(all, idx as int),
            forall|t: int| 0 <= t < result@.len() ==> edges@.contains(#[trigger] result@[t]),
        decreases n_pairs - idx,
    {
        let a = edges[2 * idx];
        let b = edges[2 * idx + 1];

        let mut cnt: usize = 0;
        let mut cnt_before: usize = 0;
        let mut scan: usize = 0;
        while scan < n_pairs
            invariant
                edges@ == old(edges)@,
                edges@.len() <= usize::MAX,
                edges@.len() % 2 == 0,
                n_pairs == edges@.len() / 2,
                2 * n_pairs == edges@.len(),
                all == pairs_of(edges@),
                0 <= scan <= n_pairs,
                idx < n_pairs,
                a == edges@[2 * idx],
                b == edges@[2 * idx + 1],
                cnt <= scan,
                cnt == edge_count(all.take(scan as int), (a, b)),
                scan <= idx ==> cnt_before == edge_count(all.take(scan as int), (a, b)),
                scan > idx ==> cnt_before == edge_count(all.take(idx as int), (a, b)),
            decreases n_pairs - scan,
        {
            let m = edges[2 * scan];
            let n = edges[2 * scan + 1];
            proof {
                lemma_edge_count_take_step(all, (a, b), scan as int);
                assert(all[scan as int] == (m, n));
            }
            if (a == m && b == n) || (a == n && b == m) {
                cnt = cnt + 1;
                if scan < idx {
                    cnt_before = cnt_before + 1;
                }
            }
            scan = scan + 1;
        }
        proof {
            assert(all.take(n_pairs as int) =~= all);
            assert(all[idx as int] == (a, b));
        }
        if cnt % 2 == 1 && cnt_before == 0 {
            let ghost result_before = result@;
            result.push(a);
            result.push(b);
            proof {
                assert(keep_at(all, idx as int));
                assert(pairs_of(result@) =~= pairs_of(result_before).push((a, b)));
                assert(pairs_of(result@) =~= surviving_pairs(all, idx + 1 as int));
            }
        } else {
            proof {
                assert(!keep_at(all, idx as int));
                assert(pairs_of(result@) =~= surviving_pairs(all, idx + 1 as int));
            }
        }
        idx = idx + 1;
    }
    *edges = result;
}

/// The index list reads out points in order of ascending x-coordinate.
pub open spec fn sorted_by_x(ps: Seq<Point>, is: Seq<usize>) -> bool {
    forall|a: int, b: int|
        #![trigger is[a], is[b]]
        0 <= a <= b < is.len() ==> ps[is[a] as int].x <= ps[is[b] as int].x
}

/// Position of the first index among the first `n` of `s` whose point has
/// the least x-coordinate (for `n >= 1`).
pub open spec fn min_x_index(ps: Seq<Point>, s: Seq<usize>, n: int) -> int
    decreases n,
{
    if n <= 1 {
        0
    } else {
        let m = min_x_index(ps, s, n - 1);
        if ps[s[n - 1] as int].x < ps[s[m] as int].x {
            n - 1
        } else {
            m
        }
    }
}

/// The position of the earliest least-x index is always in range.
proof fn lemma_min_x_index_bounds(ps: Seq<Point>, s: Seq<usize>, n: int)
    requires
        n >= 1,
    ensures
        0 <= min_x_index(ps, s, n) < n,
    decreases n,
{
    if n > 1 {
        lemma_min_x_index_bounds(ps, s, n - 1);
    }
}

/// The exact sort: repeatedly extract the earliest least-x index. This
/// fixes the order of ties (by original position), so the sort is a pure
/// function of its input.
pub open spec fn sort_by_x_model(ps: Seq<Point>, s: Seq<usize>) -> Seq<usize>
    decreases s.len() via sort_by_x_model_decreases
{
    if s.len() == 0 {
        Seq::empty()
    } else {
        let m = min_x_index(ps, s, s.len() as int);
        seq![s[m]] + sort_by_x_model(ps, s.remove(m))
    }
}

#[via_fn]
proof fn sort_by_x_model_decreases(ps: Seq<Point>, s: Seq<usize>) {
    if s.len() > 0 {
        lemma_min_x_index_bounds(ps, s, s.len() as int);
    }
}

proof fn lemma_ms_transfer(a: Multiset<usize>, b: Multiset<usize>, v: usize)
    requires
        b.count(v) > 0,
    ensures
        a.insert(v).add(b.remove(v)) =~= a.add(b),
{
    broadcast use vstd::multiset::group_multiset_axioms;

}

/// Sorts the point indices by the x-coordinate of the point each refers
/// to, by repeatedly extracting the earliest minimum: the result is the
/// permutation `sort_by_x_model` gives, sorted by x, with ties kept in
/// original order.
fn sort_indices_by_x(points: &Vec<Point>, indices: &mut Vec<usize>)
    requires
        forall|t: int| 0 <= t < old(indices)@.len() ==> (#[trigger] old(indices)@[t])
            < points@.len(),
    ensures
        final(indices)@.len() == old(indices)@.len(),
        forall|t: int| 0 <= t < final(indices)@.len() ==> (#[trigger] final(indices)@[t])
            < points@.len(),
        sorted_by_x(points@, final(indices)@),
        final(indices)@.to_multiset() == old(indices)@.to_multiset(),
        final(indices)@ == sort_by_x_model(points@, old(indices)@),
{
    broadcast use vstd::seq_lib::group_to_multiset_ensures;

    let ghost orig = indices@;
    let mut out: Vec<usize> = Vec::new();
    while indices.len() > 0
        invariant
            forall|t: int| 0 <= t < indices@.len() ==> (#[trigger] indices@[t]) < points@.len(),
            forall|t: int| 0 <= t < out@.len() ==> (#[trigger] out@[t]) < points@.len(),
            out@.to_multiset().add(indices@.to_multiset()) == orig.to_multiset(),
            out@.len() + indices@.len() == orig.len(),
            sorted_by_x(points@, out@),
            forall|t: int, u: int|
                0 <= t < out@.len() && 0 <= u < indices@.len() ==> points@[out@[t] as int].x
                    <= points@[indices@[u] as int].x,
            out@ + sort_by_x_model(points@, indices@) == sort_by_x_model(points@, orig),
        decreases indices@.len(),
    {
        let mut m: usize = 0;
        let mut scan: usize = 1;
        while scan < indices.len()
            invariant
                forall|t: int| 0 <= t < indices@.len() ==> (#[trigger] indices@[t])
                    < points@.len(),
                indices@.len() > 0,
                0 <= m < indices@.len(),
                m < scan,
                0 <= scan <= indices@.len(),
                m == min_x_index(points@, indices@, scan as int),
                forall|t: int|
                    0 <= t < scan ==> points@[indices@[m as int] as int].x
                        <= points@[(#[trigger] indices@[t]) as int].x,
            decreases indices@.len() - scan,
        {
            if points[indices[scan]].x < points[indices[m]].x {
                m = scan;
            }
            scan = scan + 1;
        }
        let ghost ind_before = indices@;
        let ghost out_before = out@;
        proof {
            assert(m == min_x_index(points@, ind_before, ind_before.len() as int));
        }
        let v = indices.remove(m);
        out.push(v);
        proof {
            ind_before.to_multiset_ensures();
            out_before.to_multiset_ensures();
            assert(ind_before[m as int] == v);
            assert(ind_before.contains(v));
            assert(ind_before.to_multiset().count(v) > 0);
            assert(indices@ == ind_before.remove(m as int));
            assert(indices@.to_multiset() == ind_before.to_multiset().remove(v));
            assert(out@.to_multiset() == out_before.to_multiset().insert(v));
            lemma_ms_transfer(out_before.to_multiset(), ind_before.to_multiset(), v);
            assert(out@.to_multiset().add(indices@.to_multiset()) =~= orig.to_multiset());
            assert forall|t: int, u: int|
                0 <= t < out@.len() && 0 <= u < indices@.len() implies points@[out@[t] as int].x
                <= points@[indices@[u] as int].x by {
                if u < m {
                    assert(indices@[u] == ind_before[u]);
                } else {
                    assert(indices@[u] == ind_before[u + 1]);
                }
            }
            assert(sort_by_x_model(points@, ind_before) == seq![v] + sort_by_x_model(
                points@,
                indices@,
            ));
            assert(out@ =~= out_before + seq![v]);
            assert(out@ + sort_by_x_model(points@, indices@) =~= out_before + sort_by_x_model(
                points@,
                ind_before,
            ));
        }
    }
    proof {
        assert(indices@.len() == 0);
        assert(sort_by_x_model(points@, indices@) =~= Seq::<usize>::empty());
        assert(out@ =~= out@ + sort_by_x_model(points@, indices@));
    }
    *indices = out;
}

/// The triple at position `t` of the flat index list `r` names three
/// points of `ps` with nonzero orientation: a real triangle.
pub open spec fn triple_nondegenerate(ps: Seq<Point>, r: Seq<usize>, t: int) -> bool {
    cross(ps[r[3 * t] as int], ps[r[3 * t + 1] as int], ps[r[3 * t + 2] as int]) != 0
}

/// Incremental Delaunay triangulation (a Bowyer-Watson variant swept by
/// ascending x): returns flat index triples into the input point list.
/// Fewer than three points yield an empty result, as does a fully
/// degenerate input. Every emitted index refers to an input point (the
/// super-triangle's synthetic vertices never appear), and every emitted
/// triple is a non-degenerate triangle: collinear triples are never
/// formed, where a floating computation would have produced non-finite
/// circumcircle coordinates.
///
/// All circle membership tests compare exact integer numerators scaled by
/// the candidate's denominator, so no epsilon tolerance enters: a point
/// exactly on a candidate circle counts as inside it and invalidates the
/// triangle, and a circle is retired once the sweep has passed it by more
/// than its radius. Points of equal x are processed in input order, the
/// fixed choice `sort_by_x_model` makes where the design leaves the
/// order open.
pub fn triangulate(in_points: &Vec<Point>) -> (r: Vec<usize>)
    requires
        forall|t: int| 0 <= t < in_points@.len() ==> valid_point(#[trigger] in_points@[t]),
        in_points@.len() + 3 <= usize::MAX,
    ensures
        r@.len() % 3 == 0,
        forall|t: int| 0 <= t < r@.len() ==> (#[trigger] r@[t]) < in_points@.len(),
        in_points@.len() < 3 ==> r@.len() == 0,
        forall|t: int| 0 <= t < r@.len() / 3 ==> triple_nondegenerate(in_points@, r@, t),
{
    let points_count = in_points.len();
    if points_count < 3 {
        return Vec::new();
    }

    let mut indices: Vec<usize> = Vec::with_capacity(points_count);
    let mut fill: usize = 0;
    while fill < points_count
        invariant
            0 <= fill <= points_count,
            indices@.len() == fill,
            forall|t: int| 0 <= t < indices@.len() ==> (#[trigger] indices@[t]) < points_count,
        decreases points_count - fill,
    {
        indices.push(fill);
        fill = fill + 1;
    }

    sort_indices_by_x(in_points, &mut indices);

    let mut points: Vec<Point> = Vec::with_capacity(points_count + 3);
    let mut copy_i: usize = 0;
    while copy_i < points_count
        invariant
            points_count == in_points@.len(),
            forall|t: int| 0 <= t < in_points@.len() ==> valid_point(#[trigger] in_points@[t]),
            0 <= copy_i <= points_count,
            points@.len() == copy_i,
            forall|t: int| 0 <= t < points@.len() ==> points@[t] == in_points@[t],
        decreases points_count - copy_i,
    {
        points.push(in_points[copy_i]);
        copy_i = copy_i + 1;
    }
    let mut st = build_supertriangle(&points);
    points.append(&mut st);

    let ghost plen = points@.len();
    proof {
        assert(plen == points_count + 3);
        assert forall|t: int| 0 <= t < plen implies work_point(#[trigger] points@[t]) by {
            if t < points_count {
                assert(points@[t] == in_points@[t]);
            }
        }
    }

    let mut open_list: Vec<TriangleCircle> = Vec::new();
    let mut closed_list: Vec<TriangleCircle> = Vec::new();
    let mut edges_list: Vec<usize> = Vec::new();

    match circumcircle(&points, points_count, points_count + 1, points_count + 2) {
        Some(seed) => { open_list.push(seed) },
        None => {
            // A degenerate super-triangle arises only when every input point
            // coincides; with no seed circle no triangle is ever formed.
        },
    }

    let mut i: usize = 0;
    while i < points_count
        invariant
            points_count == in_points@.len(),
            points@.len() == plen,
            plen == points_count + 3,
            forall|t: int| 0 <= t < plen ==> work_point(#[trigger] points@[t]),
            forall|t: int| 0 <= t < points_count ==> points@[t] == in_points@[t],
            indices@.len() == points_count,
            forall|t: int| 0 <= t < indices@.len() ==> (#[trigger] indices@[t]) < points_count,
            0 <= i <= points_count,
            forall|t: int|
                0 <= t < open_list@.len() ==> candidate_wf(#[trigger] open_list@[t], plen as nat)
                    && candidate_nd(open_list@[t], points@),
            forall|t: int|
                0 <= t < closed_list@.len() ==> candidate_wf(
                    #[trigger] closed_list@[t],
                    plen as nat,
                ) && candidate_nd(closed_list@[t], points@),
        decreases points_count - i,
    {
        let c = indices[i];
        let p = points[c];
        edges_list.clear();

        let mut j: usize = open_list.len();
        while j > 0
            invariant
                points@.len() == plen,
                forall|t: int| 0 <= t < plen ==> work_point(#[trigger] points@[t]),
                c < plen,
                p == points@[c as int],
                0 <= j <= open_list@.len(),
                forall|t: int|
                    0 <= t < open_list@.len() ==> candidate_wf(
                        #[trigger] open_list@[t],
                        plen as nat,
                    ) && candidate_nd(open_list@[t], points@),
                forall|t: int|
                    0 <= t < closed_list@.len() ==> candidate_wf(
                        #[trigger] closed_list@[t],
                        plen as nat,
                    ) && candidate_nd(closed_list@[t], points@),
                forall|t: int| 0 <= t < edges_list@.len() ==> (#[trigger] edges_list@[t]) < plen,
                edges_list@.len() % 2 == 0,
            decreases j,
        {
            j = j - 1;
            let t = open_list[j];

            proof {
                lemma_mul_bound(p.x as int, t.den as int, 524288, 4398046511104);
                lemma_mul_bound(p.y as int, t.den as int, 524288, 4398046511104);
            }
            let dx_num: i128 = p.x as i128 * t.den - t.ux;
            if dx_num > 0 {
                proof {
                    lemma_mul_bound(
                        dx_num as int,
                        dx_num as int,
                        4035225266123964416,
                        4035225266123964416,
                    );
                }
                if dx_num * dx_num > t.rsq {
                    closed_list.push(t);
                    open_list.remove(j);
                    continue ;
                }
            }

            let dy_num: i128 = p.y as i128 * t.den - t.uy;
            proof {
                lemma_mul_bound(
                    dx_num as int,
                    dx_num as int,
                    4035225266123964416,
                    4035225266123964416,
                );
                lemma_mul_bound(
                    dy_num as int,
                    dy_num as int,
                    4035225266123964416,
                    4035225266123964416,
                );
            }
            if dx_num * dx_num + dy_num * dy_num > t.rsq {
                continue ;
            }

            edges_list.push(t.i);
            edges_list.push(t.j);
            edges_list.push(t.j);
            edges_list.push(t.k);
            edges_list.push(t.k);
            edges_list.push(t.i);

            open_list.remove(j);
        }

        let ghost edges_before = edges_list@;
        remove_duplicates(&mut edges_list);
        proof {
            assert forall|t: int| 0 <= t < edges_list@.len() implies (#[trigger] edges_list@[t])
                < plen by {
                assert(edges_before.contains(edges_list@[t]));
            }
        }

        let mut k: usize = edges_list.len();
        while k >= 2
            invariant
                points@.len() == plen,
                forall|t: int| 0 <= t < plen ==> work_point(#[trigger] points@[t]),
                c < plen,
                k <= edges_list@.len(),
                forall|t: int| 0 <= t < edges_list@.len() ==> (#[trigger] edges_list@[t]) < plen,
                forall|t: int|
                    0 <= t < open_list@.len() ==> candidate_wf(
                        #[trigger] open_list@[t],
                        plen as nat,
                    ) && candidate_nd(open_list@[t], points@),
            decreases k,
        {
            k = k - 1;
            let b = edges_list[k];
            k = k - 1;
            let a = edges_list[k];
            match circumcircle(&points, a, b, c) {
                Some(cand) => { open_list.push(cand) },
                None => {
                    // Collinear cavity edge and point: no circle exists, so
                    // no candidate is formed.
                },
            }
        }

        i = i + 1;
    }

    let mut flush: usize = 0;
    while flush < open_list.len()
        invariant
            forall|t: int|
                0 <= t < open_list@.len() ==> candidate_wf(#[trigger] open_list@[t], plen as nat)
                    && candidate_nd(open_list@[t], points@),
            forall|t: int|
                0 <= t < closed_list@.len() ==> candidate_wf(
                    #[trigger] closed_list@[t],
                    plen as nat,
                ) && candidate_nd(closed_list@[t], points@),
            0 <= flush <= open_list@.len(),
        decreases open_list@.len() - flush,
    {
        closed_list.push(open_list[flush]);
        flush = flush + 1;
    }

    open_list.clear();
    edges_list.clear();

    let mut triangles: Vec<usize> = Vec::new();
    let mut out_i: usize = 0;
    while out_i < closed_list.len()
        invariant
            points_count == in_points@.len(),
            points@.len() == plen,
            plen == points_count + 3,
            forall|t: int| 0 <= t < points_count ==> points@[t] == in_points@[t],
            forall|t: int|
                0 <= t < closed_list@.len() ==> candidate_wf(
                    #[trigger] closed_list@[t],
                    plen as nat,
                ) && candidate_nd(closed_list@[t], points@),
            0 <= out_i <= closed_list@.len(),
            triangles@.len() % 3 == 0,
            forall|t: int| 0 <= t < triangles@.len() ==> (#[trigger] triangles@[t]) < points_count,
            forall|t: int|
                0 <= t < triangles@.len() / 3 ==> triple_nondegenerate(in_points@, triangles@, t),
        decreases closed_list@.len() - out_i,
    {
        let t = closed_list[out_i];
        if t.i < points_count && t.j < points_count && t.k < points_count {
            let ghost before = triangles@;
            triangles.push(t.i);
            triangles.push(t.j);
            triangles.push(t.k);
            proof {
                assert forall|q: int|
                    0 <= q < triangles@.len() / 3 implies triple_nondegenerate(
                    in_points@,
                    triangles@,
                    q,
                ) by {
                    if q < before.len() / 3 {
                        assert(triple_nondegenerate(in_points@, before, q));
                        assert(triangles@[3 * q] == before[3 * q]);
                        assert(triangles@[3 * q + 1] == before[3 * q + 1]);
                        assert(triangles@[3 * q + 2] == before[3 * q + 2]);
                    } else {
                        assert(triangles@[3 * q] == t.i);
                        assert(triangles@[3 * q + 1] == t.j);
                        assert(triangles@[3 * q + 2] == t.k);
                        assert(closed_list@[out_i as int] == t);
                        assert(candidate_nd(t, points@));
                        assert(points@[t.i as int] == in_points@[t.i as int]);
                        assert(points@[t.j as int] == in_points@[t.j as int]);
                        assert(points@[t.k as int] == in_points@[t.k as int]);
                    }
                }
            }
        }
        out_i = out_i + 1;
    }

    closed_list.clear();

    triangles
}

/// Orientation-normalized circumcircle denominator of `(a, b, c)`:
/// twice the magnitude of the doubled signed area.
pub open spec fn circle_den_of(a: Point, b: Point, c: Point) -> int {
    if cross(a, b, c) > 0 {
        2 * cross(a, b, c)
    } else {
        -2 * cross(a, b, c)
    }
}

/// Orientation-normalized circumcenter x-numerator of `(a, b, c)`.
pub open spec fn circle_ux_of(a: Point, b: Point, c: Point) -> int {
    if cross(a, b, c) > 0 {
        circum_raw_ux(a, b, c)
    } else {
        -circum_raw_ux(a, b, c)
    }
}

/// Orientation-normalized circumcenter y-numerator of `(a, b, c)`.
pub open spec fn circle_uy_of(a: Point, b: Point, c: Point) -> int {
    if cross(a, b, c) > 0 {
        circum_raw_uy(a, b, c)
    } else {
        -circum_raw_uy(a, b, c)
    }
}

/// `p` lies strictly inside the circumcircle of `(a, b, c)`: with the
/// exact center `(ux / den, uy / den)` and squared radius `rsq / den^2`,
/// the squared distance to the center, scaled by `den^2`, is strictly
/// below the squared-radius numerator. Meaningful for non-degenerate
/// triples (`cross(a, b, c) != 0`).
pub open spec fn in_circumcircle(a: Point, b: Point, c: Point, p: Point) -> bool {
    let den = circle_den_of(a, b, c);
    let ux = circle_ux_of(a, b, c);
    let uy = circle_uy_of(a, b, c);
    (p.x * den - ux) * (p.x * den - ux) + (p.y * den - uy) * (p.y * den - uy) < circum_rsq(
        a,
        den,
        ux,
        uy,
    )
}

/// Decides the Delaunay property of a triangulation over exact integers:
/// true exactly when no point of `points` lies strictly inside the
/// circumcircle of any triple of `triples`. A triangle's own vertices sit
/// on their circle, never strictly inside it, so they never object.
pub fn is_delaunay(points: &Vec<Point>, triples: &Vec<usize>) -> (r: bool)
    requires
        forall|t: int| 0 <= t < points@.len() ==> valid_point(#[trigger] points@[t]),
        triples@.len() % 3 == 0,
        forall|t: int| 0 <= t < triples@.len() ==> (#[trigger] triples@[t]) < points@.len(),
        forall|q: int| 0 <= q < triples@.len() / 3 ==> triple_nondegenerate(points@, triples@, q),
    ensures
        r <==> forall|q: int, m: int|
            #![trigger triples@[3 * q], points@[m]]
            0 <= q < triples@.len() / 3 && 0 <= m < points@.len() ==> !in_circumcircle(
                points@[triples@[3 * q] as int],
                points@[triples@[3 * q + 1] as int],
                points@[triples@[3 * q + 2] as int],
                points@[m],
            ),
{
    let n_triples = triples.len() / 3;
    proof {
        assert(3 * (n_triples as int) == triples@.len());
    }
    let mut q: usize = 0;
    while q < n_triples
        invariant
            forall|t: int| 0 <= t < points@.len() ==> valid_point(#[trigger] points@[t]),
            triples@.len() <= usize::MAX,
            triples@.len() % 3 == 0,
            3 * n_triples == triples@.len(),
            forall|t: int| 0 <= t < triples@.len() ==> (#[trigger] triples@[t]) < points@.len(),
            forall|u: int|
                0 <= u < triples@.len() / 3 ==> triple_nondegenerate(points@, triples@, u),
            0 <= q <= n_triples,
            forall|u: int, m: int|
                #![trigger triples@[3 * u], points@[m]]
                0 <= u < q && 0 <= m < points@.len() ==> !in_circumcircle(
                    points@[triples@[3 * u] as int],
                    points@[triples@[3 * u + 1] as int],
                    points@[triples@[3 * u + 2] as int],
                    points@[m],
                ),
        decreases n_triples - q,
    {
        let a = triples[3 * q];
        let b = triples[3 * q + 1];
        let c = triples[3 * q + 2];
        proof {
            assert(triple_nondegenerate(points@, triples@, q as int));
            assert forall|t: int| 0 <= t < points@.len() implies work_point(
                #[trigger] points@[t],
            ) by {}
        }
        let cand = match circumcircle(points, a, b, c) {
            Some(cand) => cand,
            None => {
                proof {
                    assert(false);
                }
                return false;
            },
        };

        let mut m: usize = 0;
        while m < points.len()
            invariant
                forall|t: int| 0 <= t < points@.len() ==> valid_point(#[trigger] points@[t]),
                a < points@.len(),
                b < points@.len(),
                c < points@.len(),
                0 <= m <= points@.len(),
                triples@.len() % 3 == 0,
                3 * n_triples == triples@.len(),
                q < n_triples,
                a == triples@[3 * q],
                b == triples@[3 * q + 1],
                c == triples@[3 * q + 2],
                candidate_wf(cand, points@.len() as nat),
                cand.den == circle_den_of(points@[a as int], points@[b as int], points@[c as int]),
                cand.ux == circle_ux_of(points@[a as int], points@[b as int], points@[c as int]),
                cand.uy == circle_uy_of(points@[a as int], points@[b as int], points@[c as int]),
                cand.rsq == circum_rsq(
                    points@[a as int],
                    cand.den as int,
                    cand.ux as int,
                    cand.uy as int,
                ),
                forall|mm: int|
                    0 <= mm < m ==> !in_circumcircle(
                        points@[a as int],
                        points@[b as int],
                        points@[c as int],
                        points@[mm],
                    ),
            decreases points@.len() - m,
        {
            let p = points[m];
            proof {
                lemma_mul_bound(p.x as int, cand.den as int, 524288, 4398046511104);
                lemma_mul_bound(p.y as int, cand.den as int, 524288, 4398046511104);
            }
            let dx_num: i128 = p.x as i128 * cand.den - cand.ux;
            let dy_num: i128 = p.y as i128 * cand.den - cand.uy;
            proof {
                lemma_mul_bound(
                    dx_num as int,
                    dx_num as int,
                    4035225266123964416,
                    4035225266123964416,
                );
                lemma_mul_bound(
                    dy_num as int,
                    dy_num as int,
                    4035225266123964416,
                    4035225266123964416,
                );
            }
            if dx_num * dx_num + dy_num * dy_num < cand.rsq {
                proof {
                    assert(in_circumcircle(
                        points@[a as int],
                        points@[b as int],
                        points@[c as int],
                        points@[m as int],
                    ));
                    assert(0 <= q < triples@.len() / 3 && 0 <= m < points@.len()
                        && in_circumcircle(
                        points@[triples@[3 * (q as int)] as int],
                        points@[triples@[3 * (q as int) + 1] as int],
                        points@[triples@[3 * (q as int) + 2] as int],
                        points@[m as int],
                    ));
                }
                return false;
            }
            m = m + 1;
        }
        q = q + 1;
    }
    true
}

} // verus!
