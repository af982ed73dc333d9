use delaunay_bvh::bvh::{BVHNode, Triangle};
use delaunay_bvh::delaunay::triangulate;
use delaunay_bvh::point::Point;

fn triangle(a: (i64, i64), b: (i64, i64), c: (i64, i64)) -> Triangle {
    Triangle::new(
        Point::new(a.0, a.1),
        Point::new(b.0, b.1),
        Point::new(c.0, c.1),
    )
}

#[test]
fn triangle_derived_fields_are_exact() {
    let t = triangle((0, 0), (10, 0), (0, 10));
    assert_eq!(t.aabb.x_min, 0);
    assert_eq!(t.aabb.y_min, 0);
    assert_eq!(t.aabb.x_max, 10);
    assert_eq!(t.aabb.y_max, 10);
    // The center holds the vertex sum: three times the centroid.
    assert_eq!(t.center.x, 10);
    assert_eq!(t.center.y, 10);
}

#[test]
fn single_triangle_sample_inside_and_outside() {
    let t = triangle((0, 0), (10, 0), (0, 10));
    let bvh = BVHNode::new(vec![t]);
    let hit = bvh.sample(&Point::new(1, 1));
    assert_eq!(hit, Some(t));
    assert_eq!(bvh.sample(&Point::new(-1, -1)), None);
}

#[test]
fn sample_result_aabb_always_contains_query_point() {
    let t1 = triangle((0, 0), (10, 0), (0, 10));
    let t2 = triangle((10, 10), (20, 10), (10, 20));
    let t3 = triangle((-10, -10), (-2, -10), (-10, -2));
    let bvh = BVHNode::new(vec![t1, t2, t3]);
    for x in -12..22 {
        for y in -12..22 {
            let p = Point::new(x, y);
            if let Some(t) = bvh.sample(&p) {
                assert!(t.aabb.x_min <= x && x <= t.aabb.x_max);
                assert!(t.aabb.y_min <= y && y <= t.aabb.y_max);
            }
        }
    }
}

#[test]
fn sample_finds_strictly_interior_points() {
    let t1 = triangle((0, 0), (10, 0), (0, 10));
    let t2 = triangle((30, 30), (40, 30), (30, 40));
    let bvh = BVHNode::new(vec![t1, t2]);
    assert_eq!(bvh.sample(&Point::new(2, 2)), Some(t1));
    assert_eq!(bvh.sample(&Point::new(32, 32)), Some(t2));
    assert_eq!(bvh.sample(&Point::new(20, 20)), None);
}

#[test]
fn sample_is_independent_of_build_order() {
    let ts = [
        triangle((0, 0), (10, 0), (0, 10)),
        triangle((10, 10), (20, 10), (10, 20)),
        triangle((-10, -10), (-2, -10), (-10, -2)),
        triangle((5, -10), (15, -10), (5, -2)),
    ];
    let forward = BVHNode::new(ts.to_vec());
    let backward = BVHNode::new(ts.iter().rev().cloned().collect());
    for x in -12..22 {
        for y in -12..22 {
            let p = Point::new(x, y);
            assert_eq!(forward.sample(&p), backward.sample(&p));
        }
    }
}

#[test]
fn overlapping_triangles_closest_centroid_wins() {
    let small = triangle((0, 0), (10, 0), (0, 10));
    let large = triangle((0, 0), (100, 0), (0, 100));
    // (1, 1) lies strictly inside both; the small triangle's centroid is
    // far closer, so the documented tie-break picks it, in either order.
    let one = BVHNode::new(vec![small, large]);
    let other = BVHNode::new(vec![large, small]);
    assert_eq!(one.sample(&Point::new(1, 1)), Some(small));
    assert_eq!(other.sample(&Point::new(1, 1)), Some(small));
}

#[test]
fn square_triangulation_samples_inside_and_outside() {
    let pts: Vec<Point> = [(-1, -1), (1, -1), (1, 1), (-1, 1)]
        .iter()
        .map(|&(x, y)| Point::new(x, y))
        .collect();
    let idx = triangulate(&pts);
    assert_eq!(idx.len(), 6);
    let triangles: Vec<Triangle> = idx
        .chunks(3)
        .map(|t| Triangle::new(pts[t[0]], pts[t[1]], pts[t[2]]))
        .collect();
    let bvh = BVHNode::new(triangles);
    assert!(bvh.sample(&Point::new(0, 0)).is_some());
    assert_eq!(bvh.sample(&Point::new(5, 5)), None);
}
