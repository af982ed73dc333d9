use delaunay_bvh::point::Point;
use delaunay_bvh::delaunay::{is_delaunay, remove_duplicates, triangulate};

fn tri_points(points: &[(i64, i64)]) -> Vec<Point> {
    points.iter().map(|&(x, y)| Point::new(x, y)).collect()
}

/// Doubled signed area of the triangle with the given vertex indices.
fn doubled_area(points: &[(i64, i64)], a: usize, b: usize, c: usize) -> i64 {
    let (ax, ay) = points[a];
    let (bx, by) = points[b];
    let (cx, cy) = points[c];
    (bx - ax) * (cy - ay) - (by - ay) * (cx - ax)
}

#[test]
fn fewer_than_three_points_yield_empty() {
    assert_eq!(triangulate(&tri_points(&[])).len(), 0);
    assert_eq!(triangulate(&tri_points(&[(1, 2)])).len(), 0);
    assert_eq!(triangulate(&tri_points(&[(1, 2), (3, 4)])).len(), 0);
}

#[test]
fn collinear_points_yield_empty() {
    let r = triangulate(&tri_points(&[(0, 0), (1, 1), (2, 2)]));
    assert_eq!(r.len(), 0);
}

#[test]
fn coincident_points_yield_empty() {
    let r = triangulate(&tri_points(&[(5, 5), (5, 5), (5, 5), (5, 5)]));
    assert_eq!(r.len(), 0);
}

#[test]
fn unit_square_two_triangles_tile_square() {
    let pts = [(-1, -1), (1, -1), (1, 1), (-1, 1)];
    let r = triangulate(&tri_points(&pts));
    assert_eq!(r.len() % 3, 0);
    assert_eq!(r.len(), 6, "a square splits into exactly two triangles");
    for &ix in &r {
        assert!(ix < 4);
    }
    // The two triangles tile the square: total unsigned area equals the
    // square's, and each triangle is non-degenerate.
    let mut total = 0i64;
    for t in r.chunks(3) {
        let a2 = doubled_area(&pts, t[0], t[1], t[2]).abs();
        assert!(a2 > 0);
        total += a2;
    }
    assert_eq!(total, 8, "doubled area of the unit square");
}

#[test]
fn emitted_indices_always_reference_input_points() {
    let pts = [
        (0, 0),
        (100, 13),
        (57, 200),
        (-40, 89),
        (-120, -40),
        (33, -77),
        (10, 10),
        (-5, 42),
    ];
    let r = triangulate(&tri_points(&pts));
    assert_eq!(r.len() % 3, 0);
    assert!(!r.is_empty());
    for &ix in &r {
        assert!(ix < pts.len());
    }
}

#[test]
fn delaunay_no_point_strictly_inside_circumcircle() {
    let pts = [
        (0, 0),
        (100, 13),
        (57, 200),
        (-40, 89),
        (-120, -40),
        (33, -77),
        (10, 10),
        (-5, 42),
    ];
    let r = triangulate(&tri_points(&pts));
    assert!(!r.is_empty());
    for t in r.chunks(3) {
        let (x1, y1) = (pts[t[0]].0 as f64, pts[t[0]].1 as f64);
        let (x2, y2) = (pts[t[1]].0 as f64, pts[t[1]].1 as f64);
        let (x3, y3) = (pts[t[2]].0 as f64, pts[t[2]].1 as f64);
        let d = 2.0 * (x1 * (y2 - y3) + x2 * (y3 - y1) + x3 * (y1 - y2));
        assert!(d.abs() > 1e-9, "output triangles are non-degenerate");
        let ux = ((x1 * x1 + y1 * y1) * (y2 - y3)
            + (x2 * x2 + y2 * y2) * (y3 - y1)
            + (x3 * x3 + y3 * y3) * (y1 - y2))
            / d;
        let uy = ((x1 * x1 + y1 * y1) * (x3 - x2)
            + (x2 * x2 + y2 * y2) * (x1 - x3)
            + (x3 * x3 + y3 * y3) * (x2 - x1))
            / d;
        let r_sq = (x1 - ux) * (x1 - ux) + (y1 - uy) * (y1 - uy);
        for (i, &(px, py)) in pts.iter().enumerate() {
            if i == t[0] || i == t[1] || i == t[2] {
                continue;
            }
            let dist_sq =
                (px as f64 - ux) * (px as f64 - ux) + (py as f64 - uy) * (py as f64 - uy);
            assert!(
                dist_sq >= r_sq - 1e-6,
                "point {} strictly inside circumcircle of {:?}",
                i,
                t
            );
        }
    }
}

#[test]
fn triangulation_passes_exact_delaunay_check() {
    // The verified checker decides the circumcircle property over exact
    // integers; the triangulation of each input must satisfy it.
    let inputs: [&[(i64, i64)]; 3] = [
        &[(-1, -1), (1, -1), (1, 1), (-1, 1)],
        &[(-2, -2), (2, -2), (2, 2), (-2, 2), (0, 0)],
        &[
            (0, 0),
            (100, 13),
            (57, 200),
            (-40, 89),
            (-120, -40),
            (33, -77),
            (10, 10),
            (-5, 42),
        ],
    ];
    for pts in inputs {
        let points = tri_points(pts);
        let r = triangulate(&points);
        assert!(!r.is_empty());
        assert!(is_delaunay(&points, &r));
    }
}

#[test]
fn convex_hull_is_tiled_without_gaps() {
    // Square plus its center: the triangles must tile the square, so the
    // unsigned triangle areas add up to the hull's area.
    let pts = [(-2, -2), (2, -2), (2, 2), (-2, 2), (0, 0)];
    let r = triangulate(&tri_points(&pts));
    assert!(!r.is_empty());
    let mut total = 0i64;
    for t in r.chunks(3) {
        let a2 = doubled_area(&pts, t[0], t[1], t[2]).abs();
        assert!(a2 > 0);
        total += a2;
    }
    assert_eq!(total, 32, "doubled area of the 4 x 4 square hull");
}

#[test]
fn extreme_coordinates_stay_exact() {
    // Corners at the supported coordinate limit: the arithmetic must stay
    // exact at full range.
    let pts = [
        (-10000, -10000),
        (10000, -10000),
        (10000, 10000),
        (-10000, 10000),
    ];
    let r = triangulate(&tri_points(&pts));
    assert_eq!(r.len(), 6);
    let mut total = 0i64;
    for t in r.chunks(3) {
        total += doubled_area(&pts, t[0], t[1], t[2]).abs();
    }
    assert_eq!(total, 800_000_000, "doubled area of the full-range square");
}

#[test]
fn duplicate_points_are_tolerated() {
    let pts = [(-1, -1), (1, -1), (1, 1), (-1, 1), (1, 1)];
    let r = triangulate(&tri_points(&pts));
    assert_eq!(r.len() % 3, 0);
    for &ix in &r {
        assert!(ix < pts.len());
    }
}

#[test]
fn remove_duplicates_drops_edges_seen_twice() {
    // (0,1) occurs again as (1,0): both copies vanish, the rest survive.
    let mut edges: Vec<usize> = vec![0, 1, 1, 2, 2, 0, 1, 0];
    remove_duplicates(&mut edges);
    assert_eq!(edges, vec![1, 2, 2, 0]);
}

#[test]
fn remove_duplicates_keeps_unique_edges() {
    let mut edges: Vec<usize> = vec![3, 4, 5, 6];
    remove_duplicates(&mut edges);
    assert_eq!(edges, vec![3, 4, 5, 6]);

    let mut all_dup: Vec<usize> = vec![7, 8, 8, 7, 1, 2, 2, 1];
    remove_duplicates(&mut all_dup);
    assert!(all_dup.is_empty());
}

#[test]
fn remove_duplicates_cancels_in_pairs() {
    // Three copies of one edge: two cancel, the earliest survives.
    let mut edges: Vec<usize> = vec![0, 1, 0, 1, 0, 1];
    remove_duplicates(&mut edges);
    assert_eq!(edges, vec![0, 1]);

    // The same with mixed vertex order and another edge in between.
    let mut mixed: Vec<usize> = vec![0, 1, 2, 3, 1, 0, 0, 1];
    remove_duplicates(&mut mixed);
    assert_eq!(mixed, vec![0, 1, 2, 3]);
}
