use lightpoly::geometry::Point2;
use lightpoly::polygon::{generate_convex_polygon, Polygon};

fn p(x: i64, y: i64) -> Point2 {
    Point2 { x, y }
}

fn shoelace(points: &[Point2]) -> i128 {
    let n = points.len();
    let mut acc: i128 = 0;
    for i in 0..n {
        let a = points[i];
        let b = points[(i + 1) % n];
        acc += a.x as i128 * b.y as i128 - a.y as i128 * b.x as i128;
    }
    acc
}

#[test]
fn generate_respects_count_and_radius() {
    let poly = generate_convex_polygon(8, 500, 4200, 42);
    assert_eq!(poly.points.len(), 8);
    for q in poly.points.iter() {
        let d2 = q.x * q.x + q.y * q.y;
        // Every vertex sits on one circle with radius in [min, max],
        // within the grid rounding.
        assert!(d2 >= 498 * 498, "too close: {}", d2);
        assert!(d2 <= 4202 * 4202, "too far: {}", d2);
    }
}

#[test]
fn generate_winds_clockwise() {
    // Ascending angle keys walk the circle clockwise, so the signed
    // shoelace area of a generated polygon is negative.
    for seed in 0..10u64 {
        let poly = generate_convex_polygon(12, 1000, 4000, seed);
        assert!(shoelace(&poly.points) < 0);
    }
}

#[test]
fn generate_count_is_clamped() {
    assert_eq!(generate_convex_polygon(2, 500, 4200, 1).points.len(), 3);
    assert_eq!(generate_convex_polygon(0, 500, 4200, 1).points.len(), 3);
    assert_eq!(generate_convex_polygon(100, 500, 4200, 1).points.len(), 64);
}

#[test]
fn generate_is_deterministic_in_the_seed() {
    let a = generate_convex_polygon(8, 500, 4200, 42);
    let b = generate_convex_polygon(8, 500, 4200, 42);
    assert_eq!(a.points, b.points);
    assert_eq!(a.center, b.center);
    let c = generate_convex_polygon(8, 500, 4200, 43);
    assert_ne!(a.points, c.points);
}

#[test]
fn generate_exact_vertices_for_one_seed() {
    let poly = generate_convex_polygon(8, 500, 4200, 42);
    assert_eq!(
        poly.points,
        vec![
            p(1175, -987),
            p(1072, -1097),
            p(-968, -1190),
            p(-1492, 358),
            p(-1488, 372),
            p(-1244, 898),
            p(1179, 981),
            p(1252, 886),
        ]
    );
}

#[test]
fn deconstruct_terminal_small_area() {
    // A triangle below the minimum area comes back unsplit.
    let tri = Polygon::from_points(vec![p(0, 0), p(400, 0), p(0, 400)]);
    let frags = tri.deconstruct(p(0, 0), 5, 1);
    assert_eq!(frags.len(), 1);
    assert_eq!(frags[0].points, tri.points);
    assert_eq!(frags[0].center, tri.center);
}

#[test]
fn deconstruct_terminal_triangle() {
    // A large triangle is still terminal: it has no vertex chord.
    let tri = Polygon::from_points(vec![p(0, 0), p(9000, 0), p(0, 9000)]);
    let frags = tri.deconstruct(p(0, 0), 5, 1);
    assert_eq!(frags.len(), 1);
    assert_eq!(frags[0].points, tri.points);
}

#[test]
fn deconstruct_square_conserves_area() {
    let sq = Polygon::from_points(vec![
        p(-5000, -5000),
        p(-5000, 5000),
        p(5000, 5000),
        p(5000, -5000),
    ]);
    let parent_area = shoelace(&sq.points);
    assert_eq!(parent_area, -200_000_000);
    let frags = sq.deconstruct(p(4000, 4000), 5, 7);
    assert_eq!(frags.len(), 2);
    let mut sum: i128 = 0;
    for f in frags.iter() {
        assert!(f.points.len() >= 3);
        sum += shoelace(&f.points);
    }
    assert_eq!(sum, parent_area);
}

#[test]
fn deconstruct_square_exact_fragments() {
    let sq = Polygon::from_points(vec![
        p(-5000, -5000),
        p(-5000, 5000),
        p(5000, 5000),
        p(5000, -5000),
    ]);
    // The cut anchors at the vertex nearest the impact, (5000, 5000).
    let frags = sq.deconstruct(p(4000, 4000), 5, 7);
    assert_eq!(
        frags[0].points,
        vec![p(5000, 5000), p(5000, -5000), p(-5000, -5000)]
    );
    assert_eq!(
        frags[1].points,
        vec![p(5000, 5000), p(-5000, -5000), p(-5000, 5000)]
    );
}

#[test]
fn deconstruct_octagon_conserves_area() {
    let oct = generate_convex_polygon(8, 3000, 4000, 9);
    let parent_area = shoelace(&oct.points);
    assert_eq!(parent_area, -43_380_772);
    let frags = oct.deconstruct(p(3000, 0), 5, 11);
    assert_eq!(frags.len(), 4);
    let mut sum: i128 = 0;
    for f in frags.iter() {
        assert!(f.points.len() >= 3);
        sum += shoelace(&f.points);
    }
    assert_eq!(sum, parent_area);
}

#[test]
fn deconstruct_fragment_count_stays_within_sites() {
    let oct = generate_convex_polygon(8, 3000, 4000, 9);
    for seed in 0..20u64 {
        let frags = oct.deconstruct(p(0, 0), 5, seed);
        assert!(frags.len() >= 2);
        assert!(frags.len() <= 5);
    }
}

#[test]
fn fragment_centers_are_their_centroids() {
    let sq = Polygon::from_points(vec![
        p(-5000, -5000),
        p(-5000, 5000),
        p(5000, 5000),
        p(5000, -5000),
    ]);
    assert_eq!(sq.center(), p(0, 0));
    let frags = sq.deconstruct(p(4000, 4000), 5, 7);
    for f in frags.iter() {
        let n = f.points.len() as i64;
        let sx: i64 = f.points.iter().map(|q| q.x).sum();
        let sy: i64 = f.points.iter().map(|q| q.y).sum();
        assert_eq!(f.center().x, sx.div_euclid(n));
        assert_eq!(f.center().y, sy.div_euclid(n));
    }
}
