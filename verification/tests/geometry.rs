use lightpoly::geometry::{
    eq, get_tangent, shadow_geometry, Geometry, LightningPolygon, Point2, Rotation2,
};

fn p(x: i64, y: i64) -> Point2 {
    Point2 { x, y }
}

#[test]
fn eq_within_one_tick() {
    assert!(eq(1000, 1000));
    assert!(!eq(1000, 1001));
    assert!(!eq(-5, 5));
    assert!(eq(0, 0));
}

#[test]
fn tangent_points_of_circle_on_axis() {
    // Circle of radius 1 unit at (5, 0), seen from the origin: the upper
    // tangent point comes first when the two are horizontally aligned.
    let (t1, t2) = get_tangent(p(5000, 0), 1000, p(0, 0));
    assert_eq!(t1, Some(p(4800, 980)));
    assert_eq!(t2, Some(p(4800, -980)));
    // Circle on the other side: still the upper point first.
    let (t1, t2) = get_tangent(p(-5000, 0), 1000, p(0, 0));
    assert_eq!(t1, Some(p(-4800, 980)));
    assert_eq!(t2, Some(p(-4800, -980)));
}

#[test]
fn tangent_points_lie_on_circle_and_orthogonal() {
    let c = p(5000, 0);
    let o = p(0, 0);
    let r: i64 = 1000;
    let (t1, t2) = get_tangent(c, r, o);
    for t in [t1.unwrap(), t2.unwrap()] {
        let dx = t.x - c.x;
        let dy = t.y - c.y;
        // |T - C|^2 is r^2 within the rounding tolerance.
        let dd = dx * dx + dy * dy;
        assert!((dd - r * r).abs() <= 2 * r + 1, "off circle: {}", dd - r * r);
        // (T - O) . (T - C) vanishes within the rounding tolerance.
        let dot = (t.x - o.x) * dx + (t.y - o.y) * dy;
        assert!(dot.abs() <= 3 * r, "not orthogonal: {}", dot);
    }
}

#[test]
fn tangent_degenerate_inside_and_near_boundary() {
    // Observer inside the circle.
    assert_eq!(get_tangent(p(0, 0), 1000, p(500, 0)), (None, None));
    // On the boundary.
    assert_eq!(get_tangent(p(0, 0), 1000, p(1000, 0)), (None, None));
    // Within one tick of the boundary: still degenerate.
    assert_eq!(get_tangent(p(0, 0), 1000, p(1001, 0)), (None, None));
    // Clearly outside: both tangent points exist.
    let (a, b) = get_tangent(p(0, 0), 1000, p(1002, 0));
    assert!(a.is_some() && b.is_some());
}

#[test]
fn border_points_of_rectangle() {
    // Frame 0..10 units in both axes.
    let poly = LightningPolygon::new_rectangle(0, 0, 10000, 10000, p(5000, 5000));
    assert!(poly.is_border_point(p(0, 5000)));
    assert!(poly.is_border_point(p(10000, 5000)));
    assert!(poly.is_border_point(p(5000, 0)));
    assert!(poly.is_border_point(p(5000, 10000)));
    assert!(!poly.is_border_point(p(5000, 5000)));
}

#[test]
fn fan_triangulation_counts_and_indices() {
    let mut poly = LightningPolygon::new_rectangle(-10000, -10000, 10000, 10000, p(0, 0));
    let (points, indicies) = poly.get_triangles();
    let n = 4;
    assert_eq!(points.len(), n + 1);
    assert_eq!(points[0], p(0, 0));
    assert_eq!(indicies.len(), 3 * n);
    assert_eq!(
        indicies,
        vec![0, 1, 2, 0, 2, 3, 0, 3, 4, 0, 4, 1]
    );
    for &ix in indicies.iter() {
        assert!((ix as usize) < points.len());
    }
}

#[test]
fn fan_triangulation_after_clip() {
    let mut poly = LightningPolygon::new_rectangle(-10000, -10000, 10000, 10000, p(0, 0));
    poly.clip_one(Geometry::Circle { radius: 1000 }, p(5000, 0));
    let n = poly.points.len();
    let (points, indicies) = poly.get_triangles();
    assert_eq!(points.len(), n + 1);
    assert_eq!(indicies.len(), 3 * n);
    for &ix in indicies.iter() {
        assert!((ix as usize) < points.len());
    }
}

#[test]
fn clip_cuts_notch_behind_occluder() {
    // The end-to-end scenario: a 20x20-unit frame around the origin and a
    // unit-radius occluder at (5, 0).  Four points come in, none leave.
    let mut poly = LightningPolygon::new_rectangle(-10000, -10000, 10000, 10000, p(0, 0));
    poly.clip_one(Geometry::Circle { radius: 1000 }, p(5000, 0));
    assert_eq!(
        poly.points,
        vec![
            p(-10000, -10000),
            p(-10000, 10000),
            p(10000, 10000),
            p(10000, 2042),
            p(4800, 980),
            p(4800, -980),
            p(10000, -2042),
            p(10000, -10000),
        ]
    );
}

#[test]
fn clip_composes_without_interference() {
    // Two disjoint occluders on opposite sides: each clip contributes its
    // four points, and the second leaves the first notch alone.
    let mut poly = LightningPolygon::new_rectangle(-10000, -10000, 10000, 10000, p(0, 0));
    poly.clip_one(Geometry::Circle { radius: 1000 }, p(5000, 0));
    assert_eq!(poly.points.len(), 8);
    poly.clip_one(Geometry::Circle { radius: 1000 }, p(-5000, 0));
    assert_eq!(poly.points.len(), 12);
    assert_eq!(
        poly.points,
        vec![
            p(-10000, -10000),
            p(-10000, -2042),
            p(-4800, -980),
            p(-4800, 980),
            p(-10000, 2042),
            p(-10000, 10000),
            p(10000, 10000),
            p(10000, 2042),
            p(4800, 980),
            p(4800, -980),
            p(10000, -2042),
            p(10000, -10000),
        ]
    );
}

#[test]
fn clip_is_noop_when_rays_miss() {
    // The polygon sits in the first quadrant; the occluder is behind the
    // light, so both tangent rays point away from every edge.
    let mut poly = LightningPolygon::new_rectangle(5000, 5000, 10000, 10000, p(0, 0));
    let before = poly.points.clone();
    poly.clip_one(Geometry::Circle { radius: 1000 }, p(-5000, 0));
    assert_eq!(poly.points, before);
}

#[test]
fn clip_is_noop_when_light_inside_occluder() {
    let mut poly = LightningPolygon::new_rectangle(-10000, -10000, 10000, 10000, p(0, 0));
    let before = poly.points.clone();
    poly.clip_one(Geometry::Circle { radius: 1000 }, p(200, 0));
    assert_eq!(poly.points, before);
}

#[test]
fn shadow_geometry_quad() {
    let st = shadow_geometry(
        p(0, 0),
        Geometry::Circle { radius: 1000 },
        p(5000, 0),
        Rotation2 { angle: 0 },
    )
    .unwrap();
    assert_eq!(
        st.points,
        vec![p(4800, 980), p(4800, -980), p(52800, 10780), p(52800, -10780)]
    );
    assert_eq!(st.indicies, vec![0, 2, 1, 1, 2, 3]);
}

#[test]
fn shadow_geometry_none_when_observer_inside() {
    let st = shadow_geometry(
        p(5000, 0),
        Geometry::Circle { radius: 1000 },
        p(5000, 0),
        Rotation2 { angle: 0 },
    );
    assert!(st.is_none());
}
