use planar_geometry::circle::{circle_through, point_in_circle};
use planar_geometry::error::GeometryError;
use planar_geometry::line::{Line2d, PseudoAngle, Slope};
use planar_geometry::point::{Point2d, Point3d, RatPoint};

fn p(x: i64, y: i64) -> Point2d {
    Point2d { x, y }
}

fn rat_to_f64(q: RatPoint) -> (f64, f64) {
    (q.x as f64 / q.w as f64, q.y as f64 / q.w as f64)
}

fn angle_value(a: PseudoAngle) -> f64 {
    a.num as f64 / a.den as f64
}

#[test]
fn circle_through_unit_circle() {
    let c = circle_through(p(1, 0), p(0, 1), p(-1, 0)).unwrap();
    let (cx, cy) = rat_to_f64(c.center);
    assert!(cx.abs() < 1e-9);
    assert!(cy.abs() < 1e-9);
    let w = c.center.w as f64;
    let r = (c.r2 as f64).sqrt() / w;
    assert!((r - 1.0).abs() < 1e-9);
}

#[test]
fn circle_through_is_equidistant() {
    let triples = [
        (p(3, 7), p(-20, 5), p(11, -13)),
        (p(0, 0), p(64, 0), p(0, 64)),
        (p(-2048, 2048), p(2048, -2048), p(2048, 2048)),
        (p(5, 1), p(-3, 9), p(100, 77)),
    ];
    for (a, b, c) in triples {
        let circle = circle_through(a, b, c).unwrap();
        let (cx, cy) = rat_to_f64(circle.center);
        let r = (circle.r2 as f64).sqrt() / circle.center.w as f64;
        for q in [a, b, c] {
            let d = ((q.x as f64 - cx).powi(2) + (q.y as f64 - cy).powi(2)).sqrt();
            assert!((d - r).abs() < 1e-9 * r.max(1.0));
        }
    }
}

#[test]
fn circle_through_collinear_is_degenerate() {
    let r = circle_through(p(0, 0), p(1, 1), p(5, 5));
    assert_eq!(r, Err(GeometryError::DegenerateGeometry));
}

#[test]
fn point_in_circle_is_strict() {
    let c = circle_through(p(1, 0), p(0, 1), p(-1, 0)).unwrap();
    assert!(point_in_circle(p(0, 0), &c));
    assert!(!point_in_circle(p(0, -1), &c));
    assert!(!point_in_circle(p(2, 0), &c));
}

#[test]
fn bisector_crosses_at_midpoint() {
    let lines = [
        Line2d { src: p(0, 0), dst: p(10, 4) },
        Line2d { src: p(3, 3), dst: p(3, 9) },
        Line2d { src: p(-7, 2), dst: p(5, 2) },
        Line2d { src: p(2047, -2048), dst: p(-2048, 2047) },
    ];
    for l in lines {
        let m = l.midpoint();
        let q = l.line_eq().intersection(&l.perpendicular_bisector()).unwrap();
        assert_eq!(q.x * m.w, m.x * q.w);
        assert_eq!(q.y * m.w, m.y * q.w);
        let (qx, qy) = rat_to_f64(q);
        let (mx, my) = rat_to_f64(m);
        assert!((qx - mx).abs() < 1e-9 && (qy - my).abs() < 1e-9);
    }
}

#[test]
fn midpoint_and_length() {
    let l = Line2d { src: p(1, 2), dst: p(4, 6) };
    assert_eq!(l.midpoint(), RatPoint { x: 5, y: 8, w: 2 });
    assert_eq!(l.length_squared(), 25);
}

#[test]
fn intersection_of_crossing_segments() {
    let a = Line2d { src: p(0, 0), dst: p(4, 4) };
    let b = Line2d { src: p(0, 4), dst: p(4, 0) };
    let q = a.intersection(&b).unwrap();
    assert_eq!(rat_to_f64(q), (2.0, 2.0));
}

#[test]
fn intersection_of_parallel_segments_is_none() {
    let a = Line2d { src: p(0, 0), dst: p(4, 4) };
    let b = Line2d { src: p(0, 1), dst: p(4, 5) };
    assert_eq!(a.intersection(&b), None);
    assert_eq!(a.intersection(&a), None);
}

#[test]
fn angles_increase_counterclockwise() {
    let o = p(0, 0);
    let dirs = [p(5, 0), p(5, 5), p(0, 5), p(-5, 5), p(-5, 0), p(-5, -5), p(0, -5), p(5, -5)];
    let values: Vec<f64> =
        dirs.iter().map(|&d| angle_value(Line2d { src: o, dst: d }.angle())).collect();
    assert_eq!(values, vec![0.0, 0.5, 1.0, 1.5, 2.0, 2.5, 3.0, 3.5]);
}

#[test]
fn angle_between_wraps_around() {
    let o = p(0, 0);
    let east = Line2d { src: o, dst: p(1, 0) };
    let north = Line2d { src: o, dst: p(0, 1) };
    assert_eq!(angle_value(east.angle_between(&north)), 1.0);
    assert_eq!(angle_value(north.angle_between(&east)), 3.0);
    assert_eq!(angle_value(east.angle_between(&east)), 0.0);
    let a = east.angle_between(&north);
    let b = north.angle_between(&east);
    assert!(a.less_than(&b));
    assert!(!b.less_than(&a));
}

#[test]
fn squared_distances() {
    assert_eq!(p(0, 0).distance_squared_to(&p(3, 4)), 25);
    assert_eq!(p(-3, 4).magnitude_squared(), 25);
    let a = Point3d { x: 1, y: 2, z: 3 };
    let b = Point3d { x: 4, y: 6, z: 15 };
    assert_eq!(a.distance_squared_to(&b), 9 + 16 + 144);
    assert_eq!(a.magnitude_squared(), 14);
}

#[test]
fn slopes_and_vertical_lines() {
    let l = Line2d { src: p(1, 1), dst: p(5, 3) };
    assert_eq!(l.slope(), Slope::Finite { rise: 2, run: 4 });
    assert_eq!(l.orthogonal_slope(), Slope::Finite { rise: -4, run: 2 });
    let back = Line2d { src: p(5, 3), dst: p(1, 1) };
    assert_eq!(back.slope(), Slope::Finite { rise: 2, run: 4 });
    let vertical = Line2d { src: p(2, 0), dst: p(2, 9) };
    assert_eq!(vertical.slope(), Slope::Vertical);
    assert_eq!(vertical.orthogonal_slope(), Slope::Finite { rise: 0, run: 9 });
    let horizontal = Line2d { src: p(0, 4), dst: p(-3, 4) };
    assert_eq!(horizontal.slope(), Slope::Finite { rise: 0, run: 3 });
    assert_eq!(horizontal.orthogonal_slope(), Slope::Vertical);
}
