use athenian::point::Point;
use athenian::transform2d::Transform2D;
use athenian::GeometryError;

/// Scale for rational sine/cosine approximations used in tests.
const DEN: i64 = 1_000_000;

fn rational_angle(theta: f64) -> (i64, i64, i64) {
    let c = (theta.cos() * DEN as f64).round() as i64;
    let s = (theta.sin() * DEN as f64).round() as i64;
    (c, s, DEN)
}

#[test]
fn inverse_round_trip_exact_pythagorean() {
    // cos = 3/5, sin = 4/5 is an exact rational rotation.
    let t = Transform2D::rotation(3, 4, 5);
    let inv = t.inverse().unwrap();
    let round = inv.multiply(&t);
    // The composite is a scaled identity, so application is exact.
    assert_eq!(round.apply(100, 50), (100, 50));
    assert_eq!(round.apply(-70_000, 99_999), (-70_000, 99_999));
}

#[test]
fn inverse_round_trip_general() {
    // A shear composed with a translation; inverse recovers points
    // exactly through the composite.
    let t = Transform2D::shear(3, 7, 10).multiply(&Transform2D::translation(25, -14));
    let inv = t.inverse().unwrap();
    let round = inv.multiply(&t);
    assert_eq!(round.apply(123, -456), (123, -456));
}

#[test]
fn inverse_of_singular_transform_fails() {
    let t = Transform2D::scaling(0, 5, 10);
    assert_eq!(t.inverse(), Err(GeometryError::SingularTransform));
    // Collapsing everything to a line is singular too.
    let line = Transform2D {
        a: 1,
        b: 1,
        c: 0,
        d: 2,
        e: 2,
        f: 0,
        w: 1,
    };
    assert_eq!(line.inverse(), Err(GeometryError::SingularTransform));
}

#[test]
fn compose_identity_left_and_right() {
    let t = Transform2D::rotation(3, 4, 5)
        .multiply(&Transform2D::translation(17, -9))
        .multiply(&Transform2D::scaling(7, 3, 2));
    let id = Transform2D::identity();
    assert_eq!(t.multiply(&id), t);
    assert_eq!(id.multiply(&t), t);
}

#[test]
fn compose_associativity() {
    let a = Transform2D::rotation(3, 4, 5);
    let b = Transform2D::translation(11, -3);
    let c = Transform2D::scaling(2, 3, 4);
    assert_eq!(a.multiply(&b).multiply(&c), a.multiply(&b.multiply(&c)));
    let d = Transform2D::shear(1, 2, 3);
    assert_eq!(c.multiply(&d).multiply(&a), c.multiply(&d.multiply(&a)));
}

#[test]
fn composition_is_not_commutative() {
    let a = Transform2D::rotation(3, 4, 5);
    let b = Transform2D::translation(10, 0);
    assert_ne!(a.multiply(&b), b.multiply(&a));
}

#[test]
fn rotation_round_trip_exact() {
    // With an exact cosine-sine pair, rotating about a center and back
    // returns every point exactly.
    let fwd = Transform2D::rotation_around_point(3, 4, 5, 200, -300);
    let back = Transform2D::rotation_around_point(3, -4, 5, 200, -300);
    let round = back.multiply(&fwd);
    let p = Point { x: 12_345, y: -6_789 };
    assert_eq!(round.apply_to_pos(p), Some(p));
}

#[test]
fn rotation_round_trip_standard_angles() {
    let pi = std::f64::consts::PI;
    for theta in [0.0, pi / 4.0, pi / 2.0, pi, 3.0 * pi / 2.0] {
        let (c, s, den) = rational_angle(theta);
        let fwd = Transform2D::rotation_around_point(c, s, den, 500, 700);
        let back = Transform2D::rotation_around_point(c, -s, den, 500, 700);
        let p = Point { x: 20_000, y: -15_000 };
        let q = fwd.apply_to_pos(p).unwrap();
        let r = back.apply_to_pos(q).unwrap();
        // One unit of rounding per application plus the angle
        // approximation: comfortably within a few grid units.
        assert!((r.x - p.x).abs() <= 3, "x drifted: {} vs {}", r.x, p.x);
        assert!((r.y - p.y).abs() <= 3, "y drifted: {} vs {}", r.y, p.y);
    }
}

#[test]
fn apply_matches_affine_formula() {
    // (x, y) -> (2x + 3, -y + 1), coefficients over denominator 1.
    let t = Transform2D {
        a: 2,
        b: 0,
        c: 3,
        d: 0,
        e: -1,
        f: 1,
        w: 1,
    };
    assert_eq!(t.apply(10, 4), (23, -3));
    // Rational coefficients round to nearest, halves away from zero.
    let half = Transform2D::uniform_scaling(1, 2);
    assert_eq!(half.apply(5, -5), (3, -3));
    assert_eq!(half.apply(4, -4), (2, -2));
}

#[test]
fn apply_to_pos_rejects_out_of_range_images() {
    let t = Transform2D::translation(150_000, 0);
    let p = Point { x: 0, y: 0 };
    assert_eq!(t.apply_to_pos(p), None);
    let ok = Transform2D::translation(50_000, 0);
    assert_eq!(ok.apply_to_pos(p), Some(Point { x: 50_000, y: 0 }));
}

#[test]
fn determinant_and_is_identity() {
    let t = Transform2D::scaling(3, 4, 1);
    assert_eq!(t.determinant(), 12);
    let id = Transform2D::identity();
    assert!(id.is_identity(1, 1_000_000));
    // A rotation by a small angle is within a loose tolerance of the
    // identity but not within a tight one.
    let near = Transform2D::rotation(999_999, 1_414, 1_000_000);
    assert!(near.is_identity(1, 100)); // tolerance 1/100
    assert!(!near.is_identity(1, 1_000_000)); // tolerance 1e-6
}

#[test]
fn reflections_and_default() {
    let rx = Transform2D::reflection_x();
    assert_eq!(rx.apply(7, 9), (7, -9));
    let ry = Transform2D::reflection_y();
    assert_eq!(ry.apply(7, 9), (-7, 9));
    assert_eq!(Transform2D::default(), Transform2D::identity());
}

#[test]
fn scaling_around_point_fixes_center() {
    let t = Transform2D::scaling_around_point(3, 3, 1, 100, 200);
    assert_eq!(t.apply(100, 200), (100, 200));
    assert_eq!(t.apply(101, 200), (103, 200));
    let u = Transform2D::uniform_scaling_around_pos(2, 1, Point { x: -50, y: -50 });
    assert_eq!(u.apply(-50, -50), (-50, -50));
    assert_eq!(u.apply(0, 0), (50, 50));
}
