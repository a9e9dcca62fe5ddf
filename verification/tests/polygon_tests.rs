use athenian::point::Point;
use athenian::polygon::Polygon;
use athenian::transform2d::Transform2D;

fn polygon_of(coords: &[(i64, i64)]) -> Polygon {
    let mut p = Polygon::new(coords[0].0, coords[0].1);
    for &(x, y) in &coords[1..] {
        p.add_vertex(x, y);
    }
    p
}

#[test]
fn point_and_segment_shortcuts() {
    let mut p = Polygon::new(5, 5);
    assert!(p.is_vertex());
    assert!(!p.is_edge());
    p.add_vertex(10, 10);
    assert!(!p.is_vertex());
    assert!(p.is_edge());
}

#[test]
fn convexity_of_triangle() {
    let tri = polygon_of(&[(0, 0), (1000, 0), (0, 1000)]);
    assert!(tri.is_convex());
}

#[test]
fn self_intersecting_quad_is_not_convex_and_caches_crossing() {
    let quad = polygon_of(&[(0, 0), (1000, 1000), (1000, 0), (0, 1000)]);
    assert!(!quad.is_convex());
    let crossings = quad.intersections();
    assert!(!crossings.is_empty());
    assert!(crossings
        .iter()
        .any(|p| (p.x - 500).abs() <= 1 && (p.y - 500).abs() <= 1));
}

#[test]
fn regions_of_fewer_than_three_vertices_are_never_convex() {
    let p = Polygon::new(1, 1);
    assert!(!p.is_convex());
    let seg = polygon_of(&[(0, 0), (10, 10)]);
    assert!(!seg.is_convex());
}

#[test]
fn collinear_triples_do_not_break_convexity() {
    // A square with a midpoint inserted on one side: a collinear triple.
    let p = polygon_of(&[(0, 0), (500, 0), (1000, 0), (1000, 1000), (0, 1000)]);
    assert!(p.is_convex());
}

#[test]
fn containment_in_square() {
    let sq = polygon_of(&[(0, 0), (10, 0), (10, 10), (0, 10)]);
    assert!(sq.contains(5, 5));
    assert!(!sq.contains(15, 5));
    // The exact corner: the strict ray-cast rule counts no crossing for
    // edges whose endpoints do not rise strictly above the ray, so the
    // corner is classified outside.
    assert!(!sq.contains(10, 10));
}

#[test]
fn containment_degenerate_regions() {
    let empty_like = Polygon::new(3, 4);
    assert!(empty_like.contains(3, 4));
    assert!(!empty_like.contains(3, 5));
    let seg = polygon_of(&[(0, 0), (10, 0)]);
    assert!(seg.contains(5, 0));
    assert!(seg.contains(0, 0));
    assert!(seg.contains(10, 0));
    assert!(!seg.contains(11, 0));
    assert!(!seg.contains(5, 1));
}

#[test]
fn containment_in_concave_region() {
    // A U-shaped region: inside the arms, outside the notch.
    let u = polygon_of(&[
        (0, 0),
        (30, 0),
        (30, 30),
        (20, 30),
        (20, 10),
        (10, 10),
        (10, 30),
        (0, 30),
    ]);
    assert!(u.contains(5, 20));
    assert!(u.contains(25, 20));
    assert!(!u.contains(15, 20));
    assert!(u.contains(15, 5));
}

#[test]
fn get_center_is_vertex_mean() {
    let sq = polygon_of(&[(0, 0), (10, 0), (10, 10), (0, 10)]);
    let c = sq.get_center();
    assert_eq!((c.x, c.y), (5, 5));
    let tri = polygon_of(&[(0, 0), (10, 0), (0, 9)]);
    let c2 = tri.get_center();
    assert_eq!((c2.x, c2.y), (3, 3));
}

#[test]
fn apply_transform_maps_vertices_and_cache() {
    let mut quad = polygon_of(&[(0, 0), (1000, 1000), (1000, 0), (0, 1000)]);
    let moved = quad.apply_transform(&Transform2D::translation(100, 200));
    assert!(moved);
    let vs = quad.vertexes();
    assert_eq!((vs[0].x, vs[0].y), (100, 200));
    assert_eq!((vs[1].x, vs[1].y), (1100, 1200));
    // The cached crossing moved with the region.
    assert!(quad
        .intersections()
        .iter()
        .any(|p| (p.x - 600).abs() <= 1 && (p.y - 700).abs() <= 1));
}

#[test]
fn apply_transform_rejects_out_of_range_images_and_keeps_state() {
    let mut p = polygon_of(&[(90_000, 0), (95_000, 5_000)]);
    let before: Vec<Point> = p.vertexes().clone();
    let moved = p.apply_transform(&Transform2D::translation(50_000, 0));
    assert!(!moved);
    assert_eq!(p.vertexes().len(), before.len());
    for (a, b) in p.vertexes().iter().zip(before.iter()) {
        assert_eq!((a.x, a.y), (b.x, b.y));
    }
}

#[test]
fn rotation_preserves_shape_approximately() {
    let mut tri = polygon_of(&[(1000, 0), (2000, 0), (1000, 1000)]);
    // A quarter turn about the origin maps (x, y) to (y, -x) under the
    // engine's rotation matrix.
    let moved = tri.apply_transform(&Transform2D::rotation(0, 1, 1));
    assert!(moved);
    let vs = tri.vertexes();
    assert_eq!((vs[0].x, vs[0].y), (0, -1000));
    assert_eq!((vs[1].x, vs[1].y), (0, -2000));
    assert_eq!((vs[2].x, vs[2].y), (1000, -1000));
}

#[test]
fn arrow_direction_points_toward_reference_side() {
    let sq = polygon_of(&[(0, 0), (10, 0), (10, 10), (0, 10)]);
    // Edge 0 runs from (0,0) to (10,0); the center (5,5) is to its left,
    // so the arrow is the left-pointing normal (0, 10) direction.
    let d = sq.arrow_direction(0, Point { x: 5, y: 5 });
    assert_eq!(d, (0, 10));
    // A reference point below the edge gets the opposite normal.
    let d2 = sq.arrow_direction(0, Point { x: 5, y: -5 });
    assert_eq!(d2, (0, -10));
}

#[test]
fn is_point_left_and_right() {
    let a = Point { x: 0, y: 0 };
    let b = Point { x: 10, y: 0 };
    assert!(Polygon::is_point_left(Point { x: 5, y: 5 }, a, b));
    assert!(!Polygon::is_point_left(Point { x: 5, y: -5 }, a, b));
    assert!(Polygon::is_point_right(Point { x: 5, y: -5 }, a, b));
    // On the line counts as not-left, hence right in this pairing.
    assert!(Polygon::is_point_right(Point { x: 5, y: 0 }, a, b));
}

#[test]
fn from_pos_matches_new() {
    let p = Polygon::from_pos(Point { x: 7, y: -7 });
    assert!(p.is_vertex());
    assert!(p.contains_pos(Point { x: 7, y: -7 }));
}
