use athenian::point::Point;
use athenian::triangulation::{
    init_triangulation, run_to_completion, Edge, Polygon, TriangulationState,
};
use athenian::GeometryError;

fn state_of(coords: &[(i64, i64)]) -> TriangulationState {
    let mut s = TriangulationState::new();
    for &(x, y) in coords {
        s.add_point(Point { x, y });
    }
    s
}

fn triangle_set(s: &TriangulationState) -> Vec<(usize, usize, usize)> {
    let mut v: Vec<(usize, usize, usize)> =
        s.triangles().iter().map(|t| (t.a, t.b, t.c)).collect();
    v.sort();
    v
}

#[test]
fn edge_is_canonical() {
    assert_eq!(Edge::new(3, 7), Edge::new(7, 3));
    let e = Edge::new(7, 3);
    assert_eq!((e.0, e.1), (3, 7));
}

#[test]
fn from_poses_sorts_indices() {
    let t = Polygon::from_poses([9, 2, 5]);
    assert_eq!((t.a, t.b, t.c), (2, 5, 9));
    assert_eq!(Polygon::from_poses([1, 2, 3]), Polygon::from_poses([3, 1, 2]));
}

#[test]
fn init_requires_three_points() {
    let mut s = state_of(&[(0, 0), (1000, 0)]);
    assert_eq!(init_triangulation(&mut s), Err(GeometryError::InsufficientPoints));
    assert!(!s.is_triangulation_initialized());
    s.add_point(Point { x: 0, y: 1000 });
    assert_eq!(init_triangulation(&mut s), Ok(()));
    assert!(s.is_triangulation_initialized());
    assert!(!s.is_triangulation_completed());
    assert_eq!(s.alive_edges().len(), 1);
}

#[test]
fn triangle_of_three_points() {
    let mut s = state_of(&[(0, 0), (1000, 0), (0, 1000)]);
    init_triangulation(&mut s).unwrap();
    run_to_completion(&mut s);
    assert!(s.is_triangulation_completed());
    assert_eq!(s.triangles().len(), 1);
    assert_eq!(triangle_set(&s), vec![(0, 1, 2)]);
    assert!(s.alive_edges().is_empty());
    // Exactly the three hull edges, all dead.
    let mut dead: Vec<(usize, usize)> = s.dead_edges().iter().map(|e| (e.0, e.1)).collect();
    dead.sort();
    assert_eq!(dead, vec![(0, 1), (0, 2), (1, 2)]);
}

#[test]
fn two_triangles_of_convex_quad() {
    let mut s = state_of(&[(0, 0), (1000, 0), (1000, 1000), (0, 1000)]);
    init_triangulation(&mut s).unwrap();
    run_to_completion(&mut s);
    assert!(s.is_triangulation_completed());
    assert_eq!(s.triangles().len(), 2);
    assert!(s.alive_edges().is_empty());
    assert!(!s.dead_edges().is_empty());
}

#[test]
fn stepping_matches_run_to_completion() {
    let mut s = state_of(&[(0, 0), (1000, 0), (1000, 1000), (0, 1000), (500, 500)]);
    init_triangulation(&mut s).unwrap();
    let mut steps = 0;
    while TriangulationState::step_triangulation(&mut s) {
        steps += 1;
        assert!(steps < 1000, "triangulation failed to terminate");
    }
    assert!(s.is_triangulation_completed());

    let mut s2 = state_of(&[(0, 0), (1000, 0), (1000, 1000), (0, 1000), (500, 500)]);
    init_triangulation(&mut s2).unwrap();
    run_to_completion(&mut s2);
    assert_eq!(triangle_set(&s), triangle_set(&s2));
}

#[test]
fn every_triangle_edge_ends_up_dead() {
    let mut s = state_of(&[
        (0, 0),
        (2000, 100),
        (1700, 1900),
        (100, 1500),
        (900, 800),
        (1500, 600),
    ]);
    init_triangulation(&mut s).unwrap();
    run_to_completion(&mut s);
    assert!(s.alive_edges().is_empty());
    let dead: Vec<(usize, usize)> = s.dead_edges().iter().map(|e| (e.0, e.1)).collect();
    for t in s.triangles().iter() {
        assert!(dead.contains(&(t.a, t.b)));
        assert!(dead.contains(&(t.a, t.c)));
        assert!(dead.contains(&(t.b, t.c)));
    }
    // No edge is recorded twice, and none is in both lists.
    let mut sorted = dead.clone();
    sorted.sort();
    sorted.dedup();
    assert_eq!(sorted.len(), dead.len());
}

#[test]
fn emitted_triangle_set_is_reproducible() {
    let coords = [(0, 0), (2000, 100), (1700, 1900), (100, 1500), (900, 800)];
    let mut s1 = state_of(&coords);
    init_triangulation(&mut s1).unwrap();
    run_to_completion(&mut s1);
    let mut s2 = state_of(&coords);
    init_triangulation(&mut s2).unwrap();
    run_to_completion(&mut s2);
    assert_eq!(triangle_set(&s1), triangle_set(&s2));
    assert!(!triangle_set(&s1).is_empty());
}

#[test]
fn step_on_completed_state_is_a_no_op() {
    let mut s = state_of(&[(0, 0), (1000, 0), (0, 1000)]);
    init_triangulation(&mut s).unwrap();
    run_to_completion(&mut s);
    let before = triangle_set(&s);
    let dead_before = s.dead_edges().len();
    assert!(!TriangulationState::step_triangulation(&mut s));
    assert_eq!(triangle_set(&s), before);
    assert_eq!(s.dead_edges().len(), dead_before);
}

#[test]
fn circumcenter_of_right_triangle() {
    // The circumcenter of a right triangle is the hypotenuse midpoint.
    let h = TriangulationState::calculate_center(
        Point { x: 0, y: 0 },
        Point { x: 1000, y: 0 },
        Point { x: 0, y: 1000 },
    )
    .unwrap();
    // Homogeneous (x, y, w) denotes (x/w, y/w).
    assert_eq!(h.x as i128 * 2, 1000 * h.w as i128);
    assert_eq!(h.y as i128 * 2, 1000 * h.w as i128);
}

#[test]
fn collinear_points_have_no_circumcenter() {
    let r = TriangulationState::calculate_center(
        Point { x: 0, y: 0 },
        Point { x: 500, y: 500 },
        Point { x: 1000, y: 1000 },
    );
    assert!(r.is_none());
}

#[test]
fn initialized_and_completed_flags() {
    let mut s = state_of(&[(0, 0), (1000, 0), (0, 1000)]);
    assert!(!s.is_triangulation_initialized());
    assert!(!s.is_triangulation_completed());
    init_triangulation(&mut s).unwrap();
    assert!(s.is_triangulation_initialized());
    run_to_completion(&mut s);
    assert!(s.is_triangulation_initialized());
    assert!(s.is_triangulation_completed());
}
