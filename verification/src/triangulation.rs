//! Incremental edge-expansion triangulation.
//!
//! The state owns the input points, the emitted triangles (as sorted
//! index triples into the point list), and two worklists of canonical
//! edges: `alive` edges are discovered but not yet resolved on both
//! sides, `dead` edges are fully resolved (interior edges seen from both
//! adjacent triangles, or hull boundary edges with nothing to their
//! right). Edges are keyed by point indices, never by coordinates, so
//! equality is exact.
//!
//! Duplicate input points are not deduplicated; they can produce
//! zero-area triangles or starve the circumcenter search, which then
//! skips them silently. That is a documented limitation, not an error.

use vstd::prelude::*;
use vstd::arithmetic::div_mod::lemma_small_mod;
use crate::arith::{lemma_mul_bound, lemma_mul_congr};
use crate::point::{cross3, cross_of, HPoint, Point, MAX_COORD};
use crate::polygon::all_in_range;
use crate::GeometryError;

verus! {

/// An undirected edge: an unordered pair of indices into the shared point
/// list, kept canonical (smaller index first), so equality is equality of
/// the index pair.
#[derive(Clone, Copy, Debug, PartialEq, Eq, Structural)]
pub struct Edge(pub usize, pub usize);

impl Edge {
    /// The canonical edge over the unordered pair `{a, b}`.
    pub fn new(a: usize, b: usize) -> (r: Edge)
        ensures
            r == spec_edge(a as int, b as int),
    {
        if a < b {
            Edge(a, b)
        } else {
            Edge(b, a)
        }
    }
}

/// The canonical edge over `{a, b}` as a spec value.
pub open spec fn spec_edge(a: int, b: int) -> Edge {
    if a < b {
        Edge(a as usize, b as usize)
    } else {
        Edge(b as usize, a as usize)
    }
}

/// A directed worklist edge: the triangle already known to border it (if
/// any) lies to its left, the unexplored territory to its right. Two
/// directed edges denote the same undirected edge when their canonical
/// forms agree.
#[derive(Clone, Copy, Debug, PartialEq, Eq, Structural)]
pub struct DirEdge {
    pub from: usize,
    pub to: usize,
}

/// The canonical (unordered) edge a directed edge denotes.
pub open spec fn canon(d: DirEdge) -> Edge {
    spec_edge(d.from as int, d.to as int)
}

/// A directed edge over `n` points: distinct endpoints in bounds.
pub open spec fn dir_edge_wf(d: DirEdge, n: int) -> bool {
    d.from != d.to && d.from < n && d.to < n
}

/// All directed edges well formed.
pub open spec fn dir_edges_wf(s: Seq<DirEdge>, n: int) -> bool {
    forall|i: int| #![trigger s[i]] 0 <= i < s.len() ==> dir_edge_wf(s[i], n)
}

/// The canonical edge `e` is recorded (in either direction).
pub open spec fn canon_in(s: Seq<DirEdge>, e: Edge) -> bool {
    exists|i: int| 0 <= i < s.len() && canon(s[i]) == e
}

/// No two entries denote the same undirected edge.
pub open spec fn no_dup_canon(s: Seq<DirEdge>) -> bool {
    forall|i: int, j: int| 0 <= i < j < s.len() ==> canon(s[i]) != canon(s[j])
}

/// Index of the first entry denoting `e`.
pub open spec fn first_canon(s: Seq<DirEdge>, e: Edge) -> int
    decreases s.len(),
{
    if s.len() <= 0 {
        0
    } else if canon(s[0]) == e {
        0
    } else {
        1 + first_canon(s.drop_first(), e)
    }
}

/// Properties of the first canonical index when the edge is recorded.
proof fn lemma_first_canon(s: Seq<DirEdge>, e: Edge)
    requires
        canon_in(s, e),
    ensures
        0 <= first_canon(s, e) < s.len(),
        canon(s[first_canon(s, e)]) == e,
        forall|j: int| 0 <= j < first_canon(s, e) ==> canon(s[j]) != e,
    decreases s.len(),
{
    if canon(s[0]) == e {
    } else {
        assert(canon_in(s.drop_first(), e)) by {
            let i = choose|i: int| 0 <= i < s.len() && canon(s[i]) == e;
            assert(s.drop_first()[i - 1] == s[i]);
        }
        lemma_first_canon(s.drop_first(), e);
        assert forall|j: int| 0 <= j < first_canon(s, e) implies canon(s[j]) != e by {
            if j > 0 {
                assert(s[j] == s.drop_first()[j - 1]);
            }
        }
    }
}

/// A triangle of the triangulation: three point indices in increasing
/// order, so two triangles over the same vertices are equal.
#[derive(Clone, Copy, Debug, PartialEq, Eq, Structural)]
pub struct Polygon {
    pub a: usize,
    pub b: usize,
    pub c: usize,
}

impl Polygon {
    /// The triangle over the three given point indices, sorted.
    pub fn from_poses(poses: [usize; 3]) -> (r: Polygon)
        ensures
            r == spec_triangle(poses[0] as int, poses[1] as int, poses[2] as int),
            r.a <= r.b <= r.c,
    {
        let x = poses[0];
        let y = poses[1];
        let z = poses[2];
        let (x, y) = if x <= y {
            (x, y)
        } else {
            (y, x)
        };
        let (y, z) = if y <= z {
            (y, z)
        } else {
            (z, y)
        };
        let (x, y) = if x <= y {
            (x, y)
        } else {
            (y, x)
        };
        Polygon { a: x, b: y, c: z }
    }
}

/// The sorted triangle over three indices: least vertex, middle vertex,
/// greatest vertex.
pub open spec fn spec_triangle(p: int, q: int, r: int) -> Polygon {
    let lo = vstd::math::min(p, vstd::math::min(q, r));
    let hi = vstd::math::max(p, vstd::math::max(q, r));
    let mid = p + q + r - lo - hi;
    Polygon { a: lo as usize, b: mid as usize, c: hi as usize }
}

/// A well-formed edge over `n` points: canonical and in bounds.
pub open spec fn edge_wf(e: Edge, n: int) -> bool {
    e.0 < e.1 < n
}

/// All edges of the sequence well formed.
pub open spec fn edges_wf(s: Seq<Edge>, n: int) -> bool {
    forall|i: int| #![trigger s[i]] 0 <= i < s.len() ==> edge_wf(s[i], n)
}

/// No edge occurs twice.
pub open spec fn no_dup_edges(s: Seq<Edge>) -> bool {
    forall|i: int, j: int| 0 <= i < j < s.len() ==> s[i] != s[j]
}

/// `e` occurs in the sequence.
pub open spec fn edge_in(s: Seq<Edge>, e: Edge) -> bool {
    exists|i: int| 0 <= i < s.len() && s[i] == e
}

/// A well-formed triangle over `n` points: strictly increasing indices in
/// bounds.
pub open spec fn tri_wf(t: Polygon, n: int) -> bool {
    t.a < t.b < t.c < n
}

/// The three boundary edges of a triangle, canonical because the indices
/// are sorted.
pub open spec fn tri_edge_ab(t: Polygon) -> Edge {
    Edge(t.a, t.b)
}

pub open spec fn tri_edge_ac(t: Polygon) -> Edge {
    Edge(t.a, t.c)
}

pub open spec fn tri_edge_bc(t: Polygon) -> Edge {
    Edge(t.b, t.c)
}

/// Every edge of the triangle is recorded in one of the two worklists.
pub open spec fn tri_registered(t: Polygon, alive: Seq<DirEdge>, dead: Seq<Edge>) -> bool {
    &&& canon_in(alive, tri_edge_ab(t)) || edge_in(dead, tri_edge_ab(t))
    &&& canon_in(alive, tri_edge_ac(t)) || edge_in(dead, tri_edge_ac(t))
    &&& canon_in(alive, tri_edge_bc(t)) || edge_in(dead, tri_edge_bc(t))
}

/// The state of an incremental triangulation.
#[derive(Debug)]
pub struct TriangulationState {
    points: Vec<Point>,
    triangles: Vec<Polygon>,
    alive_edges: Vec<DirEdge>,
    dead_edges: Vec<Edge>,
}

impl TriangulationState {
    /// The structural invariant: points in range; every recorded edge
    /// canonical, in bounds, recorded once, and in at most one of the two
    /// worklists; every emitted triangle well formed with all three of
    /// its edges recorded somewhere.
    pub closed spec fn wf(self) -> bool {
        let n = self.points@.len() as int;
        &&& all_in_range(self.points@)
        &&& dir_edges_wf(self.alive_edges@, n)
        &&& edges_wf(self.dead_edges@, n)
        &&& no_dup_canon(self.alive_edges@)
        &&& no_dup_edges(self.dead_edges@)
        &&& forall|i: int, j: int|
            #![trigger self.alive_edges@[i], self.dead_edges@[j]]
            0 <= i < self.alive_edges@.len() && 0 <= j < self.dead_edges@.len()
                ==> canon(self.alive_edges@[i]) != self.dead_edges@[j]
        &&& forall|k: int|
            0 <= k < self.triangles@.len() ==> tri_wf(#[trigger] self.triangles@[k], n)
                && tri_registered(self.triangles@[k], self.alive_edges@, self.dead_edges@)
    }

    pub closed spec fn points_spec(self) -> Seq<Point> {
        self.points@
    }

    pub closed spec fn triangles_spec(self) -> Seq<Polygon> {
        self.triangles@
    }

    pub closed spec fn alive_spec(self) -> Seq<DirEdge> {
        self.alive_edges@
    }

    pub closed spec fn dead_spec(self) -> Seq<Edge> {
        self.dead_edges@
    }

    /// A fresh, empty state.
    pub fn new() -> (r: TriangulationState)
        ensures
            r.points_spec() == Seq::<Point>::empty(),
            r.triangles_spec() == Seq::<Polygon>::empty(),
            r.alive_spec() == Seq::<DirEdge>::empty(),
            r.dead_spec() == Seq::<Edge>::empty(),
            r.wf(),
    {
        let r = TriangulationState {
            points: Vec::new(),
            triangles: Vec::new(),
            alive_edges: Vec::new(),
            dead_edges: Vec::new(),
        };
        proof {
            assert(r.points@ =~= Seq::<Point>::empty());
            assert(r.triangles@ =~= Seq::<Polygon>::empty());
            assert(r.alive_edges@ =~= Seq::<DirEdge>::empty());
            assert(r.dead_edges@ =~= Seq::<Edge>::empty());
        }
        r
    }

    /// Append an input point. Edges and triangles index the point list,
    /// so growing it never invalidates them.
    pub fn add_point(&mut self, p: Point)
        requires
            old(self).wf(),
            p.in_range(),
        ensures
            final(self).points_spec() == old(self).points_spec().push(p),
            final(self).triangles_spec() == old(self).triangles_spec(),
            final(self).alive_spec() == old(self).alive_spec(),
            final(self).dead_spec() == old(self).dead_spec(),
            final(self).wf(),
    {
        self.points.push(p);
    }

    /// Read access to the input points for a renderer.
    pub fn points(&self) -> (r: &Vec<Point>)
        ensures
            r@ == self.points_spec(),
    {
        &self.points
    }

    /// Read access to the emitted triangles.
    pub fn triangles(&self) -> (r: &Vec<Polygon>)
        ensures
            r@ == self.triangles_spec(),
    {
        &self.triangles
    }

    /// Read access to the alive edges.
    pub fn alive_edges(&self) -> (r: &Vec<DirEdge>)
        ensures
            r@ == self.alive_spec(),
    {
        &self.alive_edges
    }

    /// Read access to the dead edges.
    pub fn dead_edges(&self) -> (r: &Vec<Edge>)
        ensures
            r@ == self.dead_spec(),
    {
        &self.dead_edges
    }

    /// A triangulation has begun once any edge has been recorded.
    pub fn is_triangulation_initialized(&self) -> (r: bool)
        ensures
            r == (self.alive_spec().len() > 0 || self.dead_spec().len() > 0),
    {
        !self.alive_edges.is_empty() || !self.dead_edges.is_empty()
    }

    /// A triangulation is complete once every recorded edge is resolved.
    pub fn is_triangulation_completed(&self) -> (r: bool)
        ensures
            r == (self.alive_spec().len() == 0 && self.dead_spec().len() > 0),
    {
        self.alive_edges.is_empty() && !self.dead_edges.is_empty()
    }
}

/// Strict lexicographic order on points: lower x first, ties by lower y.
pub open spec fn lex_less(p: Point, q: Point) -> bool {
    p.x < q.x || (p.x == q.x && p.y < q.y)
}

/// The scan for the lexicographically least point: current best `best`,
/// next index to look at `i`. Strict comparison, so the first of several
/// equal least points wins.
pub open spec fn leftmost_from(pts: Seq<Point>, best: int, i: int) -> int
    decreases pts.len() - i,
{
    if i < 0 || i >= pts.len() {
        best
    } else {
        leftmost_from(
            pts,
            if lex_less(pts[i], pts[best]) {
                i
            } else {
                best
            },
            i + 1,
        )
    }
}

/// Index of the lexicographically least point.
pub open spec fn leftmost_index(pts: Seq<Point>) -> int {
    leftmost_from(pts, 0, 1)
}

/// Does the direction from `origin` to `p` make a strictly smaller
/// counter-clockwise angle with the horizontal than the direction to `q`?
/// Every direction from the leftmost point lies in the closed right
/// half-plane, where angles differ by less than a half turn, so comparing
/// angles is exactly comparing the cross product's sign. A duplicate of
/// the origin yields the zero direction, which never compares smaller.
pub open spec fn dir_less(origin: Point, p: Point, q: Point) -> bool {
    cross3(origin, p, q) > 0
}

/// The scan for the second seed endpoint: among all indices other than
/// `l`, keep the direction of least angle; strict comparison, first
/// minimum wins.
pub open spec fn best_dir_from(pts: Seq<Point>, l: int, best: int, i: int) -> int
    decreases pts.len() - i,
{
    if i < 0 || i >= pts.len() {
        best
    } else {
        let b2 = if i != l && dir_less(pts[l], pts[i], pts[best]) {
            i
        } else {
            best
        };
        best_dir_from(pts, l, b2, i + 1)
    }
}

/// The seed edge of a triangulation: the convex-hull edge between the
/// leftmost point and the point of least angle with the horizontal,
/// directed so that every other point lies on its unexplored right side.
pub open spec fn initial_edge(pts: Seq<Point>) -> DirEdge {
    let l = leftmost_index(pts);
    let b = best_dir_from(pts, l, (l + 1) % (pts.len() as int), 0);
    DirEdge { from: b as usize, to: l as usize }
}

/// The leftmost scan stays within the index range.
proof fn lemma_leftmost_range(pts: Seq<Point>, best: int, i: int)
    requires
        0 <= best < pts.len(),
    ensures
        0 <= leftmost_from(pts, best, i) < pts.len(),
    decreases pts.len() - i,
{
    if 0 <= i < pts.len() {
        lemma_leftmost_range(
            pts,
            if lex_less(pts[i], pts[best]) {
                i
            } else {
                best
            },
            i + 1,
        );
    }
}

/// The direction scan stays within range and never lands on the origin
/// index.
proof fn lemma_best_dir_range(pts: Seq<Point>, l: int, best: int, i: int)
    requires
        0 <= best < pts.len(),
        best != l,
    ensures
        0 <= best_dir_from(pts, l, best, i) < pts.len(),
        best_dir_from(pts, l, best, i) != l,
    decreases pts.len() - i,
{
    if 0 <= i < pts.len() {
        lemma_best_dir_range(
            pts,
            l,
            if i != l && dir_less(pts[l], pts[i], pts[best]) {
                i
            } else {
                best
            },
            i + 1,
        );
    }
}

/// Find the seed edge: the leftmost point (lowest x, ties by lowest y),
/// then among the other points the one whose direction from it makes the
/// least angle with the horizontal. Both scans are by strict comparison,
/// so earlier indices win ties.
pub fn find_initial_edge(points: &Vec<Point>) -> (r: DirEdge)
    requires
        all_in_range(points@),
        points@.len() >= 2,
    ensures
        r == initial_edge(points@),
        dir_edge_wf(r, points@.len() as int),
{
    let ghost pts = points@;
    let n = points.len();
    let mut leftmost_idx: usize = 0;
    let mut i: usize = 1;
    while i < n
        invariant
            n == pts.len(),
            2 <= n,
            points@ == pts,
            1 <= i <= n,
            leftmost_idx < n,
            leftmost_from(pts, leftmost_idx as int, i as int) == leftmost_index(pts),
        decreases n - i,
    {
        let p = points[i];
        let q = points[leftmost_idx];
        proof {
            assert(leftmost_from(pts, leftmost_idx as int, i as int) == leftmost_from(
                pts,
                if lex_less(pts[i as int], pts[leftmost_idx as int]) {
                    i as int
                } else {
                    leftmost_idx as int
                },
                i as int + 1,
            ));
        }
        if p.x < q.x || (p.x == q.x && p.y < q.y) {
            leftmost_idx = i;
        }
        i = i + 1;
    }
    proof {
        assert(leftmost_from(pts, leftmost_idx as int, n as int) == leftmost_idx as int);
    }
    let l = leftmost_idx;
    let mut best_idx: usize = (l + 1) % n;
    proof {
        if l as int + 1 < n as int {
            lemma_small_mod((l + 1) as nat, n as nat);
        } else {
            vstd::arithmetic::div_mod::lemma_mod_self_0(n as int);
        }
    }
    let ghost b0 = best_idx as int;
    let mut i: usize = 0;
    while i < n
        invariant
            n == pts.len(),
            2 <= n,
            points@ == pts,
            all_in_range(pts),
            i <= n,
            l < n,
            best_idx < n,
            best_idx != l,
            l as int == leftmost_index(pts),
            best_dir_from(pts, l as int, best_idx as int, i as int) == best_dir_from(
                pts,
                l as int,
                b0,
                0,
            ),
        decreases n - i,
    {
        proof {
            assert(best_dir_from(pts, l as int, best_idx as int, i as int) == best_dir_from(
                pts,
                l as int,
                if i as int != l as int && dir_less(
                    pts[l as int],
                    pts[i as int],
                    pts[best_idx as int],
                ) {
                    i as int
                } else {
                    best_idx as int
                },
                i as int + 1,
            ));
        }
        if i != l {
            if cross_of(points[l], points[i], points[best_idx]) > 0 {
                best_idx = i;
            }
        }
        i = i + 1;
    }
    proof {
        assert(best_dir_from(pts, l as int, best_idx as int, n as int) == best_idx as int);
        lemma_leftmost_range(pts, 0, 1);
        lemma_best_dir_range(pts, l as int, b0, 0);
    }
    DirEdge { from: best_idx, to: l }
}

/// Begin a triangulation. With fewer than three points there is nothing
/// to triangulate and the state is left untouched; otherwise the triangle
/// list and both edge sets are reset and the alive set is seeded with the
/// initial hull edge.
pub fn init_triangulation(state: &mut TriangulationState) -> (r: Result<(), GeometryError>)
    requires
        old(state).wf(),
    ensures
        final(state).points_spec() == old(state).points_spec(),
        match r {
            Err(e) => {
                &&& old(state).points_spec().len() < 3
                &&& e == GeometryError::InsufficientPoints
                &&& *final(state) == *old(state)
            },
            Ok(()) => {
                &&& old(state).points_spec().len() >= 3
                &&& final(state).triangles_spec() == Seq::<Polygon>::empty()
                &&& final(state).dead_spec() == Seq::<Edge>::empty()
                &&& final(state).alive_spec() == seq![initial_edge(old(state).points_spec())]
                &&& final(state).wf()
            },
        },
{
    if state.points.len() < 3 {
        return Err(GeometryError::InsufficientPoints);
    }
    state.triangles = Vec::new();
    state.alive_edges = Vec::new();
    state.dead_edges = Vec::new();
    let e = find_initial_edge(&state.points);
    state.alive_edges.push(e);
    proof {
        assert(state.triangles@ =~= Seq::<Polygon>::empty());
        assert(state.dead_edges@ =~= Seq::<Edge>::empty());
        assert(state.alive_edges@ =~= seq![initial_edge(state.points@)]);
    }
    Ok(())
}

/// Denominator of the intersection of the lines through `(ax,ay)-(bx,by)`
/// and `(cx,cy)-(dx,dy)`: zero exactly when the lines are parallel.
pub open spec fn li_den(
    ax: int, ay: int, bx: int, by: int, cx: int, cy: int, dx: int, dy: int,
) -> int {
    (ax - bx) * (cy - dy) - (ay - by) * (cx - dx)
}

/// Numerator of the x coordinate of the line intersection.
pub open spec fn li_nx(
    ax: int, ay: int, bx: int, by: int, cx: int, cy: int, dx: int, dy: int,
) -> int {
    (ax * by - ay * bx) * (cx - dx) - (ax - bx) * (cx * dy - cy * dx)
}

/// Numerator of the y coordinate of the line intersection.
pub open spec fn li_ny(
    ax: int, ay: int, bx: int, by: int, cx: int, cy: int, dx: int, dy: int,
) -> int {
    (ax * by - ay * bx) * (cy - dy) - (ay - by) * (cx * dy - cy * dx)
}

/// Intersection of the infinite lines through segments `a b` and `c d`:
/// `None` exactly when the lines are parallel (zero denominator),
/// otherwise the exact homogeneous intersection point, sign-normalized so
/// its denominator is positive. The input range admits the doubled
/// bisector constructions of [`TriangulationState::calculate_center`].
fn lines_intersect(a: Point, b: Point, c: Point, d: Point) -> (r: Option<HPoint>)
    requires
        -400_000 <= a.x <= 400_000 && -400_000 <= a.y <= 400_000,
        -400_000 <= b.x <= 400_000 && -400_000 <= b.y <= 400_000,
        -400_000 <= c.x <= 400_000 && -400_000 <= c.y <= 400_000,
        -400_000 <= d.x <= 400_000 && -400_000 <= d.y <= 400_000,
    ensures
        ({
            let den = li_den(a.x as int, a.y as int, b.x as int, b.y as int, c.x as int,
                c.y as int, d.x as int, d.y as int);
            let nx = li_nx(a.x as int, a.y as int, b.x as int, b.y as int, c.x as int, c.y as int,
                d.x as int, d.y as int);
            let ny = li_ny(a.x as int, a.y as int, b.x as int, b.y as int, c.x as int, c.y as int,
                d.x as int, d.y as int);
            match r {
                None => den == 0,
                Some(h) => den != 0 && h.w >= 1 && -600_000_000_000_000_000 <= h.x
                    <= 600_000_000_000_000_000 && -600_000_000_000_000_000 <= h.y
                    <= 600_000_000_000_000_000 && h.w <= 1_300_000_000_000 && (if den > 0 {
                    h.x == nx && h.y == ny && h.w == den
                } else {
                    h.x == -nx && h.y == -ny && h.w == -den
                }),
            }
        }),
{
    proof {
        lemma_mul_bound(a.x - b.x, c.y - d.y, 800_000, 800_000);
        lemma_mul_bound(a.y - b.y, c.x - d.x, 800_000, 800_000);
        lemma_mul_bound(a.x as int, b.y as int, 400_000, 400_000);
        lemma_mul_bound(a.y as int, b.x as int, 400_000, 400_000);
        lemma_mul_bound(c.x as int, d.y as int, 400_000, 400_000);
        lemma_mul_bound(c.y as int, d.x as int, 400_000, 400_000);
    }
    let den: i128 = (a.x as i128 - b.x as i128) * (c.y as i128 - d.y as i128) - (a.y as i128
        - b.y as i128) * (c.x as i128 - d.x as i128);
    if den == 0 {
        return None;
    }
    proof {
        lemma_mul_bound(
            a.x as int * b.y as int - a.y as int * b.x as int,
            c.x - d.x,
            320_000_000_000,
            800_000,
        );
        lemma_mul_bound(
            a.x as int * b.y as int - a.y as int * b.x as int,
            c.y - d.y,
            320_000_000_000,
            800_000,
        );
        lemma_mul_bound(
            a.x - b.x,
            c.x as int * d.y as int - c.y as int * d.x as int,
            800_000,
            320_000_000_000,
        );
        lemma_mul_bound(
            a.y - b.y,
            c.x as int * d.y as int - c.y as int * d.x as int,
            800_000,
            320_000_000_000,
        );
    }
    let cross_ab: i128 = a.x as i128 * b.y as i128 - a.y as i128 * b.x as i128;
    let cross_cd: i128 = c.x as i128 * d.y as i128 - c.y as i128 * d.x as i128;
    let nx: i128 = cross_ab * (c.x as i128 - d.x as i128) - (a.x as i128 - b.x as i128) * cross_cd;
    let ny: i128 = cross_ab * (c.y as i128 - d.y as i128) - (a.y as i128 - b.y as i128) * cross_cd;
    if den > 0 {
        Some(HPoint { x: nx as i64, y: ny as i64, w: den as i64 })
    } else {
        Some(HPoint { x: (-nx) as i64, y: (-ny) as i64, w: (-den) as i64 })
    }
}

/// The circumcenter of the triangle `(a, b, c)` as an exact homogeneous
/// point with positive denominator, built by intersecting two
/// perpendicular bisectors in the doubled plane; `(0, 0, 0)` when the
/// three points are collinear and no circumcenter exists.
pub open spec fn circumcenter(a: Point, b: Point, c: Point) -> (int, int, int) {
    let a1x = a.x + b.x;
    let a1y = a.y + b.y;
    let b1x = a1x + (b.y - a.y);
    let b1y = a1y - (b.x - a.x);
    let a2x = a.x + c.x;
    let a2y = a.y + c.y;
    let b2x = a2x + (c.y - a.y);
    let b2y = a2y - (c.x - a.x);
    let den = li_den(a1x, a1y, b1x, b1y, a2x, a2y, b2x, b2y);
    let nx = li_nx(a1x, a1y, b1x, b1y, a2x, a2y, b2x, b2y);
    let ny = li_ny(a1x, a1y, b1x, b1y, a2x, a2y, b2x, b2y);
    if den > 0 {
        (nx, ny, 2 * den)
    } else if den < 0 {
        (-nx, -ny, 2 * -den)
    } else {
        (0, 0, 0)
    }
}

impl TriangulationState {
    /// The center of the circle through `a`, `b` and `c`: the intersection
    /// of the perpendicular bisectors of `ab` and `ac`, exact and
    /// homogeneous. `None` exactly when the three points are collinear.
    pub fn calculate_center(a: Point, b: Point, c: Point) -> (r: Option<HPoint>)
        requires
            a.in_range(),
            b.in_range(),
            c.in_range(),
        ensures
            match r {
                None => cross3(a, b, c) == 0,
                Some(h) => {
                    &&& cross3(a, b, c) != 0
                    &&& (h.x as int, h.y as int, h.w as int) == circumcenter(a, b, c)
                    &&& 1 <= h.w <= 2_600_000_000_000
                    &&& -600_000_000_000_000_000 <= h.x <= 600_000_000_000_000_000
                    &&& -600_000_000_000_000_000 <= h.y <= 600_000_000_000_000_000
                },
            },
    {
        let a1 = Point { x: a.x + b.x, y: a.y + b.y };
        let b1 = Point { x: a1.x + (b.y - a.y), y: a1.y - (b.x - a.x) };
        let a2 = Point { x: a.x + c.x, y: a.y + c.y };
        let b2 = Point { x: a2.x + (c.y - a.y), y: a2.y - (c.x - a.x) };
        let ghost den = li_den(a1.x as int, a1.y as int, b1.x as int, b1.y as int, a2.x as int,
            a2.y as int, b2.x as int, b2.y as int);
        proof {
            assert(den == cross3(a, b, c)) by (nonlinear_arith)
                requires
                    den == ((a1.x - b1.x) * (a2.y - b2.y) - (a1.y - b1.y) * (a2.x - b2.x)),
                    a1.x == a.x + b.x && a1.y == a.y + b.y,
                    b1.x == a1.x + (b.y - a.y) && b1.y == a1.y - (b.x - a.x),
                    a2.x == a.x + c.x && a2.y == a.y + c.y,
                    b2.x == a2.x + (c.y - a.y) && b2.y == a2.y - (c.x - a.x),
                    cross3(a, b, c) == ((b.x - a.x) * (c.y - a.y) - (b.y - a.y) * (c.x - a.x)),
            ;
        }
        match lines_intersect(a1, b1, a2, b2) {
            None => None,
            Some(h) => Some(HPoint { x: h.x, y: h.y, w: 2 * h.w }),
        }
    }
}

/// Is `point` strictly to the right of the directed segment
/// `start -> end`?
pub fn is_point_right(point: Point, start: Point, end: Point) -> (r: bool)
    requires
        point.in_range(),
        start.in_range(),
        end.in_range(),
    ensures
        r == (cross3(start, end, point) < 0),
{
    cross_of(start, end, point) < 0
}

/// Is `point` strictly to the left of the directed segment
/// `start -> end`?
pub fn is_point_left(point: Point, start: Point, end: Point) -> (r: bool)
    requires
        point.in_range(),
        start.in_range(),
        end.in_range(),
    ensures
        r == (cross3(start, end, point) > 0),
{
    cross_of(start, end, point) > 0
}

/// The orientation form is invariant under cyclic rotation of its three
/// points.
proof fn lemma_cross3_cyclic(p: Point, q: Point, r: Point)
    ensures
        cross3(p, q, r) == cross3(q, r, p),
{
    assert((q.x - p.x) * (r.y - p.y) - (q.y - p.y) * (r.x - p.x) == (r.x - q.x) * (p.y - q.y) - (
    r.y - q.y) * (p.x - q.x)) by (nonlinear_arith);
}

/// A point index eligible to close a triangle on the right of the
/// directed edge `e`: distinct from the edge's endpoints and strictly on
/// its right side. Strict rightness already excludes collinear triples,
/// so every candidate has a circumcenter.
pub open spec fn is_candidate(pts: Seq<Point>, e: DirEdge, k: int) -> bool {
    &&& 0 <= k < pts.len()
    &&& k != e.from && k != e.to
    &&& cross3(pts[e.from as int], pts[e.to as int], pts[k]) < 0
}

/// Numerator of a candidate's score: the signed projection of the vector
/// from the edge midpoint to the candidate's circumcenter onto the
/// edge's right-pointing normal `(dy, -dx)`. Positive constant factors
/// (the normal's length, a factor two) are dropped: they do not change
/// which candidate minimizes the score.
pub open spec fn cand_score_num(p1: Point, p2: Point, p3: Point) -> int {
    let cc = circumcenter(p1, p2, p3);
    (2 * cc.0 - cc.2 * (p1.x + p2.x)) * (p2.y - p1.y) - (2 * cc.1 - cc.2 * (p1.y + p2.y)) * (p2.x
        - p1.x)
}

/// Denominator of a candidate's score: the circumcenter's positive
/// homogeneous denominator.
pub open spec fn cand_score_den(p1: Point, p2: Point, p3: Point) -> int {
    circumcenter(p1, p2, p3).2
}

/// Candidate `j` scores strictly less than candidate `k`: the exact
/// rational comparison, cross-multiplied over the positive denominators.
pub open spec fn score_lt(pts: Seq<Point>, e: DirEdge, j: int, k: int) -> bool {
    cand_score_num(pts[e.from as int], pts[e.to as int], pts[j]) * cand_score_den(
        pts[e.from as int], pts[e.to as int], pts[k],
    ) < cand_score_num(pts[e.from as int], pts[e.to as int], pts[k]) * cand_score_den(
        pts[e.from as int], pts[e.to as int], pts[j],
    )
}

/// The circumcenter denominator is twice the magnitude of the
/// orientation form: positive exactly for non-collinear triples.
proof fn lemma_circumcenter_den(p1: Point, p2: Point, p3: Point)
    ensures
        cross3(p1, p2, p3) != 0 ==> cand_score_den(p1, p2, p3) >= 2,
        cross3(p1, p2, p3) == 0 ==> cand_score_den(p1, p2, p3) == 0,
{
    let a1x = p1.x as int + p2.x;
    let a1y = p1.y as int + p2.y;
    let b1x = a1x + (p2.y - p1.y);
    let b1y = a1y - (p2.x - p1.x);
    let a2x = p1.x as int + p3.x;
    let a2y = p1.y as int + p3.y;
    let b2x = a2x + (p3.y - p1.y);
    let b2y = a2y - (p3.x - p1.x);
    let den = li_den(a1x, a1y, b1x, b1y, a2x, a2y, b2x, b2y);
    assert(den == cross3(p1, p2, p3)) by (nonlinear_arith)
        requires
            den == ((a1x - b1x) * (a2y - b2y) - (a1y - b1y) * (a2x - b2x)),
            a1x == p1.x + p2.x && a1y == p1.y + p2.y,
            b1x == a1x + (p2.y - p1.y) && b1y == a1y - (p2.x - p1.x),
            a2x == p1.x + p3.x && a2y == p1.y + p3.y,
            b2x == a2x + (p3.y - p1.y) && b2y == a2y - (p3.x - p1.x),
            cross3(p1, p2, p3) == ((p2.x - p1.x) * (p3.y - p1.y) - (p2.y - p1.y) * (p3.x - p1.x)),
    ;
}

/// Transitivity step for exact rational scores with positive
/// denominators: a strict improvement over the current best beats
/// everything the best did not lose to.
proof fn lemma_score_trans(ni: int, wi: int, nj: int, wj: int, nb: int, wb: int)
    requires
        wi >= 1,
        wj >= 1,
        wb >= 1,
        ni * wb < nb * wi,
        nb * wj <= nj * wb,
    ensures
        ni * wj < nj * wi,
{
    vstd::arithmetic::mul::lemma_mul_strict_inequality(ni * wb, nb * wi, wj);
    vstd::arithmetic::mul::lemma_mul_inequality(nb * wj, nj * wb, wi);
    assert((ni * wb) * wj == (ni * wj) * wb) by (nonlinear_arith);
    assert((nb * wi) * wj == (nb * wj) * wi) by (nonlinear_arith);
    assert((nj * wb) * wi == (nj * wi) * wb) by (nonlinear_arith);
    vstd::arithmetic::mul::lemma_mul_strict_inequality_converse(ni * wj, nj * wi, wb);
}

/// Bridge from an executable score computation over the circumcenter's
/// components to the specification-level score.
proof fn lemma_score_value(p1: Point, p2: Point, p3: Point, hx: int, hy: int, hw: int, sn: int)
    requires
        circumcenter(p1, p2, p3) == (hx, hy, hw),
        sn == (2 * hx - hw * (p1.x + p2.x)) * (p2.y - p1.y) - (2 * hy - hw * (p1.y + p2.y)) * (
        p2.x - p1.x),
    ensures
        sn == cand_score_num(p1, p2, p3),
        hw == cand_score_den(p1, p2, p3),
{
    let cc = circumcenter(p1, p2, p3);
    assert(cc.0 == hx && cc.1 == hy && cc.2 == hw);
    assert(cand_score_num(p1, p2, p3) == sn) by (nonlinear_arith)
        requires
            cand_score_num(p1, p2, p3) == (2 * cc.0 - cc.2 * (p1.x + p2.x)) * (p2.y - p1.y) - (2
                * cc.1 - cc.2 * (p1.y + p2.y)) * (p2.x - p1.x),
            cc.0 == hx && cc.1 == hy && cc.2 == hw,
            sn == (2 * hx - hw * (p1.x + p2.x)) * (p2.y - p1.y) - (2 * hy - hw * (p1.y + p2.y)) * (
            p2.x - p1.x),
    ;
}

/// Find the right conjugate point of the directed edge `e = (e.0, e.1)`:
/// among the points strictly to the right of the edge, the one whose
/// circumcircle with the edge's endpoints is most locally empty — the
/// candidate minimizing the signed projection of the circumcenter beyond
/// the edge's midpoint, ties resolved to the lowest index. `None` when no
/// point lies strictly to the right: the edge is a hull edge.
pub fn find_right_conjugate_point(points: &Vec<Point>, edge: DirEdge) -> (r: Option<usize>)
    requires
        all_in_range(points@),
        dir_edge_wf(edge, points@.len() as int),
    ensures
        match r {
            None => forall|k: int| !is_candidate(points@, edge, k),
            Some(k) => {
                &&& is_candidate(points@, edge, k as int)
                &&& forall|j: int|
                    is_candidate(points@, edge, j) ==> !score_lt(points@, edge, j, k as int)
                &&& forall|j: int|
                    0 <= j < k as int && is_candidate(points@, edge, j) ==> score_lt(
                        points@, edge, k as int, j,
                    )
            },
        },
{
    let ghost pts = points@;
    let n = points.len();
    let p1 = points[edge.from];
    let p2 = points[edge.to];
    let mut best: Option<usize> = None;
    let mut best_num: i128 = 0;
    let mut best_den: i128 = 1;
    let mut i: usize = 0;
    while i < n
        invariant
            pts == points@,
            n == pts.len(),
            all_in_range(pts),
            dir_edge_wf(edge, n as int),
            p1 == pts[edge.from as int],
            p2 == pts[edge.to as int],
            i <= n,
            match best {
                None => forall|j: int| 0 <= j < i ==> !is_candidate(pts, edge, j),
                Some(b) => {
                    &&& is_candidate(pts, edge, b as int)
                    &&& (b as int) < i as int
                    &&& best_num == cand_score_num(p1, p2, pts[b as int])
                    &&& best_den == cand_score_den(p1, p2, pts[b as int])
                    &&& 1 <= best_den <= 2_600_000_000_000
                    &&& -800_000_000_000_000_000_000_000 <= best_num
                        <= 800_000_000_000_000_000_000_000
                    &&& forall|j: int|
                        0 <= j < i && is_candidate(pts, edge, j) ==> !score_lt(
                            pts, edge, j, b as int,
                        )
                    &&& forall|j: int|
                        0 <= j < b as int && is_candidate(pts, edge, j) ==> score_lt(
                            pts, edge, b as int, j,
                        )
                },
            },
        decreases n - i,
    {
        if i != edge.from && i != edge.to {
            let p3 = points[i];
            proof {
                lemma_cross3_cyclic(p2, p3, p1);
                lemma_cross3_cyclic(p3, p1, p2);
            }
            if is_point_right(p1, p2, p3) {
                match TriangulationState::calculate_center(p1, p2, p3) {
                    Some(center) => {
                        proof {
                            lemma_mul_bound(
                                center.w as int, p1.x + p2.x, 2_600_000_000_000, 200_000,
                            );
                            lemma_mul_bound(
                                center.w as int, p1.y + p2.y, 2_600_000_000_000, 200_000,
                            );
                            lemma_mul_bound(
                                2 * center.x as int - center.w as int * (p1.x + p2.x),
                                p2.y - p1.y,
                                1_800_000_000_000_000_000,
                                200_000,
                            );
                            lemma_mul_bound(
                                2 * center.y as int - center.w as int * (p1.y + p2.y),
                                p2.x - p1.x,
                                1_800_000_000_000_000_000,
                                200_000,
                            );
                        }
                        let sn: i128 = (2 * center.x as i128 - center.w as i128 * (p1.x as i128
                            + p2.x as i128)) * (p2.y as i128 - p1.y as i128) - (2
                            * center.y as i128 - center.w as i128 * (p1.y as i128 + p2.y as i128))
                            * (p2.x as i128 - p1.x as i128);
                        let sd: i128 = center.w as i128;
                        proof {
                            lemma_score_value(
                                p1, p2, p3, center.x as int, center.y as int, center.w as int,
                                sn as int,
                            );
                        }
                        let take = match best {
                            None => true,
                            Some(b) => {
                                proof {
                                    lemma_mul_bound(
                                        sn as int,
                                        best_den as int,
                                        800_000_000_000_000_000_000_000,
                                        2_600_000_000_000,
                                    );
                                    lemma_mul_bound(
                                        best_num as int,
                                        sd as int,
                                        800_000_000_000_000_000_000_000,
                                        2_600_000_000_000,
                                    );
                                    lemma_mul_congr(
                                        sn as int,
                                        best_den as int,
                                        cand_score_num(p1, p2, pts[i as int]),
                                        cand_score_den(p1, p2, pts[b as int]),
                                    );
                                    lemma_mul_congr(
                                        best_num as int,
                                        sd as int,
                                        cand_score_num(p1, p2, pts[b as int]),
                                        cand_score_den(p1, p2, pts[i as int]),
                                    );
                                }
                                sn * best_den < best_num * sd
                            },
                        };
                        if take {
                            proof {
                                if best is Some {
                                    let b = best.unwrap() as int;
                                    assert forall|j: int|
                                        0 <= j < i as int && is_candidate(pts, edge, j)
                                            implies score_lt(pts, edge, i as int, j) by {
                                        lemma_circumcenter_den(p1, p2, pts[j]);
                                        lemma_score_trans(
                                            cand_score_num(p1, p2, pts[i as int]),
                                            cand_score_den(p1, p2, pts[i as int]),
                                            cand_score_num(p1, p2, pts[j]),
                                            cand_score_den(p1, p2, pts[j]),
                                            cand_score_num(p1, p2, pts[b]),
                                            cand_score_den(p1, p2, pts[b]),
                                        );
                                    }
                                }
                            }
                            best = Some(i);
                            best_num = sn;
                            best_den = sd;
                        }
                    },
                    None => {
                        // A strictly right point is never collinear with the
                        // edge, so no candidate is ever skipped here.
                        proof {
                            assert(false);
                        }
                    },
                }
            }
        }
        i = i + 1;
    }
    best
}

/// The worklist transition for one freshly discovered edge of a new
/// triangle: a first discovery enters the alive list with its direction;
/// a second discovery (the undirected edge was already alive) resolves
/// it, moving its canonical form to the dead list; an edge already dead
/// is left alone.
pub open spec fn register_edge(alive: Seq<DirEdge>, dead: Seq<Edge>, nd: DirEdge) -> (Seq<
    DirEdge,
>, Seq<Edge>) {
    let ne = canon(nd);
    if !edge_in(dead, ne) && !canon_in(alive, ne) {
        (alive.push(nd), dead)
    } else if canon_in(alive, ne) {
        (alive.remove(first_canon(alive, ne)), dead.push(ne))
    } else {
        (alive, dead)
    }
}

/// The worklist transition preserves the state invariants, never loses a
/// recorded edge, always leaves the new edge recorded, and only grows the
/// dead list.
proof fn lemma_register_edge_props(alive: Seq<DirEdge>, dead: Seq<Edge>, nd: DirEdge, n: int)
    requires
        no_dup_canon(alive),
        no_dup_edges(dead),
        dir_edges_wf(alive, n),
        edges_wf(dead, n),
        forall|i: int, j: int|
            #![trigger alive[i], dead[j]]
            0 <= i < alive.len() && 0 <= j < dead.len() ==> canon(alive[i]) != dead[j],
        dir_edge_wf(nd, n),
        edge_wf(canon(nd), n),
    ensures
        ({
            let (a2, d2) = register_edge(alive, dead, nd);
            &&& no_dup_canon(a2)
            &&& no_dup_edges(d2)
            &&& dir_edges_wf(a2, n)
            &&& edges_wf(d2, n)
            &&& forall|i: int, j: int|
                #![trigger a2[i], d2[j]]
                0 <= i < a2.len() && 0 <= j < d2.len() ==> canon(a2[i]) != d2[j]
            &&& canon_in(a2, canon(nd)) || edge_in(d2, canon(nd))
            &&& forall|x: Edge|
                canon_in(alive, x) || edge_in(dead, x) ==> canon_in(a2, x) || edge_in(d2, x)
            &&& forall|x: Edge| #[trigger] canon_in(a2, x) ==> canon_in(alive, x) || x == canon(nd)
            &&& forall|x: Edge| #[trigger] edge_in(d2, x) ==> edge_in(dead, x) || x == canon(nd)
            &&& dead.len() <= d2.len()
            &&& forall|x: Edge| #[trigger] edge_in(dead, x) ==> edge_in(d2, x)
        }),
{
    let ne = canon(nd);
    let (a2, d2) = register_edge(alive, dead, nd);
    if !edge_in(dead, ne) && !canon_in(alive, ne) {
        assert(a2 == alive.push(nd));
        assert forall|x: Edge| #[trigger] canon_in(a2, x) implies canon_in(alive, x) || x == ne
        by {
            let i = choose|i: int| 0 <= i < a2.len() && canon(a2[i]) == x;
            if i < alive.len() {
                assert(canon(alive[i]) == x);
            }
        }
        assert forall|x: Edge| canon_in(alive, x) || edge_in(dead, x) implies canon_in(a2, x)
            || edge_in(d2, x) by {
            if canon_in(alive, x) {
                let i = choose|i: int| 0 <= i < alive.len() && canon(alive[i]) == x;
                assert(canon(a2[i]) == x);
            }
        }
        assert(canon(a2[alive.len() as int]) == ne);
        assert(no_dup_canon(a2)) by {
            assert forall|i: int, j: int| 0 <= i < j < a2.len() implies canon(a2[i]) != canon(
                a2[j],
            ) by {
                if j == alive.len() {
                    assert(canon(a2[i]) == canon(alive[i]));
                    assert(canon_in(alive, canon(alive[i])));
                }
            }
        }
    } else if canon_in(alive, ne) {
        lemma_first_canon(alive, ne);
        let idx = first_canon(alive, ne);
        assert(a2 == alive.remove(idx));
        alive.remove_ensures(idx);
        assert forall|x: Edge| #[trigger] canon_in(a2, x) implies canon_in(alive, x) || x == ne
        by {
            let i = choose|i: int| 0 <= i < a2.len() && canon(a2[i]) == x;
            if i < idx {
                assert(canon(alive[i]) == x);
            } else {
                assert(canon(alive[i + 1]) == x);
            }
        }
        assert forall|x: Edge| canon_in(alive, x) || edge_in(dead, x) implies canon_in(a2, x)
            || edge_in(d2, x) by {
            if x == ne {
                assert(d2[dead.len() as int] == ne);
            } else if canon_in(alive, x) {
                let i = choose|i: int| 0 <= i < alive.len() && canon(alive[i]) == x;
                if i < idx {
                    assert(canon(a2[i]) == x);
                } else {
                    assert(i != idx);
                    assert(canon(a2[i - 1]) == x);
                }
            } else {
                let i = choose|i: int| 0 <= i < dead.len() && dead[i] == x;
                assert(d2[i] == x);
            }
        }
        assert forall|x: Edge| #[trigger] edge_in(d2, x) implies edge_in(dead, x) || x == ne by {
            let i = choose|i: int| 0 <= i < d2.len() && d2[i] == x;
            if i < dead.len() {
                assert(dead[i] == x);
            }
        }
        // The removed undirected edge occurred once, so it is gone.
        assert forall|i: int| 0 <= i < a2.len() implies canon(a2[i]) != ne by {
            if i < idx {
            } else {
                assert(a2[i] == alive[i + 1]);
            }
        }
        assert(d2[dead.len() as int] == ne);
        assert forall|x: Edge| #[trigger] edge_in(dead, x) implies edge_in(d2, x) by {
            let i = choose|i: int| 0 <= i < dead.len() && dead[i] == x;
            assert(d2[i] == x);
        }
        assert(no_dup_canon(a2)) by {
            assert forall|i: int, j: int| 0 <= i < j < a2.len() implies canon(a2[i]) != canon(
                a2[j],
            ) by {
                let oi = if i < idx { i } else { i + 1 };
                let oj = if j < idx { j } else { j + 1 };
                assert(a2[i] == alive[oi] && a2[j] == alive[oj]);
            }
        }
    } else {
    }
}

/// The three edges of the sorted triangle over `{a, b, k}` are exactly
/// the canonical pairs over its vertices.
proof fn lemma_triangle_edges(a: int, b: int, k: int)
    requires
        0 <= a < b <= usize::MAX,
        0 <= k <= usize::MAX,
        k != a,
        k != b,
    ensures
        ({
            let t = spec_triangle(a, b, k);
            &&& tri_wf(t, vstd::math::max(vstd::math::max(a, b), k) + 1)
            &&& (tri_edge_ab(t) == spec_edge(a, b) || tri_edge_ab(t) == spec_edge(a, k)
                || tri_edge_ab(t) == spec_edge(b, k))
            &&& (tri_edge_ac(t) == spec_edge(a, b) || tri_edge_ac(t) == spec_edge(a, k)
                || tri_edge_ac(t) == spec_edge(b, k))
            &&& (tri_edge_bc(t) == spec_edge(a, b) || tri_edge_bc(t) == spec_edge(a, k)
                || tri_edge_bc(t) == spec_edge(b, k))
        }),
{
    if k < a {
        assert(spec_triangle(a, b, k) == Polygon {
            a: k as usize,
            b: a as usize,
            c: b as usize,
        });
    } else if k < b {
        assert(spec_triangle(a, b, k) == Polygon {
            a: a as usize,
            b: k as usize,
            c: b as usize,
        });
    } else {
        assert(spec_triangle(a, b, k) == Polygon {
            a: a as usize,
            b: b as usize,
            c: k as usize,
        });
    }
}

/// Linear membership scan over the canonical edge list.
fn edges_contain(v: &Vec<Edge>, e: Edge) -> (r: bool)
    ensures
        r == edge_in(v@, e),
{
    let mut i: usize = 0;
    while i < v.len()
        invariant
            i <= v.len(),
            forall|k: int| 0 <= k < i ==> v@[k] != e,
        decreases v.len() - i,
    {
        if v[i] == e {
            return true;
        }
        i = i + 1;
    }
    false
}

/// Linear scan for a directed entry denoting the canonical edge `e`.
fn dir_edges_contain(v: &Vec<DirEdge>, e: Edge) -> (r: bool)
    ensures
        r == canon_in(v@, e),
{
    let mut i: usize = 0;
    while i < v.len()
        invariant
            i <= v.len(),
            forall|k: int| 0 <= k < i ==> canon(v@[k]) != e,
        decreases v.len() - i,
    {
        if Edge::new(v[i].from, v[i].to) == e {
            return true;
        }
        i = i + 1;
    }
    false
}

/// Remove the first entry denoting the canonical edge `e`.
fn remove_first_canon(v: &mut Vec<DirEdge>, e: Edge)
    requires
        canon_in(old(v)@, e),
    ensures
        final(v)@ == old(v)@.remove(first_canon(old(v)@, e)),
{
    let ghost orig = v@;
    let n_len = v.len();
    let mut i: usize = 0;
    proof {
        assert(orig.len() == n_len as int);
        lemma_first_canon(orig, e);
    }
    while Edge::new(v[i].from, v[i].to) != e
        invariant
            v@ == orig,
            orig.len() == n_len as int,
            canon_in(orig, e),
            i as int <= first_canon(orig, e),
            first_canon(orig, e) < orig.len(),
            canon(orig[first_canon(orig, e)]) == e,
            forall|j: int| 0 <= j < first_canon(orig, e) ==> canon(orig[j]) != e,
        decreases orig.len() - i,
    {
        proof {
            assert(canon(orig[i as int]) != e);
            assert(i as int != first_canon(orig, e));
        }
        i = i + 1;
    }
    proof {
        assert(canon(orig[i as int]) == e);
        assert(i as int == first_canon(orig, e));
    }
    v.remove(i);
}

impl TriangulationState {
    /// Run one stepimpl TriangulationState {
    /// Run one step of the triangulation. Pops the most recently
    /// discovered alive edge and searches the unexplored territory on its
    /// right: if some point lies strictly there, emits the triangle over
    /// the edge and its right conjugate point and registers the
    /// triangle's two new edges, each directed with the new triangle on
    /// its left; otherwise the edge is a hull boundary edge. Either way
    /// the popped edge is resolved (dead), so a step always makes
    /// progress while any alive edge remains; once the alive list is
    /// empty the call is a no-op. An alive edge is never also recorded
    /// dead — the invariant the state maintains — so a popped edge never
    /// has to be discarded.
    pub fn step_triangulation(state: &mut TriangulationState) -> (r: bool)
        requires
            old(state).wf(),
        ensures
            final(state).wf(),
            final(state).points_spec() == old(state).points_spec(),
            r == (old(state).alive_spec().len() > 0),
            !r ==> *final(state) == *old(state),
            r ==> final(state).dead_spec().len() > old(state).dead_spec().len(),
            forall|x: Edge|
                #[trigger] edge_in(old(state).dead_spec(), x) ==> edge_in(
                    final(state).dead_spec(), x,
                ),
            r && (exists|k: int|
                is_candidate(
                    old(state).points_spec(), old(state).alive_spec().last(), k,
                )) ==> (exists|k: int|
                #![trigger is_candidate(old(state).points_spec(), old(state).alive_spec().last(), k)]
                {
                    let pts = old(state).points_spec();
                    let e = old(state).alive_spec().last();
                    let popped = old(state).alive_spec().drop_last();
                    &&& is_candidate(pts, e, k)
                    &&& (forall|j: int| is_candidate(pts, e, j) ==> !score_lt(pts, e, j, k))
                    &&& (forall|j: int|
                        0 <= j < k && is_candidate(pts, e, j) ==> score_lt(pts, e, k, j))
                    &&& ({
                        let t = spec_triangle(e.from as int, e.to as int, k);
                        let s1 = register_edge(
                            popped, old(state).dead_spec(), oriented_new_edge(
                                pts, e.from as int, k, e.to as int,
                            ),
                        );
                        let s2 = register_edge(s1.0, s1.1, oriented_new_edge(
                            pts, e.to as int, k, e.from as int,
                        ));
                        &&& final(state).triangles_spec() == old(state).triangles_spec().push(t)
                        &&& final(state).alive_spec() == s2.0
                        &&& final(state).dead_spec() == s2.1.push(canon(e))
                    })
                }),
            r && !(exists|k: int|
                is_candidate(
                    old(state).points_spec(), old(state).alive_spec().last(), k,
                )) ==> ({
                &&& final(state).triangles_spec() == old(state).triangles_spec()
                &&& final(state).alive_spec() == old(state).alive_spec().drop_last()
                &&& final(state).dead_spec() == old(state).dead_spec().push(
                    canon(old(state).alive_spec().last()),
                )
            }),
    {
        let ghost pts = state.points@;
        let ghost n = state.points@.len() as int;
        if state.alive_edges.len() == 0 {
            return false;
        }
        let e = match state.alive_edges.pop() {
            Some(e) => e,
            None => {
                proof {
                    assert(false);
                }
                DirEdge { from: 0, to: 0 }
            },
        };
        let ce = Edge::new(e.from, e.to);
        let ghost popped = state.alive_edges@;
        let ghost oa = old(state).alive_spec();
        let ghost od = old(state).dead_spec();
        proof {
            assert(popped =~= oa.drop_last());
            assert(forall|i: int| 0 <= i < popped.len() ==> popped[i] == oa[i]);
            // The popped edge came from the alive list, so its canonical
            // form was never recorded dead and no remaining alive entry
            // denotes it.
            assert(oa[oa.len() - 1] == e);
            assert forall|i: int| 0 <= i < popped.len() implies canon(#[trigger] popped[i])
                != canon(e) by {
                assert(popped[i] == oa[i]);
                assert(canon(oa[i]) != canon(oa[oa.len() - 1]));
            }
            assert(!edge_in(od, canon(e))) by {
                if edge_in(od, canon(e)) {
                    let j = choose|j: int| 0 <= j < od.len() && od[j] == canon(e);
                    assert(canon(oa[oa.len() - 1]) != od[j]);
                }
            }
        }
        match find_right_conjugate_point(&state.points, e) {
            None => {
                state.dead_edges.push(ce);
                proof {
                    let fa = state.alive_edges@;
                    let fd = state.dead_edges@;
                    assert forall|i: int, j: int|
                        #![trigger fa[i], fd[j]]
                        0 <= i < fa.len() && 0 <= j < fd.len() implies canon(fa[i]) != fd[j] by {
                        if j == fd.len() - 1 {
                            assert(canon(fa[i]) != canon(e));
                        } else {
                            assert(fa[i] == oa[i] && fd[j] == od[j]);
                        }
                    }
                    assert forall|x: Edge|
                        canon_in(oa, x) || edge_in(od, x) implies canon_in(fa, x) || edge_in(
                        fd, x) by {
                        if canon_in(oa, x) {
                            let i = choose|i: int| 0 <= i < oa.len() && canon(oa[i]) == x;
                            if i < oa.len() - 1 {
                                assert(canon(fa[i]) == x);
                            } else {
                                assert(fd[fd.len() - 1] == x);
                            }
                        } else {
                            let i = choose|i: int| 0 <= i < od.len() && od[i] == x;
                            assert(fd[i] == x);
                        }
                    }
                    assert forall|x: Edge| #[trigger] edge_in(od, x) implies edge_in(
                        state.dead_edges@, x) by {
                        let i = choose|i: int| 0 <= i < od.len() && od[i] == x;
                        assert(state.dead_edges@[i] == x);
                    }
                    assert forall|w: int| 0 <= w < state.triangles@.len() implies tri_wf(
                        #[trigger] state.triangles@[w], n,
                    ) && tri_registered(state.triangles@[w], state.alive_edges@,
                        state.dead_edges@,
                    ) by {
                        lemma_tri_registered_transfer(
                            state.triangles@[w], oa, od, state.alive_edges@, state.dead_edges@,
                        );
                    }
                }
                true
            },
            Some(k) => {
                let t = Polygon::from_poses([e.from, e.to, k]);
                proof {
                    if e.from < e.to {
                        lemma_triangle_edges(e.from as int, e.to as int, k as int);
                    } else {
                        lemma_triangle_edges(e.to as int, e.from as int, k as int);
                        assert(spec_triangle(e.to as int, e.from as int, k as int)
                            == spec_triangle(e.from as int, e.to as int, k as int));
                    }
                }
                state.triangles.push(t);
                let nd1 = if crate::polygon::Polygon::is_point_left(
                    state.points[e.to], state.points[e.from], state.points[k],
                ) {
                    DirEdge { from: e.from, to: k }
                } else {
                    DirEdge { from: k, to: e.from }
                };
                let nd2 = if crate::polygon::Polygon::is_point_left(
                    state.points[e.from], state.points[e.to], state.points[k],
                ) {
                    DirEdge { from: e.to, to: k }
                } else {
                    DirEdge { from: k, to: e.to }
                };
                proof {
                    assert(nd1 == oriented_new_edge(pts, e.from as int, k as int, e.to as int));
                    assert(nd2 == oriented_new_edge(pts, e.to as int, k as int, e.from as int));
                    assert(canon(nd1) == spec_edge(e.from as int, k as int));
                    assert(canon(nd2) == spec_edge(e.to as int, k as int));
                    lemma_register_edge_props(popped, state.dead_edges@, nd1, n);
                }
                register_one(&mut state.alive_edges, &mut state.dead_edges, nd1);
                proof {
                    lemma_register_edge_props(state.alive_edges@, state.dead_edges@, nd2, n);
                }
                register_one(&mut state.alive_edges, &mut state.dead_edges, nd2);
                proof {
                    let s1 = register_edge(popped, od, nd1);
                    let s2 = register_edge(s1.0, s1.1, nd2);
                    assert(state.alive_edges@ == s2.0 && state.dead_edges@ == s2.1);
                    // The popped edge differs canonically from both new
                    // edges, so it is still in neither worklist.
                    assert(canon(nd1) != canon(e) && canon(nd2) != canon(e));
                    assert(!canon_in(s2.0, canon(e)) && !edge_in(s2.1, canon(e))) by {
                        if canon_in(s2.0, canon(e)) {
                            assert(canon_in(s1.0, canon(e)) || canon(e) == canon(nd2));
                            assert(canon_in(popped, canon(e)) || canon(e) == canon(nd1) || canon(
                                e) == canon(nd2));
                            let i = choose|i: int|
                                0 <= i < popped.len() && canon(popped[i]) == canon(e);
                            assert(false);
                        }
                        if edge_in(s2.1, canon(e)) {
                            assert(edge_in(s1.1, canon(e)) || canon(e) == canon(nd2));
                            assert(edge_in(od, canon(e)) || canon(e) == canon(nd1) || canon(e)
                                == canon(nd2));
                        }
                    }
                }
                state.dead_edges.push(ce);
                proof {
                    let s1 = register_edge(popped, od, nd1);
                    let s2 = register_edge(s1.0, s1.1, nd2);
                    let fa = state.alive_edges@;
                    let fd = state.dead_edges@;
                    assert(fa == s2.0 && fd == s2.1.push(canon(e)));
                    assert forall|i: int, j: int|
                        #![trigger fa[i], fd[j]]
                        0 <= i < fa.len() && 0 <= j < fd.len() implies canon(fa[i]) != fd[j] by {
                        if j == fd.len() - 1 {
                            assert(fd[j] == canon(e));
                            assert(canon_in(fa, canon(fa[i])));
                        } else {
                            assert(fd[j] == s2.1[j]);
                            assert(canon_in(fa, canon(fa[i])) && edge_in(s2.1, fd[j]));
                        }
                    }
                    assert(no_dup_edges(fd)) by {
                        assert forall|i: int, j: int|
                            0 <= i < j < fd.len() implies fd[i] != fd[j] by {
                            if j == fd.len() - 1 {
                                assert(fd[i] == s2.1[i]);
                                assert(edge_in(s2.1, fd[i]));
                            } else {
                                assert(fd[i] == s2.1[i] && fd[j] == s2.1[j]);
                            }
                        }
                    }
                    assert(edges_wf(fd, n)) by {
                        assert forall|i: int| #![trigger fd[i]] 0 <= i < fd.len() implies edge_wf(
                            fd[i], n,
                        ) by {
                            if i < fd.len() - 1 {
                                assert(fd[i] == s2.1[i]);
                            }
                        }
                    }
                    // Everything recorded before is still recorded.
                    assert forall|x: Edge|
                        canon_in(oa, x) || edge_in(od, x) implies canon_in(fa, x) || edge_in(
                        fd, x) by {
                        if canon_in(oa, x) {
                            let i = choose|i: int| 0 <= i < oa.len() && canon(oa[i]) == x;
                            if i < oa.len() - 1 {
                                assert(canon(popped[i]) == x);
                                assert(canon_in(popped, x));
                            } else {
                                assert(x == canon(e));
                                assert(fd[fd.len() - 1] == canon(e));
                            }
                        }
                        if canon_in(popped, x) || edge_in(od, x) {
                            assert(canon_in(s1.0, x) || edge_in(s1.1, x));
                            assert(canon_in(s2.0, x) || edge_in(s2.1, x));
                            if edge_in(s2.1, x) {
                                lemma_edge_in_push(s2.1, canon(e), x);
                            }
                        }
                    }
                    assert forall|x: Edge| #[trigger] edge_in(od, x) implies edge_in(fd, x) by {
                        assert(edge_in(s1.1, x));
                        assert(edge_in(s2.1, x));
                        lemma_edge_in_push(s2.1, canon(e), x);
                    }
                    assert forall|w: int| 0 <= w < state.triangles@.len() implies tri_wf(
                        #[trigger] state.triangles@[w], n,
                    ) && tri_registered(state.triangles@[w], fa, fd) by {
                        if w < state.triangles@.len() - 1 {
                            assert(state.triangles@[w] == old(state).triangles_spec()[w]);
                            lemma_tri_registered_transfer(state.triangles@[w], oa, od, fa, fd);
                        } else {
                            assert(state.triangles@[w] == t);
                            assert(fd[fd.len() - 1] == canon(e));
                            assert(canon(e) == spec_edge(e.from as int, e.to as int));
                            assert(canon_in(s2.0, canon(nd1)) || edge_in(s2.1, canon(nd1))) by {
                                assert(canon_in(s1.0, canon(nd1)) || edge_in(s1.1, canon(nd1)));
                            }
                            if edge_in(s2.1, canon(nd1)) {
                                lemma_edge_in_push(s2.1, canon(e), canon(nd1));
                            }
                            if edge_in(s2.1, canon(nd2)) {
                                lemma_edge_in_push(s2.1, canon(e), canon(nd2));
                            }
                        }
                    }
                    // Witness for the transition stated in the contract.
                    let kk = k as int;
                    assert(is_candidate(
                        old(state).points_spec(), old(state).alive_spec().last(), kk,
                    ));
                    assert(state.triangles@ == old(state).triangles_spec().push(
                        spec_triangle(e.from as int, e.to as int, kk),
                    ));
                    assert(state.alive_edges@ == s2.0);
                    assert(state.dead_edges@ == s2.1.push(canon(e)));
                }
                true
            },
        }
    }
}

/// The direction a freshly discovered triangle edge is stored with: from
/// `a` to `k` when the triangle's third vertex `c` lies to the left of
/// that direction, else reversed — so the known triangle is always on the
/// stored edge's left and the unexplored territory on its right.
pub open spec fn oriented_new_edge(pts: Seq<Point>, a: int, k: int, c: int) -> DirEdge {
    if cross3(pts[a], pts[k], pts[c]) > 0 {
        DirEdge { from: a as usize, to: k as usize }
    } else {
        DirEdge { from: k as usize, to: a as usize }
    }
}

/// Apply the worklist transition of [`register_edge`] in place.
fn register_one(alive: &mut Vec<DirEdge>, dead: &mut Vec<Edge>, nd: DirEdge)
    ensures
        (final(alive)@, final(dead)@) == register_edge(old(alive)@, old(dead)@, nd),
{
    let ne = Edge::new(nd.from, nd.to);
    let in_dead = edges_contain(dead, ne);
    let in_alive = dir_edges_contain(alive, ne);
    if !in_dead && !in_alive {
        alive.push(nd);
    } else if in_alive {
        remove_first_canon(alive, ne);
        dead.push(ne);
    }
}

/// A triangle registered against one worklist pair stays registered
/// against any pair that keeps every recorded edge.
proof fn lemma_tri_registered_transfer(
    t: Polygon,
    alive0: Seq<DirEdge>,
    dead0: Seq<Edge>,
    alive1: Seq<DirEdge>,
    dead1: Seq<Edge>,
)
    requires
        tri_registered(t, alive0, dead0),
        forall|x: Edge|
            canon_in(alive0, x) || edge_in(dead0, x) ==> canon_in(alive1, x) || edge_in(dead1, x),
    ensures
        tri_registered(t, alive1, dead1),
{
}

/// Pushing never removes a recorded edge.
proof fn lemma_edge_in_push(s: Seq<Edge>, y: Edge, x: Edge)
    requires
        edge_in(s, x),
    ensures
        edge_in(s.push(y), x),
{
    let i = choose|i: int| 0 <= i < s.len() && s[i] == x;
    assert(s.push(y)[i] == x);
}

/// Pair encodings are unique: distinct canonical pairs get distinct codes.
proof fn lemma_pair_code_unique(a1: int, b1: int, a2: int, b2: int, n: int) by (nonlinear_arith)
    requires
        0 <= b1 < n,
        0 <= b2 < n,
        a1 * n + b1 == a2 * n + b2,
    ensures
        a1 == a2,
        b1 == b2,
{
}

/// A duplicate-free list of well-formed edges over `n` points has at most
/// `n * n` entries: each edge is a distinct code under `e.0 * n + e.1`.
proof fn lemma_edges_card(s: Seq<Edge>, n: int)
    requires
        no_dup_edges(s),
        edges_wf(s, n),
        n >= 0,
    ensures
        s.len() <= n * n,
{
    let f = |e: Edge| e.0 as int * n + e.1 as int;
    let m = s.map_values(f);
    assert(m.no_duplicates()) by {
        assert forall|i: int, j: int|
            0 <= i < m.len() && 0 <= j < m.len() && i != j implies m[i] != m[j] by {
            if m[i] == m[j] {
                assert(m[i] == f(s[i]) && m[j] == f(s[j]));
                lemma_pair_code_unique(
                    s[i].0 as int, s[i].1 as int, s[j].0 as int, s[j].1 as int, n,
                );
                assert(s[i] == s[j]);
            }
        }
    }
    m.unique_seq_to_set();
    assert(m.to_set().subset_of(vstd::set_lib::set_int_range(0, n * n))) by {
        assert forall|x: int| m.to_set().contains(x) implies vstd::set_lib::set_int_range(
            0, n * n,
        ).contains(x) by {
            let i = choose|i: int| 0 <= i < m.len() && m[i] == x;
            assert(m[i] == f(s[i]));
            let e = s[i];
            assert(e.0 < e.1 < n);
            let e0 = e.0 as int;
            let e1 = e.1 as int;
            assert(0 <= e0 * n) by (nonlinear_arith)
                requires
                    n >= 0,
                    e0 >= 0,
            ;
            assert(e0 * n + e1 < n * n) by (nonlinear_arith)
                requires
                    e0 < n,
                    0 <= e1,
                    e1 < n,
            ;
        }
    }
    assert(n * n >= 0) by (nonlinear_arith)
        requires
            n >= 0,
    ;
    vstd::set_lib::lemma_int_range(0, n * n);
    vstd::set_lib::lemma_len_subset(m.to_set(), vstd::set_lib::set_int_range(0, n * n));
}

/// A prefix of a sequence is a prefix of any extension of it.
proof fn lemma_prefix_push(s1: Seq<Polygon>, s2: Seq<Polygon>, t: Polygon)
    requires
        s1.is_prefix_of(s2),
    ensures
        s1.is_prefix_of(s2.push(t)),
{
    assert(s2.push(t).subrange(0, s1.len() as int) =~= s2.subrange(0, s1.len() as int));
}

/// Drive the triangulation until every discovered edge is resolved. Each
/// step resolves at least one more edge, and there are at most `n * n`
/// distinct edges over `n` points, so the loop terminates. Afterwards no
/// alive edge remains, every emitted triangle survives with every one of
/// its edges dead, and anything that was already dead stays dead.
pub fn run_to_completion(state: &mut TriangulationState)
    requires
        old(state).wf(),
    ensures
        final(state).wf(),
        final(state).points_spec() == old(state).points_spec(),
        final(state).alive_spec().len() == 0,
        old(state).alive_spec().len() > 0 || old(state).dead_spec().len() > 0
            ==> final(state).dead_spec().len() > 0,
        forall|x: Edge|
            #[trigger] edge_in(old(state).dead_spec(), x) ==> edge_in(final(state).dead_spec(), x),
        old(state).triangles_spec().is_prefix_of(final(state).triangles_spec()),
        forall|w: int|
            0 <= w < final(state).triangles_spec().len() ==> {
                let t = #[trigger] final(state).triangles_spec()[w];
                &&& edge_in(final(state).dead_spec(), tri_edge_ab(t))
                &&& edge_in(final(state).dead_spec(), tri_edge_ac(t))
                &&& edge_in(final(state).dead_spec(), tri_edge_bc(t))
            },
{
    let ghost n = state.points@.len() as int;
    let mut progressed = true;
    while progressed
        invariant
            state.wf(),
            state.points_spec() == old(state).points_spec(),
            n == state.points_spec().len() as int,
            !progressed ==> state.alive_spec().len() == 0,
            old(state).alive_spec().len() > 0 || old(state).dead_spec().len() > 0
                ==> state.alive_spec().len() > 0 || state.dead_spec().len() > 0,
            forall|x: Edge|
                #[trigger] edge_in(old(state).dead_spec(), x) ==> edge_in(state.dead_spec(), x),
            old(state).triangles_spec().is_prefix_of(state.triangles_spec()),
        decreases n * n - state.dead_spec().len(), (if progressed { 1int } else { 0int }),
    {
        proof {
            lemma_edges_card(state.dead_edges@, n);
        }
        let ghost pre = *state;
        progressed = TriangulationState::step_triangulation(state);
        proof {
            lemma_edges_card(state.dead_edges@, n);
            if pre.triangles_spec() == state.triangles_spec() {
            } else {
                if exists|k: int|
                    is_candidate(pre.points_spec(), pre.alive_spec().last(), k) {
                    let k = choose|k: int|
                        #![trigger is_candidate(pre.points_spec(), pre.alive_spec().last(), k)]
                        {
                            &&& is_candidate(pre.points_spec(), pre.alive_spec().last(), k)
                            &&& state.triangles_spec() == pre.triangles_spec().push(
                                spec_triangle(
                                    pre.alive_spec().last().from as int,
                                    pre.alive_spec().last().to as int,
                                    k,
                                ),
                            )
                        };
                    lemma_prefix_push(
                        old(state).triangles_spec(), pre.triangles_spec(), spec_triangle(
                            pre.alive_spec().last().from as int, pre.alive_spec().last().to as int, k,
                        ),
                    );
                }
            }
        }
    }
    proof {
        assert forall|w: int| 0 <= w < state.triangles_spec().len() implies {
            let t = #[trigger] state.triangles_spec()[w];
            &&& edge_in(state.dead_spec(), tri_edge_ab(t))
            &&& edge_in(state.dead_spec(), tri_edge_ac(t))
            &&& edge_in(state.dead_spec(), tri_edge_bc(t))
        } by {
            let t = state.triangles_spec()[w];
            assert(tri_registered(t, state.alive_edges@, state.dead_edges@));
            assert(!canon_in(state.alive_edges@, tri_edge_ab(t)));
            assert(!canon_in(state.alive_edges@, tri_edge_ac(t)));
            assert(!canon_in(state.alive_edges@, tri_edge_bc(t)));
        }
    }
}

impl Default for TriangulationState {
    /// The default state is empty.
    fn default() -> (r: TriangulationState)
        ensures
            r.points_spec() == Seq::<Point>::empty(),
            r.triangles_spec() == Seq::<Polygon>::empty(),
            r.alive_spec() == Seq::<DirEdge>::empty(),
            r.dead_spec() == Seq::<Edge>::empty(),
            r.wf(),
    {
        TriangulationState::new()
    }
}

} // verus!
