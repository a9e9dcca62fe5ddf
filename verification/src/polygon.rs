//! Polygons (planar regions) over the scaled-integer plane: an ordered
//! vertex list whose edges run from earlier vertices to later ones, with
//! exact convexity and containment predicates and a cache of boundary
//! self-intersection points.
//!
//! A single point and a segment count as (degenerate) polygons. Because
//! coordinates are integers, every epsilon test of a floating-point
//! formulation collapses to an exact comparison here: tolerances smaller
//! than one grid unit admit only exact equality.

use vstd::prelude::*;
use crate::arith::{
    div_round, lemma_interp_bound, lemma_mul_bound, lemma_round_div_range, round_div,
};
use crate::point::{cross3, cross_of, Point, MAX_COORD};
use crate::transform2d::{Transform2D, TransformModel};

verus! {

/// Every point of the sequence lies in the engine's working range.
pub open spec fn all_in_range(s: Seq<Point>) -> bool {
    forall|i: int| #![trigger s[i]] 0 <= i < s.len() ==> s[i].in_range()
}

/// The orientation form of the vertex triple starting at `i`, indices
/// taken cyclically.
pub open spec fn cross_at(vs: Seq<Point>, i: int) -> int {
    let n = vs.len() as int;
    cross3(vs[i], vs[(i + 1) % n], vs[(i + 2) % n])
}

/// A region is convex when it has at least three vertices and no two of
/// its cyclic vertex triples turn in opposite directions. Exactly
/// collinear triples are neutral and never break convexity.
pub open spec fn spec_is_convex(vs: Seq<Point>) -> bool {
    &&& vs.len() >= 3
    &&& !(exists|i: int, j: int|
        0 <= i < vs.len() && 0 <= j < vs.len() && #[trigger] cross_at(vs, i) > 0
            && #[trigger] cross_at(vs, j) < 0)
}

/// The point `(x, y)` lies on the segment `p1 p2`: exactly on the carrying
/// line, with its projection inside the segment's parameter range.
pub open spec fn segment_contains(p1: Point, p2: Point, x: int, y: int) -> bool {
    let cross = (p2.x - p1.x) * (y - p1.y) - (p2.y - p1.y) * (x - p1.x);
    let dot = (x - p1.x) * (p2.x - p1.x) + (y - p1.y) * (p2.y - p1.y);
    let len2 = (p2.x - p1.x) * (p2.x - p1.x) + (p2.y - p1.y) * (p2.y - p1.y);
    cross == 0 && 0 <= dot && dot <= len2
}

/// Does the horizontal ray from `(x, y)` toward `+x` cross the boundary
/// edge that starts at vertex `i`? Strict inequalities on `y` keep a
/// vertex from being counted twice for its two incident edges.
pub open spec fn edge_crosses_ray(vs: Seq<Point>, i: int, x: int, y: int) -> bool {
    let n = vs.len() as int;
    let vi = vs[i];
    let vj = vs[(i + 1) % n];
    &&& ((vi.y > y) != (vj.y > y))
    &&& if vj.y > vi.y {
        (x - vi.x) * (vj.y - vi.y) < (vj.x - vi.x) * (y - vi.y)
    } else {
        (x - vi.x) * (vj.y - vi.y) > (vj.x - vi.x) * (y - vi.y)
    }
}

/// Parity of ray crossings over the first `k` boundary edges.
pub open spec fn ray_parity(vs: Seq<Point>, x: int, y: int, k: int) -> bool
    decreases k,
{
    if k <= 0 {
        false
    } else {
        ray_parity(vs, x, y, k - 1) != edge_crosses_ray(vs, k - 1, x, y)
    }
}

/// What `contains` decides, by vertex count: nothing is inside an empty
/// region; a point region holds exactly its point; a segment region holds
/// the points of its segment; a region of three or more vertices holds
/// the points with an odd number of ray crossings (even-odd rule, with
/// ray-casting's usual boundary behavior).
pub open spec fn spec_contains(vs: Seq<Point>, x: int, y: int) -> bool {
    if vs.len() == 0 {
        false
    } else if vs.len() == 1 {
        vs[0].x == x && vs[0].y == y
    } else if vs.len() == 2 {
        segment_contains(vs[0], vs[1], x, y)
    } else {
        ray_parity(vs, x, y, vs.len() as int)
    }
}

/// Exact intersection of the segments `a b` and `c d`, as `contains` and
/// the self-intersection cache use it: `None` when the segments are
/// parallel or the crossing parameter of either segment leaves `[0, 1]`;
/// otherwise the crossing point rounded to the grid.
pub open spec fn seg_intersection(a: Point, b: Point, c: Point, d: Point) -> Option<Point> {
    let abx = b.x - a.x;
    let aby = b.y - a.y;
    let cdx = d.x - c.x;
    let cdy = d.y - c.y;
    let den0 = cdx * aby - cdy * abx;
    let tn0 = cdy * (a.x - c.x) - cdx * (a.y - c.y);
    let den = if den0 >= 0 { den0 } else { -den0 };
    let tn = if den0 >= 0 { tn0 } else { -tn0 };
    if den0 == 0 {
        None
    } else if !(0 <= tn && tn <= den) {
        None
    } else {
        let ix = a.x * den + tn * abx;
        let iy = a.y * den + tn * aby;
        let sn = cdx * (ix - c.x * den) + cdy * (iy - c.y * den);
        let sd = den * (cdx * cdx + cdy * cdy);
        if !(0 <= sn && sn <= sd) {
            None
        } else {
            Some(Point { x: round_div(ix, den) as i64, y: round_div(iy, den) as i64 })
        }
    }
}

/// `p` occurs in the sequence.
pub open spec fn seq_contains_point(s: Seq<Point>, p: Point) -> bool {
    exists|k: int| 0 <= k < s.len() && s[k] == p
}

/// One row of the self-intersection scan: fold the crossings of edge `i`
/// with edges `j, j+1, ...` into `acc`, skipping the wrapping neighbour
/// and crossings already recorded.
pub open spec fn inter_row(vs: Seq<Point>, acc: Seq<Point>, i: int, j: int) -> Seq<Point>
    decreases vs.len() - j,
{
    let n = vs.len() as int;
    if j < i + 2 || j >= n || i < 0 || i >= n {
        acc
    } else {
        let acc2 = if (j + 1) % n == i {
            acc
        } else {
            match seg_intersection(vs[i], vs[(i + 1) % n], vs[j], vs[(j + 1) % n]) {
                Some(p) => if seq_contains_point(acc, p) {
                    acc
                } else {
                    acc.push(p)
                },
                None => acc,
            }
        };
        inter_row(vs, acc2, i, j + 1)
    }
}

/// All rows of the self-intersection scan from row `i` on.
pub open spec fn inter_rows(vs: Seq<Point>, acc: Seq<Point>, i: int) -> Seq<Point>
    decreases vs.len() - i,
{
    let n = vs.len() as int;
    if i < 0 || i >= n {
        acc
    } else {
        inter_rows(vs, inter_row(vs, acc, i, i + 2), i + 1)
    }
}

/// The self-intersection cache a vertex list determines: every proper
/// crossing of two non-adjacent boundary edges, rounded to the grid,
/// first discovery first, duplicates dropped. Regions of fewer than four
/// vertices have no non-adjacent edge pairs and an empty cache.
pub open spec fn intersections_spec(vs: Seq<Point>) -> Seq<Point> {
    if vs.len() < 4 {
        Seq::empty()
    } else {
        inter_rows(vs, Seq::empty(), 0)
    }
}

/// Sum of the x coordinates.
pub open spec fn sum_x(s: Seq<Point>) -> int
    decreases s.len(),
{
    if s.len() == 0 {
        0
    } else {
        sum_x(s.drop_last()) + s.last().x
    }
}

/// Sum of the y coordinates.
pub open spec fn sum_y(s: Seq<Point>) -> int
    decreases s.len(),
{
    if s.len() == 0 {
        0
    } else {
        sum_y(s.drop_last()) + s.last().y
    }
}

/// Coordinate sums of in-range points grow at most one range-width per
/// vertex.
proof fn lemma_sum_bounds(s: Seq<Point>)
    requires
        all_in_range(s),
    ensures
        -(s.len() * 100_000) <= sum_x(s) <= s.len() * 100_000,
        -(s.len() * 100_000) <= sum_y(s) <= s.len() * 100_000,
    decreases s.len(),
{
    if s.len() > 0 {
        assert(all_in_range(s.drop_last())) by {
            assert(forall|i: int| #![trigger s.drop_last()[i]]
                0 <= i < s.drop_last().len() ==> s.drop_last()[i] == s[i]);
        }
        lemma_sum_bounds(s.drop_last());
        assert(s.last().in_range());
    }
}

/// The image of `p` under `m`, rounded to the grid.
pub open spec fn image_point(m: TransformModel, p: Point) -> Point {
    Point {
        x: round_div(m.apply_x(p.x as int, p.y as int, 1), m.w) as i64,
        y: round_div(m.apply_y(p.x as int, p.y as int, 1), m.w) as i64,
    }
}

/// Every point of the sequence has its rounded image under `m` inside the
/// working range.
pub open spec fn all_images_in_range(m: TransformModel, s: Seq<Point>) -> bool {
    forall|i: int| 0 <= i < s.len() ==> #[trigger] Transform2D::image_in_range(m, s[i])
}

/// A polygon: ordered vertices (insertion order is boundary order) plus
/// the derived cache of boundary self-intersection points.
#[derive(Clone, Debug)]
pub struct Polygon {
    vertexes: Vec<Point>,
    intersections: Vec<Point>,
}

impl Polygon {
    /// All stored points lie in the working range.
    pub closed spec fn wf(self) -> bool {
        all_in_range(self.vertexes@) && all_in_range(self.intersections@)
    }

    /// The vertex list, in boundary order.
    pub closed spec fn vertexes_spec(self) -> Seq<Point> {
        self.vertexes@
    }

    /// The cached self-intersection points.
    pub closed spec fn intersections_spec_of(self) -> Seq<Point> {
        self.intersections@
    }

    /// Read access to the vertices for a renderer.
    pub fn vertexes(&self) -> (r: &Vec<Point>)
        ensures
            r@ == self.vertexes_spec(),
    {
        &self.vertexes
    }

    /// Read access to the cached self-intersection points for a renderer.
    pub fn intersections(&self) -> (r: &Vec<Point>)
        ensures
            r@ == self.intersections_spec_of(),
    {
        &self.intersections
    }

    /// A degenerate polygon of a single point.
    pub fn new(x: i64, y: i64) -> (r: Polygon)
        requires
            -MAX_COORD <= x <= MAX_COORD,
            -MAX_COORD <= y <= MAX_COORD,
        ensures
            r.vertexes_spec() == seq![Point { x, y }],
            r.intersections_spec_of() == Seq::<Point>::empty(),
            r.wf(),
    {
        let mut vs: Vec<Point> = Vec::new();
        vs.push(Point { x, y });
        proof {
            assert(vs@ =~= seq![Point { x, y }]);
        }
        Polygon { vertexes: vs, intersections: Vec::new() }
    }

    /// A degenerate polygon of a single point.
    pub fn from_pos(pos: Point) -> (r: Polygon)
        requires
            pos.in_range(),
        ensures
            r.vertexes_spec() == seq![pos],
            r.intersections_spec_of() == Seq::<Point>::empty(),
            r.wf(),
    {
        Self::new(pos.x, pos.y)
    }

    /// Is the polygon a single vertex?
    pub fn is_vertex(&self) -> (r: bool)
        ensures
            r == (self.vertexes_spec().len() == 1),
    {
        self.vertexes.len() == 1
    }

    /// Is the polygon a single edge (two vertices)?
    pub fn is_edge(&self) -> (r: bool)
        ensures
            r == (self.vertexes_spec().len() == 2),
    {
        self.vertexes.len() == 2
    }

    /// Append a vertex and recompute the self-intersection cache: the one
    /// structural mutation, so the cache always matches the vertex list.
    pub fn add_vertex(&mut self, x: i64, y: i64)
        requires
            old(self).wf(),
            -MAX_COORD <= x <= MAX_COORD,
            -MAX_COORD <= y <= MAX_COORD,
        ensures
            final(self).vertexes_spec() == old(self).vertexes_spec().push(Point { x, y }),
            final(self).intersections_spec_of() == intersections_spec(
                final(self).vertexes_spec(),
            ),
            final(self).wf(),
    {
        self.vertexes.push(Point { x, y });
        self.update_intersections();
    }

    /// Append a vertex given as a point.
    pub fn add_vertex_pos(&mut self, pos: Point)
        requires
            old(self).wf(),
            pos.in_range(),
        ensures
            final(self).vertexes_spec() == old(self).vertexes_spec().push(pos),
            final(self).intersections_spec_of() == intersections_spec(
                final(self).vertexes_spec(),
            ),
            final(self).wf(),
    {
        self.add_vertex(pos.x, pos.y);
    }

    /// Recompute the cache from the vertex list.
    fn update_intersections(&mut self)
        requires
            all_in_range(old(self).vertexes@),
        ensures
            final(self).vertexes@ == old(self).vertexes@,
            final(self).intersections@ == intersections_spec(old(self).vertexes@),
            final(self).wf(),
    {
        self.intersections = Vec::new();
        let n = self.vertexes.len();
        if n < 4 {
            proof {
                assert(self.intersections@ =~= Seq::<Point>::empty());
            }
            return ;
        }
        let ghost vs = self.vertexes@;
        let ghost goal = inter_rows(vs, Seq::empty(), 0);
        proof {
            assert(self.intersections@ =~= Seq::<Point>::empty());
        }
        let mut i: usize = 0;
        while i < n
            invariant
                n == vs.len(),
                4 <= n,
                i <= n,
                self.vertexes@ == vs,
                all_in_range(vs),
                all_in_range(self.intersections@),
                inter_rows(vs, self.intersections@, i as int) == goal,
            decreases n - i,
        {
            let mut j: usize = if i <= n - 2 { i + 2 } else { n };
            proof {
                assert(inter_rows(vs, self.intersections@, i as int) == inter_rows(
                    vs,
                    inter_row(vs, self.intersections@, i as int, i as int + 2),
                    i as int + 1,
                ));
                if i as int + 2 > n as int {
                    assert(inter_row(vs, self.intersections@, i as int, i as int + 2)
                        == self.intersections@);
                    assert(inter_row(vs, self.intersections@, i as int, j as int)
                        == self.intersections@);
                }
            }
            while j < n
                invariant
                    n == vs.len(),
                    4 <= n,
                    i < n,
                    j <= n,
                    i + 2 <= j || j == n,
                    self.vertexes@ == vs,
                    all_in_range(vs),
                    all_in_range(self.intersections@),
                    inter_rows(vs, inter_row(vs, self.intersections@, i as int, j as int), i as int
                        + 1) == goal,
                decreases n - j,
            {
                if (j + 1) % n != i {
                    let a = self.vertexes[i];
                    let b = self.vertexes[(i + 1) % n];
                    let c = self.vertexes[j];
                    let d = self.vertexes[(j + 1) % n];
                    match Self::segments_intersect(a, b, c, d) {
                        Some(p) => {
                            if !contains_point(&self.intersections, p) {
                                self.intersections.push(p);
                            }
                        },
                        None => {},
                    }
                }
                j = j + 1;
            }
            i = i + 1;
        }
    }

    /// Apply an affine transform: map every vertex and every cached
    /// self-intersection point through it, rounding each image to the
    /// grid. Succeeds (and mutates) only when every image stays in the
    /// working range; otherwise leaves the polygon unchanged and reports
    /// `false`. The cache is mapped, not recomputed, mirroring how the
    /// exact transform carries crossings to crossings; rounding may
    /// therefore let the mapped cache drift from the recomputed one by a
    /// grid unit.
    pub fn apply_transform(&mut self, transform: &Transform2D) -> (r: bool)
        requires
            old(self).wf(),
            transform.wf(),
        ensures
            r == (all_images_in_range(transform@, old(self).vertexes_spec())
                && all_images_in_range(transform@, old(self).intersections_spec_of())),
            r ==> final(self).vertexes_spec() == old(self).vertexes_spec().map_values(
                |p: Point| image_point(transform@, p),
            ),
            r ==> final(self).intersections_spec_of()
                == old(self).intersections_spec_of().map_values(
                |p: Point| image_point(transform@, p),
            ),
            r ==> final(self).wf(),
            !r ==> *final(self) == *old(self),
    {
        let ghost m = transform@;
        let mut new_vs: Vec<Point> = Vec::new();
        let mut i: usize = 0;
        while i < self.vertexes.len()
            invariant
                self == old(self),
                old(self).wf(),
                transform.wf(),
                m == transform@,
                i <= self.vertexes.len(),
                new_vs@ == self.vertexes@.take(i as int).map_values(
                    |p: Point| image_point(m, p),
                ),
                all_in_range(new_vs@),
                forall|k: int|
                    0 <= k < i ==> #[trigger] Transform2D::image_in_range(m, self.vertexes@[k]),
            decreases self.vertexes.len() - i,
        {
            let p = self.vertexes[i];
            match transform.apply_to_pos(p) {
                Some(q) => {
                    proof {
                        assert(q == image_point(m, p));
                        assert(self.vertexes@.take(i as int + 1).drop_last() =~= self.vertexes@
                            .take(i as int));
                        assert(self.vertexes@.take(i as int + 1).map_values(
                            |p: Point| image_point(m, p),
                        ) =~= self.vertexes@.take(i as int).map_values(
                            |p: Point| image_point(m, p),
                        ).push(image_point(m, p)));
                    }
                    new_vs.push(q);
                },
                None => {
                    return false;
                },
            }
            i = i + 1;
        }
        let mut new_is: Vec<Point> = Vec::new();
        let mut k: usize = 0;
        while k < self.intersections.len()
            invariant
                self == old(self),
                old(self).wf(),
                transform.wf(),
                m == transform@,
                k <= self.intersections.len(),
                new_is@ == self.intersections@.take(k as int).map_values(
                    |p: Point| image_point(m, p),
                ),
                all_in_range(new_is@),
                forall|t: int|
                    0 <= t < k ==> #[trigger] Transform2D::image_in_range(
                        m,
                        self.intersections@[t],
                    ),
            decreases self.intersections.len() - k,
        {
            let p = self.intersections[k];
            match transform.apply_to_pos(p) {
                Some(q) => {
                    proof {
                        assert(q == image_point(m, p));
                        assert(self.intersections@.take(k as int + 1).drop_last()
                            =~= self.intersections@.take(k as int));
                        assert(self.intersections@.take(k as int + 1).map_values(
                            |p: Point| image_point(m, p),
                        ) =~= self.intersections@.take(k as int).map_values(
                            |p: Point| image_point(m, p),
                        ).push(image_point(m, p)));
                    }
                    new_is.push(q);
                },
                None => {
                    return false;
                },
            }
            k = k + 1;
        }
        proof {
            assert(self.vertexes@.take(self.vertexes@.len() as int) =~= self.vertexes@);
            assert(self.intersections@.take(self.intersections@.len() as int)
                =~= self.intersections@);
        }
        self.vertexes = new_vs;
        self.intersections = new_is;
        true
    }

    /// Is the polygon convex? Fewer than three vertices never are; for
    /// three or more, all non-collinear cyclic vertex triples must turn
    /// the same way.
    pub fn is_convex(&self) -> (r: bool)
        requires
            self.wf(),
        ensures
            r == spec_is_convex(self.vertexes_spec()),
    {
        let n = self.vertexes.len();
        if n < 3 {
            return false;
        }
        let ghost vs = self.vertexes@;
        let mut sign: i64 = 0;
        let mut i: usize = 0;
        while i < n
            invariant
                n == vs.len(),
                3 <= n,
                i <= n,
                self.vertexes@ == vs,
                all_in_range(vs),
                sign == 0 || sign == 1 || sign == -1,
                sign == 0 ==> forall|k: int| 0 <= k < i ==> #[trigger] cross_at(vs, k) == 0,
                sign == 1 ==> forall|k: int| 0 <= k < i ==> #[trigger] cross_at(vs, k) >= 0,
                sign == -1 ==> forall|k: int| 0 <= k < i ==> #[trigger] cross_at(vs, k) <= 0,
                sign == 1 ==> exists|k: int| 0 <= k < i && #[trigger] cross_at(vs, k) > 0,
                sign == -1 ==> exists|k: int| 0 <= k < i && #[trigger] cross_at(vs, k) < 0,
            decreases n - i,
        {
            let p1 = self.vertexes[i];
            let i1 = (i + 1) % n;
            let i2 = (i1 + 1) % n;
            let p2 = self.vertexes[i1];
            let p3 = self.vertexes[i2];
            let cross = cross_of(p1, p2, p3);
            proof {
                vstd::arithmetic::div_mod::lemma_small_mod(1nat, n as nat);
                vstd::arithmetic::div_mod::lemma_add_mod_noop(i as int + 1, 1, n as int);
                assert(i2 as int == (i as int + 2) % (n as int));
                assert(cross == cross_at(vs, i as int));
            }
            if cross != 0 {
                let current: i64 = if cross > 0 { 1 } else { -1 };
                if sign == 0 {
                    sign = current;
                } else if sign != current {
                    proof {
                        if sign == 1 {
                            let w = choose|k: int| 0 <= k < i && #[trigger] cross_at(vs, k) > 0;
                            assert(cross_at(vs, w) > 0 && cross_at(vs, i as int) < 0);
                        } else {
                            let w = choose|k: int| 0 <= k < i && #[trigger] cross_at(vs, k) < 0;
                            assert(cross_at(vs, i as int) > 0 && cross_at(vs, w) < 0);
                        }
                    }
                    return false;
                }
            }
            i = i + 1;
        }
        true
    }

    /// Does the region contain the point `(x, y)`? See [`spec_contains`]
    /// for the three regimes by vertex count.
    pub fn contains(&self, x: i64, y: i64) -> (r: bool)
        requires
            self.wf(),
        ensures
            r == spec_contains(self.vertexes_spec(), x as int, y as int),
    {
        let n = self.vertexes.len();
        if n == 0 {
            false
        } else if n == 1 {
            let v = self.vertexes[0];
            v.x == x && v.y == y
        } else if n == 2 {
            let p1 = self.vertexes[0];
            let p2 = self.vertexes[1];
            proof {
                lemma_mul_bound(p2.x - p1.x, y as int - p1.y, 200_000, 0x8000_0000_0000_8000_0000);
                lemma_mul_bound(p2.y - p1.y, x as int - p1.x, 200_000, 0x8000_0000_0000_8000_0000);
                lemma_mul_bound(x as int - p1.x, p2.x - p1.x, 0x8000_0000_0000_8000_0000, 200_000);
                lemma_mul_bound(y as int - p1.y, p2.y - p1.y, 0x8000_0000_0000_8000_0000, 200_000);
                lemma_mul_bound(p2.x - p1.x, p2.x - p1.x, 200_000, 200_000);
                lemma_mul_bound(p2.y - p1.y, p2.y - p1.y, 200_000, 200_000);
            }
            let cross: i128 = (p2.x as i128 - p1.x as i128) * (y as i128 - p1.y as i128) - (
            p2.y as i128 - p1.y as i128) * (x as i128 - p1.x as i128);
            if cross != 0 {
                return false;
            }
            let dot: i128 = (x as i128 - p1.x as i128) * (p2.x as i128 - p1.x as i128) + (
            y as i128 - p1.y as i128) * (p2.y as i128 - p1.y as i128);
            let len2: i128 = (p2.x as i128 - p1.x as i128) * (p2.x as i128 - p1.x as i128) + (
            p2.y as i128 - p1.y as i128) * (p2.y as i128 - p1.y as i128);
            0 <= dot && dot <= len2
        } else {
            let ghost vs = self.vertexes@;
            let mut inside = false;
            let mut i: usize = 0;
            while i < n
                invariant
                    n == vs.len(),
                    3 <= n,
                    i <= n,
                    self.vertexes@ == vs,
                    all_in_range(vs),
                    inside == ray_parity(vs, x as int, y as int, i as int),
                decreases n - i,
            {
                let vi = self.vertexes[i];
                let vj = self.vertexes[(i + 1) % n];
                proof {
                    lemma_mul_bound(x as int - vi.x, vj.y - vi.y, 0x8000_0000_0000_8000_0000, 200_000);
                    lemma_mul_bound(vj.x - vi.x, y as int - vi.y, 200_000, 0x8000_0000_0000_8000_0000);
                }
                if (vi.y > y) != (vj.y > y) {
                    let lhs: i128 = (x as i128 - vi.x as i128) * (vj.y as i128 - vi.y as i128);
                    let rhs: i128 = (vj.x as i128 - vi.x as i128) * (y as i128 - vi.y as i128);
                    let crossed = if vj.y > vi.y {
                        lhs < rhs
                    } else {
                        lhs > rhs
                    };
                    if crossed {
                        inside = !inside;
                    }
                }
                i = i + 1;
            }
            inside
        }
    }

    /// Does the region contain the given point?
    pub fn contains_pos(&self, pos: Point) -> (r: bool)
        requires
            self.wf(),
        ensures
            r == spec_contains(self.vertexes_spec(), pos.x as int, pos.y as int),
    {
        self.contains(pos.x, pos.y)
    }

    /// The arithmetic mean of the vertices, rounded to the grid: the
    /// vertex centroid, not the area centroid.
    pub fn get_center(&self) -> (r: Point)
        requires
            self.wf(),
            self.vertexes_spec().len() >= 1,
        ensures
            r.x == round_div(sum_x(self.vertexes_spec()), self.vertexes_spec().len() as int),
            r.y == round_div(sum_y(self.vertexes_spec()), self.vertexes_spec().len() as int),
            r.in_range(),
    {
        let ghost vs = self.vertexes@;
        let n = self.vertexes.len();
        let mut sx: i128 = 0;
        let mut sy: i128 = 0;
        let mut i: usize = 0;
        while i < n
            invariant
                n == vs.len(),
                1 <= n,
                i <= n,
                self.vertexes@ == vs,
                all_in_range(vs),
                sx == sum_x(vs.take(i as int)),
                sy == sum_y(vs.take(i as int)),
                -(i as int * 100_000) <= sx <= i as int * 100_000,
                -(i as int * 100_000) <= sy <= i as int * 100_000,
            decreases n - i,
        {
            let v = self.vertexes[i];
            proof {
                assert(vs.take(i as int + 1).drop_last() =~= vs.take(i as int));
                assert(vs.take(i as int + 1).last() == vs[i as int]);
            }
            sx = sx + v.x as i128;
            sy = sy + v.y as i128;
            i = i + 1;
        }
        proof {
            assert(vs.take(n as int) =~= vs);
            lemma_round_div_range(sx as int, n as int, -100_000, 100_000);
            lemma_round_div_range(sy as int, n as int, -100_000, 100_000);
        }
        let cx = div_round(sx, n as i128);
        let cy = div_round(sy, n as i128);
        Point { x: cx as i64, y: cy as i64 }
    }

    /// Is `point` strictly to the left of the directed segment
    /// `start -> end`?
    pub fn is_point_left(point: Point, start: Point, end: Point) -> (r: bool)
        requires
            point.in_range(),
            start.in_range(),
            end.in_range(),
        ensures
            r == (cross3(start, end, point) > 0),
    {
        cross_of(start, end, point) > 0
    }

    /// Is `point` on or to the right of the directed segment
    /// `start -> end`? The complement of [`Polygon::is_point_left`].
    pub fn is_point_right(point: Point, start: Point, end: Point) -> (r: bool)
        requires
            point.in_range(),
            start.in_range(),
            end.in_range(),
        ensures
            r == (cross3(start, end, point) <= 0),
    {
        !Self::is_point_left(point, start, end)
    }

    /// The inside-pointing perpendicular of boundary edge `i` relative to
    /// a reference point: the edge normal on the reference point's side,
    /// unnormalized. A renderer scales it to draw the per-edge arrow.
    pub fn arrow_direction(&self, i: usize, reference: Point) -> (r: (i64, i64))
        requires
            self.wf(),
            reference.in_range(),
            self.vertexes_spec().len() >= 1,
            i < self.vertexes_spec().len(),
        ensures
            ({
                let n = self.vertexes_spec().len() as int;
                let a = self.vertexes_spec()[i as int];
                let b = self.vertexes_spec()[(i as int + 1) % n];
                if cross3(a, b, reference) > 0 {
                    r.0 == -(b.y - a.y) && r.1 == b.x - a.x
                } else {
                    r.0 == b.y - a.y && r.1 == -(b.x - a.x)
                }
            }),
    {
        let n = self.vertexes.len();
        let a = self.vertexes[i];
        let b = self.vertexes[(i + 1) % n];
        if Self::is_point_left(reference, a, b) {
            (-(b.y - a.y), b.x - a.x)
        } else {
            (b.y - a.y, -(b.x - a.x))
        }
    }

    /// Exact intersection test of segments `a b` and `c d`; `Some` holds
    /// the crossing point rounded to the grid. Matches
    /// [`seg_intersection`] exactly; the rounded point always lies in the
    /// working range because a crossing lies on both segments.
    fn segments_intersect(a: Point, b: Point, c: Point, d: Point) -> (r: Option<Point>)
        requires
            a.in_range(),
            b.in_range(),
            c.in_range(),
            d.in_range(),
        ensures
            r == seg_intersection(a, b, c, d),
            r is Some ==> r.unwrap().in_range(),
    {
        let abx: i128 = b.x as i128 - a.x as i128;
        let aby: i128 = b.y as i128 - a.y as i128;
        let cdx: i128 = d.x as i128 - c.x as i128;
        let cdy: i128 = d.y as i128 - c.y as i128;
        proof {
            lemma_mul_bound(cdx as int, aby as int, 200_000, 200_000);
            lemma_mul_bound(cdy as int, abx as int, 200_000, 200_000);
            lemma_mul_bound(cdy as int, a.x - c.x, 200_000, 200_000);
            lemma_mul_bound(cdx as int, a.y - c.y, 200_000, 200_000);
        }
        let den0: i128 = cdx * aby - cdy * abx;
        if den0 == 0 {
            return None;
        }
        let tn0: i128 = cdy * (a.x as i128 - c.x as i128) - cdx * (a.y as i128 - c.y as i128);
        let den: i128 = if den0 >= 0 { den0 } else { -den0 };
        let tn: i128 = if den0 >= 0 { tn0 } else { -tn0 };
        if !(0 <= tn && tn <= den) {
            return None;
        }
        proof {
            lemma_mul_bound(a.x as int, den as int, 100_000, 80_000_000_000);
            lemma_mul_bound(a.y as int, den as int, 100_000, 80_000_000_000);
            lemma_mul_bound(tn as int, abx as int, 80_000_000_000, 200_000);
            lemma_mul_bound(tn as int, aby as int, 80_000_000_000, 200_000);
        }
        let ix: i128 = a.x as i128 * den + tn * abx;
        let iy: i128 = a.y as i128 * den + tn * aby;
        proof {
            lemma_mul_bound(c.x as int, den as int, 100_000, 80_000_000_000);
            lemma_mul_bound(c.y as int, den as int, 100_000, 80_000_000_000);
            lemma_mul_bound(cdx as int, ix as int - c.x * den, 200_000, 32_000_000_000_000_000);
            lemma_mul_bound(cdy as int, iy as int - c.y * den, 200_000, 32_000_000_000_000_000);
            lemma_mul_bound(cdx as int, cdx as int, 200_000, 200_000);
            lemma_mul_bound(cdy as int, cdy as int, 200_000, 200_000);
            lemma_mul_bound(den as int, cdx * cdx + cdy * cdy, 80_000_000_000, 80_000_000_000);
        }
        let sn: i128 = cdx * (ix - c.x as i128 * den) + cdy * (iy - c.y as i128 * den);
        let sd: i128 = den * (cdx * cdx + cdy * cdy);
        if !(0 <= sn && sn <= sd) {
            return None;
        }
        proof {
            lemma_interp_bound(a.x as int, abx as int, tn as int, den as int, -100_000, 100_000);
            lemma_interp_bound(a.y as int, aby as int, tn as int, den as int, -100_000, 100_000);
            lemma_round_div_range(ix as int, den as int, -100_000, 100_000);
            lemma_round_div_range(iy as int, den as int, -100_000, 100_000);
        }
        let px = div_round(ix, den);
        let py = div_round(iy, den);
        Some(Point { x: px as i64, y: py as i64 })
    }
}

/// Linear membership scan used to deduplicate cache points.
fn contains_point(v: &Vec<Point>, p: Point) -> (r: bool)
    ensures
        r == seq_contains_point(v@, p),
{
    let mut i: usize = 0;
    while i < v.len()
        invariant
            i <= v.len(),
            forall|k: int| 0 <= k < i ==> v@[k] != p,
        decreases v.len() - i,
    {
        if v[i] == p {
            return true;
        }
        i = i + 1;
    }
    false
}

} // verus!
