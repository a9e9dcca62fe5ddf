//! Affine 2D transforms as exact rational matrices.
//!
//! A `Transform2D` maps `(x, y)` to `((a*x + b*y + c)/w, (d*x + e*y + f)/w)`:
//! six integer coefficients over one positive denominator `w`. Every
//! operation (composition, inversion, application) is exact integer
//! arithmetic; the only rounding is the final projection of an image point
//! back onto the integer grid. The exact value of a transform is its
//! [`TransformModel`], and the algebraic laws below are proved about it.

use vstd::prelude::*;
use vstd::arithmetic::mul::{
    lemma_mul_is_associative, lemma_mul_is_commutative, lemma_mul_is_distributive_add,
    lemma_mul_is_distributive_add_other_way, lemma_mul_is_distributive_sub,
    lemma_mul_unary_negation,
};
use crate::arith::{div_round, lemma_mul_bound, lemma_round_div_exact, round_div, DIV_ARG_BOUND};
use crate::point::{Point, MAX_COORD};
use crate::GeometryError;

verus! {

/// Largest coefficient magnitude (and denominator) a well-formed
/// transform may carry; keeps all composition arithmetic inside `i128`.
pub const MAX_COEFF: i64 = 0x4000_0000_0000_0000;

/// Denominator (and scale-numerator) cap for the `*_around_*`
/// constructors, chosen so a translate-map-translate sandwich around any
/// in-range center always fits within [`MAX_COEFF`].
pub const MAX_AROUND_DEN: i64 = 1_000_000_000_000;

/// The exact (unbounded) value of a transform: the matrix
/// `[a b c; d e f; 0 0 w]` acting on column vectors `(x, y, 1)`,
/// understood as coefficients over the common denominator `w`.
pub struct TransformModel {
    pub a: int,
    pub b: int,
    pub c: int,
    pub d: int,
    pub e: int,
    pub f: int,
    pub w: int,
}

impl TransformModel {
    /// The neutral transform.
    pub open spec fn identity() -> TransformModel {
        TransformModel { a: 1, b: 0, c: 0, d: 0, e: 1, f: 0, w: 1 }
    }

    /// The identity scaled by `k`: the same map as the identity whenever
    /// `k >= 1`, since all coordinates are divided by `w == k` again.
    pub open spec fn scaled_identity(k: int) -> TransformModel {
        TransformModel { a: k, b: 0, c: 0, d: 0, e: k, f: 0, w: k }
    }

    pub open spec fn translation(dx: int, dy: int) -> TransformModel {
        TransformModel { a: 1, b: 0, c: dx, d: 0, e: 1, f: dy, w: 1 }
    }

    /// Counter-clockwise rotation given an exact rational cosine and sine
    /// `(c/den, s/den)`.
    pub open spec fn rotation(c: int, s: int, den: int) -> TransformModel {
        TransformModel { a: c, b: s, c: 0, d: -s, e: c, f: 0, w: den }
    }

    /// Axis-aligned scaling by `sx/den` and `sy/den`.
    pub open spec fn scaling(sx: int, sy: int, den: int) -> TransformModel {
        TransformModel { a: sx, b: 0, c: 0, d: 0, e: sy, f: 0, w: den }
    }

    /// Shear by `hx/den` (of y into x) and `hy/den` (of x into y).
    pub open spec fn shear(hx: int, hy: int, den: int) -> TransformModel {
        TransformModel { a: den, b: hx, c: 0, d: hy, e: den, f: 0, w: den }
    }

    /// Matrix product: applying `self.compose(other)` to a point is
    /// applying `other` first and `self` second.
    pub open spec fn compose(self, o: TransformModel) -> TransformModel {
        TransformModel {
            a: self.a * o.a + self.b * o.d,
            b: self.a * o.b + self.b * o.e,
            c: self.a * o.c + self.b * o.f + self.c * o.w,
            d: self.d * o.a + self.e * o.d,
            e: self.d * o.b + self.e * o.e,
            f: self.d * o.c + self.e * o.f + self.f * o.w,
            w: self.w * o.w,
        }
    }

    /// `self` conjugated by a translation to `(cx, cy)`: translate the
    /// center to the origin, apply `self`, translate back.
    pub open spec fn around(self, cx: int, cy: int) -> TransformModel {
        TransformModel::translation(cx, cy).compose(self).compose(
            TransformModel::translation(-cx, -cy),
        )
    }

    /// Determinant of the linear part, scaled by `w * w`: zero exactly
    /// when the transform collapses the plane.
    pub open spec fn det(self) -> int {
        self.a * self.e - self.b * self.d
    }

    pub open spec fn negated(self) -> TransformModel {
        TransformModel {
            a: -self.a,
            b: -self.b,
            c: -self.c,
            d: -self.d,
            e: -self.e,
            f: -self.f,
            w: -self.w,
        }
    }

    /// The algebraic inverse before sign normalization; its denominator
    /// is the (possibly negative) determinant.
    pub open spec fn inverse_raw(self) -> TransformModel {
        TransformModel {
            a: self.w * self.e,
            b: -(self.w * self.b),
            c: self.b * self.f - self.e * self.c,
            d: -(self.w * self.d),
            e: self.w * self.a,
            f: self.d * self.c - self.a * self.f,
            w: self.det(),
        }
    }

    /// The algebraic inverse, sign-normalized so the denominator is
    /// positive whenever the determinant is nonzero.
    pub open spec fn inverse(self) -> TransformModel {
        if self.det() >= 0 {
            self.inverse_raw()
        } else {
            self.inverse_raw().negated()
        }
    }

    /// Numerator of the x coordinate of the image of the homogeneous
    /// point `(x, y, h)`; the image denominator is `self.w * h`.
    pub open spec fn apply_x(self, x: int, y: int, h: int) -> int {
        self.a * x + self.b * y + self.c * h
    }

    /// Numerator of the y coordinate of the image of `(x, y, h)`.
    pub open spec fn apply_y(self, x: int, y: int, h: int) -> int {
        self.d * x + self.e * y + self.f * h
    }
}

/// All seven entries within the executable coefficient range.
pub open spec fn coeffs_bounded(m: TransformModel) -> bool {
    &&& -MAX_COEFF <= m.a <= MAX_COEFF
    &&& -MAX_COEFF <= m.b <= MAX_COEFF
    &&& -MAX_COEFF <= m.c <= MAX_COEFF
    &&& -MAX_COEFF <= m.d <= MAX_COEFF
    &&& -MAX_COEFF <= m.e <= MAX_COEFF
    &&& -MAX_COEFF <= m.f <= MAX_COEFF
    &&& 1 <= m.w <= MAX_COEFF
}

/// An affine 2D transform over the scaled-integer plane.
#[derive(Clone, Copy, Debug, PartialEq, Eq, Structural)]
pub struct Transform2D {
    pub a: i64,
    pub b: i64,
    pub c: i64,
    pub d: i64,
    pub e: i64,
    pub f: i64,
    pub w: i64,
}

impl View for Transform2D {
    type V = TransformModel;

    open spec fn view(&self) -> TransformModel {
        TransformModel {
            a: self.a as int,
            b: self.b as int,
            c: self.c as int,
            d: self.d as int,
            e: self.e as int,
            f: self.f as int,
            w: self.w as int,
        }
    }
}

impl Transform2D {
    /// A transform the engine will operate on: positive denominator,
    /// coefficients within [`MAX_COEFF`].
    pub open spec fn wf(self) -> bool {
        coeffs_bounded(self@)
    }

    /// The neutral transform.
    pub fn identity() -> (r: Transform2D)
        ensures
            r@ == TransformModel::identity(),
            r.wf(),
    {
        Transform2D { a: 1, b: 0, c: 0, d: 0, e: 1, f: 0, w: 1 }
    }

    /// Parallel translation by `(dx, dy)` grid units.
    pub fn translation(dx: i64, dy: i64) -> (r: Transform2D)
        requires
            -MAX_COEFF <= dx <= MAX_COEFF,
            -MAX_COEFF <= dy <= MAX_COEFF,
        ensures
            r@ == TransformModel::translation(dx as int, dy as int),
            r.wf(),
    {
        Transform2D { a: 1, b: 0, c: dx, d: 0, e: 1, f: dy, w: 1 }
    }

    /// Counter-clockwise rotation whose cosine and sine are the exact
    /// rationals `cos_num/den` and `sin_num/den`. A caller rounds the real
    /// sine and cosine of its angle to this grid once, outside the engine.
    pub fn rotation(cos_num: i64, sin_num: i64, den: i64) -> (r: Transform2D)
        requires
            1 <= den <= MAX_COEFF,
            -MAX_COEFF <= cos_num <= MAX_COEFF,
            -MAX_COEFF <= sin_num <= MAX_COEFF,
        ensures
            r@ == TransformModel::rotation(cos_num as int, sin_num as int, den as int),
            r.wf(),
    {
        Transform2D { a: cos_num, b: sin_num, c: 0, d: -sin_num, e: cos_num, f: 0, w: den }
    }

    /// Scaling by `sx_num/den` along x and `sy_num/den` along y.
    pub fn scaling(sx_num: i64, sy_num: i64, den: i64) -> (r: Transform2D)
        requires
            1 <= den <= MAX_COEFF,
            -MAX_COEFF <= sx_num <= MAX_COEFF,
            -MAX_COEFF <= sy_num <= MAX_COEFF,
        ensures
            r@ == TransformModel::scaling(sx_num as int, sy_num as int, den as int),
            r.wf(),
    {
        Transform2D { a: sx_num, b: 0, c: 0, d: 0, e: sy_num, f: 0, w: den }
    }

    /// Uniform scaling by `s_num/den` on both axes.
    pub fn uniform_scaling(s_num: i64, den: i64) -> (r: Transform2D)
        requires
            1 <= den <= MAX_COEFF,
            -MAX_COEFF <= s_num <= MAX_COEFF,
        ensures
            r@ == TransformModel::scaling(s_num as int, s_num as int, den as int),
            r.wf(),
    {
        Self::scaling(s_num, s_num, den)
    }

    /// Shear by `shx_num/den` and `shy_num/den`.
    pub fn shear(shx_num: i64, shy_num: i64, den: i64) -> (r: Transform2D)
        requires
            1 <= den <= MAX_COEFF,
            -MAX_COEFF <= shx_num <= MAX_COEFF,
            -MAX_COEFF <= shy_num <= MAX_COEFF,
        ensures
            r@ == TransformModel::shear(shx_num as int, shy_num as int, den as int),
            r.wf(),
    {
        Transform2D { a: den, b: shx_num, c: 0, d: shy_num, e: den, f: 0, w: den }
    }

    /// Mirror across the x axis: `(x, y)` to `(x, -y)`.
    pub fn reflection_x() -> (r: Transform2D)
        ensures
            r@ == TransformModel::scaling(1, -1, 1),
            r.wf(),
    {
        Self::scaling(1, -1, 1)
    }

    /// Mirror across the y axis: `(x, y)` to `(-x, y)`.
    pub fn reflection_y() -> (r: Transform2D)
        ensures
            r@ == TransformModel::scaling(-1, 1, 1),
            r.wf(),
    {
        Self::scaling(-1, 1, 1)
    }

    /// Composition: applying the result equals applying `other` first and
    /// then `self`. Associative, not commutative.
    pub fn multiply(&self, other: &Transform2D) -> (r: Transform2D)
        requires
            self.wf(),
            other.wf(),
            coeffs_bounded(self@.compose(other@)),
        ensures
            r@ == self@.compose(other@),
            r.wf(),
    {
        proof {
            let m = self@;
            let o = other@;
            let k = MAX_COEFF as int;
            lemma_mul_bound(m.a, o.a, k, k);
            lemma_mul_bound(m.b, o.d, k, k);
            lemma_mul_bound(m.a, o.b, k, k);
            lemma_mul_bound(m.b, o.e, k, k);
            lemma_mul_bound(m.a, o.c, k, k);
            lemma_mul_bound(m.b, o.f, k, k);
            lemma_mul_bound(m.c, o.w, k, k);
            lemma_mul_bound(m.d, o.a, k, k);
            lemma_mul_bound(m.e, o.d, k, k);
            lemma_mul_bound(m.d, o.b, k, k);
            lemma_mul_bound(m.e, o.e, k, k);
            lemma_mul_bound(m.d, o.c, k, k);
            lemma_mul_bound(m.e, o.f, k, k);
            lemma_mul_bound(m.f, o.w, k, k);
            lemma_mul_bound(m.w, o.w, k, k);
        }
        let ra: i128 = self.a as i128 * other.a as i128 + self.b as i128 * other.d as i128;
        let rb: i128 = self.a as i128 * other.b as i128 + self.b as i128 * other.e as i128;
        let rc: i128 = self.a as i128 * other.c as i128 + self.b as i128 * other.f as i128
            + self.c as i128 * other.w as i128;
        let rd: i128 = self.d as i128 * other.a as i128 + self.e as i128 * other.d as i128;
        let re: i128 = self.d as i128 * other.b as i128 + self.e as i128 * other.e as i128;
        let rf: i128 = self.d as i128 * other.c as i128 + self.e as i128 * other.f as i128
            + self.f as i128 * other.w as i128;
        let rw: i128 = self.w as i128 * other.w as i128;
        Transform2D {
            a: ra as i64,
            b: rb as i64,
            c: rc as i64,
            d: rd as i64,
            e: re as i64,
            f: rf as i64,
            w: rw as i64,
        }
    }

    /// Apply the transform to raw coordinates, rounding the exact rational
    /// image to the nearest grid point (halves away from zero).
    pub fn apply(&self, x: i64, y: i64) -> (r: (i64, i64))
        requires
            self.wf(),
            -0x2000_0000_0000_0000 <= x <= 0x2000_0000_0000_0000,
            -0x2000_0000_0000_0000 <= y <= 0x2000_0000_0000_0000,
            -0x7fff_ffff_ffff_ffff
                <= round_div(self@.apply_x(x as int, y as int, 1), self@.w)
                <= 0x7fff_ffff_ffff_ffff,
            -0x7fff_ffff_ffff_ffff
                <= round_div(self@.apply_y(x as int, y as int, 1), self@.w)
                <= 0x7fff_ffff_ffff_ffff,
        ensures
            r.0 == round_div(self@.apply_x(x as int, y as int, 1), self@.w),
            r.1 == round_div(self@.apply_y(x as int, y as int, 1), self@.w),
    {
        proof {
            let m = self@;
            let k = MAX_COEFF as int;
            lemma_mul_bound(m.a, x as int, k, 0x2000_0000_0000_0000);
            lemma_mul_bound(m.b, y as int, k, 0x2000_0000_0000_0000);
            lemma_mul_bound(m.d, x as int, k, 0x2000_0000_0000_0000);
            lemma_mul_bound(m.e, y as int, k, 0x2000_0000_0000_0000);
        }
        let nx: i128 = self.a as i128 * x as i128 + self.b as i128 * y as i128 + self.c as i128;
        let ny: i128 = self.d as i128 * x as i128 + self.e as i128 * y as i128 + self.f as i128;
        let rx = div_round(nx, self.w as i128);
        let ry = div_round(ny, self.w as i128);
        (rx as i64, ry as i64)
    }

    /// Whether the rounded image of `p` under `m` lies in the engine's
    /// working range.
    pub open spec fn image_in_range(m: TransformModel, p: Point) -> bool {
        &&& -MAX_COORD <= round_div(m.apply_x(p.x as int, p.y as int, 1), m.w) <= MAX_COORD
        &&& -MAX_COORD <= round_div(m.apply_y(p.x as int, p.y as int, 1), m.w) <= MAX_COORD
    }

    /// Apply the transform to a point of the working range; `None` when
    /// the image falls outside it.
    pub fn apply_to_pos(&self, p: Point) -> (r: Option<Point>)
        requires
            self.wf(),
            p.in_range(),
        ensures
            match r {
                Some(q) => {
                    &&& Self::image_in_range(self@, p)
                    &&& q.x == round_div(self@.apply_x(p.x as int, p.y as int, 1), self@.w)
                    &&& q.y == round_div(self@.apply_y(p.x as int, p.y as int, 1), self@.w)
                    &&& q.in_range()
                },
                None => !Self::image_in_range(self@, p),
            },
    {
        proof {
            let m = self@;
            let k = MAX_COEFF as int;
            lemma_mul_bound(m.a, p.x as int, k, MAX_COORD as int);
            lemma_mul_bound(m.b, p.y as int, k, MAX_COORD as int);
            lemma_mul_bound(m.d, p.x as int, k, MAX_COORD as int);
            lemma_mul_bound(m.e, p.y as int, k, MAX_COORD as int);
        }
        let nx: i128 =
            self.a as i128 * p.x as i128 + self.b as i128 * p.y as i128 + self.c as i128;
        let ny: i128 =
            self.d as i128 * p.x as i128 + self.e as i128 * p.y as i128 + self.f as i128;
        let rx = div_round(nx, self.w as i128);
        let ry = div_round(ny, self.w as i128);
        let lim = MAX_COORD as i128;
        if -lim <= rx && rx <= lim && -lim <= ry && ry <= lim {
            Some(Point { x: rx as i64, y: ry as i64 })
        } else {
            None
        }
    }

    /// Determinant numerator `a*e - b*d`: the true determinant of the
    /// rational matrix scaled by `w*w`, so its sign and zeroness agree
    /// with the true determinant's.
    pub fn determinant(&self) -> (r: i128)
        requires
            self.wf(),
        ensures
            r == self@.det(),
    {
        proof {
            let k = MAX_COEFF as int;
            lemma_mul_bound(self@.a, self@.e, k, k);
            lemma_mul_bound(self@.b, self@.d, k, k);
        }
        self.a as i128 * self.e as i128 - self.b as i128 * self.d as i128
    }

    /// Whether the inverse's coefficients fit the executable range; holds
    /// vacuously for singular transforms, which have no inverse.
    pub open spec fn inverse_fits(m: TransformModel) -> bool {
        m.det() == 0 || coeffs_bounded(m.inverse())
    }

    /// The algebraic inverse. Fails with `SingularTransform` exactly when
    /// the determinant is zero; never mutates `self`.
    pub fn inverse(&self) -> (r: Result<Transform2D, GeometryError>)
        requires
            self.wf(),
            Self::inverse_fits(self@),
        ensures
            match r {
                Ok(t) => {
                    &&& self@.det() != 0
                    &&& t@ == self@.inverse()
                    &&& t.wf()
                },
                Err(e) => {
                    &&& self@.det() == 0
                    &&& e == GeometryError::SingularTransform
                },
            },
    {
        let det = self.determinant();
        if det == 0 {
            return Err(GeometryError::SingularTransform);
        }
        proof {
            let m = self@;
            let k = MAX_COEFF as int;
            lemma_mul_bound(m.w, m.e, k, k);
            lemma_mul_bound(m.w, m.b, k, k);
            lemma_mul_bound(m.b, m.f, k, k);
            lemma_mul_bound(m.e, m.c, k, k);
            lemma_mul_bound(m.w, m.d, k, k);
            lemma_mul_bound(m.w, m.a, k, k);
            lemma_mul_bound(m.d, m.c, k, k);
            lemma_mul_bound(m.a, m.f, k, k);
        }
        let ia: i128 = self.w as i128 * self.e as i128;
        let ib: i128 = -(self.w as i128 * self.b as i128);
        let ic: i128 = self.b as i128 * self.f as i128 - self.e as i128 * self.c as i128;
        let id: i128 = -(self.w as i128 * self.d as i128);
        let ie: i128 = self.w as i128 * self.a as i128;
        let if_: i128 = self.d as i128 * self.c as i128 - self.a as i128 * self.f as i128;
        if det > 0 {
            Ok(Transform2D {
                a: ia as i64,
                b: ib as i64,
                c: ic as i64,
                d: id as i64,
                e: ie as i64,
                f: if_ as i64,
                w: det as i64,
            })
        } else {
            Ok(Transform2D {
                a: (-ia) as i64,
                b: (-ib) as i64,
                c: (-ic) as i64,
                d: (-id) as i64,
                e: (-ie) as i64,
                f: (-if_) as i64,
                w: (-det) as i64,
            })
        }
    }

    /// `self` is within `tol_num/tol_den` of the identity, coefficient by
    /// coefficient, on the rational level.
    pub open spec fn is_identity_within(m: TransformModel, tn: int, td: int) -> bool {
        &&& vstd::math::abs(m.a - m.w) * td < tn * m.w
        &&& vstd::math::abs(m.e - m.w) * td < tn * m.w
        &&& vstd::math::abs(m.b) * td < tn * m.w
        &&& vstd::math::abs(m.c) * td < tn * m.w
        &&& vstd::math::abs(m.d) * td < tn * m.w
        &&& vstd::math::abs(m.f) * td < tn * m.w
    }

    /// Is the transform within tolerance `tol_num/tol_den` of the
    /// identity, coefficient-wise?
    pub fn is_identity(&self, tol_num: i64, tol_den: i64) -> (r: bool)
        requires
            self.wf(),
            0 <= tol_num,
            1 <= tol_den,
        ensures
            r == Self::is_identity_within(self@, tol_num as int, tol_den as int),
    {
        let td: i128 = tol_den as i128;
        let da: i128 = self.a as i128 - self.w as i128;
        let de: i128 = self.e as i128 - self.w as i128;
        let abs_da: i128 = if da < 0 { -da } else { da };
        let abs_de: i128 = if de < 0 { -de } else { de };
        let abs_b: i128 = if self.b < 0 { -(self.b as i128) } else { self.b as i128 };
        let abs_c: i128 = if self.c < 0 { -(self.c as i128) } else { self.c as i128 };
        let abs_d: i128 = if self.d < 0 { -(self.d as i128) } else { self.d as i128 };
        let abs_f: i128 = if self.f < 0 { -(self.f as i128) } else { self.f as i128 };
        proof {
            let m = self@;
            let k = MAX_COEFF as int;
            let h = 0x8000_0000_0000_0000;
            lemma_mul_bound(abs_da as int, td as int, h, h);
            lemma_mul_bound(abs_de as int, td as int, h, h);
            lemma_mul_bound(abs_b as int, td as int, k, h);
            lemma_mul_bound(abs_c as int, td as int, k, h);
            lemma_mul_bound(abs_d as int, td as int, k, h);
            lemma_mul_bound(abs_f as int, td as int, k, h);
            lemma_mul_bound(tol_num as int, m.w, h, k);
        }
        let bound: i128 = tol_num as i128 * self.w as i128;
        abs_da * td < bound && abs_de * td < bound && abs_b * td < bound && abs_c * td < bound
            && abs_d * td < bound && abs_f * td < bound
    }

    /// Rotation about the center `(cx, cy)`: translate the center to the
    /// origin, rotate, translate back. Built from the primitives alone.
    pub fn rotation_around_point(
        cos_num: i64,
        sin_num: i64,
        den: i64,
        cx: i64,
        cy: i64,
    ) -> (r: Transform2D)
        requires
            1 <= den <= MAX_AROUND_DEN,
            -den <= cos_num <= den,
            -den <= sin_num <= den,
            -MAX_COORD <= cx <= MAX_COORD,
            -MAX_COORD <= cy <= MAX_COORD,
        ensures
            r@ == TransformModel::rotation(cos_num as int, sin_num as int, den as int).around(
                cx as int,
                cy as int,
            ),
            r.wf(),
    {
        let t1 = Self::translation(cx, cy);
        let rot = Self::rotation(cos_num, sin_num, den);
        let t2 = Self::translation(-cx, -cy);
        proof {
            let ad = MAX_AROUND_DEN as int;
            let mc = MAX_COORD as int;
            lemma_mul_bound(cx as int, den as int, mc, ad);
            lemma_mul_bound(cy as int, den as int, mc, ad);
        }
        let t1r = t1.multiply(&rot);
        proof {
            let ad = MAX_AROUND_DEN as int;
            let mc = MAX_COORD as int;
            assert(t1r@ == TransformModel {
                a: cos_num as int,
                b: sin_num as int,
                c: (cx as int) * (den as int),
                d: -(sin_num as int),
                e: cos_num as int,
                f: (cy as int) * (den as int),
                w: den as int,
            });
            lemma_mul_bound(cos_num as int, -(cx as int), ad, mc);
            lemma_mul_bound(sin_num as int, -(cy as int), ad, mc);
            lemma_mul_bound(-(sin_num as int), -(cx as int), ad, mc);
            lemma_mul_bound(cos_num as int, -(cy as int), ad, mc);
        }
        t1r.multiply(&t2)
    }

    /// Rotation about a center point.
    pub fn rotation_around_pos(cos_num: i64, sin_num: i64, den: i64, pos: Point) -> (r:
        Transform2D)
        requires
            1 <= den <= MAX_AROUND_DEN,
            -den <= cos_num <= den,
            -den <= sin_num <= den,
            pos.in_range(),
        ensures
            r@ == TransformModel::rotation(cos_num as int, sin_num as int, den as int).around(
                pos.x as int,
                pos.y as int,
            ),
            r.wf(),
    {
        Self::rotation_around_point(cos_num, sin_num, den, pos.x, pos.y)
    }

    /// Scaling about the center `(cx, cy)`.
    pub fn scaling_around_point(
        sx_num: i64,
        sy_num: i64,
        den: i64,
        cx: i64,
        cy: i64,
    ) -> (r: Transform2D)
        requires
            1 <= den <= MAX_AROUND_DEN,
            -MAX_AROUND_DEN <= sx_num <= MAX_AROUND_DEN,
            -MAX_AROUND_DEN <= sy_num <= MAX_AROUND_DEN,
            -MAX_COORD <= cx <= MAX_COORD,
            -MAX_COORD <= cy <= MAX_COORD,
        ensures
            r@ == TransformModel::scaling(sx_num as int, sy_num as int, den as int).around(
                cx as int,
                cy as int,
            ),
            r.wf(),
    {
        let t1 = Self::translation(cx, cy);
        let sc = Self::scaling(sx_num, sy_num, den);
        let t2 = Self::translation(-cx, -cy);
        proof {
            let ad = MAX_AROUND_DEN as int;
            let mc = MAX_COORD as int;
            lemma_mul_bound(cx as int, den as int, mc, ad);
            lemma_mul_bound(cy as int, den as int, mc, ad);
        }
        let t1s = t1.multiply(&sc);
        proof {
            let ad = MAX_AROUND_DEN as int;
            let mc = MAX_COORD as int;
            assert(t1s@ == TransformModel {
                a: sx_num as int,
                b: 0,
                c: (cx as int) * (den as int),
                d: 0,
                e: sy_num as int,
                f: (cy as int) * (den as int),
                w: den as int,
            });
            lemma_mul_bound(sx_num as int, -(cx as int), ad, mc);
            lemma_mul_bound(sy_num as int, -(cy as int), ad, mc);
        }
        t1s.multiply(&t2)
    }

    /// Scaling about a center point.
    pub fn scaling_around_pos(sx_num: i64, sy_num: i64, den: i64, pos: Point) -> (r: Transform2D)
        requires
            1 <= den <= MAX_AROUND_DEN,
            -MAX_AROUND_DEN <= sx_num <= MAX_AROUND_DEN,
            -MAX_AROUND_DEN <= sy_num <= MAX_AROUND_DEN,
            pos.in_range(),
        ensures
            r@ == TransformModel::scaling(sx_num as int, sy_num as int, den as int).around(
                pos.x as int,
                pos.y as int,
            ),
            r.wf(),
    {
        Self::scaling_around_point(sx_num, sy_num, den, pos.x, pos.y)
    }

    /// Uniform scaling about the center `(cx, cy)`.
    pub fn uniform_scaling_around_point(s_num: i64, den: i64, cx: i64, cy: i64) -> (r: Transform2D)
        requires
            1 <= den <= MAX_AROUND_DEN,
            -MAX_AROUND_DEN <= s_num <= MAX_AROUND_DEN,
            -MAX_COORD <= cx <= MAX_COORD,
            -MAX_COORD <= cy <= MAX_COORD,
        ensures
            r@ == TransformModel::scaling(s_num as int, s_num as int, den as int).around(
                cx as int,
                cy as int,
            ),
            r.wf(),
    {
        Self::scaling_around_point(s_num, s_num, den, cx, cy)
    }

    /// Uniform scaling about a center point.
    pub fn uniform_scaling_around_pos(s_num: i64, den: i64, pos: Point) -> (r: Transform2D)
        requires
            1 <= den <= MAX_AROUND_DEN,
            -MAX_AROUND_DEN <= s_num <= MAX_AROUND_DEN,
            pos.in_range(),
        ensures
            r@ == TransformModel::scaling(s_num as int, s_num as int, den as int).around(
                pos.x as int,
                pos.y as int,
            ),
            r.wf(),
    {
        Self::scaling_around_point(s_num, s_num, den, pos.x, pos.y)
    }
}

impl Default for Transform2D {
    /// The default transform is the identity.
    fn default() -> (r: Transform2D)
        ensures
            r@ == TransformModel::identity(),
            r.wf(),
    {
        Transform2D::identity()
    }
}

/// Composing with the identity on either side changes nothing: the
/// identity is neutral for composition.
pub proof fn lemma_compose_identity(m: TransformModel)
    ensures
        m.compose(TransformModel::identity()) == m,
        TransformModel::identity().compose(m) == m,
{
    let l = m.compose(TransformModel::identity());
    let r = TransformModel::identity().compose(m);
    assert(l.a == m.a && l.b == m.b && l.c == m.c && l.d == m.d && l.e == m.e && l.f == m.f
        && l.w == m.w);
    assert(r.a == m.a && r.b == m.b && r.c == m.c && r.d == m.d && r.e == m.e && r.f == m.f
        && r.w == m.w);
}

/// A two-term dot product regroups across a shared left factor pair.
proof fn lemma_dot2(p: int, r: int, q: int, s: int, u: int, v: int, t: int, w: int)
    ensures
        (p * q + r * s) * t + (p * u + r * v) * w == p * (q * t + u * w) + r * (s * t + v * w),
{
    lemma_mul_is_distributive_add_other_way(t, p * q, r * s);
    lemma_mul_is_distributive_add_other_way(w, p * u, r * v);
    lemma_mul_is_associative(p, q, t);
    lemma_mul_is_associative(r, s, t);
    lemma_mul_is_associative(p, u, w);
    lemma_mul_is_associative(r, v, w);
    lemma_mul_is_distributive_add(p, q * t, u * w);
    lemma_mul_is_distributive_add(r, s * t, v * w);
}

/// The three-term form of [`lemma_dot2`], covering the translation column.
proof fn lemma_dot3(
    p: int,
    r: int,
    i: int,
    q: int,
    s: int,
    j: int,
    u: int,
    v: int,
    g: int,
    h: int,
    t: int,
    w: int,
    k: int,
)
    ensures
        (p * q + r * s) * t + (p * u + r * v) * w + (p * g + r * h + i * j) * k == p * (q * t + u
            * w + g * k) + r * (s * t + v * w + h * k) + i * (j * k),
{
    lemma_dot2(p, r, q, s, u, v, t, w);
    lemma_mul_is_distributive_add_other_way(k, p * g + r * h, i * j);
    lemma_mul_is_distributive_add_other_way(k, p * g, r * h);
    lemma_mul_is_associative(p, g, k);
    lemma_mul_is_associative(r, h, k);
    lemma_mul_is_associative(i, j, k);
    lemma_mul_is_distributive_add(p, q * t + u * w, g * k);
    lemma_mul_is_distributive_add(r, s * t + v * w, h * k);
}

/// Composition is associative.
pub proof fn lemma_compose_assoc(x: TransformModel, y: TransformModel, z: TransformModel)
    ensures
        x.compose(y).compose(z) == x.compose(y.compose(z)),
{
    lemma_dot2(x.a, x.b, y.a, y.d, y.b, y.e, z.a, z.d);
    lemma_dot2(x.a, x.b, y.a, y.d, y.b, y.e, z.b, z.e);
    lemma_dot3(x.a, x.b, x.c, y.a, y.d, y.w, y.b, y.e, y.c, y.f, z.c, z.f, z.w);
    lemma_dot2(x.d, x.e, y.a, y.d, y.b, y.e, z.a, z.d);
    lemma_dot2(x.d, x.e, y.a, y.d, y.b, y.e, z.b, z.e);
    lemma_dot3(x.d, x.e, x.f, y.a, y.d, y.w, y.b, y.e, y.c, y.f, z.c, z.f, z.w);
    lemma_mul_is_associative(x.w, y.w, z.w);
}

/// Applying a transform and then its inverse recovers the original point
/// exactly, as a homogeneous identity: the round trip of `(x, y)` is
/// `(x, y)` scaled by the positive factor `inverse.w * w`.
pub proof fn lemma_inverse_apply(m: TransformModel, x: int, y: int)
    requires
        m.w >= 1,
        m.det() != 0,
    ensures
        ({
            let inv = m.inverse();
            let qx = m.apply_x(x, y, 1);
            let qy = m.apply_y(x, y, 1);
            &&& inv.apply_x(qx, qy, m.w) == x * (inv.w * m.w)
            &&& inv.apply_y(qx, qy, m.w) == y * (inv.w * m.w)
            &&& inv.w >= 1
        }),
{
    let qx = m.apply_x(x, y, 1);
    let qy = m.apply_y(x, y, 1);
    let dt = m.det();
    lemma_inverse_apply_core(m.a, m.b, m.c, m.d, m.e, m.f, x, y);
    // Scale the unit-denominator identities by w, term by term.
    lemma_mul_is_associative(m.w, m.e, qx);
    lemma_mul_unary_negation(m.w * m.b, qy);
    lemma_mul_is_associative(m.w, m.b, qy);
    lemma_mul_is_commutative(m.b * m.f - m.e * m.c, m.w);
    lemma_mul_is_distributive_sub(m.w, m.e * qx, m.b * qy);
    lemma_mul_is_distributive_add(m.w, m.e * qx - m.b * qy, m.b * m.f - m.e * m.c);
    assert(m.inverse_raw().apply_x(qx, qy, m.w) == m.w * (m.e * qx - m.b * qy + (m.b * m.f - m.e
        * m.c)));
    lemma_mul_unary_negation(m.w * m.d, qx);
    lemma_mul_is_associative(m.w, m.d, qx);
    lemma_mul_is_associative(m.w, m.a, qy);
    lemma_mul_is_commutative(m.d * m.c - m.a * m.f, m.w);
    lemma_mul_is_distributive_sub(m.w, m.a * qy, m.d * qx);
    lemma_mul_is_distributive_add(m.w, m.a * qy - m.d * qx, m.d * m.c - m.a * m.f);
    assert(m.inverse_raw().apply_y(qx, qy, m.w) == m.w * (m.a * qy - m.d * qx + (m.d * m.c - m.a
        * m.f)));
    // Rearrange w * (x * det) into x * (det * w).
    lemma_mul_is_associative(m.w, x, dt);
    lemma_mul_is_commutative(m.w, x);
    lemma_mul_is_associative(x, m.w, dt);
    lemma_mul_is_commutative(m.w, dt);
    lemma_mul_is_associative(m.w, y, dt);
    lemma_mul_is_commutative(m.w, y);
    lemma_mul_is_associative(y, m.w, dt);
    assert(m.inverse_raw().apply_x(qx, qy, m.w) == x * (dt * m.w));
    assert(m.inverse_raw().apply_y(qx, qy, m.w) == y * (dt * m.w));
    if dt >= 0 {
    } else {
        let raw = m.inverse_raw();
        let inv = m.inverse();
        lemma_mul_unary_negation(raw.a, qx);
        lemma_mul_unary_negation(raw.b, qy);
        lemma_mul_unary_negation(raw.c, m.w);
        assert(inv.apply_x(qx, qy, m.w) == -(raw.apply_x(qx, qy, m.w)));
        lemma_mul_unary_negation(raw.d, qx);
        lemma_mul_unary_negation(raw.e, qy);
        lemma_mul_unary_negation(raw.f, m.w);
        assert(inv.apply_y(qx, qy, m.w) == -(raw.apply_y(qx, qy, m.w)));
        lemma_mul_unary_negation(dt, m.w);
        lemma_mul_is_commutative(x, -(dt * m.w));
        lemma_mul_unary_negation(dt * m.w, x);
        lemma_mul_is_commutative(dt * m.w, x);
        lemma_mul_is_commutative(y, -(dt * m.w));
        lemma_mul_unary_negation(dt * m.w, y);
        lemma_mul_is_commutative(dt * m.w, y);
        assert(x * (inv.w * m.w) == -(x * (dt * m.w)));
        assert(y * (inv.w * m.w) == -(y * (dt * m.w)));
    }
}

/// Unit-denominator core of [`lemma_inverse_apply`]: the adjugate undoes
/// the linear map and the translation column.
proof fn lemma_inverse_apply_core(
    a: int,
    b: int,
    c: int,
    d: int,
    e: int,
    f: int,
    x: int,
    y: int,
)
    ensures
        e * (a * x + b * y + c) - b * (d * x + e * y + f) + (b * f - e * c) == x * (a * e - b * d),
        a * (d * x + e * y + f) - d * (a * x + b * y + c) + (d * c - a * f) == y * (a * e - b * d),
{
    assert(e * (a * x + b * y + c) - b * (d * x + e * y + f) + (b * f - e * c) == x * (a * e - b
        * d)) by (nonlinear_arith);
    assert(a * (d * x + e * y + f) - d * (a * x + b * y + c) + (d * c - a * f) == y * (a * e - b
        * d)) by (nonlinear_arith);
}

/// Translating to a center and back is the identity.
pub proof fn lemma_translation_cancel(cx: int, cy: int)
    ensures
        TransformModel::translation(-cx, -cy).compose(TransformModel::translation(cx, cy))
            == TransformModel::identity(),
{
}

/// A rotation and the rotation by the opposite angle cancel: their
/// composition is the identity scaled by `den * den`, provided the
/// cosine-sine pair is exact (`c*c + s*s == den*den`).
pub proof fn lemma_rotation_cancel(c: int, s: int, den: int)
    requires
        c * c + s * s == den * den,
    ensures
        TransformModel::rotation(c, -s, den).compose(TransformModel::rotation(c, s, den))
            == TransformModel::scaled_identity(den * den),
{
    assert(c * c + (-s) * (-s) == den * den) by (nonlinear_arith)
        requires
            c * c + s * s == den * den,
    ;
    assert(c * s + (-s) * c == 0) by (nonlinear_arith);
    assert((-(-s)) * c + c * (-s) == 0) by (nonlinear_arith);
    assert((-(-s)) * s + c * c == den * den) by (nonlinear_arith)
        requires
            c * c + s * s == den * den,
    ;
}

/// Conjugating a scaled identity by a translation changes nothing.
pub proof fn lemma_around_scaled_identity(k: int, cx: int, cy: int)
    ensures
        TransformModel::scaled_identity(k).around(cx, cy) == TransformModel::scaled_identity(k),
{
    let t1 = TransformModel::translation(cx, cy);
    let si = TransformModel::scaled_identity(k);
    let t2 = TransformModel::translation(-cx, -cy);
    let s = TransformModel { a: k, b: 0, c: cx * k, d: 0, e: k, f: cy * k, w: k };
    assert(t1.compose(si) == s);
    assert(t1.compose(si).compose(t2) == s.compose(t2));
    assert(k * (-cx) + (cx * k) * 1 == 0) by (nonlinear_arith);
    assert(k * (-cy) + (cy * k) * 1 == 0) by (nonlinear_arith);
    assert(s.compose(t2) == TransformModel::scaled_identity(k));
}

/// Rotating about a center and then rotating back about the same center
/// returns every point exactly: the composite is a scaled identity, and
/// its rounded application to any grid point is that point again.
pub proof fn lemma_rotation_roundtrip(c: int, s: int, den: int, cx: int, cy: int, x: int, y: int)
    requires
        den >= 1,
        c * c + s * s == den * den,
    ensures
        ({
            let fwd = TransformModel::rotation(c, s, den).around(cx, cy);
            let back = TransformModel::rotation(c, -s, den).around(cx, cy);
            let t = back.compose(fwd);
            &&& t == TransformModel::scaled_identity(den * den)
            &&& round_div(t.apply_x(x, y, 1), t.w) == x
            &&& round_div(t.apply_y(x, y, 1), t.w) == y
        }),
{
    let tr = TransformModel::translation(cx, cy);
    let tr2 = TransformModel::translation(-cx, -cy);
    let r1 = TransformModel::rotation(c, s, den);
    let r2 = TransformModel::rotation(c, -s, den);
    let fwd = r1.around(cx, cy);
    let back = r2.around(cx, cy);
    let k = den * den;

    assert(fwd == tr.compose(r1).compose(tr2));
    assert(back == tr.compose(r2).compose(tr2));
    lemma_compose_assoc(tr.compose(r2), tr2, tr.compose(r1).compose(tr2));
    lemma_compose_assoc(tr2, tr.compose(r1), tr2);
    lemma_compose_assoc(tr2, tr, r1);
    lemma_translation_cancel(cx, cy);
    lemma_compose_identity(r1);
    assert(tr2.compose(tr.compose(r1).compose(tr2)) == r1.compose(tr2));
    lemma_compose_assoc(tr.compose(r2), r1, tr2);
    lemma_compose_assoc(tr, r2, r1);
    lemma_rotation_cancel(c, s, den);
    assert(tr.compose(r2).compose(r1) == tr.compose(TransformModel::scaled_identity(k)));
    lemma_compose_assoc(tr, TransformModel::scaled_identity(k), tr2);
    lemma_around_scaled_identity(k, cx, cy);
    assert(back.compose(fwd) == TransformModel::scaled_identity(k));

    assert(k >= 1) by (nonlinear_arith)
        requires
            den >= 1 && k == den * den,
    ;
    assert(k * x == x * k) by (nonlinear_arith);
    assert(k * y == y * k) by (nonlinear_arith);
    lemma_round_div_exact(x, k);
    lemma_round_div_exact(y, k);
}

} // verus!
