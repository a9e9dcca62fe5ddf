//! A verified 2D geometry engine: affine-transform algebra, polygon
//! predicates, and an incremental edge-expansion triangulator.
//!
//! Coordinates are scaled integers: a caller picks a resolution (say,
//! 1/100 of a pixel), multiplies its real coordinates by that scale and
//! rounds once, and from then on every predicate in this crate is exact.
//! Transforms carry rational coefficients as an integer matrix over a
//! common positive denominator, so composition, application and inversion
//! are exact integer arithmetic with provable algebraic laws.

use vstd::prelude::*;

pub mod arith;
pub mod point;
pub mod polygon;
pub mod transform2d;
pub mod triangulation;

verus! {

/// The error cases the engine reports to its caller.
///
/// Geometric near-degeneracies (collinear triples met while searching for
/// a circumcenter) are resolved locally and never escalate to errors.
#[derive(Clone, Copy, Debug, PartialEq, Eq, Structural)]
pub enum GeometryError {
    /// `Transform2D::inverse` was asked to invert a transform whose
    /// determinant is zero: the transform is not a bijection.
    SingularTransform,
    /// `init_triangulation` was called with fewer than three points.
    InsufficientPoints,
}

} // verus!
