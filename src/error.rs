//! Why a curve evaluation fails.

use vstd::prelude::*;

verus! {

#[derive(Clone, Copy, Debug, PartialEq, Eq)]
pub enum CurveError {
    /// The flattened control points do not hold `n_points * n_dimensions` values.
    ShapeMismatch,
    /// No knot span holds a curve parameter.
    SpanNotFound,
    /// A Catmull-Rom curve needs at least four control points.
    TooFewPoints,
    /// A value of the exact computation left the range of `Ratio`.
    Overflow,
}

} // verus!
