//! Exact evaluation of smooth curves through control points.
//!
//! Two engines share one shape: control points and a table of curve
//! parameters go in, a dense sequence of curve points comes out.
//!
//! - `catmull`: Catmull-Rom curves. Each window of four consecutive control
//!   points gives one cubic segment through its middle two, with tangents
//!   weighted by the lengths of the stretches between the points and scaled
//!   by the inverse tension.
//! - `bspline`: B-splines of any degree and dimension over the uniform knot
//!   vector, evaluated by de Boor's recurrence in homogeneous coordinates.
//! - `table`: the parameter tables that many evaluations share.
//!
//! All numbers are exact fractions (`ratio`), so every curve point is the
//! exact value of its formula. A value that leaves the range of `i128` is
//! reported as `CurveError::Overflow`, never rounded. The stretch weights of
//! a centripetal Catmull-Rom curve (distances raised to a real power) are
//! irrational in general: the caller computes and rounds them.

pub mod bspline;
pub mod catmull;
pub mod error;
pub mod ratio;
pub mod table;
