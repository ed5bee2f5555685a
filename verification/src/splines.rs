//! N dimensional splines.

/// The curve recurrence over scalar-valued knot vectors.
pub mod algorithms;

mod b_spline;
mod nurbs;

pub use b_spline::BSpline;
pub use nurbs::NURBSpline;
