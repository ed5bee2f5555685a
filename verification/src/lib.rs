//! A spline and surface evaluation library.
//!
//! The engine evaluates basis splines (B-splines) and their rational
//! generalization (NURBS) over an exact fixed-point scalar type, for
//! curves (one parameter) and tensor-product surfaces (two parameters).

/// The span search and blending recurrence at the heart of the engine.
pub mod algorithms;

/// Defining and manipulating control points.
pub mod control_points;

/// Row-major grids backing control points and sampled meshes.
pub mod grid;

/// Exporting to other formats such as meshes.
pub mod export;

/// Scalar-valued knot vectors.
pub mod knot_vec;

/// Defining and manipulating knots.
pub mod knots;

/// N dimensional splines.
pub mod splines;

/// N dimensional surfaces.
pub mod surfaces;

/// Evenly stepped sampling of parameter ranges.
pub mod step_iter;

/// Fixed-point scalar arithmetic and the shared error type.
pub mod types;

/// Points and direction vectors of fixed-point coordinates.
pub mod vector;

use vstd::prelude::*;

verus! {

/// Why a construction or an evaluation was rejected.
#[derive(Clone, Copy, Debug, PartialEq, Eq, Structural)]
pub enum SplineError {
    /// A parameter lies outside the usable knot range.
    OutOfRange,
    /// Degree, control-point count, knot shape or wrapping flags do not fit together.
    InvalidConfiguration,
    /// A rational weight blended to zero, or the projected coordinate cannot be represented.
    DegenerateWeight,
}

/// The wording of each failure, naming what was expected.
pub open spec fn spec_error_message(e: SplineError) -> Seq<char> {
    match e {
        SplineError::OutOfRange => "parameter outside the usable knot range"@,
        SplineError::InvalidConfiguration => "invalid configuration: the degree, control points, knots and wrapping flags must fit together"@,
        SplineError::DegenerateWeight => "degenerate weight: the blended weight admits no projection"@,
    }
}

impl SplineError {
    /// A short description of the failure.
    pub fn message(&self) -> (r: &'static str)
        ensures
            r@ == spec_error_message(*self),
    {
        match self {
            SplineError::OutOfRange => "parameter outside the usable knot range",
            SplineError::InvalidConfiguration => "invalid configuration: the degree, control points, knots and wrapping flags must fit together",
            SplineError::DegenerateWeight => "degenerate weight: the blended weight admits no projection",
        }
    }
}

} // verus!
