//! Basis spline curves: evaluation, quantization, validation.

use splinosaurus::SplineError;
use splinosaurus::control_points::ControlVec;
use splinosaurus::knots::Knots;
use splinosaurus::splines::BSpline;
use splinosaurus::types::Fixed;
use splinosaurus::vector::Vector;

fn point2(x: i64, y: i64) -> Vector {
    Vector::new(vec![Fixed::from_int(x), Fixed::from_int(y)])
}

fn clamped_demo_curve() -> BSpline {
    let control = ControlVec::new(
        2,
        vec![point2(50, 50), point2(50, 300), point2(300, 300), point2(300, 500)],
    );
    BSpline::with_knots(control, vec![0, 0, 0, 1, 2, 2, 2]).unwrap()
}

#[test]
fn it_interpolates_clamped_endpoints() {
    let spline = clamped_demo_curve();
    assert_eq!(point2(50, 50), spline.at(Fixed::from_int(0)).unwrap());
    assert_eq!(point2(300, 500), spline.at(Fixed::from_int(2)).unwrap());
}

#[test]
fn it_quantizes_the_demo_curve_in_three_steps() {
    let spline = clamped_demo_curve();
    let points = spline.quantize(Fixed::from_int(1));
    assert_eq!(3, points.len());
    assert_eq!(point2(50, 50), points[0]);
    assert_eq!(point2(175, 300), points[1]);
    assert_eq!(point2(300, 500), points[2]);
}

#[test]
fn it_rejects_parameters_outside_the_range() {
    let spline = clamped_demo_curve();
    assert_eq!(SplineError::OutOfRange, spline.at(Fixed::from_int(5)).unwrap_err());
    assert_eq!(SplineError::OutOfRange, spline.at(Fixed::from_bits(-1)).unwrap_err());
}

#[test]
fn it_rejects_a_degree_of_zero() {
    let control = ControlVec::new(0, vec![point2(0, 0), point2(1, 1)]);
    assert_eq!(SplineError::InvalidConfiguration, BSpline::new(control).unwrap_err());
}

#[test]
fn it_rejects_too_few_control_points() {
    let control = ControlVec::new(3, vec![point2(0, 0), point2(1, 1), point2(2, 2)]);
    assert_eq!(SplineError::InvalidConfiguration, BSpline::new(control).unwrap_err());
}

#[test]
fn it_rejects_unsorted_knots() {
    let control = ControlVec::new(
        2,
        vec![point2(50, 50), point2(50, 300), point2(300, 300), point2(300, 500)],
    );
    assert_eq!(
        SplineError::InvalidConfiguration,
        BSpline::with_knots(control, vec![0, 2, 0, 1, 2, 2, 2]).unwrap_err()
    );
}

#[test]
fn it_interpolates_generated_clamped_knots() {
    let control = ControlVec::new(
        2,
        vec![point2(50, 50), point2(50, 300), point2(300, 300), point2(300, 500)],
    );
    let knots = Knots::generate_clamped(2, 4);
    let spline = BSpline::with_knots(control, knots).unwrap();
    let (lo, hi) = spline.range();
    assert_eq!(Fixed::from_int(0), lo);
    assert_eq!(Fixed::from_int(2), hi);
    assert_eq!(point2(50, 50), spline.at(lo).unwrap());
    assert_eq!(point2(300, 500), spline.at(hi).unwrap());
}

#[test]
fn it_builds_a_square() {
    let square = BSpline::square();
    assert_eq!(1, square.degree());
    assert_eq!(3, square.control_points().len());
    let (lo, hi) = square.range();
    // degree 1: the curve walks the corners themselves
    assert_eq!(
        Vector::new(vec![Fixed::from_ratio(-1, 2), Fixed::from_ratio(-1, 2)]),
        square.at(lo).unwrap()
    );
    assert!(hi.bits > lo.bits);
}

#[test]
fn quantized_ranges_hit_both_ends_exactly() {
    let spline = clamped_demo_curve();
    // 0.75 does not divide the range [0, 2] evenly
    let mut steps = spline.quantize_range(Fixed::from_ratio(3, 4));
    let n = steps.len();
    let mut values = Vec::new();
    while let Some(v) = steps.next() {
        values.push(v);
    }
    assert_eq!(n, values.len());
    assert_eq!(Fixed::from_int(0), values[0]);
    assert_eq!(Fixed::from_int(2), values[values.len() - 1]);
}

#[test]
fn errors_describe_themselves() {
    let spline = clamped_demo_curve();
    let e = spline.at(Fixed::from_int(9)).unwrap_err();
    assert_eq!("parameter outside the usable knot range", e.message());
}

#[test]
fn it_moves_control_points_between_evaluations() {
    let mut spline = clamped_demo_curve();
    spline.control_points_mut()[0] = point2(60, 60);
    assert_eq!(point2(60, 60), spline.at(Fixed::from_int(0)).unwrap());
}
