//! Rational (NURBS) curves and surfaces.

use splinosaurus::SplineError;
use splinosaurus::control_points::ControlGrid;
use splinosaurus::surfaces::BSurface;
use splinosaurus::control_points::ControlVec;
use splinosaurus::splines::BSpline;
use splinosaurus::types::Fixed;
use splinosaurus::vector::Vector;

fn point2(x: i64, y: i64) -> Vector {
    Vector::new(vec![Fixed::from_int(x), Fixed::from_int(y)])
}

fn weighted_point(x: i64, y: i64, w: i64) -> Vector {
    Vector::new(vec![Fixed::from_int(x), Fixed::from_int(y), Fixed::from_int(w)])
}

#[test]
fn unit_weights_match_the_plain_curve() {
    let weighted = ControlVec::new(
        2,
        vec![
            weighted_point(50, 50, 1),
            weighted_point(50, 300, 1),
            weighted_point(300, 300, 1),
            weighted_point(300, 500, 1),
        ],
    );
    let plain = ControlVec::new(
        2,
        vec![point2(50, 50), point2(50, 300), point2(300, 300), point2(300, 500)],
    );
    let rational_base = BSpline::with_knots(weighted, vec![0, 0, 0, 1, 2, 2, 2]).unwrap();
    let plain_curve = BSpline::with_knots(plain, vec![0, 0, 0, 1, 2, 2, 2]).unwrap();
    let rational = rational_base.nurbs();

    for step in 0..5 {
        let u = Fixed::from_ratio(step, 2);
        let p = rational.at(u).unwrap();
        let q = plain_curve.at(u).unwrap();
        assert_eq!(p, q);
    }
}

#[test]
fn zero_weights_are_degenerate() {
    let weighted = ControlVec::new(
        1,
        vec![weighted_point(1, 1, 0), weighted_point(2, 2, 0), weighted_point(3, 3, 0)],
    );
    let base = BSpline::new(weighted).unwrap();
    let rational = base.nurbs();
    let (lo, _) = rational.range();
    assert_eq!(SplineError::DegenerateWeight, rational.at(lo).unwrap_err());
}

#[test]
fn the_circle_touches_its_cardinal_points() {
    let base = BSpline::circle();
    let circle = base.nurbs();
    let (lo, hi) = circle.range();
    assert_eq!(Fixed::from_int(1), lo);
    assert_eq!(Fixed::from_int(5), hi);
    // top of the circle at the range start
    assert_eq!(
        Vector::new(vec![Fixed::from_int(0), Fixed::from_ratio(1, 2)]),
        circle.at(Fixed::from_int(1)).unwrap()
    );
    // bottom of the circle half way through
    assert_eq!(
        Vector::new(vec![Fixed::from_int(0), Fixed::from_ratio(-1, 2)]),
        circle.at(Fixed::from_int(3)).unwrap()
    );
    // the end of the range closes the loop at the top again
    assert_eq!(
        Vector::new(vec![Fixed::from_int(0), Fixed::from_ratio(1, 2)]),
        circle.at(Fixed::from_int(5)).unwrap()
    );
}

#[test]
fn rational_quantization_covers_the_range() {
    let base = BSpline::circle();
    let circle = base.nurbs();
    let points = circle.quantize(Fixed::from_int(1)).unwrap();
    assert_eq!(5, points.len());
}

#[test]
fn unit_weight_surfaces_match_the_plain_surface() {
    let weighted = ControlGrid::new(
        1,
        2,
        vec![
            weighted_point(0, 0, 1),
            weighted_point(10, 0, 1),
            weighted_point(0, 10, 1),
            weighted_point(10, 20, 1),
        ],
    );
    let plain = ControlGrid::new(
        1,
        2,
        vec![point2(0, 0), point2(10, 0), point2(0, 10), point2(10, 20)],
    );
    let weighted_surface = BSurface::new(weighted).unwrap();
    let plain_surface = BSurface::new(plain).unwrap();
    let rational = weighted_surface.nurbs();

    for ub in 0..3 {
        for vb in 0..3 {
            let uv = (
                Fixed::from_bits(65536 + ub * 32768),
                Fixed::from_bits(65536 + vb * 32768),
            );
            let p = rational.at(uv).unwrap();
            let q = plain_surface.at(uv).unwrap();
            assert_eq!(p, q);
        }
    }

    let sampled = rational.quantize(Fixed::from_ratio(1, 2)).unwrap();
    assert_eq!(9, sampled.len());
}
