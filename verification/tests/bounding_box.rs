//! Bounding boxes of control points and of sampled curves.

use splinosaurus::export::BoundingBox;
use splinosaurus::splines::BSpline;
use splinosaurus::types::Fixed;
use splinosaurus::vector::Vector;

fn zero3() -> Vector {
    Vector::new(vec![Fixed::from_int(0), Fixed::from_int(0), Fixed::from_int(0)])
}

#[test]
fn it_calculates_for_control_points() {
    let spline = BSpline::circle();
    let bbox = BoundingBox::new(spline.control_points());

    assert_ne!(bbox.min(), &zero3());
    assert_ne!(bbox.max(), &zero3());
}

#[test]
fn it_calculates_for_spline_points() {
    let spline = BSpline::circle();
    let points = spline.quantize(Fixed::from_ratio(1, 100));
    let bbox = BoundingBox::new(&points);

    assert_ne!(bbox.min(), &zero3());
    assert_ne!(bbox.max(), &zero3());
}

#[test]
fn it_finds_exact_corners_and_center() {
    let points = vec![
        Vector::new(vec![Fixed::from_int(2), Fixed::from_int(-3)]),
        Vector::new(vec![Fixed::from_int(-1), Fixed::from_int(7)]),
        Vector::new(vec![Fixed::from_int(4), Fixed::from_int(0)]),
    ];
    let bbox = BoundingBox::new(&points);
    assert_eq!(&Vector::new(vec![Fixed::from_int(-1), Fixed::from_int(-3)]), bbox.min());
    assert_eq!(&Vector::new(vec![Fixed::from_int(4), Fixed::from_int(7)]), bbox.max());
    let center = bbox.center();
    assert_eq!(Fixed::from_ratio(3, 2), center.coord(0));
    assert_eq!(Fixed::from_int(2), center.coord(1));
}
