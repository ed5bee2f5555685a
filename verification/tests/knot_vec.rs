//! Scalar knot vectors and the curve recurrence over them.

use splinosaurus::knot_vec::KnotVec;
use splinosaurus::splines::algorithms::cox_de_boor;
use splinosaurus::types::Fixed;
use splinosaurus::vector::Vector;

fn knots(values: &[i64]) -> KnotVec {
    KnotVec::new(values.iter().map(|v| Fixed::from_int(*v)).collect())
}

#[test]
fn it_finds_scalar_knot_spans() {
    let k = knots(&[2, 2, 2, 3, 3, 4, 4, 4]);
    assert_eq!(2, k.find_span(Fixed::from_int(2)));
    assert_eq!(4, k.find_span(Fixed::from_int(3)));
    assert_eq!(4, k.find_span(Fixed::from_int(4)));
}

#[test]
fn it_recognises_clamped_shapes() {
    assert!(knots(&[0, 0, 0, 1, 2, 2, 2]).is_clamped(2));
    assert!(!knots(&[0, 1, 2, 3, 4, 5, 6]).is_clamped(2));
    assert!(!knots(&[0, 0, 0, 1]).is_clamped(2));
    // the start knot must repeat degree + 1 times, like the end knot
    assert!(!knots(&[0, 0, 5, 5, 5, 5]).is_clamped(2));
    assert!(knots(&[0, 0, 0, 5, 5, 5]).is_clamped(2));
}

#[test]
fn it_reports_its_range() {
    let k = knots(&[0, 0, 0, 1, 2, 2, 2]);
    assert_eq!(7, k.len());
    assert!(!k.is_empty());
    assert_eq!(Fixed::from_int(0), k.min_u());
    assert_eq!(Fixed::from_int(2), k.max_u());
}

#[test]
fn it_evaluates_the_demo_curve_over_scalar_knots() {
    let k = knots(&[0, 0, 0, 1, 2, 2, 2]);
    let points = vec![
        Vector::new(vec![Fixed::from_int(50), Fixed::from_int(50)]),
        Vector::new(vec![Fixed::from_int(50), Fixed::from_int(300)]),
        Vector::new(vec![Fixed::from_int(300), Fixed::from_int(300)]),
        Vector::new(vec![Fixed::from_int(300), Fixed::from_int(500)]),
    ];
    let start = cox_de_boor(Fixed::from_int(0), 2, &k, &points);
    assert_eq!(Vector::new(vec![Fixed::from_int(50), Fixed::from_int(50)]), start);
    let end = cox_de_boor(Fixed::from_int(2), 2, &k, &points);
    assert_eq!(Vector::new(vec![Fixed::from_int(300), Fixed::from_int(500)]), end);
    let mid = cox_de_boor(Fixed::from_int(1), 2, &k, &points);
    assert_eq!(Vector::new(vec![Fixed::from_int(175), Fixed::from_int(300)]), mid);
}
