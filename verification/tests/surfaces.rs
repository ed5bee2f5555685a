//! Surfaces: uv stepping and corner evaluation.

use splinosaurus::control_points::ControlGrid;
use splinosaurus::surfaces::{BSurface, UVRange};
use splinosaurus::step_iter::StepIter;
use splinosaurus::types::Fixed;
use splinosaurus::vector::Vector;

#[test]
fn it_has_uv_len() {
    let mut iter = UVRange::new(
        StepIter::new(Fixed::from_ratio(1, 2), (Fixed::from_int(1), Fixed::from_int(2))),
        StepIter::new(Fixed::from_ratio(1, 2), (Fixed::from_int(1), Fixed::from_int(3))),
    );

    for i in (0..=15usize).rev() {
        assert_eq!(i, iter.len());
        iter.next();
    }
    assert_eq!(None, iter.next());
}

fn scalar_point(v: i64) -> Vector {
    Vector::new(vec![Fixed::from_int(v)])
}

#[test]
fn it_finds_all_corners() {
    let surface = BSurface::new(ControlGrid::new(
        1,
        2,
        vec![scalar_point(0), scalar_point(1), scalar_point(2), scalar_point(3)],
    ))
    .unwrap();

    let at = |u: i64, v: i64| {
        surface
            .at((Fixed::from_int(u), Fixed::from_int(v)))
            .unwrap()
            .coord(0)
    };
    assert_eq!(Fixed::from_int(0), at(1, 1));
    assert_eq!(Fixed::from_int(1), at(2, 1));
    assert_eq!(Fixed::from_int(2), at(1, 2));
    assert_eq!(Fixed::from_int(3), at(2, 2));
}

#[test]
fn it_steps_the_cross_product_u_fastest() {
    let mut iter = UVRange::new(
        StepIter::new(Fixed::from_int(1), (Fixed::from_int(0), Fixed::from_int(1))),
        StepIter::new(Fixed::from_int(1), (Fixed::from_int(0), Fixed::from_int(1))),
    );
    let mut pairs = Vec::new();
    while let Some(p) = iter.next() {
        pairs.push((p.0.bits / 65536, p.1.bits / 65536));
    }
    assert_eq!(vec![(0, 0), (1, 0), (0, 1), (1, 1)], pairs);
}

#[test]
fn it_rejects_wrapping_on_both_axes() {
    let mut grid = ControlGrid::new(
        1,
        2,
        vec![scalar_point(0), scalar_point(1), scalar_point(2), scalar_point(3)],
    );
    grid.set_u_wrapping(true);
    grid.set_v_wrapping(true);
    assert_eq!(
        splinosaurus::SplineError::InvalidConfiguration,
        BSurface::new(grid).unwrap_err()
    );
}
