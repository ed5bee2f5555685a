//! Evenly stepped ranges.

use splinosaurus::step_iter::StepIter;
use splinosaurus::types::Fixed;

fn collect(mut it: StepIter) -> Vec<Fixed> {
    let mut out = Vec::new();
    while let Some(v) = it.next() {
        out.push(v);
    }
    out
}

#[test]
fn it_iters_smoothly() {
    let step = StepIter::new(Fixed::from_ratio(1, 2), (Fixed::from_int(0), Fixed::from_int(1)));
    assert_eq!(3, step.len());
    assert_eq!(
        vec![Fixed::from_int(0), Fixed::from_ratio(1, 2), Fixed::from_int(1)],
        collect(step)
    );
}

#[test]
fn it_ends_exactly_on_the_range_end() {
    // 0.75 does not divide the range evenly; the last value is still
    // exactly the end of the range
    let step = StepIter::new(Fixed::from_ratio(3, 4), (Fixed::from_int(0), Fixed::from_int(2)));
    let values = collect(step);
    assert_eq!(4, values.len());
    assert_eq!(Fixed::from_int(0), values[0]);
    assert_eq!(Fixed::from_ratio(3, 4), values[1]);
    assert_eq!(Fixed::from_ratio(3, 2), values[2]);
    assert_eq!(Fixed::from_int(2), values[3]);
}

#[test]
fn it_reports_its_length_up_front() {
    let step = StepIter::new(Fixed::from_ratio(3, 4), (Fixed::from_int(0), Fixed::from_int(2)));
    let n = step.len();
    assert_eq!(n, collect(step).len());
}

#[test]
fn it_yields_one_value_for_an_empty_range() {
    let step = StepIter::new(Fixed::from_int(1), (Fixed::from_int(3), Fixed::from_int(3)));
    assert_eq!(vec![Fixed::from_int(3)], collect(step));
}
