//! Control-point containers: lengths, indexing, wrap-around.

use splinosaurus::control_points::{ControlGrid, ControlVec};

#[test]
pub fn it_has_lengths() {
    let cg: ControlGrid<i32> = ControlGrid::new(0, 2, vec![0, 0]);

    assert_eq!(2, cg.u_len());
    assert_eq!(1, cg.v_len());
}

#[test]
pub fn it_indexes() {
    let cg: ControlGrid<i32> = ControlGrid::new(0, 2, vec![0, 1, 2, 3]);

    assert_eq!(0, *cg.at((0, 0)));
    assert_eq!(1, *cg.at((1, 0)));
    assert_eq!(2, *cg.at((0, 1)));
    assert_eq!(3, *cg.at((1, 1)));
}

#[test]
pub fn it_wraps() {
    let mut cg: ControlGrid<i32> = ControlGrid::new(
        0,
        2,
        vec![
            //
            0, 1, //
            2, 3,
        ],
    );
    cg.set_u_wrapping(true);
    cg.set_v_wrapping(true);

    assert_eq!(0, *cg.at((2, 0)));
    assert_eq!(0, *cg.at((0, 2)));
    assert_eq!(0, *cg.at((2, 2)));

    assert_eq!(1, *cg.at((3, 0)));
    assert_eq!(2, *cg.at((0, 3)));
    assert_eq!(3, *cg.at((3, 3)));
}

#[test]
fn it_resolves_wrapped_indices_to_the_same_point() {
    let mut cv: ControlVec<i32> = ControlVec::new(2, vec![10, 20, 30, 40]);
    cv.set_wrapping(true);
    assert_eq!(6, cv.len());
    for i in 0..6 {
        assert_eq!(*cv.at(i), *cv.at(i + 4));
    }
}

#[test]
fn it_counts_wrapping_into_the_length() {
    let mut cv: ControlVec<i32> = ControlVec::new(3, vec![1, 2]);
    assert_eq!(2, cv.len());
    cv.set_wrapping(true);
    assert_eq!(5, cv.len());
    assert!(!cv.is_empty());
}
