//! Row-major grid behavior.

use splinosaurus::grid::Grid;

#[test]
fn it_accesses_col_row() {
    let original: Grid<i32> = Grid::new(2, vec![1, 2, 3, 4]);

    assert_eq!(1, *original.at(original.vec_index((0, 0))));
    assert_eq!(2, *original.at(original.vec_index((1, 0))));
    assert_eq!(3, *original.at(original.vec_index((0, 1))));
    assert_eq!(4, *original.at(original.vec_index((1, 1))));

    assert_eq!(vec![1, 2], original.row(0));
    assert_eq!(vec![3, 4], original.row(1));
    assert_eq!((0, 2), original.row_range(0));
    assert_eq!((2, 4), original.row_range(1));
}

#[test]
fn it_does_sub_grids() {
    let original: Grid<i32> = Grid::new(3, vec![1, 2, 3, 4, 5, 6, 7, 8, 9]);

    let mut d: Grid<i32> = Grid::with_capacity(2, 2);
    for y in 0..2 {
        for x in 0..2 {
            d.push(*original.at(original.vec_index((x, y))));
        }
    }

    assert_eq!(vec![1, 2, 4, 5], d.into_values());
}

#[test]
fn it_reports_shape() {
    let g: Grid<i32> = Grid::new(2, vec![1, 2, 3, 4, 5, 6]);
    assert_eq!(2, g.len());
    assert_eq!(3, g.height());
}
