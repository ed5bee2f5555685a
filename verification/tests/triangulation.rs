//! Triangulated meshes of sampled surfaces.

use splinosaurus::control_points::ControlGrid;
use splinosaurus::export::Triangulation;
use splinosaurus::surfaces::BSurface;
use splinosaurus::types::Fixed;
use splinosaurus::vector::Vector;

fn point3(x: i64, y: i64, z: i64) -> Vector {
    Vector::new(vec![Fixed::from_int(x), Fixed::from_int(y), Fixed::from_int(z)])
}

fn demo_grid() -> Vec<Vector> {
    vec![
        point3(100, 100, 100),
        point3(200, 100, 100),
        point3(300, 100, 100),
        point3(100, 200, 100),
        point3(200, 200, 300),
        point3(300, 200, 100),
        point3(100, 300, 100),
        point3(200, 300, 100),
        point3(300, 500, 100),
    ]
}

#[test]
fn it_counts_points_and_triangles() {
    // 3x3 control grid of degree 2, sampled at half steps: the u and v
    // ranges are both one knot interval wide, so three steps each
    let surface = BSurface::new(ControlGrid::new(2, 3, demo_grid())).unwrap();
    let t = Triangulation::new(Fixed::from_ratio(1, 2), &surface);

    assert_eq!(3 * 3, t.points().len());
    assert_eq!(2 * (3 - 1) * (3 - 1), t.indexed_triangles().len());
    assert_eq!(t.indexed_triangles().len(), t.normals().len());
    for tri in t.indexed_triangles() {
        for c in tri {
            assert!(*c < t.points().len());
        }
    }
}

#[test]
fn it_stitches_the_wrapping_seam() {
    let mut grid = ControlGrid::new(2, 3, demo_grid());
    grid.set_u_wrapping(true);
    let surface = BSurface::new(grid).unwrap();
    let t = Triangulation::new(Fixed::from_ratio(1, 2), &surface);

    // u is wrapping: five logical columns, u range [2, 5] in seven half
    // steps; v range [2, 3] in three half steps
    let us = 7;
    let vs = 3;
    assert_eq!(us * vs, t.points().len());
    assert_eq!(2 * (us - 1) * (vs - 1) + 2 * (vs - 1), t.indexed_triangles().len());
    assert_eq!(t.indexed_triangles().len(), t.normals().len());
}

#[test]
fn it_splits_each_quad_along_one_diagonal() {
    let surface = BSurface::new(ControlGrid::new(2, 3, demo_grid())).unwrap();
    let t = Triangulation::new(Fixed::from_ratio(1, 2), &surface);

    // the first quad: corners a=(1,1), b=(0,1), c=(1,0), d=(0,0) of the
    // three-wide sampled grid, split into (a,d,c) and (a,b,d)
    assert_eq!([4, 0, 1], t.indexed_triangles()[0]);
    assert_eq!([4, 3, 0], t.indexed_triangles()[1]);

    let tris = t.triangles();
    assert_eq!(t.indexed_triangles().len(), tris.len());
}

#[test]
fn it_computes_flat_normals() {
    // a flat square in the z = 0 plane: every triangle normal points
    // straight along z with the parallelogram's area as its length
    let surface = BSurface::new(ControlGrid::new(
        1,
        2,
        vec![point3(0, 0, 0), point3(10, 0, 0), point3(0, 10, 0), point3(10, 10, 0)],
    ))
    .unwrap();
    let t = Triangulation::new(Fixed::from_int(1), &surface);

    assert_eq!(4, t.points().len());
    assert_eq!(2, t.indexed_triangles().len());
    for n in t.normals() {
        assert_eq!(Fixed::from_int(0), n.coord(0));
        assert_eq!(Fixed::from_int(0), n.coord(1));
        assert_eq!(Fixed::from_int(100), n.coord(2));
    }

    let with_normals = t.triangles_with_normals();
    assert_eq!(2, with_normals.len());
}
