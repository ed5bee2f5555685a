//! Indexed triangle meshes sampled from a surface.

use vstd::prelude::*;

verus! {

use crate::grid::lemma_row_major_index;
use crate::step_iter::quantize_seq;
use crate::surfaces::BSurface;
use crate::types::COORD_LIMIT;
use crate::types::Fixed;
use crate::vector::Vector;
use crate::vector::spec_cross;

/// The coordinate-wise difference of two points.
pub open spec fn spec_delta(a: Seq<int>, b: Seq<int>) -> Seq<int> {
    Seq::new(a.len(), |i: int| a[i] - b[i])
}

/// The flat normal of a triangle over a point list: the cross product
/// of its two edges leaving the first vertex.
pub open spec fn spec_tri_normal(ps: Seq<Seq<int>>, t: Seq<int>) -> Seq<int> {
    spec_cross(spec_delta(ps[t[1]], ps[t[0]]), spec_delta(ps[t[2]], ps[t[0]]))
}

/// The index triple of a triangle, as integers.
pub open spec fn tri_view(t: [usize; 3]) -> Seq<int> {
    seq![t[0] as int, t[1] as int, t[2] as int]
}

/// The two triangles closing the quad between columns `xb < xa` (in
/// grid order, possibly wrapped) and rows `yb < ya`: the quad is split
/// along the diagonal from its `(xa, ya)` corner.
pub open spec fn spec_quad_tris(us: int, xa: int, xb: int, ya: int, yb: int) -> (Seq<int>, Seq<
    int,
>) {
    (
        seq![ya * us + xa, yb * us + xb, yb * us + xa],
        seq![ya * us + xa, ya * us + xb, yb * us + xb],
    )
}

/// The expected main-grid triangle at position `i` of the triangle
/// list: quads are laid out row-major over the interior grid, two
/// triangles per quad.
pub open spec fn spec_main_tri(us: int, i: int) -> Seq<int> {
    let quad = i / 2;
    let xx = quad % (us - 1) + 1;
    let yy = quad / (us - 1) + 1;
    if i % 2 == 0 {
        spec_quad_tris(us, xx, xx - 1, yy, yy - 1).0
    } else {
        spec_quad_tris(us, xx, xx - 1, yy, yy - 1).1
    }
}

/// The expected triangle at position `i` of the seam ring that closes
/// the `u` wrap, `main` triangles into the list.
pub open spec fn spec_u_seam_tri(us: int, main: int, i: int) -> Seq<int> {
    let yy = (i - main) / 2 + 1;
    if (i - main) % 2 == 0 {
        spec_quad_tris(us, 0, us - 1, yy, yy - 1).0
    } else {
        spec_quad_tris(us, 0, us - 1, yy, yy - 1).1
    }
}

/// The expected triangle at position `i` of the seam ring that closes
/// the `v` wrap, `main` triangles into the list.
pub open spec fn spec_v_seam_tri(us: int, vs: int, main: int, i: int) -> Seq<int> {
    let xx = (i - main) / 2 + 1;
    if (i - main) % 2 == 0 {
        spec_quad_tris(us, xx, xx - 1, 0, vs - 1).0
    } else {
        spec_quad_tris(us, xx, xx - 1, 0, vs - 1).1
    }
}

/// A freshly pushed pair of quad triangles sits exactly where the
/// row-major layout expects it.
proof fn lemma_quad_position(us: int, x: int, y: int, base: int)
    requires
        2 <= us,
        1 <= x < us,
        1 <= y,
        base == 2 * ((y - 1) * (us - 1) + (x - 1)),
    ensures
        base / 2 == (y - 1) * (us - 1) + (x - 1),
        base % 2 == 0,
        (base + 1) / 2 == (y - 1) * (us - 1) + (x - 1),
        (base + 1) % 2 == 1,
        ((y - 1) * (us - 1) + (x - 1)) % (us - 1) == x - 1,
        ((y - 1) * (us - 1) + (x - 1)) / (us - 1) == y - 1,
        spec_main_tri(us, base) == spec_quad_tris(us, x, x - 1, y, y - 1).0,
        spec_main_tri(us, base + 1) == spec_quad_tris(us, x, x - 1, y, y - 1).1,
{
    let q = (y - 1) * (us - 1) + (x - 1);
    vstd::arithmetic::mul::lemma_mul_nonnegative(y - 1, us - 1);
    vstd::arithmetic::div_mod::lemma_fundamental_div_mod_converse(base, 2, q, 0);
    vstd::arithmetic::div_mod::lemma_fundamental_div_mod_converse(base + 1, 2, q, 1);
    assert((us - 1) * (y - 1) == (y - 1) * (us - 1)) by (nonlinear_arith);
    vstd::arithmetic::div_mod::lemma_fundamental_div_mod_converse(q, us - 1, y - 1, x - 1);
}

/// A freshly pushed pair of seam triangles sits exactly where the seam
/// layout expects it.
proof fn lemma_seam_position(main: int, k: int, base: int)
    requires
        1 <= k,
        base == main + 2 * (k - 1),
    ensures
        (base - main) / 2 == k - 1,
        (base - main) % 2 == 0,
        (base + 1 - main) / 2 == k - 1,
        (base + 1 - main) % 2 == 1,
{
    vstd::arithmetic::div_mod::lemma_fundamental_div_mod_converse(base - main, 2, k - 1, 0);
    vstd::arithmetic::div_mod::lemma_fundamental_div_mod_converse(base + 1 - main, 2, k - 1, 1);
}

/// 3D mesh of a sampled surface: a flat point list, one normal per
/// triangle, and triangles as index triples into the point list.
#[derive(Debug)]
pub struct Triangulation {
    points: Vec<Vector>,
    normals: Vec<Vector>,
    indexed_triangles: Vec<[usize; 3]>,
}

/// Two triangles and their flat normals for one quad of the sampled
/// grid.
fn quad_tris(
    points: &Vec<Vector>,
    us: usize,
    xa: usize,
    xb: usize,
    ya: usize,
    yb: usize,
) -> (r: ([usize; 3], [usize; 3], Vector, Vector))
    requires
        1 <= us,
        xa < us,
        xb < us,
        ya * us + us <= points@.len(),
        yb * us + us <= points@.len(),
        forall|t: int| 0 <= t < points@.len() ==> (#[trigger] points@[t])@.len() == 3,
        forall|t: int|
            0 <= t < points@.len() ==> (#[trigger] points@[t]).in_bounds(COORD_LIMIT as int),
    ensures
        ({
            let (ta, tb) = spec_quad_tris(us as int, xa as int, xb as int, ya as int, yb as int);
            &&& tri_view(r.0) == ta
            &&& tri_view(r.1) == tb
            &&& r.2@ == spec_tri_normal(points@.map_values(|p: Vector| p@), ta)
            &&& r.3@ == spec_tri_normal(points@.map_values(|p: Vector| p@), tb)
            &&& forall|c: int| 0 <= c < 3 ==> 0 <= #[trigger] tri_view(r.0)[c] < points@.len()
            &&& forall|c: int| 0 <= c < 3 ==> 0 <= #[trigger] tri_view(r.1)[c] < points@.len()
        }),
{
    // pin the point count to the machine range for the index arithmetic
    let total: usize = points.len();
    proof {
        vstd::arithmetic::mul::lemma_mul_nonnegative(ya as int, us as int);
        vstd::arithmetic::mul::lemma_mul_nonnegative(yb as int, us as int);
    }
    let a: usize = ya * us + xa;
    let b: usize = ya * us + xb;
    let c: usize = yb * us + xa;
    let d: usize = yb * us + xb;
    let ta: [usize; 3] = [a, d, c];
    let tb: [usize; 3] = [a, b, d];
    let na: Vector = normal_for(points, ta);
    let nb: Vector = normal_for(points, tb);
    proof {
        assert(tri_view(ta) =~= spec_quad_tris(
            us as int,
            xa as int,
            xb as int,
            ya as int,
            yb as int,
        ).0);
        assert(tri_view(tb) =~= spec_quad_tris(
            us as int,
            xa as int,
            xb as int,
            ya as int,
            yb as int,
        ).1);
    }
    (ta, tb, na, nb)
}

/// The flat normal of one triangle of a point list.
fn normal_for(points: &Vec<Vector>, triangle: [usize; 3]) -> (r: Vector)
    requires
        triangle[0] < points@.len(),
        triangle[1] < points@.len(),
        triangle[2] < points@.len(),
        forall|t: int| 0 <= t < points@.len() ==> (#[trigger] points@[t])@.len() == 3,
        forall|t: int|
            0 <= t < points@.len() ==> (#[trigger] points@[t]).in_bounds(COORD_LIMIT as int),
    ensures
        r@ == spec_tri_normal(points@.map_values(|p: Vector| p@), tri_view(triangle)),
{
    let ea: Vector = points[triangle[1]].delta(&points[triangle[0]]);
    let eb: Vector = points[triangle[2]].delta(&points[triangle[0]]);
    let r: Vector = ea.cross(&eb);
    proof {
        let pv = points@.map_values(|p: Vector| p@);
        let t = tri_view(triangle);
        assert(ea@ =~= spec_delta(pv[t[1]], pv[t[0]]));
        assert(eb@ =~= spec_delta(pv[t[2]], pv[t[0]]));
    }
    r
}

impl Triangulation {
    /// The sampled points, as coordinate bits.
    pub closed spec fn spec_points(&self) -> Seq<Vector> {
        self.points@
    }

    /// The triangle normals, as coordinate bits.
    pub closed spec fn spec_normals(&self) -> Seq<Vector> {
        self.normals@
    }

    /// The triangles, as index triples.
    pub closed spec fn spec_triangles(&self) -> Seq<[usize; 3]> {
        self.indexed_triangles@
    }

    /// Every triangle indexes into the point list, and carries its own
    /// flat normal.
    pub open spec fn mesh_ok(&self) -> bool {
        &&& self.spec_normals().len() == self.spec_triangles().len()
        &&& forall|i: int, c: int|
            0 <= i < self.spec_triangles().len() && 0 <= c < 3 ==> 0 <= #[trigger] tri_view(
                self.spec_triangles()[i],
            )[c] < self.spec_points().len()
        &&& forall|i: int|
            0 <= i < self.spec_triangles().len() ==> (#[trigger] self.spec_normals()[i])@
                == spec_tri_normal(
                self.spec_points().map_values(|p: Vector| p@),
                tri_view(self.spec_triangles()[i]),
            )
    }

    /// Create a new triangulation of a surface of 3D points, sampled
    /// with `step`: one point per uv step, two triangles per interior
    /// quad of the sampled grid, and a ring of seam triangles closing
    /// the wrapping axis, if there is one.
    pub fn new(step: Fixed, surface: &BSurface) -> (r: Triangulation)
        requires
            surface.wf(),
            surface.spec_dim() == 3,
            1 <= step.bits <= 2 * COORD_LIMIT,
            surface.spec_u_steps(step.bits as int) * surface.spec_v_steps(step.bits as int) + 4 * (
            surface.spec_u_steps(step.bits as int) + surface.spec_v_steps(step.bits as int))
                <= usize::MAX,
        ensures
            ({
                let us = surface.spec_u_steps(step.bits as int);
                let vs = surface.spec_v_steps(step.bits as int);
                let useq = quantize_seq(
                    surface.spec_u_min_bits(),
                    surface.spec_u_max_bits(),
                    step.bits as int,
                );
                let vseq = quantize_seq(
                    surface.spec_v_min_bits(),
                    surface.spec_v_max_bits(),
                    step.bits as int,
                );
                let main = 2 * ((us - 1) * (vs - 1));
                &&& r.spec_points().len() == us * vs
                &&& forall|a: int, b: int|
                    0 <= a < vs && 0 <= b < us ==> (#[trigger] r.spec_points()[a * us + b])@
                        == surface.at_spec(useq[b], vseq[a])
                &&& r.spec_triangles().len() == main + (if surface.spec_grid().spec_u_wrapping() {
                    2 * (vs - 1)
                } else {
                    0
                }) + (if surface.spec_grid().spec_v_wrapping() {
                    2 * (us - 1)
                } else {
                    0
                })
                &&& r.mesh_ok()
                &&& forall|i: int|
                    0 <= i < main ==> tri_view(#[trigger] r.spec_triangles()[i]) == spec_main_tri(
                        us,
                        i,
                    )
                &&& surface.spec_grid().spec_u_wrapping() ==> forall|i: int|
                    main <= i < r.spec_triangles().len() ==> tri_view(
                        #[trigger] r.spec_triangles()[i],
                    ) == spec_u_seam_tri(us, main, i)
                &&& surface.spec_grid().spec_v_wrapping() ==> forall|i: int|
                    main <= i < r.spec_triangles().len() ==> tri_view(
                        #[trigger] r.spec_triangles()[i],
                    ) == spec_v_seam_tri(us, vs, main, i)
            }),
    {
        let ghost us_g = surface.spec_u_steps(step.bits as int);
        let ghost vs_g = surface.spec_v_steps(step.bits as int);
        proof {
            vstd::arithmetic::mul::lemma_mul_nonnegative(us_g, vs_g);
            crate::step_iter::lemma_quantize_seq_endpoints(
                surface.spec_u_min_bits(),
                surface.spec_u_max_bits(),
                step.bits as int,
            );
            crate::step_iter::lemma_quantize_seq_endpoints(
                surface.spec_v_min_bits(),
                surface.spec_v_max_bits(),
                step.bits as int,
            );
        }
        let points: Vec<Vector> = surface.quantize(step);
        let us: usize = surface.quantize_u_range(step).len();
        let vs: usize = surface.quantize_v_range(step).len();
        let total: usize = points.len();
        let mut indexed_triangles: Vec<[usize; 3]> = Vec::new();
        let mut normals: Vec<Vector> = Vec::new();
        let mut y: usize = 1;
        while y < vs
            invariant
                1 <= y,
                y <= vs || y == 1,
                us == us_g,
                vs == vs_g,
                total == points@.len(),
                total == us_g * vs_g,
                1 <= us_g,
                1 <= vs_g,
                forall|t: int| 0 <= t < points@.len() ==> (#[trigger] points@[t])@.len() == 3,
                forall|t: int|
                    0 <= t < points@.len() ==> (#[trigger] points@[t]).in_bounds(
                        COORD_LIMIT as int,
                    ),
                indexed_triangles@.len() == 2 * ((y - 1) * (us_g - 1)),
                normals@.len() == indexed_triangles@.len(),
                forall|i: int, c: int|
                    0 <= i < indexed_triangles@.len() && 0 <= c < 3 ==> 0 <= #[trigger] tri_view(
                        indexed_triangles@[i],
                    )[c] < points@.len(),
                forall|i: int|
                    0 <= i < indexed_triangles@.len() ==> (#[trigger] normals@[i])@
                        == spec_tri_normal(
                        points@.map_values(|p: Vector| p@),
                        tri_view(indexed_triangles@[i]),
                    ),
                forall|i: int|
                    0 <= i < indexed_triangles@.len() ==> tri_view(
                        #[trigger] indexed_triangles@[i],
                    ) == spec_main_tri(us_g, i),
            decreases vs - y,
        {
            let mut x: usize = 1;
            while x < us
                invariant
                    1 <= x <= us,
                    1 <= y < vs,
                    us == us_g,
                    vs == vs_g,
                    total == points@.len(),
                    total == us_g * vs_g,
                    1 <= us_g,
                    1 <= vs_g,
                    forall|t: int| 0 <= t < points@.len() ==> (#[trigger] points@[t])@.len() == 3,
                    forall|t: int|
                        0 <= t < points@.len() ==> (#[trigger] points@[t]).in_bounds(
                            COORD_LIMIT as int,
                        ),
                    indexed_triangles@.len() == 2 * ((y - 1) * (us_g - 1) + (x - 1)),
                    normals@.len() == indexed_triangles@.len(),
                    forall|i: int, c: int|
                        0 <= i < indexed_triangles@.len() && 0 <= c < 3 ==> 0
                            <= #[trigger] tri_view(indexed_triangles@[i])[c] < points@.len(),
                    forall|i: int|
                        0 <= i < indexed_triangles@.len() ==> (#[trigger] normals@[i])@
                            == spec_tri_normal(
                            points@.map_values(|p: Vector| p@),
                            tri_view(indexed_triangles@[i]),
                        ),
                    forall|i: int|
                        0 <= i < indexed_triangles@.len() ==> tri_view(
                            #[trigger] indexed_triangles@[i],
                        ) == spec_main_tri(us_g, i),
                decreases us - x,
            {
                proof {
                    lemma_row_major_index(us_g, vs_g, 0, y as int);
                    vstd::arithmetic::mul::lemma_mul_inequality(y as int + 1, vs_g, us_g);
                    assert((y + 1) * us_g == y * us_g + us_g) by (nonlinear_arith);
                    assert(vs_g * us_g == us_g * vs_g) by (nonlinear_arith);
                    assert(y * us_g + us_g <= total);
                    assert((y - 1) * us_g + us_g <= total) by (nonlinear_arith)
                        requires
                            y as int * us_g + us_g <= total,
                            us_g >= 1,
                            y >= 1,
                    ;
                    lemma_quad_position(
                        us_g,
                        x as int,
                        y as int,
                        indexed_triangles@.len() as int,
                    );
                }
                let (ta, tb, na, nb) = quad_tris(&points, us, x, x - 1, y, y - 1);
                indexed_triangles.push(ta);
                normals.push(na);
                indexed_triangles.push(tb);
                normals.push(nb);
                proof {
                    assert(2 * ((y - 1) * (us_g - 1) + (x - 1)) + 2 == 2 * ((y - 1) * (us_g - 1)
                        + x)) by (nonlinear_arith);
                }
                x = x + 1;
            }
            proof {
                assert(2 * ((y - 1) * (us_g - 1) + (us_g - 1)) == 2 * ((y as int) * (us_g - 1)))
                    by (nonlinear_arith);
            }
            y = y + 1;
        }
        let ghost main_count = indexed_triangles@.len() as int;
        proof {
            if vs_g >= 1 {
                assert(2 * ((vs_g - 1) * (us_g - 1)) == 2 * ((us_g - 1) * (vs_g - 1)))
                    by (nonlinear_arith);
            }
            assert(main_count == 2 * ((us_g - 1) * (vs_g - 1)));
        }
        if surface.control_grid().u_wrapping() {
            let mut k: usize = 1;
            while k < vs
                invariant
                    1 <= k,
                    k <= vs || k == 1,
                    us == us_g,
                    vs == vs_g,
                    total == points@.len(),
                    total == us_g * vs_g,
                    1 <= us_g,
                    1 <= vs_g,
                    forall|t: int| 0 <= t < points@.len() ==> (#[trigger] points@[t])@.len() == 3,
                    forall|t: int|
                        0 <= t < points@.len() ==> (#[trigger] points@[t]).in_bounds(
                            COORD_LIMIT as int,
                        ),
                    main_count == 2 * ((us_g - 1) * (vs_g - 1)),
                    indexed_triangles@.len() == main_count + 2 * (k - 1),
                    normals@.len() == indexed_triangles@.len(),
                    forall|i: int, c: int|
                        0 <= i < indexed_triangles@.len() && 0 <= c < 3 ==> 0
                            <= #[trigger] tri_view(indexed_triangles@[i])[c] < points@.len(),
                    forall|i: int|
                        0 <= i < indexed_triangles@.len() ==> (#[trigger] normals@[i])@
                            == spec_tri_normal(
                            points@.map_values(|p: Vector| p@),
                            tri_view(indexed_triangles@[i]),
                        ),
                    forall|i: int|
                        0 <= i < main_count ==> tri_view(#[trigger] indexed_triangles@[i])
                            == spec_main_tri(us_g, i),
                    forall|i: int|
                        main_count <= i < indexed_triangles@.len() ==> tri_view(
                            #[trigger] indexed_triangles@[i],
                        ) == spec_u_seam_tri(us_g, main_count, i),
                decreases vs - k,
            {
                proof {
                    lemma_row_major_index(us_g, vs_g, 0, k as int);
                    vstd::arithmetic::mul::lemma_mul_inequality(k as int + 1, vs_g, us_g);
                    assert((k + 1) * us_g == k * us_g + us_g) by (nonlinear_arith);
                    assert(vs_g * us_g == us_g * vs_g) by (nonlinear_arith);
                    assert((k - 1) * us_g + us_g <= total) by (nonlinear_arith)
                        requires
                            k as int * us_g + us_g <= total,
                            us_g >= 1,
                            k >= 1,
                    ;
                    lemma_seam_position(
                        main_count,
                        k as int,
                        indexed_triangles@.len() as int,
                    );
                }
                let (ta, tb, na, nb) = quad_tris(&points, us, 0, us - 1, k, k - 1);
                indexed_triangles.push(ta);
                normals.push(na);
                indexed_triangles.push(tb);
                normals.push(nb);
                k = k + 1;
            }
        } else if surface.control_grid().v_wrapping() {
            let mut k: usize = 1;
            while k < us
                invariant
                    1 <= k <= us,
                    us == us_g,
                    vs == vs_g,
                    total == points@.len(),
                    total == us_g * vs_g,
                    1 <= us_g,
                    1 <= vs_g,
                    forall|t: int| 0 <= t < points@.len() ==> (#[trigger] points@[t])@.len() == 3,
                    forall|t: int|
                        0 <= t < points@.len() ==> (#[trigger] points@[t]).in_bounds(
                            COORD_LIMIT as int,
                        ),
                    main_count == 2 * ((us_g - 1) * (vs_g - 1)),
                    indexed_triangles@.len() == main_count + 2 * (k - 1),
                    normals@.len() == indexed_triangles@.len(),
                    forall|i: int, c: int|
                        0 <= i < indexed_triangles@.len() && 0 <= c < 3 ==> 0
                            <= #[trigger] tri_view(indexed_triangles@[i])[c] < points@.len(),
                    forall|i: int|
                        0 <= i < indexed_triangles@.len() ==> (#[trigger] normals@[i])@
                            == spec_tri_normal(
                            points@.map_values(|p: Vector| p@),
                            tri_view(indexed_triangles@[i]),
                        ),
                    forall|i: int|
                        0 <= i < main_count ==> tri_view(#[trigger] indexed_triangles@[i])
                            == spec_main_tri(us_g, i),
                    forall|i: int|
                        main_count <= i < indexed_triangles@.len() ==> tri_view(
                            #[trigger] indexed_triangles@[i],
                        ) == spec_v_seam_tri(us_g, vs_g, main_count, i),
                decreases us - k,
            {
                proof {
                    lemma_row_major_index(us_g, vs_g, 0, vs_g - 1);
                    assert((vs_g - 1) * us_g + us_g == vs_g * us_g) by (nonlinear_arith);
                    assert(vs_g * us_g == us_g * vs_g) by (nonlinear_arith);
                    lemma_seam_position(
                        main_count,
                        k as int,
                        indexed_triangles@.len() as int,
                    );
                }
                let (ta, tb, na, nb) = quad_tris(&points, us, k, k - 1, 0, vs - 1);
                indexed_triangles.push(ta);
                normals.push(na);
                indexed_triangles.push(tb);
                normals.push(nb);
                k = k + 1;
            }
        }
        Triangulation { points, normals, indexed_triangles }
    }

    /// Points in the triangulation.
    pub fn points(&self) -> (r: &Vec<Vector>)
        ensures
            r@ == self.spec_points(),
    {
        &self.points
    }

    /// Normals for each triangle.
    pub fn normals(&self) -> (r: &Vec<Vector>)
        ensures
            r@ == self.spec_normals(),
    {
        &self.normals
    }

    /// Triangles made up of index references of points.
    pub fn indexed_triangles(&self) -> (r: &Vec<[usize; 3]>)
        ensures
            r@ == self.spec_triangles(),
    {
        &self.indexed_triangles
    }

    /// Triangles made up of points.
    pub fn triangles(&self) -> (r: Vec<[Vector; 3]>)
        requires
            self.mesh_ok(),
        ensures
            r@.len() == self.spec_triangles().len(),
            forall|i: int, c: int|
                0 <= i < r@.len() && 0 <= c < 3 ==> (#[trigger] r@[i][c])@ == self.spec_points()[
                    tri_view(self.spec_triangles()[i])[c]]@,
    {
        let n: usize = self.indexed_triangles.len();
        let mut out: Vec<[Vector; 3]> = Vec::new();
        let mut i: usize = 0;
        while i < n
            invariant
                i <= n,
                n == self.spec_triangles().len(),
                self.mesh_ok(),
                out@.len() == i,
                forall|t: int, c: int|
                    0 <= t < i && 0 <= c < 3 ==> (#[trigger] out@[t][c])@ == self.spec_points()[
                        tri_view(self.spec_triangles()[t])[c]]@,
            decreases n - i,
        {
            let t: [usize; 3] = self.indexed_triangles[i];
            proof {
                assert(0 <= tri_view(self.spec_triangles()[i as int])[0] < self.spec_points().len());
                assert(0 <= tri_view(self.spec_triangles()[i as int])[1] < self.spec_points().len());
                assert(0 <= tri_view(self.spec_triangles()[i as int])[2] < self.spec_points().len());
            }
            let tri: [Vector; 3] = [
                self.points[t[0]].duplicate(),
                self.points[t[1]].duplicate(),
                self.points[t[2]].duplicate(),
            ];
            out.push(tri);
            i = i + 1;
        }
        out
    }

    /// Triangles made up of points, each with its flat normal.
    pub fn triangles_with_normals(&self) -> (r: Vec<([Vector; 3], Vector)>)
        requires
            self.mesh_ok(),
        ensures
            r@.len() == self.spec_triangles().len(),
            forall|i: int, c: int|
                0 <= i < r@.len() && 0 <= c < 3 ==> (#[trigger] r@[i].0[c])@ == self.spec_points()[
                    tri_view(self.spec_triangles()[i])[c]]@,
            forall|i: int| 0 <= i < r@.len() ==> ((#[trigger] r@[i]).1)@ == self.spec_normals()[i]@,
    {
        let n: usize = self.indexed_triangles.len();
        let mut out: Vec<([Vector; 3], Vector)> = Vec::new();
        let mut i: usize = 0;
        while i < n
            invariant
                i <= n,
                n == self.spec_triangles().len(),
                self.mesh_ok(),
                out@.len() == i,
                forall|t: int, c: int|
                    0 <= t < i && 0 <= c < 3 ==> (#[trigger] out@[t].0[c])@ == self.spec_points()[
                        tri_view(self.spec_triangles()[t])[c]]@,
                forall|t: int|
                    0 <= t < i ==> ((#[trigger] out@[t]).1)@ == self.spec_normals()[t]@,
            decreases n - i,
        {
            let t: [usize; 3] = self.indexed_triangles[i];
            proof {
                assert(0 <= tri_view(self.spec_triangles()[i as int])[0]
                    < self.spec_points().len());
                assert(0 <= tri_view(self.spec_triangles()[i as int])[1]
                    < self.spec_points().len());
                assert(0 <= tri_view(self.spec_triangles()[i as int])[2]
                    < self.spec_points().len());
            }
            let tri: [Vector; 3] = [
                self.points[t[0]].duplicate(),
                self.points[t[1]].duplicate(),
                self.points[t[2]].duplicate(),
            ];
            let normal: Vector = self.normals[i].duplicate();
            out.push((tri, normal));
            i = i + 1;
        }
        out
    }
}

} // verus!
