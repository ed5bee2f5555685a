//! NURBS surfaces: a weighted basis surface projected to one dimension
//! lower.

use vstd::prelude::*;

verus! {

use crate::SplineError;
use crate::algorithms::cox_de_boor_uv_weighted;
use crate::algorithms::weighted_logical_grid;
use crate::surfaces::BSurface;
use crate::types::COORD_LIMIT;
use crate::types::Fixed;
use crate::types::abs_val;
use crate::types::div_fix_capped;
use crate::types::fix_div;
use crate::vector::Vector;

/// The homogeneous point a rational surface blends at `(u, v)`: the
/// ordinary surface point over the weighted control grid.
pub open spec fn rational_surface_hom(s: BSurface, u: int, v: int) -> Seq<int> {
    crate::algorithms::spec_surface_point(
        weighted_logical_grid(s.spec_grid()),
        s.spec_u_knots()@,
        s.spec_v_knots()@,
        s.spec_degree(),
        u,
        v,
    )
}

/// The blended weight: the last coordinate of the homogeneous point.
pub open spec fn rational_surface_weight(s: BSurface, u: int, v: int) -> int {
    rational_surface_hom(s, u, v)[s.spec_dim() - 1]
}

/// The projection is defined: the blended weight is nonzero and every
/// projected coordinate stays within the coordinate range.
pub open spec fn rational_surface_projectable(s: BSurface, u: int, v: int) -> bool {
    &&& rational_surface_weight(s, u, v) != 0
    &&& forall|i: int|
        0 <= i < s.spec_dim() - 1 ==> abs_val(
            fix_div(#[trigger] rational_surface_hom(s, u, v)[i], rational_surface_weight(s, u, v)),
        ) <= COORD_LIMIT
}

/// The projected rational surface point.
pub open spec fn rational_surface_at(s: BSurface, u: int, v: int) -> Seq<int> {
    Seq::new(
        (s.spec_dim() - 1) as nat,
        |i: int| fix_div(rational_surface_hom(s, u, v)[i], rational_surface_weight(s, u, v)),
    )
}

/// NURBS surface: a view of a basis surface whose last coordinate holds
/// the rational weight of each control point.
#[derive(Debug)]
pub struct NURBSurface<'a> {
    spline: &'a BSurface,
}

impl<'a> NURBSurface<'a> {
    /// The wrapped basis surface.
    pub closed spec fn spec_spline(&self) -> BSurface {
        *self.spline
    }

    /// The wrapped surface is fit for evaluation and carries a weight
    /// coordinate beside at least one spatial coordinate.
    pub open spec fn wf(&self) -> bool {
        &&& self.spec_spline().wf()
        &&& self.spec_spline().spec_dim() >= 2
    }

    /// Wrap a basis surface as a rational surface.
    pub fn new(spline: &'a BSurface) -> (r: NURBSurface<'a>)
        requires
            spline.wf(),
            spline.spec_dim() >= 2,
        ensures
            r.spec_spline() == *spline,
            r.wf(),
    {
        NURBSurface { spline }
    }

    /// Usable range of `u` values, inclusive.
    pub fn u_range(&self) -> (r: (Fixed, Fixed))
        requires
            self.wf(),
        ensures
            r.0.bits == self.spec_spline().spec_u_min_bits(),
            r.1.bits == self.spec_spline().spec_u_max_bits(),
            0 <= r.0.bits <= r.1.bits <= COORD_LIMIT,
    {
        self.spline.u_range()
    }

    /// Usable range of `v` values, inclusive.
    pub fn v_range(&self) -> (r: (Fixed, Fixed))
        requires
            self.wf(),
        ensures
            r.0.bits == self.spec_spline().spec_v_min_bits(),
            r.1.bits == self.spec_spline().spec_v_max_bits(),
            0 <= r.0.bits <= r.1.bits <= COORD_LIMIT,
    {
        self.spline.v_range()
    }

    /// Point of the rational surface at coordinate `uv`, one dimension
    /// lower than its control points.
    pub fn at(&self, uv: (Fixed, Fixed)) -> (r: Result<Vector, SplineError>)
        requires
            self.wf(),
        ensures
            match r {
                Ok(p) => {
                    &&& self.spec_spline().params_in_range(uv.0.bits as int, uv.1.bits as int)
                    &&& rational_surface_projectable(
                        self.spec_spline(),
                        uv.0.bits as int,
                        uv.1.bits as int,
                    )
                    &&& p@ == rational_surface_at(
                        self.spec_spline(),
                        uv.0.bits as int,
                        uv.1.bits as int,
                    )
                    &&& p@.len() == self.spec_spline().spec_dim() - 1
                    &&& p.in_bounds(COORD_LIMIT as int)
                },
                Err(e) => {
                    &&& (e == SplineError::OutOfRange || e == SplineError::DegenerateWeight)
                    &&& (e == SplineError::OutOfRange <==> !self.spec_spline().params_in_range(
                        uv.0.bits as int,
                        uv.1.bits as int,
                    ))
                    &&& (e == SplineError::DegenerateWeight <==> self.spec_spline().params_in_range(
                        uv.0.bits as int,
                        uv.1.bits as int,
                    ) && !rational_surface_projectable(
                        self.spec_spline(),
                        uv.0.bits as int,
                        uv.1.bits as int,
                    ))
                },
            },
    {
        let (u, v) = uv;
        let (ulo, uhi) = self.spline.u_range();
        let (vlo, vhi) = self.spline.v_range();
        if u.bits < ulo.bits || u.bits > uhi.bits || v.bits < vlo.bits || v.bits > vhi.bits {
            return Err(SplineError::OutOfRange);
        }
        let ghost s = self.spec_spline();
        let dim: usize = self.spline.control_points()[0].dim();
        let hom: Vector = cox_de_boor_uv_weighted(
            uv,
            self.spline.degree(),
            self.spline.u_knots(),
            self.spline.v_knots(),
            self.spline.control_grid(),
            Ghost(dim as int),
        );
        let w: Fixed = hom.coord(dim - 1);
        proof {
            assert(w.bits as int == rational_surface_weight(s, u.bits as int, v.bits as int));
        }
        if w.bits == 0 {
            return Err(SplineError::DegenerateWeight);
        }
        let mut out: Vec<Fixed> = Vec::new();
        let mut i: usize = 0;
        while i < dim - 1
            invariant
                uv == (u, v),
                i <= dim - 1,
                2 <= dim,
                self.wf(),
                s == self.spec_spline(),
                dim == s.spec_dim(),
                s.params_in_range(u.bits as int, v.bits as int),
                hom@ == rational_surface_hom(s, u.bits as int, v.bits as int),
                hom@.len() == dim,
                hom.in_bounds(crate::types::HOMOG_LIMIT as int),
                w.bits as int == rational_surface_weight(s, u.bits as int, v.bits as int),
                w.bits != 0,
                out@.len() == i,
                forall|t: int|
                    0 <= t < i ==> (#[trigger] out@[t]).bits as int == rational_surface_at(
                        s,
                        u.bits as int,
                        v.bits as int,
                    )[t],
                forall|t: int|
                    0 <= t < i ==> abs_val((#[trigger] out@[t]).bits as int) <= COORD_LIMIT,
            decreases dim - 1 - i,
        {
            let c: Fixed = hom.coord(i);
            match div_fix_capped(c.bits, w.bits) {
                Some(q) => {
                    out.push(Fixed { bits: q });
                },
                None => {
                    proof {
                        assert(abs_val(
                            fix_div(
                                rational_surface_hom(s, u.bits as int, v.bits as int)[i as int],
                                rational_surface_weight(s, u.bits as int, v.bits as int),
                            ),
                        ) > COORD_LIMIT);
                        assert(!rational_surface_projectable(s, u.bits as int, v.bits as int));
                    }
                    return Err(SplineError::DegenerateWeight);
                },
            }
            i = i + 1;
        }
        let ghost oseq = out@;
        let p: Vector = Vector::new(out);
        proof {
            assert forall|t: int| 0 <= t < p@.len() implies p@[t] == rational_surface_at(
                s,
                u.bits as int,
                v.bits as int,
            )[t] by {
                assert(p@[t] == (#[trigger] oseq[t]).bits as int);
            }
            assert(p@ =~= rational_surface_at(s, u.bits as int, v.bits as int));
            assert forall|t: int|
                0 <= t < s.spec_dim() - 1 implies abs_val(
                fix_div(
                    #[trigger] rational_surface_hom(s, u.bits as int, v.bits as int)[t],
                    rational_surface_weight(s, u.bits as int, v.bits as int),
                ),
            ) <= COORD_LIMIT by {
                assert(abs_val(oseq[t].bits as int) <= COORD_LIMIT);
                assert(oseq[t].bits as int == rational_surface_at(
                    s,
                    u.bits as int,
                    v.bits as int,
                )[t]);
            }
            assert(rational_surface_projectable(s, u.bits as int, v.bits as int));
        }
        Ok(p)
    }

    /// All the u steps along the rational surface.
    pub fn quantize_u_range(&self, step: Fixed) -> (r: crate::step_iter::StepIter)
        requires
            self.wf(),
            1 <= step.bits <= 2 * COORD_LIMIT,
            crate::step_iter::step_count(
                self.spec_spline().spec_u_min_bits(),
                self.spec_spline().spec_u_max_bits(),
                step.bits as int,
            ) <= usize::MAX,
        ensures
            r.wf(),
            r.spec_seq() == crate::step_iter::quantize_seq(
                self.spec_spline().spec_u_min_bits(),
                self.spec_spline().spec_u_max_bits(),
                step.bits as int,
            ),
    {
        self.spline.quantize_u_range(step)
    }

    /// All the v steps along the rational surface.
    pub fn quantize_v_range(&self, step: Fixed) -> (r: crate::step_iter::StepIter)
        requires
            self.wf(),
            1 <= step.bits <= 2 * COORD_LIMIT,
            crate::step_iter::step_count(
                self.spec_spline().spec_v_min_bits(),
                self.spec_spline().spec_v_max_bits(),
                step.bits as int,
            ) <= usize::MAX,
        ensures
            r.wf(),
            r.spec_seq() == crate::step_iter::quantize_seq(
                self.spec_spline().spec_v_min_bits(),
                self.spec_spline().spec_v_max_bits(),
                step.bits as int,
            ),
    {
        self.spline.quantize_v_range(step)
    }

    /// All the uv steps along the rational surface, `u` varying fastest.
    pub fn quantize_range(&self, step: Fixed) -> (r: crate::surfaces::UVRange)
        requires
            self.wf(),
            1 <= step.bits <= 2 * COORD_LIMIT,
            self.spec_spline().spec_u_steps(step.bits as int) * self.spec_spline().spec_v_steps(
                step.bits as int,
            ) <= usize::MAX,
            self.spec_spline().spec_u_steps(step.bits as int) <= usize::MAX,
            self.spec_spline().spec_v_steps(step.bits as int) <= usize::MAX,
        ensures
            r.wf(),
            r.spec_len() == self.spec_spline().spec_u_steps(step.bits as int)
                * self.spec_spline().spec_v_steps(step.bits as int),
            forall|n: int|
                0 <= n < r.spec_len() ==> #[trigger] r.spec_pair(n) == (
                    crate::step_iter::quantize_seq(
                        self.spec_spline().spec_u_min_bits(),
                        self.spec_spline().spec_u_max_bits(),
                        step.bits as int,
                    )[n % self.spec_spline().spec_u_steps(step.bits as int)],
                    crate::step_iter::quantize_seq(
                        self.spec_spline().spec_v_min_bits(),
                        self.spec_spline().spec_v_max_bits(),
                        step.bits as int,
                    )[n / self.spec_spline().spec_u_steps(step.bits as int)],
                ),
    {
        self.spline.quantize_range(step)
    }

    /// All the points along the rational surface, one for each uv step
    /// with `u` varying fastest; an error as soon as one step has no
    /// defined projection.
    pub fn quantize(&self, step: Fixed) -> (r: Result<Vec<Vector>, SplineError>)
        requires
            self.wf(),
            1 <= step.bits <= 2 * COORD_LIMIT,
            self.spec_spline().spec_u_steps(step.bits as int) * self.spec_spline().spec_v_steps(
                step.bits as int,
            ) <= usize::MAX,
            self.spec_spline().spec_u_steps(step.bits as int) <= usize::MAX,
            self.spec_spline().spec_v_steps(step.bits as int) <= usize::MAX,
        ensures
            ({
                let s = self.spec_spline();
                let nu = s.spec_u_steps(step.bits as int);
                let nv = s.spec_v_steps(step.bits as int);
                let useq = crate::step_iter::quantize_seq(
                    s.spec_u_min_bits(),
                    s.spec_u_max_bits(),
                    step.bits as int,
                );
                let vseq = crate::step_iter::quantize_seq(
                    s.spec_v_min_bits(),
                    s.spec_v_max_bits(),
                    step.bits as int,
                );
                match r {
                    Ok(ps) => {
                        &&& ps@.len() == nu * nv
                        &&& forall|a: int, b: int|
                            0 <= a < nv && 0 <= b < nu ==> (#[trigger] ps@[a * nu + b])@
                                == rational_surface_at(s, useq[b], vseq[a])
                    },
                    Err(e) => e == SplineError::DegenerateWeight && exists|a: int, b: int|
                        0 <= a < nv && 0 <= b < nu && !rational_surface_projectable(
                            s,
                            #[trigger] useq[b],
                            #[trigger] vseq[a],
                        ),
                }
            }),
    {
        let ghost s = self.spec_spline();
        let ghost useq = crate::step_iter::quantize_seq(
            s.spec_u_min_bits(),
            s.spec_u_max_bits(),
            step.bits as int,
        );
        let ghost vseq = crate::step_iter::quantize_seq(
            s.spec_v_min_bits(),
            s.spec_v_max_bits(),
            step.bits as int,
        );
        proof {
            crate::step_iter::lemma_quantize_seq_endpoints(
                s.spec_u_min_bits(),
                s.spec_u_max_bits(),
                step.bits as int,
            );
            crate::step_iter::lemma_quantize_seq_endpoints(
                s.spec_v_min_bits(),
                s.spec_v_max_bits(),
                step.bits as int,
            );
        }
        let u_template: crate::step_iter::StepIter = self.spline.quantize_u_range(step);
        let mut v_iter: crate::step_iter::StepIter = self.spline.quantize_v_range(step);
        let nu: usize = u_template.len();
        let nv: usize = v_iter.len();
        let mut out: Vec<Vector> = Vec::new();
        let mut a: usize = 0;
        proof {
            assert(vseq.skip(0) =~= vseq);
        }
        while a < nv
            invariant
                self.wf(),
                s == self.spec_spline(),
                1 <= step.bits <= 2 * COORD_LIMIT,
                a <= nv,
                nu == useq.len(),
                nv == vseq.len(),
                nu == s.spec_u_steps(step.bits as int),
                nv == s.spec_v_steps(step.bits as int),
                nu * nv <= usize::MAX,
                useq == crate::step_iter::quantize_seq(
                    s.spec_u_min_bits(),
                    s.spec_u_max_bits(),
                    step.bits as int,
                ),
                vseq == crate::step_iter::quantize_seq(
                    s.spec_v_min_bits(),
                    s.spec_v_max_bits(),
                    step.bits as int,
                ),
                forall|t: int| 0 <= t < useq.len() ==> s.spec_u_min_bits() <= #[trigger] useq[t]
                    <= s.spec_u_max_bits(),
                forall|t: int| 0 <= t < vseq.len() ==> s.spec_v_min_bits() <= #[trigger] vseq[t]
                    <= s.spec_v_max_bits(),
                u_template.wf(),
                u_template.spec_seq() == useq,
                v_iter.wf(),
                v_iter.spec_seq() == vseq.skip(a as int),
                out@.len() == a * nu,
                forall|x: int, y: int|
                    0 <= x < a && 0 <= y < nu ==> (#[trigger] out@[x * nu + y])@
                        == rational_surface_at(s, useq[y], vseq[x]),
            decreases nv - a,
        {
            proof {
                assert(vseq.skip(a as int).len() == nv - a);
                vstd::arithmetic::mul::lemma_mul_nonnegative(a as int, nu as int);
                vstd::arithmetic::mul::lemma_mul_inequality(a as int + 1, nv as int, nu as int);
                assert((a + 1) * nu == a * nu + nu) by (nonlinear_arith);
                assert(nv as int * nu as int == nu as int * nv as int) by (nonlinear_arith);
            }
            let vv: Fixed = match v_iter.next() {
                Some(value) => value,
                None => {
                    proof {
                        assert(false);
                    }
                    Fixed { bits: 0 }
                },
            };
            proof {
                assert(vseq.skip(a as int)[0] == vseq[a as int]);
                assert(vseq.skip(a as int).drop_first() =~= vseq.skip(a as int + 1));
                assert(vv.bits as int == vseq[a as int]);
            }
            let mut u_iter: crate::step_iter::StepIter = u_template;
            let mut b: usize = 0;
            proof {
                assert(useq.skip(0) =~= useq);
            }
            while b < nu
                invariant
                    self.wf(),
                    s == self.spec_spline(),
                    b <= nu,
                    a < nv,
                    nu == useq.len(),
                    nv == vseq.len(),
                    nu == s.spec_u_steps(step.bits as int),
                    nv == s.spec_v_steps(step.bits as int),
                    nu * nv <= usize::MAX,
                    a * nu + nu <= nu * nv,
                    useq == crate::step_iter::quantize_seq(
                        s.spec_u_min_bits(),
                        s.spec_u_max_bits(),
                        step.bits as int,
                    ),
                    vseq == crate::step_iter::quantize_seq(
                        s.spec_v_min_bits(),
                        s.spec_v_max_bits(),
                        step.bits as int,
                    ),
                    forall|t: int|
                        0 <= t < useq.len() ==> s.spec_u_min_bits() <= #[trigger] useq[t]
                            <= s.spec_u_max_bits(),
                    s.spec_v_min_bits() <= vv.bits as int <= s.spec_v_max_bits(),
                    vv.bits as int == vseq[a as int],
                    u_iter.wf(),
                    u_iter.spec_seq() == useq.skip(b as int),
                    out@.len() == a * nu + b,
                    forall|x: int, y: int|
                        0 <= x < a && 0 <= y < nu ==> (#[trigger] out@[x * nu + y])@
                            == rational_surface_at(s, useq[y], vseq[x]),
                    forall|y: int|
                        0 <= y < b ==> (#[trigger] out@[a as int * nu + y])@
                            == rational_surface_at(s, useq[y], vseq[a as int]),
                decreases nu - b,
            {
                proof {
                    assert(useq.skip(b as int).len() == nu - b);
                }
                let uu: Fixed = match u_iter.next() {
                    Some(value) => value,
                    None => {
                        proof {
                            assert(false);
                        }
                        Fixed { bits: 0 }
                    },
                };
                proof {
                    assert(useq.skip(b as int)[0] == useq[b as int]);
                    assert(useq.skip(b as int).drop_first() =~= useq.skip(b as int + 1));
                    assert(uu.bits as int == useq[b as int]);
                    assert(s.params_in_range(uu.bits as int, vv.bits as int));
                }
                match self.at((uu, vv)) {
                    Ok(p) => {
                        out.push(p);
                    },
                    Err(e2) => {
                        proof {
                            assert(e2 == SplineError::DegenerateWeight);
                            assert(!rational_surface_projectable(
                                s,
                                useq[b as int],
                                vseq[a as int],
                            ));
                            assert(exists|x: int, y: int|
                                0 <= x < vseq.len() && 0 <= y < useq.len()
                                    && !rational_surface_projectable(
                                    s,
                                    #[trigger] useq[y],
                                    #[trigger] vseq[x],
                                )) by {
                                assert(0 <= a < vseq.len() && 0 <= b < useq.len()
                                    && !rational_surface_projectable(
                                    s,
                                    useq[b as int],
                                    vseq[a as int],
                                ));
                            }
                        }
                        return Err(SplineError::DegenerateWeight);
                    },
                }
                proof {
                    assert forall|x: int, y: int|
                        0 <= x < a && 0 <= y < nu implies (#[trigger] out@[x * nu + y])@
                            == rational_surface_at(s, useq[y], vseq[x]) by {
                        crate::grid::lemma_row_major_index(nu as int, a as int, y, x);
                    }
                }
                b = b + 1;
            }
            a = a + 1;
            proof {
                assert(a * nu == (a - 1) * nu + nu) by (nonlinear_arith);
                assert forall|x: int, y: int|
                    0 <= x < a && 0 <= y < nu implies (#[trigger] out@[x * nu + y])@
                        == rational_surface_at(s, useq[y], vseq[x]) by {
                    crate::grid::lemma_row_major_index(nu as int, a as int, y, x);
                }
            }
        }
        proof {
            assert(out@.len() == nv as int * nu as int);
            assert(nv as int * nu as int == nu as int * nv as int) by (nonlinear_arith);
        }
        Ok(out)
    }
}


/// With every control weight exactly one, the rational surface agrees
/// with the plain basis surface over the same control grid with the
/// weight coordinate dropped: the blended weight stays one, the
/// projection is defined everywhere in range, and the projected point
/// is the lower-dimensional surface point.
pub proof fn lemma_unit_weight_rational_surface(s: BSurface, u: int, v: int)
    requires
        s.wf(),
        s.spec_dim() >= 2,
        forall|i: int|
            0 <= i < s.spec_grid().spec_values().len() ==> (#[trigger] s.spec_grid().spec_values()[
            i])@[s.spec_dim() - 1] == crate::types::SCALE,
        s.params_in_range(u, v),
    ensures
        rational_surface_weight(s, u, v) == crate::types::SCALE,
        rational_surface_projectable(s, u, v),
        rational_surface_at(s, u, v) == crate::algorithms::spec_surface_point(
            crate::algorithms::logical_grid(s.spec_grid()).map_values(
                |row: Seq<Seq<int>>| row.map_values(|p: Seq<int>| p.take(s.spec_dim() - 1)),
            ),
            s.spec_u_knots()@,
            s.spec_v_knots()@,
            s.spec_degree(),
            u,
            v,
        ),
{
    let g = s.spec_grid();
    let d = s.spec_degree();
    let dim = s.spec_dim();
    let sc = crate::types::SCALE as int;
    let lim = COORD_LIMIT as int;
    let m = dim - 1;
    let uks = s.spec_u_knots()@;
    let vks = s.spec_v_knots()@;
    let ukb = crate::algorithms::knot_bits(uks);
    let vkb = crate::algorithms::knot_bits(vks);
    let gl = crate::algorithms::logical_grid(g);
    crate::algorithms::lemma_knot_bits(uks);
    crate::algorithms::lemma_knot_bits(vks);
    // every logical grid cell keeps the stored dimension, the unit
    // weight and the coordinate bounds
    assert forall|vi: int, ui: int|
        0 <= vi < g.spec_v_len() && 0 <= ui < g.spec_u_len() implies {
        &&& (#[trigger] gl[vi][ui]).len() == dim
        &&& gl[vi][ui][dim - 1] == sc
        &&& forall|c: int| 0 <= c < dim ==> -lim <= #[trigger] gl[vi][ui][c] <= lim
    } by {
        let uu = if g.spec_u_wrapping() {
            ui % g.spec_u_phys()
        } else {
            ui
        };
        let vv = if g.spec_v_wrapping() {
            vi % g.spec_v_phys()
        } else {
            vi
        };
        if g.spec_u_wrapping() {
            vstd::arithmetic::div_mod::lemma_mod_bound(ui, g.spec_u_phys());
        }
        if g.spec_v_wrapping() {
            vstd::arithmetic::div_mod::lemma_mod_bound(vi, g.spec_v_phys());
        }
        crate::grid::lemma_row_major_index(g.spec_u_phys(), g.spec_v_phys(), uu, vv);
        vstd::arithmetic::div_mod::lemma_fundamental_div_mod(
            g.spec_values().len() as int,
            g.spec_u_phys(),
        );
        assert(g.spec_v_phys() * g.spec_u_phys() == g.spec_u_phys() * g.spec_v_phys())
            by (nonlinear_arith);
        assert(gl[vi][ui] == g.spec_at(ui, vi)@);
        assert(g.spec_at(ui, vi) == g.spec_values()[vv * g.spec_u_phys() + uu]);
    }
    // weighting unit-weight points changes nothing
    assert(weighted_logical_grid(g) =~= gl) by {
        assert forall|vi: int|
            0 <= vi < g.spec_v_len() implies #[trigger] weighted_logical_grid(g)[vi] == gl[vi] by {
            assert(weighted_logical_grid(g)[vi] =~= gl[vi]) by {
                assert forall|ui: int|
                    0 <= ui < g.spec_u_len() implies #[trigger] weighted_logical_grid(g)[vi][ui]
                        == gl[vi][ui] by {
                    let p = gl[vi][ui];
                    assert(crate::vector::spec_weighted(p) =~= p) by {
                        assert forall|c: int|
                            0 <= c < p.len() implies #[trigger] crate::vector::spec_weighted(p)[c]
                                == p[c] by {
                            if c < p.len() - 1 {
                                crate::types::lemma_fix_mul_units(p[c]);
                            }
                        }
                    }
                }
            }
        }
    }
    assert(rational_surface_hom(s, u, v) == s.at_spec(u, v));
    // both spans and every blending factor along each axis
    crate::algorithms::lemma_floor_span(uks, d, u);
    crate::algorithms::lemma_floor_span(vks, d, v);
    let uk = crate::algorithms::spec_find_span(uks, d, u / sc);
    let vk = crate::algorithms::spec_find_span(vks, d, v / sc);
    assert forall|rr: int, jj: int|
        1 <= rr <= jj <= d implies 0 <= #[trigger] crate::algorithms::spec_alpha(
        ukb,
        uk,
        d,
        rr,
        jj,
        u,
    ) <= crate::types::SCALE by {
        crate::algorithms::lemma_alpha_bounds(ukb, uk, d, rr, jj, u);
    }
    assert forall|rr: int, jj: int|
        1 <= rr <= jj <= d implies 0 <= #[trigger] crate::algorithms::spec_alpha(
        vkb,
        vk,
        d,
        rr,
        jj,
        v,
    ) <= crate::types::SCALE by {
        crate::algorithms::lemma_alpha_bounds(vkb, vk, d, rr, jj, v);
    }
    // the row results of the first pass keep dimension, unit weight
    // and bounds, and their weight-dropped form is the prefix
    let rows = Seq::new(
        (d + 1) as nat,
        |j: int|
            crate::algorithms::spec_de_boor(
                Seq::new((d + 1) as nat, |i: int| gl[vk - d + j][uk - d + i]),
                ukb,
                uk,
                d,
                u,
                d,
                d,
            ),
    );
    let mg = gl.map_values(|row: Seq<Seq<int>>| row.map_values(|p: Seq<int>| p.take(m)));
    assert forall|j: int|
        0 <= j < d + 1 implies {
        &&& (#[trigger] rows[j]).len() == dim
        &&& rows[j][dim - 1] == sc
        &&& forall|c: int| 0 <= c < dim ==> -lim <= #[trigger] rows[j][c] <= lim
        &&& crate::algorithms::spec_de_boor(
            Seq::new((d + 1) as nat, |i: int| mg[vk - d + j][uk - d + i]),
            ukb,
            uk,
            d,
            u,
            d,
            d,
        ) == rows[j].take(m)
    } by {
        let base_j = Seq::new((d + 1) as nat, |i: int| gl[vk - d + j][uk - d + i]);
        assert forall|i: int| 0 <= i < base_j.len() implies {
            &&& (#[trigger] base_j[i]).len() == dim
            &&& base_j[i][dim - 1] == sc
            &&& forall|c: int| 0 <= c < dim ==> -lim <= #[trigger] base_j[i][c] <= lim
        } by {
            assert(base_j[i] == gl[vk - d + j][uk - d + i]);
            assert(0 <= vk - d + j < g.spec_v_len());
            assert(0 <= uk - d + i < g.spec_u_len());
        }
        crate::algorithms::lemma_de_boor_len(base_j, ukb, uk, d, u, d, d, dim);
        crate::algorithms::lemma_de_boor_unit_coord(base_j, ukb, uk, d, u, d, d, dim - 1);
        assert forall|i: int, c: int|
            0 <= i < base_j.len() && 0 <= c < dim implies -lim <= #[trigger] base_j[i][c]
                <= lim by {
            assert(base_j[i].len() == dim);
        }
        crate::algorithms::lemma_de_boor_bounds(base_j, ukb, uk, d, u, d, d, dim, lim);
        assert(rows[j] == crate::algorithms::spec_de_boor(base_j, ukb, uk, d, u, d, d));
        // the weight-dropped window is the window of dropped points
        crate::algorithms::lemma_de_boor_prefix(base_j, ukb, uk, d, u, d, d, m);
        let win = Seq::new((d + 1) as nat, |i: int| mg[vk - d + j][uk - d + i]);
        assert(win =~= base_j.map_values(|p: Seq<int>| p.take(m))) by {
            assert forall|i: int|
                0 <= i < d + 1 implies #[trigger] win[i] == base_j.map_values(
                |p: Seq<int>| p.take(m),
            )[i] by {
                assert(mg[vk - d + j] == gl[vk - d + j].map_values(|p: Seq<int>| p.take(m)));
                assert(mg[vk - d + j][uk - d + i] == gl[vk - d + j][uk - d + i].take(m));
            }
        }
    }
    // the second pass keeps the unit weight and the bounds
    crate::algorithms::lemma_de_boor_len(rows, vkb, vk, d, v, d, d, dim);
    crate::algorithms::lemma_de_boor_unit_coord(rows, vkb, vk, d, v, d, d, dim - 1);
    assert forall|j: int, c: int|
        0 <= j < rows.len() && 0 <= c < dim implies -lim <= #[trigger] rows[j][c] <= lim by {
        assert(rows[j].len() == dim);
    }
    crate::algorithms::lemma_de_boor_bounds(rows, vkb, vk, d, v, d, d, dim, lim);
    let hom = rational_surface_hom(s, u, v);
    assert(hom == crate::algorithms::spec_de_boor(rows, vkb, vk, d, v, d, d));
    assert(rational_surface_weight(s, u, v) == sc);
    assert forall|i: int|
        0 <= i < dim - 1 implies abs_val(
        fix_div(#[trigger] hom[i], rational_surface_weight(s, u, v)),
    ) <= COORD_LIMIT by {
        crate::types::lemma_fix_mul_units(hom[i]);
    }
    assert(rational_surface_projectable(s, u, v));
    // dropping the weight coordinate commutes with the second pass too
    crate::algorithms::lemma_de_boor_prefix(rows, vkb, vk, d, v, d, d, m);
    let rows2 = Seq::new(
        (d + 1) as nat,
        |j: int|
            crate::algorithms::spec_de_boor(
                Seq::new((d + 1) as nat, |i: int| mg[vk - d + j][uk - d + i]),
                ukb,
                uk,
                d,
                u,
                d,
                d,
            ),
    );
    assert(rows2 =~= rows.map_values(|p: Seq<int>| p.take(m))) by {
        assert forall|j: int|
            0 <= j < d + 1 implies #[trigger] rows2[j] == rows.map_values(
            |p: Seq<int>| p.take(m),
        )[j] by {
            assert(rows2[j] == rows[j].take(m));
        }
    }
    assert(rational_surface_at(s, u, v) =~= hom.take(m)) by {
        assert forall|i: int| 0 <= i < m implies rational_surface_at(s, u, v)[i] == hom.take(
            m,
        )[i] by {
            crate::types::lemma_fix_mul_units(hom[i]);
        }
    }
}

} // verus!
