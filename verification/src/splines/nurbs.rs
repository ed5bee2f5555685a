//! NURBS curves: a weighted basis spline projected to one dimension lower.

use vstd::prelude::*;

verus! {

use crate::SplineError;
use crate::algorithms::cox_de_boor_u_weighted;
use crate::algorithms::weighted_logical;
use crate::splines::BSpline;
use crate::step_iter::StepIter;
use crate::step_iter::lemma_quantize_seq_endpoints;
use crate::step_iter::quantize_seq;
use crate::step_iter::step_count;
use crate::types::COORD_LIMIT;
use crate::types::Fixed;
use crate::types::abs_val;
use crate::types::div_fix_capped;
use crate::types::fix_div;
use crate::vector::Vector;

/// The homogeneous point a rational curve blends at parameter bits `u`:
/// the ordinary curve point over the weighted control points.
pub open spec fn rational_hom(s: BSpline, u: int) -> Seq<int> {
    crate::algorithms::spec_curve_point(
        weighted_logical(s.spec_cv()),
        s.spec_knots()@,
        s.spec_degree(),
        u,
    )
}

/// The blended weight: the last coordinate of the homogeneous point.
pub open spec fn rational_weight(s: BSpline, u: int) -> int {
    rational_hom(s, u)[s.spec_dim() - 1]
}

/// The projection is defined: the blended weight is nonzero and every
/// projected coordinate stays within the coordinate range.
pub open spec fn rational_projectable(s: BSpline, u: int) -> bool {
    &&& rational_weight(s, u) != 0
    &&& forall|i: int|
        0 <= i < s.spec_dim() - 1 ==> abs_val(
            fix_div(#[trigger] rational_hom(s, u)[i], rational_weight(s, u)),
        ) <= COORD_LIMIT
}

/// The projected rational point: each homogeneous coordinate divided by
/// the blended weight.
pub open spec fn rational_at(s: BSpline, u: int) -> Seq<int> {
    Seq::new(
        (s.spec_dim() - 1) as nat,
        |i: int| fix_div(rational_hom(s, u)[i], rational_weight(s, u)),
    )
}

/// NURBS curve: a view of a basis spline whose last coordinate holds
/// the rational weight of each control point.
#[derive(Debug)]
pub struct NURBSpline<'a> {
    spline: &'a BSpline,
}

impl<'a> NURBSpline<'a> {
    /// The wrapped basis spline.
    pub closed spec fn spec_spline(&self) -> BSpline {
        *self.spline
    }

    /// The wrapped spline is fit for evaluation and carries a weight
    /// coordinate beside at least one spatial coordinate.
    pub open spec fn wf(&self) -> bool {
        &&& self.spec_spline().wf()
        &&& self.spec_spline().spec_dim() >= 2
    }

    /// Wrap a basis spline as a rational curve.
    pub fn new(spline: &'a BSpline) -> (r: NURBSpline<'a>)
        requires
            spline.wf(),
            spline.spec_dim() >= 2,
        ensures
            r.spec_spline() == *spline,
            r.wf(),
    {
        NURBSpline { spline }
    }

    /// Usable range of parameter values, inclusive.
    pub fn range(&self) -> (r: (Fixed, Fixed))
        requires
            self.wf(),
        ensures
            r.0.bits == self.spec_spline().spec_min_bits(),
            r.1.bits == self.spec_spline().spec_max_bits(),
            0 <= r.0.bits <= r.1.bits <= COORD_LIMIT,
    {
        self.spline.range()
    }

    /// Point of the rational curve at position `u`, one dimension lower
    /// than its control points.
    pub fn at(&self, u: Fixed) -> (r: Result<Vector, SplineError>)
        requires
            self.wf(),
        ensures
            match r {
                Ok(p) => {
                    &&& self.spec_spline().param_in_range(u.bits as int)
                    &&& rational_projectable(self.spec_spline(), u.bits as int)
                    &&& p@ == rational_at(self.spec_spline(), u.bits as int)
                    &&& p@.len() == self.spec_spline().spec_dim() - 1
                    &&& p.in_bounds(COORD_LIMIT as int)
                },
                Err(e) => {
                    &&& (e == SplineError::OutOfRange || e == SplineError::DegenerateWeight)
                    &&& (e == SplineError::OutOfRange <==> !self.spec_spline().param_in_range(
                        u.bits as int,
                    ))
                    &&& (e == SplineError::DegenerateWeight <==> self.spec_spline().param_in_range(
                        u.bits as int,
                    ) && !rational_projectable(self.spec_spline(), u.bits as int))
                },
            },
    {
        let (lo, hi) = self.spline.range();
        if u.bits < lo.bits || u.bits > hi.bits {
            return Err(SplineError::OutOfRange);
        }
        let ghost s = self.spec_spline();
        let dim: usize = self.spline.control_points()[0].dim();
        let hom: Vector = cox_de_boor_u_weighted(
            u,
            self.spline.degree(),
            self.spline.knots(),
            self.spline.control_vec(),
            Ghost(dim as int),
        );
        let w: Fixed = hom.coord(dim - 1);
        proof {
            assert(w.bits as int == rational_weight(s, u.bits as int));
        }
        if w.bits == 0 {
            return Err(SplineError::DegenerateWeight);
        }
        let mut out: Vec<Fixed> = Vec::new();
        let mut i: usize = 0;
        while i < dim - 1
            invariant
                i <= dim - 1,
                2 <= dim,
                self.wf(),
                s == self.spec_spline(),
                dim == s.spec_dim(),
                s.param_in_range(u.bits as int),
                hom@ == rational_hom(s, u.bits as int),
                hom@.len() == dim,
                hom.in_bounds(crate::types::HOMOG_LIMIT as int),
                w.bits as int == rational_weight(s, u.bits as int),
                w.bits != 0,
                out@.len() == i,
                forall|t: int|
                    0 <= t < i ==> (#[trigger] out@[t]).bits as int == rational_at(
                        s,
                        u.bits as int,
                    )[t],
                forall|t: int|
                    0 <= t < i ==> abs_val((#[trigger] out@[t]).bits as int) <= COORD_LIMIT,
            decreases dim - 1 - i,
        {
            let c: Fixed = hom.coord(i);
            match div_fix_capped(c.bits, w.bits) {
                Some(q) => {
                    out.push(Fixed { bits: q });
                },
                None => {
                    proof {
                        assert(abs_val(
                            fix_div(rational_hom(s, u.bits as int)[i as int],
                            rational_weight(s, u.bits as int)),
                        ) > COORD_LIMIT);
                        assert(!rational_projectable(s, u.bits as int));
                    }
                    return Err(SplineError::DegenerateWeight);
                },
            }
            i = i + 1;
        }
        let ghost oseq = out@;
        let p: Vector = Vector::new(out);
        proof {
            assert forall|t: int| 0 <= t < p@.len() implies p@[t] == rational_at(
                s,
                u.bits as int,
            )[t] by {
                assert(p@[t] == (#[trigger] oseq[t]).bits as int);
            }
            assert(p@ =~= rational_at(s, u.bits as int));
            assert forall|t: int|
                0 <= t < s.spec_dim() - 1 implies abs_val(
                fix_div(#[trigger] rational_hom(s, u.bits as int)[t], rational_weight(s, u.bits as int)),
            ) <= COORD_LIMIT by {
                assert(abs_val(oseq[t].bits as int) <= COORD_LIMIT);
                assert(oseq[t].bits as int == rational_at(s, u.bits as int)[t]);
            }
            assert(rational_projectable(s, u.bits as int));
        }
        Ok(p)
    }

    /// All the steps along the rational curve.
    pub fn quantize_range(&self, step: Fixed) -> (r: StepIter)
        requires
            self.wf(),
            1 <= step.bits <= 2 * COORD_LIMIT,
            step_count(
                self.spec_spline().spec_min_bits(),
                self.spec_spline().spec_max_bits(),
                step.bits as int,
            ) <= usize::MAX,
        ensures
            r.wf(),
            r.spec_seq() == quantize_seq(
                self.spec_spline().spec_min_bits(),
                self.spec_spline().spec_max_bits(),
                step.bits as int,
            ),
    {
        StepIter::new(step, self.range())
    }

    /// All the points along the rational curve, one for each step; an
    /// error as soon as one step has no defined projection.
    pub fn quantize(&self, step: Fixed) -> (r: Result<Vec<Vector>, SplineError>)
        requires
            self.wf(),
            1 <= step.bits <= 2 * COORD_LIMIT,
            step_count(
                self.spec_spline().spec_min_bits(),
                self.spec_spline().spec_max_bits(),
                step.bits as int,
            ) <= usize::MAX,
        ensures
            ({
                let full = quantize_seq(
                    self.spec_spline().spec_min_bits(),
                    self.spec_spline().spec_max_bits(),
                    step.bits as int,
                );
                match r {
                    Ok(ps) => {
                        &&& ps@.len() == full.len()
                        &&& forall|t: int|
                            0 <= t < full.len() ==> (#[trigger] ps@[t])@ == rational_at(
                                self.spec_spline(),
                                full[t],
                            )
                    },
                    Err(e) => e == SplineError::DegenerateWeight && exists|t: int|
                        0 <= t < full.len() && !rational_projectable(
                            self.spec_spline(),
                            #[trigger] full[t],
                        ),
                }
            }),
    {
        let ghost s = self.spec_spline();
        let ghost full = quantize_seq(s.spec_min_bits(), s.spec_max_bits(), step.bits as int);
        proof {
            lemma_quantize_seq_endpoints(s.spec_min_bits(), s.spec_max_bits(), step.bits as int);
        }
        let mut it: StepIter = self.quantize_range(step);
        proof {
            assert(full.skip(0) =~= full);
        }
        let n: usize = it.len();
        let mut out: Vec<Vector> = Vec::new();
        let mut i: usize = 0;
        while i < n
            invariant
                self.wf(),
                s == self.spec_spline(),
                i <= n,
                n == full.len(),
                full == quantize_seq(s.spec_min_bits(), s.spec_max_bits(), step.bits as int),
                forall|t: int| 0 <= t < full.len() ==> s.spec_min_bits() <= #[trigger] full[t]
                    <= s.spec_max_bits(),
                it.wf(),
                it.spec_seq() == full.skip(i as int),
                out@.len() == i,
                forall|t: int| 0 <= t < i ==> (#[trigger] out@[t])@ == rational_at(s, full[t]),
            decreases n - i,
        {
            proof {
                assert(full.skip(i as int).len() == n - i);
                assert(it.spec_remaining() >= 1);
            }
            let v: Option<Fixed> = it.next();
            match v {
                Some(value) => {
                    proof {
                        assert(full.skip(i as int)[0] == full[i as int]);
                        assert(full.skip(i as int).drop_first() =~= full.skip(i as int + 1));
                        assert(value.bits as int == full[i as int]);
                        assert(s.param_in_range(value.bits as int));
                    }
                    match self.at(value) {
                        Ok(p) => {
                            out.push(p);
                        },
                        Err(e2) => {
                            proof {
                                assert(e2 == SplineError::DegenerateWeight);
                                assert(0 <= i < full.len() && !rational_projectable(
                                    s,
                                    full[i as int],
                                ));
                            }
                            return Err(SplineError::DegenerateWeight);
                        },
                    }
                },
                None => {
                    proof {
                        assert(false);
                    }
                },
            }
            i = i + 1;
        }
        Ok(out)
    }
}

/// With every control weight exactly one, the rational curve agrees
/// with the plain basis spline over the same control points with the
/// weight coordinate dropped: the blended weight stays one, the
/// projection is defined everywhere in range, and the projected point
/// is the lower-dimensional curve point.
pub proof fn lemma_unit_weight_rational(s: BSpline, u: int)
    requires
        s.wf(),
        s.spec_dim() >= 2,
        forall|i: int|
            0 <= i < s.spec_cv().spec_points().len() ==> (#[trigger] s.spec_cv().spec_points()[
            i])@[s.spec_dim() - 1] == crate::types::SCALE,
        s.param_in_range(u),
    ensures
        rational_weight(s, u) == crate::types::SCALE,
        rational_projectable(s, u),
        rational_at(s, u) == crate::algorithms::spec_curve_point(
            crate::algorithms::logical_points(s.spec_cv()).map_values(
                |p: Seq<int>| p.take(s.spec_dim() - 1),
            ),
            s.spec_knots()@,
            s.spec_degree(),
            u,
        ),
{
    let cv = s.spec_cv();
    let ks = s.spec_knots()@;
    let d = s.spec_degree();
    let dim = s.spec_dim();
    let sc = crate::types::SCALE as int;
    let kb = crate::algorithms::knot_bits(ks);
    let pts = crate::algorithms::logical_points(cv);
    let phys = cv.spec_points().len() as int;
    crate::algorithms::lemma_knot_bits(ks);
    crate::algorithms::lemma_logical_uniform(cv, dim);
    // logical points keep the unit weight and the coordinate bounds
    assert forall|i: int|
        0 <= i < cv.spec_len() implies (#[trigger] pts[i])[dim - 1] == sc && (forall|c: int|
        0 <= c < dim ==> -(COORD_LIMIT as int) <= #[trigger] pts[i][c] <= COORD_LIMIT) by {
        if cv.spec_wrapping() {
            vstd::arithmetic::div_mod::lemma_mod_bound(i, phys);
        }
        assert(pts[i] == cv.spec_at(i)@);
    }
    // weighting unit-weight points changes nothing
    assert(weighted_logical(cv) =~= pts) by {
        assert forall|i: int|
            0 <= i < cv.spec_len() implies #[trigger] weighted_logical(cv)[i] == pts[i] by {
            let p = pts[i];
            if cv.spec_wrapping() {
                vstd::arithmetic::div_mod::lemma_mod_bound(i, phys);
            }
            assert(crate::vector::spec_weighted(p) =~= p) by {
                assert forall|c: int|
                    0 <= c < p.len() implies #[trigger] crate::vector::spec_weighted(p)[c]
                        == p[c] by {
                    if c < p.len() - 1 {
                        crate::types::lemma_fix_mul_units(p[c]);
                    }
                }
            }
        }
    }
    assert(rational_hom(s, u) == s.at_spec(u));
    // the span and its blending factors
    crate::algorithms::lemma_floor_span(ks, d, u);
    let k = crate::algorithms::spec_find_span(ks, d, u / sc);
    assert forall|rr: int, jj: int|
        1 <= rr <= jj <= d implies 0 <= #[trigger] crate::algorithms::spec_alpha(
        kb,
        k,
        d,
        rr,
        jj,
        u,
    ) <= crate::types::SCALE by {
        crate::algorithms::lemma_alpha_bounds(kb, k, d, rr, jj, u);
    }
    let base = Seq::new((d + 1) as nat, |j: int| pts[k - d + j]);
    assert(forall|i: int| 0 <= i < base.len() ==> (#[trigger] base[i]).len() == dim);
    assert(forall|i: int| 0 <= i < base.len() ==> (#[trigger] base[i])[dim - 1] == sc);
    assert forall|i: int, c: int|
        0 <= i < base.len() && 0 <= c < dim implies -(COORD_LIMIT as int)
            <= #[trigger] base[i][c] <= COORD_LIMIT by {
        assert(base[i] == pts[k - d + i]);
    }
    // the blended weight stays one
    crate::algorithms::lemma_de_boor_unit_coord(base, kb, k, d, u, d, d, dim - 1);
    assert(s.at_spec(u) == crate::algorithms::spec_de_boor(base, kb, k, d, u, d, d));
    assert(rational_weight(s, u) == sc);
    // the blended coordinates stay in range, so projection by one is exact
    crate::algorithms::lemma_de_boor_bounds(base, kb, k, d, u, d, d, dim, COORD_LIMIT as int);
    crate::algorithms::lemma_de_boor_len(base, kb, k, d, u, d, d, dim);
    let hom = rational_hom(s, u);
    assert forall|i: int|
        0 <= i < dim - 1 implies abs_val(fix_div(#[trigger] hom[i], rational_weight(s, u)))
            <= COORD_LIMIT by {
        crate::types::lemma_fix_mul_units(hom[i]);
    }
    assert(rational_projectable(s, u));
    // dropping the weight coordinate commutes with blending
    crate::algorithms::lemma_de_boor_prefix(base, kb, k, d, u, d, d, dim - 1);
    let mapped = crate::algorithms::logical_points(cv).map_values(
        |p: Seq<int>| p.take(s.spec_dim() - 1),
    );
    let win = Seq::new((d + 1) as nat, |j: int| mapped[k - d + j]);
    assert(win =~= base.map_values(|p: Seq<int>| p.take(dim - 1))) by {
        assert forall|j: int|
            0 <= j < d + 1 implies #[trigger] win[j] == base.map_values(
            |p: Seq<int>| p.take(dim - 1),
        )[j] by {
            assert(mapped[k - d + j] == pts[k - d + j].take(dim - 1));
        }
    }
    assert(rational_at(s, u) =~= hom.take(dim - 1)) by {
        assert forall|i: int| 0 <= i < dim - 1 implies rational_at(s, u)[i] == hom.take(
            dim - 1,
        )[i] by {
            crate::types::lemma_fix_mul_units(hom[i]);
        }
    }
}

} // verus!
