//! Basis spline surfaces.

use vstd::prelude::*;

verus! {

use crate::SplineError;
use crate::algorithms::cox_de_boor_uv;
use crate::algorithms::grid_points_uniform;
use crate::algorithms::logical_grid;
use crate::algorithms::spec_surface_point;
use crate::algorithms::surface_ready;
use crate::control_points::ControlGrid;
use crate::knots::Knots;
use crate::step_iter::StepIter;
use crate::step_iter::lemma_quantize_seq_endpoints;
use crate::step_iter::quantize_seq;
use crate::step_iter::step_count;
use crate::surfaces::UVRange;
use crate::types::COORD_LIMIT;
use crate::types::Fixed;
use crate::types::KNOT_LIMIT;
use crate::types::SCALE;
use crate::vector::Vector;
use vstd::arithmetic::mul::lemma_mul_nonnegative;
use vstd::arithmetic::mul::lemma_mul_inequality;

/// A control grid that can carry a basis surface: positive degree, more
/// rows and columns than the degree, one dimension throughout,
/// coordinates in range, room for both generated knot vectors, and at
/// most one wrapping axis.
pub open spec fn surface_config_ok(g: ControlGrid<Vector>) -> bool {
    &&& 1 <= g.spec_degree()
    &&& g.complete()
    &&& 1 <= g.spec_v_phys()
    &&& g.spec_degree() < g.spec_u_len()
    &&& g.spec_degree() < g.spec_v_len()
    &&& g.spec_u_len() + g.spec_degree() + 1 <= KNOT_LIMIT
    &&& g.spec_v_len() + g.spec_degree() + 1 <= KNOT_LIMIT
    &&& !(g.spec_u_wrapping() && g.spec_v_wrapping())
    &&& grid_points_uniform(g, g.spec_values()[0]@.len() as int)
}

/// Basis spline surface: a control grid plus one knot vector per axis.
#[derive(Debug)]
pub struct BSurface {
    control_points: ControlGrid<Vector>,
    u_knots: Knots,
    v_knots: Knots,
}

impl BSurface {
    /// The control grid.
    pub closed spec fn spec_grid(&self) -> ControlGrid<Vector> {
        self.control_points
    }

    /// The knot vector along `u`.
    pub closed spec fn spec_u_knots(&self) -> Knots {
        self.u_knots
    }

    /// The knot vector along `v`.
    pub closed spec fn spec_v_knots(&self) -> Knots {
        self.v_knots
    }

    /// The surface's degree, shared by both axes.
    pub open spec fn spec_degree(&self) -> int {
        self.spec_grid().spec_degree()
    }

    /// The dimension of every control point.
    pub open spec fn spec_dim(&self) -> int {
        self.spec_grid().spec_values()[0]@.len() as int
    }

    /// Knots and control grid fit together for evaluation, and at most
    /// one axis wraps.
    pub open spec fn wf(&self) -> bool {
        &&& surface_ready(
            self.spec_u_knots(),
            self.spec_v_knots(),
            self.spec_grid(),
            self.spec_dim(),
        )
        &&& !(self.spec_grid().spec_u_wrapping() && self.spec_grid().spec_v_wrapping())
    }

    /// Start of the usable `u` range, in fixed-point bits.
    pub open spec fn spec_u_min_bits(&self) -> int {
        self.spec_u_knots()@[self.spec_degree()] * SCALE
    }

    /// End of the usable `u` range, in fixed-point bits.
    pub open spec fn spec_u_max_bits(&self) -> int {
        self.spec_u_knots()@[self.spec_u_knots()@.len() - self.spec_degree() - 1] * SCALE
    }

    /// Start of the usable `v` range, in fixed-point bits.
    pub open spec fn spec_v_min_bits(&self) -> int {
        self.spec_v_knots()@[self.spec_degree()] * SCALE
    }

    /// End of the usable `v` range, in fixed-point bits.
    pub open spec fn spec_v_max_bits(&self) -> int {
        self.spec_v_knots()@[self.spec_v_knots()@.len() - self.spec_degree() - 1] * SCALE
    }

    /// Both parameters lie inside their usable ranges.
    pub open spec fn params_in_range(&self, u: int, v: int) -> bool {
        &&& self.spec_u_min_bits() <= u <= self.spec_u_max_bits()
        &&& self.spec_v_min_bits() <= v <= self.spec_v_max_bits()
    }

    /// The point of the surface at parameter bits `(u, v)`.
    pub open spec fn at_spec(&self, u: int, v: int) -> Seq<int> {
        spec_surface_point(
            logical_grid(self.spec_grid()),
            self.spec_u_knots()@,
            self.spec_v_knots()@,
            self.spec_degree(),
            u,
            v,
        )
    }

    /// Create a new basis surface from a grid of control points, with a
    /// generated uniform knot vector per axis.
    pub fn new(control_points: ControlGrid<Vector>) -> (r: Result<BSurface, SplineError>)
        ensures
            match r {
                Ok(s) => {
                    &&& surface_config_ok(control_points)
                    &&& s.spec_grid() == control_points
                    &&& s.wf()
                    &&& forall|i: int|
                        0 <= i < s.spec_u_knots()@.len() ==> #[trigger] s.spec_u_knots()@[i] == i
                    &&& forall|i: int|
                        0 <= i < s.spec_v_knots()@.len() ==> #[trigger] s.spec_v_knots()@[i] == i
                    &&& s.spec_u_knots()@.len() == control_points.spec_u_len()
                        + control_points.spec_degree() + 1
                    &&& s.spec_v_knots()@.len() == control_points.spec_v_len()
                        + control_points.spec_degree() + 1
                },
                Err(e) => e == SplineError::InvalidConfiguration && !surface_config_ok(
                    control_points,
                ),
            },
    {
        let degree: usize = control_points.degree();
        if degree == 0 {
            return Err(SplineError::InvalidConfiguration);
        }
        if control_points.u_wrapping() && control_points.v_wrapping() {
            return Err(SplineError::InvalidConfiguration);
        }
        if !control_points.check_complete() {
            return Err(SplineError::InvalidConfiguration);
        }
        let u_phys: usize = control_points.physical_u_len();
        let v_phys: usize = control_points.physical_v_len();
        if v_phys == 0 {
            return Err(SplineError::InvalidConfiguration);
        }
        if u_phys > KNOT_LIMIT || v_phys > KNOT_LIMIT || degree >= KNOT_LIMIT {
            return Err(SplineError::InvalidConfiguration);
        }
        let u_len: usize = control_points.u_len();
        let v_len: usize = control_points.v_len();
        if u_len <= degree || v_len <= degree {
            return Err(SplineError::InvalidConfiguration);
        }
        if u_len > KNOT_LIMIT - degree - 1 || v_len > KNOT_LIMIT - degree - 1 {
            return Err(SplineError::InvalidConfiguration);
        }
        if !crate::algorithms::check_points_uniform(control_points.points()) {
            return Err(SplineError::InvalidConfiguration);
        }
        let u_gen: Vec<usize> = Knots::generate(degree, u_len);
        let ghost u_gseq = u_gen@;
        let u_knots = Knots::new(degree, u_gen);
        let v_gen: Vec<usize> = Knots::generate(degree, v_len);
        let ghost v_gseq = v_gen@;
        let v_knots = Knots::new(degree, v_gen);
        proof {
            assert forall|t: int| 0 <= t < u_knots@.len() implies #[trigger] u_knots@[t] == t by {
                assert(u_knots@[t] == u_gseq[t] as int);
                assert(u_gseq[t] == t);
            }
            assert forall|t: int| 0 <= t < v_knots@.len() implies #[trigger] v_knots@[t] == t by {
                assert(v_knots@[t] == v_gseq[t] as int);
                assert(v_gseq[t] == t);
            }
            assert(u_knots.wf());
            assert(v_knots.wf());
        }
        Ok(BSurface { control_points, u_knots, v_knots })
    }

    /// Degree of the surface.
    pub fn degree(&self) -> (r: usize)
        ensures
            r == self.spec_degree(),
    {
        self.control_points.degree()
    }

    /// u knots.
    pub fn u_knots(&self) -> (r: &Knots)
        ensures
            *r == self.spec_u_knots(),
    {
        &self.u_knots
    }

    /// Mutable u knots.
    pub fn u_knots_mut(&mut self) -> (r: &mut Knots)
        ensures
            *r == old(self).spec_u_knots(),
            final(self).spec_u_knots() == *final(r),
            final(self).spec_v_knots() == old(self).spec_v_knots(),
            final(self).spec_grid() == old(self).spec_grid(),
    {
        &mut self.u_knots
    }

    /// v knots.
    pub fn v_knots(&self) -> (r: &Knots)
        ensures
            *r == self.spec_v_knots(),
    {
        &self.v_knots
    }

    /// Mutable v knots.
    pub fn v_knots_mut(&mut self) -> (r: &mut Knots)
        ensures
            *r == old(self).spec_v_knots(),
            final(self).spec_v_knots() == *final(r),
            final(self).spec_u_knots() == old(self).spec_u_knots(),
            final(self).spec_grid() == old(self).spec_grid(),
    {
        &mut self.v_knots
    }

    /// The control grid.
    pub fn control_grid(&self) -> (r: &ControlGrid<Vector>)
        ensures
            *r == self.spec_grid(),
    {
        &self.control_points
    }

    /// The control points.
    pub fn control_points(&self) -> (r: &Vec<Vector>)
        ensures
            r@ == self.spec_grid().spec_values(),
    {
        self.control_points.points()
    }

    /// Mutable control points.
    pub fn control_points_mut(&mut self) -> (r: &mut Vec<Vector>)
        ensures
            r@ == old(self).spec_grid().spec_values(),
            final(self).spec_grid().spec_values() == final(r)@,
            final(self).spec_grid().spec_degree() == old(self).spec_grid().spec_degree(),
            final(self).spec_grid().spec_u_phys() == old(self).spec_grid().spec_u_phys(),
            final(self).spec_grid().spec_u_wrapping() == old(self).spec_grid().spec_u_wrapping(),
            final(self).spec_grid().spec_v_wrapping() == old(self).spec_grid().spec_v_wrapping(),
            final(self).spec_u_knots() == old(self).spec_u_knots(),
            final(self).spec_v_knots() == old(self).spec_v_knots(),
    {
        self.control_points.points_mut()
    }

    /// View this surface as a rational (NURBS) surface: the last
    /// coordinate of each control point becomes its weight.
    pub fn nurbs(&self) -> (r: crate::surfaces::NURBSurface)
        requires
            self.wf(),
            self.spec_dim() >= 2,
        ensures
            r.spec_spline() == *self,
            r.wf(),
    {
        crate::surfaces::NURBSurface::new(self)
    }

    /// Usable range of u values, inclusive.
    pub fn u_range(&self) -> (r: (Fixed, Fixed))
        requires
            self.wf(),
        ensures
            r.0.bits == self.spec_u_min_bits(),
            r.1.bits == self.spec_u_max_bits(),
            0 <= r.0.bits <= r.1.bits <= COORD_LIMIT,
    {
        let (lo, hi) = self.u_knots.range();
        (Fixed { bits: (lo as i64) * SCALE }, Fixed { bits: (hi as i64) * SCALE })
    }

    /// Usable range of v values, inclusive.
    pub fn v_range(&self) -> (r: (Fixed, Fixed))
        requires
            self.wf(),
        ensures
            r.0.bits == self.spec_v_min_bits(),
            r.1.bits == self.spec_v_max_bits(),
            0 <= r.0.bits <= r.1.bits <= COORD_LIMIT,
    {
        let (lo, hi) = self.v_knots.range();
        (Fixed { bits: (lo as i64) * SCALE }, Fixed { bits: (hi as i64) * SCALE })
    }

    /// Point of the surface at coordinate `uv`.
    pub fn at(&self, uv: (Fixed, Fixed)) -> (r: Result<Vector, SplineError>)
        requires
            self.wf(),
        ensures
            match r {
                Ok(p) => {
                    &&& self.params_in_range(uv.0.bits as int, uv.1.bits as int)
                    &&& p@ == self.at_spec(uv.0.bits as int, uv.1.bits as int)
                    &&& p@.len() == self.spec_dim()
                    &&& p.in_bounds(COORD_LIMIT as int)
                },
                Err(e) => e == SplineError::OutOfRange && !self.params_in_range(
                    uv.0.bits as int,
                    uv.1.bits as int,
                ),
            },
    {
        let (u, v) = uv;
        let (ulo, uhi) = self.u_range();
        let (vlo, vhi) = self.v_range();
        if u.bits < ulo.bits || u.bits > uhi.bits || v.bits < vlo.bits || v.bits > vhi.bits {
            return Err(SplineError::OutOfRange);
        }
        Ok(
            cox_de_boor_uv(
                uv,
                self.control_points.degree(),
                &self.u_knots,
                &self.v_knots,
                &self.control_points,
                Ghost(self.spec_dim()),
            ),
        )
    }

    /// All the u steps along the surface.
    pub fn quantize_u_range(&self, step: Fixed) -> (r: StepIter)
        requires
            self.wf(),
            1 <= step.bits <= 2 * COORD_LIMIT,
            step_count(self.spec_u_min_bits(), self.spec_u_max_bits(), step.bits as int)
                <= usize::MAX,
        ensures
            r.wf(),
            r.spec_seq() == quantize_seq(
                self.spec_u_min_bits(),
                self.spec_u_max_bits(),
                step.bits as int,
            ),
    {
        StepIter::new(step, self.u_range())
    }

    /// All the v steps along the surface.
    pub fn quantize_v_range(&self, step: Fixed) -> (r: StepIter)
        requires
            self.wf(),
            1 <= step.bits <= 2 * COORD_LIMIT,
            step_count(self.spec_v_min_bits(), self.spec_v_max_bits(), step.bits as int)
                <= usize::MAX,
        ensures
            r.wf(),
            r.spec_seq() == quantize_seq(
                self.spec_v_min_bits(),
                self.spec_v_max_bits(),
                step.bits as int,
            ),
    {
        StepIter::new(step, self.v_range())
    }

    /// How many u steps a quantization with `step` takes.
    pub open spec fn spec_u_steps(&self, step: int) -> int {
        step_count(self.spec_u_min_bits(), self.spec_u_max_bits(), step)
    }

    /// How many v steps a quantization with `step` takes.
    pub open spec fn spec_v_steps(&self, step: int) -> int {
        step_count(self.spec_v_min_bits(), self.spec_v_max_bits(), step)
    }

    /// All the uv steps along the surface, the u value varying fastest.
    pub fn quantize_range(&self, step: Fixed) -> (r: UVRange)
        requires
            self.wf(),
            1 <= step.bits <= 2 * COORD_LIMIT,
            self.spec_u_steps(step.bits as int) * self.spec_v_steps(step.bits as int)
                <= usize::MAX,
            self.spec_u_steps(step.bits as int) <= usize::MAX,
            self.spec_v_steps(step.bits as int) <= usize::MAX,
        ensures
            r.wf(),
            r.spec_len() == self.spec_u_steps(step.bits as int) * self.spec_v_steps(
                step.bits as int,
            ),
            forall|n: int|
                0 <= n < r.spec_len() ==> #[trigger] r.spec_pair(n) == (
                    quantize_seq(self.spec_u_min_bits(), self.spec_u_max_bits(), step.bits as int)[
                        n % self.spec_u_steps(step.bits as int)],
                    quantize_seq(self.spec_v_min_bits(), self.spec_v_max_bits(), step.bits as int)[
                        n / self.spec_u_steps(step.bits as int)],
                ),
    {
        proof {
            lemma_quantize_seq_endpoints(
                self.spec_u_min_bits(),
                self.spec_u_max_bits(),
                step.bits as int,
            );
        }
        UVRange::new(self.quantize_u_range(step), self.quantize_v_range(step))
    }

    /// All the points along the surface, one for each uv step, the u
    /// value varying fastest: the point for u step `b` of v step `a`
    /// stands at position `a * u_steps + b`.
    pub fn quantize(&self, step: Fixed) -> (r: Vec<Vector>)
        requires
            self.wf(),
            1 <= step.bits <= 2 * COORD_LIMIT,
            self.spec_u_steps(step.bits as int) * self.spec_v_steps(step.bits as int)
                <= usize::MAX,
            self.spec_u_steps(step.bits as int) <= usize::MAX,
            self.spec_v_steps(step.bits as int) <= usize::MAX,
        ensures
            r@.len() == self.spec_u_steps(step.bits as int) * self.spec_v_steps(step.bits as int),
            forall|t: int|
                0 <= t < r@.len() ==> (#[trigger] r@[t])@.len() == self.spec_dim() && r@[t]
                    .in_bounds(COORD_LIMIT as int),
            forall|a: int, b: int|
                0 <= a < self.spec_v_steps(step.bits as int) && 0 <= b < self.spec_u_steps(
                    step.bits as int,
                ) ==> (#[trigger] r@[a * self.spec_u_steps(step.bits as int) + b])@
                    == self.at_spec(
                    quantize_seq(self.spec_u_min_bits(), self.spec_u_max_bits(), step.bits as int)[
                        b],
                    quantize_seq(self.spec_v_min_bits(), self.spec_v_max_bits(), step.bits as int)[
                        a],
                ),
    {
        let ghost useq = quantize_seq(
            self.spec_u_min_bits(),
            self.spec_u_max_bits(),
            step.bits as int,
        );
        let ghost vseq = quantize_seq(
            self.spec_v_min_bits(),
            self.spec_v_max_bits(),
            step.bits as int,
        );
        proof {
            lemma_quantize_seq_endpoints(
                self.spec_u_min_bits(),
                self.spec_u_max_bits(),
                step.bits as int,
            );
            lemma_quantize_seq_endpoints(
                self.spec_v_min_bits(),
                self.spec_v_max_bits(),
                step.bits as int,
            );
        }
        let u_template: StepIter = self.quantize_u_range(step);
        let mut v_iter: StepIter = self.quantize_v_range(step);
        let nu: usize = u_template.len();
        let nv: usize = v_iter.len();
        let mut out: Vec<Vector> = Vec::new();
        let mut a: usize = 0;
        proof {
            assert(vseq.skip(0) =~= vseq);
        }
        while a < nv
            invariant
                self.wf(),
                1 <= step.bits <= 2 * COORD_LIMIT,
                a <= nv,
                nu == useq.len(),
                nv == vseq.len(),
                nu * nv <= usize::MAX,
                useq == quantize_seq(
                    self.spec_u_min_bits(),
                    self.spec_u_max_bits(),
                    step.bits as int,
                ),
                vseq == quantize_seq(
                    self.spec_v_min_bits(),
                    self.spec_v_max_bits(),
                    step.bits as int,
                ),
                forall|t: int| 0 <= t < useq.len() ==> self.spec_u_min_bits() <= #[trigger] useq[t]
                    <= self.spec_u_max_bits(),
                forall|t: int| 0 <= t < vseq.len() ==> self.spec_v_min_bits() <= #[trigger] vseq[t]
                    <= self.spec_v_max_bits(),
                u_template.wf(),
                u_template.spec_seq() == useq,
                v_iter.wf(),
                v_iter.spec_seq() == vseq.skip(a as int),
                out@.len() == a * nu,
                forall|t: int|
                    0 <= t < out@.len() ==> (#[trigger] out@[t])@.len() == self.spec_dim()
                        && out@[t].in_bounds(COORD_LIMIT as int),
                forall|x: int, y: int|
                    0 <= x < a && 0 <= y < nu ==> (#[trigger] out@[x * nu + y])@ == self.at_spec(
                        useq[y],
                        vseq[x],
                    ),
            decreases nv - a,
        {
            proof {
                assert(vseq.skip(a as int).len() == nv - a);
                lemma_mul_nonnegative(a as int, nu as int);
                lemma_mul_inequality(a as int + 1, nv as int, nu as int);
                assert((a + 1) * nu == a * nu + nu) by (nonlinear_arith);
                assert(nv as int * nu as int == nu as int * nv as int) by (nonlinear_arith);
            }
            let vv: Fixed = match v_iter.next() {
                Some(value) => value,
                None => {
                    proof {
                        assert(false);
                    }
                    Fixed { bits: 0 }
                },
            };
            proof {
                assert(vseq.skip(a as int)[0] == vseq[a as int]);
                assert(vseq.skip(a as int).drop_first() =~= vseq.skip(a as int + 1));
                assert(vv.bits as int == vseq[a as int]);
            }
            let mut u_iter: StepIter = u_template;
            let mut b: usize = 0;
            proof {
                assert(useq.skip(0) =~= useq);
            }
            while b < nu
                invariant
                    self.wf(),
                    b <= nu,
                    a < nv,
                    nu == useq.len(),
                    nv == vseq.len(),
                    nu * nv <= usize::MAX,
                    a * nu + nu <= nu * nv,
                    forall|t: int|
                        0 <= t < useq.len() ==> self.spec_u_min_bits() <= #[trigger] useq[t]
                            <= self.spec_u_max_bits(),
                    self.spec_v_min_bits() <= vv.bits as int <= self.spec_v_max_bits(),
                    vv.bits as int == vseq[a as int],
                    u_iter.wf(),
                    u_iter.spec_seq() == useq.skip(b as int),
                    out@.len() == a * nu + b,
                    forall|t: int|
                        0 <= t < out@.len() ==> (#[trigger] out@[t])@.len() == self.spec_dim()
                            && out@[t].in_bounds(COORD_LIMIT as int),
                    forall|x: int, y: int|
                        0 <= x < a && 0 <= y < nu ==> (#[trigger] out@[x * nu + y])@
                            == self.at_spec(useq[y], vseq[x]),
                    forall|y: int|
                        0 <= y < b ==> (#[trigger] out@[a as int * nu + y])@ == self.at_spec(
                            useq[y],
                            vseq[a as int],
                        ),
                decreases nu - b,
            {
                proof {
                    assert(useq.skip(b as int).len() == nu - b);
                }
                let uu: Fixed = match u_iter.next() {
                    Some(value) => value,
                    None => {
                        proof {
                            assert(false);
                        }
                        Fixed { bits: 0 }
                    },
                };
                proof {
                    assert(useq.skip(b as int)[0] == useq[b as int]);
                    assert(useq.skip(b as int).drop_first() =~= useq.skip(b as int + 1));
                    assert(uu.bits as int == useq[b as int]);
                }
                match self.at((uu, vv)) {
                    Ok(p) => {
                        out.push(p);
                    },
                    Err(_) => {
                        proof {
                            assert(false);
                        }
                    },
                }
                proof {
                    assert forall|x: int, y: int|
                        0 <= x < a && 0 <= y < nu implies (#[trigger] out@[x * nu + y])@
                            == self.at_spec(useq[y], vseq[x]) by {
                        crate::grid::lemma_row_major_index(nu as int, a as int, y, x);
                    }
                }
                b = b + 1;
            }
            a = a + 1;
            proof {
                assert(a * nu == (a - 1) * nu + nu) by (nonlinear_arith);
                assert forall|x: int, y: int|
                    0 <= x < a && 0 <= y < nu implies (#[trigger] out@[x * nu + y])@
                        == self.at_spec(useq[y], vseq[x]) by {
                    crate::grid::lemma_row_major_index(nu as int, a as int, y, x);
                }
            }
        }
        proof {
            assert(out@.len() == nv as int * nu as int);
            assert(nv as int * nu as int == nu as int * nv as int) by (nonlinear_arith);
        }
        out
    }
}

} // verus!
