//! Basis spline curves.

use vstd::prelude::*;

verus! {

use crate::SplineError;
use crate::algorithms::cox_de_boor_u;
use crate::algorithms::curve_ready;
use crate::algorithms::logical_points;
use crate::algorithms::points_uniform;
use crate::algorithms::spec_curve_point;
use crate::control_points::ControlVec;
use crate::knots::Knots;
use crate::step_iter::StepIter;
use crate::step_iter::lemma_quantize_seq_endpoints;
use crate::step_iter::quantize_seq;
use crate::step_iter::step_count;
use crate::types::COORD_LIMIT;
use crate::types::Fixed;
use crate::types::KNOT_LIMIT;
use crate::types::SCALE;
use crate::vector::Vector;

/// A control vec that can carry a basis spline: positive degree, more
/// points than the degree, one dimension throughout, coordinates in
/// range, and room for the generated knot vector.
pub open spec fn config_ok(cv: ControlVec<Vector>) -> bool {
    &&& 1 <= cv.spec_degree()
    &&& 1 <= cv.spec_points().len()
    &&& cv.spec_degree() < cv.spec_len()
    &&& cv.spec_len() + cv.spec_degree() + 1 <= KNOT_LIMIT
    &&& points_uniform(cv.spec_points(), cv.spec_points()[0]@.len() as int)
}

/// An explicit knot vector that fits a control vec: right length,
/// sorted, values in range, and a nonempty usable range.
pub open spec fn knots_ok(cv: ControlVec<Vector>, ks: Seq<int>) -> bool {
    &&& ks.len() == cv.spec_len() + cv.spec_degree() + 1
    &&& crate::algorithms::knots_sorted(ks)
    &&& forall|i: int| 0 <= i < ks.len() ==> 0 <= #[trigger] ks[i] <= KNOT_LIMIT
    &&& ks[cv.spec_degree()] < ks[ks.len() - cv.spec_degree() - 1]
}

/// Basis spline of a single degree: control points plus a knot vector.
#[derive(Debug)]
pub struct BSpline {
    control_points: ControlVec<Vector>,
    knots: Knots,
}

impl BSpline {
    /// The control points.
    pub closed spec fn spec_cv(&self) -> ControlVec<Vector> {
        self.control_points
    }

    /// The knot vector.
    pub closed spec fn spec_knots(&self) -> Knots {
        self.knots
    }

    /// The curve's degree.
    pub open spec fn spec_degree(&self) -> int {
        self.spec_cv().spec_degree()
    }

    /// The dimension of every control point.
    pub open spec fn spec_dim(&self) -> int {
        self.spec_cv().spec_points()[0]@.len() as int
    }

    /// Knots and control points fit together for evaluation.
    pub open spec fn wf(&self) -> bool {
        curve_ready(self.spec_knots(), self.spec_cv(), self.spec_dim())
    }

    /// Start of the usable range, in fixed-point bits.
    pub open spec fn spec_min_bits(&self) -> int {
        self.spec_knots()@[self.spec_degree()] * SCALE
    }

    /// End of the usable range, in fixed-point bits.
    pub open spec fn spec_max_bits(&self) -> int {
        self.spec_knots()@[self.spec_knots()@.len() - self.spec_degree() - 1] * SCALE
    }

    /// The parameter lies inside the usable range.
    pub open spec fn param_in_range(&self, u: int) -> bool {
        self.spec_min_bits() <= u <= self.spec_max_bits()
    }

    /// The point of the curve at parameter bits `u`.
    pub open spec fn at_spec(&self, u: int) -> Seq<int> {
        spec_curve_point(logical_points(self.spec_cv()), self.spec_knots()@, self.spec_degree(), u)
    }

    /// Create a new basis spline for a list of control points, with a
    /// generated uniform knot vector.
    pub fn new(control_points: ControlVec<Vector>) -> (r: Result<BSpline, SplineError>)
        ensures
            match r {
                Ok(s) => {
                    &&& config_ok(control_points)
                    &&& s.spec_cv() == control_points
                    &&& s.wf()
                    &&& s.spec_knots()@.len() == control_points.spec_len()
                        + control_points.spec_degree() + 1
                    &&& forall|i: int|
                        0 <= i < s.spec_knots()@.len() ==> #[trigger] s.spec_knots()@[i] == i
                },
                Err(e) => e == SplineError::InvalidConfiguration && !config_ok(control_points),
            },
    {
        let degree: usize = control_points.degree();
        if degree == 0 {
            return Err(SplineError::InvalidConfiguration);
        }
        let phys: usize = control_points.points().len();
        if phys == 0 {
            return Err(SplineError::InvalidConfiguration);
        }
        if phys > KNOT_LIMIT || degree >= KNOT_LIMIT {
            return Err(SplineError::InvalidConfiguration);
        }
        let logical: usize = control_points.len();
        if logical <= degree {
            return Err(SplineError::InvalidConfiguration);
        }
        if logical > KNOT_LIMIT - degree - 1 {
            return Err(SplineError::InvalidConfiguration);
        }
        if !crate::algorithms::check_points_uniform(control_points.points()) {
            return Err(SplineError::InvalidConfiguration);
        }
        let gen: Vec<usize> = Knots::generate(degree, logical);
        let ghost gseq = gen@;
        let knots = Knots::new(degree, gen);
        proof {
            assert forall|t: int| 0 <= t < knots@.len() implies #[trigger] knots@[t] == t by {
                assert(knots@[t] == gseq[t] as int);
                assert(gseq[t] == t);
            }
            assert(knots.wf());
            assert(knots@[degree as int] == degree);
            assert(knots@[knots@.len() - degree - 1] == logical);
        }
        Ok(BSpline { control_points, knots })
    }

    /// Create a basis spline over an explicit knot vector, validated
    /// against the control points.
    pub fn with_knots(control_points: ControlVec<Vector>, knot_vec: Vec<usize>) -> (r: Result<
        BSpline,
        SplineError,
    >)
        ensures
            match r {
                Ok(s) => {
                    &&& config_ok(control_points)
                    &&& knots_ok(control_points, knot_vec@.map_values(|v: usize| v as int))
                    &&& s.spec_cv() == control_points
                    &&& s.wf()
                    &&& s.spec_knots()@ == knot_vec@.map_values(|v: usize| v as int)
                },
                Err(e) => e == SplineError::InvalidConfiguration && !(config_ok(control_points)
                    && knots_ok(control_points, knot_vec@.map_values(|v: usize| v as int))),
            },
    {
        let ghost ks = knot_vec@.map_values(|v: usize| v as int);
        let degree: usize = control_points.degree();
        if degree == 0 {
            return Err(SplineError::InvalidConfiguration);
        }
        let phys: usize = control_points.points().len();
        if phys == 0 {
            return Err(SplineError::InvalidConfiguration);
        }
        if phys > KNOT_LIMIT || degree >= KNOT_LIMIT {
            return Err(SplineError::InvalidConfiguration);
        }
        let logical: usize = control_points.len();
        if logical <= degree {
            return Err(SplineError::InvalidConfiguration);
        }
        if logical > KNOT_LIMIT - degree - 1 {
            return Err(SplineError::InvalidConfiguration);
        }
        if !crate::algorithms::check_points_uniform(control_points.points()) {
            return Err(SplineError::InvalidConfiguration);
        }
        if knot_vec.len() != logical + degree + 1 {
            return Err(SplineError::InvalidConfiguration);
        }
        let klen: usize = knot_vec.len();
        let mut i: usize = 0;
        while i + 1 < klen
            invariant
                klen == knot_vec@.len(),
                i < klen,
                ks == knot_vec@.map_values(|v: usize| v as int),
                forall|a: int, b: int| 0 <= a <= b <= i ==> ks[a] <= ks[b],
            decreases knot_vec@.len() - i,
        {
            proof {
                assert(ks[i as int] == knot_vec@[i as int] as int);
                assert(ks[i as int + 1] == knot_vec@[i as int + 1] as int);
            }
            if knot_vec[i] > knot_vec[i + 1] {
                proof {
                    assert(!crate::algorithms::knots_sorted(ks));
                }
                return Err(SplineError::InvalidConfiguration);
            }
            i = i + 1;
        }
        let last: usize = knot_vec[knot_vec.len() - 1];
        if last > KNOT_LIMIT {
            proof {
                assert(ks[ks.len() - 1] > KNOT_LIMIT);
            }
            return Err(SplineError::InvalidConfiguration);
        }
        proof {
            assert(crate::algorithms::knots_sorted(ks));
            assert forall|t: int| 0 <= t < ks.len() implies 0 <= #[trigger] ks[t] <= KNOT_LIMIT by {
                assert(ks[t] <= ks[ks.len() - 1]);
            }
        }
        if knot_vec[degree] >= knot_vec[knot_vec.len() - degree - 1] {
            return Err(SplineError::InvalidConfiguration);
        }
        let knots = Knots::new(degree, knot_vec);
        proof {
            assert(knots@ =~= ks);
        }
        Ok(BSpline { control_points, knots })
    }

    /// Access the knots of the spline.
    pub fn knots(&self) -> (r: &Knots)
        ensures
            *r == self.spec_knots(),
    {
        &self.knots
    }

    /// Mutable access to the knots of the spline.
    pub fn knots_mut(&mut self) -> (r: &mut Knots)
        ensures
            *r == old(self).spec_knots(),
            final(self).spec_knots() == *final(r),
            final(self).spec_cv() == old(self).spec_cv(),
    {
        &mut self.knots
    }

    /// Access to the control vec.
    pub fn control_vec(&self) -> (r: &ControlVec<Vector>)
        ensures
            *r == self.spec_cv(),
    {
        &self.control_points
    }

    /// The control points.
    pub fn control_points(&self) -> (r: &Vec<Vector>)
        ensures
            r@ == self.spec_cv().spec_points(),
    {
        self.control_points.points()
    }

    /// Mutable control points.
    pub fn control_points_mut(&mut self) -> (r: &mut Vec<Vector>)
        ensures
            r@ == old(self).spec_cv().spec_points(),
            final(self).spec_cv().spec_points() == final(r)@,
            final(self).spec_cv().spec_degree() == old(self).spec_cv().spec_degree(),
            final(self).spec_cv().spec_wrapping() == old(self).spec_cv().spec_wrapping(),
            final(self).spec_knots() == old(self).spec_knots(),
    {
        self.control_points.points_mut()
    }

    /// Degree of the curve.
    pub fn degree(&self) -> (r: usize)
        ensures
            r == self.spec_degree(),
    {
        self.control_points.degree()
    }

    /// View this curve as a rational (NURBS) curve: the last coordinate
    /// of each control point becomes its weight.
    pub fn nurbs(&self) -> (r: crate::splines::NURBSpline)
        requires
            self.wf(),
            self.spec_dim() >= 2,
        ensures
            r.spec_spline() == *self,
            r.wf(),
    {
        crate::splines::NURBSpline::new(self)
    }

    /// Usable range of parameter values, inclusive.
    pub fn range(&self) -> (r: (Fixed, Fixed))
        requires
            self.wf(),
        ensures
            r.0.bits == self.spec_min_bits(),
            r.1.bits == self.spec_max_bits(),
            0 <= r.0.bits <= r.1.bits <= COORD_LIMIT,
    {
        let (lo, hi) = self.knots.range();
        (Fixed { bits: (lo as i64) * SCALE }, Fixed { bits: (hi as i64) * SCALE })
    }

    /// Point of the curve at position `u`.
    pub fn at(&self, u: Fixed) -> (r: Result<Vector, SplineError>)
        requires
            self.wf(),
        ensures
            match r {
                Ok(p) => {
                    &&& self.param_in_range(u.bits as int)
                    &&& p@ == self.at_spec(u.bits as int)
                    &&& p@.len() == self.spec_dim()
                    &&& p.in_bounds(COORD_LIMIT as int)
                },
                Err(e) => e == SplineError::OutOfRange && !self.param_in_range(u.bits as int),
            },
    {
        let (lo, hi) = self.range();
        if u.bits < lo.bits || u.bits > hi.bits {
            return Err(SplineError::OutOfRange);
        }
        Ok(
            cox_de_boor_u(
                u,
                self.control_points.degree(),
                &self.knots,
                &self.control_points,
                Ghost(self.spec_dim()),
            ),
        )
    }

    /// All the steps along the spline.
    pub fn quantize_range(&self, step: Fixed) -> (r: StepIter)
        requires
            self.wf(),
            1 <= step.bits <= 2 * COORD_LIMIT,
            step_count(self.spec_min_bits(), self.spec_max_bits(), step.bits as int) <= usize::MAX,
        ensures
            r.wf(),
            r.spec_seq() == quantize_seq(
                self.spec_min_bits(),
                self.spec_max_bits(),
                step.bits as int,
            ),
    {
        StepIter::new(step, self.range())
    }

    /// All the points along the spline, one for each step.
    pub fn quantize(&self, step: Fixed) -> (r: Vec<Vector>)
        requires
            self.wf(),
            1 <= step.bits <= 2 * COORD_LIMIT,
            step_count(self.spec_min_bits(), self.spec_max_bits(), step.bits as int) <= usize::MAX,
        ensures
            r@.len() == step_count(self.spec_min_bits(), self.spec_max_bits(), step.bits as int),
            forall|i: int|
                0 <= i < r@.len() ==> (#[trigger] r@[i])@ == self.at_spec(
                    quantize_seq(self.spec_min_bits(), self.spec_max_bits(), step.bits as int)[i],
                ),
    {
        let ghost full = quantize_seq(self.spec_min_bits(), self.spec_max_bits(), step.bits as int);
        proof {
            lemma_quantize_seq_endpoints(
                self.spec_min_bits(),
                self.spec_max_bits(),
                step.bits as int,
            );
        }
        let mut it: StepIter = self.quantize_range(step);
        proof {
            assert(full.skip(0) =~= full);
        }
        let n: usize = it.len();
        let mut out: Vec<Vector> = Vec::new();
        let mut i: usize = 0;
        while i < n
            invariant
                self.wf(),
                i <= n,
                n == full.len(),
                full == quantize_seq(self.spec_min_bits(), self.spec_max_bits(), step.bits as int),
                forall|t: int| 0 <= t < full.len() ==> self.spec_min_bits() <= #[trigger] full[t]
                    <= self.spec_max_bits(),
                it.wf(),
                it.spec_seq() == full.skip(i as int),
                out@.len() == i,
                forall|t: int| 0 <= t < i ==> (#[trigger] out@[t])@ == self.at_spec(full[t]),
            decreases n - i,
        {
            proof {
                assert(full.skip(i as int).len() == n - i);
                assert(it.spec_seq().len() == n - i);
                assert(it.spec_remaining() >= 1);
            }
            let v: Option<Fixed> = it.next();
            match v {
                Some(value) => {
                    proof {
                        assert(full.skip(i as int)[0] == full[i as int]);
                        assert(full.skip(i as int).drop_first() =~= full.skip(i as int + 1));
                        assert(value.bits as int == full[i as int]);
                        assert(self.spec_min_bits() <= full[i as int] <= self.spec_max_bits());
                        assert(self.param_in_range(value.bits as int));
                    }
                    match self.at(value) {
                        Ok(p) => {
                            out.push(p);
                        },
                        Err(_) => {
                            proof {
                                assert(false);
                            }
                        },
                    }
                },
                None => {
                    proof {
                        assert(false);
                    }
                },
            }
            i = i + 1;
        }
        out
    }
}

/// A knot vector clamped with multiplicity exactly `degree + 1` at
/// both ends of its usable range.
pub open spec fn clamped_exact(s: BSpline) -> bool {
    let ks = s.spec_knots()@;
    let d = s.spec_degree();
    let n = ks.len() - d - 1;
    &&& forall|i: int| 0 <= i <= d ==> #[trigger] ks[i] == ks[d]
    &&& ks[d] < ks[d + 1]
    &&& forall|i: int| n <= i < ks.len() ==> #[trigger] ks[i] == ks[n]
    &&& ks[n - 1] < ks[n]
}

/// Endpoint interpolation: at the start of its range a clamped curve
/// sits exactly on its first control point, and at the end of its
/// range exactly on its last.
pub proof fn lemma_clamped_endpoint_interpolation(s: BSpline)
    requires
        s.wf(),
        clamped_exact(s),
    ensures
        s.at_spec(s.spec_min_bits()) == logical_points(s.spec_cv())[0],
        s.at_spec(s.spec_max_bits()) == logical_points(s.spec_cv())[s.spec_cv().spec_len() - 1],
        logical_points(s.spec_cv())[0] == s.spec_cv().spec_points()[0]@,
        !s.spec_cv().spec_wrapping() ==> logical_points(s.spec_cv())[s.spec_cv().spec_len() - 1]
            == s.spec_cv().spec_points()[s.spec_cv().spec_points().len() - 1]@,
{
    let ks = s.spec_knots()@;
    let d = s.spec_degree();
    let n = ks.len() - d - 1;
    let kb = crate::algorithms::knot_bits(ks);
    let pts = logical_points(s.spec_cv());
    let sc = SCALE as int;
    crate::algorithms::lemma_knot_bits(ks);
    crate::algorithms::lemma_logical_uniform(s.spec_cv(), s.spec_dim());
    // the start of the range
    let umin = s.spec_min_bits();
    vstd::arithmetic::div_mod::lemma_div_by_multiple(ks[d], sc);
    let fu = umin / sc;
    assert(fu == ks[d]);
    assert(d + 1 <= n);
    assert(ks[d + 1] <= ks[n]);
    assert(fu < ks[n]);
    assert forall|m: int| d < m <= ks.len() - 1 implies ks[m] > fu by {
        assert(ks[d + 1] <= ks[m]);
    }
    crate::algorithms::lemma_at_or_below_unique(ks, ks.len() - 1, fu, d);
    let k0 = crate::algorithms::spec_find_span(ks, d, fu);
    assert(k0 == d);
    assert forall|rr: int, jj: int|
        1 <= rr <= jj <= d implies #[trigger] crate::algorithms::spec_alpha(
        kb,
        d,
        d,
        rr,
        jj,
        umin,
    ) == 0 by {
        assert(ks[jj + d - d] == ks[d]);
        assert(kb[jj] == ks[jj] * sc);
        assert(1 + jj + d - rr <= 2 * d);
        assert(ks[1 + jj + d - rr] >= ks[d + 1]);
        assert(kb[1 + jj + d - rr] >= ks[d + 1] * sc);
        assert(umin - kb[jj] == 0);
        let den = kb[1 + jj + d - rr] - kb[jj];
        assert(den >= ks[d + 1] * sc - ks[d] * sc > 0);
        assert(crate::types::fix_div(0, den) == 0) by {
            vstd::arithmetic::div_mod::lemma_div_of0(den);
        }
    }
    let base0 = Seq::new((d + 1) as nat, |j: int| pts[k0 - d + j]);
    crate::algorithms::lemma_de_boor_zero_alphas(base0, kb, d, d, umin, d, d);
    assert(s.at_spec(umin) == base0[0]);
    assert(base0[0] == pts[0]);
    // the end of the range
    let umax = s.spec_max_bits();
    vstd::arithmetic::div_mod::lemma_div_by_multiple(ks[n], sc);
    let fv = umax / sc;
    assert(fv == ks[n]);
    assert(fv == ks[ks.len() - 1]);
    assert(ks[n - 1] < fv);
    assert forall|m: int| n - 1 < m <= ks.len() - 1 implies ks[m] >= fv by {
        assert(ks[n] <= ks[m] || m == n);
    }
    crate::algorithms::lemma_below_unique(ks, ks.len() - 1, fv, n - 1);
    let k1 = crate::algorithms::spec_find_span(ks, d, fv);
    assert(k1 == n - 1);
    assert forall|rr: int, jj: int|
        1 <= rr <= jj <= d implies #[trigger] crate::algorithms::spec_alpha(
        kb,
        n - 1,
        d,
        rr,
        jj,
        umax,
    ) == SCALE by {
        let lo = jj + (n - 1) - d;
        let hi = 1 + jj + (n - 1) - rr;
        assert(0 <= lo <= n - 1);
        assert(n <= hi <= n + d - 1);
        assert(hi <= ks.len() - 2);
        assert(ks[hi] == ks[n]);
        assert(ks[lo] <= ks[n - 1]);
        assert(kb[hi] == ks[n] * sc);
        assert(kb[lo] == ks[lo] * sc);
        assert(kb[lo] <= ks[n - 1] * sc);
        assert(ks[n - 1] * sc < ks[n] * sc);
        let den = kb[hi] - kb[lo];
        assert(umax - kb[lo] == den);
        assert(den > 0);
        assert(crate::types::fix_div(den, den) == SCALE) by {
            crate::types::lemma_tdiv_exact(sc, den);
            assert(den * sc == sc * den) by (nonlinear_arith);
        }
    }
    let base1 = Seq::new((d + 1) as nat, |j: int| pts[k1 - d + j]);
    assert(forall|i: int|
        0 <= i < base1.len() ==> (#[trigger] base1[i]).len() == s.spec_dim());
    crate::algorithms::lemma_de_boor_one_alphas(base1, kb, n - 1, d, umax, d, d, s.spec_dim());
    assert(s.at_spec(umax) == base1[d]);
    assert(base1[d] == pts[n - 1]);
    assert(n - 1 == s.spec_cv().spec_len() - 1);
    // the logical endpoints against the stored points
    let phys = s.spec_cv().spec_points().len() as int;
    if s.spec_cv().spec_wrapping() {
        assert(0int % phys == 0) by {
            vstd::arithmetic::div_mod::lemma_small_mod(0, phys as nat);
        }
        assert(pts[0] == s.spec_cv().spec_points()[0]@);
    } else {
        assert(pts[0] == s.spec_cv().spec_points()[0]@);
        assert(pts[s.spec_cv().spec_len() - 1] == s.spec_cv().spec_points()[phys - 1]@);
    }
}

impl BSpline {
    /// 2D unit square: a closed degree-one curve through three stored
    /// corners, the fourth reached by wrap-around.
    pub fn square() -> (r: BSpline)
        ensures
            r.wf(),
            r.spec_degree() == 1,
            r.spec_dim() == 2,
            r.spec_cv().spec_wrapping(),
            r.spec_cv().spec_points().len() == 3,
            r.spec_cv().spec_points()[0]@ == seq![-(SCALE / 2) as int, -(SCALE / 2) as int],
            r.spec_cv().spec_points()[1]@ == seq![(SCALE / 2) as int, -(SCALE / 2) as int],
            r.spec_cv().spec_points()[2]@ == seq![(SCALE / 2) as int, (SCALE / 2) as int],
            forall|i: int| 0 <= i < r.spec_knots()@.len() ==> #[trigger] r.spec_knots()@[i] == i,
    {
        let half: i64 = SCALE / 2;
        let mut points: Vec<Vector> = Vec::new();
        points.push(corner_point(-half, -half));
        points.push(corner_point(half, -half));
        points.push(corner_point(half, half));
        let mut control = ControlVec::new(1, points);
        control.set_wrapping(true);
        proof {
            assert forall|i: int|
                0 <= i < control.spec_points().len() implies (#[trigger] control.spec_points()[
            i])@.len() == 2 && control.spec_points()[i].in_bounds(COORD_LIMIT as int) by {
                assert(control.spec_points()[i]@.len() == 2);
            }
            assert(config_ok(control));
        }
        match BSpline::new(control) {
            Ok(s) => s,
            Err(_) => vstd::pervasive::unreached(),
        }
    }

    /// 2D unit circle of diameter one, as a closed quadratic rational
    /// curve: eight weighted control points around the center, with the
    /// knots pinched at every other interior position to form four
    /// exact quarter arcs. Evaluate it through `nurbs`.
    pub fn circle() -> (r: BSpline)
        ensures
            r.wf(),
            r.spec_degree() == 2,
            r.spec_dim() == 3,
            r.spec_cv().spec_wrapping(),
            r.spec_cv().spec_points().len() == 8,
            forall|i: int|
                0 <= i < 8 ==> (#[trigger] r.spec_cv().spec_points()[i])@ == circle_point_view(i),
            r.spec_knots()@ == seq![0int, 1, 1, 2, 2, 3, 3, 4, 4, 5, 5, 6, 7],
    {
        // the weight of the diagonal points: one over the square root
        // of two, in fixed-point units
        let arc_w: i64 = 46341;
        let radius: i64 = SCALE / 2;
        let one: i64 = SCALE;
        let mut points: Vec<Vector> = Vec::new();
        points.push(circle_point(0, radius, one));
        points.push(circle_point(radius, radius, arc_w));
        points.push(circle_point(radius, 0, one));
        points.push(circle_point(radius, -radius, arc_w));
        points.push(circle_point(0, -radius, one));
        points.push(circle_point(-radius, -radius, arc_w));
        points.push(circle_point(-radius, 0, one));
        points.push(circle_point(-radius, radius, arc_w));
        let mut control = ControlVec::new(2, points);
        control.set_wrapping(true);
        proof {
            assert forall|i: int|
                0 <= i < control.spec_points().len() implies (#[trigger] control.spec_points()[
            i])@.len() == 3 && control.spec_points()[i].in_bounds(COORD_LIMIT as int) by {
                assert(control.spec_points()[i]@.len() == 3);
            }
            assert(config_ok(control));
        }
        let mut curve: BSpline = match BSpline::new(control) {
            Ok(s) => s,
            Err(_) => vstd::pervasive::unreached(),
        };
        curve.knots_mut().pinch(1, 1);
        proof {
            assert(curve.wf());
        }
        curve.knots_mut().pinch(3, 1);
        proof {
            assert(curve.wf());
        }
        curve.knots_mut().pinch(5, 1);
        proof {
            assert(curve.wf());
        }
        curve.knots_mut().pinch(7, 1);
        proof {
            assert(curve.wf());
        }
        curve.knots_mut().pinch(9, 1);
        proof {
            assert(curve.wf());
        }
        curve
    }
}


/// The control points of the unit circle, by position: the four points
/// on the axes carry weight one, the four diagonal points the weight of
/// a quarter arc, one over the square root of two.
pub open spec fn circle_point_view(i: int) -> Seq<int> {
    let r = (SCALE / 2) as int;
    let one = SCALE as int;
    let arc = 46341int;
    if i == 0 {
        seq![0, r, one]
    } else if i == 1 {
        seq![r, r, arc]
    } else if i == 2 {
        seq![r, 0, one]
    } else if i == 3 {
        seq![r, -r, arc]
    } else if i == 4 {
        seq![0, -r, one]
    } else if i == 5 {
        seq![-r, -r, arc]
    } else if i == 6 {
        seq![-r, 0, one]
    } else {
        seq![-r, r, arc]
    }
}

/// A two-coordinate point from raw fixed-point bit counts.
fn corner_point(x: i64, y: i64) -> (r: Vector)
    ensures
        r@.len() == 2,
        r@[0] == x as int,
        r@[1] == y as int,
{
    let mut c: Vec<Fixed> = Vec::new();
    c.push(Fixed { bits: x });
    c.push(Fixed { bits: y });
    let ghost cs = c@;
    let r = Vector::new(c);
    proof {
        assert(r@[0] == (#[trigger] cs[0]).bits as int);
        assert(r@[1] == (#[trigger] cs[1]).bits as int);
    }
    r
}

/// A three-coordinate point from raw fixed-point bit counts.
fn circle_point(x: i64, y: i64, w: i64) -> (r: Vector)
    ensures
        r@.len() == 3,
        r@[0] == x as int,
        r@[1] == y as int,
        r@[2] == w as int,
{
    let mut c: Vec<Fixed> = Vec::new();
    c.push(Fixed { bits: x });
    c.push(Fixed { bits: y });
    c.push(Fixed { bits: w });
    let ghost cs = c@;
    let r = Vector::new(c);
    proof {
        assert(r@[0] == (#[trigger] cs[0]).bits as int);
        assert(r@[1] == (#[trigger] cs[1]).bits as int);
        assert(r@[2] == (#[trigger] cs[2]).bits as int);
    }
    r
}

} // verus!
