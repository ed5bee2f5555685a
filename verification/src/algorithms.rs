//! The computational core: knot-span search and the Cox–de Boor
//! triangular blending recurrence, stated over mathematical sequences.
//!
//! Knot sequences appear in two forms: as integer knot values (`Seq<int>`
//! of the `usize` knots) and as fixed-point bit counts (`knot_bits`).
//! The recurrence itself works on bit counts.

use vstd::prelude::*;

verus! {

use crate::types::COORD_LIMIT;
use crate::types::KNOT_LIMIT;
use crate::types::SCALE;
use crate::types::abs_val;
use crate::types::fix_div;
use crate::types::fix_mul;
use crate::types::lemma_tdiv_mag;
use crate::types::Fixed;
use crate::types::lemma_tdiv_upper;
use crate::knots::Knots;
use crate::control_points::ControlVec;
use crate::control_points::ControlGrid;
use crate::grid::lemma_row_major_index;
use vstd::arithmetic::div_mod::lemma_mod_bound;
use crate::types::tdiv;
use crate::types::HOMOG_LIMIT;
use crate::vector::Vector;
use crate::vector::spec_blend;
use crate::vector::spec_weighted;
use vstd::arithmetic::div_mod::lemma_fundamental_div_mod;
use vstd::arithmetic::div_mod::lemma_div_is_ordered;
use vstd::arithmetic::div_mod::lemma_div_multiples_vanish;
use vstd::arithmetic::div_mod::lemma_div_by_multiple;
use vstd::arithmetic::mul::lemma_mul_inequality;

/// The knot sequence never decreases.
pub open spec fn knots_sorted(ks: Seq<int>) -> bool {
    forall|i: int, j: int| 0 <= i <= j < ks.len() ==> ks[i] <= ks[j]
}

/// The knot values as fixed-point bit counts.
pub open spec fn knot_bits(ks: Seq<int>) -> Seq<int> {
    ks.map_values(|v: int| v * (SCALE as int))
}

/// Index of the last entry at or below `v` among `ks[0..=i]`; `0` if none is.
pub open spec fn last_at_or_below(ks: Seq<int>, i: int, v: int) -> int
    decreases i,
{
    if i <= 0 {
        0
    } else if ks[i] <= v {
        i
    } else {
        last_at_or_below(ks, i - 1, v)
    }
}

/// Index of the last entry strictly below `v` among `ks[0..=i]`; `0` if none is.
pub open spec fn last_below(ks: Seq<int>, i: int, v: int) -> int
    decreases i,
{
    if i <= 0 {
        0
    } else if ks[i] < v {
        i
    } else {
        last_below(ks, i - 1, v)
    }
}

/// The span index for parameter `u` in a knot sequence of the given
/// degree: the last knot at or below `u`, except at the very end of the
/// usable range, where the last knot strictly below `u` is taken.
pub open spec fn spec_find_span(ks: Seq<int>, degree: int, u: int) -> int {
    if u == ks[ks.len() - degree - 1] {
        last_below(ks, ks.len() - 1, u)
    } else {
        last_at_or_below(ks, ks.len() - 1, u)
    }
}

/// What `last_at_or_below` returns: an index whose knot is at or below
/// `v`, with every later knot above `v`.
pub proof fn lemma_last_at_or_below(ks: Seq<int>, i: int, v: int)
    requires
        0 <= i < ks.len(),
        ks[0] <= v,
    ensures
        0 <= last_at_or_below(ks, i, v) <= i,
        ks[last_at_or_below(ks, i, v)] <= v,
        forall|m: int| last_at_or_below(ks, i, v) < m <= i ==> ks[m] > v,
    decreases i,
{
    if i > 0 && ks[i] > v {
        lemma_last_at_or_below(ks, i - 1, v);
    }
}

/// What `last_below` returns: an index whose knot is below `v`, with
/// every later knot at or above `v`.
pub proof fn lemma_last_below(ks: Seq<int>, i: int, v: int)
    requires
        0 <= i < ks.len(),
        ks[0] < v,
    ensures
        0 <= last_below(ks, i, v) <= i,
        ks[last_below(ks, i, v)] < v,
        forall|m: int| last_below(ks, i, v) < m <= i ==> ks[m] >= v,
    decreases i,
{
    if i > 0 && ks[i] >= v {
        lemma_last_below(ks, i - 1, v);
    }
}

/// In a sorted sequence the index with `ks[k] <= v` and everything
/// later above `v` is exactly `last_at_or_below`.
pub proof fn lemma_at_or_below_unique(ks: Seq<int>, i: int, v: int, k: int)
    requires
        0 <= k <= i < ks.len(),
        ks[k] <= v,
        forall|m: int| k < m <= i ==> ks[m] > v,
    ensures
        last_at_or_below(ks, i, v) == k,
    decreases i,
{
    if i > k {
        lemma_at_or_below_unique(ks, i - 1, v, k);
    }
}

/// In a sorted sequence the index with `ks[k] < v` and everything
/// later at or above `v` is exactly `last_below`.
pub proof fn lemma_below_unique(ks: Seq<int>, i: int, v: int, k: int)
    requires
        0 <= k <= i < ks.len(),
        ks[k] < v,
        forall|m: int| k < m <= i ==> ks[m] >= v,
    ensures
        last_below(ks, i, v) == k,
    decreases i,
{
    if i > k {
        lemma_below_unique(ks, i - 1, v, k);
    }
}

/// A knot sequence fit for evaluation at the given degree: sorted, long
/// enough for the degree, and with a nonempty usable range.
pub open spec fn eval_ready(ks: Seq<int>, degree: int) -> bool {
    &&& knots_sorted(ks)
    &&& 1 <= degree
    &&& 2 * degree + 2 <= ks.len()
    &&& ks[degree] < ks[ks.len() - degree - 1]
}

/// The span of a parameter inside the usable range: it lies between
/// `degree` and `len - degree - 2`, and `u` sits inside the span.
pub proof fn lemma_span_props(ks: Seq<int>, degree: int, u: int)
    requires
        eval_ready(ks, degree),
        ks[degree] <= u <= ks[ks.len() - degree - 1],
    ensures
        ({
            let k = spec_find_span(ks, degree, u);
            &&& degree <= k <= ks.len() - degree - 2
            &&& ks[k] <= u <= ks[k + 1]
            &&& ks[k] < ks[k + 1]
            &&& (u < ks[ks.len() - degree - 1] ==> u < ks[k + 1])
            &&& (u == ks[ks.len() - degree - 1] ==> ks[k] < u)
        }),
{
    let n = ks.len() - degree - 1;
    if u == ks[n] {
        lemma_last_below(ks, ks.len() - 1, u);
        let k = last_below(ks, ks.len() - 1, u);
        assert(ks[degree] < u);
        assert(k >= degree);
        assert(ks[n] >= u);
        assert(k < n);
    } else {
        lemma_last_at_or_below(ks, ks.len() - 1, u);
        let k = last_at_or_below(ks, ks.len() - 1, u);
        assert(ks[degree] <= u);
        assert(k >= degree);
        assert(ks[n] > u);
        assert(k < n);
    }
}

/// The span index never decreases as the parameter grows.
pub proof fn lemma_find_span_monotonic(ks: Seq<int>, degree: int, u1: int, u2: int)
    requires
        eval_ready(ks, degree),
        ks[degree] <= u1 <= u2 <= ks[ks.len() - degree - 1],
    ensures
        spec_find_span(ks, degree, u1) <= spec_find_span(ks, degree, u2),
{
    let k1 = spec_find_span(ks, degree, u1);
    let k2 = spec_find_span(ks, degree, u2);
    lemma_span_props(ks, degree, u1);
    lemma_span_props(ks, degree, u2);
    if u1 == u2 {
        assert(k1 == k2);
    } else if k1 > k2 {
        assert(ks[k2 + 1] <= ks[k1]);
        if u2 < ks[ks.len() - degree - 1] {
            assert(ks[k1] <= u1);
            assert(u2 < ks[k2 + 1]);
            assert(false);
        } else {
            assert(ks[k1] <= u1);
            assert(u1 < u2);
            assert(u2 <= ks[k2 + 1]);
            assert(ks[k2] < u2);
            lemma_last_below(ks, ks.len() - 1, u2);
            assert(ks[k1] >= u2);
            assert(false);
        }
    }
}

/// The blending factor of the recurrence, as a fixed-point value:
/// `(u - knot[j + k - degree]) / (knot[1 + j + k - r] - knot[j + k - degree])`,
/// over knot bit counts.
pub open spec fn spec_alpha(kb: Seq<int>, k: int, degree: int, r: int, j: int, u: int) -> int {
    fix_div(u - kb[j + k - degree], kb[1 + j + k - r] - kb[j + k - degree])
}

/// Inside a valid span every blending factor lies in `[0, 1]`.
pub proof fn lemma_alpha_bounds(kb: Seq<int>, k: int, degree: int, r: int, j: int, u: int)
    requires
        knots_sorted(kb),
        1 <= r <= j <= degree,
        degree <= k,
        k + degree + 1 < kb.len(),
        kb[k] <= u <= kb[k + 1],
        kb[k] < kb[k + 1],
    ensures
        0 <= spec_alpha(kb, k, degree, r, j, u) <= SCALE,
{
    let kp = kb[j + k - degree];
    let kp1 = kb[1 + j + k - r];
    assert(kp <= kb[k]);
    assert(kp1 >= kb[k + 1]);
    let den = kp1 - kp;
    assert(den >= kb[k + 1] - kb[k] >= 1);
    let num = u - kp;
    assert(0 <= num <= den);
    lemma_tdiv_mag((u - kp) * (SCALE as int), den);
    assert(num * (SCALE as int) >= 0) by (nonlinear_arith)
        requires
            num >= 0,
    ;
    lemma_mul_inequality(num, den, SCALE as int);
    lemma_tdiv_upper(num * (SCALE as int), den, SCALE as int);
}

/// One level of the Cox–de Boor triangle over a working window
/// `base[0..=degree]`: level `0` is the window itself, and level `r`
/// at column `j` blends the two entries below it.
pub open spec fn spec_de_boor(
    base: Seq<Seq<int>>,
    kb: Seq<int>,
    k: int,
    degree: int,
    u: int,
    r: int,
    j: int,
) -> Seq<int>
    decreases r,
{
    if r <= 0 {
        base[j]
    } else {
        spec_blend(
            spec_de_boor(base, kb, k, degree, u, r - 1, j - 1),
            spec_de_boor(base, kb, k, degree, u, r - 1, j),
            spec_alpha(kb, k, degree, r, j, u),
        )
    }
}

/// The views of a sequence of points.
pub open spec fn views_of(s: Seq<crate::vector::Vector>) -> Seq<Seq<int>> {
    s.map_values(|p: crate::vector::Vector| p@)
}

/// Knot bits are the knot values scaled, and scaling keeps the order.
pub proof fn lemma_knot_bits(ks: Seq<int>)
    ensures
        knot_bits(ks).len() == ks.len(),
        forall|i: int| 0 <= i < ks.len() ==> #[trigger] knot_bits(ks)[i] == ks[i] * SCALE,
        knots_sorted(ks) ==> knots_sorted(knot_bits(ks)),
{
    if knots_sorted(ks) {
        assert forall|i: int, j: int|
            0 <= i <= j < knot_bits(ks).len() implies knot_bits(ks)[i] <= knot_bits(ks)[j] by {
            assert(ks[i] <= ks[j]);
        }
    }
}

/// Taking the integer part of a fixed-point parameter lands in the same
/// knot span, now stated over knot bits.
pub proof fn lemma_floor_span(ks: Seq<int>, degree: int, u: int)
    requires
        eval_ready(ks, degree),
        forall|i: int| 0 <= i < ks.len() ==> 0 <= #[trigger] ks[i] <= KNOT_LIMIT,
        ks[degree] * SCALE <= u <= ks[ks.len() - degree - 1] * SCALE,
    ensures
        ({
            let fu = u / (SCALE as int);
            let k = spec_find_span(ks, degree, fu);
            &&& ks[degree] <= fu <= ks[ks.len() - degree - 1]
            &&& degree <= k <= ks.len() - degree - 2
            &&& knot_bits(ks)[k] <= u <= knot_bits(ks)[k + 1]
            &&& knot_bits(ks)[k] < knot_bits(ks)[k + 1]
        }),
{
    let s = SCALE as int;
    let n = ks.len() - degree - 1;
    let fu = u / s;
    assert(0 <= u);
    lemma_div_is_ordered(ks[degree] * s, u, s);
    lemma_div_multiples_vanish(ks[degree], s);
    lemma_div_is_ordered(u, ks[n] * s, s);
    lemma_div_multiples_vanish(ks[n], s);
    assert(ks[degree] <= fu <= ks[n]);
    lemma_span_props(ks, degree, fu);
    let k = spec_find_span(ks, degree, fu);
    lemma_knot_bits(ks);
    lemma_fundamental_div_mod(u, s);
    assert(fu * s <= u) by {
        assert(u == s * fu + u % s);
        assert(u % s >= 0);
        assert(s * fu == fu * s);
    }
    assert(knot_bits(ks)[k] <= u) by {
        assert(ks[k] <= fu);
        lemma_mul_inequality(ks[k], fu, s);
    }
    if fu == ks[n] {
        assert(u <= ks[n] * s);
        assert(u == fu * s);
        assert(fu <= ks[k + 1]);
        lemma_mul_inequality(fu, ks[k + 1], s);
    } else {
        assert(fu < ks[k + 1]);
        assert(u < s * (fu + 1)) by {
            assert(u == s * fu + u % s);
            assert(u % s < s);
            assert(s * (fu + 1) == s * fu + s) by (nonlinear_arith);
        }
        assert(fu + 1 <= ks[k + 1]);
        lemma_mul_inequality(fu + 1, ks[k + 1], s);
        assert(s * (fu + 1) == (fu + 1) * s);
    }
}

/// The blending factor of the original recurrence, computed over an
/// integer knot vector.
pub fn alpha(u: Fixed, knot_span: usize, degree: usize, r: usize, j: usize, knots: &Knots) -> (a:
    i64)
    requires
        knots.wf(),
        1 <= r <= j <= degree,
        degree <= knot_span,
        knot_span + degree + 1 < knots@.len(),
        knot_bits(knots@)[knot_span as int] <= u.bits,
        u.bits <= knot_bits(knots@)[knot_span as int + 1],
        knot_bits(knots@)[knot_span as int] < knot_bits(knots@)[knot_span as int + 1],
    ensures
        a as int == spec_alpha(
            knot_bits(knots@),
            knot_span as int,
            degree as int,
            r as int,
            j as int,
            u.bits as int,
        ),
        0 <= a <= SCALE,
{
    proof {
        lemma_knot_bits(knots@);
        lemma_alpha_bounds(
            knot_bits(knots@),
            knot_span as int,
            degree as int,
            r as int,
            j as int,
            u.bits as int,
        );
    }
    let kp: usize = knots.knot(j + knot_span - degree);
    let kp1: usize = knots.knot(1 + j + knot_span - r);
    let kp_bits: i64 = (kp as i64) * SCALE;
    let kp1_bits: i64 = (kp1 as i64) * SCALE;
    proof {
        assert(knots@[j + knot_span - degree] <= knots@[knot_span as int]);
        assert(knots@[1 + j + knot_span - r] >= knots@[knot_span as int + 1]);
        assert(kp_bits as int == knot_bits(knots@)[j + knot_span - degree]);
        assert(kp1_bits as int == knot_bits(knots@)[1 + j + knot_span - r]);
        assert(kp_bits <= knot_bits(knots@)[knot_span as int]);
        assert(kp1_bits >= knot_bits(knots@)[knot_span as int + 1]);
    }
    let num: i64 = u.bits - kp_bits;
    let den: i64 = kp1_bits - kp_bits;
    let q: u64 = ((num as u64) * 65536) / (den as u64);
    proof {
        lemma_div_is_ordered(num as int * 65536, den as int * 65536, den as int);
        lemma_div_by_multiple(65536, den as int);
        assert(den as int * 65536 == 65536 * den as int);
        assert(q as int == tdiv(num as int * (SCALE as int), den as int));
    }
    q as i64
}

/// A window of points fit for blending: equal dimensions, coordinates
/// within the symmetric bound `m`.
pub open spec fn window_ok(d: Seq<Vector>, dim: int, m: int) -> bool {
    forall|i: int|
        0 <= i < d.len() ==> (#[trigger] d[i])@.len() == dim && d[i].in_bounds(m)
}

/// Run the triangular Cox-de Boor blending pass in place over the
/// working window `d`. Afterward slot `j` holds level `j` of the
/// triangle at column `j`; the blended point of the whole window is the
/// last slot.
pub fn cox_de_boor(
    u: Fixed,
    degree: usize,
    k: usize,
    knots: &Knots,
    d: &mut Vec<Vector>,
    Ghost(dim): Ghost<int>,
    Ghost(m): Ghost<int>,
)
    requires
        knots.wf(),
        1 <= degree,
        degree <= k,
        k + degree + 1 < knots@.len(),
        knot_bits(knots@)[k as int] <= u.bits,
        u.bits <= knot_bits(knots@)[k as int + 1],
        knot_bits(knots@)[k as int] < knot_bits(knots@)[k as int + 1],
        old(d)@.len() == degree + 1,
        window_ok(old(d)@, dim, m),
        0 <= m <= HOMOG_LIMIT,
    ensures
        final(d)@.len() == degree + 1,
        window_ok(final(d)@, dim, m),
        forall|j: int|
            0 <= j <= degree ==> (#[trigger] final(d)@[j])@ == spec_de_boor(
                views_of(old(d)@),
                knot_bits(knots@),
                k as int,
                degree as int,
                u.bits as int,
                j,
                j,
            ),
{
    let ghost base = views_of(old(d)@);
    let ghost kb = knot_bits(knots@);
    let mut r: usize = 1;
    while r <= degree
        invariant
            knots.wf(),
            1 <= degree,
            degree <= k,
            k + degree + 1 < knots@.len(),
            knot_bits(knots@)[k as int] <= u.bits,
            u.bits <= knot_bits(knots@)[k as int + 1],
            knot_bits(knots@)[k as int] < knot_bits(knots@)[k as int + 1],
            kb == knot_bits(knots@),
            base == views_of(old(d)@),
            1 <= r <= degree + 1,
            d@.len() == degree + 1,
            window_ok(d@, dim, m),
            0 <= m <= HOMOG_LIMIT,
            forall|jj: int|
                0 <= jj <= degree ==> (#[trigger] d@[jj])@ == (if jj < r {
                    spec_de_boor(base, kb, k as int, degree as int, u.bits as int, jj, jj)
                } else {
                    spec_de_boor(base, kb, k as int, degree as int, u.bits as int, r - 1, jj)
                }),
        decreases degree + 1 - r,
    {
        let mut j: usize = degree;
        while j >= r
            invariant
                knots.wf(),
                1 <= degree,
                degree <= k,
                k + degree + 1 < knots@.len(),
                knot_bits(knots@)[k as int] <= u.bits,
                u.bits <= knot_bits(knots@)[k as int + 1],
                knot_bits(knots@)[k as int] < knot_bits(knots@)[k as int + 1],
                kb == knot_bits(knots@),
                base == views_of(old(d)@),
                1 <= r <= degree,
                r - 1 <= j <= degree,
                d@.len() == degree + 1,
                window_ok(d@, dim, m),
                0 <= m <= HOMOG_LIMIT,
                forall|jj: int|
                    0 <= jj <= degree ==> (#[trigger] d@[jj])@ == (if jj > j {
                        spec_de_boor(base, kb, k as int, degree as int, u.bits as int, r as int, jj)
                    } else if jj < r {
                        spec_de_boor(base, kb, k as int, degree as int, u.bits as int, jj, jj)
                    } else {
                        spec_de_boor(base, kb, k as int, degree as int, u.bits as int, r - 1, jj)
                    }),
            decreases j,
        {
            let a: i64 = alpha(u, k, degree, r, j, knots);
            let nv: Vector = Vector::blend(&d[j - 1], &d[j], a, Ghost(m));
            proof {
                assert(nv@ == spec_de_boor(
                    base,
                    kb,
                    k as int,
                    degree as int,
                    u.bits as int,
                    r as int,
                    j as int,
                ));
            }
            d.set(j, nv);
            j = j - 1;
        }
        r = r + 1;
    }
}

/// The physical control points share one dimension (at least one) and
/// stay within the coordinate limit.
pub open spec fn points_uniform(ps: Seq<Vector>, dim: int) -> bool {
    &&& 1 <= dim
    &&& forall|i: int|
        0 <= i < ps.len() ==> (#[trigger] ps[i])@.len() == dim && ps[i].in_bounds(
            COORD_LIMIT as int,
        )
}

/// The control points a curve evaluates over, wrap-around applied.
pub open spec fn logical_points(cv: ControlVec<Vector>) -> Seq<Seq<int>> {
    Seq::new(cv.spec_len() as nat, |i: int| cv.spec_at(i)@)
}

/// A knot vector and a control vec that fit together for evaluation.
pub open spec fn curve_ready(knots: Knots, cv: ControlVec<Vector>, dim: int) -> bool {
    &&& knots.wf()
    &&& 1 <= knots.spec_degree()
    &&& cv.spec_degree() == knots.spec_degree()
    &&& 1 <= cv.spec_points().len()
    &&& knots.spec_degree() < cv.spec_len()
    &&& knots@.len() == cv.spec_len() + knots.spec_degree() + 1
    &&& knots@[knots.spec_degree()] < knots@[knots@.len() - knots.spec_degree() - 1]
    &&& points_uniform(cv.spec_points(), dim)
}

/// The blended point of a curve at parameter `u` (in fixed-point bits):
/// the de Boor triangle over the window of logical control points
/// around the span of `u`.
pub open spec fn spec_curve_point(pts: Seq<Seq<int>>, ks: Seq<int>, degree: int, u: int) -> Seq<
    int,
> {
    let k = spec_find_span(ks, degree, u / (SCALE as int));
    let base = Seq::new((degree + 1) as nat, |j: int| pts[k - degree + j]);
    spec_de_boor(base, knot_bits(ks), k, degree, u, degree, degree)
}

/// Logical control points keep the dimension and bounds of the stored ones.
pub proof fn lemma_logical_uniform(cv: ControlVec<Vector>, dim: int)
    requires
        points_uniform(cv.spec_points(), dim),
        cv.spec_points().len() >= 1,
    ensures
        forall|i: int|
            0 <= i < cv.spec_len() ==> (#[trigger] logical_points(cv)[i]).len() == dim,
{
    assert forall|i: int|
        0 <= i < cv.spec_len() implies (#[trigger] logical_points(cv)[i]).len() == dim by {
        if cv.spec_wrapping() {
            lemma_mod_bound(i, cv.spec_points().len() as int);
        }
    }
}

/// Evaluate a curve: blend the control points around the span of `u`
/// with the Cox-de Boor recurrence.
pub fn cox_de_boor_u(
    u: Fixed,
    degree: usize,
    knots: &Knots,
    control_points: &ControlVec<Vector>,
    Ghost(dim): Ghost<int>,
) -> (r: Vector)
    requires
        curve_ready(*knots, *control_points, dim),
        degree == knots.spec_degree(),
        knots@[degree as int] * SCALE <= u.bits,
        u.bits <= knots@[knots@.len() - degree - 1] * SCALE,
    ensures
        r@ == spec_curve_point(
            logical_points(*control_points),
            knots@,
            degree as int,
            u.bits as int,
        ),
        r@.len() == dim,
        r.in_bounds(COORD_LIMIT as int),
{
    proof {
        lemma_floor_span(knots@, degree as int, u.bits as int);
        lemma_knot_bits(knots@);
        assert(knots@[degree as int] >= 0);
        assert(knots@[knots@.len() - degree - 1] <= KNOT_LIMIT);
        assert(knots@[knots@.len() - degree - 1] * SCALE <= COORD_LIMIT);
        assert(knots@[degree as int] * SCALE >= 0);
    }
    let fu: usize = u.floor_usize();
    let k: usize = knots.find_span(fu);
    let ghost pts = logical_points(*control_points);
    let ghost base = Seq::new((degree + 1) as nat, |j: int| pts[k - degree + j]);
    proof {
        lemma_logical_uniform(*control_points, dim);
    }
    let mut d: Vec<Vector> = Vec::new();
    let mut j: usize = 0;
    while j < degree + 1
        invariant
            j <= degree + 1,
            curve_ready(*knots, *control_points, dim),
            degree == knots.spec_degree(),
            degree <= k <= knots@.len() - degree - 2,
            base == Seq::new((degree + 1) as nat, |jj: int| pts[k - degree + jj]),
            pts == logical_points(*control_points),
            forall|i: int|
                0 <= i < control_points.spec_len() ==> (#[trigger] pts[i]).len() == dim,
            d@.len() == j,
            forall|jj: int| 0 <= jj < j ==> (#[trigger] d@[jj])@ == base[jj],
            window_ok(d@, dim, COORD_LIMIT as int),
        decreases degree + 1 - j,
    {
        let i: usize = k - degree + j;
        let p: Vector = control_points.at(i).duplicate();
        proof {
            if control_points.spec_wrapping() {
                lemma_mod_bound(i as int, control_points.spec_points().len() as int);
            }
            assert(p@ == pts[i as int]);
            assert(p@ == base[j as int]);
        }
        d.push(p);
        j = j + 1;
    }
    proof {
        assert(views_of(d@) =~= base);
    }
    cox_de_boor(u, degree, k, knots, &mut d, Ghost(dim), Ghost(COORD_LIMIT as int));
    let r: Vector = match d.pop() {
        Some(p) => p,
        None => Vector::new(Vec::new()),
    };
    proof {
        assert(r@ == spec_de_boor(
            base,
            knot_bits(knots@),
            k as int,
            degree as int,
            u.bits as int,
            degree as int,
            degree as int,
        ));
    }
    r
}

/// Check that a list of points shares the dimension of its first point,
/// with every coordinate inside the coordinate limit.
pub fn check_points_uniform(ps: &Vec<Vector>) -> (ok: bool)
    requires
        ps@.len() >= 1,
    ensures
        ok == points_uniform(ps@, ps@[0]@.len() as int),
{
    let dim: usize = ps[0].dim();
    if dim == 0 {
        return false;
    }
    let n: usize = ps.len();
    let mut i: usize = 0;
    while i < n
        invariant
            i <= n,
            n == ps@.len(),
            1 <= n,
            1 <= dim,
            dim == ps@[0]@.len(),
            forall|t: int|
                0 <= t < i ==> (#[trigger] ps@[t])@.len() == dim && ps@[t].in_bounds(
                    COORD_LIMIT as int,
                ),
        decreases n - i,
    {
        let p: &Vector = &ps[i];
        if p.dim() != dim {
            proof {
                assert(ps@[i as int]@.len() != dim);
                assert(!points_uniform(ps@, ps@[0]@.len() as int));
            }
            return false;
        }
        let mut c: usize = 0;
        while c < dim
            invariant
                c <= dim,
                i < n,
                n == ps@.len(),
                dim == ps@[0]@.len(),
                *p == ps@[i as int],
                dim == p@.len(),
                forall|t: int|
                    0 <= t < c ==> -(COORD_LIMIT as int) <= #[trigger] p@[t] <= COORD_LIMIT as int,
            decreases dim - c,
        {
            let b: i64 = p.coord(c).bits;
            if b < -COORD_LIMIT || b > COORD_LIMIT {
                proof {
                    assert(!p.in_bounds(COORD_LIMIT as int));
                    assert(ps@[i as int] == *p);
                    assert(!points_uniform(ps@, ps@[0]@.len() as int));
                }
                return false;
            }
            c = c + 1;
        }
        proof {
            assert(p.in_bounds(COORD_LIMIT as int));
        }
        i = i + 1;
    }
    true
}

/// The logical control points of a rational curve, taken to their
/// homogeneous (weighted) form.
pub open spec fn weighted_logical(cv: ControlVec<Vector>) -> Seq<Seq<int>> {
    Seq::new(cv.spec_len() as nat, |i: int| spec_weighted(cv.spec_at(i)@))
}

/// Evaluate the homogeneous form of a rational curve: the control
/// points are weighted before blending.
pub fn cox_de_boor_u_weighted(
    u: Fixed,
    degree: usize,
    knots: &Knots,
    control_points: &ControlVec<Vector>,
    Ghost(dim): Ghost<int>,
) -> (r: Vector)
    requires
        curve_ready(*knots, *control_points, dim),
        degree == knots.spec_degree(),
        2 <= dim,
        knots@[degree as int] * SCALE <= u.bits,
        u.bits <= knots@[knots@.len() - degree - 1] * SCALE,
    ensures
        r@ == spec_curve_point(
            weighted_logical(*control_points),
            knots@,
            degree as int,
            u.bits as int,
        ),
        r@.len() == dim,
        r.in_bounds(HOMOG_LIMIT as int),
{
    proof {
        lemma_floor_span(knots@, degree as int, u.bits as int);
        lemma_knot_bits(knots@);
        assert(knots@[knots@.len() - degree - 1] * SCALE <= COORD_LIMIT);
        assert(knots@[degree as int] * SCALE >= 0);
    }
    let fu: usize = u.floor_usize();
    let k: usize = knots.find_span(fu);
    let ghost pts = weighted_logical(*control_points);
    let ghost base = Seq::new((degree + 1) as nat, |j: int| pts[k - degree + j]);
    let mut d: Vec<Vector> = Vec::new();
    let mut j: usize = 0;
    while j < degree + 1
        invariant
            j <= degree + 1,
            curve_ready(*knots, *control_points, dim),
            2 <= dim,
            degree == knots.spec_degree(),
            degree <= k <= knots@.len() - degree - 2,
            base == Seq::new((degree + 1) as nat, |jj: int| pts[k - degree + jj]),
            pts == weighted_logical(*control_points),
            d@.len() == j,
            forall|jj: int| 0 <= jj < j ==> (#[trigger] d@[jj])@ == base[jj],
            window_ok(d@, dim, HOMOG_LIMIT as int),
        decreases degree + 1 - j,
    {
        let i: usize = k - degree + j;
        let p: Vector = control_points.at(i).weighted();
        proof {
            if control_points.spec_wrapping() {
                lemma_mod_bound(i as int, control_points.spec_points().len() as int);
            }
            assert(p@ == pts[i as int]);
            assert(p@ == base[j as int]);
        }
        d.push(p);
        j = j + 1;
    }
    proof {
        assert(views_of(d@) =~= base);
    }
    cox_de_boor(u, degree, k, knots, &mut d, Ghost(dim), Ghost(HOMOG_LIMIT as int));
    let r: Vector = match d.pop() {
        Some(p) => p,
        None => Vector::new(Vec::new()),
    };
    r
}

/// The control points a surface evaluates over, wrap-around applied on
/// each axis: rows indexed by `v`, entries by `u`.
pub open spec fn logical_grid(g: ControlGrid<Vector>) -> Seq<Seq<Seq<int>>> {
    Seq::new(
        g.spec_v_len() as nat,
        |vi: int| Seq::new(g.spec_u_len() as nat, |ui: int| g.spec_at(ui, vi)@),
    )
}

/// The grid's stored points share one dimension and stay in range.
pub open spec fn grid_points_uniform(g: ControlGrid<Vector>, dim: int) -> bool {
    points_uniform(g.spec_values(), dim)
}

/// Knot vectors and a control grid that fit together for evaluation.
pub open spec fn surface_ready(
    u_knots: Knots,
    v_knots: Knots,
    g: ControlGrid<Vector>,
    dim: int,
) -> bool {
    &&& u_knots.wf()
    &&& v_knots.wf()
    &&& 1 <= g.spec_degree()
    &&& u_knots.spec_degree() == g.spec_degree()
    &&& v_knots.spec_degree() == g.spec_degree()
    &&& g.complete()
    &&& 1 <= g.spec_v_phys()
    &&& g.spec_degree() < g.spec_u_len()
    &&& g.spec_degree() < g.spec_v_len()
    &&& u_knots@.len() == g.spec_u_len() + g.spec_degree() + 1
    &&& v_knots@.len() == g.spec_v_len() + g.spec_degree() + 1
    &&& u_knots@[g.spec_degree()] < u_knots@[u_knots@.len() - g.spec_degree() - 1]
    &&& v_knots@[g.spec_degree()] < v_knots@[v_knots@.len() - g.spec_degree() - 1]
    &&& grid_points_uniform(g, dim)
}

/// The blended point of a tensor-product surface at `(u, v)` (in
/// fixed-point bits): the curve recurrence along `u` for each of the
/// `degree + 1` rows around the span, then once more along `v` over
/// those row results.
pub open spec fn spec_surface_point(
    grid: Seq<Seq<Seq<int>>>,
    uks: Seq<int>,
    vks: Seq<int>,
    degree: int,
    u: int,
    v: int,
) -> Seq<int> {
    let uk = spec_find_span(uks, degree, u / (SCALE as int));
    let vk = spec_find_span(vks, degree, v / (SCALE as int));
    let rows = Seq::new(
        (degree + 1) as nat,
        |j: int|
            spec_de_boor(
                Seq::new((degree + 1) as nat, |i: int| grid[vk - degree + j][uk - degree + i]),
                knot_bits(uks),
                uk,
                degree,
                u,
                degree,
                degree,
            ),
    );
    spec_de_boor(rows, knot_bits(vks), vk, degree, v, degree, degree)
}

/// Every logical grid point keeps the stored dimension and bounds.
pub proof fn lemma_logical_grid_uniform(g: ControlGrid<Vector>, dim: int)
    requires
        grid_points_uniform(g, dim),
        g.complete(),
        1 <= g.spec_v_phys(),
    ensures
        forall|vi: int, ui: int|
            0 <= vi < g.spec_v_len() && 0 <= ui < g.spec_u_len() ==> (#[trigger] logical_grid(
                g,
            )[vi][ui]).len() == dim,
{
    assert forall|vi: int, ui: int|
        0 <= vi < g.spec_v_len() && 0 <= ui < g.spec_u_len() implies (#[trigger] logical_grid(
        g,
    )[vi][ui]).len() == dim by {
        let uu = if g.spec_u_wrapping() {
            ui % g.spec_u_phys()
        } else {
            ui
        };
        let vv = if g.spec_v_wrapping() {
            vi % g.spec_v_phys()
        } else {
            vi
        };
        if g.spec_u_wrapping() {
            lemma_mod_bound(ui, g.spec_u_phys());
        }
        if g.spec_v_wrapping() {
            lemma_mod_bound(vi, g.spec_v_phys());
        }
        lemma_row_major_index(g.spec_u_phys(), g.spec_v_phys(), uu, vv);
        lemma_fundamental_div_mod(g.spec_values().len() as int, g.spec_u_phys());
        assert(g.spec_v_phys() * g.spec_u_phys() == g.spec_u_phys() * g.spec_v_phys())
            by (nonlinear_arith);
        assert(logical_grid(g)[vi][ui] == g.spec_at(ui, vi)@);
    }
}

/// Evaluate a tensor-product surface at the coordinate `uv`.
pub fn cox_de_boor_uv(
    uv: (Fixed, Fixed),
    degree: usize,
    u_knots: &Knots,
    v_knots: &Knots,
    control_points: &ControlGrid<Vector>,
    Ghost(dim): Ghost<int>,
) -> (r: Vector)
    requires
        surface_ready(*u_knots, *v_knots, *control_points, dim),
        degree == control_points.spec_degree(),
        u_knots@[degree as int] * SCALE <= uv.0.bits,
        uv.0.bits <= u_knots@[u_knots@.len() - degree - 1] * SCALE,
        v_knots@[degree as int] * SCALE <= uv.1.bits,
        uv.1.bits <= v_knots@[v_knots@.len() - degree - 1] * SCALE,
    ensures
        r@ == spec_surface_point(
            logical_grid(*control_points),
            u_knots@,
            v_knots@,
            degree as int,
            uv.0.bits as int,
            uv.1.bits as int,
        ),
        r@.len() == dim,
        r.in_bounds(COORD_LIMIT as int),
{
    let (u, v) = uv;
    proof {
        lemma_floor_span(u_knots@, degree as int, u.bits as int);
        lemma_floor_span(v_knots@, degree as int, v.bits as int);
        lemma_knot_bits(u_knots@);
        lemma_knot_bits(v_knots@);
        lemma_logical_grid_uniform(*control_points, dim);
        assert(u_knots@[u_knots@.len() - degree - 1] * SCALE <= COORD_LIMIT);
        assert(u_knots@[degree as int] * SCALE >= 0);
        assert(v_knots@[v_knots@.len() - degree - 1] * SCALE <= COORD_LIMIT);
        assert(v_knots@[degree as int] * SCALE >= 0);
    }
    let u_k: usize = u_knots.find_span(u.floor_usize());
    let v_k: usize = v_knots.find_span(v.floor_usize());
    let ghost gl = logical_grid(*control_points);
    let ghost row_of = |j: int|
        spec_de_boor(
            Seq::new((degree + 1) as nat, |i: int| gl[v_k - degree + j][u_k - degree + i]),
            knot_bits(u_knots@),
            u_k as int,
            degree as int,
            u.bits as int,
            degree as int,
            degree as int,
        );
    let mut rows: Vec<Vector> = Vec::new();
    let mut j: usize = 0;
    while j < degree + 1
        invariant
            j <= degree + 1,
            surface_ready(*u_knots, *v_knots, *control_points, dim),
            degree == control_points.spec_degree(),
            degree <= u_k <= u_knots@.len() - degree - 2,
            degree <= v_k <= v_knots@.len() - degree - 2,
            knot_bits(u_knots@)[u_k as int] <= u.bits,
            u.bits <= knot_bits(u_knots@)[u_k as int + 1],
            knot_bits(u_knots@)[u_k as int] < knot_bits(u_knots@)[u_k as int + 1],
            gl == logical_grid(*control_points),
            forall|vi: int, ui: int|
                0 <= vi < control_points.spec_v_len() && 0 <= ui < control_points.spec_u_len()
                    ==> (#[trigger] gl[vi][ui]).len() == dim,
            row_of == (|jj: int|
                spec_de_boor(
                    Seq::new(
                        (degree + 1) as nat,
                        |i: int| gl[v_k - degree + jj][u_k - degree + i],
                    ),
                    knot_bits(u_knots@),
                    u_k as int,
                    degree as int,
                    u.bits as int,
                    degree as int,
                    degree as int,
                )),
            rows@.len() == j,
            forall|t: int| 0 <= t < j ==> (#[trigger] rows@[t])@ == row_of(t),
            window_ok(rows@, dim, COORD_LIMIT as int),
        decreases degree + 1 - j,
    {
        let ghost base = Seq::new(
            (degree + 1) as nat,
            |i: int| gl[v_k - degree + j][u_k - degree + i],
        );
        let mut d: Vec<Vector> = Vec::new();
        let mut i: usize = 0;
        while i < degree + 1
            invariant
                i <= degree + 1,
                j <= degree,
                surface_ready(*u_knots, *v_knots, *control_points, dim),
                degree == control_points.spec_degree(),
                degree <= u_k <= u_knots@.len() - degree - 2,
                degree <= v_k <= v_knots@.len() - degree - 2,
                gl == logical_grid(*control_points),
                forall|vi: int, ui: int|
                    0 <= vi < control_points.spec_v_len() && 0 <= ui
                        < control_points.spec_u_len() ==> (#[trigger] gl[vi][ui]).len() == dim,
                base == Seq::new(
                    (degree + 1) as nat,
                    |ii: int| gl[v_k - degree + j][u_k - degree + ii],
                ),
                d@.len() == i,
                forall|t: int| 0 <= t < i ==> (#[trigger] d@[t])@ == base[t],
                window_ok(d@, dim, COORD_LIMIT as int),
            decreases degree + 1 - i,
        {
            let ui: usize = u_k - degree + i;
            let vi: usize = v_k - degree + j;
            let p: Vector = control_points.at((ui, vi)).duplicate();
            proof {
                assert(gl[vi as int][ui as int] == control_points.spec_at(ui as int, vi as int)@);
                assert(p@ == base[i as int]);
                if control_points.spec_u_wrapping() {
                    lemma_mod_bound(ui as int, control_points.spec_u_phys());
                }
                if control_points.spec_v_wrapping() {
                    lemma_mod_bound(vi as int, control_points.spec_v_phys());
                }
                lemma_fundamental_div_mod(
                    control_points.spec_values().len() as int,
                    control_points.spec_u_phys(),
                );
                assert(control_points.spec_v_phys() * control_points.spec_u_phys()
                    == control_points.spec_u_phys() * control_points.spec_v_phys())
                    by (nonlinear_arith);
                let uu = if control_points.spec_u_wrapping() {
                    ui as int % control_points.spec_u_phys()
                } else {
                    ui as int
                };
                let vv = if control_points.spec_v_wrapping() {
                    vi as int % control_points.spec_v_phys()
                } else {
                    vi as int
                };
                lemma_row_major_index(
                    control_points.spec_u_phys(),
                    control_points.spec_v_phys(),
                    uu,
                    vv,
                );
            }
            d.push(p);
            i = i + 1;
        }
        proof {
            assert(views_of(d@) =~= base);
        }
        cox_de_boor(u, degree, u_k, u_knots, &mut d, Ghost(dim), Ghost(COORD_LIMIT as int));
        let rp: Vector = match d.pop() {
            Some(p) => p,
            None => Vector::new(Vec::new()),
        };
        proof {
            assert(rp@ == row_of(j as int));
        }
        rows.push(rp);
        j = j + 1;
    }
    proof {
        assert(views_of(rows@) =~= Seq::new((degree + 1) as nat, |jj: int| row_of(jj)));
    }
    cox_de_boor(v, degree, v_k, v_knots, &mut rows, Ghost(dim), Ghost(COORD_LIMIT as int));
    let r: Vector = match rows.pop() {
        Some(p) => p,
        None => Vector::new(Vec::new()),
    };
    proof {
        assert(Seq::new((degree + 1) as nat, |jj: int| row_of(jj)) =~= Seq::new(
            (degree + 1) as nat,
            |jj: int|
                spec_de_boor(
                    Seq::new(
                        (degree + 1) as nat,
                        |i: int| gl[v_k - degree + jj][u_k - degree + i],
                    ),
                    knot_bits(u_knots@),
                    u_k as int,
                    degree as int,
                    u.bits as int,
                    degree as int,
                    degree as int,
                ),
        ));
    }
    r
}


/// The logical control grid of a rational surface, each point taken to
/// its homogeneous (weighted) form.
pub open spec fn weighted_logical_grid(g: ControlGrid<Vector>) -> Seq<Seq<Seq<int>>> {
    Seq::new(
        g.spec_v_len() as nat,
        |vi: int|
            Seq::new(g.spec_u_len() as nat, |ui: int| spec_weighted(g.spec_at(ui, vi)@)),
    )
}

/// Every weighted logical grid point keeps the stored dimension.
pub proof fn lemma_weighted_logical_grid_uniform(g: ControlGrid<Vector>, dim: int)
    requires
        grid_points_uniform(g, dim),
        g.complete(),
        1 <= g.spec_v_phys(),
    ensures
        forall|vi: int, ui: int|
            0 <= vi < g.spec_v_len() && 0 <= ui < g.spec_u_len()
                ==> (#[trigger] weighted_logical_grid(g)[vi][ui]).len() == dim,
{
    assert forall|vi: int, ui: int|
        0 <= vi < g.spec_v_len() && 0 <= ui < g.spec_u_len()
            implies (#[trigger] weighted_logical_grid(g)[vi][ui]).len() == dim by {
        let uu = if g.spec_u_wrapping() {
            ui % g.spec_u_phys()
        } else {
            ui
        };
        let vv = if g.spec_v_wrapping() {
            vi % g.spec_v_phys()
        } else {
            vi
        };
        if g.spec_u_wrapping() {
            lemma_mod_bound(ui, g.spec_u_phys());
        }
        if g.spec_v_wrapping() {
            lemma_mod_bound(vi, g.spec_v_phys());
        }
        lemma_row_major_index(g.spec_u_phys(), g.spec_v_phys(), uu, vv);
        lemma_fundamental_div_mod(g.spec_values().len() as int, g.spec_u_phys());
        assert(g.spec_v_phys() * g.spec_u_phys() == g.spec_u_phys() * g.spec_v_phys())
            by (nonlinear_arith);
        assert(weighted_logical_grid(g)[vi][ui] == spec_weighted(g.spec_at(ui, vi)@));
    }
}

/// Evaluate the homogeneous form of a rational surface at `uv`: the
/// control points are weighted before blending.
pub fn cox_de_boor_uv_weighted(
    uv: (Fixed, Fixed),
    degree: usize,
    u_knots: &Knots,
    v_knots: &Knots,
    control_points: &ControlGrid<Vector>,
    Ghost(dim): Ghost<int>,
) -> (r: Vector)
    requires
        surface_ready(*u_knots, *v_knots, *control_points, dim),
        degree == control_points.spec_degree(),
        2 <= dim,
        u_knots@[degree as int] * SCALE <= uv.0.bits,
        uv.0.bits <= u_knots@[u_knots@.len() - degree - 1] * SCALE,
        v_knots@[degree as int] * SCALE <= uv.1.bits,
        uv.1.bits <= v_knots@[v_knots@.len() - degree - 1] * SCALE,
    ensures
        r@ == spec_surface_point(
            weighted_logical_grid(*control_points),
            u_knots@,
            v_knots@,
            degree as int,
            uv.0.bits as int,
            uv.1.bits as int,
        ),
        r@.len() == dim,
        r.in_bounds(HOMOG_LIMIT as int),
{
    let (u, v) = uv;
    proof {
        lemma_floor_span(u_knots@, degree as int, u.bits as int);
        lemma_floor_span(v_knots@, degree as int, v.bits as int);
        lemma_knot_bits(u_knots@);
        lemma_knot_bits(v_knots@);
        lemma_weighted_logical_grid_uniform(*control_points, dim);
        assert(u_knots@[u_knots@.len() - degree - 1] * SCALE <= COORD_LIMIT);
        assert(u_knots@[degree as int] * SCALE >= 0);
        assert(v_knots@[v_knots@.len() - degree - 1] * SCALE <= COORD_LIMIT);
        assert(v_knots@[degree as int] * SCALE >= 0);
    }
    let u_k: usize = u_knots.find_span(u.floor_usize());
    let v_k: usize = v_knots.find_span(v.floor_usize());
    let ghost gl = weighted_logical_grid(*control_points);
    let ghost row_of = |j: int|
        spec_de_boor(
            Seq::new((degree + 1) as nat, |i: int| gl[v_k - degree + j][u_k - degree + i]),
            knot_bits(u_knots@),
            u_k as int,
            degree as int,
            u.bits as int,
            degree as int,
            degree as int,
        );
    let mut rows: Vec<Vector> = Vec::new();
    let mut j: usize = 0;
    while j < degree + 1
        invariant
            j <= degree + 1,
            surface_ready(*u_knots, *v_knots, *control_points, dim),
            degree == control_points.spec_degree(),
            2 <= dim,
            degree <= u_k <= u_knots@.len() - degree - 2,
            degree <= v_k <= v_knots@.len() - degree - 2,
            knot_bits(u_knots@)[u_k as int] <= u.bits,
            u.bits <= knot_bits(u_knots@)[u_k as int + 1],
            knot_bits(u_knots@)[u_k as int] < knot_bits(u_knots@)[u_k as int + 1],
            gl == weighted_logical_grid(*control_points),
            forall|vi: int, ui: int|
                0 <= vi < control_points.spec_v_len() && 0 <= ui < control_points.spec_u_len()
                    ==> (#[trigger] gl[vi][ui]).len() == dim,
            row_of == (|jj: int|
                spec_de_boor(
                    Seq::new(
                        (degree + 1) as nat,
                        |i: int| gl[v_k - degree + jj][u_k - degree + i],
                    ),
                    knot_bits(u_knots@),
                    u_k as int,
                    degree as int,
                    u.bits as int,
                    degree as int,
                    degree as int,
                )),
            rows@.len() == j,
            forall|t: int| 0 <= t < j ==> (#[trigger] rows@[t])@ == row_of(t),
            window_ok(rows@, dim, HOMOG_LIMIT as int),
        decreases degree + 1 - j,
    {
        let ghost base = Seq::new(
            (degree + 1) as nat,
            |i: int| gl[v_k - degree + j][u_k - degree + i],
        );
        let mut d: Vec<Vector> = Vec::new();
        let mut i: usize = 0;
        while i < degree + 1
            invariant
                i <= degree + 1,
                j <= degree,
                surface_ready(*u_knots, *v_knots, *control_points, dim),
                degree == control_points.spec_degree(),
                2 <= dim,
                degree <= u_k <= u_knots@.len() - degree - 2,
                degree <= v_k <= v_knots@.len() - degree - 2,
                gl == weighted_logical_grid(*control_points),
                forall|vi: int, ui: int|
                    0 <= vi < control_points.spec_v_len() && 0 <= ui
                        < control_points.spec_u_len() ==> (#[trigger] gl[vi][ui]).len() == dim,
                base == Seq::new(
                    (degree + 1) as nat,
                    |ii: int| gl[v_k - degree + j][u_k - degree + ii],
                ),
                d@.len() == i,
                forall|t: int| 0 <= t < i ==> (#[trigger] d@[t])@ == base[t],
                window_ok(d@, dim, HOMOG_LIMIT as int),
            decreases degree + 1 - i,
        {
            let ui: usize = u_k - degree + i;
            let vi: usize = v_k - degree + j;
            proof {
                if control_points.spec_u_wrapping() {
                    lemma_mod_bound(ui as int, control_points.spec_u_phys());
                }
                if control_points.spec_v_wrapping() {
                    lemma_mod_bound(vi as int, control_points.spec_v_phys());
                }
                lemma_fundamental_div_mod(
                    control_points.spec_values().len() as int,
                    control_points.spec_u_phys(),
                );
                assert(control_points.spec_v_phys() * control_points.spec_u_phys()
                    == control_points.spec_u_phys() * control_points.spec_v_phys())
                    by (nonlinear_arith);
                let uu = if control_points.spec_u_wrapping() {
                    ui as int % control_points.spec_u_phys()
                } else {
                    ui as int
                };
                let vv = if control_points.spec_v_wrapping() {
                    vi as int % control_points.spec_v_phys()
                } else {
                    vi as int
                };
                lemma_row_major_index(
                    control_points.spec_u_phys(),
                    control_points.spec_v_phys(),
                    uu,
                    vv,
                );
            }
            let p: Vector = control_points.at((ui, vi)).weighted();
            proof {
                assert(gl[vi as int][ui as int] == spec_weighted(
                    control_points.spec_at(ui as int, vi as int)@,
                ));
                assert(p@ == base[i as int]);
            }
            d.push(p);
            i = i + 1;
        }
        proof {
            assert(views_of(d@) =~= base);
        }
        cox_de_boor(u, degree, u_k, u_knots, &mut d, Ghost(dim), Ghost(HOMOG_LIMIT as int));
        let rp: Vector = match d.pop() {
            Some(p) => p,
            None => Vector::new(Vec::new()),
        };
        proof {
            assert(rp@ == row_of(j as int));
        }
        rows.push(rp);
        j = j + 1;
    }
    proof {
        assert(views_of(rows@) =~= Seq::new((degree + 1) as nat, |jj: int| row_of(jj)));
    }
    cox_de_boor(v, degree, v_k, v_knots, &mut rows, Ghost(dim), Ghost(HOMOG_LIMIT as int));
    let r: Vector = match rows.pop() {
        Some(p) => p,
        None => Vector::new(Vec::new()),
    };
    proof {
        assert(Seq::new((degree + 1) as nat, |jj: int| row_of(jj)) =~= Seq::new(
            (degree + 1) as nat,
            |jj: int|
                spec_de_boor(
                    Seq::new(
                        (degree + 1) as nat,
                        |i: int| gl[v_k - degree + jj][u_k - degree + i],
                    ),
                    knot_bits(u_knots@),
                    u_k as int,
                    degree as int,
                    u.bits as int,
                    degree as int,
                    degree as int,
                ),
        ));
    }
    r
}

/// The triangle keeps the dimension of its working window.
pub proof fn lemma_de_boor_len(
    base: Seq<Seq<int>>,
    kb: Seq<int>,
    k: int,
    degree: int,
    u: int,
    r: int,
    j: int,
    dim: int,
)
    requires
        0 <= r <= j < base.len(),
        forall|i: int| 0 <= i < base.len() ==> (#[trigger] base[i]).len() == dim,
    ensures
        spec_de_boor(base, kb, k, degree, u, r, j).len() == dim,
    decreases r,
{
    if r > 0 {
        lemma_de_boor_len(base, kb, k, degree, u, r - 1, j - 1, dim);
    }
}

/// The triangle keeps any symmetric coordinate bound of its window, as
/// long as every blending factor lies in `[0, 1]`.
pub proof fn lemma_de_boor_bounds(
    base: Seq<Seq<int>>,
    kb: Seq<int>,
    k: int,
    degree: int,
    u: int,
    r: int,
    j: int,
    dim: int,
    m: int,
)
    requires
        0 <= r <= j < base.len(),
        0 <= m,
        forall|i: int| 0 <= i < base.len() ==> (#[trigger] base[i]).len() == dim,
        forall|i: int, c: int|
            0 <= i < base.len() && 0 <= c < dim ==> -m <= #[trigger] base[i][c] <= m,
        forall|rr: int, jj: int|
            1 <= rr <= jj <= degree ==> 0 <= #[trigger] spec_alpha(kb, k, degree, rr, jj, u)
                <= SCALE,
        r <= degree,
        j <= degree,
    ensures
        forall|c: int|
            0 <= c < dim ==> -m <= #[trigger] spec_de_boor(base, kb, k, degree, u, r, j)[c] <= m,
    decreases r,
{
    if r > 0 {
        lemma_de_boor_bounds(base, kb, k, degree, u, r - 1, j - 1, dim, m);
        lemma_de_boor_bounds(base, kb, k, degree, u, r - 1, j, dim, m);
        lemma_de_boor_len(base, kb, k, degree, u, r - 1, j - 1, dim);
        lemma_de_boor_len(base, kb, k, degree, u, r - 1, j, dim);
        let x = spec_de_boor(base, kb, k, degree, u, r - 1, j - 1);
        let y = spec_de_boor(base, kb, k, degree, u, r - 1, j);
        let a = spec_alpha(kb, k, degree, r, j, u);
        assert forall|c: int|
            0 <= c < dim implies -m <= #[trigger] spec_blend(x, y, a)[c] <= m by {
            crate::types::lemma_blend_coord_bounds(x[c], y[c], a, m);
        }
    }
}

/// With every blending factor zero, each level of the triangle copies
/// the entry on its lower left, so the whole triangle collapses to the
/// first entry of its window.
pub proof fn lemma_de_boor_zero_alphas(
    base: Seq<Seq<int>>,
    kb: Seq<int>,
    k: int,
    degree: int,
    u: int,
    r: int,
    j: int,
)
    requires
        0 <= r <= j < base.len(),
        r <= degree,
        j <= degree,
        forall|rr: int, jj: int|
            1 <= rr <= jj <= degree ==> #[trigger] spec_alpha(kb, k, degree, rr, jj, u) == 0,
    ensures
        spec_de_boor(base, kb, k, degree, u, r, j) == base[j - r],
    decreases r,
{
    if r > 0 {
        lemma_de_boor_zero_alphas(base, kb, k, degree, u, r - 1, j - 1);
        let x = spec_de_boor(base, kb, k, degree, u, r - 1, j - 1);
        let y = spec_de_boor(base, kb, k, degree, u, r - 1, j);
        assert(spec_blend(x, y, 0) =~= x) by {
            assert forall|c: int| 0 <= c < x.len() implies spec_blend(x, y, 0)[c] == x[c] by {
                crate::types::lemma_fix_mul_units(x[c]);
                crate::types::lemma_fix_mul_units(y[c]);
            }
        }
    }
}

/// With every blending factor one, each level of the triangle copies
/// the entry straight below, so the whole triangle collapses to the
/// last entry of its window.
pub proof fn lemma_de_boor_one_alphas(
    base: Seq<Seq<int>>,
    kb: Seq<int>,
    k: int,
    degree: int,
    u: int,
    r: int,
    j: int,
    dim: int,
)
    requires
        0 <= r <= j < base.len(),
        r <= degree,
        j <= degree,
        forall|i: int| 0 <= i < base.len() ==> (#[trigger] base[i]).len() == dim,
        forall|rr: int, jj: int|
            1 <= rr <= jj <= degree ==> #[trigger] spec_alpha(kb, k, degree, rr, jj, u) == SCALE,
    ensures
        spec_de_boor(base, kb, k, degree, u, r, j) == base[j],
    decreases r,
{
    if r > 0 {
        lemma_de_boor_one_alphas(base, kb, k, degree, u, r - 1, j, dim);
        lemma_de_boor_len(base, kb, k, degree, u, r - 1, j - 1, dim);
        let x = spec_de_boor(base, kb, k, degree, u, r - 1, j - 1);
        let y = spec_de_boor(base, kb, k, degree, u, r - 1, j);
        assert(spec_blend(x, y, SCALE as int) =~= y) by {
            assert forall|c: int|
                0 <= c < x.len() implies spec_blend(x, y, SCALE as int)[c] == y[c] by {
                crate::types::lemma_fix_mul_units(x[c]);
                crate::types::lemma_fix_mul_units(y[c]);
            }
        }
    }
}

/// Levels of the triangle have the length of their lower-left entry.
proof fn lemma_de_boor_len_free(
    base: Seq<Seq<int>>,
    kb: Seq<int>,
    k: int,
    degree: int,
    u: int,
    r: int,
    j: int,
)
    requires
        0 <= r <= j,
    ensures
        spec_de_boor(base, kb, k, degree, u, r, j).len() == base[j - r].len(),
    decreases r,
{
    if r > 0 {
        lemma_de_boor_len_free(base, kb, k, degree, u, r - 1, j - 1);
    }
}

/// A coordinate held at one across the window stays exactly one
/// through every level of the triangle.
pub proof fn lemma_de_boor_unit_coord(
    base: Seq<Seq<int>>,
    kb: Seq<int>,
    k: int,
    degree: int,
    u: int,
    r: int,
    j: int,
    c: int,
)
    requires
        0 <= r <= j < base.len(),
        0 <= c,
        forall|i: int| 0 <= i < base.len() ==> c < (#[trigger] base[i]).len(),
        forall|i: int| 0 <= i < base.len() ==> (#[trigger] base[i])[c] == SCALE,
    ensures
        spec_de_boor(base, kb, k, degree, u, r, j)[c] == SCALE,
    decreases r,
{
    if r > 0 {
        lemma_de_boor_unit_coord(base, kb, k, degree, u, r - 1, j - 1, c);
        lemma_de_boor_unit_coord(base, kb, k, degree, u, r - 1, j, c);
        lemma_de_boor_len_free(base, kb, k, degree, u, r - 1, j - 1);
        let x = spec_de_boor(base, kb, k, degree, u, r - 1, j - 1);
        let y = spec_de_boor(base, kb, k, degree, u, r - 1, j);
        let a = spec_alpha(kb, k, degree, r, j, u);
        assert(fix_mul(SCALE as int, SCALE - a) == SCALE - a) by {
            crate::types::lemma_tdiv_exact(SCALE - a, SCALE as int);
            assert((SCALE - a) * SCALE == SCALE * (SCALE - a)) by (nonlinear_arith);
        }
        assert(fix_mul(SCALE as int, a) == a) by {
            crate::types::lemma_tdiv_exact(a, SCALE as int);
            assert(a * SCALE == SCALE * a) by (nonlinear_arith);
        }
        assert(spec_blend(x, y, a)[c] == SCALE);
    }
}

/// Dropping the last coordinates of every window entry commutes with
/// running the triangle.
pub proof fn lemma_de_boor_prefix(
    base: Seq<Seq<int>>,
    kb: Seq<int>,
    k: int,
    degree: int,
    u: int,
    r: int,
    j: int,
    m: int,
)
    requires
        0 <= r <= j < base.len(),
        0 <= m,
        forall|i: int| 0 <= i < base.len() ==> m <= (#[trigger] base[i]).len(),
    ensures
        spec_de_boor(base.map_values(|p: Seq<int>| p.take(m)), kb, k, degree, u, r, j)
            == spec_de_boor(base, kb, k, degree, u, r, j).take(m),
    decreases r,
{
    let mapped = base.map_values(|p: Seq<int>| p.take(m));
    if r <= 0 {
        assert(mapped[j] == base[j].take(m));
    } else {
        lemma_de_boor_prefix(base, kb, k, degree, u, r - 1, j - 1, m);
        lemma_de_boor_prefix(base, kb, k, degree, u, r - 1, j, m);
        lemma_de_boor_len_free(base, kb, k, degree, u, r - 1, j - 1);
        lemma_de_boor_len_free(base, kb, k, degree, u, r - 1, j);
        let x = spec_de_boor(base, kb, k, degree, u, r - 1, j - 1);
        let y = spec_de_boor(base, kb, k, degree, u, r - 1, j);
        let a = spec_alpha(kb, k, degree, r, j, u);
        assert(m <= x.len());
        assert(m <= y.len());
        assert(spec_blend(x.take(m), y.take(m), a) =~= spec_blend(x, y, a).take(m)) by {
            assert forall|c: int|
                0 <= c < m implies spec_blend(x.take(m), y.take(m), a)[c] == spec_blend(
                x,
                y,
                a,
            ).take(m)[c] by {
                assert(x.take(m)[c] == x[c]);
                assert(y.take(m)[c] == y[c]);
            }
        }
    }
}

} // verus!
