//! The curve recurrence over scalar-valued knot vectors: an earlier
//! form of the evaluator that reads its control points from a plain
//! slice and its knots from a `KnotVec`.

use vstd::prelude::*;

verus! {

use crate::algorithms::lemma_alpha_bounds;
use crate::algorithms::points_uniform;
use crate::algorithms::spec_alpha;
use crate::algorithms::spec_de_boor;
use crate::algorithms::views_of;
use crate::algorithms::window_ok;
use crate::knot_vec::KnotVec;
use crate::knot_vec::spec_find_span_vec;
use crate::types::COORD_LIMIT;
use crate::types::Fixed;
use crate::types::SCALE;
use crate::types::tdiv;
use crate::vector::Vector;
use vstd::arithmetic::div_mod::lemma_div_is_ordered;
use vstd::arithmetic::div_mod::lemma_div_by_multiple;

/// The blended point of a curve over a scalar knot vector at parameter
/// bits `u`.
pub open spec fn spec_curve_point_vec(pts: Seq<Seq<int>>, ks: Seq<int>, degree: int, u: int) -> Seq<
    int,
> {
    let k = spec_find_span_vec(ks, u);
    let base = Seq::new((degree + 1) as nat, |j: int| pts[k - degree + j]);
    spec_de_boor(base, ks, k, degree, u, degree, degree)
}

/// Evaluate a curve over a scalar knot vector: blend the control
/// points around the span of `u` with the Cox-de Boor recurrence.
pub fn cox_de_boor(
    u: Fixed,
    degree: usize,
    knots: &KnotVec,
    control_points: &Vec<Vector>,
) -> (r: Vector)
    requires
        knots.wf(),
        1 <= degree,
        control_points@.len() == knots@.len() - degree - 1,
        degree < control_points@.len(),
        points_uniform(control_points@, control_points@[0]@.len() as int),
        knots@[degree as int] <= u.bits as int,
        u.bits as int <= knots@[knots@.len() - degree - 1],
        knots@[degree as int] < knots@[knots@.len() - degree - 1],
        u.bits as int == knots@[knots@.len() - degree - 1] ==> knots@[knots@.len() - degree - 1]
            == knots@[knots@.len() - 1],
    ensures
        r@ == spec_curve_point_vec(
            views_of(control_points@),
            knots@,
            degree as int,
            u.bits as int,
        ),
        r@.len() == control_points@[0]@.len(),
        r.in_bounds(COORD_LIMIT as int),
{
    let ghost dim = control_points@[0]@.len() as int;
    let ghost ks = knots@;
    let ghost n = ks.len() - degree - 1;
    proof {
        crate::algorithms::lemma_last_at_or_below(ks, ks.len() - 1, u.bits as int);
        if u.bits as int == ks[ks.len() - 1] {
            crate::algorithms::lemma_last_below(ks, ks.len() - 1, u.bits as int);
        }
    }
    let k: usize = knots.find_span(u);
    proof {
        let kk = k as int;
        assert(degree <= kk) by {
            if kk < degree {
                assert(ks[degree as int] <= u.bits as int);
                if u.bits as int == ks[ks.len() - 1] {
                    assert(ks[degree as int] < u.bits as int);
                    assert(ks[degree as int] >= u.bits as int);
                } else {
                    assert(ks[degree as int] > u.bits as int);
                }
            }
        }
        assert(kk <= n - 1) by {
            if kk > n - 1 {
                if u.bits as int == ks[ks.len() - 1] {
                    assert(ks[n] == ks[ks.len() - 1]);
                    assert(ks[kk] < u.bits as int);
                    assert(ks[n] <= ks[kk]);
                } else {
                    assert(ks[kk] <= u.bits as int);
                    assert((u.bits as int) < ks[n] || u.bits as int == ks[n]);
                    if u.bits as int == ks[n] {
                        assert(ks[n] == ks[ks.len() - 1]);
                        assert(u.bits as int == ks[ks.len() - 1]);
                    } else {
                        assert(ks[n] <= ks[kk]);
                    }
                }
            }
        }
    }
    let ghost pts = views_of(control_points@);
    let ghost base = Seq::new((degree + 1) as nat, |j: int| pts[k - degree + j]);
    let mut d: Vec<Vector> = Vec::new();
    let mut j: usize = 0;
    while j < degree + 1
        invariant
            j <= degree + 1,
            knots.wf(),
            ks == knots@,
            1 <= degree,
            control_points@.len() == ks.len() - degree - 1,
            points_uniform(control_points@, dim),
            degree <= k,
            k as int <= ks.len() - degree - 2,
            base == Seq::new((degree + 1) as nat, |jj: int| pts[k - degree + jj]),
            pts == views_of(control_points@),
            d@.len() == j,
            forall|jj: int| 0 <= jj < j ==> (#[trigger] d@[jj])@ == base[jj],
            window_ok(d@, dim, COORD_LIMIT as int),
        decreases degree + 1 - j,
    {
        let i: usize = k - degree + j;
        let p: Vector = control_points[i].duplicate();
        proof {
            assert(p@ == pts[i as int]);
            assert(p@ == base[j as int]);
        }
        d.push(p);
        j = j + 1;
    }
    proof {
        assert(views_of(d@) =~= base);
    }
    let ghost ubits = u.bits as int;
    let mut r: usize = 1;
    while r <= degree
        invariant
            knots.wf(),
            ks == knots@,
            1 <= degree,
            degree <= k,
            k as int <= ks.len() - degree - 2,
            ks[k as int] <= ubits <= ks[k as int + 1],
            ks[k as int] < ks[k as int + 1],
            ubits == u.bits as int,
            1 <= r <= degree + 1,
            d@.len() == degree + 1,
            window_ok(d@, dim, COORD_LIMIT as int),
            base == Seq::new((degree + 1) as nat, |jj: int| pts[k - degree + jj]),
            forall|jj: int|
                0 <= jj <= degree ==> (#[trigger] d@[jj])@ == (if jj < r {
                    spec_de_boor(base, ks, k as int, degree as int, ubits, jj, jj)
                } else {
                    spec_de_boor(base, ks, k as int, degree as int, ubits, r - 1, jj)
                }),
        decreases degree + 1 - r,
    {
        let mut jj: usize = degree;
        while jj >= r
            invariant
                knots.wf(),
                ks == knots@,
                1 <= degree,
                degree <= k,
                k as int <= ks.len() - degree - 2,
                ks[k as int] <= ubits <= ks[k as int + 1],
                ks[k as int] < ks[k as int + 1],
                ubits == u.bits as int,
                1 <= r <= degree,
                r - 1 <= jj <= degree,
                d@.len() == degree + 1,
                window_ok(d@, dim, COORD_LIMIT as int),
                base == Seq::new((degree + 1) as nat, |t: int| pts[k - degree + t]),
                forall|t: int|
                    0 <= t <= degree ==> (#[trigger] d@[t])@ == (if t > jj {
                        spec_de_boor(base, ks, k as int, degree as int, ubits, r as int, t)
                    } else if t < r {
                        spec_de_boor(base, ks, k as int, degree as int, ubits, t, t)
                    } else {
                        spec_de_boor(base, ks, k as int, degree as int, ubits, r - 1, t)
                    }),
            decreases jj,
        {
            let a: i64 = alpha_vec(u, k, degree, r, jj, knots);
            let nv: Vector = Vector::blend(&d[jj - 1], &d[jj], a, Ghost(COORD_LIMIT as int));
            proof {
                assert(nv@ == spec_de_boor(
                    base,
                    ks,
                    k as int,
                    degree as int,
                    ubits,
                    r as int,
                    jj as int,
                ));
            }
            d.set(jj, nv);
            jj = jj - 1;
        }
        r = r + 1;
    }
    let out: Vector = match d.pop() {
        Some(p) => p,
        None => Vector::new(Vec::new()),
    };
    out
}

/// The blending factor of the recurrence over a scalar knot vector.
fn alpha_vec(u: Fixed, knot_span: usize, degree: usize, r: usize, j: usize, knots: &KnotVec) -> (a:
    i64)
    requires
        knots.wf(),
        1 <= r <= j <= degree,
        degree <= knot_span,
        knot_span + degree + 1 < knots@.len(),
        knots@[knot_span as int] <= u.bits as int,
        u.bits as int <= knots@[knot_span as int + 1],
        knots@[knot_span as int] < knots@[knot_span as int + 1],
    ensures
        a as int == spec_alpha(
            knots@,
            knot_span as int,
            degree as int,
            r as int,
            j as int,
            u.bits as int,
        ),
        0 <= a <= SCALE,
{
    proof {
        lemma_alpha_bounds(
            knots@,
            knot_span as int,
            degree as int,
            r as int,
            j as int,
            u.bits as int,
        );
    }
    let kp: Fixed = knots.knot(j + knot_span - degree);
    let kp1: Fixed = knots.knot(1 + j + knot_span - r);
    proof {
        assert(knots@[j + knot_span - degree] <= knots@[knot_span as int]);
        assert(knots@[1 + j + knot_span - r] >= knots@[knot_span as int + 1]);
    }
    let num: i64 = u.bits - kp.bits;
    let den: i64 = kp1.bits - kp.bits;
    let q: u64 = ((num as u64) * 65536) / (den as u64);
    proof {
        lemma_div_is_ordered(num as int * 65536, den as int * 65536, den as int);
        lemma_div_by_multiple(65536, den as int);
        assert(den as int * 65536 == 65536 * den as int);
        assert(q as int == tdiv(num as int * (SCALE as int), den as int));
    }
    q as i64
}

} // verus!
