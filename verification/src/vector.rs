//! Points of the engine: n-dimensional vectors of fixed-point coordinates.

use vstd::prelude::*;

verus! {

use crate::types::COORD_LIMIT;
use crate::types::Fixed;
use crate::types::HOMOG_LIMIT;
use crate::types::SCALE;
use crate::types::abs_val;
use crate::types::fix_mul;
use crate::types::lemma_blend_coord_bounds;
use crate::types::lemma_tdiv_mag;
use crate::types::mul_fix_bits;
use vstd::arithmetic::mul::lemma_mul_upper_bound;

/// A point or direction: one fixed-point coordinate per dimension.
#[derive(Debug)]
pub struct Vector {
    coords: Vec<Fixed>,
}

impl View for Vector {
    type V = Seq<int>;

    closed spec fn view(&self) -> Seq<int> {
        self.coords@.map_values(|c: Fixed| c.bits as int)
    }
}

/// The blend `x * (1 - alpha) + y * alpha`, coordinate by coordinate,
/// in exact fixed-point arithmetic.
pub open spec fn spec_blend(x: Seq<int>, y: Seq<int>, alpha: int) -> Seq<int> {
    Seq::new(x.len(), |i: int| fix_mul(x[i], SCALE - alpha) + fix_mul(y[i], alpha))
}

/// The homogeneous form of a weighted point: every coordinate but the
/// last is multiplied by the last (the weight), which stays as it is.
pub open spec fn spec_weighted(p: Seq<int>) -> Seq<int> {
    Seq::new(
        p.len(),
        |i: int|
            if i == p.len() - 1 {
                p[i]
            } else {
                fix_mul(p[i], p[p.len() - 1])
            },
    )
}

/// The cross product of two three-dimensional vectors in fixed point.
pub open spec fn spec_cross(a: Seq<int>, b: Seq<int>) -> Seq<int> {
    seq![
        fix_mul(a[1], b[2]) - fix_mul(a[2], b[1]),
        fix_mul(a[2], b[0]) - fix_mul(a[0], b[2]),
        fix_mul(a[0], b[1]) - fix_mul(a[1], b[0]),
    ]
}

impl Vector {
    /// Every coordinate lies within `[-m, m]`.
    pub open spec fn in_bounds(&self, m: int) -> bool {
        forall|i: int| 0 <= i < self@.len() ==> -m <= #[trigger] self@[i] <= m
    }

    /// A point with the given coordinates.
    pub fn new(coords: Vec<Fixed>) -> (r: Vector)
        ensures
            r@.len() == coords@.len(),
            forall|i: int| 0 <= i < coords@.len() ==> r@[i] == #[trigger] coords@[i].bits as int,
    {
        Vector { coords }
    }

    /// Number of dimensions.
    pub fn dim(&self) -> (r: usize)
        ensures
            r == self@.len(),
    {
        self.coords.len()
    }

    /// The coordinate at `i`.
    pub fn coord(&self, i: usize) -> (r: Fixed)
        requires
            i < self@.len(),
        ensures
            r.bits == self@[i as int],
    {
        self.coords[i]
    }

    /// Replace the coordinate at `i`.
    pub fn set_coord(&mut self, i: usize, v: Fixed)
        requires
            i < old(self)@.len(),
        ensures
            final(self)@ == old(self)@.update(i as int, v.bits as int),
    {
        self.coords.set(i, v);
        proof {
            assert(self@ =~= old(self)@.update(i as int, v.bits as int));
        }
    }

    /// A copy of this point.
    pub fn duplicate(&self) -> (r: Vector)
        ensures
            r@ == self@,
    {
        let mut out: Vec<Fixed> = Vec::new();
        let n: usize = self.coords.len();
        let mut i: usize = 0;
        while i < n
            invariant
                i <= n,
                n == self@.len(),
                out@.len() == i,
                forall|j: int| 0 <= j < i ==> (#[trigger] out@[j]).bits as int == self@[j],
            decreases n - i,
        {
            out.push(self.coords[i]);
            i += 1;
        }
        let r = Vector { coords: out };
        proof {
            assert(r@ =~= self@);
        }
        r
    }

    /// Blend two points of equal dimension with a factor in `[0, 1]`.
    pub(crate) fn blend(x: &Vector, y: &Vector, alpha: i64, Ghost(m): Ghost<int>) -> (r: Vector)
        requires
            x@.len() == y@.len(),
            x.in_bounds(m),
            y.in_bounds(m),
            0 <= m <= HOMOG_LIMIT,
            0 <= alpha <= SCALE,
        ensures
            r@ == spec_blend(x@, y@, alpha as int),
            r.in_bounds(m),
            r@.len() == x@.len(),
    {
        let n: usize = x.dim();
        let mut out: Vec<Fixed> = Vec::new();
        let mut i: usize = 0;
        while i < n
            invariant
                i <= n,
                n == x@.len() == y@.len(),
                x.in_bounds(m),
                y.in_bounds(m),
                0 <= m <= HOMOG_LIMIT,
                0 <= alpha <= SCALE,
                out@.len() == i,
                forall|j: int|
                    0 <= j < i ==> (#[trigger] out@[j]).bits as int == spec_blend(
                        x@,
                        y@,
                        alpha as int,
                    )[j],
                forall|j: int| 0 <= j < i ==> -m <= (#[trigger] out@[j]).bits as int <= m,
            decreases n - i,
        {
            let xc: Fixed = x.coord(i);
            let yc: Fixed = y.coord(i);
            proof {
                lemma_blend_coord_bounds(xc.bits as int, yc.bits as int, alpha as int, m);
                assert(abs_val(xc.bits as int * (SCALE - alpha) as int) <= 0x7fff_ffff_ffff_ffff
                    * (SCALE as int)) by (nonlinear_arith)
                    requires
                        abs_val(xc.bits as int) <= HOMOG_LIMIT as int,
                        0 <= SCALE - alpha <= SCALE,
                ;
                assert(abs_val(yc.bits as int * alpha as int) <= 0x7fff_ffff_ffff_ffff * (
                SCALE as int)) by (nonlinear_arith)
                    requires
                        abs_val(yc.bits as int) <= HOMOG_LIMIT as int,
                        0 <= alpha <= SCALE,
                ;
            }
            let t1: i64 = mul_fix_bits(xc.bits, SCALE - alpha);
            let t2: i64 = mul_fix_bits(yc.bits, alpha);
            out.push(Fixed { bits: t1 + t2 });
            i += 1;
        }
        let r = Vector { coords: out };
        proof {
            assert(r@ =~= spec_blend(x@, y@, alpha as int));
        }
        r
    }

    /// The homogeneous form of this point, its last coordinate read as
    /// the rational weight.
    pub(crate) fn weighted(&self) -> (r: Vector)
        requires
            self@.len() >= 2,
            self.in_bounds(COORD_LIMIT as int),
        ensures
            r@ == spec_weighted(self@),
            r.in_bounds(HOMOG_LIMIT as int),
            r@.len() == self@.len(),
    {
        let n: usize = self.dim();
        let w: Fixed = self.coord(n - 1);
        let mut out: Vec<Fixed> = Vec::new();
        let mut i: usize = 0;
        while i < n - 1
            invariant
                i <= n - 1,
                n == self@.len(),
                n >= 2,
                self.in_bounds(COORD_LIMIT as int),
                w.bits as int == self@[n - 1],
                out@.len() == i,
                forall|j: int|
                    0 <= j < i ==> (#[trigger] out@[j]).bits as int == spec_weighted(self@)[j],
                forall|j: int|
                    0 <= j < i ==> -(HOMOG_LIMIT as int) <= (#[trigger] out@[j]).bits as int
                        <= HOMOG_LIMIT as int,
            decreases n - 1 - i,
        {
            let c: Fixed = self.coord(i);
            proof {
                assert(abs_val(c.bits as int * w.bits as int) <= COORD_LIMIT as int
                    * COORD_LIMIT as int) by (nonlinear_arith)
                    requires
                        abs_val(c.bits as int) <= COORD_LIMIT as int,
                        abs_val(w.bits as int) <= COORD_LIMIT as int,
                ;
                lemma_tdiv_mag(c.bits as int * w.bits as int, SCALE as int);
                assert(abs_val(fix_mul(c.bits as int, w.bits as int)) * (SCALE as int) <= (
                HOMOG_LIMIT as int) * (SCALE as int));
            }
            out.push(Fixed { bits: mul_fix_bits(c.bits, w.bits) });
            i += 1;
        }
        out.push(w);
        let r = Vector { coords: out };
        proof {
            assert(r@ =~= spec_weighted(self@));
        }
        r
    }

    /// The coordinate-wise difference `self - other`.
    pub(crate) fn delta(&self, other: &Vector) -> (r: Vector)
        requires
            self@.len() == other@.len(),
            self.in_bounds(COORD_LIMIT as int),
            other.in_bounds(COORD_LIMIT as int),
        ensures
            r@.len() == self@.len(),
            forall|i: int| 0 <= i < self@.len() ==> r@[i] == self@[i] - other@[i],
            r.in_bounds(2 * COORD_LIMIT as int),
    {
        let n: usize = self.dim();
        let mut out: Vec<Fixed> = Vec::new();
        let mut i: usize = 0;
        while i < n
            invariant
                i <= n,
                n == self@.len() == other@.len(),
                self.in_bounds(COORD_LIMIT as int),
                other.in_bounds(COORD_LIMIT as int),
                out@.len() == i,
                forall|j: int|
                    0 <= j < i ==> (#[trigger] out@[j]).bits as int == self@[j] - other@[j],
            decreases n - i,
        {
            out.push(Fixed { bits: self.coord(i).bits - other.coord(i).bits });
            i += 1;
        }
        Vector { coords: out }
    }

    /// The cross product of two three-dimensional direction vectors.
    pub(crate) fn cross(&self, other: &Vector) -> (r: Vector)
        requires
            self@.len() == 3,
            other@.len() == 3,
            self.in_bounds(2 * COORD_LIMIT as int),
            other.in_bounds(2 * COORD_LIMIT as int),
        ensures
            r@ == spec_cross(self@, other@),
    {
        let r0: i64 = cross_term(self.coord(1), other.coord(2), self.coord(2), other.coord(1));
        let r1: i64 = cross_term(self.coord(2), other.coord(0), self.coord(0), other.coord(2));
        let r2: i64 = cross_term(self.coord(0), other.coord(1), self.coord(1), other.coord(0));
        let mut out: Vec<Fixed> = Vec::new();
        out.push(Fixed { bits: r0 });
        out.push(Fixed { bits: r1 });
        out.push(Fixed { bits: r2 });
        let r = Vector { coords: out };
        proof {
            assert(r@ =~= spec_cross(self@, other@));
        }
        r
    }
}

/// One component of a cross product: `a * b - c * d` in fixed point.
fn cross_term(a: Fixed, b: Fixed, c: Fixed, d: Fixed) -> (r: i64)
    requires
        abs_val(a.bits as int) <= 2 * COORD_LIMIT as int,
        abs_val(b.bits as int) <= 2 * COORD_LIMIT as int,
        abs_val(c.bits as int) <= 2 * COORD_LIMIT as int,
        abs_val(d.bits as int) <= 2 * COORD_LIMIT as int,
    ensures
        r as int == fix_mul(a.bits as int, b.bits as int) - fix_mul(c.bits as int, d.bits as int),
{
    proof {
        lemma_cross_product_fits(a.bits as int, b.bits as int);
        lemma_cross_product_fits(c.bits as int, d.bits as int);
    }
    let t1: i64 = mul_fix_bits(a.bits, b.bits);
    let t2: i64 = mul_fix_bits(c.bits, d.bits);
    t1 - t2
}

/// The fixed-point product of two doubled coordinates fits comfortably in `i64`.
proof fn lemma_cross_product_fits(a: int, b: int)
    requires
        abs_val(a) <= 2 * COORD_LIMIT as int,
        abs_val(b) <= 2 * COORD_LIMIT as int,
    ensures
        abs_val(a * b) <= 4 * COORD_LIMIT as int * COORD_LIMIT as int,
        abs_val(a * b) <= 0x7fff_ffff_ffff_ffff * (SCALE as int),
        abs_val(fix_mul(a, b)) <= 0x2000_0000_0000_0000,
{
    assert(abs_val(a * b) == abs_val(a) * abs_val(b)) by (nonlinear_arith);
    lemma_mul_upper_bound(abs_val(a), 2 * COORD_LIMIT as int, abs_val(b), 2 * COORD_LIMIT as int);
    assert(2 * COORD_LIMIT as int * (2 * COORD_LIMIT as int) == 4 * COORD_LIMIT as int
        * COORD_LIMIT as int) by (nonlinear_arith);
    lemma_tdiv_mag(a * b, SCALE as int);
    assert(abs_val(fix_mul(a, b)) * (SCALE as int) <= 0x2000_0000_0000_0000 * (SCALE as int));
}

impl PartialEq for Vector {
    /// Two points are equal when their coordinates are.
    fn eq(&self, other: &Vector) -> (r: bool) {
        let n: usize = self.coords.len();
        if n != other.coords.len() {
            proof {
                assert(self@.len() != other@.len());
            }
            return false;
        }
        let mut i: usize = 0;
        while i < n
            invariant
                i <= n,
                n == self@.len() == other@.len(),
                forall|j: int| 0 <= j < i ==> self@[j] == other@[j],
            decreases n - i,
        {
            if self.coords[i].bits != other.coords[i].bits {
                proof {
                    assert(self@[i as int] != other@[i as int]);
                }
                return false;
            }
            i += 1;
        }
        proof {
            assert(self@ =~= other@);
        }
        true
    }
}

impl vstd::std_specs::cmp::PartialEqSpecImpl for Vector {
    open spec fn obeys_eq_spec() -> bool {
        true
    }

    open spec fn eq_spec(&self, other: &Vector) -> bool {
        self@ == other@
    }
}

} // verus!
