//! Axis-aligned bounding boxes of point sets.

use vstd::prelude::*;

verus! {

use crate::types::COORD_LIMIT;
use crate::types::Fixed;
use crate::types::tdiv;
use crate::vector::Vector;

/// The smaller of two integers.
pub open spec fn min2(a: int, b: int) -> int {
    if a <= b {
        a
    } else {
        b
    }
}

/// The larger of two integers.
pub open spec fn max2(a: int, b: int) -> int {
    if a >= b {
        a
    } else {
        b
    }
}

/// The smallest value of coordinate `c` over the first `n` points.
pub open spec fn coord_min(ps: Seq<Seq<int>>, c: int, n: int) -> int
    decreases n,
{
    if n <= 1 {
        ps[0][c]
    } else {
        min2(coord_min(ps, c, n - 1), ps[n - 1][c])
    }
}

/// The largest value of coordinate `c` over the first `n` points.
pub open spec fn coord_max(ps: Seq<Seq<int>>, c: int, n: int) -> int
    decreases n,
{
    if n <= 1 {
        ps[0][c]
    } else {
        max2(coord_max(ps, c, n - 1), ps[n - 1][c])
    }
}

/// Axis aligned bounding box.
#[derive(Debug)]
pub struct BoundingBox {
    min: Vector,
    max: Vector,
}

impl BoundingBox {
    /// The minimum corner, as coordinate bits.
    pub closed spec fn spec_min(&self) -> Seq<int> {
        self.min@
    }

    /// The maximum corner, as coordinate bits.
    pub closed spec fn spec_max(&self) -> Seq<int> {
        self.max@
    }

    /// Calculate the bounding box for a nonempty set of points of one
    /// dimension.
    pub fn new(points: &Vec<Vector>) -> (r: BoundingBox)
        requires
            points@.len() >= 1,
            forall|i: int|
                0 <= i < points@.len() ==> (#[trigger] points@[i])@.len() == points@[0]@.len(),
        ensures
            r.spec_min().len() == points@[0]@.len(),
            r.spec_max().len() == points@[0]@.len(),
            forall|c: int|
                0 <= c < points@[0]@.len() ==> #[trigger] r.spec_min()[c] == coord_min(
                    points@.map_values(|p: Vector| p@),
                    c,
                    points@.len() as int,
                ),
            forall|c: int|
                0 <= c < points@[0]@.len() ==> #[trigger] r.spec_max()[c] == coord_max(
                    points@.map_values(|p: Vector| p@),
                    c,
                    points@.len() as int,
                ),
    {
        let ghost pv = points@.map_values(|p: Vector| p@);
        let dim: usize = points[0].dim();
        let mut low: Vector = points[0].duplicate();
        let mut high: Vector = points[0].duplicate();
        let n: usize = points.len();
        let mut i: usize = 1;
        while i < n
            invariant
                1 <= i <= n,
                n == points@.len(),
                pv == points@.map_values(|p: Vector| p@),
                dim == points@[0]@.len(),
                forall|t: int|
                    0 <= t < n ==> (#[trigger] points@[t])@.len() == dim,
                low@.len() == dim,
                high@.len() == dim,
                forall|c: int|
                    0 <= c < dim ==> #[trigger] low@[c] == coord_min(pv, c, i as int),
                forall|c: int|
                    0 <= c < dim ==> #[trigger] high@[c] == coord_max(pv, c, i as int),
            decreases n - i,
        {
            let p: &Vector = &points[i];
            let mut c: usize = 0;
            while c < dim
                invariant
                    c <= dim,
                    1 <= i < n,
                    n == points@.len(),
                    pv == points@.map_values(|p2: Vector| p2@),
                    dim == points@[0]@.len(),
                    forall|t: int|
                        0 <= t < n ==> (#[trigger] points@[t])@.len() == dim,
                    *p == points@[i as int],
                    p@.len() == dim,
                    low@.len() == dim,
                    high@.len() == dim,
                    forall|t: int|
                        0 <= t < c ==> #[trigger] low@[t] == coord_min(pv, t, i as int + 1),
                    forall|t: int|
                        c <= t < dim ==> #[trigger] low@[t] == coord_min(pv, t, i as int),
                    forall|t: int|
                        0 <= t < c ==> #[trigger] high@[t] == coord_max(pv, t, i as int + 1),
                    forall|t: int|
                        c <= t < dim ==> #[trigger] high@[t] == coord_max(pv, t, i as int),
                decreases dim - c,
            {
                let pc: Fixed = p.coord(c);
                proof {
                    assert(pv[i as int][c as int] == p@[c as int]);
                }
                if low.coord(c).bits > pc.bits {
                    low.set_coord(c, pc);
                }
                if high.coord(c).bits < pc.bits {
                    high.set_coord(c, pc);
                }
                c = c + 1;
            }
            i = i + 1;
        }
        BoundingBox { min: low, max: high }
    }

    /// Minimum corner of the bounding box.
    pub fn min(&self) -> (r: &Vector)
        ensures
            r@ == self.spec_min(),
    {
        &self.min
    }

    /// Maximum corner of the bounding box.
    pub fn max(&self) -> (r: &Vector)
        ensures
            r@ == self.spec_max(),
    {
        &self.max
    }

    /// Both corners stay within the coordinate range.
    pub open spec fn corners_in_bounds(&self) -> bool {
        &&& forall|c: int|
            0 <= c < self.spec_min().len() ==> -(COORD_LIMIT as int) <= #[trigger] self.spec_min()[
                c] <= COORD_LIMIT
        &&& forall|c: int|
            0 <= c < self.spec_max().len() ==> -(COORD_LIMIT as int) <= #[trigger] self.spec_max()[
                c] <= COORD_LIMIT
    }

    /// Center of the bounding box: the midpoint of the two corners,
    /// truncated toward zero.
    pub fn center(&self) -> (r: Vector)
        requires
            self.spec_min().len() == self.spec_max().len(),
            self.corners_in_bounds(),
        ensures
            r@.len() == self.spec_min().len(),
            forall|c: int|
                0 <= c < r@.len() ==> #[trigger] r@[c] == tdiv(
                    self.spec_min()[c] + self.spec_max()[c],
                    2,
                ),
    {
        let dim: usize = self.min.dim();
        let mut out: Vec<Fixed> = Vec::new();
        let mut c: usize = 0;
        while c < dim
            invariant
                c <= dim,
                dim == self.spec_min().len() == self.spec_max().len(),
                self.corners_in_bounds(),
                out@.len() == c,
                forall|t: int|
                    0 <= t < c ==> (#[trigger] out@[t]).bits as int == tdiv(
                        self.spec_min()[t] + self.spec_max()[t],
                        2,
                    ),
            decreases dim - c,
        {
            let s: i64 = self.min.coord(c).bits + self.max.coord(c).bits;
            let half: i64 = if s >= 0 {
                ((s as u64) / 2) as i64
            } else {
                -((((-s) as u64) / 2) as i64)
            };
            proof {
                vstd::arithmetic::div_mod::lemma_div_nonincreasing(
                    crate::types::abs_val(s as int),
                    2,
                );
                vstd::arithmetic::div_mod::lemma_div_pos_is_pos(
                    crate::types::abs_val(s as int),
                    2,
                );
            }
            out.push(Fixed { bits: half });
            c = c + 1;
        }
        let ghost oseq = out@;
        let r = Vector::new(out);
        proof {
            assert forall|t: int| 0 <= t < r@.len() implies #[trigger] r@[t] == tdiv(
                self.spec_min()[t] + self.spec_max()[t],
                2,
            ) by {
                assert(r@[t] == (#[trigger] oseq[t]).bits as int);
            }
        }
        r
    }
}

} // verus!
