//! Scalar-valued knot vectors: an earlier knot representation in which
//! the knots themselves are fixed-point values rather than integers.

use vstd::prelude::*;

verus! {

use crate::algorithms::knots_sorted;
use crate::algorithms::last_at_or_below;
use crate::algorithms::last_below;
use crate::algorithms::lemma_at_or_below_unique;
use crate::algorithms::lemma_below_unique;
use crate::algorithms::lemma_last_at_or_below;
use crate::algorithms::lemma_last_below;
use crate::types::COORD_LIMIT;
use crate::types::Fixed;
use crate::types::KNOT_LIMIT;

/// The span index for a scalar parameter: the last knot at or below
/// `u`, except at the very last knot, where the last knot strictly
/// below `u` is taken.
pub open spec fn spec_find_span_vec(ks: Seq<int>, u: int) -> int {
    if u == ks[ks.len() - 1] {
        last_below(ks, ks.len() - 1, u)
    } else {
        last_at_or_below(ks, ks.len() - 1, u)
    }
}

/// The clamped shape: long enough for the degree, with the first
/// `degree + 1` knots all equal and the last `degree + 1` knots all
/// equal — each end knot repeated with multiplicity `degree + 1`.
pub open spec fn spec_is_clamped(ks: Seq<int>, degree: int) -> bool {
    &&& ks.len() >= 2 * (degree + 1)
    &&& forall|i: int| 1 <= i <= degree ==> #[trigger] ks[i] == ks[0]
    &&& forall|i: int|
        ks.len() - degree - 1 <= i < ks.len() - 1 ==> #[trigger] ks[i] == ks[ks.len() - 1]
}


/// The span index never decreases as the parameter grows.
pub proof fn lemma_find_span_vec_monotonic(ks: Seq<int>, u1: int, u2: int)
    requires
        knots_sorted(ks),
        2 <= ks.len(),
        ks[0] <= u1 <= u2 <= ks[ks.len() - 1],
        ks[0] < ks[ks.len() - 1],
    ensures
        spec_find_span_vec(ks, u1) <= spec_find_span_vec(ks, u2),
{
    let k1 = spec_find_span_vec(ks, u1);
    let k2 = spec_find_span_vec(ks, u2);
    if u1 == ks[ks.len() - 1] {
        lemma_last_below(ks, ks.len() - 1, u1);
    } else {
        lemma_last_at_or_below(ks, ks.len() - 1, u1);
    }
    if u2 == ks[ks.len() - 1] {
        lemma_last_below(ks, ks.len() - 1, u2);
    } else {
        lemma_last_at_or_below(ks, ks.len() - 1, u2);
    }
    if u1 == u2 {
        assert(k1 == k2);
    } else if k1 > k2 {
        assert(ks[k2 + 1] <= ks[k1]);
        if u2 == ks[ks.len() - 1] {
            assert(ks[k1] <= u1);
            assert(ks[k1] >= u2);
            assert(false);
        } else {
            assert(ks[k1] <= u1);
            assert(ks[k2 + 1] > u2);
            assert(false);
        }
    }
}

/// A sorted list of scalar knot values.
#[derive(Debug)]
pub struct KnotVec {
    knots: Vec<Fixed>,
}

impl View for KnotVec {
    type V = Seq<int>;

    closed spec fn view(&self) -> Seq<int> {
        self.knots@.map_values(|k: Fixed| k.bits as int)
    }
}

impl KnotVec {
    /// Sorted, and small enough for fixed-point evaluation.
    pub open spec fn wf(&self) -> bool {
        &&& knots_sorted(self@)
        &&& self@.len() <= KNOT_LIMIT
        &&& forall|i: int|
            0 <= i < self@.len() ==> -(COORD_LIMIT as int) <= #[trigger] self@[i] <= COORD_LIMIT
    }

    /// A knot vector over the given sorted values.
    pub fn new(vec: Vec<Fixed>) -> (r: KnotVec)
        requires
            knots_sorted(vec@.map_values(|k: Fixed| k.bits as int)),
        ensures
            r@ == vec@.map_values(|k: Fixed| k.bits as int),
    {
        KnotVec { knots: vec }
    }

    /// Whether a list of knot values never decreases.
    pub fn is_sorted(data: &Vec<Fixed>) -> (r: bool)
        ensures
            r == knots_sorted(data@.map_values(|k: Fixed| k.bits as int)),
    {
        let ghost ks = data@.map_values(|k: Fixed| k.bits as int);
        let n: usize = data.len();
        if n == 0 {
            return true;
        }
        let mut i: usize = 0;
        while i + 1 < n
            invariant
                n == data@.len(),
                1 <= n,
                i < n,
                ks == data@.map_values(|k: Fixed| k.bits as int),
                forall|a: int, b: int| 0 <= a <= b <= i ==> ks[a] <= ks[b],
            decreases n - i,
        {
            proof {
                assert(ks[i as int] == data@[i as int].bits as int);
                assert(ks[i as int + 1] == data@[i as int + 1].bits as int);
            }
            if data[i].bits > data[i + 1].bits {
                proof {
                    assert(!knots_sorted(ks));
                }
                return false;
            }
            i = i + 1;
        }
        true
    }

    /// Number of knots.
    pub fn len(&self) -> (r: usize)
        ensures
            r == self@.len(),
    {
        self.knots.len()
    }

    /// A knot vector is never treated as empty.
    pub fn is_empty(&self) -> (r: bool)
        ensures
            r == false,
    {
        false
    }

    /// The first knot: the lowest usable parameter value.
    pub fn min_u(&self) -> (r: Fixed)
        requires
            self@.len() >= 1,
        ensures
            r.bits as int == self@[0],
    {
        self.knots[0]
    }

    /// The last knot: the highest usable parameter value.
    pub fn max_u(&self) -> (r: Fixed)
        requires
            self@.len() >= 1,
        ensures
            r.bits as int == self@[self@.len() - 1],
    {
        self.knots[self.knots.len() - 1]
    }

    /// The knot at position `i`.
    pub fn knot(&self, i: usize) -> (r: Fixed)
        requires
            i < self@.len(),
        ensures
            r.bits as int == self@[i as int],
    {
        self.knots[i]
    }

    /// Whether the vector has the clamped shape for the given degree:
    /// repeated knots at both ends, so a curve touches its first and
    /// last control points.
    pub fn is_clamped(&self, degree: usize) -> (r: bool)
        requires
            self@.len() >= 1,
        ensures
            r == spec_is_clamped(self@, degree as int),
    {
        let n: usize = self.knots.len();
        if n / 2 <= degree {
            proof {
                vstd::arithmetic::div_mod::lemma_fundamental_div_mod(n as int, 2);
                vstd::arithmetic::div_mod::lemma_mod_bound(n as int, 2);
            }
            return false;
        }
        proof {
            vstd::arithmetic::div_mod::lemma_fundamental_div_mod(n as int, 2);
            vstd::arithmetic::div_mod::lemma_mod_bound(n as int, 2);
            assert(n >= 2 * (degree + 1));
        }
        // check the value of the start knots
        let start_knot: Fixed = self.knots[0];
        let mut i: usize = 1;
        while i <= degree
            invariant
                1 <= i <= degree + 1,
                degree < n,
                n == self@.len(),
                start_knot.bits as int == self@[0],
                forall|t: int| 1 <= t < i ==> #[trigger] self@[t] == self@[0],
            decreases degree + 1 - i,
        {
            if self.knots[i].bits != start_knot.bits {
                proof {
                    assert(self@[i as int] != self@[0]);
                }
                return false;
            }
            i = i + 1;
        }
        // check the value of the end knots
        let end_knot: Fixed = self.knots[n - 1];
        let mut j: usize = n - degree - 1;
        while j < n - 1
            invariant
                n - degree - 1 <= j <= n - 1,
                degree + 1 < n,
                n == self@.len(),
                end_knot.bits as int == self@[n - 1],
                forall|t: int| n - degree - 1 <= t < j ==> #[trigger] self@[t] == self@[n - 1],
            decreases n - 1 - j,
        {
            if self.knots[j].bits != end_knot.bits {
                proof {
                    assert(self@[j as int] != self@[n - 1]);
                }
                return false;
            }
            j = j + 1;
        }
        // everything passed
        true
    }

    /// Find the knot span holding the scalar parameter `u`: the index
    /// `k` with `knot[k] <= u < knot[k + 1]`, except at the very last
    /// knot, where the last span with `knot[k] < u` is taken.
    pub fn find_span(&self, u: Fixed) -> (k: usize)
        requires
            self.wf(),
            self@.len() >= 2,
            self@[0] <= u.bits as int <= self@[self@.len() - 1],
            self@[0] < self@[self@.len() - 1],
        ensures
            k as int == spec_find_span_vec(self@, u.bits as int),
            k as int <= self@.len() - 2,
            self@[k as int] <= u.bits as int <= self@[k as int + 1],
            self@[k as int] < self@[k as int + 1],
            (u.bits as int) < self@[self@.len() - 1] ==> (u.bits as int) < self@[k as int + 1],
            u.bits as int == self@[self@.len() - 1] ==> self@[k as int] < u.bits as int,
    {
        let len: usize = self.knots.len();
        if u.bits == self.knots[len - 1].bits {
            // look backward through the knots until we find one which
            // is less than the maximum u value
            proof {
                lemma_last_below(self@, self@.len() - 1, u.bits as int);
            }
            let mut i: usize = len - 1;
            while self.knots[i].bits >= u.bits
                invariant
                    self.wf(),
                    len == self@.len(),
                    2 <= len,
                    self@[0] < u.bits as int,
                    0 <= i < len,
                    forall|m: int| i < m < len ==> self@[m] >= u.bits as int,
                decreases i,
            {
                i = i - 1;
            }
            proof {
                lemma_below_unique(self@, self@.len() - 1, u.bits as int, i as int);
                assert(self@[self@.len() - 1] >= u.bits as int);
            }
            i
        } else {
            // perform a binary search to find the correct knot span
            proof {
                lemma_last_at_or_below(self@, self@.len() - 1, u.bits as int);
            }
            let mut low: usize = 0;
            let mut high: usize = len - 1;
            let mut mid: usize = (low + high) / 2;

            while u.bits < self.knots[mid].bits || u.bits >= self.knots[mid + 1].bits
                invariant
                    self.wf(),
                    len == self@.len(),
                    2 <= len,
                    0 <= low < high < len,
                    low <= mid < high,
                    mid == (low + high) / 2,
                    self@[low as int] <= u.bits as int,
                    (u.bits as int) < self@[high as int],
                decreases high - low,
            {
                if u.bits < self.knots[mid].bits {
                    high = mid;
                } else {
                    low = mid;
                }
                mid = (low + high) / 2;
            }
            proof {
                assert forall|m: int| mid < m < self@.len() implies self@[m] > u.bits as int by {
                    assert(self@[mid + 1] <= self@[m]);
                }
                lemma_at_or_below_unique(self@, self@.len() - 1, u.bits as int, mid as int);
            }
            mid
        }
    }
}

} // verus!
