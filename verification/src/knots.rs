//! Integer knot vectors: generation, usable range, span search, and the
//! in-place clamp and pinch edits.

use vstd::prelude::*;

verus! {

use crate::algorithms::eval_ready;
use crate::algorithms::knots_sorted;
use crate::algorithms::last_at_or_below;
use crate::algorithms::last_below;
use crate::algorithms::lemma_at_or_below_unique;
use crate::algorithms::lemma_below_unique;
use crate::algorithms::lemma_span_props;
use crate::algorithms::spec_find_span;
use crate::types::KNOT_LIMIT;

/// A knot vector of a fixed degree. Knots are integers; the vector is
/// kept in non-decreasing order by every operation that edits it.
#[derive(Debug)]
pub struct Knots {
    degree: usize,
    knot_vec: Vec<usize>,
}

impl View for Knots {
    type V = Seq<int>;

    closed spec fn view(&self) -> Seq<int> {
        self.knot_vec@.map_values(|v: usize| v as int)
    }
}

/// The knot sequence after `clamp_ends`: the first `degree` entries
/// take the start of the usable range, the last `degree` its end.
pub open spec fn spec_clamped(ks: Seq<int>, degree: int) -> Seq<int> {
    Seq::new(
        ks.len(),
        |i: int|
            if i < degree {
                ks[degree]
            } else if i >= ks.len() - degree {
                ks[ks.len() - degree - 1]
            } else {
                ks[i]
            },
    )
}

/// The knot sequence after `pinch(index, length)`: the `length` knots
/// after `index` collapse to the knot at `index`, and everything beyond
/// them shifts down by `length`.
pub open spec fn spec_pinched(ks: Seq<int>, index: int, length: int) -> Seq<int> {
    Seq::new(
        ks.len(),
        |i: int|
            if i <= index {
                ks[i]
            } else if i <= index + length {
                ks[index]
            } else {
                ks[i] - length
            },
    )
}

/// The knot at position `i` of a generated clamped vector for the given
/// degree and control-point count: `i - degree`, held at `0` below and
/// at `num_points - degree` above.
pub open spec fn spec_clamped_knot(degree: int, num_points: int, i: int) -> int {
    if i < degree {
        0
    } else if i - degree > num_points - degree {
        num_points - degree
    } else {
        i - degree
    }
}

impl Knots {
    /// Sorted, and short and small enough for fixed-point evaluation.
    pub open spec fn wf(&self) -> bool {
        &&& knots_sorted(self@)
        &&& self@.len() <= KNOT_LIMIT
        &&& forall|i: int| 0 <= i < self@.len() ==> 0 <= #[trigger] self@[i] <= KNOT_LIMIT
    }

    /// The degree this knot vector serves.
    pub closed spec fn spec_degree(&self) -> int {
        self.degree as int
    }

    /// Create a knot vector of `degree` over the given knots.
    pub fn new(degree: usize, knot_vec: Vec<usize>) -> (r: Knots)
        ensures
            r.spec_degree() == degree,
            r@.len() == knot_vec@.len(),
            forall|i: int| 0 <= i < knot_vec@.len() ==> r@[i] == #[trigger] knot_vec@[i] as int,
    {
        Knots { degree, knot_vec }
    }

    /// The degree.
    pub fn degree(&self) -> (r: usize)
        ensures
            r == self.spec_degree(),
    {
        self.degree
    }

    /// Number of knots.
    pub fn len(&self) -> (r: usize)
        ensures
            r == self@.len(),
    {
        self.knot_vec.len()
    }

    /// The knot at position `i`.
    pub fn knot(&self, i: usize) -> (r: usize)
        requires
            i < self@.len(),
        ensures
            r as int == self@[i as int],
    {
        self.knot_vec[i]
    }

    /// The uniform knot vector for a curve of `degree` over
    /// `num_points` control points: `0, 1, ..., degree + num_points`.
    pub fn generate(degree: usize, num_points: usize) -> (r: Vec<usize>)
        requires
            degree + num_points + 1 <= KNOT_LIMIT,
        ensures
            r@.len() == degree + num_points + 1,
            forall|i: int| 0 <= i < r@.len() ==> #[trigger] r@[i] == i,
    {
        let n: usize = degree + num_points + 1;
        let mut out: Vec<usize> = Vec::new();
        let mut i: usize = 0;
        while i < n
            invariant
                i <= n,
                out@.len() == i,
                forall|j: int| 0 <= j < i ==> #[trigger] out@[j] == j,
            decreases n - i,
        {
            out.push(i);
            i += 1;
        }
        out
    }

    /// The clamped knot vector for a curve of `degree` over
    /// `num_points` control points: both ends repeat `degree + 1` times,
    /// the interior counts up by one.
    pub fn generate_clamped(degree: usize, num_points: usize) -> (r: Vec<usize>)
        requires
            degree < num_points,
            degree + num_points + 1 <= KNOT_LIMIT,
        ensures
            r@.len() == degree + num_points + 1,
            forall|i: int|
                0 <= i < r@.len() ==> #[trigger] r@[i] as int == spec_clamped_knot(
                    degree as int,
                    num_points as int,
                    i,
                ),
    {
        let n: usize = degree + num_points + 1;
        let mut out: Vec<usize> = Vec::new();
        let mut i: usize = 0;
        while i < n
            invariant
                i <= n,
                n == degree + num_points + 1,
                degree < num_points,
                out@.len() == i,
                forall|j: int|
                    0 <= j < i ==> #[trigger] out@[j] as int == spec_clamped_knot(
                        degree as int,
                        num_points as int,
                        j,
                    ),
            decreases n - i,
        {
            let v: usize = if i < degree {
                0
            } else if i - degree > num_points - degree {
                num_points - degree
            } else {
                i - degree
            };
            out.push(v);
            i += 1;
        }
        out
    }

    /// The inclusive usable parameter range, as a pair of knot values.
    pub fn range(&self) -> (r: (usize, usize))
        requires
            2 * self.spec_degree() < self@.len(),
        ensures
            r.0 as int == self@[self.spec_degree()],
            r.1 as int == self@[self@.len() - self.spec_degree() - 1],
    {
        (self.knot_vec[self.degree], self.knot_vec[self.knot_vec.len() - self.degree - 1])
    }

    /// Find the knot span holding the integer parameter `u`: the index
    /// `k` with `knot[k] <= u < knot[k + 1]`, except at the end of the
    /// range, where the last span with `knot[k] < u` is taken.
    pub fn find_span(&self, u: usize) -> (k: usize)
        requires
            self.wf(),
            eval_ready(self@, self.spec_degree()),
            self@[self.spec_degree()] <= u as int <= self@[self@.len() - self.spec_degree() - 1],
        ensures
            k as int == spec_find_span(self@, self.spec_degree(), u as int),
            self.spec_degree() <= k as int <= self@.len() - self.spec_degree() - 2,
            self@[k as int] <= u as int <= self@[k as int + 1],
            self@[k as int] < self@[k as int + 1],
            (u as int) < self@[self@.len() - self.spec_degree() - 1] ==> (u as int) < self@[k as int
                + 1],
            u as int == self@[self@.len() - self.spec_degree() - 1] ==> self@[k as int] < u as int,
    {
        proof {
            lemma_span_props(self@, self.spec_degree(), u as int);
        }
        let len: usize = self.knot_vec.len();
        let range_end: usize = self.knot_vec[len - self.degree - 1];
        if u == range_end {
            // look backward through the knots for the last one strictly
            // below the range end
            let mut i: usize = len - 1;
            while self.knot_vec[i] >= u
                invariant
                    self.wf(),
                    eval_ready(self@, self.spec_degree()),
                    self@[self.spec_degree()] < u as int,
                    self.spec_degree() <= i < self@.len(),
                    forall|m: int| i < m < self@.len() ==> self@[m] >= u as int,
                decreases i,
            {
                i = i - 1;
            }
            proof {
                lemma_below_unique(self@, self@.len() - 1, u as int, i as int);
            }
            i
        } else {
            // binary search for the span
            let mut low: usize = 0;
            let mut high: usize = len - 1;
            let mut mid: usize = (low + high) / 2;

            while u < self.knot_vec[mid] || u >= self.knot_vec[mid + 1]
                invariant
                    self.wf(),
                    eval_ready(self@, self.spec_degree()),
                    0 <= low < high < self@.len(),
                    low <= mid < high,
                    mid == (low + high) / 2,
                    self@[low as int] <= u as int,
                    (u as int) < self@[high as int],
                decreases high - low,
            {
                if u < self.knot_vec[mid] {
                    high = mid;
                } else {
                    low = mid;
                }
                mid = (low + high) / 2;
            }
            proof {
                assert forall|m: int| mid < m < self@.len() implies self@[m] > u as int by {
                    assert(self@[mid + 1] <= self@[m]);
                }
                lemma_at_or_below_unique(self@, self@.len() - 1, u as int, mid as int);
            }
            mid
        }
    }

    /// Overwrite the first and last `degree` knots with the ends of the
    /// usable range, so a curve touches its first and last control points.
    pub fn clamp_ends(&mut self)
        requires
            2 * old(self).spec_degree() < old(self)@.len(),
        ensures
            final(self)@ == spec_clamped(old(self)@, old(self).spec_degree()),
            final(self).spec_degree() == old(self).spec_degree(),
            old(self).wf() ==> final(self).wf(),
    {
        let len: usize = self.knot_vec.len();
        let start: usize = self.knot_vec[self.degree];
        let end: usize = self.knot_vec[len - self.degree - 1];
        let mut i: usize = 0;
        while i < self.degree
            invariant
                i <= self.degree,
                2 * self.degree < len,
                len == self@.len(),
                start as int == old(self)@[self.degree as int],
                end as int == old(self)@[len - self.degree - 1],
                self.degree == old(self).spec_degree(),
                forall|j: int| 0 <= j < i ==> #[trigger] self.knot_vec@[j] == start,
                forall|j: int| i <= j < len ==> #[trigger] self.knot_vec@[j] as int == old(self)@[j],
            decreases self.degree - i,
        {
            self.knot_vec.set(i, start);
            i += 1;
        }
        let mut j: usize = 0;
        while j < self.degree
            invariant
                j <= self.degree,
                2 * self.degree < len,
                len == self@.len(),
                start as int == old(self)@[self.degree as int],
                end as int == old(self)@[len - self.degree - 1],
                self.degree == old(self).spec_degree(),
                forall|m: int| 0 <= m < self.degree ==> #[trigger] self.knot_vec@[m] == start,
                forall|m: int|
                    self.degree <= m < len - j ==> #[trigger] self.knot_vec@[m] as int == old(
                        self,
                    )@[m],
                forall|m: int| len - j <= m < len ==> #[trigger] self.knot_vec@[m] == end,
            decreases self.degree - j,
        {
            self.knot_vec.set(len - j - 1, end);
            j += 1;
        }
        proof {
            assert(self@ =~= spec_clamped(old(self)@, old(self).spec_degree()));
            if old(self).wf() {
                assert(knots_sorted(self@)) by {
                    assert forall|a: int, b: int|
                        0 <= a <= b < self@.len() implies self@[a] <= self@[b] by {
                        assert(knots_sorted(old(self)@));
                    }
                }
            }
        }
    }

    /// Collapse the `length` knots after `index` to the knot at `index`
    /// and shift every later knot down by `length`, introducing a sharp
    /// point in an otherwise smooth curve.
    pub fn pinch(&mut self, index: usize, length: usize)
        requires
            index + length < old(self)@.len(),
            forall|m: int|
                index + length < m < old(self)@.len() ==> old(self)@[index as int] + length <= #[trigger] old(self)@[m],
        ensures
            final(self)@ == spec_pinched(old(self)@, index as int, length as int),
            final(self).spec_degree() == old(self).spec_degree(),
            old(self).wf() ==> final(self).wf(),
    {
        let len: usize = self.knot_vec.len();
        let pin: usize = self.knot_vec[index];
        let mut i: usize = 1;
        while i <= length
            invariant
                1 <= i <= length + 1,
                index + length < len,
                len == self@.len(),
                pin as int == old(self)@[index as int],
                self.degree == old(self).spec_degree(),
                forall|m: int| index < m < index + i ==> #[trigger] self.knot_vec@[m] == pin,
                forall|m: int|
                    0 <= m <= index ==> #[trigger] self.knot_vec@[m] as int == old(self)@[m],
                forall|m: int|
                    index + i <= m < len ==> #[trigger] self.knot_vec@[m] as int == old(self)@[m],
            decreases length + 1 - i,
        {
            self.knot_vec.set(index + i, pin);
            i += 1;
        }
        let mut m: usize = index + length + 1;
        while m < len
            invariant
                index + length + 1 <= m <= len,
                index + length < len,
                len == self@.len(),
                pin as int == old(self)@[index as int],
                self.degree == old(self).spec_degree(),
                forall|t: int|
                    index + length < t < len ==> old(self)@[index as int] + length <= #[trigger] old(self)@[t],
                forall|t: int|
                    0 <= t <= index ==> #[trigger] self.knot_vec@[t] as int == old(self)@[t],
                forall|t: int|
                    index < t <= index + length ==> #[trigger] self.knot_vec@[t] == pin,
                forall|t: int|
                    index + length < t < m ==> #[trigger] self.knot_vec@[t] as int == old(self)@[t]
                        - length,
                forall|t: int|
                    m <= t < len ==> #[trigger] self.knot_vec@[t] as int == old(self)@[t],
            decreases len - m,
        {
            let v: usize = self.knot_vec[m];
            proof {
                assert(old(self)@[index as int] + length <= old(self)@[m as int]);
            }
            self.knot_vec.set(m, v - length);
            m += 1;
        }
        proof {
            assert(self@ =~= spec_pinched(old(self)@, index as int, length as int));
            if old(self).wf() {
                assert(knots_sorted(self@)) by {
                    assert forall|a: int, b: int|
                        0 <= a <= b < self@.len() implies self@[a] <= self@[b] by {
                        assert(knots_sorted(old(self)@));
                        assert(old(self)@[a] <= old(self)@[b]);
                        if b > index + length {
                            assert(old(self)@[index as int] + length <= old(self)@[b]);
                            if a <= index {
                                assert(old(self)@[a] <= old(self)@[index as int]);
                            }
                        }
                    }
                }
            }
        }
    }
}

} // verus!
