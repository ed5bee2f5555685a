//! Evenly stepped parameter sequences over an inclusive range.
//!
//! A sequence steps from the start of the range by a fixed positive
//! step; its final element is exactly the end of the range, whether or
//! not the step divides the range evenly.

use vstd::prelude::*;

verus! {

use crate::types::COORD_LIMIT;
use crate::types::Fixed;
use vstd::arithmetic::div_mod::lemma_fundamental_div_mod;
use vstd::arithmetic::mul::lemma_mul_is_distributive_add_other_way;

/// How many values stepping from `start` by `step` yields before the
/// exact `end` is appended (when the step does not land on it).
pub open spec fn step_count(start: int, end: int, step: int) -> int {
    let q = (end - start) / step;
    if q * step == end - start {
        q + 1
    } else {
        q + 2
    }
}

/// The stepped parameter values: `start`, `start + step`, ... with the
/// exact `end` as the final element.
pub open spec fn quantize_seq(start: int, end: int, step: int) -> Seq<int> {
    Seq::new(
        step_count(start, end, step) as nat,
        |i: int|
            if i == step_count(start, end, step) - 1 {
                end
            } else {
                start + i * step
            },
    )
}

/// The stepped sequence begins exactly at the start of the range and
/// ends exactly at its end, whatever the step.
pub proof fn lemma_quantize_seq_endpoints(start: int, end: int, step: int)
    requires
        start <= end,
        1 <= step,
    ensures
        quantize_seq(start, end, step).len() == step_count(start, end, step),
        1 <= step_count(start, end, step),
        quantize_seq(start, end, step)[0] == start,
        quantize_seq(start, end, step)[step_count(start, end, step) - 1] == end,
        forall|i: int|
            0 <= i < step_count(start, end, step) ==> start <= #[trigger] quantize_seq(
                start,
                end,
                step,
            )[i] <= end,
{
    let q = (end - start) / step;
    lemma_fundamental_div_mod(end - start, step);
    assert(q >= 0) by {
        vstd::arithmetic::div_mod::lemma_div_pos_is_pos(end - start, step);
    }
    assert(step * q == q * step);
    assert(q * step <= end - start);
    if q == 0 {
        assert(q * step == 0) by (nonlinear_arith)
            requires
                q == 0,
        ;
    }
    assert forall|i: int|
        0 <= i < step_count(start, end, step) implies start <= #[trigger] quantize_seq(
        start,
        end,
        step,
    )[i] <= end by {
        if i < step_count(start, end, step) - 1 {
            assert(0 <= i * step) by (nonlinear_arith)
                requires
                    0 <= i,
                    1 <= step,
            ;
            assert(i * step <= q * step) by (nonlinear_arith)
                requires
                    i <= q,
                    1 <= step,
            ;
        }
    }
}

/// A finite stepping cursor over an inclusive range.
#[derive(Debug, Clone, Copy)]
pub struct StepIter {
    step: Fixed,
    position: Fixed,
    end: Fixed,
    remaining: usize,
}

impl StepIter {
    /// The step width.
    pub closed spec fn spec_step(&self) -> int {
        self.step.bits as int
    }

    /// The next regular position.
    pub closed spec fn spec_position(&self) -> int {
        self.position.bits as int
    }

    /// The exact final value.
    pub closed spec fn spec_end(&self) -> int {
        self.end.bits as int
    }

    /// Number of values still to come.
    pub closed spec fn spec_remaining(&self) -> int {
        self.remaining as int
    }

    /// The values still to come: regular positions, then the exact end.
    pub open spec fn spec_seq(&self) -> Seq<int> {
        Seq::new(
            self.spec_remaining() as nat,
            |i: int|
                if i == self.spec_remaining() - 1 {
                    self.spec_end()
                } else {
                    self.spec_position() + i * self.spec_step()
                },
        )
    }

    /// The cursor state stays within fixed-point bounds.
    pub open spec fn wf(&self) -> bool {
        &&& 0 <= self.spec_remaining()
        &&& 1 <= self.spec_step() <= 2 * COORD_LIMIT
        &&& -(COORD_LIMIT as int) <= self.spec_end() <= COORD_LIMIT
        &&& -(COORD_LIMIT as int) <= self.spec_position()
        &&& self.spec_remaining() >= 1 ==> self.spec_position() <= self.spec_end()
            + self.spec_step()
        &&& self.spec_remaining() >= 2 ==> self.spec_position() + (self.spec_remaining() - 2)
            * self.spec_step() <= self.spec_end()
    }

    /// A cursor over `range`, from its start to its exact end by
    /// `step`. The step is capped at twice the coordinate limit — the
    /// fixed-point headroom that keeps the cursor's advance
    /// representable; any larger step yields the same two values, the
    /// start and the end.
    pub fn new(step: Fixed, range: (Fixed, Fixed)) -> (r: StepIter)
        requires
            1 <= step.bits <= 2 * COORD_LIMIT,
            -COORD_LIMIT <= range.0.bits,
            range.0.bits <= range.1.bits,
            range.1.bits <= COORD_LIMIT,
            step_count(range.0.bits as int, range.1.bits as int, step.bits as int) <= usize::MAX,
        ensures
            r.wf(),
            r.spec_seq() == quantize_seq(range.0.bits as int, range.1.bits as int, step.bits as int),
            r.spec_seq().len() == step_count(
                range.0.bits as int,
                range.1.bits as int,
                step.bits as int,
            ),
    {
        let (start, end) = range;
        let diff: u64 = (end.bits - start.bits) as u64;
        let q: u64 = diff / (step.bits as u64);
        proof {
            lemma_fundamental_div_mod(diff as int, step.bits as int);
            vstd::arithmetic::div_mod::lemma_div_pos_is_pos(diff as int, step.bits as int);
            vstd::arithmetic::div_mod::lemma_div_nonincreasing(diff as int, step.bits as int);
            assert(step.bits as int * (q as int) == (q as int) * (step.bits as int));
            assert((q as int) * (step.bits as int) <= diff as int);
        }
        let remaining: usize = if q * (step.bits as u64) == diff {
            (q as usize) + 1
        } else {
            (q as usize) + 2
        };
        let r = StepIter { step, position: start, end, remaining };
        proof {
            lemma_quantize_seq_endpoints(start.bits as int, end.bits as int, step.bits as int);
            assert(r.spec_seq() =~= quantize_seq(
                start.bits as int,
                end.bits as int,
                step.bits as int,
            ));
            if r.spec_remaining() >= 2 {
                let c = step_count(start.bits as int, end.bits as int, step.bits as int);
                assert(quantize_seq(start.bits as int, end.bits as int, step.bits as int)[c - 2]
                    <= end.bits);
            }
        }
        r
    }

    /// Number of values still to come.
    pub fn len(&self) -> (r: usize)
        ensures
            r == self.spec_seq().len(),
    {
        self.remaining
    }

    /// The next value, if one is left.
    pub fn next(&mut self) -> (r: Option<Fixed>)
        requires
            old(self).wf(),
        ensures
            final(self).wf(),
            old(self).spec_remaining() == 0 ==> r is None && *final(self) == *old(self),
            old(self).spec_remaining() >= 1 ==> {
                &&& r is Some
                &&& r->Some_0.bits as int == old(self).spec_seq()[0]
                &&& final(self).spec_seq() == old(self).spec_seq().drop_first()
            },
    {
        if self.remaining == 0 {
            return None;
        }
        let here: Fixed = self.position;
        let out: Fixed = if self.remaining == 1 {
            self.end
        } else {
            here
        };
        self.position = Fixed { bits: self.position.bits + self.step.bits };
        self.remaining = self.remaining - 1;
        proof {
            let o = old(self);
            assert(0 * o.spec_step() == 0);
            assert forall|i: int| 0 <= i < self.spec_remaining() implies self.spec_seq()[i] == o
                .spec_seq()[i + 1] by {
                if i < self.spec_remaining() - 1 {
                    lemma_mul_is_distributive_add_other_way(self.spec_step(), i, 1);
                    assert((i + 1) * o.spec_step() == i * o.spec_step() + o.spec_step());
                }
            }
            assert(self.spec_seq() =~= o.spec_seq().drop_first());
            if self.spec_remaining() >= 2 {
                let m = self.spec_remaining();
                assert(o.spec_position() + (m - 1) * o.spec_step() <= o.spec_end());
                assert((m - 1) * o.spec_step() == (m - 2) * o.spec_step() + o.spec_step()) by {
                    lemma_mul_is_distributive_add_other_way(o.spec_step(), m - 2, 1);
                }
            }
            if self.spec_remaining() == 1 {
                let m = o.spec_remaining();
                assert(o.spec_position() + (m - 2) * o.spec_step() <= o.spec_end());
            }
        }
        Some(out)
    }
}

} // verus!
