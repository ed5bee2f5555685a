//! N dimensional surfaces.

mod b_surface;
mod nurbs;

pub use b_surface::BSurface;
pub use nurbs::NURBSurface;

use vstd::prelude::*;

verus! {

use crate::step_iter::StepIter;
use crate::types::Fixed;
use vstd::arithmetic::div_mod::lemma_fundamental_div_mod;
use vstd::arithmetic::div_mod::lemma_mod_bound;
use vstd::arithmetic::div_mod::lemma_div_pos_is_pos;
use vstd::arithmetic::div_mod::lemma_fundamental_div_mod_converse;

/// 2D surface coordinate.
pub type UV<T> = (T, T);

/// All `(u, v)` pairs of two stepped ranges, the `u` value varying
/// fastest: pair `n` of the cross product is
/// `(u_values[n % u_count], v_values[n / u_count])`.
pub struct UVRange {
    u_template: StepIter,
    u: StepIter,
    v: StepIter,
    v_current: Option<Fixed>,
}

impl UVRange {
    /// The fresh per-row `u` cursor.
    pub closed spec fn spec_u_template(&self) -> StepIter {
        self.u_template
    }

    /// The `u` cursor of the current row.
    pub closed spec fn spec_u(&self) -> StepIter {
        self.u
    }

    /// The cursor over the remaining later rows.
    pub closed spec fn spec_v(&self) -> StepIter {
        self.v
    }

    /// The `v` value of the current row, if any row is left.
    pub closed spec fn spec_v_current(&self) -> Option<Fixed> {
        self.v_current
    }

    /// Number of pairs still to come.
    pub open spec fn spec_len(&self) -> int {
        match self.spec_v_current() {
            Some(_) => self.spec_u().spec_seq().len() as int
                + self.spec_u_template().spec_seq().len() as int
                * self.spec_v().spec_seq().len() as int,
            None => 0,
        }
    }

    /// The pair at position `n` of what is still to come.
    pub open spec fn spec_pair(&self, n: int) -> (int, int) {
        let head = self.spec_u().spec_seq().len() as int;
        let row = self.spec_u_template().spec_seq().len() as int;
        match self.spec_v_current() {
            Some(vc) => if n < head {
                (self.spec_u().spec_seq()[n], vc.bits as int)
            } else {
                (
                    self.spec_u_template().spec_seq()[(n - head) % row],
                    self.spec_v().spec_seq()[(n - head) / row],
                )
            },
            None => (0, 0),
        }
    }

    /// The cursors fit together: one full-row template and a current
    /// row cursor no longer than it.
    pub open spec fn wf(&self) -> bool {
        &&& self.spec_u_template().wf()
        &&& self.spec_u().wf()
        &&& self.spec_v().wf()
        &&& 1 <= self.spec_u_template().spec_seq().len()
        &&& self.spec_u().spec_seq().len() <= self.spec_u_template().spec_seq().len()
        &&& self.spec_len() <= usize::MAX
        &&& (self.spec_v_current() is None ==> self.spec_v().spec_seq().len() == 0)
    }

    /// The cross product of the pairs of two stepping cursors.
    pub fn new(u: StepIter, v: StepIter) -> (r: UVRange)
        requires
            u.wf(),
            v.wf(),
            1 <= u.spec_seq().len(),
            u.spec_seq().len() * v.spec_seq().len() <= usize::MAX,
        ensures
            r.wf(),
            r.spec_len() == u.spec_seq().len() * v.spec_seq().len(),
            forall|n: int|
                0 <= n < r.spec_len() ==> #[trigger] r.spec_pair(n) == (
                    u.spec_seq()[n % u.spec_seq().len() as int],
                    v.spec_seq()[n / u.spec_seq().len() as int],
                ),
    {
        let mut v2: StepIter = v;
        let first: Option<Fixed> = v2.next();
        let r = UVRange { u_template: u, u, v: v2, v_current: first };
        proof {
            let row = u.spec_seq().len() as int;
            let vlen = v.spec_seq().len() as int;
            if first is Some {
                assert(v2.spec_seq() == v.spec_seq().drop_first());
                assert(r.spec_len() == row + row * (vlen - 1));
                assert(row + row * (vlen - 1) == row * vlen) by (nonlinear_arith);
                assert forall|n: int| 0 <= n < r.spec_len() implies #[trigger] r.spec_pair(n) == (
                    u.spec_seq()[n % row],
                    v.spec_seq()[n / row],
                ) by {
                    lemma_fundamental_div_mod(n, row);
                    lemma_mod_bound(n, row);
                    lemma_div_pos_is_pos(n, row);
                    if n < row {
                        lemma_fundamental_div_mod_converse(n, row, 0, n);
                        assert(n % row == n);
                        assert(n / row == 0);
                        assert(v.spec_seq()[0] == first->Some_0.bits as int);
                    } else {
                        let m = n - row;
                        lemma_fundamental_div_mod(m, row);
                        lemma_mod_bound(m, row);
                        lemma_div_pos_is_pos(m, row);
                        assert((m / row + 1) * row + m % row == n) by (nonlinear_arith)
                            requires
                                row * (m / row) + m % row == m,
                                n == row + m,
                        ;
                        lemma_fundamental_div_mod_converse(n, row, m / row + 1, m % row);
                        assert(n % row == m % row);
                        assert(n / row == m / row + 1);
                        vstd::arithmetic::div_mod::lemma_multiply_divide_lt(n, row, vlen);
                        assert(v.spec_seq()[n / row] == v2.spec_seq()[m / row]);
                    }
                }
            } else {
                assert(vlen == 0);
                assert(row * 0 == 0) by (nonlinear_arith);
            }
        }
        r
    }

    /// Number of pairs still to come.
    pub fn len(&self) -> (r: usize)
        requires
            self.wf(),
        ensures
            r == self.spec_len(),
    {
        match self.v_current {
            None => 0,
            Some(_) => {
                proof {
                    vstd::arithmetic::mul::lemma_mul_nonnegative(
                        self.spec_u_template().spec_seq().len() as int,
                        self.spec_v().spec_seq().len() as int,
                    );
                }
                self.u.len() + self.u_template.len() * self.v.len()
            },
        }
    }

    /// The next pair, if one is left.
    #[verifier::rlimit(60)]
    pub fn next(&mut self) -> (r: Option<(Fixed, Fixed)>)
        requires
            old(self).wf(),
        ensures
            final(self).wf(),
            old(self).spec_len() == 0 ==> r is None,
            old(self).spec_len() >= 1 ==> {
                &&& r is Some
                &&& (r->Some_0.0.bits as int, r->Some_0.1.bits as int) == old(self).spec_pair(0)
                &&& final(self).spec_len() == old(self).spec_len() - 1
                &&& forall|n: int|
                    0 <= n < final(self).spec_len() ==> #[trigger] final(self).spec_pair(n) == old(
                        self,
                    ).spec_pair(n + 1)
            },
    {
        let ghost o = *old(self);
        let vv: Fixed = match self.v_current {
            Some(v) => v,
            None => {
                return None;
            },
        };
        proof {
            let row = o.spec_u_template().spec_seq().len() as int;
            let vlen = o.spec_v().spec_seq().len() as int;
            vstd::arithmetic::mul::lemma_mul_nonnegative(row, vlen);
        }
        match self.u.next() {
            Some(uu) => {
                proof {
                    lemma_uv_shift(o, *self);
                }
                Some((uu, vv))
            },
            None => {
                // the current row is exhausted: move to the next one
                let next_v: Option<Fixed> = self.v.next();
                self.v_current = next_v;
                let vv2: Fixed = match next_v {
                    Some(v) => v,
                    None => {
                        proof {
                            let row = o.spec_u_template().spec_seq().len() as int;
                            assert(row * 0 == 0) by (nonlinear_arith);
                        }
                        return None;
                    },
                };
                self.u = self.u_template;
                match self.u.next() {
                    Some(uu) => {
                        proof {
                            let row = o.spec_u_template().spec_seq().len() as int;
                            vstd::arithmetic::div_mod::lemma_small_mod(0, row as nat);
                            vstd::arithmetic::div_mod::lemma_div_of0(row);
                            lemma_uv_row_advance(o, *self);
                            assert(o.spec_pair(0).0 == o.spec_u_template().spec_seq()[0]);
                        }
                        Some((uu, vv2))
                    },
                    None => {
                        proof {
                            assert(false);
                        }
                        None
                    },
                }
            },
        }
    }
}

/// Serving one `u` value inside a row drops the first pair and shifts
/// the rest.
proof fn lemma_uv_shift(o: UVRange, f: UVRange)
    requires
        o.wf(),
        o.spec_v_current() is Some,
        o.spec_u().spec_seq().len() >= 1,
        f.spec_u_template() == o.spec_u_template(),
        f.spec_v() == o.spec_v(),
        f.spec_v_current() == o.spec_v_current(),
        f.spec_u().wf(),
        f.spec_u().spec_seq() == o.spec_u().spec_seq().drop_first(),
    ensures
        f.wf(),
        f.spec_len() == o.spec_len() - 1,
        forall|n: int|
            0 <= n < f.spec_len() ==> #[trigger] f.spec_pair(n) == o.spec_pair(n + 1),
{
    let row = o.spec_u_template().spec_seq().len() as int;
    let head = o.spec_u().spec_seq().len() as int;
    vstd::arithmetic::mul::lemma_mul_nonnegative(row, o.spec_v().spec_seq().len() as int);
    assert forall|n: int| 0 <= n < f.spec_len() implies #[trigger] f.spec_pair(n) == o.spec_pair(
        n + 1,
    ) by {
        if n < head - 1 {
        } else {
            assert((n + 1) - head == n - (head - 1));
        }
    }
}

/// Finishing a row moves the cursor to the full next row.
proof fn lemma_uv_row_advance(o: UVRange, f: UVRange)
    requires
        o.wf(),
        o.spec_v_current() is Some,
        o.spec_u().spec_seq().len() == 0,
        o.spec_v().spec_seq().len() >= 1,
        f.spec_u_template() == o.spec_u_template(),
        f.spec_v().wf(),
        f.spec_v().spec_seq() == o.spec_v().spec_seq().drop_first(),
        f.spec_v_current() is Some,
        f.spec_v_current()->Some_0.bits as int == o.spec_v().spec_seq()[0],
        f.spec_u().wf(),
        f.spec_u().spec_seq() == o.spec_u_template().spec_seq().drop_first(),
    ensures
        f.wf(),
        f.spec_len() == o.spec_len() - 1,
        forall|n: int|
            0 <= n < f.spec_len() ==> #[trigger] f.spec_pair(n) == o.spec_pair(n + 1),
{
    let row = o.spec_u_template().spec_seq().len() as int;
    let vlen = o.spec_v().spec_seq().len() as int;
    vstd::arithmetic::mul::lemma_mul_nonnegative(row, vlen);
    vstd::arithmetic::mul::lemma_mul_nonnegative(row, vlen - 1);
    assert(o.spec_len() == row * vlen);
    assert(f.spec_len() == (row - 1) + row * (vlen - 1));
    assert(row * vlen == 1 + (row - 1) + row * (vlen - 1)) by (nonlinear_arith);
    assert forall|n: int| 0 <= n < f.spec_len() implies #[trigger] f.spec_pair(n) == o.spec_pair(
        n + 1,
    ) by {
        lemma_fundamental_div_mod(n + 1, row);
        lemma_mod_bound(n + 1, row);
        lemma_div_pos_is_pos(n + 1, row);
        if n < row - 1 {
            // still inside the new first row
            lemma_fundamental_div_mod_converse(n + 1, row, 0, n + 1);
            assert((n + 1) % row == n + 1);
            assert((n + 1) / row == 0);
        } else {
            let m = n - (row - 1);
            lemma_fundamental_div_mod(m, row);
            lemma_mod_bound(m, row);
            lemma_div_pos_is_pos(m, row);
            assert((m / row + 1) * row + m % row == n + 1) by (nonlinear_arith)
                requires
                    row * (m / row) + m % row == m,
                    n + 1 == row + m,
            ;
            lemma_fundamental_div_mod_converse(n + 1, row, m / row + 1, m % row);
            assert((n + 1) % row == m % row);
            assert((n + 1) / row == m / row + 1);
            vstd::arithmetic::div_mod::lemma_multiply_divide_lt(n + 1, row, vlen);
            assert(o.spec_v().spec_seq()[m / row + 1] == f.spec_v().spec_seq()[m / row]);
        }
    }
}

} // verus!
