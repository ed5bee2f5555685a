//! The scalar type of the engine.
//!
//! Knot values are integers; evaluation parameters, control-point
//! coordinates and evaluated points are fixed-point numbers: an `i64`
//! count of `1 / SCALE` units. Multiplication and division truncate
//! toward zero, so every operation is an exact function of its operands.

use vstd::prelude::*;

verus! {

use vstd::arithmetic::div_mod::lemma_fundamental_div_mod;
use vstd::arithmetic::div_mod::lemma_div_is_ordered;
use vstd::arithmetic::div_mod::lemma_div_nonincreasing;
use vstd::arithmetic::div_mod::lemma_div_pos_is_pos;
use vstd::arithmetic::div_mod::lemma_div_by_multiple;
use vstd::arithmetic::div_mod::lemma_multiply_divide_le;
use vstd::arithmetic::mul::lemma_mul_inequality;

/// Number of fixed-point units in one; 16 fractional bits.
pub const SCALE: i64 = 65536;

/// Largest magnitude, in fixed-point units, allowed for a control-point
/// coordinate, an evaluation parameter or an evaluated coordinate.
pub const COORD_LIMIT: i64 = 68719476736;

/// Largest magnitude, in fixed-point units, a homogeneous (weighted)
/// coordinate can reach: `COORD_LIMIT * COORD_LIMIT / SCALE`.
pub const HOMOG_LIMIT: i64 = 72057594037927936;

/// Largest value allowed for a knot; `KNOT_LIMIT * SCALE == COORD_LIMIT`.
pub const KNOT_LIMIT: usize = 1048576;

/// Magnitude of an integer.
pub open spec fn abs_val(a: int) -> int {
    if a >= 0 {
        a
    } else {
        -a
    }
}

/// Division truncating toward zero, for a nonzero divisor.
pub open spec fn tdiv(a: int, b: int) -> int {
    if b >= 0 {
        if a >= 0 {
            a / b
        } else {
            -((-a) / b)
        }
    } else {
        if a >= 0 {
            -(a / (-b))
        } else {
            (-a) / (-b)
        }
    }
}

/// Product of two fixed-point values, truncated toward zero.
pub open spec fn fix_mul(a: int, b: int) -> int {
    tdiv(a * b, SCALE as int)
}

/// Quotient of two fixed-point values, truncated toward zero.
pub open spec fn fix_div(a: int, b: int) -> int {
    tdiv(a * (SCALE as int), b)
}

/// Truncating division keeps the sign of the dividend and never
/// grows its magnitude: `|tdiv(a, b)| * b <= |a|`.
pub proof fn lemma_tdiv_mag(a: int, b: int)
    requires
        1 <= b,
    ensures
        0 <= abs_val(tdiv(a, b)) * b <= abs_val(a),
        abs_val(tdiv(a, b)) <= abs_val(a),
        a >= 0 ==> tdiv(a, b) >= 0,
        a <= 0 ==> tdiv(a, b) <= 0,
{
    let m = abs_val(a);
    lemma_div_pos_is_pos(m, b);
    lemma_fundamental_div_mod(m, b);
    assert(abs_val(tdiv(a, b)) == m / b);
    assert((m / b) * b == b * (m / b));
    lemma_div_nonincreasing(m, b);
    lemma_mul_inequality(1, b, m / b);
}

/// A dividend below `b * c` has quotient at most `c`.
pub proof fn lemma_tdiv_upper(a: int, b: int, c: int)
    requires
        0 <= a,
        1 <= b,
        a <= b * c,
    ensures
        tdiv(a, b) <= c,
{
    lemma_multiply_divide_le(a, b, c);
}

/// Division is exact on multiples of the divisor, whatever the signs.
pub proof fn lemma_tdiv_exact(k: int, b: int)
    requires
        b != 0,
    ensures
        tdiv(k * b, b) == k,
{
    if b >= 1 {
        if k >= 0 {
            lemma_div_by_multiple(k, b);
        } else {
            lemma_div_by_multiple(-k, b);
            assert(-(k * b) == (-k) * b) by (nonlinear_arith);
            assert(k * b <= 0) by (nonlinear_arith)
                requires
                    k <= 0,
                    b >= 1,
            ;
        }
    } else {
        let b2 = -b;
        if k >= 0 {
            lemma_div_by_multiple(k, b2);
            assert(-(k * b) == k * b2) by (nonlinear_arith)
                requires
                    b2 == -b,
            ;
            assert(k * b <= 0) by (nonlinear_arith)
                requires
                    k >= 0,
                    b <= -1,
            ;
        } else {
            lemma_div_by_multiple(-k, b2);
            assert(k * b == (-k) * b2) by (nonlinear_arith)
                requires
                    b2 == -b,
            ;
            assert(k * b >= 0) by (nonlinear_arith)
                requires
                    k <= 0,
                    b <= -1,
            ;
        }
    }
}

/// Multiplying by one and by zero is exact in fixed point.
pub proof fn lemma_fix_mul_units(x: int)
    ensures
        fix_mul(x, SCALE as int) == x,
        fix_mul(x, 0) == 0,
        fix_div(x, SCALE as int) == x,
{
    lemma_tdiv_exact(x, SCALE as int);
}

/// A blend `x * (1 - alpha) + y * alpha` with `alpha` in `[0, 1]` stays
/// within any symmetric bound that holds for both operands.
pub proof fn lemma_blend_coord_bounds(x: int, y: int, alpha: int, m: int)
    requires
        -m <= x <= m,
        -m <= y <= m,
        0 <= alpha <= SCALE,
    ensures
        -m <= fix_mul(x, SCALE - alpha) + fix_mul(y, alpha) <= m,
        abs_val(fix_mul(x, SCALE - alpha)) <= m,
        abs_val(fix_mul(y, alpha)) <= m,
{
    let s = SCALE as int;
    let t1 = fix_mul(x, s - alpha);
    let t2 = fix_mul(y, alpha);
    lemma_tdiv_mag(x * (s - alpha), s);
    lemma_tdiv_mag(y * alpha, s);
    assert(abs_val(x * (s - alpha)) == abs_val(x) * (s - alpha)) by (nonlinear_arith)
        requires
            0 <= s - alpha,
    ;
    assert(abs_val(y * alpha) == abs_val(y) * alpha) by (nonlinear_arith)
        requires
            0 <= alpha,
    ;
    assert(abs_val(x) * (s - alpha) <= m * (s - alpha)) by (nonlinear_arith)
        requires
            abs_val(x) <= m,
            0 <= s - alpha,
    ;
    assert(abs_val(y) * alpha <= m * alpha) by (nonlinear_arith)
        requires
            abs_val(y) <= m,
            0 <= alpha,
    ;
    assert(m * (s - alpha) + m * alpha == m * s) by (nonlinear_arith);
    assert(abs_val(t1) * s + abs_val(t2) * s <= m * s);
    assert(abs_val(t1) + abs_val(t2) <= m) by (nonlinear_arith)
        requires
            abs_val(t1) * s + abs_val(t2) * s <= m * s,
            s >= 1,
            0 <= abs_val(t1),
            0 <= abs_val(t2),
    ;
    assert(abs_val(t1) <= m);
    assert(abs_val(t2) <= m);
}

/// A fixed-point scalar: `bits / SCALE`.
#[derive(Clone, Copy, Debug, PartialEq, Eq, Structural)]
pub struct Fixed {
    /// The underlying count of `1 / SCALE` units.
    pub bits: i64,
}

/// The capability the engine asks of a scalar type.
pub trait Scalar: Sized {
    /// The multiplicative unit.
    fn one() -> Self;
}

impl Scalar for Fixed {
    fn one() -> (r: Fixed)
        ensures
            r.bits == SCALE,
    {
        Fixed { bits: SCALE }
    }
}

impl Fixed {
    /// The scalar zero.
    pub fn zero() -> (r: Fixed)
        ensures
            r.bits == 0,
    {
        Fixed { bits: 0 }
    }

    /// The scalar holding the integer `v`.
    pub fn from_int(v: i64) -> (r: Fixed)
        requires
            -140737488355328 <= v <= 140737488355327,
        ensures
            r.bits == v * SCALE,
    {
        Fixed { bits: v * SCALE }
    }

    /// The scalar with the given count of `1 / SCALE` units.
    pub fn from_bits(bits: i64) -> (r: Fixed)
        ensures
            r.bits == bits,
    {
        Fixed { bits }
    }

    /// The scalar closest to `n / d` toward zero, for positive `d`.
    pub fn from_ratio(n: i64, d: i64) -> (r: Fixed)
        requires
            1 <= d,
            -140737488355327 <= n <= 140737488355327,
        ensures
            r.bits == tdiv(n * SCALE, d as int),
    {
        let neg: bool = n < 0;
        let mag: u64 = if neg {
            (-n) as u64
        } else {
            n as u64
        };
        let q: u64 = (mag * 65536) / (d as u64);
        proof {
            lemma_div_nonincreasing(mag as int * 65536, d as int);
        }
        let qi: i64 = q as i64;
        if neg {
            Fixed { bits: -qi }
        } else {
            Fixed { bits: qi }
        }
    }

    /// Sum of two scalars.
    pub fn plus(self, o: Fixed) -> (r: Fixed)
        requires
            i64::MIN <= self.bits + o.bits <= i64::MAX,
        ensures
            r.bits == self.bits + o.bits,
    {
        Fixed { bits: self.bits + o.bits }
    }

    /// Difference of two scalars.
    pub fn minus(self, o: Fixed) -> (r: Fixed)
        requires
            i64::MIN <= self.bits - o.bits <= i64::MAX,
        ensures
            r.bits == self.bits - o.bits,
    {
        Fixed { bits: self.bits - o.bits }
    }

    /// Truncated product of two scalars.
    pub fn times(self, o: Fixed) -> (r: Fixed)
        requires
            abs_val(self.bits as int) <= 0x1000_0000_0000_0000,
            abs_val(o.bits as int) <= 0x1000_0000_0000_0000,
            abs_val(self.bits as int * o.bits as int) <= 0x7fff_ffff_ffff_ffff * (SCALE as int),
        ensures
            r.bits as int == fix_mul(self.bits as int, o.bits as int),
    {
        Fixed { bits: mul_fix_bits(self.bits, o.bits) }
    }

    /// The integer part, for a nonnegative scalar within the knot range.
    pub fn floor_usize(&self) -> (r: usize)
        requires
            0 <= self.bits <= COORD_LIMIT,
        ensures
            r == self.bits as int / SCALE as int,
            r <= KNOT_LIMIT,
    {
        proof {
            lemma_div_is_ordered(self.bits as int, COORD_LIMIT as int, SCALE as int);
            lemma_div_pos_is_pos(self.bits as int, SCALE as int);
        }
        ((self.bits as u64) / 65536) as usize
    }
}

/// Truncated fixed-point product on raw bit counts.
pub fn mul_fix_bits(a: i64, b: i64) -> (r: i64)
    requires
        abs_val(a as int) <= 0x1000_0000_0000_0000,
        abs_val(b as int) <= 0x1000_0000_0000_0000,
        abs_val(a as int * b as int) <= 0x7fff_ffff_ffff_ffff * (SCALE as int),
    ensures
        r as int == fix_mul(a as int, b as int),
        abs_val(r as int) * (SCALE as int) <= abs_val(a as int * b as int),
{
    let neg: bool = (a < 0) != (b < 0);
    let ma: u64 = if a < 0 {
        (-a) as u64
    } else {
        a as u64
    };
    let mb: u64 = if b < 0 {
        (-b) as u64
    } else {
        b as u64
    };
    proof {
        assert(ma as int * mb as int <= 0x1000_0000_0000_0000 * 0x1000_0000_0000_0000)
            by (nonlinear_arith)
            requires
                0 <= ma as int <= 0x1000_0000_0000_0000,
                0 <= mb as int <= 0x1000_0000_0000_0000,
        ;
    }
    let mp: u128 = (ma as u128) * (mb as u128);
    proof {
        assert(ma as int * mb as int == abs_val(a as int * b as int)) by (nonlinear_arith)
            requires
                ma as int == abs_val(a as int),
                mb as int == abs_val(b as int),
        ;
        lemma_multiply_divide_le(
            mp as int,
            SCALE as int,
            0x7fff_ffff_ffff_ffff,
        );
    }
    let q: u128 = mp / 65536;
    let qi: i64 = q as i64;
    proof {
        lemma_tdiv_mag(a as int * b as int, SCALE as int);
        if neg {
            assert(a as int * b as int <= 0) by (nonlinear_arith)
                requires
                    neg == ((a < 0) != (b < 0)),
                    neg,
            ;
            assert(mp as int == -(a as int * b as int));
        } else {
            assert(a as int * b as int >= 0) by (nonlinear_arith)
                requires
                    neg == ((a < 0) != (b < 0)),
                    !neg,
            ;
            assert(mp as int == a as int * b as int);
        }
    }
    if neg {
        -qi
    } else {
        qi
    }
}

/// Capped fixed-point division for the rational projection: the exact
/// truncated quotient, or nothing when it falls outside the coordinate
/// range.
pub fn div_fix_capped(a: i64, b: i64) -> (r: Option<i64>)
    requires
        b != 0,
        abs_val(a as int) <= HOMOG_LIMIT,
        abs_val(b as int) <= HOMOG_LIMIT,
    ensures
        match r {
            Some(q) => q as int == fix_div(a as int, b as int) && abs_val(q as int) <= COORD_LIMIT,
            None => abs_val(fix_div(a as int, b as int)) > COORD_LIMIT,
        },
{
    let neg: bool = (a < 0) != (b < 0);
    let ma: u128 = if a < 0 {
        ((-a) as u64) as u128
    } else {
        (a as u64) as u128
    };
    let mb: u128 = if b < 0 {
        ((-b) as u64) as u128
    } else {
        (b as u64) as u128
    };
    let scaled: u128 = ma * 65536;
    let q: u128 = scaled / mb;
    proof {
        let s = SCALE as int;
        assert(ma as int == abs_val(a as int));
        assert(mb as int == abs_val(b as int));
        assert(scaled as int == abs_val(a as int * s)) by (nonlinear_arith)
            requires
                ma as int == abs_val(a as int),
                scaled as int == ma as int * 65536,
                s == 65536,
        ;
        if b as int >= 1 {
            if a >= 0 {
                assert(fix_div(a as int, b as int) == (a as int * s) / (b as int));
                assert(q as int == fix_div(a as int, b as int));
            } else {
                assert(q as int == -fix_div(a as int, b as int));
            }
        } else {
            if a >= 0 {
                assert(q as int == -fix_div(a as int, b as int));
            } else {
                assert(q as int == fix_div(a as int, b as int));
            }
        }
        assert(abs_val(fix_div(a as int, b as int)) == q as int);
    }
    if q > (COORD_LIMIT as u128) {
        return None;
    }
    let qi: i64 = q as i64;
    if neg {
        Some(-qi)
    } else {
        Some(qi)
    }
}

} // verus!
