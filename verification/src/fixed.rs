//! Fixed-point scalars.
//!
//! Every scalar quantity of the simulation — biomass, resource
//! concentration, coordinate, policy ratio — is an `i64` counting
//! millionths of a unit. `FX_ONE` is the number one.

use vstd::prelude::*;
use vstd::arithmetic::div_mod::{lemma_div_is_ordered, lemma_div_multiples_vanish};

verus! {

/// The number one: scalars count millionths of a unit.
pub const FX_ONE: i64 = 1_000_000;

/// The circle constant, in millionths.
pub const FX_PI: i64 = 3_141_593;

/// cos 45 degrees == sin 45 degrees, in millionths.
pub const FX_COS_45: i64 = 707_107;

/// The fixed-point product, rounded toward zero.
pub open spec fn fx_mul_s(a: int, b: int) -> int {
    if a * b >= 0 {
        (a * b) / (FX_ONE as int)
    } else {
        -((-(a * b)) / (FX_ONE as int))
    }
}

/// The fixed-point quotient of non-negative `a` by positive `b`,
/// rounded down.
pub open spec fn fx_div_s(a: int, b: int) -> int
    recommends
        a >= 0,
        b > 0,
{
    (a * (FX_ONE as int)) / b
}

/// `r` is the square root of `n`, rounded down.
pub open spec fn is_sqrt_floor(r: int, n: int) -> bool {
    0 <= r && r * r <= n && (r + 1) * (r + 1) > n
}

/// The square root of `n`, rounded down.
pub open spec fn sqrt_floor(n: int) -> int {
    choose|r: int| is_sqrt_floor(r, n)
}

/// The square root rounded down is unique.
pub proof fn lemma_sqrt_floor_unique(r1: int, r2: int, n: int)
    requires
        is_sqrt_floor(r1, n),
        is_sqrt_floor(r2, n),
    ensures
        r1 == r2,
{
    if r1 < r2 {
        assert((r1 + 1) * (r1 + 1) <= r2 * r2) by (nonlinear_arith)
            requires 0 <= r1, 0 <= r2, r1 < r2;
    }
    if r2 < r1 {
        assert((r2 + 1) * (r2 + 1) <= r1 * r1) by (nonlinear_arith)
            requires 0 <= r1, 0 <= r2, r2 < r1;
    }
}

/// A fixed-point product of a non-negative scalar and a weight of at
/// most one is non-negative and no larger than the scalar.
pub proof fn lemma_fx_mul_share(a: int, b: int)
    requires
        0 <= a,
        0 <= b <= FX_ONE as int,
    ensures
        0 <= fx_mul_s(a, b) <= a,
{
    let f = FX_ONE as int;
    assert(0 <= a * b <= a * f) by (nonlinear_arith)
        requires 0 <= a, 0 <= b <= f;
    lemma_div_is_ordered(a * b, a * f, f);
    lemma_div_multiples_vanish(a, f);
}

/// A fixed-point product of a non-negative scalar grows with its
/// weight, and a weight of exactly one returns the scalar.
pub proof fn lemma_fx_mul_mono(a: int, b1: int, b2: int)
    requires
        0 <= a,
        0 <= b1 <= b2,
    ensures
        fx_mul_s(a, b1) <= fx_mul_s(a, b2),
        fx_mul_s(a, FX_ONE as int) == a,
{
    let f = FX_ONE as int;
    assert(0 <= a * b1 <= a * b2) by (nonlinear_arith)
        requires 0 <= a, 0 <= b1 <= b2;
    lemma_div_is_ordered(a * b1, a * b2, f);
    lemma_div_multiples_vanish(a, f);
    assert(a * f >= 0) by (nonlinear_arith)
        requires 0 <= a, 0 < f;
}

/// Rounding down distributes over a sum up to one unit.
pub proof fn lemma_floor_superadd(a: int, b: int, d: int)
    requires
        0 <= a,
        0 <= b,
        0 < d,
    ensures
        a / d + b / d <= (a + b) / d <= a / d + b / d + 1,
{
    let qa = a / d;
    let ra = a % d;
    let qb = b / d;
    let rb = b % d;
    vstd::arithmetic::div_mod::lemma_fundamental_div_mod(a, d);
    vstd::arithmetic::div_mod::lemma_fundamental_div_mod(b, d);
    vstd::arithmetic::div_mod::lemma_mod_division_less_than_divisor(a, d);
    vstd::arithmetic::div_mod::lemma_mod_division_less_than_divisor(b, d);
    assert((qa + qb) * d == qa * d + qb * d) by (nonlinear_arith);
    assert((qa + qb + 1) * d == qa * d + qb * d + d) by (nonlinear_arith);
    if ra + rb < d {
        assert(a + b == (qa + qb) * d + (ra + rb));
        vstd::arithmetic::div_mod::lemma_fundamental_div_mod_converse(a + b, d, qa + qb, ra + rb);
    } else {
        assert(a + b == (qa + qb + 1) * d + (ra + rb - d));
        vstd::arithmetic::div_mod::lemma_fundamental_div_mod_converse(
            a + b, d, qa + qb + 1, ra + rb - d);
    }
}

/// Fixed-point multiplication through a 128-bit intermediate.
pub fn fx_mul(a: i64, b: i64) -> (r: i64)
    requires
        -0x4000_0000_0000_0000 <= fx_mul_s(a as int, b as int) <= 0x4000_0000_0000_0000,
    ensures
        r == fx_mul_s(a as int, b as int),
{
    let p: i128 = (a as i128) * (b as i128);
    if p >= 0 {
        (p / (FX_ONE as i128)) as i64
    } else {
        -((-p / (FX_ONE as i128)) as i64)
    }
}

/// Fixed-point division through a 128-bit intermediate.
pub fn fx_div(a: i64, b: i64) -> (r: i64)
    requires
        0 <= a,
        0 < b,
        fx_div_s(a as int, b as int) <= 0x4000_0000_0000_0000,
    ensures
        r == fx_div_s(a as int, b as int),
{
    (((a as i128) * (FX_ONE as i128)) / (b as i128)) as i64
}

/// The smaller of two scalars.
pub fn fx_min(a: i64, b: i64) -> (r: i64)
    ensures
        r == if a < b { a as int } else { b as int },
{
    if a < b { a } else { b }
}

/// The larger of two scalars.
pub fn fx_max(a: i64, b: i64) -> (r: i64)
    ensures
        r == if a > b { a as int } else { b as int },
{
    if a > b { a } else { b }
}

/// The square root of a plain integer, rounded down, by binary search.
pub fn isqrt(n: i64) -> (r: i64)
    requires
        0 <= n,
    ensures
        is_sqrt_floor(r as int, n as int),
        r == sqrt_floor(n as int),
{
    let mut lo: i64 = 0;
    let mut hi: i64 = 3_037_000_500;
    assert(3_037_000_500int * 3_037_000_500int > n as int);
    while lo + 1 < hi
        invariant
            0 <= lo < hi <= 3_037_000_500,
            (lo as int) * (lo as int) <= n as int,
            (hi as int) * (hi as int) > n as int,
        decreases hi - lo,
    {
        let mid = lo + (hi - lo) / 2;
        proof {
            assert((mid as int) * (mid as int) <= 3_037_000_500int * 3_037_000_500int)
                by (nonlinear_arith)
                requires 0 <= mid <= 3_037_000_500int;
        }
        if (mid as i128) * (mid as i128) <= n as i128 {
            lo = mid;
        } else {
            hi = mid;
        }
    }
    proof {
        assert(is_sqrt_floor(lo as int, n as int));
        lemma_sqrt_floor_unique(lo as int, sqrt_floor(n as int), n as int);
    }
    lo
}

/// The square root of a fixed-point scalar, rounded down: the result
/// is the scalar `r` with `r * r` closest to `x` from below.
pub fn fx_sqrt(x: i64) -> (r: i64)
    requires
        0 <= x <= 9_223_372_036_854,
    ensures
        is_sqrt_floor(r as int, x as int * FX_ONE as int),
        r == sqrt_floor(x as int * FX_ONE as int),
{
    isqrt(x * FX_ONE)
}

/// Clamping a scalar into a closed interval.
pub trait Cap where Self: Sized {
    /// What clamping yields.
    spec fn cap_spec(self, min: Self, max: Self) -> Self;

    fn cap(self, min: Self, max: Self) -> (r: Self)
        ensures
            r == self.cap_spec(min, max),
    ;
}

impl Cap for i64 {
    open spec fn cap_spec(self, min: Self, max: Self) -> Self {
        if self < min {
            min
        } else if self > max {
            max
        } else {
            self
        }
    }

    /// Returns `self` clamped into `[min, max]`.
    fn cap(self, min: Self, max: Self) -> (r: Self) {
        if self < min {
            min
        } else if self > max {
            max
        } else {
            self
        }
    }
}

} // verus!
