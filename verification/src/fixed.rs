//! Fixed-point scalar arithmetic.
//!
//! A scalar is an `i64` holding `SCALE` times its real value.  Multiplication
//! and division round toward negative infinity (floor), which matches the
//! semantics of `int` division by a positive divisor; square roots round down.

use vstd::prelude::*;
use vstd::arithmetic::div_mod::{
    lemma_div_is_ordered, lemma_div_multiples_vanish, lemma_fundamental_div_mod,
    lemma_fundamental_div_mod_converse,
};

verus! {

/// Number of raw units per real unit: raw value `v` stands for `v / SCALE`.
pub const SCALE: i64 = 65536;

/// Fixed-point product of two raw scalars, rounded toward negative infinity.
pub open spec fn mul_fx(a: int, b: int) -> int {
    (a * b) / (SCALE as int)
}

/// Fixed-point quotient of two raw scalars, rounded toward negative infinity.
pub open spec fn div_fx(a: int, b: int) -> int {
    (a * (SCALE as int)) / b
}

/// Floor division of `n` by a positive divisor `d`, over `i128` values.
pub(crate) fn div_floor_i128(n: i128, d: i128) -> (q: i128)
    requires
        0 < d,
        i128::MIN < n,
    ensures
        q == n as int / d as int,
{
    if n >= 0 {
        let qu: u128 = (n as u128) / (d as u128);
        qu as i128
    } else {
        let p: u128 = (-n) as u128;
        let du: u128 = d as u128;
        let m: u128 = (p - 1) / du + 1;
        proof {
            lemma_ceil_is_neg_floor(p as int, d as int);
        }
        -(m as i128)
    }
}

/// For positive `p` and `d`: the ceiling of `p / d`, written `(p-1)/d + 1`,
/// equals the negation of the floor of `(-p) / d`.
proof fn lemma_ceil_is_neg_floor(p: int, d: int)
    requires
        0 < p,
        0 < d,
    ensures
        (p - 1) / d + 1 == -((-p) / d),
{
    let q = (p - 1) / d;
    let r = (p - 1) % d;
    lemma_fundamental_div_mod(p - 1, d);
    assert(p - 1 == q * d + r);
    // -p == (-q - 1) * d + (d - 1 - r), with 0 <= d - 1 - r < d
    assert((-q - 1) * d == -(q * d) - d) by (nonlinear_arith);
    lemma_fundamental_div_mod_converse(-p, d, -q - 1, d - 1 - r);
}

/// Fixed-point multiplication: `r` represents the real product of `a` and `b`.
pub fn fx_mul(a: i64, b: i64) -> (r: i64)
    requires
        i64::MIN <= mul_fx(a as int, b as int) <= i64::MAX,
    ensures
        r == mul_fx(a as int, b as int),
{
    let p: i128 = (a as i128) * (b as i128);
    let q: i128 = div_floor_i128(p, SCALE as i128);
    q as i64
}

/// Fixed-point division by a positive scalar: `r` represents `a / b`.
pub fn fx_div(a: i64, b: i64) -> (r: i64)
    requires
        0 < b,
        i64::MIN <= div_fx(a as int, b as int) <= i64::MAX,
    ensures
        r == div_fx(a as int, b as int),
{
    let n: i128 = (a as i128) * (SCALE as i128);
    let q: i128 = div_floor_i128(n, b as i128);
    q as i64
}

/// `r` is the integer square root of `n`, rounded down.
pub open spec fn is_sqrt_floor(n: int, r: int) -> bool {
    0 <= r && r * r <= n && n < (r + 1) * (r + 1)
}

/// The integer square root of `n`, rounded down.
pub open spec fn sqrt_floor(n: int) -> int {
    choose|r: int| is_sqrt_floor(n, r)
}

/// The rounded-down square root is unique: any witness is the value of `sqrt_floor`.
pub proof fn lemma_sqrt_floor(n: int, r: int)
    requires
        is_sqrt_floor(n, r),
    ensures
        sqrt_floor(n) == r,
{
    let c = choose|s: int| is_sqrt_floor(n, s);
    assert(is_sqrt_floor(n, c));
    assert forall|r1: int, r2: int|
        is_sqrt_floor(n, r1) && is_sqrt_floor(n, r2) implies r1 == r2 by {
        assert(r1 < r2 ==> (r1 + 1) * (r1 + 1) <= r2 * r2) by (nonlinear_arith)
            requires
                0 <= r1,
                0 <= r2,
        ;
        assert(r2 < r1 ==> (r2 + 1) * (r2 + 1) <= r1 * r1) by (nonlinear_arith)
            requires
                0 <= r1,
                0 <= r2,
        ;
    }
}

/// Integer square root, rounded down.
pub fn isqrt_u128(n: u128) -> (r: u128)
    ensures
        r * r <= n,
        n < (r + 1) * (r + 1),
        r < 0x1_0000_0000_0000_0000,
        r == sqrt_floor(n as int),
{
    let mut lo: u128 = 0;
    let mut hi: u128 = if n < 0x1_0000 {
        0x100
    } else if n < 0x1_0000_0000 {
        0x1_0000
    } else if n < 0x1_0000_0000_0000_0000 {
        0x1_0000_0000
    } else {
        0x1_0000_0000_0000_0000
    };
    while lo + 1 < hi
        invariant
            lo < hi <= 0x1_0000_0000_0000_0000,
            lo * lo <= n,
            n < hi * hi,
        decreases hi - lo,
    {
        let mid: u128 = lo + (hi - lo) / 2;
        proof {
            assert(mid * mid < u128::MAX) by (nonlinear_arith)
                requires
                    mid < 0x1_0000_0000_0000_0000u128;
        }
        if mid * mid <= n {
            lo = mid;
        } else {
            hi = mid;
        }
    }
    proof {
        lemma_sqrt_floor(n as int, lo as int);
    }
    lo
}

/// The fixed-point square root of a nonnegative raw scalar `a`: the real root
/// of `a / SCALE`, scaled back, is the integer root of `a * SCALE`.
pub open spec fn sqrt_fx(a: int) -> int {
    sqrt_floor(a * (SCALE as int))
}

/// Fixed-point square root, rounded down.
pub fn fx_sqrt(a: i64) -> (r: i64)
    requires
        0 <= a,
    ensures
        r == sqrt_fx(a as int),
        0 <= r,
        r * r <= a * (SCALE as int),
        a * (SCALE as int) < (r + 1) * (r + 1),
{
    let n: u128 = (a as u128) * (SCALE as u128);
    let r: u128 = isqrt_u128(n);
    proof {
        lemma_sqrt_floor(n as int, r as int);
        assert(n <= 0x7fff_ffff_ffff_ffff_0000u128) by (nonlinear_arith)
            requires
                n == (a as u128) * 65536u128,
                a as u128 <= 0x7fff_ffff_ffff_ffffu128,
            ;
        assert(r <= 0x7fff_ffff_ffff_ffffu128) by (nonlinear_arith)
            requires
                r * r <= n,
                n <= 0x7fff_ffff_ffff_ffff_0000u128,
            ;
    }
    r as i64
}

/// Division by a positive divisor cannot grow the absolute value of a
/// bounded dividend.
pub proof fn lemma_div_shrinks(n: int, d: int, bn: int)
    requires
        1 <= d,
        0 <= bn,
        -bn <= n <= bn,
    ensures
        -bn <= n / d <= bn,
{
    lemma_fundamental_div_mod(n, d);
    let q = n / d;
    let r = n % d;
    if q > bn {
        assert(d * q >= q) by (nonlinear_arith)
            requires
                1 <= d,
                0 < q,
        ;
        assert(false);
    }
    if q < -bn {
        assert(d * (q + 1) <= q + 1) by (nonlinear_arith)
            requires
                1 <= d,
                q + 1 <= 0,
        ;
        assert(d * (q + 1) == d * q + d) by (nonlinear_arith);
        assert(false);
    }
}

/// Floor division distributes over addition up to rounding:
/// `a/d + b/d <= (a+b)/d`.
pub proof fn lemma_div_add_le(a: int, b: int, d: int)
    requires
        0 < d,
    ensures
        a / d + b / d <= (a + b) / d,
{
    lemma_fundamental_div_mod(a, d);
    lemma_fundamental_div_mod(b, d);
    let s = a / d + b / d;
    vstd::arithmetic::mul::lemma_mul_is_distributive_add(d, a / d, b / d);
    assert(a + b >= d * s);
    lemma_div_is_ordered(d * s, a + b, d);
    lemma_div_multiples_vanish(s, d);
}

/// Floor division distributes over addition up to one unit the other way:
/// `(a+b)/d <= a/d + b/d + 1`.
pub proof fn lemma_div_add_ub(a: int, b: int, d: int)
    requires
        0 < d,
    ensures
        (a + b) / d <= a / d + b / d + 1,
{
    lemma_fundamental_div_mod(a, d);
    lemma_fundamental_div_mod(b, d);
    let qa = a / d;
    let qb = b / d;
    let ra = a % d;
    let rb = b % d;
    vstd::arithmetic::mul::lemma_mul_is_distributive_add(d, qa, qb);
    if ra + rb < d {
        assert(d * (qa + qb) == (qa + qb) * d) by (nonlinear_arith);
        lemma_fundamental_div_mod_converse(a + b, d, qa + qb, ra + rb);
    } else {
        vstd::arithmetic::mul::lemma_mul_is_distributive_add(d, qa + qb, 1);
        assert(d * (qa + qb + 1) == (qa + qb + 1) * d) by (nonlinear_arith);
        lemma_fundamental_div_mod_converse(a + b, d, qa + qb + 1, ra + rb - d);
    }
}

/// Quadrupling the dividend quadruples the floor quotient, up to three.
pub proof fn lemma_div_four(x: int, d: int)
    requires
        4 <= d,
    ensures
        4 * (x / d) <= (4 * x) / d <= 4 * (x / d) + 3,
{
    lemma_fundamental_div_mod(x, d);
    let q = x / d;
    let r = x % d;
    lemma_fundamental_div_mod(4 * r, d);
    let k = (4 * r) / d;
    assert(0 <= k <= 3) by {
        lemma_div_bounds(4 * r, d, 0, 4 * d - 4);
        assert((4 * d - 4) / d == 3) by {
            lemma_fundamental_div_mod_converse(4 * d - 4, d, 3, d - 4);
            assert(3 * d == d * 3) by (nonlinear_arith);
        }
    }
    assert(4 * x == (4 * q + k) * d + (4 * r) % d) by (nonlinear_arith)
        requires
            x == d * q + r,
            4 * r == d * k + (4 * r) % d,
    ;
    lemma_fundamental_div_mod_converse(4 * x, d, 4 * q + k, (4 * r) % d);
}

/// Range of a fixed-point product from ranges of its factors.
pub proof fn lemma_mul_fx_bound(a: int, b: int, ba: int, bb: int)
    requires
        0 <= ba,
        0 <= bb,
        -ba <= a <= ba,
        -bb <= b <= bb,
    ensures
        (-(ba * bb)) / (SCALE as int) <= mul_fx(a, b) <= (ba * bb) / (SCALE as int),
{
    assert(-(ba * bb) <= a * b <= ba * bb) by (nonlinear_arith)
        requires
            -ba <= a <= ba,
            -bb <= b <= bb,
    ;
    lemma_div_bounds(a * b, SCALE as int, -(ba * bb), ba * bb);
}

/// Floor division preserves ordering of the dividends (positive divisor).
pub proof fn lemma_div_bounds(n: int, d: int, lo: int, hi: int)
    requires
        0 < d,
        lo <= n <= hi,
    ensures
        lo / d <= n / d <= hi / d,
{
    vstd::arithmetic::div_mod::lemma_div_is_ordered(lo, n, d);
    vstd::arithmetic::div_mod::lemma_div_is_ordered(n, hi, d);
}

} // verus!
