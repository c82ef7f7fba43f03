//! Integer arithmetic for the fixed-point geometry: floor and round-to-nearest
//! division, an integer square root, and the lemmas that bound them.

use vstd::prelude::*;
use vstd::arithmetic::div_mod::{
    lemma_div_is_ordered, lemma_fundamental_div_mod, lemma_fundamental_div_mod_converse_div,
};

verus! {

/// Absolute value of a mathematical integer.
pub open spec fn abs_i(x: int) -> int {
    if x < 0 {
        -x
    } else {
        x
    }
}

/// Quotient `n / d` rounded to the nearest integer, halves towards
/// positive infinity; meaningful for `d >= 1`.
pub open spec fn div_round(n: int, d: int) -> int
    recommends
        d >= 1,
{
    (2 * n + d) / (2 * d)
}

/// Integer square root, rounded down; 0 for negative arguments.
pub open spec fn sqrt_floor(n: int) -> int
    decreases n,
{
    if n <= 0 {
        0
    } else {
        let s = sqrt_floor(n - 1);
        if (s + 1) * (s + 1) <= n {
            s + 1
        } else {
            s
        }
    }
}

/// `sqrt_floor(n)` is the unique `s >= 0` with `s * s <= n < (s + 1) * (s + 1)`.
pub proof fn lemma_sqrt_floor_bounds(n: int)
    requires
        n >= 0,
    ensures
        0 <= sqrt_floor(n),
        sqrt_floor(n) * sqrt_floor(n) <= n,
        n < (sqrt_floor(n) + 1) * (sqrt_floor(n) + 1),
    decreases n,
{
    if n > 0 {
        lemma_sqrt_floor_bounds(n - 1);
        let s = sqrt_floor(n - 1);
        if (s + 1) * (s + 1) <= n {
            assert(n < ((s + 1) + 1) * ((s + 1) + 1)) by (nonlinear_arith)
                requires
                    n - 1 < (s + 1) * (s + 1),
                    s >= 0,
            ;
        }
    }
}

/// A nonnegative `s` whose square brackets `n` is `sqrt_floor(n)`.
pub proof fn lemma_sqrt_floor_unique(n: int, s: int)
    requires
        n >= 0,
        s >= 0,
        s * s <= n,
        n < (s + 1) * (s + 1),
    ensures
        s == sqrt_floor(n),
{
    lemma_sqrt_floor_bounds(n);
    let t = sqrt_floor(n);
    if s < t {
        assert((s + 1) * (s + 1) <= t * t) by (nonlinear_arith)
            requires
                0 <= s,
                s < t,
        ;
    }
    if t < s {
        assert((t + 1) * (t + 1) <= s * s) by (nonlinear_arith)
            requires
                0 <= t,
                t < s,
        ;
    }
}

/// Rounding to nearest keeps a quotient between any pair of integer bounds
/// on the exact fraction.
pub proof fn lemma_div_round_bounds(n: int, d: int, lo: int, hi: int)
    requires
        d >= 1,
        lo * d <= n,
        n <= hi * d,
    ensures
        lo <= div_round(n, d),
        div_round(n, d) <= hi,
{
    let dd = 2 * d;
    assert(lo * (2 * d) <= 2 * n && 2 * n <= hi * (2 * d)) by (nonlinear_arith)
        requires
            d >= 1,
            lo * d <= n,
            n <= hi * d,
    ;
    assert(lo * dd + 0 == lo * dd);
    lemma_fundamental_div_mod_converse_div(lo * dd, dd, lo, 0);
    lemma_div_is_ordered(lo * dd, 2 * n + d, dd);
    assert(lo <= div_round(n, d));
    lemma_fundamental_div_mod_converse_div(hi * dd + d, dd, hi, d);
    lemma_div_is_ordered(2 * n + d, hi * dd + d, dd);
    assert(div_round(n, d) <= hi);
}

/// The rounded quotient is within half a step of the exact fraction:
/// `|div_round(n, d) * d - n| <= d / 2` (stated scaled by 2).
pub proof fn lemma_div_round_err(n: int, d: int)
    requires
        d >= 1,
    ensures
        abs_i(2 * (div_round(n, d) * d) - 2 * n) <= d,
{
    let dd = 2 * d;
    let q = (2 * n + d) / dd;
    lemma_fundamental_div_mod(2 * n + d, dd);
    let r = (2 * n + d) % dd;
    assert(2 * n + d == dd * q + r);
    assert(2 * (q * d) == (2 * d) * q) by (nonlinear_arith);
    assert(0 <= r < dd);
}

/// Floor division of an `i128` by a positive divisor, i.e. the Euclidean
/// quotient of the mathematical integers.
pub fn floor_div_i128(a: i128, b: i128) -> (q: i128)
    requires
        1 <= b,
        abs_i(a as int) <= 0x4000_0000_0000_0000_0000_0000_0000_0000,
    ensures
        q == a as int / b as int,
{
    if a >= 0 {
        let q0 = (a as u128) / (b as u128);
        proof {
            lemma_div_is_ordered(q0 as int, a as int, 1);
        }
        q0 as i128
    } else {
        let m = (-a) as u128;
        let bu = b as u128;
        let q0 = (m + bu - 1) / bu;
        proof {
            let qi = q0 as int;
            let mi = m as int;
            let bi = b as int;
            lemma_fundamental_div_mod(mi + bi - 1, bi);
            let r = (mi + bi - 1) % bi;
            assert(mi + bi - 1 == bi * qi + r);
            assert(0 <= r < bi);
            // -m == (-q0) * b + (b - 1 - r), with the remainder in [0, b)
            assert(-mi == (-qi) * bi + (bi - 1 - r)) by (nonlinear_arith)
                requires
                    mi + bi - 1 == bi * qi + r,
            ;
            lemma_fundamental_div_mod_converse_div(-mi, bi, -qi, bi - 1 - r);
            // q0 fits in i128: q0 <= m
            assert(qi <= mi) by (nonlinear_arith)
                requires
                    mi + bi - 1 == bi * qi + r,
                    0 <= r,
                    bi >= 1,
                    mi >= 1,
            ;
        }
        -(q0 as i128)
    }
}

/// Round-to-nearest division of an `i128` by a positive divisor, matching
/// `div_round`.
pub fn round_div_i128(a: i128, b: i128) -> (q: i128)
    requires
        1 <= b,
        abs_i(a as int) <= 0x1000_0000_0000_0000_0000_0000_0000_0000,
        b <= 0x1000_0000_0000_0000_0000_0000_0000_0000,
    ensures
        q == div_round(a as int, b as int),
{
    floor_div_i128(2 * a + b, 2 * b)
}

/// Integer square root of a `u128`, rounded down.
pub fn isqrt_u128(n: u128) -> (r: u128)
    ensures
        r == sqrt_floor(n as int),
{
    let mut lo: u128 = 0;
    let ghost two64: int = 0x1_0000_0000_0000_0000;
    let mut hi: u128 = 0x1_0000_0000_0000_0000;
    proof {
        assert((n as int) < two64 * two64) by (nonlinear_arith)
            requires
                n as int <= 0xffff_ffff_ffff_ffff_ffff_ffff_ffff_ffff,
                two64 == 0x1_0000_0000_0000_0000,
        ;
    }
    while lo + 1 < hi
        invariant
            0 <= lo < hi <= 0x1_0000_0000_0000_0000,
            lo * lo <= n as int,
            (n as int) < (hi as int) * (hi as int),
        decreases hi - lo,
    {
        let mid = lo + (hi - lo) / 2;
        assert(lo < mid < hi);
        proof {
            assert((mid as int) * (mid as int) < 0xffff_ffff_ffff_ffff_ffff_ffff_ffff_ffff)
                by (nonlinear_arith)
                requires
                    0 <= mid as int <= 0xffff_ffff_ffff_ffff,
            ;
        }
        let sq = mid * mid;
        if sq <= n {
            lo = mid;
        } else {
            hi = mid;
        }
    }
    proof {
        lemma_sqrt_floor_unique(n as int, lo as int);
    }
    lo
}

/// Cauchy–Schwarz in two dimensions, as a polynomial identity.
pub proof fn lemma_cauchy_schwarz(a: int, b: int, x: int, y: int)
    ensures
        (a * x + b * y) * (a * x + b * y) + (a * y - b * x) * (a * y - b * x) == (a * a + b * b) * (
        x * x + y * y),
{
    let p = a * x;
    let q = b * y;
    let r = a * y;
    let s = b * x;
    assert((p + q) * (p + q) == p * p + 2 * (p * q) + q * q) by (nonlinear_arith);
    assert((r - s) * (r - s) == r * r - 2 * (r * s) + s * s) by (nonlinear_arith);
    assert(p * q == r * s) by (nonlinear_arith)
        requires
            p == a * x,
            q == b * y,
            r == a * y,
            s == b * x,
    ;
    assert(p * p == (a * a) * (x * x)) by (nonlinear_arith)
        requires
            p == a * x,
    ;
    assert(q * q == (b * b) * (y * y)) by (nonlinear_arith)
        requires
            q == b * y,
    ;
    assert(r * r == (a * a) * (y * y)) by (nonlinear_arith)
        requires
            r == a * y,
    ;
    assert(s * s == (b * b) * (x * x)) by (nonlinear_arith)
        requires
            s == b * x,
    ;
    assert((a * a) * (x * x) + (b * b) * (y * y) + (a * a) * (y * y) + (b * b) * (x * x) == (a * a
        + b * b) * (x * x + y * y)) by (nonlinear_arith);
}

/// A square bounded by a square bounds the absolute value.
pub proof fn lemma_abs_le_of_sq_le(a: int, b: int)
    requires
        a * a <= b * b,
        b >= 0,
    ensures
        -b <= a <= b,
{
    if a > b {
        assert(b * b < a * a) by (nonlinear_arith)
            requires
                0 <= b < a,
        ;
    }
    if a < -b {
        assert(b * b < a * a) by (nonlinear_arith)
            requires
                a < -b <= 0,
        ;
    }
}

} // verus!
