//! Fixed-point scalars.
//!
//! Every coordinate, length and velocity in this crate is a signed 32-bit
//! fixed-point number with [`FRAC_BITS`] fractional bits: the stored integer
//! `v` stands for the real number `v / 2^16`.  Masses and radii are plain
//! integers.  Intermediate results are computed exactly in wider integers and
//! rounded toward zero once, at the end; a result that does not fit is clamped
//! to the nearest representable value.
use vstd::prelude::*;

verus! {

/// Number of fractional bits of a fixed-point scalar.
pub const FRAC_BITS: u32 = 16;

/// The fixed-point representation of the real number one.
pub const ONE: i32 = 65536;

/// The value of `v` clamped to the range of `i32`.
pub open spec fn clamp_i32(v: int) -> int {
    if v < i32::MIN {
        i32::MIN as int
    } else if v > i32::MAX {
        i32::MAX as int
    } else {
        v
    }
}

/// Clamps a wide intermediate result to `i32`.
pub fn saturate_i32(v: i128) -> (r: i32)
    ensures
        r == clamp_i32(v as int),
{
    if v < -2147483648 {
        i32::MIN
    } else if v > 2147483647 {
        i32::MAX
    } else {
        v as i32
    }
}

/// The quotient `a / b` rounded toward zero, for a positive divisor.
pub open spec fn div_toward_zero(a: int, b: int) -> int
    recommends
        b > 0,
{
    if a >= 0 {
        a / b
    } else {
        -((-a) / b)
    }
}

/// Division rounding toward zero by a positive divisor.
pub fn div_i128(a: i128, b: i128) -> (r: i128)
    requires
        b > 0,
    ensures
        r == div_toward_zero(a as int, b as int),
{
    if a >= 0 {
        a / b
    } else if a == i128::MIN {
        // -a is not representable; split off one multiple of b first.
        let rest: i128 = a + b;
        proof {
            lemma_div_shift(-(a as int), b as int);
        }
        if rest >= 0 {
            assert(((-(a as int)) - (b as int)) / (b as int) == 0) by (nonlinear_arith)
                requires
                    0 <= (-(a as int)) - (b as int) < b as int,
            ;
            -1
        } else {
            -((-rest) / b) - 1
        }
    } else {
        -((-a) / b)
    }
}

/// `(x - b) / b == x / b - 1` for a positive divisor.
pub proof fn lemma_div_shift(x: int, b: int)
    requires
        b > 0,
    ensures
        (x - b) / b == x / b - 1,
{
    vstd::arithmetic::div_mod::lemma_div_plus_one(x - b, b);
}

/// `r` is the integer square root of `n`: the largest integer whose square
/// does not exceed `n`.
pub open spec fn is_floor_sqrt(n: int, r: int) -> bool {
    0 <= r && r * r <= n && n < (r + 1) * (r + 1)
}

/// The integer square root of `n`, for `n >= 0`.
pub open spec fn floor_sqrt(n: int) -> int {
    choose|r: int| is_floor_sqrt(n, r)
}

/// The integer square root is unique.
pub proof fn lemma_floor_sqrt_unique(n: int, r1: int, r2: int)
    requires
        is_floor_sqrt(n, r1),
        is_floor_sqrt(n, r2),
    ensures
        r1 == r2,
{
    if r1 < r2 {
        assert((r1 + 1) * (r1 + 1) <= r2 * r2) by (nonlinear_arith)
            requires
                0 <= r1,
                r1 + 1 <= r2,
        ;
    } else if r2 < r1 {
        assert((r2 + 1) * (r2 + 1) <= r1 * r1) by (nonlinear_arith)
            requires
                0 <= r2,
                r2 + 1 <= r1,
        ;
    }
}

/// Any witness of `is_floor_sqrt` is the value of `floor_sqrt`.
pub proof fn lemma_floor_sqrt_is(n: int, r: int)
    requires
        is_floor_sqrt(n, r),
    ensures
        floor_sqrt(n) == r,
{
    lemma_floor_sqrt_unique(n, r, floor_sqrt(n));
}

/// Integer square root by bisection.
pub fn isqrt(n: u128) -> (r: u64)
    ensures
        is_floor_sqrt(n as int, r as int),
        r == floor_sqrt(n as int),
{
    let mut lo: u128 = 0;
    let mut hi: u128 = 18446744073709551616;
    assert(n < hi * hi) by (nonlinear_arith)
        requires
            hi == 18446744073709551616,
            n <= u128::MAX,
    ;
    while hi - lo > 1
        invariant
            lo < hi <= 18446744073709551616,
            lo * lo <= n,
            n < hi * hi,
        decreases hi - lo,
    {
        let mid: u128 = lo + (hi - lo) / 2;
        assert(mid * mid <= u128::MAX) by (nonlinear_arith)
            requires
                mid < 18446744073709551616,
        ;
        if mid * mid <= n {
            lo = mid;
        } else {
            hi = mid;
        }
    }
    proof {
        lemma_floor_sqrt_is(n as int, lo as int);
    }
    lo as u64
}

/// The integer square root does not exceed its argument's own square root
/// bound: if `a * a <= n` for a non-negative `a`, then `a <= floor_sqrt(n)`.
pub proof fn lemma_floor_sqrt_lower(n: int, a: int, r: int)
    requires
        0 <= a,
        a * a <= n,
        is_floor_sqrt(n, r),
    ensures
        a <= r,
{
    if a > r {
        assert((r + 1) * (r + 1) <= a * a) by (nonlinear_arith)
            requires
                0 <= r,
                r + 1 <= a,
        ;
    }
}

/// If `lo * d <= n <= hi * d` then the quotient rounded toward zero lies
/// between `lo` and `hi`.
pub proof fn lemma_div_toward_zero_between(n: int, d: int, lo: int, hi: int)
    requires
        d > 0,
        lo * d <= n <= hi * d,
    ensures
        lo <= div_toward_zero(n, d) <= hi,
{
    if n >= 0 {
        assert(n / d <= hi) by (nonlinear_arith)
            requires
                d > 0,
                n <= hi * d,
        ;
        assert(lo <= n / d) by (nonlinear_arith)
            requires
                d > 0,
                lo * d <= n,
                n >= 0,
        ;
    } else {
        let m = -n;
        assert(-(m / d) <= hi) by (nonlinear_arith)
            requires
                d > 0,
                -m <= hi * d,
                m > 0,
        ;
        assert(lo <= -(m / d)) by (nonlinear_arith)
            requires
                d > 0,
                lo * d <= -m,
                m > 0,
        ;
    }
}

/// A multiple of the divisor divides without remainder.
pub proof fn lemma_div_exact(k: int, d: int)
    requires
        d > 0,
    ensures
        div_toward_zero(k * d, d) == k,
{
    if k >= 0 {
        assert(k * d >= 0 && (k * d) / d == k) by (nonlinear_arith)
            requires
                k >= 0,
                d > 0,
        ;
    } else {
        assert(k * d < 0 && -(k * d) == (-k) * d && ((-k) * d) / d == -k) by (nonlinear_arith)
            requires
                k < 0,
                d > 0,
        ;
    }
}

/// Rounding a quotient toward zero changes it by less than one: the
/// quotient times the divisor is less than the divisor away from the
/// dividend.
pub proof fn lemma_div_toward_zero_error(n: int, d: int)
    requires
        d > 0,
    ensures
        -d < div_toward_zero(n, d) * d - n < d,
{
    if n >= 0 {
        assert(0 <= n - (n / d) * d < d) by (nonlinear_arith)
            requires
                d > 0,
                n >= 0,
        ;
    } else {
        let m = -n;
        assert(0 <= m - (m / d) * d < d) by (nonlinear_arith)
            requires
                d > 0,
                m >= 0,
        ;
        assert((-(m / d)) * d == -((m / d) * d)) by (nonlinear_arith);
    }
}

/// Every non-negative integer has an integer square root.
pub proof fn lemma_sqrt_exists(n: int)
    requires
        n >= 0,
    ensures
        is_floor_sqrt(n, floor_sqrt(n)),
{
    assert(n < (n + 1) * (n + 1)) by (nonlinear_arith)
        requires
            n >= 0,
    ;
    lemma_sqrt_witness(n, n);
}

/// Induction behind [`lemma_sqrt_exists`]: some `r <= bound` is the integer
/// square root of `n` whenever `n < (bound + 1)^2`.
proof fn lemma_sqrt_witness(n: int, bound: int)
    requires
        n >= 0,
        bound >= 0,
        n < (bound + 1) * (bound + 1),
    ensures
        exists|r: int| is_floor_sqrt(n, r),
    decreases bound,
{
    if bound * bound <= n {
        assert(is_floor_sqrt(n, bound));
    } else {
        assert(bound >= 1) by (nonlinear_arith)
            requires
                bound >= 0,
                n >= 0,
                !(bound * bound <= n),
        ;
        lemma_sqrt_witness(n, bound - 1);
    }
}

} // verus!
