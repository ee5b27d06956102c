//! Fixed-point arithmetic: saturation, rounded quotients and the integer
//! square root.

use vstd::prelude::*;

verus! {

/// Sub-units per unit of length: a length of `UNIT` is one unit, a velocity
/// of `UNIT` one unit per second.
pub const UNIT: i64 = 1_000_000;

/// Parts per one of a dimensionless coefficient: a coefficient of `SCALE` is
/// one.
pub const SCALE: i64 = 1000;

/// Largest magnitude of a position or velocity component: a million units,
/// or units per second.
pub const LIMIT: i64 = 1_000_000_000_000;

/// Microseconds per second.
pub const MICROS: i64 = 1_000_000;

/// `v` is a component that a particle can hold.
pub open spec fn in_range(v: int) -> bool {
    -LIMIT <= v <= LIMIT
}

/// `v` moved to the nearest value that a particle can hold.
pub open spec fn saturate(v: int) -> int {
    if v < -LIMIT {
        -(LIMIT as int)
    } else if v > LIMIT {
        LIMIT as int
    } else {
        v
    }
}

/// The quotient `n / b` of a non-negative `n` rounded to the nearest
/// integer, a half upward.
pub open spec fn nearest(n: int, b: int) -> int
    recommends
        n >= 0,
        b > 0,
{
    if 2 * (n % b) >= b {
        n / b + 1
    } else {
        n / b
    }
}

/// The quotient `a / b` rounded to the nearest integer, a half away from
/// zero.
pub open spec fn div_round(a: int, b: int) -> int
    recommends
        b > 0,
{
    if a >= 0 {
        nearest(a, b)
    } else {
        -nearest(-a, b)
    }
}

/// The quotient `a / b` rounded away from zero.
pub open spec fn div_away(a: int, b: int) -> int
    recommends
        b > 0,
{
    if a >= 0 {
        (a + b - 1) / b
    } else {
        -((-a + b - 1) / b)
    }
}

/// `r` is the integer square root of `n`: the largest integer whose square
/// does not exceed `n`.
pub open spec fn is_isqrt(n: int, r: int) -> bool {
    0 <= r && r * r <= n < (r + 1) * (r + 1)
}

/// The integer square root of `n`.
pub open spec fn isqrt(n: int) -> int {
    choose|r: int| is_isqrt(n, r)
}

/// A square is monotone on the non-negative integers.
pub proof fn lemma_square_monotone(a: int, b: int)
    requires
        0 <= a <= b,
    ensures
        a * a <= b * b,
{
    assert(a * a <= b * b) by (nonlinear_arith)
        requires
            0 <= a <= b,
    ;
}

/// At most one integer is the integer square root of `n`.
pub proof fn lemma_isqrt_unique(n: int, r1: int, r2: int)
    requires
        is_isqrt(n, r1),
        is_isqrt(n, r2),
    ensures
        r1 == r2,
{
    if r1 < r2 {
        lemma_square_monotone(r1 + 1, r2);
    } else if r2 < r1 {
        lemma_square_monotone(r2 + 1, r1);
    }
}

/// Every non-negative integer has an integer square root, which is at
/// least one where the integer is.
pub proof fn lemma_isqrt_exists(n: int)
    requires
        n >= 0,
    ensures
        is_isqrt(n, isqrt(n)),
        n >= 1 ==> isqrt(n) >= 1,
    decreases n,
{
    if n == 0 {
        assert(is_isqrt(0, 0));
    } else {
        lemma_isqrt_exists(n - 1);
        let r = isqrt(n - 1);
        if n < (r + 1) * (r + 1) {
            assert(is_isqrt(n, r));
        } else {
            assert((r + 2) * (r + 2) > (r + 1) * (r + 1)) by (nonlinear_arith)
                requires
                    r >= 0,
            ;
            assert(is_isqrt(n, r + 1));
        }
    }
    let q = isqrt(n);
    if n >= 1 && q < 1 {
        assert((q + 1) * (q + 1) == 1) by (nonlinear_arith)
            requires
                q == 0,
        ;
    }
}

/// Whatever satisfies `is_isqrt` is the integer square root.
pub proof fn lemma_isqrt_is(n: int, r: int)
    requires
        is_isqrt(n, r),
    ensures
        isqrt(n) == r,
{
    lemma_isqrt_unique(n, r, isqrt(n));
}

/// Clamps a wide intermediate result to the range of a component.
pub fn saturate_i128(v: i128) -> (r: i64)
    ensures
        r == saturate(v as int),
        in_range(r as int),
{
    if v < -(LIMIT as i128) {
        -LIMIT
    } else if v > LIMIT as i128 {
        LIMIT
    } else {
        v as i64
    }
}

/// Divides rounding to the nearest integer, a half away from zero.
pub fn div_round_i128(a: i128, b: i128) -> (r: i128)
    requires
        b > 0,
        a > i128::MIN,
    ensures
        r == div_round(a as int, b as int),
{
    let n: i128 = if a >= 0 { a } else { -a };
    let q: i128 = n / b;
    let rem: i128 = n % b;
    proof {
        lemma_ceil_div(n as int, b as int);
    }
    let near: i128 = if rem >= b - rem { q + 1 } else { q };
    if a >= 0 {
        near
    } else {
        -near
    }
}

/// Divides rounding away from zero.
pub fn div_away_i128(a: i128, b: i128) -> (r: i128)
    requires
        b > 0,
        a > i128::MIN,
    ensures
        r == div_away(a as int, b as int),
{
    let n: i128 = if a >= 0 { a } else { -a };
    let q: i128 = n / b;
    proof {
        lemma_ceil_div(n as int, b as int);
    }
    let up: i128 = if n % b == 0 { q } else { q + 1 };
    if a >= 0 {
        up
    } else {
        -up
    }
}

/// The rounded-up quotient `(n + b - 1) / b` is `n / b`, plus one where `b`
/// does not divide `n`.
pub proof fn lemma_ceil_div(n: int, b: int)
    requires
        n >= 0,
        b > 0,
    ensures
        (n + b - 1) / b == if n % b == 0 { n / b } else { n / b + 1 },
        0 <= n / b <= n,
        n % b != 0 ==> n / b < n,
{
    let q = n / b;
    let r = n % b;
    assert(n == b * q + r && 0 <= r < b) by (nonlinear_arith)
        requires
            q == n / b,
            r == n % b,
            b > 0,
    ;
    assert(0 <= q <= n) by (nonlinear_arith)
        requires
            n == b * q + r,
            0 <= r < b,
            n >= 0,
            b > 0,
    ;
    assert(r != 0 ==> q < n) by (nonlinear_arith)
        requires
            n == b * q + r,
            0 <= r < b,
            q >= 0,
    ;
    if r == 0 {
        assert((b * q + b - 1) / b == q) by (nonlinear_arith)
            requires
                b > 0,
        ;
    } else {
        assert((b * q + r + b - 1) / b == q + 1) by (nonlinear_arith)
            requires
                b > 0,
                0 < r < b,
        ;
    }
}

/// Computes the integer square root by bisection.
pub fn isqrt_u64(n: u64) -> (r: u64)
    ensures
        r == isqrt(n as int),
        is_isqrt(n as int, r as int),
        r < 0x1_0000_0000,
        n >= 1 ==> r >= 1,
{
    let mut lo: u64 = 0;
    let mut hi: u64 = 0x1_0000_0000;
    while hi - lo > 1
        invariant
            lo < hi <= 0x1_0000_0000,
            lo * lo <= n,
            hi == 0x1_0000_0000 || n < hi * hi,
        decreases hi - lo,
    {
        let mid: u64 = lo + (hi - lo) / 2;
        assert(mid * mid < 0x1_0000_0000_0000_0000) by (nonlinear_arith)
            requires
                0 <= mid < 0x1_0000_0000,
        ;
        if mid * mid <= n {
            lo = mid;
        } else {
            hi = mid;
        }
    }
    proof {
        if hi == 0x1_0000_0000 {
            assert(hi * hi == 0x1_0000_0000_0000_0000) by (nonlinear_arith)
                requires
                    hi == 0x1_0000_0000,
            ;
        }
        lemma_isqrt_is(n as int, lo as int);
        lemma_isqrt_exists(n as int);
    }
    lo
}

/// A product is no larger than the product of the bounds of its factors.
pub proof fn lemma_mul_bound(a: int, b: int, ma: int, mb: int)
    requires
        -ma <= a <= ma,
        -mb <= b <= mb,
    ensures
        -(ma * mb) <= a * b <= ma * mb,
{
    assert(-(ma * mb) <= a * b <= ma * mb) by (nonlinear_arith)
        requires
            -ma <= a <= ma,
            -mb <= b <= mb,
    ;
}

/// A quotient rounded to the nearest integer is no larger than what was
/// divided, has its sign, and changes sign with it.
pub proof fn lemma_div_round_bound(a: int, b: int, m: int)
    requires
        b >= 1,
        -m <= a <= m,
    ensures
        -m <= div_round(a, b) <= m,
        a >= 0 ==> 0 <= div_round(a, b) <= a,
        a <= 0 ==> a <= div_round(a, b) <= 0,
        div_round(-a, b) == -div_round(a, b),
{
    let n = if a >= 0 { a } else { -a };
    lemma_ceil_div(n, b);
    assert(0 <= n % b < b) by (nonlinear_arith)
        requires
            b > 0,
    ;
}

/// Twice the distance of a quotient rounded to the nearest integer from the
/// exact quotient is no more than one: `2 * |a - q * b| <= b`.
pub proof fn lemma_div_round_near(a: int, b: int)
    requires
        b >= 1,
    ensures
        -b <= 2 * (a - div_round(a, b) * b) <= b,
{
    let n = if a >= 0 { a } else { -a };
    let q = n / b;
    let r = n % b;
    assert(n == b * q + r && 0 <= r < b) by (nonlinear_arith)
        requires
            q == n / b,
            r == n % b,
            b > 0,
    ;
    let k = nearest(n, b);
    assert(-b <= 2 * (n - k * b) <= b) by (nonlinear_arith)
        requires
            n == b * q + r,
            0 <= r < b,
            k == if 2 * r >= b { q + 1 } else { q },
    ;
    if a < 0 {
        assert((-k) * b == -(k * b)) by (nonlinear_arith);
    }
}

/// A quotient rounded away from zero is no larger than what was divided,
/// has its sign, and is no nearer to zero than the exact quotient.
pub proof fn lemma_div_away_bound(a: int, b: int, m: int)
    requires
        b >= 1,
        -m <= a <= m,
    ensures
        -m <= div_away(a, b) <= m,
        a >= 0 ==> 0 <= div_away(a, b) && div_away(a, b) * b >= a,
        a <= 0 ==> div_away(a, b) <= 0 && div_away(a, b) * b <= a,
        div_away(-a, b) == -div_away(a, b),
{
    let n = if a >= 0 { a } else { -a };
    lemma_ceil_div(n, b);
    let q = n / b;
    let r = n % b;
    let up = (n + b - 1) / b;
    assert(n == b * q + r && 0 <= r < b) by (nonlinear_arith)
        requires
            q == n / b,
            r == n % b,
            b > 0,
    ;
    assert(up * b >= n) by (nonlinear_arith)
        requires
            n == b * q + r,
            0 <= r < b,
            up == if r == 0 { q } else { q + 1 },
    ;
    assert(up <= n) by (nonlinear_arith)
        requires
            n == b * q + r,
            0 <= r < b,
            q >= 0,
            b >= 1,
            up == if r == 0 { q } else { q + 1 },
    ;
    assert(0 <= up);
    if a >= 0 {
        assert(div_away(a, b) == up);
    } else {
        assert(div_away(a, b) == -up);
        assert((-up) * b == -(up * b)) by (nonlinear_arith);
    }
    if a == 0 {
        assert(up == 0);
        assert(div_away(a, b) * b == 0) by (nonlinear_arith)
            requires
                div_away(a, b) == 0,
        ;
    }
}

/// A part `w` of `b`, taken of `f`, is no larger than `f`.
pub proof fn lemma_div_round_part(w: int, f: int, b: int, m: int)
    requires
        0 <= w <= b,
        b >= 1,
        -m <= f <= m,
    ensures
        -m <= div_round(w * f, b) <= m,
{
    let af = if f >= 0 { f } else { -f };
    let n = if w * f >= 0 { w * f } else { -(w * f) };
    assert(n == w * af && 0 <= n <= b * af) by (nonlinear_arith)
        requires
            0 <= w <= b,
            af == if f >= 0 { f } else { -f },
            n == if w * f >= 0 { w * f } else { -(w * f) },
    ;
    let q = n / b;
    let r = n % b;
    assert(n == b * q + r && 0 <= r < b) by (nonlinear_arith)
        requires
            q == n / b,
            r == n % b,
            b > 0,
    ;
    assert(0 <= q <= af && (q == af ==> r == 0)) by (nonlinear_arith)
        requires
            n == b * q + r,
            0 <= r < b,
            0 <= n <= b * af,
            b >= 1,
    ;
    assert(0 <= nearest(n, b) <= af);
}

/// A number whose square is below the square of `b` is below `b` in
/// magnitude.
pub proof fn lemma_square_below(a: int, b: int)
    requires
        a * a < b * b,
        b >= 0,
    ensures
        -b < a < b,
{
    if a >= b {
        lemma_square_monotone(b, a);
    } else if -a >= b {
        lemma_square_monotone(b, -a);
        assert((-a) * (-a) == a * a) by (nonlinear_arith);
    }
}

} // verus!
