use vstd::prelude::*;
use vstd::arithmetic::mul::lemma_mul_upper_bound;

verus! {

/// One unit in the fixed-point representation used for every coordinate,
/// ray parameter and color channel: a value `v` stands for `v / ONE`.
pub const ONE: i64 = 65536;

/// Saturation bound: every computed scalar stays within `[-LIMIT, LIMIT]`,
/// and the two ends play the part of the infinities.
pub const LIMIT: i64 = 1099511627776;

/// Bound on the argument of the integer square root.
pub const SQRT_ARG_MAX: i128 = 1267650600228229401496703205376;

/// Exclusive bound on any integer square root taken here (`2^50`).
pub const SQRT_BOUND: i128 = 1125899906842624;

pub open spec fn in_range(x: int) -> bool {
    -LIMIT <= x <= LIMIT
}

/// Saturates an exact value to the representable range.
pub open spec fn clip(x: int) -> int {
    if x < -LIMIT {
        -LIMIT as int
    } else if x > LIMIT {
        LIMIT as int
    } else {
        x
    }
}

/// The real quotient `n / d` rounded down, for any nonzero `d`.
pub open spec fn floor_div(n: int, d: int) -> int {
    if d > 0 {
        n / d
    } else {
        (-n) / (-d)
    }
}

/// Fixed-point product, rounded down and saturated.
pub open spec fn mul_spec(a: int, b: int) -> int {
    clip((a * b) / (ONE as int))
}

/// Fixed-point quotient, rounded down and saturated.
pub open spec fn div_spec(a: int, b: int) -> int {
    clip(floor_div(a * ONE, b))
}

pub open spec fn is_isqrt(r: int, n: int) -> bool {
    0 <= r && r * r <= n < (r + 1) * (r + 1)
}

/// The integer square root: the largest `r` with `r * r <= n`.
pub open spec fn isqrt_spec(n: int) -> int {
    choose|r: int| is_isqrt(r, n)
}

/// Fixed-point square root of a nonnegative value, rounded down.
pub open spec fn sqrt_spec(a: int) -> int {
    clip(isqrt_spec(a * ONE))
}

pub proof fn lemma_isqrt_unique(r: int, s: int, n: int)
    requires
        is_isqrt(r, n),
        is_isqrt(s, n),
    ensures
        r == s,
{
    if r < s {
        assert((r + 1) * (r + 1) <= s * s) by (nonlinear_arith)
            requires 0 <= r, r + 1 <= s;
    } else if s < r {
        assert((s + 1) * (s + 1) <= r * r) by (nonlinear_arith)
            requires 0 <= s, s + 1 <= r;
    }
}

/// Every nonnegative integer has an integer square root.
pub proof fn lemma_isqrt_exists(n: int)
    requires
        n >= 0,
    ensures
        is_isqrt(isqrt_spec(n), n),
    decreases n,
{
    if n == 0 {
        assert(is_isqrt(0, 0));
    } else {
        lemma_isqrt_exists(n - 1);
        let r = isqrt_spec(n - 1);
        if (r + 1) * (r + 1) <= n {
            assert((r + 2) * (r + 2) == (r + 1) * (r + 1) + 2 * r + 3) by (nonlinear_arith);
            assert(is_isqrt(r + 1, n));
        } else {
            assert(is_isqrt(r, n));
        }
    }
}

/// A product of two bounded values is bounded by the product of the bounds.
pub proof fn lemma_mul_abs_bound(x: int, y: int, a: int, b: int)
    requires
        -a <= x <= a,
        -b <= y <= b,
    ensures
        -(a * b) <= x * y <= a * b,
{
    let ax = if x < 0 { -x } else { x };
    let ay = if y < 0 { -y } else { y };
    assert(ax * ay == x * y || ax * ay == -(x * y)) by (nonlinear_arith)
        requires ax == x || ax == -x, ay == y || ay == -y;
    lemma_mul_upper_bound(ax, a, ay, b);
}

pub fn clip_wide(x: i128) -> (r: i64)
    ensures
        r == clip(x as int),
        in_range(r as int),
{
    if x < -(LIMIT as i128) {
        -LIMIT
    } else if x > LIMIT as i128 {
        LIMIT
    } else {
        x as i64
    }
}

/// Bound on the magnitude of a dividend handed to `floor_div_pos` (`2^126`).
pub const DIVIDEND_MAX: i128 = 0x4000_0000_0000_0000_0000_0000_0000_0000;

/// Division rounded down, for a positive divisor.
pub fn floor_div_pos(n: i128, d: i128) -> (r: i128)
    requires
        d > 0,
        -DIVIDEND_MAX <= n <= DIVIDEND_MAX,
    ensures
        r == n as int / d as int,
{
    proof {
        lemma_div_bounded(n as int, d as int);
    }
    match n.checked_div_euclid(d) {
        Some(q) => q,
        None => 0,
    }
}

proof fn lemma_div_bounded(n: int, d: int)
    requires
        d > 0,
        -DIVIDEND_MAX <= n <= DIVIDEND_MAX,
    ensures
        -DIVIDEND_MAX <= n / d <= DIVIDEND_MAX,
{
    vstd::arithmetic::div_mod::lemma_fundamental_div_mod(n, d);
    let q = n / d;
    let m = n % d;
    assert(-DIVIDEND_MAX <= q <= DIVIDEND_MAX) by (nonlinear_arith)
        requires n == d * q + m, 0 <= m < d, d >= 1, -DIVIDEND_MAX <= n <= DIVIDEND_MAX;
}

/// Fixed-point product of two values.
pub fn mul_fx(a: i64, b: i64) -> (r: i64)
    ensures
        r == mul_spec(a as int, b as int),
{
    assert(-DIVIDEND_MAX <= (a as int) * (b as int) <= DIVIDEND_MAX) by (nonlinear_arith)
        requires i64::MIN <= a <= i64::MAX, i64::MIN <= b <= i64::MAX;
    let p = (a as i128) * (b as i128);
    clip_wide(floor_div_pos(p, ONE as i128))
}

/// Fixed-point quotient `a / b`.
pub fn div_fx(a: i64, b: i64) -> (r: i64)
    requires
        b != 0,
    ensures
        r == div_spec(a as int, b as int),
{
    assert(-0x8000_0000_0000_0000_0000 <= (a as int) * ONE <= 0x8000_0000_0000_0000_0000) by (nonlinear_arith)
        requires i64::MIN <= a <= i64::MAX;
    let n = (a as i128) * (ONE as i128);
    if b > 0 {
        clip_wide(floor_div_pos(n, b as i128))
    } else {
        clip_wide(floor_div_pos(-n, -(b as i128)))
    }
}

/// Integer square root by bisection.
pub fn isqrt(n: i128) -> (r: i128)
    requires
        0 <= n < SQRT_ARG_MAX,
    ensures
        is_isqrt(r as int, n as int),
        r == isqrt_spec(n as int),
        r < SQRT_BOUND,
{
    let mut lo: i128 = 0;
    let mut hi: i128 = SQRT_BOUND;
    while hi - lo > 1
        invariant
            0 <= lo < hi <= SQRT_BOUND,
            lo * lo <= n,
            n < hi * hi,
        decreases hi - lo,
    {
        let mid: i128 = lo + (hi - lo) / 2;
        assert(mid * mid < SQRT_BOUND * SQRT_BOUND) by (nonlinear_arith)
            requires 0 <= mid < SQRT_BOUND;
        if mid * mid <= n {
            lo = mid;
        } else {
            hi = mid;
        }
    }
    assert(is_isqrt(lo as int, n as int));
    proof {
        let s = isqrt_spec(n as int);
        assert(exists|r: int| is_isqrt(r, n as int));
        lemma_isqrt_unique(lo as int, s, n as int);
    }
    lo
}

/// Fixed-point square root; negative arguments count as zero.
pub fn sqrt_fx(a: i64) -> (r: i64)
    ensures
        a >= 0 ==> r == sqrt_spec(a as int),
        a < 0 ==> r == 0,
        r >= 0,
{
    if a <= 0 {
        proof {
            if a == 0 {
                assert(is_isqrt(0, 0));
                lemma_isqrt_unique(0, isqrt_spec(0), 0);
            }
        }
        0
    } else {
        assert((a as int) * ONE <= 0x8000_0000_0000_0000_0000) by (nonlinear_arith)
            requires 0 < a <= i64::MAX;
        let s = isqrt((a as i128) * (ONE as i128));
        clip_wide(s)
    }
}

} // verus!
