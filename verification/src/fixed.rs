//! Fixed-point arithmetic shared by the whole library.
//!
//! Prices, quantities, amounts and percentages are `i64` values counted in
//! units of `1 / SCALE`: the value `150_000_000` stands for `1.5`.
//! Every division rounds towards negative infinity unless a function says
//! otherwise, and every product is formed in `i128` before it is divided.
use vstd::prelude::*;

verus! {

/// Units per whole number in the fixed-point representation.
pub const SCALE: i64 = 100_000_000;

/// `100` in fixed point, the value of a whole percentage range.
pub const HUNDRED: i64 = 10_000_000_000;

/// Sum of `s[lo..hi]`.
pub open spec fn sum_range(s: Seq<i64>, lo: int, hi: int) -> int
    decreases hi - lo,
{
    if hi <= lo {
        0
    } else {
        sum_range(s, lo, hi - 1) + s[hi - 1]
    }
}

/// `x` lies in the range of `i64`.
pub open spec fn fits_i64(x: int) -> bool {
    i64::MIN <= x <= i64::MAX
}

/// Every element of `s` lies in `[lo, hi]`.
pub open spec fn all_between(s: Seq<i64>, lo: int, hi: int) -> bool {
    forall|j: int| 0 <= j < s.len() ==> lo <= #[trigger] s[j] <= hi
}

/// Integer square root: the greatest `r` with `r * r <= n`.
pub open spec fn is_isqrt(n: int, r: int) -> bool {
    0 <= r && r * r <= n < (r + 1) * (r + 1)
}

pub open spec fn isqrt_spec(n: int) -> int {
    choose|r: int| is_isqrt(n, r)
}

/// The integer square root is unique.
pub proof fn lemma_isqrt_unique(n: int, r1: int, r2: int)
    requires
        is_isqrt(n, r1),
        is_isqrt(n, r2),
    ensures
        r1 == r2,
{
    if r1 < r2 {
        assert((r1 + 1) * (r1 + 1) <= r2 * r2) by (nonlinear_arith)
            requires
                0 <= r1 < r2,
        ;
    } else if r2 < r1 {
        assert((r2 + 1) * (r2 + 1) <= r1 * r1) by (nonlinear_arith)
            requires
                0 <= r2 < r1,
        ;
    }
}

/// Every non-negative integer has an integer square root.
pub proof fn lemma_isqrt_exists(n: int)
    requires
        n >= 0,
    ensures
        is_isqrt(n, isqrt_spec(n)),
    decreases n,
{
    if n == 0 {
        assert(is_isqrt(0, 0));
    } else {
        lemma_isqrt_exists(n - 1);
        let r = isqrt_spec(n - 1);
        if (r + 1) * (r + 1) <= n {
            assert(n < (r + 2) * (r + 2)) by (nonlinear_arith)
                requires
                    n - 1 < (r + 1) * (r + 1),
                    r >= 0,
            ;
            assert(is_isqrt(n, r + 1));
        } else {
            assert(is_isqrt(n, r));
        }
    }
}

/// A witness of `is_isqrt` is the value of `isqrt_spec`.
pub proof fn lemma_isqrt_spec(n: int, r: int)
    requires
        is_isqrt(n, r),
    ensures
        isqrt_spec(n) == r,
{
    let c = isqrt_spec(n);
    assert(is_isqrt(n, c));
    lemma_isqrt_unique(n, r, c);
}

/// Ceiling of `a / p` lies between `lo` and `hi` when `p * lo <= a <= p * hi`.
pub proof fn lemma_ceil_between(a: int, p: int, lo: int, hi: int)
    requires
        p > 0,
        p * lo <= a <= p * hi,
    ensures
        lo <= (a + p - 1) / p <= hi,
{
    vstd::arithmetic::div_mod::lemma_fundamental_div_mod(a + p - 1, p);
    let q = (a + p - 1) / p;
    let r = (a + p - 1) % p;
    assert(lo <= q && q <= hi) by (nonlinear_arith)
        requires
            a + p - 1 == p * q + r,
            0 <= r < p,
            p * lo <= a <= p * hi,
            p > 0,
    ;
}

/// Floor of `a / p` lies below `x` when `a < p * x`.
pub proof fn lemma_div_below(a: int, p: int, x: int)
    requires
        p > 0,
        a < p * x,
    ensures
        a / p < x,
{
    vstd::arithmetic::div_mod::lemma_fundamental_div_mod(a, p);
    let q = a / p;
    let r = a % p;
    assert(q < x) by (nonlinear_arith)
        requires
            a == p * q + r,
            0 <= r < p,
            a < p * x,
            p > 0,
    ;
}

/// Ceiling of `a / p` lies above `x` when `a > p * x`.
pub proof fn lemma_ceil_above(a: int, p: int, x: int)
    requires
        p > 0,
        a > p * x,
    ensures
        (a + p - 1) / p > x,
{
    vstd::arithmetic::div_mod::lemma_fundamental_div_mod(a + p - 1, p);
    let q = (a + p - 1) / p;
    let r = (a + p - 1) % p;
    assert(q > x) by (nonlinear_arith)
        requires
            a + p - 1 == p * q + r,
            0 <= r < p,
            a > p * x,
            p > 0,
    ;
}

/// Floor of `a / p` lies between `lo` and `hi` when `p * lo <= a <= p * hi`.
pub proof fn lemma_div_between(a: int, p: int, lo: int, hi: int)
    requires
        p > 0,
        p * lo <= a <= p * hi,
    ensures
        lo <= a / p <= hi,
{
    vstd::arithmetic::div_mod::lemma_fundamental_div_mod(a, p);
    let q = a / p;
    let r = a % p;
    assert(lo <= q && q <= hi) by (nonlinear_arith)
        requires
            a == p * q + r,
            0 <= r < p,
            p * lo <= a,
            a <= p * hi,
            p > 0,
    ;
}

/// A sum of `hi - lo` elements, each in `[a, b]`, lies in `[(hi - lo) * a, (hi - lo) * b]`.
pub proof fn lemma_sum_range_bounds(s: Seq<i64>, lo: int, hi: int, a: int, b: int)
    requires
        0 <= lo <= hi <= s.len(),
        forall|j: int| lo <= j < hi ==> a <= #[trigger] s[j] <= b,
    ensures
        (hi - lo) * a <= sum_range(s, lo, hi) <= (hi - lo) * b,
    decreases hi - lo,
{
    if hi > lo {
        lemma_sum_range_bounds(s, lo, hi - 1, a, b);
        assert(a <= s[hi - 1] <= b);
        assert((hi - lo) * a == (hi - 1 - lo) * a + a) by (nonlinear_arith);
        assert((hi - lo) * b == (hi - 1 - lo) * b + b) by (nonlinear_arith);
    } else {
        assert((hi - lo) * a == 0 && (hi - lo) * b == 0) by (nonlinear_arith)
            requires
                hi - lo == 0,
        ;
    }
}

/// Floor division by a positive divisor.
pub fn floor_div(a: i128, b: i128) -> (q: i128)
    requires
        b > 0,
        a > i128::MIN,
    ensures
        q == a / b,
{
    if a >= 0 {
        a / b
    } else {
        let t = (-a - 1) / b;
        proof {
            let n = -a - 1;
            vstd::arithmetic::div_mod::lemma_fundamental_div_mod(n, b as int);
            let r = n % (b as int);
            assert(a == b * (-t - 1) + (b - 1 - r)) by (nonlinear_arith)
                requires
                    n == b * t + r,
                    a == -n - 1,
            ;
            vstd::arithmetic::div_mod::lemma_fundamental_div_mod_converse(
                a as int,
                b as int,
                -t - 1,
                b - 1 - r,
            );
        }
        -t - 1
    }
}

/// Integer square root of `n`.
pub fn isqrt(n: u128) -> (r: u128)
    ensures
        is_isqrt(n as int, r as int),
        r as int == isqrt_spec(n as int),
        r < 0x1_0000_0000_0000_0000,
{
    let mut lo: u128 = 0;
    let mut hi: u128 = 0x1_0000_0000_0000_0000;
    assert(hi * hi > u128::MAX) by (nonlinear_arith)
        requires
            hi == 0x1_0000_0000_0000_0000u128,
    ;
    while hi - lo > 1
        invariant
            lo < hi <= 0x1_0000_0000_0000_0000,
            lo * lo <= n,
            n < hi * hi,
        decreases hi - lo,
    {
        let mid = lo + (hi - lo) / 2;
        assert(mid * mid <= u128::MAX) by (nonlinear_arith)
            requires
                mid < 0x1_0000_0000_0000_0000u128,
        ;
        if mid * mid <= n {
            lo = mid;
        } else {
            hi = mid;
        }
    }
    proof {
        assert(hi == lo + 1);
        lemma_isqrt_spec(n as int, lo as int);
    }
    lo
}

} // verus!
