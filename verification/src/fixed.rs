//! Fixed-point numbers and the integer square root.
//!
//! A fixed-point number is an integer `v` that stands for the real number
//! `v / SCALE`. The scale is chosen so that every decimal constant of the
//! recognizer, and every division by a power of two up to 1024, is exact.

use vstd::prelude::*;

verus! {

/// The fixed-point representation of 1.
pub const SCALE: i64 = 1_024_000_000;

/// `r` is the square root of `n`, rounded down.
pub open spec fn is_sqrt_floor(n: int, r: int) -> bool {
    0 <= r && r * r <= n < (r + 1) * (r + 1)
}

/// The square root of `n`, rounded down.
pub open spec fn sqrt_floor(n: int) -> int {
    choose|r: int| is_sqrt_floor(n, r)
}

/// A number has at most one rounded-down square root.
pub proof fn lemma_sqrt_floor_unique(n: int, r1: int, r2: int)
    requires
        is_sqrt_floor(n, r1),
        is_sqrt_floor(n, r2),
    ensures
        r1 == r2,
{
    if r1 < r2 {
        assert((r1 + 1) * (r1 + 1) <= r2 * r2) by (nonlinear_arith)
            requires
                0 <= r1,
                r1 + 1 <= r2,
        ;
    } else if r2 < r1 {
        assert((r2 + 1) * (r2 + 1) <= r1 * r1) by (nonlinear_arith)
            requires
                0 <= r2,
                r2 + 1 <= r1,
        ;
    }
}

/// Every natural number has a rounded-down square root.
pub proof fn lemma_sqrt_floor_exists(n: int) -> (r: int)
    requires
        0 <= n,
    ensures
        is_sqrt_floor(n, r),
    decreases n,
{
    if n == 0 {
        assert(is_sqrt_floor(0, 0)) by (nonlinear_arith);
        0
    } else {
        let r = lemma_sqrt_floor_exists(n - 1);
        let s = r + 1;
        if s * s <= n {
            assert(n < (s + 1) * (s + 1)) by (nonlinear_arith)
                requires
                    0 <= r,
                    s == r + 1,
                    n - 1 < s * s,
            ;
            s
        } else {
            r
        }
    }
}

/// What [`sqrt_floor`] chooses is the rounded-down square root.
pub proof fn lemma_sqrt_floor(n: int)
    requires
        0 <= n,
    ensures
        is_sqrt_floor(n, sqrt_floor(n)),
{
    let r = lemma_sqrt_floor_exists(n);
}

/// The rounded-down square root of a perfect square is its root.
pub proof fn lemma_sqrt_floor_of_square(r: int)
    requires
        0 <= r,
    ensures
        sqrt_floor(r * r) == r,
{
    assert(0 <= r * r < (r + 1) * (r + 1)) by (nonlinear_arith)
        requires
            0 <= r,
    ;
    lemma_sqrt_floor(r * r);
    lemma_sqrt_floor_unique(r * r, r, sqrt_floor(r * r));
}

/// Computes the square root of `n`, rounded down, by bisection.
pub fn integer_sqrt(n: u128) -> (r: u128)
    ensures
        r == sqrt_floor(n as int),
        is_sqrt_floor(n as int, r as int),
        r < 0x1_0000_0000_0000_0000,
{
    let mut lo: u128 = 0;
    let mut hi: u128 = 0x1_0000_0000_0000_0000;
    assert(0x1_0000_0000_0000_0000int * 0x1_0000_0000_0000_0000int
        == 0x1_0000_0000_0000_0000_0000_0000_0000_0000int) by (nonlinear_arith);
    while hi - lo > 1
        invariant
            0 <= lo < hi <= 0x1_0000_0000_0000_0000,
            lo * lo <= n < hi * hi,
        decreases hi - lo,
    {
        let mid: u128 = lo + (hi - lo) / 2;
        assert(mid * mid < 0x1_0000_0000_0000_0000_0000_0000_0000_0000) by (nonlinear_arith)
            requires
                0 <= mid < 0x1_0000_0000_0000_0000,
        ;
        if mid * mid <= n {
            lo = mid;
        } else {
            hi = mid;
        }
    }
    proof {
        lemma_sqrt_floor(n as int);
        lemma_sqrt_floor_unique(n as int, lo as int, sqrt_floor(n as int));
    }
    lo
}

/// Divides and rounds down: towards negative infinity.
pub fn floor_div(a: i128, b: i128) -> (q: i128)
    requires
        b > 0,
        a > i128::MIN,
    ensures
        q == a / b,
{
    if a >= 0 {
        a / b
    } else {
        let n: i128 = -a;
        let t: i128 = n / b;
        let r: i128 = n % b;
        assert(n == b * t + r && 0 <= r < b && 0 <= t <= n) by (nonlinear_arith)
            requires
                n > 0,
                b > 0,
                t == n / b,
                r == n % b,
        ;
        if r == 0 {
            assert(a / b == -t) by (nonlinear_arith)
                requires
                    a == -(b * t),
                    b > 0,
            ;
            -t
        } else {
            assert(a / b == -t - 1) by (nonlinear_arith)
                requires
                    a == -(b * t + r),
                    0 < r < b,
                    b > 0,
            ;
            -t - 1
        }
    }
}

} // verus!
