//! Integer helpers: rounding division and integer square roots.

use vstd::prelude::*;
use vstd::arithmetic::div_mod::lemma_fundamental_div_mod;
use vstd::arithmetic::div_mod::lemma_fundamental_div_mod_converse;

verus! {

/// Absolute value of a mathematical integer.
pub open spec fn abs(v: int) -> int {
    if v < 0 {
        -v
    } else {
        v
    }
}

/// The smaller of two integers.
pub open spec fn min2(a: int, b: int) -> int {
    if a <= b {
        a
    } else {
        b
    }
}

/// The larger of two integers.
pub open spec fn max2(a: int, b: int) -> int {
    if a >= b {
        a
    } else {
        b
    }
}

/// The number of integers in `lo..=hi`.
pub open spec fn count(lo: int, hi: int) -> nat {
    if hi >= lo {
        (hi - lo + 1) as nat
    } else {
        0
    }
}

/// The quotient `a / b` rounded towards negative infinity, for `b > 0`.
pub open spec fn floor_div(a: int, b: int) -> int {
    a / b
}

/// The quotient `a / b` rounded towards positive infinity, for `b > 0`.
pub open spec fn ceil_div(a: int, b: int) -> int {
    -((-a) / b)
}

/// The floor is the one integer `q` with `q * b <= a < (q + 1) * b`.
pub proof fn lemma_floor_div_bounds(a: int, b: int)
    requires
        b > 0,
    ensures
        floor_div(a, b) * b <= a < floor_div(a, b) * b + b,
{
    lemma_fundamental_div_mod(a, b);
    assert(b * (a / b) == (a / b) * b) by (nonlinear_arith);
}

/// The ceiling is the one integer `q` with `(q - 1) * b < a <= q * b`.
pub proof fn lemma_ceil_div_bounds(a: int, b: int)
    requires
        b > 0,
    ensures
        ceil_div(a, b) * b - b < a <= ceil_div(a, b) * b,
{
    lemma_floor_div_bounds(-a, b);
    let q = (-a) / b;
    assert((-q) * b == -(q * b)) by (nonlinear_arith);
}

/// Any integer squeezed like the floor is the floor.
pub proof fn lemma_floor_div_unique(a: int, b: int, q: int)
    requires
        b > 0,
        q * b <= a < q * b + b,
    ensures
        q == floor_div(a, b),
{
    lemma_fundamental_div_mod_converse(a, b, q, a - q * b);
}

/// Division rounded towards negative infinity.
pub fn div_floor(a: i64, b: i64) -> (q: i64)
    requires
        b > 0,
    ensures
        q == floor_div(a as int, b as int),
{
    if a >= 0 {
        a / b
    } else {
        let n: i64 = -(a + 1);
        let k: i64 = n / b;
        proof {
            lemma_fundamental_div_mod(n as int, b as int);
            let r = (n as int) % (b as int);
            assert((-k - 1) * b == -(b * k) - b) by (nonlinear_arith);
            lemma_floor_div_unique(a as int, b as int, -k - 1);
        }
        -k - 1
    }
}

/// Division rounded towards positive infinity.
pub fn div_ceil(a: i64, b: i64) -> (q: i64)
    requires
        b > 0,
    ensures
        q == ceil_div(a as int, b as int),
{
    if a <= 0 {
        if a == i64::MIN {
            let k: i64 = i64::MAX / b;
            let r: i64 = i64::MAX % b;
            proof {
                lemma_fundamental_div_mod(i64::MAX as int, b as int);
                assert(b * k == k * b) by (nonlinear_arith);
                if r == b - 1 {
                    assert((k + 1) * b == k * b + b) by (nonlinear_arith);
                    lemma_floor_div_unique(-(a as int), b as int, k + 1);
                } else {
                    lemma_floor_div_unique(-(a as int), b as int, k as int);
                }
            }
            if r == b - 1 {
                -k - 1
            } else {
                -k
            }
        } else {
            -((-a) / b)
        }
    } else {
        let k: i64 = (a - 1) / b;
        proof {
            lemma_fundamental_div_mod((a - 1) as int, b as int);
            assert((-k - 1) * b == -(b * k) - b) by (nonlinear_arith);
            lemma_floor_div_unique(-(a as int), b as int, -k - 1);
        }
        k + 1
    }
}

/// `r` is the integer square root of `n`: the largest `r` with `r * r <= n`.
pub open spec fn is_sqrt_floor(n: int, r: int) -> bool {
    0 <= r && r * r <= n < (r + 1) * (r + 1)
}

/// The integer square root of a non-negative `n`.
pub open spec fn isqrt(n: int) -> int {
    choose|r: int| is_sqrt_floor(n, r)
}

/// Two integers that both qualify as the integer square root are equal.
pub proof fn lemma_sqrt_floor_unique(n: int, r1: int, r2: int)
    requires
        is_sqrt_floor(n, r1),
        is_sqrt_floor(n, r2),
    ensures
        r1 == r2,
{
    if r1 < r2 {
        assert((r1 + 1) * (r1 + 1) <= r2 * r2) by (nonlinear_arith)
            requires
                0 <= r1,
                r1 + 1 <= r2,
        ;
    } else if r2 < r1 {
        assert((r2 + 1) * (r2 + 1) <= r1 * r1) by (nonlinear_arith)
            requires
                0 <= r2,
                r2 + 1 <= r1,
        ;
    }
}

/// Every non-negative integer has an integer square root.
pub proof fn lemma_isqrt(n: int)
    requires
        n >= 0,
    ensures
        is_sqrt_floor(n, isqrt(n)),
    decreases n,
{
    if n == 0 {
        assert(is_sqrt_floor(0, 0));
    } else {
        lemma_isqrt(n - 1);
        let r = isqrt(n - 1);
        assert((r + 2) * (r + 2) > (r + 1) * (r + 1)) by (nonlinear_arith)
            requires
                r >= 0,
        ;
        if (r + 1) * (r + 1) <= n {
            assert(is_sqrt_floor(n, r + 1));
        } else {
            assert(is_sqrt_floor(n, r));
        }
    }
}

/// Squaring is monotone on the non-negative integers.
pub proof fn lemma_square_le(a: int, b: int)
    requires
        0 <= a <= b,
    ensures
        a * a <= b * b,
{
    assert(a * a <= b * b) by (nonlinear_arith)
        requires
            0 <= a <= b,
    ;
}

/// Integer square root by bisection.
pub fn int_sqrt(n: u64) -> (r: u64)
    ensures
        is_sqrt_floor(n as int, r as int),
        r == isqrt(n as int),
        r < 0x1_0000_0000,
{
    let mut lo: u64 = 0;
    let mut hi: u64 = 0x1_0000_0000;
    assert(0x1_0000_0000 * 0x1_0000_0000 == 0x1_0000_0000_0000_0000) by (nonlinear_arith);
    while hi - lo > 1
        invariant
            lo < hi <= 0x1_0000_0000,
            lo * lo <= n < hi * hi,
        decreases hi - lo,
    {
        let mid: u64 = lo + (hi - lo) / 2;
        proof {
            lemma_square_le(mid as int, 0xffff_ffff);
            assert(0xffff_ffff * 0xffff_ffff == 0xffff_fffe_0000_0001) by (nonlinear_arith);
        }
        if mid * mid <= n {
            lo = mid;
        } else {
            hi = mid;
        }
    }
    proof {
        assert(is_sqrt_floor(n as int, lo as int));
        lemma_sqrt_floor_unique(n as int, lo as int, isqrt(n as int));
    }
    lo
}

} // verus!
