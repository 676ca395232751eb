//! The local solver of fast sweeping: the first-order upwind update of the
//! eikonal equation `|grad d| = 1` at one lattice point.

use vstd::prelude::*;
use crate::arith::{int_sqrt, isqrt, lemma_isqrt, lemma_square_le, max2, min2};
use crate::cell::VALUE_MAX;
use crate::point::voxel_size_ok;

verus! {

/// The update from one upwind neighbour at distance `a`.
pub open spec fn solve_one(a: int, h: int) -> int {
    a + h
}

/// The update from upwind neighbours on two axes, at distances `a` and `b`.
///
/// This is the larger root of `(d - a)^2 + (d - b)^2 = h^2`, rounded down,
/// or the one-sided update where the two distances are a step or more apart.
pub open spec fn solve_two(a: int, b: int, h: int) -> int {
    let lo = min2(a, b);
    let hi = max2(a, b);
    if hi - lo >= h {
        lo + h
    } else {
        (lo + hi + isqrt(2 * h * h - (hi - lo) * (hi - lo))) / 2
    }
}

/// The discriminant of the three-axis update, for `lo <= mid <= hi`.
pub open spec fn discriminant(lo: int, mid: int, hi: int, h: int) -> int {
    3 * h * h - ((mid - lo) * (mid - lo) + (hi - mid) * (hi - mid) + (hi - lo) * (hi - lo))
}

/// The update from upwind neighbours on all three axes.
///
/// The two nearest neighbours decide alone where their update does not
/// reach beyond the third; otherwise this is the larger root of
/// `(d - a)^2 + (d - b)^2 + (d - c)^2 = h^2`, rounded down.
pub open spec fn solve_three(a: int, b: int, c: int, h: int) -> int {
    let lo = min2(a, min2(b, c));
    let hi = max2(a, max2(b, c));
    let mid = a + b + c - lo - hi;
    let two = solve_two(lo, mid, h);
    if two <= hi {
        two
    } else if discriminant(lo, mid, hi, h) < 0 {
        two
    } else {
        (lo + mid + hi + isqrt(discriminant(lo, mid, hi, h))) / 3
    }
}

/// The upwind update from the nearest neighbour distance on each axis;
/// `None` where no axis has a neighbour.
pub open spec fn solve(ax: Option<int>, ay: Option<int>, az: Option<int>, h: int) -> Option<int> {
    match (ax, ay, az) {
        (None, None, None) => None,
        (Some(a), None, None) => Some(solve_one(a, h)),
        (None, Some(a), None) => Some(solve_one(a, h)),
        (None, None, Some(a)) => Some(solve_one(a, h)),
        (Some(a), Some(b), None) => Some(solve_two(a, b, h)),
        (Some(a), None, Some(b)) => Some(solve_two(a, b, h)),
        (None, Some(a), Some(b)) => Some(solve_two(a, b, h)),
        (Some(a), Some(b), Some(c)) => Some(solve_three(a, b, c, h)),
    }
}

/// The smallest of up to three distances.
pub open spec fn least(ax: Option<int>, ay: Option<int>, az: Option<int>) -> Option<int> {
    match (ax, ay, az) {
        (None, None, None) => None,
        (Some(a), None, None) => Some(a),
        (None, Some(a), None) => Some(a),
        (None, None, Some(a)) => Some(a),
        (Some(a), Some(b), None) => Some(min2(a, b)),
        (Some(a), None, Some(b)) => Some(min2(a, b)),
        (None, Some(a), Some(b)) => Some(min2(a, b)),
        (Some(a), Some(b), Some(c)) => Some(min2(a, min2(b, c))),
    }
}

/// Whether `o`, where present, is at least `low`.
pub open spec fn at_least(o: Option<int>, low: int) -> bool {
    o matches Some(v) ==> v >= low
}

/// The update is never smaller than the smallest neighbour distance.
pub proof fn lemma_solve_two_lower(a: int, b: int, h: int)
    requires
        h > 0,
    ensures
        solve_two(a, b, h) >= min2(a, b),
{
    let lo = min2(a, b);
    let hi = max2(a, b);
    let gap = hi - lo;
    if gap < h {
        lemma_square_le(gap, h);
        assert(2 * h * h == h * h + h * h) by (nonlinear_arith);
        assert(h * h >= 0) by (nonlinear_arith);
        lemma_isqrt(2 * h * h - gap * gap);
    }
}

/// The update is never smaller than the smallest neighbour distance.
pub proof fn lemma_solve_lower(ax: Option<int>, ay: Option<int>, az: Option<int>, h: int, low: int)
    requires
        h > 0,
        at_least(ax, low),
        at_least(ay, low),
        at_least(az, low),
    ensures
        at_least(solve(ax, ay, az, h), low),
        solve(ax, ay, az, h) is Some == least(ax, ay, az) is Some,
{
    match (ax, ay, az) {
        (Some(a), Some(b), None) => {
            lemma_solve_two_lower(a, b, h);
        },
        (Some(a), None, Some(b)) => {
            lemma_solve_two_lower(a, b, h);
        },
        (None, Some(a), Some(b)) => {
            lemma_solve_two_lower(a, b, h);
        },
        (Some(a), Some(b), Some(c)) => {
            let lo = min2(a, min2(b, c));
            let hi = max2(a, max2(b, c));
            let mid = a + b + c - lo - hi;
            lemma_solve_two_lower(lo, mid, h);
            if discriminant(lo, mid, hi, h) >= 0 {
                lemma_isqrt(discriminant(lo, mid, hi, h));
            }
        },
        _ => {},
    }
}

/// A machine distance as a mathematical one.
pub open spec fn as_int(o: Option<i64>) -> Option<int> {
    match o {
        None => None,
        Some(v) => Some(v as int),
    }
}

/// Whether `o`, where present, is a magnitude that a cell can store.
pub open spec fn is_magnitude(o: Option<i64>) -> bool {
    o matches Some(v) ==> 0 <= v <= VALUE_MAX
}

fn update_two(a: i64, b: i64, h: i64) -> (d: i64)
    requires
        0 <= a <= VALUE_MAX,
        0 <= b <= VALUE_MAX,
        voxel_size_ok(h as int),
    ensures
        d == solve_two(a as int, b as int, h as int),
        min2(a as int, b as int) <= d <= min2(a as int, b as int) + 2 * h,
        max2(a as int, b as int) <= d || d == min2(a as int, b as int) + h,
{
    let lo: i64 = if a <= b {
        a
    } else {
        b
    };
    let hi: i64 = if a <= b {
        b
    } else {
        a
    };
    let gap: i64 = hi - lo;
    if gap >= h {
        lo + h
    } else {
        proof {
            lemma_square_le(h as int, 0x10_0000);
            lemma_square_le(gap as int, h as int);
            assert(0x10_0000 * 0x10_0000 == 0x100_0000_0000) by (nonlinear_arith);
            assert(2 * h * h == 2 * (h * h)) by (nonlinear_arith);
        }
        let n: u64 = (2 * (h * h) - gap * gap) as u64;
        let r: u64 = int_sqrt(n);
        proof {
            assert(r >= gap) by {
                if r < gap {
                    lemma_square_le((r + 1) as int, gap as int);
                }
            }
            assert(r <= 2 * h) by {
                if r > 2 * h {
                    lemma_square_le(2 * h, r as int);
                    assert((2 * h) * (2 * h) == 4 * (h * h)) by (nonlinear_arith);
                    assert(h * h > 0) by (nonlinear_arith)
                        requires
                            h > 0,
                    ;
                    assert(gap * gap >= 0) by (nonlinear_arith);
                }
            }
        }
        (lo + hi + r as i64) / 2
    }
}

fn update_three(a: i64, b: i64, c: i64, h: i64) -> (d: i64)
    requires
        0 <= a <= VALUE_MAX,
        0 <= b <= VALUE_MAX,
        0 <= c <= VALUE_MAX,
        voxel_size_ok(h as int),
    ensures
        d == solve_three(a as int, b as int, c as int, h as int),
        min2(a as int, min2(b as int, c as int)) <= d <= VALUE_MAX + 2 * h,
{
    let mut lo: i64 = a;
    let mut mid: i64 = b;
    let mut hi: i64 = c;
    if lo > mid {
        let t: i64 = lo;
        lo = mid;
        mid = t;
    }
    if mid > hi {
        let t: i64 = mid;
        mid = hi;
        hi = t;
    }
    if lo > mid {
        let t: i64 = lo;
        lo = mid;
        mid = t;
    }
    assert(lo == min2(a as int, min2(b as int, c as int)));
    assert(hi == max2(a as int, max2(b as int, c as int)));
    assert(mid == a + b + c - lo - hi);
    let two: i64 = update_two(lo, mid, h);
    if two <= hi {
        return two;
    }
    let e1: i128 = (mid - lo) as i128;
    let e2: i128 = (hi - mid) as i128;
    let e3: i128 = (hi - lo) as i128;
    let hh: i128 = h as i128;
    proof {
        lemma_square_le(e1 as int, 0x1000_0000_0000_0000);
        lemma_square_le(e2 as int, 0x1000_0000_0000_0000);
        lemma_square_le(e3 as int, 0x1000_0000_0000_0000);
        lemma_square_le(hh as int, 0x10_0000);
        assert(0x1000_0000_0000_0000 * 0x1000_0000_0000_0000
            == 0x100_0000_0000_0000_0000_0000_0000_0000) by (nonlinear_arith);
        assert(0x10_0000 * 0x10_0000 == 0x100_0000_0000) by (nonlinear_arith);
        assert(3 * hh * hh == 3 * (hh * hh)) by (nonlinear_arith);
        assert(e1 * e1 >= 0) by (nonlinear_arith);
        assert(e2 * e2 >= 0) by (nonlinear_arith);
        assert(e3 * e3 >= 0) by (nonlinear_arith);
    }
    let disc: i128 = 3 * (hh * hh) - (e1 * e1 + e2 * e2 + e3 * e3);
    assert(disc == discriminant(lo as int, mid as int, hi as int, h as int));
    if disc < 0 {
        return two;
    }
    let r: u64 = int_sqrt(disc as u64);
    proof {
        assert(r <= 2 * h) by {
            if r > 2 * h {
                lemma_square_le(2 * h, r as int);
                assert((2 * h) * (2 * h) == 4 * (h * h)) by (nonlinear_arith);
                assert(h * h > 0) by (nonlinear_arith)
                    requires
                        h > 0,
                ;
            }
        }
    }
    (lo + mid + hi + r as i64) / 3
}

/// The upwind update from the nearest neighbour distance on each axis.
pub fn update(ax: Option<i64>, ay: Option<i64>, az: Option<i64>, h: i64) -> (d: Option<i64>)
    requires
        is_magnitude(ax),
        is_magnitude(ay),
        is_magnitude(az),
        voxel_size_ok(h as int),
    ensures
        as_int(d) == solve(as_int(ax), as_int(ay), as_int(az), h as int),
        d matches Some(v) ==> 0 <= v,
        d matches Some(v) ==> (least(as_int(ax), as_int(ay), as_int(az)) matches Some(m) && m <= v),
{
    match (ax, ay, az) {
        (None, None, None) => None,
        (Some(a), None, None) => Some(a + h),
        (None, Some(a), None) => Some(a + h),
        (None, None, Some(a)) => Some(a + h),
        (Some(a), Some(b), None) => Some(update_two(a, b, h)),
        (Some(a), None, Some(b)) => Some(update_two(a, b, h)),
        (None, Some(a), Some(b)) => Some(update_two(a, b, h)),
        (Some(a), Some(b), Some(c)) => Some(update_three(a, b, c, h)),
    }
}

} // verus!
