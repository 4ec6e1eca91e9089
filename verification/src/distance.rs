//! Truncated Euclidean distance between grid coordinates.

use vstd::prelude::*;

verus! {

/// The largest `r` with `r * r <= v`: the square root of `v`, truncated.
pub open spec fn floor_sqrt(v: nat) -> nat
    decreases v,
{
    if v == 0 {
        0
    } else {
        let r = floor_sqrt((v - 1) as nat);
        if (r + 1) * (r + 1) <= v {
            r + 1
        } else {
            r
        }
    }
}

/// `floor_sqrt(v)` lies on or below the root of `v`, and its successor above.
pub proof fn lemma_floor_sqrt_bounds(v: nat)
    ensures
        floor_sqrt(v) * floor_sqrt(v) <= v,
        v < (floor_sqrt(v) + 1) * (floor_sqrt(v) + 1),
    decreases v,
{
    if v == 0 {
        assert(floor_sqrt(v) == 0);
        assert(0 * 0 == 0nat && (0 + 1) * (0 + 1) == 1nat) by (nonlinear_arith);
    } else {
        lemma_floor_sqrt_bounds((v - 1) as nat);
        let r = floor_sqrt((v - 1) as nat);
        let s = floor_sqrt(v);
        if (r + 1) * (r + 1) <= v {
            assert(s == r + 1);
            assert((r + 1) * (r + 1) < (r + 1 + 1) * (r + 1 + 1)) by (nonlinear_arith);
        } else {
            assert(s == r);
        }
    }
}

/// Only one number has its square on or below `v` and its successor's above.
pub proof fn lemma_floor_sqrt_unique(v: nat, r: nat)
    requires
        r * r <= v,
        v < (r + 1) * (r + 1),
    ensures
        r == floor_sqrt(v),
{
    lemma_floor_sqrt_bounds(v);
    let s = floor_sqrt(v);
    assert(r == s) by (nonlinear_arith)
        requires
            r * r <= v,
            v < (r + 1) * (r + 1),
            s * s <= v,
            v < (s + 1) * (s + 1),
    {
        if r < s {
            assert((r + 1) * (r + 1) <= s * s);
        }
        if s < r {
            assert((s + 1) * (s + 1) <= r * r);
        }
    }
}

/// The distance between `a` and `b` on a line.
pub open spec fn gap(a: int, b: int) -> nat {
    if a >= b {
        (a - b) as nat
    } else {
        (b - a) as nat
    }
}

/// The square of the straight-line distance between the points `(x1, y1)`
/// and `(x2, y2)`.
pub open spec fn squared_distance(x1: int, x2: int, y1: int, y2: int) -> nat {
    gap(x1, x2) * gap(x1, x2) + gap(y1, y2) * gap(y1, y2)
}

/// The truncated square root of `v`.
pub fn integer_sqrt(v: usize) -> (r: usize)
    ensures
        r == floor_sqrt(v as nat),
        r * r <= v,
        v < (r + 1) * (r + 1),
{
    let mut low: u128 = 0;
    let mut high: u128 = v as u128 + 1;
    assert(v < (v + 1) * (v + 1)) by (nonlinear_arith);
    while high - low > 1
        invariant
            low < high <= v + 1,
            low * low <= v,
            v < high * high,
        decreases high - low,
    {
        let mid: u128 = low + (high - low) / 2;
        assert(mid * mid <= 0xffff_ffff_ffff_ffff * 0xffff_ffff_ffff_ffff) by (nonlinear_arith)
            requires
                mid <= 0xffff_ffff_ffff_ffff,
        ;
        if mid * mid <= v as u128 {
            low = mid;
        } else {
            high = mid;
        }
    }
    proof {
        lemma_floor_sqrt_unique(v as nat, low as nat);
    }
    low as usize
}

/// The straight-line distance between the points `(x1, y1)` and `(x2, y2)`,
/// truncated to a whole number.
pub fn euclidean_distance(x1: usize, x2: usize, y1: usize, y2: usize) -> (d: usize)
    requires
        squared_distance(x1 as int, x2 as int, y1 as int, y2 as int) <= usize::MAX,
    ensures
        d == floor_sqrt(squared_distance(x1 as int, x2 as int, y1 as int, y2 as int)),
{
    let x: usize = if x1 >= x2 {
        x1 - x2
    } else {
        x2 - x1
    };
    let y: usize = if y1 >= y2 {
        y1 - y2
    } else {
        y2 - y1
    };
    assert(x * x >= 0 && y * y >= 0) by (nonlinear_arith);
    integer_sqrt(x * x + y * y)
}

} // verus!
