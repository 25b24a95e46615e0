//! Fixed-point scalar arithmetic.
//!
//! All coordinates in this library are fixed-point numbers: an `i64` holding
//! the real value scaled by [`UNIT`]. The normalized layout square [0, 1]×[0, 1]
//! is thus [0, UNIT]×[0, UNIT].

use vstd::prelude::*;

verus! {

/// Scale of the fixed-point representation: the real number 1.0.
pub const UNIT: i64 = 1_000_000;

/// The real number 0.5 in fixed-point representation.
pub const HALF: i64 = 500_000;

/// The real number 0.25 in fixed-point representation.
pub const QUARTER: i64 = 250_000;

/// The real number 0.75 in fixed-point representation.
pub const THREE_QUARTERS: i64 = 750_000;

/// Floor of the square root of a natural number.
pub open spec fn sqrt_floor(v: nat) -> nat {
    choose|r: nat| (#[trigger] (r * r)) <= v < (r + 1) * (r + 1)
}

/// The characterizing property of `sqrt_floor` pins it down uniquely.
pub proof fn lemma_sqrt_floor_unique(v: nat, r: nat)
    requires
        r * r <= v < (r + 1) * (r + 1),
    ensures
        sqrt_floor(v) == r,
{
    assert(sqrt_floor(v) * sqrt_floor(v) <= v < (sqrt_floor(v) + 1) * (sqrt_floor(v) + 1));
    let s = sqrt_floor(v);
    if s < r {
        assert((s + 1) * (s + 1) <= r * r) by (nonlinear_arith)
            requires s + 1 <= r;
    }
    if r < s {
        assert((r + 1) * (r + 1) <= s * s) by (nonlinear_arith)
            requires r + 1 <= s;
    }
}

/// Integer square root by binary search: returns the floor of the square root.
pub fn isqrt(v: u128) -> (r: u128)
    requires
        v < 0x4000_0000_0000_0000_0000_0000_0000_0000u128,
    ensures
        r * r <= v,
        v < (r + 1) * (r + 1),
        r == sqrt_floor(v as nat),
{
    let mut lo: u128 = 0;
    let mut hi: u128 = 0x8000_0000_0000_0000u128;
    assert(0x8000_0000_0000_0000u128 * 0x8000_0000_0000_0000u128
        == 0x4000_0000_0000_0000_0000_0000_0000_0000u128) by (nonlinear_arith);
    while hi - lo > 1
        invariant
            lo < hi <= 0x8000_0000_0000_0000u128,
            lo * lo <= v,
            v < hi * hi,
        decreases hi - lo,
    {
        let mid = lo + (hi - lo) / 2;
        proof {
            assert(mid * mid <= 0x8000_0000_0000_0000u128 * 0x8000_0000_0000_0000u128)
                by (nonlinear_arith)
                requires
                    mid <= 0x8000_0000_0000_0000u128,
            ;
        }
        if mid * mid <= v {
            lo = mid;
        } else {
            hi = mid;
        }
    }
    proof {
        lemma_sqrt_floor_unique(v as nat, lo as nat);
    }
    lo
}

/// Fixed-point product of two non-negative values: floor((a * b) / UNIT).
pub fn mul_fixed(a: i64, b: i64) -> (r: i64)
    requires
        0 <= a,
        0 <= b,
        a * b / (UNIT as int) <= i64::MAX,
    ensures
        r == a * b / (UNIT as int),
        0 <= r,
{
    proof {
        assert((a as u128) * (b as u128) <= 0x8000_0000_0000_0000u128 * 0x8000_0000_0000_0000u128)
            by (nonlinear_arith)
            requires
                a as u128 <= 0x8000_0000_0000_0000u128,
                b as u128 <= 0x8000_0000_0000_0000u128,
        ;
    }
    let p: u128 = (a as u128) * (b as u128);
    let q: u128 = p / (UNIT as u128);
    proof {
        assert(p == a * b);
        assert(q == a * b / (UNIT as int));
        vstd::arithmetic::div_mod::lemma_div_is_ordered(0, p as int, UNIT as int);
    }
    q as i64
}

/// Floor of (a * b) / c for non-negative operands, with a 128-bit intermediate.
pub fn mul_div(a: i64, b: i64, c: i64) -> (r: i64)
    requires
        0 <= a,
        0 <= b,
        0 < c,
        a * b / (c as int) <= i64::MAX,
    ensures
        r == a * b / (c as int),
        0 <= r,
{
    proof {
        assert((a as u128) * (b as u128) <= 0x8000_0000_0000_0000u128 * 0x8000_0000_0000_0000u128)
            by (nonlinear_arith)
            requires
                a as u128 <= 0x8000_0000_0000_0000u128,
                b as u128 <= 0x8000_0000_0000_0000u128,
        ;
    }
    let p: u128 = (a as u128) * (b as u128);
    let q: u128 = p / (c as u128);
    proof {
        assert(p == a * b);
        assert(q == a * b / (c as int));
        vstd::arithmetic::div_mod::lemma_div_is_ordered(0, p as int, c as int);
    }
    q as i64
}

} // verus!
