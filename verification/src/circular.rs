//! Circular layout.
//!
//! Nodes are evenly distributed around the circle of radius 0.5 centered at
//! (0.5, 0.5): node `i` of `n` sits at the turn fraction `i/n`, rotated by
//! three quarter turns so that node 0 sits at the topmost point (y = 0; in
//! canvas coordinates y grows downwards), with following nodes placed
//! clockwise. A single node therefore sits at (0.5, 0); an empty graph gets
//! an empty map. No division by zero can occur: the denominator used is
//! `4 * n`, and the formula is only applied when `n > 0`.
//!
//! The trigonometry is carried out in fixed point: the sine is a
//! quarter-symmetric rational approximation (exact at every quarter turn),
//! and the cosine magnitude is recovered through the integer square root, so
//! every point lies on the circle up to the last fixed-point digit.

use crate::fixed::{sqrt_floor, HALF, UNIT};
use crate::graph::GraphData;
use crate::position::{Pos, PositionMap};
use vstd::prelude::*;

verus! {

/// Rational approximation of sin(π · m/d) scaled by UNIT, for 0 ≤ m ≤ d:
/// 16·x·(1−x) / (5 − 4·x·(1−x)) at x = m/d. Exact at m = 0, d/2 and d.
pub open spec fn sin_half_spec(m: int, d: int) -> int {
    16 * m * (d - m) * (UNIT as int) / (5 * d * d - 4 * m * (d - m))
}

/// Sine of the turn fraction num/den, scaled by UNIT: the second half turn
/// mirrors the first with opposite sign.
pub open spec fn sin_turn_spec(num: int, den: int) -> int {
    if 2 * num >= den {
        -sin_half_spec(2 * num - den, den)
    } else {
        sin_half_spec(2 * num, den)
    }
}

/// Whether the cosine of the turn fraction num/den is non-negative: the turn
/// lies in the first or last quarter.
pub open spec fn cos_sign_nonneg(num: int, den: int) -> bool {
    4 * num <= den || 4 * num >= 3 * den
}

/// Cosine of the turn fraction num/den, scaled by UNIT: magnitude recovered
/// from the sine so that the point stays on the unit circle, sign by quarter.
pub open spec fn cos_turn_spec(num: int, den: int) -> int {
    let s = sin_turn_spec(num, den);
    let mag = sqrt_floor((UNIT * UNIT - s * s) as nat) as int;
    if cos_sign_nonneg(num, den) {
        mag
    } else {
        -mag
    }
}

/// Halving that rounds toward zero, as the machine division does.
pub open spec fn half_toward_zero(v: int) -> int {
    if v >= 0 {
        v / 2
    } else {
        -((-v) / 2)
    }
}

/// The turn-fraction numerator of node `i` among `n`: i/n of a full turn,
/// rotated by 3/4 of a turn, over the common denominator 4·n.
pub open spec fn circ_num(i: int, n: int) -> int {
    if 4 * i < n {
        4 * i + 3 * n
    } else {
        4 * i - n
    }
}

/// What the circular layout promises: node `i` sits at the center (0.5, 0.5)
/// displaced by half the unit-circle point of its turn fraction.
pub open spec fn circular_formula(n: int, ps: Seq<Pos>) -> bool {
    &&& ps.len() == n
    &&& forall|i: int|
        0 <= i < n ==> (#[trigger] ps[i]).x == HALF + half_toward_zero(
            cos_turn_spec(circ_num(i, n), 4 * n),
        ) && ps[i].y == HALF + half_toward_zero(sin_turn_spec(circ_num(i, n), 4 * n))
}

/// The approximated half-turn sine: non-negative, at most UNIT, exactly UNIT
/// at the quarter turn and exactly 0 at both ends.
fn sin_half(m: u64, d: u64) -> (r: i64)
    requires
        0 < d <= 8_000_000,
        m <= d,
    ensures
        r == sin_half_spec(m as int, d as int),
        0 <= r <= UNIT,
        2 * m == d ==> r == UNIT,
        m == 0 || m == d ==> r == 0,
{
    let mu = m as u128;
    let du = d as u128;
    proof {
        assert(4 * (mu * (du - mu)) <= du * du && mu * (du - mu) <= du * du && du * du
            <= 8_000_000u128 * 8_000_000u128) by (nonlinear_arith)
            requires
                0 <= mu <= du <= 8_000_000u128,
        ;
    }
    let prod: u128 = mu * (du - mu);
    let numer: u128 = 16 * prod * (UNIT as u128);
    let denom: u128 = 5 * (du * du) - 4 * prod;
    proof {
        assert(denom >= 4 * (du * du) && denom > 0) by (nonlinear_arith)
            requires
                denom == 5 * (du * du) - 4 * prod,
                4 * prod <= du * du,
                du > 0,
        ;
        // The quotient stays at most UNIT because numer <= UNIT * denom.
        assert(numer <= (UNIT as u128) * denom) by (nonlinear_arith)
            requires
                numer == 16 * prod * (UNIT as u128),
                denom == 5 * (du * du) - 4 * prod,
                4 * prod <= du * du,
        ;
        vstd::arithmetic::div_mod::lemma_div_is_ordered(
            numer as int,
            (UNIT as u128) * denom as int,
            denom as int,
        );
        vstd::arithmetic::div_mod::lemma_div_by_multiple(UNIT as int, denom as int);
        assert((UNIT as u128) * denom == (UNIT as int) * (denom as int));
    }
    let q: u128 = numer / denom;
    proof {
        vstd::arithmetic::div_mod::lemma_div_pos_is_pos(numer as int, denom as int);
        // The machine quotient matches the specification term for term.
        assert(numer == 16 * (m as int) * ((d - m) as int) * (UNIT as int) && denom == 5 * (
        d as int) * (d as int) - 4 * (m as int) * ((d - m) as int)) by (nonlinear_arith)
            requires
                numer == 16 * (mu * (du - mu)) * (UNIT as u128),
                denom == 5 * (du * du) - 4 * (mu * (du - mu)),
                mu == m as int,
                du == d as int,
                m <= d,
        ;
        if 2 * m == d {
            // At the quarter turn the quotient is exactly UNIT.
            assert(numer == (UNIT as u128) * denom) by (nonlinear_arith)
                requires
                    numer == 16 * (mu * (du - mu)) * (UNIT as u128),
                    denom == 5 * (du * du) - 4 * (mu * (du - mu)),
                    du == 2 * mu,
            ;
            vstd::arithmetic::div_mod::lemma_div_by_multiple(UNIT as int, denom as int);
        }
        if m == 0 || m == d {
            assert(prod == 0) by (nonlinear_arith)
                requires
                    prod == mu * (du - mu),
                    mu == 0 || mu == du,
            ;
            vstd::arithmetic::div_mod::lemma_div_of0(denom as int);
        }
    }
    q as i64
}

/// The full-turn sine at a turn fraction, scaled by UNIT.
fn sin_turn(num: u64, den: u64) -> (r: i64)
    requires
        0 < den <= 8_000_000,
        num < den,
    ensures
        r == sin_turn_spec(num as int, den as int),
        -UNIT <= r <= UNIT,
{
    if 2 * num >= den {
        let h = sin_half(2 * num - den, den);
        -h
    } else {
        let h = sin_half(2 * num, den);
        h
    }
}

/// The unit-circle point at a turn fraction: (cosine, sine) scaled by UNIT.
/// Its squared distance from the origin is UNIT² up to the square root's
/// rounding.
pub(crate) fn turn_xy(num: u64, den: u64) -> (r: (i64, i64))
    requires
        0 < den <= 8_000_000,
        num < den,
    ensures
        r.0 == cos_turn_spec(num as int, den as int),
        r.1 == sin_turn_spec(num as int, den as int),
        -UNIT <= r.0 <= UNIT,
        -UNIT <= r.1 <= UNIT,
        UNIT * UNIT - 2 * UNIT <= r.0 * r.0 + r.1 * r.1 <= UNIT * UNIT,
{
    let s = sin_turn(num, den);
    let sabs: i64 = if s >= 0 {
        s
    } else {
        -s
    };
    proof {
        assert((sabs as u128) * (sabs as u128) == s * s && (sabs as u128) * (sabs as u128) <= (
        UNIT as u128) * (UNIT as u128)) by (nonlinear_arith)
            requires
                sabs == if s >= 0 { s as int } else { -(s as int) },
                -UNIT <= s <= UNIT,
        ;
        assert((UNIT as u128) * (UNIT as u128) < 0x4000_0000_0000_0000_0000_0000_0000_0000u128)
            by (nonlinear_arith)
            requires
                UNIT == 1_000_000,
        ;
    }
    let s2: u128 = (sabs as u128) * (sabs as u128);
    let rad: u128 = (UNIT as u128) * (UNIT as u128) - s2;
    let mag: u128 = crate::fixed::isqrt(rad);
    proof {
        assert(mag <= UNIT) by (nonlinear_arith)
            requires
                mag * mag <= rad,
                rad <= (UNIT as u128) * (UNIT as u128),
                0 < UNIT,
        ;
    }
    let c: i64 = if 4 * num <= den || 4 * num >= 3 * den {
        mag as i64
    } else {
        -(mag as i64)
    };
    proof {
        assert(c * c == mag * mag) by (nonlinear_arith)
            requires
                c == mag || c == -(mag as int),
        ;
        assert(rad == (UNIT as int) * (UNIT as int) - s * s);
        assert(UNIT * UNIT - 2 * UNIT <= c * c + s * s <= UNIT * UNIT) by (nonlinear_arith)
            requires
                mag * mag <= rad < (mag + 1) * (mag + 1),
                rad == (UNIT as int) * (UNIT as int) - s * s,
                c * c == mag * mag,
                0 <= mag <= UNIT,
        ;
    }
    (c, s)
}

/// The point of the circle of radius 0.5 around (0.5, 0.5) at a turn
/// fraction, in fixed-point canvas orientation. The point's distance from
/// the center is 0.5 up to the last fixed-point digits: the squared
/// distance, scaled by 4, lies within 6·UNIT of UNIT².
fn circle_point(num: u64, den: u64) -> (p: Pos)
    requires
        0 < den <= 8_000_000,
        num < den,
    ensures
        p.x == HALF + half_toward_zero(cos_turn_spec(num as int, den as int)),
        p.y == HALF + half_toward_zero(sin_turn_spec(num as int, den as int)),
        crate::position::in_unit_square(p),
        UNIT * UNIT - 6 * UNIT <= 4 * ((p.x - HALF) * (p.x - HALF) + (p.y - HALF) * (p.y - HALF))
            <= UNIT * UNIT,
{
    let (c, s) = turn_xy(num, den);
    let hc: i64 = if c >= 0 {
        ((c as u64) / 2) as i64
    } else {
        -((((-c) as u64) / 2) as i64)
    };
    let hs: i64 = if s >= 0 {
        ((s as u64) / 2) as i64
    } else {
        -((((-s) as u64) / 2) as i64)
    };
    proof {
        // Truncated halving loses at most half a unit per axis.
        assert(if c >= 0 {
            2 * hc == c || 2 * hc == c - 1
        } else {
            2 * hc == c || 2 * hc == c + 1
        });
        assert(if s >= 0 {
            2 * hs == s || 2 * hs == s - 1
        } else {
            2 * hs == s || 2 * hs == s + 1
        });
        assert(hc == half_toward_zero(c as int));
        assert(hs == half_toward_zero(s as int));
        assert(c * c - 2 * UNIT <= 4 * (hc * hc) <= c * c) by (nonlinear_arith)
            requires
                if c >= 0 {
                    2 * hc == c || 2 * hc == c - 1
                } else {
                    2 * hc == c || 2 * hc == c + 1
                },
                -UNIT <= c <= UNIT,
        ;
        assert(s * s - 2 * UNIT <= 4 * (hs * hs) <= s * s) by (nonlinear_arith)
            requires
                if s >= 0 {
                    2 * hs == s || 2 * hs == s - 1
                } else {
                    2 * hs == s || 2 * hs == s + 1
                },
                -UNIT <= s <= UNIT,
        ;
        assert(UNIT * UNIT - 6 * UNIT <= 4 * (hc * hc + hs * hs) <= UNIT * UNIT);
    }
    Pos { x: HALF + hc, y: HALF + hs }
}

/// At the quarter turn the approximated half-turn sine is exactly UNIT.
proof fn lemma_sin_half_quarter(m: int, d: int)
    requires
        0 < d,
        2 * m == d,
    ensures
        sin_half_spec(m, d) == UNIT,
{
    assert(16 * m * (d - m) * (UNIT as int) == (UNIT as int) * (16 * m * m) && 5 * d * d - 4 * m * (
    d - m) == 16 * m * m && 16 * m * m > 0) by (nonlinear_arith)
        requires
            d == 2 * m,
            d > 0,
    ;
    vstd::arithmetic::div_mod::lemma_div_by_multiple(UNIT as int, 16 * m * m);
}

/// Advancing a turn fraction by half a turn flips the sign of both the sine
/// and the cosine.
proof fn lemma_turn_flip(a: int, den: int)
    requires
        0 < den,
        den % 2 == 0,
        0 <= a < den,
    ensures
        sin_turn_spec(if a < den / 2 { a + den / 2 } else { a - den / 2 }, den) == -sin_turn_spec(
            a,
            den,
        ),
        cos_turn_spec(if a < den / 2 { a + den / 2 } else { a - den / 2 }, den) == -cos_turn_spec(
            a,
            den,
        ),
{
    let b = if a < den / 2 { a + den / 2 } else { a - den / 2 };
    let sa = sin_turn_spec(a, den);
    let sb = sin_turn_spec(b, den);
    // The sine flips: both branches reduce to the same half-turn argument.
    if a < den / 2 {
        assert(2 * b == 2 * a + den);
        assert(2 * a < den);
        assert(sb == -sin_half_spec(2 * a, den));
        assert(sa == sin_half_spec(2 * a, den));
    } else {
        assert(2 * b == 2 * a - den);
        assert(2 * a >= den);
        assert(sb == sin_half_spec(2 * a - den, den));
        assert(sa == -sin_half_spec(2 * a - den, den));
    }
    // The cosine magnitude agrees because the squared sines agree.
    assert(sb * sb == sa * sa) by (nonlinear_arith)
        requires
            sb == -sa,
    ;
    let rad = ((UNIT * UNIT - sa * sa) as nat);
    assert(cos_turn_spec(a, den) == if cos_sign_nonneg(a, den) {
        sqrt_floor(rad) as int
    } else {
        -(sqrt_floor(rad) as int)
    });
    assert(cos_turn_spec(b, den) == if cos_sign_nonneg(b, den) {
        sqrt_floor(rad) as int
    } else {
        -(sqrt_floor(rad) as int)
    });
    if 4 * a == den || 4 * a == 3 * den {
        // Quarter points: the sine is exactly ±UNIT, so the cosine is zero
        // whichever sign is chosen.
        if 4 * a == den {
            lemma_sin_half_quarter(2 * a, den);
            assert(sa == UNIT);
        } else {
            lemma_sin_half_quarter(2 * a - den, den);
            assert(sa == -UNIT);
        }
        assert(UNIT * UNIT - sa * sa == 0) by (nonlinear_arith)
            requires
                sa == UNIT || sa == -UNIT,
        ;
        assert(0 * 0 <= 0 < (0 + 1) * (0 + 1)) by (nonlinear_arith);
        crate::fixed::lemma_sqrt_floor_unique(0, 0);
        assert(sqrt_floor(rad) == 0);
    } else {
        // Away from the quarter points the sign condition flips exactly.
        assert(cos_sign_nonneg(b, den) == !cos_sign_nonneg(a, den));
    }
}

/// Law: for an even node count, nodes i and i + n/2 are antipodal: they
/// mirror each other through the center (0.5, 0.5).
pub proof fn lemma_circular_antipodal(n: int, ps: Seq<Pos>, i: int)
    requires
        circular_formula(n, ps),
        2 <= n,
        n % 2 == 0,
        0 <= i < n / 2,
    ensures
        ps[i].x + ps[i + n / 2].x == 2 * HALF,
        ps[i].y + ps[i + n / 2].y == 2 * HALF,
{
    let den = 4 * n;
    let a = circ_num(i, n);
    let j = i + n / 2;
    let b = circ_num(j, n);
    assert(0 <= a < den);
    assert(b == if a < den / 2 {
        a + den / 2
    } else {
        a - den / 2
    });
    lemma_turn_flip(a, den);
    let ca = cos_turn_spec(a, den);
    let sa = sin_turn_spec(a, den);
    assert(cos_turn_spec(b, den) == -ca);
    assert(sin_turn_spec(b, den) == -sa);
    // Truncated halving is odd, so the displacements cancel exactly.
    assert(half_toward_zero(-ca) == -half_toward_zero(ca));
    assert(half_toward_zero(-sa) == -half_toward_zero(sa));
}

/// Arranges the nodes of a graph evenly on the circle of radius 0.5 around
/// the center of the unit square, node 0 topmost, then clockwise by index.
pub fn circular_layout(g: &GraphData) -> (r: PositionMap)
    requires
        g.wf(),
    ensures
        circular_formula(g.node_count as int, r.positions@),
        forall|i: int|
            0 <= i < g.node_count ==> crate::position::in_unit_square(#[trigger] r.positions@[i]),
        // Every node lies at distance 0.5 from the center (0.5, 0.5), up to
        // the last fixed-point digits.
        forall|i: int|
            0 <= i < g.node_count ==> UNIT * UNIT - 6 * UNIT <= 4 * (((#[trigger] r.positions@[i]).x
                - HALF) * (r.positions@[i].x - HALF) + (r.positions@[i].y - HALF) * (
            r.positions@[i].y - HALF)) <= UNIT * UNIT,
{
    let n = g.node_count;
    let n64 = n as u64;
    let mut ps: Vec<Pos> = Vec::new();
    let mut i: usize = 0;
    while i < n
        invariant
            i <= n <= crate::graph::MAX_NODES,
            n64 == n,
            ps@.len() == i,
            forall|j: int|
                0 <= j < i ==> (#[trigger] ps@[j]).x == HALF + half_toward_zero(
                    cos_turn_spec(circ_num(j, n as int), 4 * n),
                ) && ps@[j].y == HALF + half_toward_zero(sin_turn_spec(circ_num(j, n as int), 4 * n))
                    && crate::position::in_unit_square(ps@[j]),
            forall|j: int|
                0 <= j < i ==> UNIT * UNIT - 6 * UNIT <= 4 * (((#[trigger] ps@[j]).x - HALF) * (
                ps@[j].x - HALF) + (ps@[j].y - HALF) * (ps@[j].y - HALF)) <= UNIT * UNIT,
        decreases n - i,
    {
        let i64v = i as u64;
        let num: u64 = if 4 * i64v < n64 {
            4 * i64v + 3 * n64
        } else {
            4 * i64v - n64
        };
        let p = circle_point(num, 4 * n64);
        ps.push(p);
        i += 1;
    }
    PositionMap { positions: ps }
}

} // verus!
