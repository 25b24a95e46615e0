//! Force-directed layout.
//!
//! A Fruchterman–Reingold-style spring embedder: nodes start on the unit
//! circle (to avoid a degenerate all-coincident state), then for a fixed
//! iteration budget every node pair repels with magnitude k²/d and every
//! edge attracts its endpoints with magnitude d²/k, where k is the ideal
//! distance sqrt(area / node count) with the area fixed at 1. Each node's
//! net displacement per iteration is clamped to a linearly cooling
//! temperature. Finally the bounding box of the raw positions is mapped
//! affinely onto the unit square; a degenerate axis (zero spread, including
//! the single-node case) collapses to the midpoint 0.5 rather than dividing
//! by zero. The computation is pure integer arithmetic, so a rerun over the
//! same graph and budget reproduces the layout exactly.

use crate::fixed::{isqrt, HALF, UNIT};
use crate::graph::{GraphData, MAX_EDGES, MAX_NODES};
use crate::position::{Pos, PositionMap};
use vstd::prelude::*;

verus! {

/// Distances are floored at this value (the real number 0.01) before any
/// division, so coincident nodes cause no singularity.
pub const MIN_DISTANCE: i64 = 10_000;

/// The initial temperature of the cooling schedule (the real number 0.1).
pub const INITIAL_TEMPERATURE: i64 = 100_000;

/// Largest accepted iteration budget.
pub const MAX_ITERATIONS: u32 = 1_000_000;

/// The iteration budget used when none is chosen explicitly.
pub const DEFAULT_ITERATIONS: u32 = 100_000;

/// Bound on every raw coordinate during the whole simulation: the circle
/// start is within UNIT and each iteration moves a node by at most the
/// initial temperature per axis.
pub open spec fn coord_bound() -> int {
    UNIT + MAX_ITERATIONS * INITIAL_TEMPERATURE
}

/// Whether every position's coordinates are within the simulation bound.
pub open spec fn sim_bounded(ps: Seq<Pos>) -> bool {
    forall|v: int|
        0 <= v < ps.len() ==> -coord_bound() <= (#[trigger] ps[v]).x <= coord_bound()
            && -coord_bound() <= ps[v].y <= coord_bound()
}

/// The repulsive force a pair of nodes at the given offset exerts, along the
/// offset: magnitude k²/d with the distance floored at MIN_DISTANCE. Each
/// component is bounded by k² / MIN_DISTANCE.
fn repulsion_force(dx: i64, dy: i64, k: i64) -> (f: (i128, i128))
    requires
        -2 * coord_bound() <= dx <= 2 * coord_bound(),
        -2 * coord_bound() <= dy <= 2 * coord_bound(),
        0 < k <= UNIT,
    ensures
        -100_000_000 <= f.0 <= 100_000_000,
        -100_000_000 <= f.1 <= 100_000_000,
{
    let ax: u128 = if dx >= 0 {
        dx as u128
    } else {
        (-dx) as u128
    };
    let ay: u128 = if dy >= 0 {
        dy as u128
    } else {
        (-dy) as u128
    };
    proof {
        assert(ax * ax + ay * ay <= 8 * ((coord_bound() as u128) * (coord_bound() as u128))
            && ax * ax >= 0 && ay * ay >= 0 && 8 * ((coord_bound() as u128) * (coord_bound()
            as u128)) < 0x4000_0000_0000_0000_0000_0000_0000_0000u128) by (nonlinear_arith)
            requires
                0 <= ax <= 2 * coord_bound(),
                0 <= ay <= 2 * coord_bound(),
                coord_bound() == UNIT + MAX_ITERATIONS * INITIAL_TEMPERATURE,
                UNIT == 1_000_000,
                MAX_ITERATIONS == 1_000_000,
                INITIAL_TEMPERATURE == 100_000,
        ;
    }
    let d2: u128 = ax * ax + ay * ay;
    let draw: u128 = isqrt(d2);
    proof {
        // Each offset magnitude is at most the distance.
        assert(ax <= draw && ay <= draw) by (nonlinear_arith)
            requires
                draw * draw <= d2 < (draw + 1) * (draw + 1),
                d2 == ax * ax + ay * ay,
                0 <= ax,
                0 <= ay,
                0 <= draw,
        ;
    }
    let dist: u128 = if draw < (MIN_DISTANCE as u128) {
        MIN_DISTANCE as u128
    } else {
        draw
    };
    proof {
        assert((k as u128) * (k as u128) <= 1_000_000_000_000u128) by (nonlinear_arith)
            requires
                0 < k <= UNIT,
                UNIT == 1_000_000,
        ;
        vstd::arithmetic::div_mod::lemma_div_is_ordered(
            ((k as u128) * (k as u128)) as int,
            1_000_000_000_000,
            dist as int,
        );
        vstd::arithmetic::div_mod::lemma_div_is_ordered_by_denominator(
            1_000_000_000_000,
            MIN_DISTANCE as int,
            dist as int,
        );
        assert(1_000_000_000_000int == 100_000_000int * 10_000int + 0) by (nonlinear_arith);
        vstd::arithmetic::div_mod::lemma_fundamental_div_mod_converse(
            1_000_000_000_000,
            10_000,
            100_000_000,
            0,
        );
        vstd::arithmetic::div_mod::lemma_div_pos_is_pos(
            ((k as u128) * (k as u128)) as int,
            dist as int,
        );
    }
    let rep: u128 = (k as u128) * (k as u128) / dist;
    // Scale the offset to the force magnitude; each component stays within
    // the magnitude because the offset component is within the distance.
    proof {
        assert(dist <= 1_000_000_000_000u128) by (nonlinear_arith)
            requires
                draw * draw <= d2,
                d2 <= 8 * ((coord_bound() as u128) * (coord_bound() as u128)),
                0 <= draw,
                dist == if draw < (MIN_DISTANCE as u128) { MIN_DISTANCE as u128 } else { draw },
                coord_bound() == UNIT + MAX_ITERATIONS * INITIAL_TEMPERATURE,
                UNIT == 1_000_000,
                MAX_ITERATIONS == 1_000_000,
                INITIAL_TEMPERATURE == 100_000,
                MIN_DISTANCE == 10_000,
        ;
        assert(ax * rep <= dist * rep && ay * rep <= dist * rep && dist * rep
            < 0x4000_0000_0000_0000_0000_0000_0000_0000u128) by (nonlinear_arith)
            requires
                ax <= dist,
                ay <= dist,
                0 <= rep <= 100_000_000u128,
                dist <= 1_000_000_000_000u128,
        ;
        vstd::arithmetic::div_mod::lemma_div_pos_is_pos((ax * rep) as int, dist as int);
        vstd::arithmetic::div_mod::lemma_div_pos_is_pos((ay * rep) as int, dist as int);
        vstd::arithmetic::div_mod::lemma_div_is_ordered(
            (ax * rep) as int,
            (dist * rep) as int,
            dist as int,
        );
        vstd::arithmetic::div_mod::lemma_div_is_ordered(
            (ay * rep) as int,
            (dist * rep) as int,
            dist as int,
        );
        vstd::arithmetic::div_mod::lemma_div_multiples_vanish(rep as int, dist as int);
    }
    let fxm: u128 = ax * rep / dist;
    let fym: u128 = ay * rep / dist;
    let fx: i128 = if dx >= 0 {
        fxm as i128
    } else {
        -(fxm as i128)
    };
    let fy: i128 = if dy >= 0 {
        fym as i128
    } else {
        -(fym as i128)
    };
    (fx, fy)
}

/// The attractive force an edge with the given endpoint offset exerts:
/// magnitude d²/k with the distance floored at MIN_DISTANCE. Each component
/// is bounded by the squared distance (k is at least 1).
fn attraction_force(dx: i64, dy: i64, k: i64) -> (f: (i128, i128))
    requires
        -2 * coord_bound() <= dx <= 2 * coord_bound(),
        -2 * coord_bound() <= dy <= 2 * coord_bound(),
        0 < k <= UNIT,
    ensures
        -0x1_0000_0000_0000_0000_0000_0000i128 <= f.0 <= 0x1_0000_0000_0000_0000_0000_0000i128,
        -0x1_0000_0000_0000_0000_0000_0000i128 <= f.1 <= 0x1_0000_0000_0000_0000_0000_0000i128,
{
    let ax: u128 = if dx >= 0 {
        dx as u128
    } else {
        (-dx) as u128
    };
    let ay: u128 = if dy >= 0 {
        dy as u128
    } else {
        (-dy) as u128
    };
    proof {
        assert(ax * ax + ay * ay <= 8 * ((coord_bound() as u128) * (coord_bound() as u128))
            && 8 * ((coord_bound() as u128) * (coord_bound() as u128))
            < 0x4000_0000_0000_0000_0000_0000_0000_0000u128) by (nonlinear_arith)
            requires
                0 <= ax <= 2 * coord_bound(),
                0 <= ay <= 2 * coord_bound(),
                coord_bound() == UNIT + MAX_ITERATIONS * INITIAL_TEMPERATURE,
                UNIT == 1_000_000,
                MAX_ITERATIONS == 1_000_000,
                INITIAL_TEMPERATURE == 100_000,
        ;
    }
    let d2: u128 = ax * ax + ay * ay;
    let draw: u128 = isqrt(d2);
    proof {
        assert(ax <= draw && ay <= draw && draw <= 1_000_000_000_000u128) by (nonlinear_arith)
            requires
                draw * draw <= d2 < (draw + 1) * (draw + 1),
                d2 == ax * ax + ay * ay,
                d2 <= 8 * ((coord_bound() as u128) * (coord_bound() as u128)),
                0 <= ax,
                0 <= ay,
                0 <= draw,
                coord_bound() == UNIT + MAX_ITERATIONS * INITIAL_TEMPERATURE,
                UNIT == 1_000_000,
                MAX_ITERATIONS == 1_000_000,
                INITIAL_TEMPERATURE == 100_000,
        ;
    }
    let dist: u128 = if draw < (MIN_DISTANCE as u128) {
        MIN_DISTANCE as u128
    } else {
        draw
    };
    proof {
        assert(dist * dist <= 1_000_000_000_000u128 * 1_000_000_000_000u128) by (nonlinear_arith)
            requires
                0 <= dist <= 1_000_000_000_000u128,
        ;
        vstd::arithmetic::div_mod::lemma_div_pos_is_pos((dist * dist) as int, k as int);
        vstd::arithmetic::div_mod::lemma_div_nonincreasing((dist * dist) as int, k as int);
    }
    let att: u128 = dist * dist / (k as u128);
    proof {
        assert(att <= 1_000_000_000_000_000_000_000_000u128);
        assert(ax * att <= dist * att && ay * att <= dist * att && dist * att
            < 0x4000_0000_0000_0000_0000_0000_0000_0000u128) by (nonlinear_arith)
            requires
                ax <= dist,
                ay <= dist,
                0 <= att <= 1_000_000_000_000_000_000_000_000u128,
                dist <= 1_000_000_000_000u128,
        ;
        vstd::arithmetic::div_mod::lemma_div_pos_is_pos((ax * att) as int, dist as int);
        vstd::arithmetic::div_mod::lemma_div_pos_is_pos((ay * att) as int, dist as int);
        vstd::arithmetic::div_mod::lemma_div_is_ordered(
            (ax * att) as int,
            (dist * att) as int,
            dist as int,
        );
        vstd::arithmetic::div_mod::lemma_div_is_ordered(
            (ay * att) as int,
            (dist * att) as int,
            dist as int,
        );
        vstd::arithmetic::div_mod::lemma_div_multiples_vanish(att as int, dist as int);
    }
    let fxm: u128 = ax * att / dist;
    let fym: u128 = ay * att / dist;
    let fx: i128 = if dx >= 0 {
        fxm as i128
    } else {
        -(fxm as i128)
    };
    let fy: i128 = if dy >= 0 {
        fym as i128
    } else {
        -(fym as i128)
    };
    (fx, fy)
}

/// Halving toward zero for the wide accumulator type.
fn halve_i128(x: i128) -> (r: i128)
    requires
        -0x4000_0000_0000_0000_0000_0000_0000_0000i128 < x
            < 0x4000_0000_0000_0000_0000_0000_0000_0000i128,
    ensures
        x >= 0 ==> 0 <= r <= x && x <= 2 * r + 1,
        x < 0 ==> x <= r <= 0 && x >= 2 * r - 1,
        x > 1 ==> r < x,
        x < -1 ==> r > x,
{
    if x >= 0 {
        ((x as u128) / 2) as i128
    } else {
        -((((-x) as u128) / 2) as i128)
    }
}

/// Clamps a net displacement to the temperature: the result points the same
/// way, has length at most the displacement's, and each component is within
/// `temp`.
fn limit_displacement(dx: i128, dy: i128, temp: i64) -> (m: (i64, i64))
    requires
        -0x1000_0000_0000_0000_0000_0000_0000_0000i128 <= dx
            <= 0x1000_0000_0000_0000_0000_0000_0000_0000i128,
        -0x1000_0000_0000_0000_0000_0000_0000_0000i128 <= dy
            <= 0x1000_0000_0000_0000_0000_0000_0000_0000i128,
        0 <= temp <= INITIAL_TEMPERATURE,
    ensures
        -temp <= m.0 <= temp,
        -temp <= m.1 <= temp,
{
    // Scale oversized accumulators down first; halving both components
    // together keeps the direction.
    let mut ax = dx;
    let mut ay = dy;
    while ax > 0x100_0000_0000i128 || ax < -0x100_0000_0000i128 || ay > 0x100_0000_0000i128 || ay
        < -0x100_0000_0000i128
        invariant
            -0x1000_0000_0000_0000_0000_0000_0000_0000i128 <= ax
                <= 0x1000_0000_0000_0000_0000_0000_0000_0000i128,
            -0x1000_0000_0000_0000_0000_0000_0000_0000i128 <= ay
                <= 0x1000_0000_0000_0000_0000_0000_0000_0000i128,
        decreases
                (if ax >= 0 {
                    ax as int
                } else {
                    -(ax as int)
                }) + (if ay >= 0 {
                    ay as int
                } else {
                    -(ay as int)
                }),
    {
        ax = halve_i128(ax);
        ay = halve_i128(ay);
    }
    let axm: u128 = if ax >= 0 {
        ax as u128
    } else {
        (-ax) as u128
    };
    let aym: u128 = if ay >= 0 {
        ay as u128
    } else {
        (-ay) as u128
    };
    proof {
        assert(axm * axm + aym * aym <= 2 * (0x100_0000_0000u128 * 0x100_0000_0000u128) && 2 * (
        0x100_0000_0000u128 * 0x100_0000_0000u128)
            < 0x4000_0000_0000_0000_0000_0000_0000_0000u128) by (nonlinear_arith)
            requires
                0 <= axm <= 0x100_0000_0000u128,
                0 <= aym <= 0x100_0000_0000u128,
        ;
    }
    let l2: u128 = axm * axm + aym * aym;
    let dl: u128 = isqrt(l2);
    if dl == 0 {
        return (0, 0);
    }
    proof {
        assert(axm <= dl && aym <= dl) by (nonlinear_arith)
            requires
                dl * dl <= l2 < (dl + 1) * (dl + 1),
                l2 == axm * axm + aym * aym,
                0 <= axm,
                0 <= aym,
                0 <= dl,
        ;
    }
    let lim: u128 = if dl < (temp as u128) {
        dl
    } else {
        temp as u128
    };
    proof {
        assert(dl <= 0x200_0000_0000u128) by (nonlinear_arith)
            requires
                dl * dl <= l2,
                l2 <= 2 * (0x100_0000_0000u128 * 0x100_0000_0000u128),
                0 <= dl,
        ;
        assert(axm * lim <= dl * lim && aym * lim <= dl * lim && dl * lim
            < 0x4000_0000_0000_0000_0000_0000_0000_0000u128) by (nonlinear_arith)
            requires
                axm <= dl,
                aym <= dl,
                0 <= lim <= 100_000u128,
                dl <= 0x200_0000_0000u128,
        ;
        vstd::arithmetic::div_mod::lemma_div_pos_is_pos((axm * lim) as int, dl as int);
        vstd::arithmetic::div_mod::lemma_div_pos_is_pos((aym * lim) as int, dl as int);
        vstd::arithmetic::div_mod::lemma_div_is_ordered(
            (axm * lim) as int,
            (dl * lim) as int,
            dl as int,
        );
        vstd::arithmetic::div_mod::lemma_div_is_ordered(
            (aym * lim) as int,
            (dl * lim) as int,
            dl as int,
        );
        vstd::arithmetic::div_mod::lemma_div_multiples_vanish(lim as int, dl as int);
    }
    let mxm: u128 = axm * lim / dl;
    let mym: u128 = aym * lim / dl;
    let mx: i64 = if ax >= 0 {
        mxm as i64
    } else {
        -(mxm as i64)
    };
    let my: i64 = if ay >= 0 {
        mym as i64
    } else {
        -(mym as i64)
    };
    (mx, my)
}

/// Whether every position's coordinates are within `m`.
pub open spec fn pos_bounded(ps: Seq<Pos>, m: int) -> bool {
    forall|v: int|
        0 <= v < ps.len() ==> -m <= (#[trigger] ps[v]).x <= m && -m <= ps[v].y <= m
}

/// Whether every displacement accumulator component is within `m`.
spec fn disp_bounded(ds: Seq<(i128, i128)>, m: int) -> bool {
    forall|v: int|
        0 <= v < ds.len() ==> -m <= (#[trigger] ds[v]).0 <= m && -m <= ds[v].1 <= m
}

/// Runs the spring-embedder simulation and returns the raw (unnormalized)
/// positions: the circle start moved by `iterations` rounds of repulsion,
/// attraction and cooled displacement. Pure integer arithmetic, hence
/// deterministic: the same graph and budget give the same positions.
pub fn force_directed_raw(g: &GraphData, iterations: u32) -> (r: Vec<Pos>)
    requires
        g.wf(),
        iterations <= MAX_ITERATIONS,
    ensures
        r@.len() == g.node_count,
        sim_bounded(r@),
        // With no iterations the result is exactly the circle start.
        iterations == 0 ==> forall|i: int|
            0 <= i < g.node_count ==> (#[trigger] r@[i]).x == crate::circular::cos_turn_spec(
                i,
                g.node_count as int,
            ) && r@[i].y == crate::circular::sin_turn_spec(i, g.node_count as int),
{
    let n = g.node_count;
    let mut ps: Vec<Pos> = Vec::new();
    if n == 0 {
        return ps;
    }
    // Start on the unit circle, spaced by index, to avoid a degenerate
    // all-coincident state.
    let mut i: usize = 0;
    while i < n
        invariant
            i <= n <= MAX_NODES,
            0 < n,
            ps@.len() == i,
            pos_bounded(ps@, UNIT as int),
            forall|j: int|
                0 <= j < i ==> (#[trigger] ps@[j]).x == crate::circular::cos_turn_spec(j, n as int)
                    && ps@[j].y == crate::circular::sin_turn_spec(j, n as int),
        decreases n - i,
    {
        let (c, s) = crate::circular::turn_xy(i as u64, n as u64);
        ps.push(Pos { x: c, y: s });
        i += 1;
    }
    // The ideal distance k = sqrt(area / n) with area = 1.
    let krad: u128 = ((UNIT as u128) * (UNIT as u128)) / (n as u128);
    proof {
        assert((UNIT as u128) * (UNIT as u128) == 1_000_000_000_000u128) by (nonlinear_arith)
            requires
                UNIT == 1_000_000,
        ;
        vstd::arithmetic::div_mod::lemma_div_is_ordered_by_denominator(
            1_000_000_000_000,
            n as int,
            1_000_000,
        );
        assert(1_000_000_000_000int == 1_000_000int * 1_000_000int + 0) by (nonlinear_arith);
        vstd::arithmetic::div_mod::lemma_fundamental_div_mod_converse(
            1_000_000_000_000,
            1_000_000,
            1_000_000,
            0,
        );
        vstd::arithmetic::div_mod::lemma_div_nonincreasing(1_000_000_000_000, n as int);
    }
    let kw: u128 = isqrt(krad);
    proof {
        // krad is at least UNIT, so k is at least 1; k*k <= krad <= UNIT**2
        // keeps k at most UNIT.
        assert(1 <= kw && kw <= UNIT) by (nonlinear_arith)
            requires
                kw * kw <= krad < (kw + 1) * (kw + 1),
                1_000_000 <= krad <= 1_000_000_000_000u128,
                0 <= kw,
                UNIT == 1_000_000,
        ;
    }
    let k: i64 = kw as i64;
    let mut it: u32 = 0;
    while it < iterations
        invariant
            0 < n <= MAX_NODES,
            n == g.node_count,
            g.wf(),
            it <= iterations <= MAX_ITERATIONS,
            0 < k <= UNIT,
            ps@.len() == n,
            pos_bounded(ps@, UNIT + (it as int) * (INITIAL_TEMPERATURE as int)),
            iterations == 0 ==> forall|j: int|
                0 <= j < n ==> (#[trigger] ps@[j]).x == crate::circular::cos_turn_spec(j, n as int)
                    && ps@[j].y == crate::circular::sin_turn_spec(j, n as int),
        decreases iterations - it,
    {
        proof {
            vstd::arithmetic::mul::lemma_mul_inequality(
                it as int,
                MAX_ITERATIONS as int,
                INITIAL_TEMPERATURE as int,
            );
            assert(UNIT + (it as int) * (INITIAL_TEMPERATURE as int) <= coord_bound());
        }
        let mut disp: Vec<(i128, i128)> = Vec::new();
        let mut v: usize = 0;
        while v < n
            invariant
                v <= n,
                disp@.len() == v,
                disp_bounded(disp@, 0),
            decreases n - v,
        {
            disp.push((0, 0));
            v += 1;
        }
        let ghost bound_now = UNIT + (it as int) * (INITIAL_TEMPERATURE as int);
        // Repulsion between every pair of nodes.
        let ghost rep_f = 100_000_000int;
        let mut cnt: u64 = 0;
        let mut a: usize = 0;
        while a < n
            invariant
                a <= n <= MAX_NODES,
                ps@.len() == n,
                disp@.len() == n,
                0 < k <= UNIT,
                cnt <= a * n,
                pos_bounded(ps@, bound_now),
                bound_now <= coord_bound(),
                disp_bounded(disp@, cnt * rep_f),
                rep_f == 100_000_000int,
            decreases n - a,
        {
            let mut b: usize = a + 1;
            while b < n
                invariant
                    a < b <= n <= MAX_NODES,
                    ps@.len() == n,
                    disp@.len() == n,
                    0 < k <= UNIT,
                    cnt <= a * n + (b - a),
                    pos_bounded(ps@, bound_now),
                    bound_now <= coord_bound(),
                    disp_bounded(disp@, cnt * rep_f),
                    rep_f == 100_000_000int,
                decreases n - b,
            {
                let pa = ps[a];
                let pb = ps[b];
                let dx = pa.x - pb.x;
                let dy = pa.y - pb.y;
                let (fx, fy) = repulsion_force(dx, dy, k);
                proof {
                    assert(cnt * rep_f + rep_f == (cnt + 1) * rep_f && 0 <= cnt * rep_f && (cnt
                        + 1) * rep_f <= (a * n + (b - a) + 1) * rep_f && (a * n + n) * rep_f <= (
                    MAX_NODES as int) * (MAX_NODES as int) * rep_f + (MAX_NODES as int) * rep_f
                        && cnt < 2_000_000_000_000int) by (nonlinear_arith)
                        requires
                            0 <= cnt <= a * n + (b - a),
                            0 <= a < b <= n <= MAX_NODES,
                            MAX_NODES == 1_000_000,
                            rep_f == 100_000_000int,
                    ;
                }
                let da = disp[a];
                disp[a] = (da.0 + fx, da.1 + fy);
                let db = disp[b];
                disp[b] = (db.0 - fx, db.1 - fy);
                cnt += 1;
                b += 1;
            }
            proof {
                assert(a * n + (n - a) <= (a + 1) * n) by (nonlinear_arith)
                    requires
                        0 <= a < n,
                ;
            }
            a += 1;
        }
        proof {
            assert(cnt * rep_f <= (MAX_NODES as int) * (MAX_NODES as int) * rep_f)
                by (nonlinear_arith)
                requires
                    0 <= cnt <= n * n,
                    n <= MAX_NODES,
                    rep_f == 100_000_000int,
            ;
        }
        let ghost rep_total = (MAX_NODES as int) * (MAX_NODES as int) * 100_000_000int;
        let ghost att_f = 0x1_0000_0000_0000_0000_0000_0000int;
        // Attraction along every edge.
        let mut e: usize = 0;
        while e < g.edges.len()
            invariant
                e <= g.edges@.len(),
                g.wf(),
                n == g.node_count,
                ps@.len() == n,
                disp@.len() == n,
                0 < k <= UNIT,
                pos_bounded(ps@, bound_now),
                bound_now <= coord_bound(),
                disp_bounded(disp@, rep_total + (e as int) * att_f),
                rep_total == (MAX_NODES as int) * (MAX_NODES as int) * 100_000_000int,
                att_f == 0x1_0000_0000_0000_0000_0000_0000int,
            decreases g.edges@.len() - e,
        {
            let (s, t) = g.edges[e];
            let pa = ps[s];
            let pb = ps[t];
            let dx = pa.x - pb.x;
            let dy = pa.y - pb.y;
            let (fx, fy) = attraction_force(dx, dy, k);
            proof {
                assert(0 <= (e as int) * att_f && rep_total + (e as int) * att_f + att_f
                    == rep_total + ((e as int) + 1) * att_f && rep_total + ((g.edges@.len())
                    as int) * att_f < 0x1000_0000_0000_0000_0000_0000_0000_0000int && (e as int)
                    * att_f <= ((g.edges@.len()) as int) * att_f) by (nonlinear_arith)
                    requires
                        0 <= e < g.edges@.len() <= MAX_EDGES,
                        rep_total == (MAX_NODES as int) * (MAX_NODES as int) * 100_000_000int,
                        att_f == 0x1_0000_0000_0000_0000_0000_0000int,
                        MAX_NODES == 1_000_000,
                        MAX_EDGES == 1_000_000,
                ;
            }
            let ds = disp[s];
            disp[s] = (ds.0 - fx, ds.1 - fy);
            let dt = disp[t];
            disp[t] = (dt.0 + fx, dt.1 + fy);
            e += 1;
        }
        proof {
            assert(rep_total + ((g.edges@.len()) as int) * att_f
                < 0x1000_0000_0000_0000_0000_0000_0000_0000int && (g.edges@.len() as int) * att_f
                <= (MAX_EDGES as int) * att_f) by (nonlinear_arith)
                requires
                    g.edges@.len() <= MAX_EDGES,
                    rep_total == (MAX_NODES as int) * (MAX_NODES as int) * 100_000_000int,
                    att_f == 0x1_0000_0000_0000_0000_0000_0000int,
                    MAX_NODES == 1_000_000,
                    MAX_EDGES == 1_000_000,
            ;
        }
        // Cooling: the temperature decays linearly to zero over the budget.
        proof {
            vstd::arithmetic::div_mod::lemma_div_nonincreasing(
                (INITIAL_TEMPERATURE as int) * ((iterations - it) as int),
                iterations as int,
            );
            vstd::arithmetic::mul::lemma_mul_inequality(
                (iterations - it) as int,
                iterations as int,
                INITIAL_TEMPERATURE as int,
            );
            assert((INITIAL_TEMPERATURE as int) * ((iterations - it) as int) == ((iterations
                - it) as int) * (INITIAL_TEMPERATURE as int) && (iterations as int) * (
            INITIAL_TEMPERATURE as int) == (INITIAL_TEMPERATURE as int) * (iterations as int))
                by (nonlinear_arith);
            vstd::arithmetic::div_mod::lemma_div_multiples_vanish(
                INITIAL_TEMPERATURE as int,
                iterations as int,
            );
            vstd::arithmetic::div_mod::lemma_div_is_ordered(
                (INITIAL_TEMPERATURE as int) * ((iterations - it) as int),
                (INITIAL_TEMPERATURE as int) * (iterations as int),
                iterations as int,
            );
        }
        let temp: i64 = crate::fixed::mul_div(
            INITIAL_TEMPERATURE,
            (iterations - it) as i64,
            iterations as i64,
        );
        // Apply the displacements, clamped to the temperature.
        let mut v: usize = 0;
        while v < n
            invariant
                v <= n,
                ps@.len() == n,
                disp@.len() == n,
                0 <= temp <= INITIAL_TEMPERATURE,
                disp_bounded(disp@, 0x1000_0000_0000_0000_0000_0000_0000_0000int),
                bound_now == UNIT + (it as int) * (INITIAL_TEMPERATURE as int),
                forall|w: int|
                    v <= w < n ==> -bound_now <= (#[trigger] ps@[w]).x <= bound_now && -bound_now
                        <= ps@[w].y <= bound_now,
                forall|w: int|
                    0 <= w < v ==> -(bound_now + INITIAL_TEMPERATURE) <= (#[trigger] ps@[w]).x
                        <= bound_now + INITIAL_TEMPERATURE && -(bound_now + INITIAL_TEMPERATURE)
                        <= ps@[w].y <= bound_now + INITIAL_TEMPERATURE,
            decreases n - v,
        {
            let d = disp[v];
            let (mx, my) = limit_displacement(d.0, d.1, temp);
            let p = ps[v];
            ps[v] = Pos { x: p.x + mx, y: p.y + my };
            v += 1;
        }
        proof {
            assert((it as int + 1) * (INITIAL_TEMPERATURE as int) == (it as int) * (
            INITIAL_TEMPERATURE as int) + INITIAL_TEMPERATURE) by (nonlinear_arith);
        }
        it += 1;
    }
    proof {
        vstd::arithmetic::mul::lemma_mul_inequality(
            it as int,
            MAX_ITERATIONS as int,
            INITIAL_TEMPERATURE as int,
        );
    }
    ps
}

/// The smallest x-coordinate among the positions (the first one alone for a
/// one-element sequence).
pub open spec fn min_x_of(ps: Seq<Pos>) -> int
    decreases ps.len(),
{
    if ps.len() <= 1 {
        ps[0].x as int
    } else {
        let m = min_x_of(ps.drop_last());
        if ps.last().x < m {
            ps.last().x as int
        } else {
            m
        }
    }
}

/// The largest x-coordinate among the positions.
pub open spec fn max_x_of(ps: Seq<Pos>) -> int
    decreases ps.len(),
{
    if ps.len() <= 1 {
        ps[0].x as int
    } else {
        let m = max_x_of(ps.drop_last());
        if ps.last().x > m {
            ps.last().x as int
        } else {
            m
        }
    }
}

/// The smallest y-coordinate among the positions.
pub open spec fn min_y_of(ps: Seq<Pos>) -> int
    decreases ps.len(),
{
    if ps.len() <= 1 {
        ps[0].y as int
    } else {
        let m = min_y_of(ps.drop_last());
        if ps.last().y < m {
            ps.last().y as int
        } else {
            m
        }
    }
}

/// The largest y-coordinate among the positions.
pub open spec fn max_y_of(ps: Seq<Pos>) -> int
    decreases ps.len(),
{
    if ps.len() <= 1 {
        ps[0].y as int
    } else {
        let m = max_y_of(ps.drop_last());
        if ps.last().y > m {
            ps.last().y as int
        } else {
            m
        }
    }
}

/// The extrema bound every element.
proof fn lemma_minmax_bounds(ps: Seq<Pos>)
    requires
        ps.len() >= 1,
    ensures
        forall|v: int|
            0 <= v < ps.len() ==> min_x_of(ps) <= (#[trigger] ps[v]).x <= max_x_of(ps) && min_y_of(
                ps,
            ) <= ps[v].y <= max_y_of(ps),
    decreases ps.len(),
{
    if ps.len() > 1 {
        lemma_minmax_bounds(ps.drop_last());
        assert(forall|v: int| 0 <= v < ps.len() - 1 ==> ps.drop_last()[v] == #[trigger] ps[v]);
        assert(ps.last() == ps[ps.len() - 1]);
    }
}

/// The extrema stay within the simulation bound.
proof fn lemma_minmax_in_range(ps: Seq<Pos>)
    requires
        ps.len() >= 1,
        sim_bounded(ps),
    ensures
        -coord_bound() <= min_x_of(ps) <= coord_bound(),
        -coord_bound() <= max_x_of(ps) <= coord_bound(),
        -coord_bound() <= min_y_of(ps) <= coord_bound(),
        -coord_bound() <= max_y_of(ps) <= coord_bound(),
    decreases ps.len(),
{
    assert(-coord_bound() <= ps[0].x <= coord_bound());
    if ps.len() > 1 {
        assert(forall|v: int| 0 <= v < ps.len() - 1 ==> ps.drop_last()[v] == #[trigger] ps[v]);
        assert(sim_bounded(ps.drop_last()));
        lemma_minmax_in_range(ps.drop_last());
        assert(ps.last() == ps[ps.len() - 1]);
    }
}

/// What the bounding-box normalization promises for one axis: an axis with
/// spread is mapped affinely onto [0, UNIT]; a spread-free axis collapses to
/// the midpoint.
pub open spec fn bbox_norm(c: int, lo: int, hi: int) -> int {
    if hi - lo > 0 {
        (c - lo) * (UNIT as int) / (hi - lo)
    } else {
        HALF as int
    }
}

/// Maps the bounding box of the raw positions onto the unit square. An axis
/// without spread (a single node, or all nodes aligned) collapses to the
/// midpoint 0.5 instead of dividing by zero.
pub fn normalize_bounding_box(raw: &Vec<Pos>) -> (r: PositionMap)
    requires
        sim_bounded(raw@),
    ensures
        r.positions@.len() == raw@.len(),
        forall|v: int|
            0 <= v < raw@.len() ==> crate::position::in_unit_square(#[trigger] r.positions@[v]),
        forall|v: int|
            0 <= v < raw@.len() ==> (#[trigger] r.positions@[v]).x == bbox_norm(
                raw@[v].x as int,
                min_x_of(raw@),
                max_x_of(raw@),
            ) && r.positions@[v].y == bbox_norm(raw@[v].y as int, min_y_of(raw@), max_y_of(raw@)),
{
    let n = raw.len();
    let mut ps: Vec<Pos> = Vec::new();
    if n == 0 {
        return PositionMap { positions: ps };
    }
    let p0 = raw[0];
    let mut mnx: i64 = p0.x;
    let mut mxx: i64 = p0.x;
    let mut mny: i64 = p0.y;
    let mut mxy: i64 = p0.y;
    let mut i: usize = 1;
    proof {
        assert(raw@.take(1).len() == 1 && raw@.take(1)[0] == raw@[0]);
    }
    while i < n
        invariant
            1 <= i <= n == raw@.len(),
            mnx == min_x_of(raw@.take(i as int)),
            mxx == max_x_of(raw@.take(i as int)),
            mny == min_y_of(raw@.take(i as int)),
            mxy == max_y_of(raw@.take(i as int)),
        decreases n - i,
    {
        let p = raw[i];
        proof {
            let taken = raw@.take(i + 1);
            assert(taken.drop_last() =~= raw@.take(i as int));
            assert(taken.last() == raw@[i as int]);
        }
        if p.x < mnx {
            mnx = p.x;
        }
        if p.x > mxx {
            mxx = p.x;
        }
        if p.y < mny {
            mny = p.y;
        }
        if p.y > mxy {
            mxy = p.y;
        }
        i += 1;
    }
    proof {
        assert(raw@.take(n as int) =~= raw@);
        lemma_minmax_bounds(raw@);
        lemma_minmax_in_range(raw@);
    }
    let rx: i64 = mxx - mnx;
    let ry: i64 = mxy - mny;
    let mut v: usize = 0;
    while v < n
        invariant
            v <= n == raw@.len(),
            sim_bounded(raw@),
            mnx == min_x_of(raw@),
            mxx == max_x_of(raw@),
            mny == min_y_of(raw@),
            mxy == max_y_of(raw@),
            rx == mxx - mnx,
            ry == mxy - mny,
            forall|w: int|
                0 <= w < raw@.len() ==> min_x_of(raw@) <= (#[trigger] raw@[w]).x <= max_x_of(raw@)
                    && min_y_of(raw@) <= raw@[w].y <= max_y_of(raw@),
            ps@.len() == v,
            forall|w: int|
                0 <= w < v ==> crate::position::in_unit_square(#[trigger] ps@[w]),
            forall|w: int|
                0 <= w < v ==> (#[trigger] ps@[w]).x == bbox_norm(
                    raw@[w].x as int,
                    mnx as int,
                    mxx as int,
                ) && ps@[w].y == bbox_norm(raw@[w].y as int, mny as int, mxy as int),
        decreases n - v,
    {
        let p = raw[v];
        let x: i64 = if rx > 0 {
            proof {
                vstd::arithmetic::mul::lemma_mul_inequality(
                    (p.x - mnx) as int,
                    rx as int,
                    UNIT as int,
                );
                vstd::arithmetic::div_mod::lemma_div_is_ordered(
                    ((p.x - mnx) as int) * (UNIT as int),
                    (rx as int) * (UNIT as int),
                    rx as int,
                );
                vstd::arithmetic::div_mod::lemma_div_multiples_vanish(UNIT as int, rx as int);
                vstd::arithmetic::div_mod::lemma_div_pos_is_pos(
                    ((p.x - mnx) as int) * (UNIT as int),
                    rx as int,
                );
                vstd::arithmetic::mul::lemma_mul_inequality(0, (p.x - mnx) as int, UNIT as int);
                assert(0 * (UNIT as int) == 0) by (nonlinear_arith);
                vstd::arithmetic::div_mod::lemma_div_nonincreasing(
                    ((p.x - mnx) as int) * (UNIT as int),
                    rx as int,
                );
            }
            crate::fixed::mul_div(p.x - mnx, UNIT, rx)
        } else {
            HALF
        };
        let y: i64 = if ry > 0 {
            proof {
                vstd::arithmetic::mul::lemma_mul_inequality(
                    (p.y - mny) as int,
                    ry as int,
                    UNIT as int,
                );
                vstd::arithmetic::div_mod::lemma_div_is_ordered(
                    ((p.y - mny) as int) * (UNIT as int),
                    (ry as int) * (UNIT as int),
                    ry as int,
                );
                vstd::arithmetic::div_mod::lemma_div_multiples_vanish(UNIT as int, ry as int);
                vstd::arithmetic::div_mod::lemma_div_pos_is_pos(
                    ((p.y - mny) as int) * (UNIT as int),
                    ry as int,
                );
                vstd::arithmetic::mul::lemma_mul_inequality(0, (p.y - mny) as int, UNIT as int);
                assert(0 * (UNIT as int) == 0) by (nonlinear_arith);
                vstd::arithmetic::div_mod::lemma_div_nonincreasing(
                    ((p.y - mny) as int) * (UNIT as int),
                    ry as int,
                );
            }
            crate::fixed::mul_div(p.y - mny, UNIT, ry)
        } else {
            HALF
        };
        ps.push(Pos { x, y });
        v += 1;
    }
    PositionMap { positions: ps }
}

/// Arranges the nodes of a graph with the force-directed simulation over the
/// given iteration budget and maps the result onto the unit square. A single
/// node lands exactly at the center (0.5, 0.5).
pub fn force_directed_layout(g: &GraphData, iterations: u32) -> (r: PositionMap)
    requires
        g.wf(),
        iterations <= MAX_ITERATIONS,
    ensures
        r.positions@.len() == g.node_count,
        forall|i: int|
            0 <= i < g.node_count ==> crate::position::in_unit_square(#[trigger] r.positions@[i]),
        g.node_count == 1 ==> r.positions@[0] == (Pos { x: HALF, y: HALF }),
{
    let raw = force_directed_raw(g, iterations);
    let r = normalize_bounding_box(&raw);
    proof {
        if g.node_count == 1 {
            assert(min_x_of(raw@) == raw@[0].x && max_x_of(raw@) == raw@[0].x);
            assert(r.positions@[0].x == HALF && r.positions@[0].y == HALF);
        }
    }
    r
}

} // verus!
