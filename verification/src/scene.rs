//! Scene composition.
//!
//! Turns a position map plus per-node and per-edge labels and colors into an
//! ordered list of draw primitives in canvas coordinates: first a circle and
//! a centered text per node, then per edge a line shortened by the node
//! radius on each end plus a midpoint label. An edge whose scaled endpoints
//! lie closer than a small threshold is skipped silently — the documented
//! policy for self-loops and coincident nodes, not an error. This is the one
//! consumer that accepts any position map uniformly, whatever algorithm
//! produced it.

use crate::circular::half_toward_zero;
use crate::fixed::{mul_div, mul_fixed, sqrt_floor, UNIT};
use crate::position::{in_unit_square, Pos, PositionMap};
use crate::settings::{LayoutOrPositionMap, Settings};
use vstd::prelude::*;

verus! {

/// Edges whose scaled endpoints are closer than this (the real number
/// 0.001) are skipped entirely.
pub const EDGE_CLOSENESS_THRESHOLD: i64 = 1_000;

/// A drawable primitive in canvas coordinates (fixed-point pixels).
#[derive(Debug, Clone, PartialEq, Eq)]
pub enum DrawPrimitive {
    /// A filled, stroked circle for a node.
    Circle {
        /// Center x.
        cx: i64,
        /// Center y.
        cy: i64,
        /// Radius.
        radius: i64,
        /// Fill color name.
        fill: String,
    },
    /// A centered piece of text.
    Text {
        /// Anchor x.
        x: i64,
        /// Anchor y.
        y: i64,
        /// Font size.
        font_size: i64,
        /// The text itself.
        content: String,
    },
    /// A stroked line segment for an edge.
    Line {
        /// Start x.
        x1: i64,
        /// Start y.
        y1: i64,
        /// End x.
        x2: i64,
        /// End y.
        y2: i64,
        /// Stroke color name.
        stroke: String,
        /// Stroke width.
        stroke_width: i64,
    },
}

/// One scaled coordinate: margin·dim plus the normalized value scaled into
/// the remaining (1 − 2·margin) share of the dimension.
pub open spec fn scale_val(c: int, margin: int, dim: int) -> int {
    margin * dim / (UNIT as int) + (c * dim / (UNIT as int)) * ((UNIT as int) - 2 * margin) / (
    UNIT as int)
}

/// Scales a normalized position into canvas space under the margins.
pub fn scale(p: Pos, margin_x: i64, margin_y: i64, width: i64, height: i64) -> (r: (i64, i64))
    requires
        in_unit_square(p),
        crate::settings::margin_ok(margin_x as int),
        crate::settings::margin_ok(margin_y as int),
        crate::settings::length_ok(width as int),
        crate::settings::length_ok(height as int),
    ensures
        r.0 == scale_val(p.x as int, margin_x as int, width as int),
        r.1 == scale_val(p.y as int, margin_y as int, height as int),
        0 <= r.0 <= 2 * width,
        0 <= r.1 <= 2 * height,
{
    let x = scale_axis(p.x, margin_x, width);
    let y = scale_axis(p.y, margin_y, height);
    (x, y)
}

/// Scales one coordinate along one axis.
fn scale_axis(c: i64, margin: i64, dim: i64) -> (r: i64)
    requires
        0 <= c <= UNIT,
        crate::settings::margin_ok(margin as int),
        crate::settings::length_ok(dim as int),
    ensures
        r == scale_val(c as int, margin as int, dim as int),
        0 <= r <= 2 * dim,
{
    proof {
        assert(margin * dim <= (UNIT as int) * dim && c * dim <= (UNIT as int) * dim && (
        UNIT as int) * dim <= 200_000_000_000_000_000int) by (nonlinear_arith)
            requires
                0 <= margin <= UNIT,
                0 <= c <= UNIT,
                0 < dim <= crate::settings::MAX_DIMENSION,
                UNIT == 1_000_000,
                crate::settings::MAX_DIMENSION == 100_000 * UNIT,
        ;
        vstd::arithmetic::div_mod::lemma_div_is_ordered(
            margin * dim,
            (UNIT as int) * dim,
            UNIT as int,
        );
        vstd::arithmetic::div_mod::lemma_div_is_ordered(c * dim, (UNIT as int) * dim, UNIT as int);
        vstd::arithmetic::div_mod::lemma_div_multiples_vanish(dim as int, UNIT as int);
        vstd::arithmetic::div_mod::lemma_div_nonincreasing(margin * dim, UNIT as int);
        vstd::arithmetic::div_mod::lemma_div_nonincreasing(c * dim, UNIT as int);
    }
    let a: i64 = mul_fixed(margin, dim);
    let b: i64 = mul_fixed(c, dim);
    proof {
        assert(b * ((UNIT as int) - 2 * margin) <= b * (UNIT as int) && b * (UNIT as int) <= (
        UNIT as int) * dim * - 0 + 200_000_000_000_000_000int) by (nonlinear_arith)
            requires
                0 <= b <= dim,
                0 <= margin < UNIT,
                0 < dim <= 100_000_000_000int,
                UNIT == 1_000_000,
        ;
        vstd::arithmetic::div_mod::lemma_div_is_ordered(
            b * ((UNIT as int) - 2 * margin),
            b * (UNIT as int),
            UNIT as int,
        );
        vstd::arithmetic::div_mod::lemma_div_multiples_vanish(b as int, UNIT as int);
        assert(b * (UNIT as int) == (UNIT as int) * b) by (nonlinear_arith);
        vstd::arithmetic::div_mod::lemma_div_nonincreasing(
            b * ((UNIT as int) - 2 * margin),
            UNIT as int,
        );
    }
    let w: i64 = mul_fixed(b, UNIT - 2 * margin);
    a + w
}

/// The distance between two scaled points, rounded down.
pub open spec fn edge_dist(sx: int, sy: int, tx: int, ty: int) -> int {
    sqrt_floor((((tx - sx) * (tx - sx) + (ty - sy) * (ty - sy)) as nat)) as int
}

/// The offset that moves a line end from a node center to the node's rim:
/// the radius scaled along one axis of the direction, rounded toward zero.
pub open spec fn radius_offset(radius: int, delta: int, d: int) -> int {
    if delta >= 0 {
        radius * delta / d
    } else {
        -(radius * (-delta) / d)
    }
}

/// The primitives one edge contributes: nothing when its endpoints are
/// closer than the threshold, else a line from rim to rim and a label at the
/// line's midpoint.
pub open spec fn edge_prims(
    sx: int,
    sy: int,
    tx: int,
    ty: int,
    label: String,
    color: String,
    radius: int,
    stroke_width: i64,
    font_size: i64,
) -> Seq<DrawPrimitive> {
    let d = edge_dist(sx, sy, tx, ty);
    if d < EDGE_CLOSENESS_THRESHOLD {
        Seq::empty()
    } else {
        let ox = radius_offset(radius, tx - sx, d);
        let oy = radius_offset(radius, ty - sy, d);
        let x1 = sx + ox;
        let y1 = sy + oy;
        let x2 = tx - ox;
        let y2 = ty - oy;
        seq![
            DrawPrimitive::Line {
                x1: x1 as i64,
                y1: y1 as i64,
                x2: x2 as i64,
                y2: y2 as i64,
                stroke: color,
                stroke_width,
            },
            DrawPrimitive::Text {
                x: half_toward_zero(x1 + x2) as i64,
                y: half_toward_zero(y1 + y2) as i64,
                font_size,
                content: label,
            },
        ]
    }
}

/// Law: an edge whose scaled endpoints lie closer than the threshold
/// contributes no primitive at all — the edge is skipped silently.
pub proof fn lemma_close_edge_contributes_nothing(
    sx: int,
    sy: int,
    tx: int,
    ty: int,
    label: String,
    color: String,
    radius: int,
    stroke_width: i64,
    font_size: i64,
)
    requires
        edge_dist(sx, sy, tx, ty) < EDGE_CLOSENESS_THRESHOLD,
    ensures
        edge_prims(sx, sy, tx, ty, label, color, radius, stroke_width, font_size)
            == Seq::<DrawPrimitive>::empty(),
{
}

/// Appends a node's circle and label to the primitive list.
pub fn draw_node(
    prims: &mut Vec<DrawPrimitive>,
    cx: i64,
    cy: i64,
    label: &String,
    color: &String,
    radius: i64,
    font_size: i64,
)
    ensures
        final(prims)@ == old(prims)@.push(
            DrawPrimitive::Circle { cx, cy, radius, fill: *color },
        ).push(DrawPrimitive::Text { x: cx, y: cy, font_size, content: *label }),
{
    prims.push(DrawPrimitive::Circle { cx, cy, radius, fill: color.clone() });
    prims.push(DrawPrimitive::Text { x: cx, y: cy, font_size, content: label.clone() });
}

/// Appends an edge's line and midpoint label to the primitive list, or
/// nothing when the endpoints are closer than the threshold. The line is
/// shortened by the node radius at both ends, so it meets the circles' rims
/// rather than their centers.
pub fn draw_edge(
    prims: &mut Vec<DrawPrimitive>,
    sx: i64,
    sy: i64,
    tx: i64,
    ty: i64,
    label: &String,
    color: &String,
    radius: i64,
    stroke_width: i64,
    font_size: i64,
)
    requires
        0 <= sx <= 2 * crate::settings::MAX_DIMENSION,
        0 <= sy <= 2 * crate::settings::MAX_DIMENSION,
        0 <= tx <= 2 * crate::settings::MAX_DIMENSION,
        0 <= ty <= 2 * crate::settings::MAX_DIMENSION,
        crate::settings::length_ok(radius as int),
    ensures
        final(prims)@ == old(prims)@ + edge_prims(
            sx as int,
            sy as int,
            tx as int,
            ty as int,
            *label,
            *color,
            radius as int,
            stroke_width,
            font_size,
        ),
{
    let dx: i64 = tx - sx;
    let dy: i64 = ty - sy;
    let adx: u128 = if dx >= 0 {
        dx as u128
    } else {
        (-dx) as u128
    };
    let ady: u128 = if dy >= 0 {
        dy as u128
    } else {
        (-dy) as u128
    };
    proof {
        assert(adx * adx == dx * dx && ady * ady == dy * dy && adx * adx + ady * ady
            < 0x4000_0000_0000_0000_0000_0000_0000_0000u128) by (nonlinear_arith)
            requires
                adx == if dx >= 0 { dx as int } else { -(dx as int) },
                ady == if dy >= 0 { dy as int } else { -(dy as int) },
                -200_000_000_000i64 <= dx <= 200_000_000_000i64,
                -200_000_000_000i64 <= dy <= 200_000_000_000i64,
        ;
    }
    let d2: u128 = adx * adx + ady * ady;
    let d: u128 = crate::fixed::isqrt(d2);
    proof {
        assert(d == edge_dist(sx as int, sy as int, tx as int, ty as int));
    }
    if d < (EDGE_CLOSENESS_THRESHOLD as u128) {
        proof {
            assert(old(prims)@ + Seq::<DrawPrimitive>::empty() =~= old(prims)@);
        }
        return ;
    }
    proof {
        assert(adx <= d && ady <= d && d <= 600_000_000_000u128) by (nonlinear_arith)
            requires
                d * d <= d2 < (d + 1) * (d + 1),
                d2 == adx * adx + ady * ady,
                0 <= adx <= 200_000_000_000u128,
                0 <= ady <= 200_000_000_000u128,
                0 <= d,
        ;
        vstd::arithmetic::div_mod::lemma_div_nonincreasing((radius as int) * (adx as int), d as int);
        vstd::arithmetic::div_mod::lemma_div_nonincreasing((radius as int) * (ady as int), d as int);
        vstd::arithmetic::mul::lemma_mul_inequality(adx as int, d as int, radius as int);
        vstd::arithmetic::mul::lemma_mul_inequality(ady as int, d as int, radius as int);
        assert((radius as int) * (adx as int) == (adx as int) * radius && (radius as int) * (
        ady as int) == (ady as int) * radius && (radius as int) * (d as int) == (d as int)
            * radius) by (nonlinear_arith);
        vstd::arithmetic::div_mod::lemma_div_is_ordered(
            (radius as int) * (adx as int),
            (radius as int) * (d as int),
            d as int,
        );
        vstd::arithmetic::div_mod::lemma_div_is_ordered(
            (radius as int) * (ady as int),
            (radius as int) * (d as int),
            d as int,
        );
        vstd::arithmetic::div_mod::lemma_div_multiples_vanish(radius as int, d as int);
        assert((d as int) * (radius as int) == (radius as int) * (d as int)) by (nonlinear_arith);
        vstd::arithmetic::div_mod::lemma_div_pos_is_pos((radius as int) * (adx as int), d as int);
        vstd::arithmetic::div_mod::lemma_div_pos_is_pos((radius as int) * (ady as int), d as int);
    }
    let oxm: i64 = mul_div(radius, adx as i64, d as i64);
    let oym: i64 = mul_div(radius, ady as i64, d as i64);
    let ox: i64 = if dx >= 0 {
        oxm
    } else {
        -oxm
    };
    let oy: i64 = if dy >= 0 {
        oym
    } else {
        -oym
    };
    let x1: i64 = sx + ox;
    let y1: i64 = sy + oy;
    let x2: i64 = tx - ox;
    let y2: i64 = ty - oy;
    let sumx: i64 = x1 + x2;
    let sumy: i64 = y1 + y2;
    let midx: i64 = if sumx >= 0 {
        ((sumx as u64) / 2) as i64
    } else {
        -((((-sumx) as u64) / 2) as i64)
    };
    let midy: i64 = if sumy >= 0 {
        ((sumy as u64) / 2) as i64
    } else {
        -((((-sumy) as u64) / 2) as i64)
    };
    let ghost pre = prims@;
    prims.push(
        DrawPrimitive::Line { x1, y1, x2, y2, stroke: color.clone(), stroke_width },
    );
    prims.push(DrawPrimitive::Text { x: midx, y: midy, font_size, content: label.clone() });
    proof {
        let ep = edge_prims(
            sx as int,
            sy as int,
            tx as int,
            ty as int,
            *label,
            *color,
            radius as int,
            stroke_width,
            font_size,
        );
        assert(prims@ =~= pre + ep);
    }
}

/// The circle and centered label one node contributes.
pub open spec fn node_prims(p: Pos, label: String, color: String, s: Settings) -> Seq<
    DrawPrimitive,
> {
    let x = scale_val(p.x as int, s.margin_x as int, s.width as int);
    let y = scale_val(p.y as int, s.margin_y as int, s.height as int);
    seq![
        DrawPrimitive::Circle { cx: x as i64, cy: y as i64, radius: s.radius, fill: color },
        DrawPrimitive::Text { x: x as i64, y: y as i64, font_size: s.font_size, content: label },
    ]
}

/// The primitives of the first `k` nodes, in node order.
pub open spec fn scene_nodes(
    ps: Seq<Pos>,
    labels: Seq<String>,
    colors: Seq<String>,
    s: Settings,
    k: int,
) -> Seq<DrawPrimitive>
    decreases k,
{
    if k <= 0 {
        Seq::empty()
    } else {
        scene_nodes(ps, labels, colors, s, k - 1) + node_prims(
            ps[k - 1],
            labels[k - 1],
            colors[k - 1],
            s,
        )
    }
}

/// Law: whatever the edges do, every node contributes exactly its circle
/// and its label: the node part of a scene holds two primitives per node.
pub proof fn lemma_scene_nodes_len(
    ps: Seq<Pos>,
    labels: Seq<String>,
    colors: Seq<String>,
    s: Settings,
    k: int,
)
    requires
        0 <= k,
    ensures
        scene_nodes(ps, labels, colors, s, k).len() == 2 * k,
    decreases k,
{
    if k > 0 {
        lemma_scene_nodes_len(ps, labels, colors, s, k - 1);
    }
}

/// The primitives the edge with index `e` contributes, over the scaled
/// positions of its endpoints.
pub open spec fn edge_prims_at(
    ps: Seq<Pos>,
    edges: Seq<(usize, usize)>,
    elabels: Seq<String>,
    ecolors: Seq<String>,
    s: Settings,
    e: int,
) -> Seq<DrawPrimitive> {
    let a = edges[e].0 as int;
    let b = edges[e].1 as int;
    edge_prims(
        scale_val(ps[a].x as int, s.margin_x as int, s.width as int),
        scale_val(ps[a].y as int, s.margin_y as int, s.height as int),
        scale_val(ps[b].x as int, s.margin_x as int, s.width as int),
        scale_val(ps[b].y as int, s.margin_y as int, s.height as int),
        elabels[e],
        ecolors[e],
        s.radius as int,
        s.stroke_width,
        s.font_size,
    )
}

/// The primitives of the first `k` edges, in edge order.
pub open spec fn scene_edges(
    ps: Seq<Pos>,
    edges: Seq<(usize, usize)>,
    elabels: Seq<String>,
    ecolors: Seq<String>,
    s: Settings,
    k: int,
) -> Seq<DrawPrimitive>
    decreases k,
{
    if k <= 0 {
        Seq::empty()
    } else {
        scene_edges(ps, edges, elabels, ecolors, s, k - 1) + edge_prims_at(
            ps,
            edges,
            elabels,
            ecolors,
            s,
            k - 1,
        )
    }
}

/// The whole scene: all node primitives, then all edge primitives.
pub open spec fn scene_spec(
    ps: Seq<Pos>,
    edges: Seq<(usize, usize)>,
    nlabels: Seq<String>,
    ncolors: Seq<String>,
    elabels: Seq<String>,
    ecolors: Seq<String>,
    s: Settings,
) -> Seq<DrawPrimitive> {
    scene_nodes(ps, nlabels, ncolors, s, ps.len() as int) + scene_edges(
        ps,
        edges,
        elabels,
        ecolors,
        s,
        edges.len() as int,
    )
}

/// Composes the scene for a position map: a circle and a label per node,
/// then per edge a rim-to-rim line with a midpoint label, edges with nearly
/// coincident endpoints skipped.
pub fn compose_scene(
    positions: &PositionMap,
    edges: &Vec<(usize, usize)>,
    node_labels: &Vec<String>,
    node_colors: &Vec<String>,
    edge_labels: &Vec<String>,
    edge_colors: &Vec<String>,
    s: &Settings,
) -> (r: Vec<DrawPrimitive>)
    requires
        node_labels@.len() == positions.positions@.len(),
        node_colors@.len() == positions.positions@.len(),
        edge_labels@.len() == edges@.len(),
        edge_colors@.len() == edges@.len(),
        forall|k: int|
            0 <= k < edges@.len() ==> (#[trigger] edges@[k]).0 < positions.positions@.len()
                && edges@[k].1 < positions.positions@.len(),
        s.valid(),
        forall|v: int|
            0 <= v < positions.positions@.len() ==> in_unit_square(
                #[trigger] positions.positions@[v],
            ),
    ensures
        r@ == scene_spec(
            positions.positions@,
            edges@,
            node_labels@,
            node_colors@,
            edge_labels@,
            edge_colors@,
            *s,
        ),
{
    let ghost ps = positions.positions@;
    let n = positions.len();
    let mut r: Vec<DrawPrimitive> = Vec::new();
    let mut i: usize = 0;
    while i < n
        invariant
            i <= n == ps.len(),
            ps == positions.positions@,
            node_labels@.len() == n,
            node_colors@.len() == n,
            s.valid(),
            forall|v: int| 0 <= v < n ==> in_unit_square(#[trigger] ps[v]),
            r@ == scene_nodes(ps, node_labels@, node_colors@, *s, i as int),
        decreases n - i,
    {
        let p = positions.get(i);
        let (x, y) = scale(p, s.margin_x, s.margin_y, s.width, s.height);
        let ghost pre = r@;
        draw_node(&mut r, x, y, &node_labels[i], &node_colors[i], s.radius, s.font_size);
        proof {
            assert(r@ =~= pre + node_prims(
                ps[i as int],
                node_labels@[i as int],
                node_colors@[i as int],
                *s,
            ));
        }
        i += 1;
    }
    let m = edges.len();
    let mut e: usize = 0;
    while e < m
        invariant
            e <= m == edges@.len(),
            n == ps.len(),
            ps == positions.positions@,
            edge_labels@.len() == m,
            edge_colors@.len() == m,
            node_labels@.len() == n,
            node_colors@.len() == n,
            s.valid(),
            forall|k: int| 0 <= k < m ==> (#[trigger] edges@[k]).0 < n && edges@[k].1 < n,
            forall|v: int| 0 <= v < n ==> in_unit_square(#[trigger] ps[v]),
            r@ == scene_nodes(ps, node_labels@, node_colors@, *s, n as int) + scene_edges(
                ps,
                edges@,
                edge_labels@,
                edge_colors@,
                *s,
                e as int,
            ),
        decreases m - e,
    {
        let (a, b) = edges[e];
        let pa = positions.get(a);
        let pb = positions.get(b);
        let (sx, sy) = scale(pa, s.margin_x, s.margin_y, s.width, s.height);
        let (tx, ty) = scale(pb, s.margin_x, s.margin_y, s.width, s.height);
        let ghost pre = r@;
        draw_edge(
            &mut r,
            sx,
            sy,
            tx,
            ty,
            &edge_labels[e],
            &edge_colors[e],
            s.radius,
            s.stroke_width,
            s.font_size,
        );
        proof {
            assert(r@ =~= pre + edge_prims_at(
                ps,
                edges@,
                edge_labels@,
                edge_colors@,
                *s,
                e as int,
            ));
        }
        e += 1;
    }
    r
}

/// Runs the selected layout (or takes the supplied position map) and
/// composes the scene for it. The force-directed iteration budget is
/// clamped to [`crate::force_directed::MAX_ITERATIONS`].
pub fn graph_to_scene(
    g: &crate::graph::GraphData,
    s: &Settings,
    node_labels: &Vec<String>,
    node_colors: &Vec<String>,
    edge_labels: &Vec<String>,
    edge_colors: &Vec<String>,
) -> (r: Vec<DrawPrimitive>)
    requires
        g.wf(),
        s.valid(),
        node_labels@.len() == g.node_count,
        node_colors@.len() == g.node_count,
        edge_labels@.len() == g.edges@.len(),
        edge_colors@.len() == g.edges@.len(),
        s.layout_or_pos_map matches LayoutOrPositionMap::PositionMap(pm) ==> pm.positions@.len()
            == g.node_count && forall|v: int|
            0 <= v < g.node_count ==> in_unit_square(#[trigger] pm.positions@[v]),
        s.layout_or_pos_map matches LayoutOrPositionMap::Layout(
            crate::settings::Layout::Bipartite(Some(l)),
        ) ==> l@.len() == g.node_count,
    ensures
        exists|ps: Seq<Pos>|
            ps.len() == g.node_count && (forall|v: int|
                0 <= v < ps.len() ==> in_unit_square(#[trigger] ps[v])) && r@
                == #[trigger] scene_spec(
                ps,
                g.edges@,
                node_labels@,
                node_colors@,
                edge_labels@,
                edge_colors@,
                *s,
            ),
        s.layout_or_pos_map matches LayoutOrPositionMap::PositionMap(pm) ==> r@ == scene_spec(
            pm.positions@,
            g.edges@,
            node_labels@,
            node_colors@,
            edge_labels@,
            edge_colors@,
            *s,
        ),
        // Each selected layout renders the scene of that layout's own
        // positions: the formula of the matching layout module holds of the
        // scene's position sequence.
        s.layout_or_pos_map matches LayoutOrPositionMap::Layout(
            crate::settings::Layout::Circular,
        ) ==> exists|ps: Seq<Pos>|
            #[trigger] crate::circular::circular_formula(g.node_count as int, ps) && r@
                == scene_spec(
                ps,
                g.edges@,
                node_labels@,
                node_colors@,
                edge_labels@,
                edge_colors@,
                *s,
            ),
        s.layout_or_pos_map matches LayoutOrPositionMap::Layout(
            crate::settings::Layout::Hierarchical(o),
        ) ==> exists|order: Seq<usize>, ps: Seq<Pos>|
                #[trigger] crate::hierarchical::degree_order(
                    order,
                    crate::hierarchical::out_degs_of(*g),
                ) && ({
                    let hg = crate::hierarchical::hierarchy_grid(*g, order);
                    crate::hierarchical::hierarchical_formula(
                        hg.0.rows,
                        hg.0.cols,
                        hg.1,
                        hg.2,
                        o,
                        ps,
                    )
                }) && r@ == #[trigger] scene_spec(
                    ps,
                    g.edges@,
                    node_labels@,
                    node_colors@,
                    edge_labels@,
                    edge_colors@,
                    *s,
                ),
        s.layout_or_pos_map matches LayoutOrPositionMap::Layout(
            crate::settings::Layout::Bipartite(Some(l)),
        ) ==> exists|ps: Seq<Pos>|
                #[trigger] crate::bipartite::bipartite_formula(l@, ps) && r@ == scene_spec(
                    ps,
                    g.edges@,
                    node_labels@,
                    node_colors@,
                    edge_labels@,
                    edge_colors@,
                    *s,
                ),
        s.layout_or_pos_map matches LayoutOrPositionMap::Layout(
            crate::settings::Layout::Bipartite(None),
        ) ==> exists|ps: Seq<Pos>|
            #[trigger] crate::bipartite::bipartite_formula(
                crate::bipartite::discovered_sides(*g),
                ps,
            ) && r@ == scene_spec(
                ps,
                g.edges@,
                node_labels@,
                node_colors@,
                edge_labels@,
                edge_colors@,
                *s,
            ),
        s.layout_or_pos_map matches LayoutOrPositionMap::Layout(
            crate::settings::Layout::ForceDirected,
        ) ==> exists|ps: Seq<Pos>|
            ps.len() == g.node_count && (g.node_count == 1 ==> ps[0] == (Pos {
                x: crate::fixed::HALF,
                y: crate::fixed::HALF,
            })) && r@ == #[trigger] scene_spec(
                ps,
                g.edges@,
                node_labels@,
                node_colors@,
                edge_labels@,
                edge_colors@,
                *s,
            ),
{
    match &s.layout_or_pos_map {
        LayoutOrPositionMap::PositionMap(pm) => {
            let r = compose_scene(
                pm,
                &g.edges,
                node_labels,
                node_colors,
                edge_labels,
                edge_colors,
                s,
            );
            proof {
                assert(r@ == scene_spec(
                    pm.positions@,
                    g.edges@,
                    node_labels@,
                    node_colors@,
                    edge_labels@,
                    edge_colors@,
                    *s,
                ));
            }
            r
        },
        LayoutOrPositionMap::Layout(layout) => {
            let pm: PositionMap = match layout {
                crate::settings::Layout::Circular => crate::circular::circular_layout(g),
                crate::settings::Layout::Hierarchical(o) => {
                    crate::hierarchical::hierarchical_layout(g, *o)
                },
                crate::settings::Layout::ForceDirected => {
                    let budget: u32 = if s.force_iterations
                        <= crate::force_directed::MAX_ITERATIONS {
                        s.force_iterations
                    } else {
                        crate::force_directed::MAX_ITERATIONS
                    };
                    crate::force_directed::force_directed_layout(g, budget)
                },
                crate::settings::Layout::Bipartite(left) => match left {
                    Some(l) => crate::bipartite::bipartite_layout(g, Some(l)),
                    None => crate::bipartite::bipartite_layout(g, None),
                },
                crate::settings::Layout::Random => crate::random::random_layout(g),
            };
            let r = compose_scene(
                &pm,
                &g.edges,
                node_labels,
                node_colors,
                edge_labels,
                edge_colors,
                s,
            );
            proof {
                assert(r@ == scene_spec(
                    pm.positions@,
                    g.edges@,
                    node_labels@,
                    node_colors@,
                    edge_labels@,
                    edge_colors@,
                    *s,
                ));
                if let LayoutOrPositionMap::Layout(crate::settings::Layout::Hierarchical(o2)) =
                    &s.layout_or_pos_map {
                    let o2 = *o2;
                    let order = choose|order: Seq<usize>|
                        #[trigger] crate::hierarchical::degree_order(
                            order,
                            crate::hierarchical::out_degs_of(*g),
                        ) && ({
                            let hg = crate::hierarchical::hierarchy_grid(*g, order);
                            crate::hierarchical::hierarchical_formula(
                                hg.0.rows,
                                hg.0.cols,
                                hg.1,
                                hg.2,
                                o2,
                                pm.positions@,
                            )
                        });
                    assert(crate::hierarchical::degree_order(
                        order,
                        crate::hierarchical::out_degs_of(*g),
                    ));
                }
                if let LayoutOrPositionMap::Layout(crate::settings::Layout::Bipartite(None)) =
                    &s.layout_or_pos_map {
                    assert(crate::bipartite::bipartite_formula(
                        crate::bipartite::discovered_sides(*g),
                        pm.positions@,
                    ));
                }
            }
            r
        },
    }
}

} // verus!
