//! Hierarchical layout.
//!
//! Roots-first recursive tree placement. Root candidates are the nodes with
//! no incoming edges, taken in index order; if the graph has none (common
//! for undirected graphs), all nodes ordered by descending out-degree serve
//! as fallback roots. A depth-first pass assigns each node a row equal to
//! its depth below its root and a column: a fresh slot for a leaf, the
//! midpoint of its first and last child's columns otherwise. Already-visited
//! nodes are never re-descended, so cycles terminate and a back edge leaves
//! the first visit's placement in place. Components tile side by side in
//! discovery order. Rows and columns are then normalized to the unit square
//! and turned by the requested orientation.
//!
//! The whole placement is mirrored by spec functions ([`place_node`],
//! [`roots_pass`], [`fallback_pass`]): [`hierarchy_assign`] returns exactly
//! [`hierarchy_grid`], so the grid — and with it the layout — is a function
//! of the graph alone.

use crate::bitset::{bitset_bits, bitset_cap, bitset_contains, bitset_insert, bitset_new};
use crate::fixed::UNIT;
use crate::graph::{in_neighbors_of, neighbors_of, GraphData, MAX_NODES};
use crate::position::{Pos, PositionMap};
use vstd::arithmetic::mul::lemma_mul_inequality;
use vstd::prelude::*;
use vstd::set::{axiom_set_insert_finite, axiom_set_insert_len};
use vstd::set_lib::{lemma_int_range, lemma_len_subset, set_int_range};

verus! {

/// Orientation for hierarchical layout. Top to Bottom is the default.
#[derive(Clone, Copy, Debug, PartialEq, Eq, Structural, Default)]
pub enum Orientation {
    /// Top to Bottom orientation. This is the default.
    #[default]
    TopToBottom,
    /// Bottom to Top orientation.
    BottomToTop,
    /// Left to Right orientation.
    LeftToRight,
    /// Right to Left orientation.
    RightToLeft,
}

/// Well-formed adjacency lists over `n` nodes.
pub open spec fn adj_wf(adj: Seq<Vec<usize>>, n: int) -> bool {
    &&& adj.len() == n
    &&& forall|v: int, j: int|
        0 <= v < n && 0 <= j < adj[v]@.len() ==> (#[trigger] adj[v]@[j]) < n
}

/// Every recorded tree edge joins two visited nodes one row apart.
pub open spec fn tree_ok(
    tree: Seq<(usize, usize)>,
    rows: Seq<usize>,
    visited: Set<int>,
    n: int,
) -> bool {
    forall|k: int|
        0 <= k < tree.len() ==> {
            let e = #[trigger] tree[k];
            &&& e.0 < n
            &&& e.1 < n
            &&& visited.contains(e.0 as int)
            &&& visited.contains(e.1 as int)
            &&& rows[e.1 as int] == rows[e.0 as int] + 1
        }
}

/// The spec-level traversal state that the placement pass computes: the set
/// of placed nodes, every node's row and fixed-point column, and the tree
/// edges discovered so far, in discovery order.
pub ghost struct Grid {
    /// Indices of the nodes placed so far.
    pub visited: Set<int>,
    /// Row (depth) of each node; 0 until the node is placed.
    pub rows: Seq<usize>,
    /// Fixed-point column of each node; 0 until the node is placed.
    pub cols: Seq<i64>,
    /// Tree edges `(parent, child)`, one per first visit of a child.
    pub tree: Seq<(usize, usize)>,
}

/// The result of placing one subtree: the new state and the largest column
/// slot and row the subtree used.
pub ghost struct Placed {
    /// The state after the subtree is placed.
    pub g: Grid,
    /// The largest column slot used below the subtree's root.
    pub maxc: int,
    /// The largest row used below the subtree's root.
    pub maxr: int,
}

/// The running state of the child fold of one node: the state so far, the
/// largest column slot and row used, the first and last placed child's
/// columns, and whether any child was placed yet.
pub ghost struct ChildFold {
    /// The state after the children processed so far.
    pub g: Grid,
    /// The largest column slot used so far.
    pub maxc: int,
    /// The largest row used so far.
    pub maxr: int,
    /// The column of the first child this fold placed.
    pub first: int,
    /// The column of the last child this fold placed so far.
    pub last: int,
    /// Whether this fold placed any child yet.
    pub have: bool,
}

/// The adjacency lists as plain sequences.
pub open spec fn lists_view(adj: Seq<Vec<usize>>) -> Seq<Seq<usize>> {
    adj.map_values(|l: Vec<usize>| l@)
}

/// Every listed neighbor is an index below the list count.
pub open spec fn adj_ok(adj: Seq<Seq<usize>>) -> bool {
    forall|v: int, k: int|
        0 <= v < adj.len() && 0 <= k < adj[v].len() ==> (#[trigger] adj[v][k]) < adj.len()
}

/// The arguments under which one placement call is meaningful: in-range
/// adjacency, a bounded placed set, and an unplaced node in range.
pub open spec fn place_pre(adj: Seq<Seq<usize>>, g: Grid, node: int) -> bool {
    &&& adj_ok(adj)
    &&& g.visited.finite()
    &&& g.visited.subset_of(set_int_range(0, adj.len() as int))
    &&& 0 <= node < adj.len()
    &&& !g.visited.contains(node)
}

/// The arguments under which the child fold is meaningful.
pub open spec fn children_pre(adj: Seq<Seq<usize>>, g: Grid, node: int, j: int) -> bool {
    &&& adj_ok(adj)
    &&& g.visited.finite()
    &&& g.visited.subset_of(set_int_range(0, adj.len() as int))
    &&& 0 <= node < adj.len()
    &&& 0 <= j
}

/// What one placement call computes, at the spec level: `node` is placed at
/// `row`, its unplaced children are placed depth-first at `row + 1` in fresh
/// column slots from `start_col` on, and `node`'s column becomes the
/// midpoint of its first and last child's columns — or the slot `start_col`
/// itself for a node whose children were all placed already or absent.
/// [`assign_levels`] returns exactly this value.
pub open spec fn place_node(
    adj: Seq<Seq<usize>>,
    g: Grid,
    node: int,
    start_col: int,
    row: int,
) -> Placed
    decreases adj.len() - g.visited.len(), 0int, 0int,
        when place_pre(adj, g, node)
{
    let g1 = Grid {
        visited: g.visited.insert(node),
        rows: g.rows.update(node, row as usize),
        cols: g.cols,
        tree: g.tree,
    };
    proof {
        lemma_int_range(0, adj.len() as int);
        axiom_set_insert_finite(g.visited, node);
        axiom_set_insert_len(g.visited, node);
        lemma_len_subset(g1.visited, set_int_range(0, adj.len() as int));
    }
    let f = place_children(adj, g1, node, row, 0, start_col, start_col, row, 0, 0, false);
    let my_col: int = if f.have {
        (f.first + f.last) / 2
    } else {
        start_col * (UNIT as int)
    };
    Placed {
        g: Grid {
            visited: f.g.visited,
            rows: f.g.rows,
            cols: f.g.cols.update(node, my_col as i64),
            tree: f.g.tree,
        },
        maxc: f.maxc,
        maxr: f.maxr,
    }
}

/// The child fold behind [`place_node`]: the children of `node` from
/// position `j` on are placed in order at `row + 1`; a child already placed
/// is skipped without a trace. Per placed child a tree edge `(node, child)`
/// is recorded after the child's subtree, and the fold's carried values are
/// advanced as the exec loop advances them.
pub open spec fn place_children(
    adj: Seq<Seq<usize>>,
    g: Grid,
    node: int,
    row: int,
    j: int,
    child_col: int,
    maxc: int,
    maxr: int,
    first: int,
    last: int,
    have: bool,
) -> ChildFold
    decreases adj.len() - g.visited.len(), adj[node].len() - j, 1int,
        when children_pre(adj, g, node, j)
{
    if j >= adj[node].len() {
        ChildFold { g, maxc, maxr, first, last, have }
    } else {
        let ch = adj[node][j] as int;
        if g.visited.contains(ch) {
            place_children(adj, g, node, row, j + 1, child_col, maxc, maxr, first, last, have)
        } else {
            let r = place_node(adj, g, ch, child_col, row + 1);
            let g2 = if r.g.visited.finite() && g.visited.subset_of(r.g.visited)
                && r.g.visited.subset_of(set_int_range(0, adj.len() as int)) {
                r.g
            } else {
                Grid { visited: g.visited.insert(ch), rows: g.rows, cols: g.cols, tree: g.tree }
            };
            proof {
                lemma_int_range(0, adj.len() as int);
                axiom_set_insert_finite(g.visited, ch);
                axiom_set_insert_len(g.visited, ch);
                lemma_len_subset(g2.visited, set_int_range(0, adj.len() as int));
                lemma_len_subset(g.visited, g2.visited);
            }
            let chc = g2.cols[ch] as int;
            place_children(
                adj,
                Grid {
                    visited: g2.visited,
                    rows: g2.rows,
                    cols: g2.cols,
                    tree: g2.tree.push((node as usize, ch as usize)),
                },
                node,
                row,
                j + 1,
                r.maxc + 1,
                if r.maxc > maxc {
                    r.maxc
                } else {
                    maxc
                },
                if r.maxr > maxr {
                    r.maxr
                } else {
                    maxr
                },
                if have {
                    first
                } else {
                    chc
                },
                chc,
                true,
            )
        }
    }
}

/// Depth-first placement below one node. Marks `node` visited at row `row`,
/// recursively places its unvisited children at `row + 1` in fresh column
/// slots starting at `start_col`, then centers `node` over its first and
/// last child (a childless node takes `start_col` itself). Returns the
/// largest column slot and row used below `node`.
#[verifier::rlimit(30)]
pub fn assign_levels(
    adj: &Vec<Vec<usize>>,
    visited: &mut fixedbitset::FixedBitSet,
    rows: &mut Vec<usize>,
    cols: &mut Vec<i64>,
    tree: &mut Vec<(usize, usize)>,
    node: usize,
    start_col: usize,
    row: usize,
) -> (r: (usize, usize))
    requires
        adj_wf(adj@, old(rows)@.len() as int),
        old(rows)@.len() == old(cols)@.len(),
        old(rows)@.len() <= MAX_NODES,
        bitset_cap(*old(visited)) == old(rows)@.len(),
        bitset_bits(*old(visited)).finite(),
        bitset_bits(*old(visited)).subset_of(set_int_range(0, old(rows)@.len() as int)),
        node < old(rows)@.len(),
        !bitset_bits(*old(visited)).contains(node as int),
        row <= bitset_bits(*old(visited)).len(),
        start_col <= MAX_NODES + bitset_bits(*old(visited)).len(),
        tree_ok(old(tree)@, old(rows)@, bitset_bits(*old(visited)), old(rows)@.len() as int),
    ensures
        ({
            let n = old(rows)@.len() as int;
            let b0 = bitset_bits(*old(visited));
            let b1 = bitset_bits(*final(visited));
            &&& final(rows)@.len() == n
            &&& final(cols)@.len() == n
            &&& final(tree)@.len() >= old(tree)@.len()
            &&& bitset_cap(*final(visited)) == n
            &&& b1.finite()
            &&& b0.subset_of(b1)
            &&& b1.subset_of(set_int_range(0, n))
            &&& b1.contains(node as int)
            &&& b1.len() >= b0.len() + 1
            &&& forall|k: int| 0 <= k < old(tree)@.len() ==> final(tree)@[k] == old(tree)@[k]
            &&& tree_ok(final(tree)@, final(rows)@, b1, n)
            &&& forall|v: int|
                0 <= v < n && !(b1.contains(v) && !b0.contains(v)) ==> final(rows)@[v] == old(
                rows)@[v] && final(cols)@[v] == old(cols)@[v]
            &&& final(rows)@[node as int] == row
            &&& start_col <= r.0 < start_col + (b1.len() - b0.len())
            &&& row <= r.1 < row + (b1.len() - b0.len())
            &&& forall|v: int|
                0 <= v < n && b1.contains(v) && !b0.contains(v) ==> row <= (
                #[trigger] final(rows)@[v]) <= r.1 && (start_col as int) * (UNIT as int) <= final(
                cols)@[v] <= (r.0 as int) * (UNIT as int)
            &&& ({
                let pr = place_node(
                    lists_view(adj@),
                    Grid {
                        visited: b0,
                        rows: old(rows)@,
                        cols: old(cols)@,
                        tree: old(tree)@,
                    },
                    node as int,
                    start_col as int,
                    row as int,
                );
                &&& pr.g == (Grid {
                    visited: b1,
                    rows: final(rows)@,
                    cols: final(cols)@,
                    tree: final(tree)@,
                })
                &&& pr.maxc == r.0
                &&& pr.maxr == r.1
            })
        }),
    decreases old(rows)@.len() - bitset_bits(*old(visited)).len(),
{
    let ghost n = rows@.len() as int;
    let ghost b0 = bitset_bits(*visited);
    let ghost av = lists_view(adj@);
    let ghost g_in = Grid { visited: bitset_bits(*visited), rows: rows@, cols: cols@, tree: tree@ };
    let n_exec = rows.len();
    proof {
        lemma_int_range(0, n);
        lemma_len_subset(b0, set_int_range(0, n));
        vstd::set::axiom_set_insert_len(bitset_bits(*visited), node as int);
        vstd::set::axiom_set_insert_finite(bitset_bits(*visited), node as int);
        assert forall|v: int, k2: int|
            0 <= v < av.len() && 0 <= k2 < av[v].len() implies (#[trigger] av[v][k2])
            < av.len() by {
            assert(av[v] == adj@[v]@);
        }
        assert(adj_ok(av) && av.len() == n);
        assert(place_pre(av, g_in, node as int));
    }
    bitset_insert(visited, node);
    proof {
        lemma_len_subset(bitset_bits(*visited), set_int_range(0, n));
    }
    rows[node] = row;
    let ghost g1 = Grid { visited: bitset_bits(*visited), rows: rows@, cols: cols@, tree: tree@ };
    proof {
        assert(g1 == (Grid {
            visited: g_in.visited.insert(node as int),
            rows: g_in.rows.update(node as int, row),
            cols: g_in.cols,
            tree: g_in.tree,
        }));
    }
    let mut child_col = start_col;
    let mut maxc = start_col;
    let mut maxr = row;
    let mut first_col: i64 = 0;
    let mut last_col: i64 = 0;
    let mut have_child = false;
    let deg = adj[node].len();
    let mut j: usize = 0;
    while j < deg
        invariant
            adj_wf(adj@, n),
            node < n,
            deg == adj@[node as int]@.len(),
            j <= deg,
            rows@.len() == n,
            cols@.len() == n,
            n <= MAX_NODES,
            n == n_exec,
            bitset_cap(*visited) == n,
            bitset_bits(*visited).finite(),
            b0.subset_of(bitset_bits(*visited)),
            bitset_bits(*visited).subset_of(set_int_range(0, n)),
            bitset_bits(*visited).contains(node as int),
            bitset_bits(*visited).len() >= b0.len() + 1,
            bitset_bits(*visited).len() <= n,
            b0.len() <= n,
            b0 == bitset_bits(*old(visited)),
            old(rows)@.len() == n,
            !b0.contains(node as int),
            rows@[node as int] == row,
            row <= b0.len(),
            start_col <= MAX_NODES + b0.len(),
            tree@.len() >= old(tree)@.len(),
            forall|k: int| 0 <= k < old(tree)@.len() ==> tree@[k] == old(tree)@[k],
            tree_ok(tree@, rows@, bitset_bits(*visited), n),
            forall|v: int|
                0 <= v < n && !(bitset_bits(*visited).contains(v) && !b0.contains(v)) ==> rows@[v]
                    == old(rows)@[v] && cols@[v] == old(cols)@[v],
            start_col <= maxc,
            row <= maxr,
            maxc < start_col + (bitset_bits(*visited).len() - b0.len()),
            maxr < row + (bitset_bits(*visited).len() - b0.len()),
            start_col <= child_col <= start_col + (bitset_bits(*visited).len() - b0.len()),
            child_col <= maxc + 1,
            have_child ==> (start_col as int) * (UNIT as int) <= first_col <= (maxc as int) * (
            UNIT as int),
            have_child ==> (start_col as int) * (UNIT as int) <= last_col <= (maxc as int) * (
            UNIT as int),
            forall|v: int|
                0 <= v < n && bitset_bits(*visited).contains(v) && !b0.contains(v) && v != node
                    ==> row + 1 <= (#[trigger] rows@[v]) <= maxr && (start_col as int) * (
                UNIT as int) <= cols@[v] <= (maxc as int) * (UNIT as int),
            av == lists_view(adj@),
            adj_ok(av),
            av.len() == n,
            ({
                let gcur = Grid { visited: bitset_bits(*visited), rows: rows@, cols: cols@, tree: tree@ };
                place_children(
                    av,
                    gcur,
                    node as int,
                    row as int,
                    j as int,
                    child_col as int,
                    maxc as int,
                    maxr as int,
                    first_col as int,
                    last_col as int,
                    have_child,
                ) == place_children(
                    av,
                    g1,
                    node as int,
                    row as int,
                    0,
                    start_col as int,
                    start_col as int,
                    row as int,
                    0,
                    0,
                    false,
                )
            }),
        decreases deg - j,
    {
        let ghost gcur0 = Grid { visited: bitset_bits(*visited), rows: rows@, cols: cols@, tree: tree@ };
        let ghost ccol0 = child_col as int;
        let ghost maxc0 = maxc as int;
        let ghost maxr0 = maxr as int;
        let ghost first0 = first_col as int;
        let ghost last0 = last_col as int;
        let ghost have0 = have_child;
        let ch = adj[node][j];
        proof {
            assert(av[node as int] == adj@[node as int]@);
        }
        if !bitset_contains(visited, ch) {
            let ghost b_pre = bitset_bits(*visited);
            let ghost maxc_pre = maxc;
            let (cmc, cmr) = assign_levels(adj, visited, rows, cols, tree, ch, child_col, row + 1);
            proof {
                lemma_int_range(0, n);
                lemma_len_subset(bitset_bits(*visited), set_int_range(0, n));
            }
            tree.push((node, ch));
            let chp = cols[ch];
            if !have_child {
                first_col = chp;
                have_child = true;
            }
            last_col = chp;
            if cmc > maxc {
                maxc = cmc;
            }
            if cmr > maxr {
                maxr = cmr;
            }
            child_col = cmc + 1;
            proof {
                let b_now = bitset_bits(*visited);
                lemma_int_range(0, n);
                lemma_len_subset(b_now, set_int_range(0, n));
                lemma_len_subset(b_pre, b_now);
                // Column values scale monotonically with the column slots.
                lemma_mul_inequality(start_col as int, child_col as int, UNIT as int);
                lemma_mul_inequality(maxc_pre as int, maxc as int, UNIT as int);
                lemma_mul_inequality(cmc as int, maxc as int, UNIT as int);
            }
        }
        proof {
            let gnow = Grid { visited: bitset_bits(*visited), rows: rows@, cols: cols@, tree: tree@ };
            assert(place_children(
                av,
                gcur0,
                node as int,
                row as int,
                j as int,
                ccol0,
                maxc0,
                maxr0,
                first0,
                last0,
                have0,
            ) == place_children(
                av,
                gnow,
                node as int,
                row as int,
                j + 1,
                child_col as int,
                maxc as int,
                maxr as int,
                first_col as int,
                last_col as int,
                have_child,
            ));
        }
        j += 1;
    }
    proof {
        let gfin = Grid { visited: bitset_bits(*visited), rows: rows@, cols: cols@, tree: tree@ };
        assert(place_children(
            av,
            gfin,
            node as int,
            row as int,
            deg as int,
            child_col as int,
            maxc as int,
            maxr as int,
            first_col as int,
            last_col as int,
            have_child,
        ) == (ChildFold {
            g: gfin,
            maxc: maxc as int,
            maxr: maxr as int,
            first: first_col as int,
            last: last_col as int,
            have: have_child,
        }));
    }
    let my_col: i64 = if have_child {
        proof {
            let lo = (start_col as int) * (UNIT as int);
            let hi = (maxc as int) * (UNIT as int);
            lemma_mul_inequality(0, start_col as int, UNIT as int);
            lemma_mul_inequality(maxc as int, 2 * MAX_NODES as int, UNIT as int);
            assert(0 * (UNIT as int) == 0) by (nonlinear_arith);
            vstd::arithmetic::div_mod::lemma_div_is_ordered(2 * lo, first_col + last_col, 2);
            vstd::arithmetic::div_mod::lemma_div_is_ordered(first_col + last_col, 2 * hi, 2);
            assert(2 * lo / 2 == lo && 2 * hi / 2 == hi) by (nonlinear_arith);
        }
        (first_col + last_col) / 2
    } else {
        proof {
            lemma_mul_inequality(start_col as int, maxc as int, UNIT as int);
            lemma_mul_inequality(start_col as int, 2 * MAX_NODES as int, UNIT as int);
        }
        (start_col as i64) * UNIT
    };
    cols[node] = my_col;
    proof {
        let pr = place_node(av, g_in, node as int, start_col as int, row as int);
        let f = place_children(
            av,
            g1,
            node as int,
            row as int,
            0,
            start_col as int,
            start_col as int,
            row as int,
            0,
            0,
            false,
        );
        assert(my_col == if f.have {
            (f.first + f.last) / 2
        } else {
            (start_col as int) * (UNIT as int)
        });
        assert(pr.g == (Grid {
            visited: bitset_bits(*visited),
            rows: rows@,
            cols: cols@,
            tree: tree@,
        }));
        assert(pr.maxc == maxc as int && pr.maxr == maxr as int);
    }
    (maxc, maxr)
}

/// The roots pass, at the spec level: every node with no incoming edge, in
/// index order, roots a subtree at row 0 if still unplaced. Carries the next
/// free column slot and the largest slot and row used.
pub open spec fn roots_pass(
    adj: Seq<Seq<usize>>,
    indeg: Seq<usize>,
    g: Grid,
    v: int,
    next_col: int,
    maxc: int,
    maxr: int,
) -> (Grid, int, int, int)
    decreases adj.len() - v,
{
    if v < 0 || v >= adj.len() {
        (g, next_col, maxc, maxr)
    } else if indeg[v] == 0 && !g.visited.contains(v) {
        let r = place_node(adj, g, v, next_col, 0);
        roots_pass(
            adj,
            indeg,
            r.g,
            v + 1,
            r.maxc + 1,
            if r.maxc > maxc {
                r.maxc
            } else {
                maxc
            },
            if r.maxr > maxr {
                r.maxr
            } else {
                maxr
            },
        )
    } else {
        roots_pass(adj, indeg, g, v + 1, next_col, maxc, maxr)
    }
}

/// The fallback pass, at the spec level: every node of `order`, in order,
/// roots a subtree at row 0 if still unplaced.
pub open spec fn fallback_pass(
    adj: Seq<Seq<usize>>,
    order: Seq<usize>,
    g: Grid,
    idx: int,
    next_col: int,
    maxc: int,
    maxr: int,
) -> (Grid, int, int, int)
    decreases order.len() - idx,
{
    if idx < 0 || idx >= order.len() {
        (g, next_col, maxc, maxr)
    } else {
        let root = order[idx] as int;
        if !g.visited.contains(root) {
            let r = place_node(adj, g, root, next_col, 0);
            fallback_pass(
                adj,
                order,
                r.g,
                idx + 1,
                r.maxc + 1,
                if r.maxc > maxc {
                    r.maxc
                } else {
                    maxc
                },
                if r.maxr > maxr {
                    r.maxr
                } else {
                    maxr
                },
            )
        } else {
            fallback_pass(adj, order, g, idx + 1, next_col, maxc, maxr)
        }
    }
}

/// Law: the fallback pass is the identity once every node of `order` is
/// already placed. In particular, when the roots pass reaches every node,
/// the hierarchy grid is the roots pass's grid alone, whatever degree order
/// the fallback would have used.
pub proof fn lemma_fallback_noop(
    adj: Seq<Seq<usize>>,
    order: Seq<usize>,
    g: Grid,
    idx: int,
    next_col: int,
    maxc: int,
    maxr: int,
)
    requires
        forall|k: int| 0 <= k < order.len() ==> g.visited.contains((#[trigger] order[k]) as int),
    ensures
        fallback_pass(adj, order, g, idx, next_col, maxc, maxr) == (g, next_col, maxc, maxr),
    decreases order.len() - idx,
{
    if 0 <= idx < order.len() {
        lemma_fallback_noop(adj, order, g, idx + 1, next_col, maxc, maxr);
    }
}

/// The all-zero starting state over `n` nodes.
pub open spec fn init_grid(n: int) -> Grid {
    Grid {
        visited: Set::empty(),
        rows: Seq::new(n as nat, |i: int| 0usize),
        cols: Seq::new(n as nat, |i: int| 0i64),
        tree: Seq::empty(),
    }
}

/// The adjacency lists of a graph, at the spec level.
pub open spec fn adj_of(g: GraphData) -> Seq<Seq<usize>> {
    Seq::new(g.node_count as nat, |v: int| neighbors_of(g.edges@, g.directed, v))
}

/// The in-degree of every node of a graph, at the spec level.
pub open spec fn indeg_of(g: GraphData) -> Seq<usize> {
    Seq::new(
        g.node_count as nat,
        |v: int| in_neighbors_of(g.edges@, g.directed, v).len() as usize,
    )
}

/// The out-degree of every node of a graph, at the spec level.
pub open spec fn out_degs_of(g: GraphData) -> Seq<usize> {
    Seq::new(g.node_count as nat, |v: int| neighbors_of(g.edges@, g.directed, v).len() as usize)
}

/// Whether node `a` comes before node `b` in the fallback root order:
/// descending degree, and ascending index among equal degrees — a strict
/// total order on distinct nodes.
pub open spec fn deg_before(deg: Seq<usize>, a: usize, b: usize) -> bool {
    deg[a as int] > deg[b as int] || (deg[a as int] == deg[b as int] && a < b)
}

/// Whether `order` lists the nodes `0 .. deg.len()` exactly once each,
/// sorted by [`deg_before`]. Since that order is strict and total, these
/// properties determine `order` uniquely from `deg`.
pub open spec fn degree_order(order: Seq<usize>, deg: Seq<usize>) -> bool {
    &&& order.len() == deg.len()
    &&& forall|k: int| 0 <= k < order.len() ==> (#[trigger] order[k]) < deg.len()
    &&& forall|w: int| 0 <= w < deg.len() ==> #[trigger] order.contains(w as usize)
    &&& forall|p: int, q: int|
        0 <= p < q < order.len() ==> #[trigger] deg_before(deg, order[p], order[q])
}

/// The whole hierarchy grid of a graph: the roots pass from the all-zero
/// state, then the fallback pass over the degree order. Returns the final
/// state and the largest column slot and row used. [`hierarchy_assign`]
/// returns exactly this value.
pub open spec fn hierarchy_grid(g: GraphData, order: Seq<usize>) -> (Grid, int, int) {
    let r1 = roots_pass(adj_of(g), indeg_of(g), init_grid(g.node_count as int), 0, 0, 0, 0);
    let r2 = fallback_pass(adj_of(g), order, r1.0, 0, r1.1, r1.2, r1.3);
    (r2.0, r2.2, r2.3)
}

/// Orders the nodes `0 .. n` by descending degree, ascending index among
/// equal degrees (see [`deg_before`]). Deterministic, so repeated layouts of
/// one graph agree.
fn sort_nodes_by_degree_desc(n: usize, deg: &Vec<usize>) -> (r: Vec<usize>)
    requires
        deg@.len() == n,
        n <= MAX_NODES,
    ensures
        r@.len() == n,
        forall|k: int| 0 <= k < n ==> (#[trigger] r@[k]) < n,
        forall|v: int| 0 <= v < n ==> #[trigger] r@.contains(v as usize),
        degree_order(r@, deg@),
{
    let mut r: Vec<usize> = Vec::new();
    let mut v: usize = 0;
    while v < n
        invariant
            v <= n,
            r@.len() == v,
            forall|k: int| 0 <= k < v ==> (#[trigger] r@[k]) == k,
        decreases n - v,
    {
        r.push(v);
        v += 1;
    }
    proof {
        assert forall|w: int| 0 <= w < n implies #[trigger] r@.contains(w as usize) by {
            assert(r@[w] == w as usize);
        }
    }
    let mut i: usize = 0;
    while i < n
        invariant
            i <= n,
            r@.len() == n,
            deg@.len() == n,
            forall|k: int| 0 <= k < n ==> (#[trigger] r@[k]) < n,
            forall|w: int| 0 <= w < n ==> #[trigger] r@.contains(w as usize),
            forall|p: int, q: int| 0 <= p < q < n ==> r@[p] != r@[q],
            forall|p: int, q: int|
                0 <= p < q < i ==> #[trigger] deg_before(deg@, r@[p], r@[q]),
            forall|p: int, q: int|
                0 <= p < i <= q < n ==> #[trigger] deg_before(deg@, r@[p], r@[q]),
        decreases n - i,
    {
        let mut best: usize = i;
        let mut k: usize = i + 1;
        while k < n
            invariant
                i <= best < n,
                i < k <= n,
                r@.len() == n,
                deg@.len() == n,
                forall|t: int| 0 <= t < n ==> (#[trigger] r@[t]) < n,
                forall|p: int, q: int| 0 <= p < q < n ==> r@[p] != r@[q],
                forall|t: int|
                    i <= t < k && t != best ==> #[trigger] deg_before(deg@, r@[best as int], r@[t]),
            decreases n - k,
        {
            let ghost b0 = best as int;
            let dk = deg[r[k]];
            let db = deg[r[best]];
            if dk > db || (dk == db && r[k] < r[best]) {
                best = k;
            }
            proof {
                assert forall|t: int|
                    i <= t < k + 1 && t != best implies #[trigger] deg_before(
                    deg@,
                    r@[best as int],
                    r@[t],
                ) by {
                    if best as int == b0 {
                        if t == k as int {
                            assert(r@[b0] != r@[k as int]);
                        }
                    } else {
                        assert(deg_before(deg@, r@[k as int], r@[b0]));
                        if t != b0 && t < k as int {
                            assert(deg_before(deg@, r@[b0], r@[t]));
                        }
                    }
                }
            }
            k += 1;
        }
        let ghost pre = r@;
        let a = r[i];
        let b = r[best];
        r[i] = b;
        r[best] = a;
        proof {
            assert forall|w: int| 0 <= w < n implies #[trigger] r@.contains(w as usize) by {
                assert(pre.contains(w as usize));
                let t = choose|t: int| 0 <= t < pre.len() && pre[t] == w as usize;
                if t == i as int {
                    assert(r@[best as int] == w as usize);
                } else if t == best as int {
                    assert(r@[i as int] == w as usize);
                } else {
                    assert(r@[t] == w as usize);
                }
            }
            assert forall|p: int, q: int| 0 <= p < q < n implies r@[p] != r@[q] by {
                let pp: int = if p == i as int {
                    best as int
                } else if p == best as int {
                    i as int
                } else {
                    p
                };
                let qq: int = if q == i as int {
                    best as int
                } else if q == best as int {
                    i as int
                } else {
                    q
                };
                assert(r@[p] == pre[pp] && r@[q] == pre[qq] && pp != qq);
            }
            assert forall|p: int, q: int|
                0 <= p < i + 1 <= q < n implies #[trigger] deg_before(deg@, r@[p], r@[q]) by {
                let qq: int = if q == best as int {
                    i as int
                } else {
                    q
                };
                assert(r@[q] == pre[qq] && i as int <= qq < n);
                if p == i as int {
                    // The selected node leads every remaining one strictly:
                    // equal keys were broken toward the smaller index, and
                    // the entries are distinct.
                    assert(r@[p] == pre[best as int]);
                    if qq != best as int {
                        assert(deg_before(deg@, pre[best as int], pre[qq]));
                    }
                } else {
                    assert(r@[p] == pre[p]);
                }
            }
            assert forall|p: int, q: int|
                0 <= p < q < i + 1 implies #[trigger] deg_before(deg@, r@[p], r@[q]) by {
                if q < i as int {
                    assert(r@[p] == pre[p] && r@[q] == pre[q]);
                    assert(deg_before(deg@, pre[p], pre[q]));
                } else {
                    assert(q == i as int && r@[q] == pre[best as int] && r@[p] == pre[p]);
                    assert(deg_before(deg@, pre[p], pre[best as int]));
                }
            }
        }
        i += 1;
    }
    r
}

/// The normalized column: the fixed-point column divided by the column
/// count, or kept as-is when every column is the zero slot.
pub open spec fn norm_col(c: int, m: int) -> int {
    if m > 0 {
        c / m
    } else {
        c
    }
}

/// The normalized row: the row scaled to [0, UNIT] by the deepest row, or
/// scaled by UNIT alone when the deepest row is zero.
pub open spec fn norm_row(r: int, m: int) -> int {
    if m > 0 {
        r * (UNIT as int) / m
    } else {
        r * (UNIT as int)
    }
}

/// Where a normalized (column, row) pair lands under an orientation:
/// TopToBottom keeps it, BottomToTop flips the row, the two horizontal
/// orientations transpose the axes, RightToLeft also mirroring.
pub open spec fn orient_pos(o: Orientation, x: int, y: int) -> (int, int) {
    match o {
        Orientation::TopToBottom => (x, y),
        Orientation::BottomToTop => (x, (UNIT as int) - y),
        Orientation::LeftToRight => (y, x),
        Orientation::RightToLeft => ((UNIT as int) - y, x),
    }
}

/// Law: under BottomToTop, the vertical coordinate is the exact mirror of
/// the TopToBottom one, whatever the normalized row and column are; the
/// horizontal coordinate is unchanged.
pub proof fn lemma_bottom_to_top_mirrors(x: int, y: int)
    ensures
        orient_pos(Orientation::BottomToTop, x, y).1 == UNIT - orient_pos(
            Orientation::TopToBottom,
            x,
            y,
        ).1,
        orient_pos(Orientation::BottomToTop, x, y).0 == orient_pos(
            Orientation::TopToBottom,
            x,
            y,
        ).0,
{
}

/// What normalization promises: each position is the node's normalized
/// (column, row) pair turned by the orientation.
pub open spec fn hierarchical_formula(
    rows: Seq<usize>,
    cols: Seq<i64>,
    max_col: int,
    max_row: int,
    o: Orientation,
    ps: Seq<Pos>,
) -> bool {
    &&& ps.len() == rows.len()
    &&& forall|v: int|
        0 <= v < rows.len() ==> {
            let p = orient_pos(o, norm_col(cols[v] as int, max_col), norm_row(rows[v] as int, max_row));
            (#[trigger] ps[v]).x == p.0 && ps[v].y == p.1
        }
}

/// Law: two normalizations of one hierarchy grid, one TopToBottom and one
/// BottomToTop, mirror each other: every node keeps its horizontal
/// coordinate and flips its vertical coordinate through the unit square.
pub proof fn lemma_bottom_to_top_layout_mirrors(
    rows: Seq<usize>,
    cols: Seq<i64>,
    max_col: int,
    max_row: int,
    ps_top: Seq<Pos>,
    ps_bottom: Seq<Pos>,
    v: int,
)
    requires
        hierarchical_formula(rows, cols, max_col, max_row, Orientation::TopToBottom, ps_top),
        hierarchical_formula(rows, cols, max_col, max_row, Orientation::BottomToTop, ps_bottom),
        0 <= v < rows.len(),
    ensures
        ps_bottom[v].y == UNIT - ps_top[v].y,
        ps_bottom[v].x == ps_top[v].x,
{
    lemma_bottom_to_top_mirrors(
        norm_col(cols[v] as int, max_col),
        norm_row(rows[v] as int, max_row),
    );
}

/// Scales rows and columns into the unit square and applies the
/// orientation.
pub fn normalize_positions(
    rows: &Vec<usize>,
    cols: &Vec<i64>,
    max_col: usize,
    max_row: usize,
    orientation: Orientation,
) -> (r: PositionMap)
    requires
        rows@.len() == cols@.len(),
        rows@.len() <= MAX_NODES,
        max_row <= MAX_NODES,
        max_col <= 2 * MAX_NODES,
        forall|v: int| 0 <= v < rows@.len() ==> (#[trigger] rows@[v]) <= max_row,
        forall|v: int|
            0 <= v < cols@.len() ==> 0 <= (#[trigger] cols@[v]) <= (max_col as int) * (UNIT as int),
    ensures
        r.positions@.len() == rows@.len(),
        hierarchical_formula(
            rows@,
            cols@,
            max_col as int,
            max_row as int,
            orientation,
            r.positions@,
        ),
        forall|v: int|
            0 <= v < rows@.len() ==> crate::position::in_unit_square(#[trigger] r.positions@[v]),
{
    let n = rows.len();
    let mut ps: Vec<Pos> = Vec::new();
    let mut v: usize = 0;
    while v < n
        invariant
            v <= n,
            n == rows@.len() == cols@.len(),
            n <= MAX_NODES,
            max_row <= MAX_NODES,
            max_col <= 2 * MAX_NODES,
            forall|w: int| 0 <= w < n ==> (#[trigger] rows@[w]) <= max_row,
            forall|w: int|
                0 <= w < n ==> 0 <= (#[trigger] cols@[w]) <= (max_col as int) * (UNIT as int),
            ps@.len() == v,
            forall|w: int|
                0 <= w < v ==> {
                    let o = orient_pos(
                        orientation,
                        norm_col(cols@[w] as int, max_col as int),
                        norm_row(rows@[w] as int, max_row as int),
                    );
                    (#[trigger] ps@[w]).x == o.0 && ps@[w].y == o.1
                },
            forall|w: int| 0 <= w < v ==> crate::position::in_unit_square(#[trigger] ps@[w]),
        decreases n - v,
    {
        let c = cols[v];
        let rw = rows[v];
        let x: i64 = if max_col > 0 {
            proof {
                vstd::arithmetic::div_mod::lemma_div_pos_is_pos(c as int, max_col as int);
                vstd::arithmetic::div_mod::lemma_div_is_ordered(
                    c as int,
                    (max_col as int) * (UNIT as int),
                    max_col as int,
                );
                vstd::arithmetic::div_mod::lemma_div_multiples_vanish(
                    UNIT as int,
                    max_col as int,
                );
            }
            c / (max_col as i64)
        } else {
            c
        };
        let y: i64 = if max_row > 0 {
            proof {
                vstd::arithmetic::div_mod::lemma_div_nonincreasing(
                    (rw as int) * (UNIT as int),
                    max_row as int,
                );
                vstd::arithmetic::div_mod::lemma_div_pos_is_pos(
                    (rw as int) * (UNIT as int),
                    max_row as int,
                );
                lemma_mul_inequality(rw as int, max_row as int, UNIT as int);
                lemma_mul_inequality(0, rw as int, UNIT as int);
                assert(0 * (UNIT as int) == 0) by (nonlinear_arith);
                vstd::arithmetic::div_mod::lemma_div_is_ordered(
                    (rw as int) * (UNIT as int),
                    (max_row as int) * (UNIT as int),
                    max_row as int,
                );
                vstd::arithmetic::div_mod::lemma_div_multiples_vanish(
                    UNIT as int,
                    max_row as int,
                );
            }
            crate::fixed::mul_div(rw as i64, UNIT, max_row as i64)
        } else {
            proof {
                lemma_mul_inequality(rw as int, 0, UNIT as int);
                assert(0 * (UNIT as int) == 0) by (nonlinear_arith);
            }
            (rw as i64) * UNIT
        };
        let p = match orientation {
            Orientation::TopToBottom => Pos { x, y },
            Orientation::BottomToTop => Pos { x, y: UNIT - y },
            Orientation::LeftToRight => Pos { x: y, y: x },
            Orientation::RightToLeft => Pos { x: UNIT - y, y: x },
        };
        ps.push(p);
        v += 1;
    }
    PositionMap { positions: ps }
}

/// Assigns a row and a fixed-point column to every node: first from the
/// nodes with no incoming edges in index order, then from all remaining
/// nodes in descending out-degree order. Returns the rows, the columns, the
/// tree edges discovered during assignment, and the largest column slot and
/// row used. Every discovered tree edge descends exactly one row.
pub fn hierarchy_assign(g: &GraphData) -> (r: (
    Vec<usize>,
    Vec<i64>,
    Vec<(usize, usize)>,
    usize,
    usize,
))
    requires
        g.wf(),
    ensures
        ({
            let (rows, cols, tree, max_col, max_row) = r;
            let n = g.node_count as int;
            &&& rows@.len() == n
            &&& cols@.len() == n
            &&& max_row <= MAX_NODES
            &&& max_col <= 2 * MAX_NODES
            &&& forall|k: int|
                0 <= k < tree@.len() ==> {
                    let e = #[trigger] tree@[k];
                    e.0 < n && e.1 < n && rows@[e.1 as int] == rows@[e.0 as int] + 1
                }
            &&& forall|v: int| 0 <= v < n ==> (#[trigger] rows@[v]) <= max_row
            &&& forall|v: int|
                0 <= v < n ==> 0 <= (#[trigger] cols@[v]) <= (max_col as int) * (UNIT as int)
            &&& exists|order: Seq<usize>|
                #[trigger] degree_order(order, out_degs_of(*g)) && ({
                    let hg = hierarchy_grid(*g, order);
                    &&& rows@ == hg.0.rows
                    &&& cols@ == hg.0.cols
                    &&& tree@ == hg.0.tree
                    &&& max_col as int == hg.1
                    &&& max_row as int == hg.2
                })
        }),
{
    let n = g.node_count;
    let ghost gn = n as int;
    let adj = g.neighbor_lists();
    let ghost av = lists_view(adj@);
    proof {
        assert forall|vv: int, j: int|
            0 <= vv < gn && 0 <= j < adj@[vv]@.len() implies (#[trigger] adj@[vv]@[j]) < gn by {
            crate::graph::lemma_neighbors_valid(*g, vv);
        }
        assert forall|vv: int| 0 <= vv < gn implies #[trigger] av[vv] == adj_of(*g)[vv] by {
            assert(av[vv] == adj@[vv]@);
        }
        assert(av =~= adj_of(*g));
        assert forall|vv: int, k2: int|
            0 <= vv < av.len() && 0 <= k2 < av[vv].len() implies (#[trigger] av[vv][k2])
            < av.len() by {
            assert(av[vv] == adj@[vv]@);
        }
        assert(adj_ok(av) && av.len() == gn);
    }
    let indeg = g.in_degrees();
    proof {
        assert(indeg@ =~= indeg_of(*g));
    }
    let mut rows: Vec<usize> = Vec::new();
    let mut cols: Vec<i64> = Vec::new();
    let mut i: usize = 0;
    while i < n
        invariant
            i <= n,
            rows@.len() == i,
            cols@.len() == i,
            forall|w: int| 0 <= w < i ==> (#[trigger] rows@[w]) == 0,
            forall|w: int| 0 <= w < i ==> (#[trigger] cols@[w]) == 0,
        decreases n - i,
    {
        rows.push(0);
        cols.push(0);
        i += 1;
    }
    let mut tree: Vec<(usize, usize)> = Vec::new();
    let mut visited = bitset_new(n);
    let ghost g0 = Grid { visited: bitset_bits(visited), rows: rows@, cols: cols@, tree: tree@ };
    proof {
        assert(g0.rows =~= init_grid(gn).rows);
        assert(g0.cols =~= init_grid(gn).cols);
        assert(g0.tree =~= init_grid(gn).tree);
        assert(g0 == init_grid(gn));
    }
    let mut next_col: usize = 0;
    let mut max_col: usize = 0;
    let mut max_row: usize = 0;
    let mut v: usize = 0;
    while v < n
        invariant
            v <= n,
            av == lists_view(adj@),
            adj_ok(av),
            av.len() == gn,
            ({
                let gcur = Grid { visited: bitset_bits(visited), rows: rows@, cols: cols@, tree: tree@ };
                roots_pass(av, indeg@, gcur, v as int, next_col as int, max_col as int, max_row as int)
                    == roots_pass(av, indeg@, g0, 0, 0, 0, 0)
            }),
            n == g.node_count,
            g.wf(),
            adj_wf(adj@, gn),
            gn == n as int,
            indeg@.len() == n,
            rows@.len() == gn,
            cols@.len() == gn,
            bitset_cap(visited) == n,
            bitset_bits(visited).finite(),
            bitset_bits(visited).subset_of(set_int_range(0, gn)),
            bitset_bits(visited).len() <= n,
            next_col <= bitset_bits(visited).len() + 1,
            max_col <= bitset_bits(visited).len(),
            max_row <= bitset_bits(visited).len(),
            tree_ok(tree@, rows@, bitset_bits(visited), gn),
            forall|w: int|
                0 <= w < gn && !bitset_bits(visited).contains(w) ==> (#[trigger] rows@[w]) == 0,
            forall|w: int|
                0 <= w < gn && !bitset_bits(visited).contains(w) ==> (#[trigger] cols@[w]) == 0,
            forall|w: int|
                0 <= w < gn && bitset_bits(visited).contains(w) ==> (#[trigger] rows@[w])
                    <= max_row,
            forall|w: int|
                0 <= w < gn && bitset_bits(visited).contains(w) ==> 0 <= (#[trigger] cols@[w])
                    <= (max_col as int) * (UNIT as int),
        decreases n - v,
    {
        let ghost gcur0 = Grid { visited: bitset_bits(visited), rows: rows@, cols: cols@, tree: tree@ };
        let ghost nc0 = next_col as int;
        let ghost mc0 = max_col as int;
        let ghost mr0 = max_row as int;
        if indeg[v] == 0 && !bitset_contains(&visited, v) {
            let ghost maxc_pre = max_col;
            let ghost b_pre = bitset_bits(visited);
            let ghost cols_pre = cols@;
            let ghost start_pre = next_col;
            let (cmc, cmr) = assign_levels(
                &adj,
                &mut visited,
                &mut rows,
                &mut cols,
                &mut tree,
                v,
                next_col,
                0,
            );
            proof {
                lemma_int_range(0, gn);
                lemma_len_subset(bitset_bits(visited), set_int_range(0, gn));
            }
            if cmr > max_row {
                max_row = cmr;
            }
            if cmc > max_col {
                max_col = cmc;
            }
            next_col = cmc + 1;
            proof {
                lemma_mul_inequality(maxc_pre as int, max_col as int, UNIT as int);
                lemma_mul_inequality(cmc as int, max_col as int, UNIT as int);
                lemma_mul_inequality(0, start_pre as int, UNIT as int);
                assert(0 * (UNIT as int) == 0) by (nonlinear_arith);
                assert forall|w: int|
                    0 <= w < gn && bitset_bits(visited).contains(w) implies 0 <= (
                #[trigger] cols@[w]) <= (max_col as int) * (UNIT as int) by {
                    if b_pre.contains(w) {
                        assert(cols@[w] == cols_pre[w]);
                    } else {
                        assert(rows@[w] <= max_row);
                    }
                }
            }
        }
        proof {
            let gnow = Grid { visited: bitset_bits(visited), rows: rows@, cols: cols@, tree: tree@ };
            assert(roots_pass(av, indeg@, gcur0, v as int, nc0, mc0, mr0) == roots_pass(
                av,
                indeg@,
                gnow,
                v + 1,
                next_col as int,
                max_col as int,
                max_row as int,
            ));
        }
        v += 1;
    }
    let ghost gmid = Grid { visited: bitset_bits(visited), rows: rows@, cols: cols@, tree: tree@ };
    let ghost nc1 = next_col as int;
    let ghost mc1 = max_col as int;
    let ghost mr1 = max_row as int;
    proof {
        assert(roots_pass(av, indeg@, gmid, gn, nc1, mc1, mr1) == (gmid, nc1, mc1, mr1));
        assert(roots_pass(av, indeg@, g0, 0, 0, 0, 0) == (gmid, nc1, mc1, mr1));
    }
    // Fallback pass: any node still unvisited (none has in-degree zero in
    // its component) roots its own subtree, in descending out-degree order.
    let mut degs: Vec<usize> = Vec::new();
    let mut i: usize = 0;
    while i < n
        invariant
            i <= n,
            adj_wf(adj@, gn),
            gn == n as int,
            degs@.len() == i,
            forall|w: int| 0 <= w < i ==> (#[trigger] degs@[w]) == adj@[w]@.len(),
        decreases n - i,
    {
        degs.push(adj[i].len());
        i += 1;
    }
    proof {
        assert forall|w: int| 0 <= w < gn implies #[trigger] degs@[w] == out_degs_of(*g)[w] by {
            assert(av[w] == adj@[w]@);
        }
        assert(degs@ =~= out_degs_of(*g));
    }
    let order = sort_nodes_by_degree_desc(n, &degs);
    let mut idx: usize = 0;
    while idx < n
        invariant
            idx <= n,
            av == lists_view(adj@),
            adj_ok(av),
            av.len() == gn,
            ({
                let gcur = Grid { visited: bitset_bits(visited), rows: rows@, cols: cols@, tree: tree@ };
                fallback_pass(av, order@, gcur, idx as int, next_col as int, max_col as int, max_row as int)
                    == fallback_pass(av, order@, gmid, 0, nc1, mc1, mr1)
            }),
            n == g.node_count,
            g.wf(),
            adj_wf(adj@, gn),
            gn == n as int,
            order@.len() == n,
            forall|k: int| 0 <= k < n ==> (#[trigger] order@[k]) < n,
            rows@.len() == gn,
            cols@.len() == gn,
            bitset_cap(visited) == n,
            bitset_bits(visited).finite(),
            bitset_bits(visited).subset_of(set_int_range(0, gn)),
            bitset_bits(visited).len() <= n,
            next_col <= bitset_bits(visited).len() + 1,
            max_col <= bitset_bits(visited).len(),
            max_row <= bitset_bits(visited).len(),
            tree_ok(tree@, rows@, bitset_bits(visited), gn),
            forall|w: int|
                0 <= w < gn && !bitset_bits(visited).contains(w) ==> (#[trigger] rows@[w]) == 0,
            forall|w: int|
                0 <= w < gn && !bitset_bits(visited).contains(w) ==> (#[trigger] cols@[w]) == 0,
            forall|w: int|
                0 <= w < gn && bitset_bits(visited).contains(w) ==> (#[trigger] rows@[w])
                    <= max_row,
            forall|w: int|
                0 <= w < gn && bitset_bits(visited).contains(w) ==> 0 <= (#[trigger] cols@[w])
                    <= (max_col as int) * (UNIT as int),
        decreases n - idx,
    {
        let ghost gcur0 = Grid { visited: bitset_bits(visited), rows: rows@, cols: cols@, tree: tree@ };
        let ghost nc0 = next_col as int;
        let ghost mc0 = max_col as int;
        let ghost mr0 = max_row as int;
        let root = order[idx];
        if !bitset_contains(&visited, root) {
            let ghost maxc_pre = max_col;
            let ghost b_pre = bitset_bits(visited);
            let ghost cols_pre = cols@;
            let ghost start_pre = next_col;
            let (cmc, cmr) = assign_levels(
                &adj,
                &mut visited,
                &mut rows,
                &mut cols,
                &mut tree,
                root,
                next_col,
                0,
            );
            proof {
                lemma_int_range(0, gn);
                lemma_len_subset(bitset_bits(visited), set_int_range(0, gn));
            }
            if cmr > max_row {
                max_row = cmr;
            }
            if cmc > max_col {
                max_col = cmc;
            }
            next_col = cmc + 1;
            proof {
                lemma_mul_inequality(maxc_pre as int, max_col as int, UNIT as int);
                lemma_mul_inequality(cmc as int, max_col as int, UNIT as int);
                lemma_mul_inequality(0, start_pre as int, UNIT as int);
                assert(0 * (UNIT as int) == 0) by (nonlinear_arith);
                assert forall|w: int|
                    0 <= w < gn && bitset_bits(visited).contains(w) implies 0 <= (
                #[trigger] cols@[w]) <= (max_col as int) * (UNIT as int) by {
                    if b_pre.contains(w) {
                        assert(cols@[w] == cols_pre[w]);
                    } else {
                        assert(rows@[w] <= max_row);
                    }
                }
            }
        }
        proof {
            let gnow = Grid { visited: bitset_bits(visited), rows: rows@, cols: cols@, tree: tree@ };
            assert(fallback_pass(av, order@, gcur0, idx as int, nc0, mc0, mr0) == fallback_pass(
                av,
                order@,
                gnow,
                idx + 1,
                next_col as int,
                max_col as int,
                max_row as int,
            ));
        }
        idx += 1;
    }
    proof {
        lemma_mul_inequality(0, max_col as int, UNIT as int);
        assert(0 * (UNIT as int) == 0) by (nonlinear_arith);
        let gend = Grid { visited: bitset_bits(visited), rows: rows@, cols: cols@, tree: tree@ };
        assert(fallback_pass(av, order@, gend, gn, next_col as int, max_col as int, max_row as int)
            == (gend, next_col as int, max_col as int, max_row as int));
        let hg = hierarchy_grid(*g, order@);
        assert(degree_order(order@, out_degs_of(*g)));
        assert(hg.0 == gend && hg.1 == max_col as int && hg.2 == max_row as int);
    }
    (rows, cols, tree, max_col, max_row)
}

/// Arranges the nodes of a graph in a hierarchical layout under the given
/// orientation: rows by depth below the roots, columns centering parents
/// over their children, both normalized to the unit square. The positions
/// are exactly the graph's hierarchy grid (see [`hierarchy_grid`]) put
/// through [`hierarchical_formula`]; the grid is determined by the graph
/// alone, since [`degree_order`] has one solution.
pub fn hierarchical_layout(g: &GraphData, orientation: Orientation) -> (r: PositionMap)
    requires
        g.wf(),
    ensures
        r.positions@.len() == g.node_count,
        forall|i: int|
            0 <= i < g.node_count ==> crate::position::in_unit_square(#[trigger] r.positions@[i]),
        exists|order: Seq<usize>|
            #[trigger] degree_order(order, out_degs_of(*g)) && ({
                let hg = hierarchy_grid(*g, order);
                hierarchical_formula(hg.0.rows, hg.0.cols, hg.1, hg.2, orientation, r.positions@)
            }),
{
    let (rows, cols, _tree, max_col, max_row) = hierarchy_assign(g);
    let r = normalize_positions(&rows, &cols, max_col, max_row, orientation);
    proof {
        let order = choose|order: Seq<usize>|
            #[trigger] degree_order(order, out_degs_of(*g)) && ({
                let hg = hierarchy_grid(*g, order);
                &&& rows@ == hg.0.rows
                &&& cols@ == hg.0.cols
                &&& _tree@ == hg.0.tree
                &&& max_col as int == hg.1
                &&& max_row as int == hg.2
            });
        let hg = hierarchy_grid(*g, order);
        assert(hierarchical_formula(
            hg.0.rows,
            hg.0.cols,
            hg.1,
            hg.2,
            orientation,
            r.positions@,
        ));
    }
    r
}

} // verus!
