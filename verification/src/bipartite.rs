//! Bipartite layout.
//!
//! Nodes are split into a Left and a Right side — either as given by the
//! caller, or discovered by a depth-first traversal that alternates sides by
//! traversal depth. Left nodes are placed on the vertical line x = 0.25,
//! Right nodes on x = 0.75, with the y-coordinates of each side evenly spaced
//! in encounter (index) order.
//!
//! The discovery traversal always produces a two-coloring, even for graphs
//! that are not bipartite (an odd cycle simply gets an inconsistent
//! coloring); no error is ever raised for such input. On an undirected
//! bipartite graph the discovered coloring is proper (see
//! [`lemma_discovered_sides_separate`]); on a directed graph callers that
//! depend on a faithful bipartition must supply it explicitly.

use crate::bitset::{bitset_bits, bitset_cap, bitset_contains, bitset_insert, bitset_new};
use crate::fixed::{QUARTER, THREE_QUARTERS, UNIT};
use crate::graph::{GraphData, MAX_NODES};
use crate::hierarchical::{adj_of, lists_view};
use crate::position::{Pos, PositionMap};
use vstd::prelude::*;
use vstd::set::{axiom_set_insert_finite, axiom_set_insert_len};
use vstd::set_lib::{lemma_int_range, lemma_len_subset, set_int_range};

verus! {

/// The arguments under which one traversal step is meaningful: a bounded
/// visited set and in-range stack entries.
pub open spec fn dfs_pre(adj: Seq<Seq<usize>>, visited: Set<int>, stack: Seq<(usize, usize)>) -> bool {
    &&& visited.finite()
    &&& visited.subset_of(set_int_range(0, adj.len() as int))
    &&& forall|k: int| 0 <= k < stack.len() ==> (#[trigger] stack[k]).0 < adj.len()
}

/// The stack entries one visit pushes: the first `j` neighbors that are
/// still unvisited, each paired with the next traversal layer, in list
/// order.
pub open spec fn frontier(nbs: Seq<usize>, visited: Set<int>, layer: usize, j: int) -> Seq<
    (usize, usize),
>
    decreases j,
{
    if j <= 0 {
        Seq::empty()
    } else {
        let pre = frontier(nbs, visited, layer, j - 1);
        if !visited.contains(nbs[j - 1] as int) {
            pre.push((nbs[j - 1], layer))
        } else {
            pre
        }
    }
}

/// What the traversal's inner loop computes, at the spec level: entries pop
/// from the stack's end; an already-visited entry is dropped, and a fresh
/// one is marked visited, takes the side of its layer's parity (even is
/// Left), and pushes its unvisited neighbors one layer deeper. Returns the
/// sides and visited set when the stack runs dry.
pub open spec fn dfs_run(
    adj: Seq<Seq<usize>>,
    sides: Seq<bool>,
    visited: Set<int>,
    stack: Seq<(usize, usize)>,
) -> (Seq<bool>, Set<int>)
    decreases adj.len() - visited.len(), stack.len(),
        when dfs_pre(adj, visited, stack)
{
    if stack.len() == 0 {
        (sides, visited)
    } else {
        let cur = stack.last().0 as int;
        let layer = stack.last().1;
        let rest = stack.drop_last();
        if visited.contains(cur) {
            dfs_run(adj, sides, visited, rest)
        } else {
            let v2 = visited.insert(cur);
            proof {
                lemma_int_range(0, adj.len() as int);
                axiom_set_insert_finite(visited, cur);
                axiom_set_insert_len(visited, cur);
                lemma_len_subset(v2, set_int_range(0, adj.len() as int));
            }
            dfs_run(
                adj,
                sides.update(cur, layer % 2 == 0),
                v2,
                rest + frontier(adj[cur], v2, (layer + 1) as usize, adj[cur].len() as int),
            )
        }
    }
}

/// The traversal's outer loop, at the spec level: every node of `outer ..`
/// that is still unvisited starts a depth-first run at layer 0.
pub open spec fn discover_pass(
    adj: Seq<Seq<usize>>,
    sides: Seq<bool>,
    visited: Set<int>,
    outer: int,
) -> Seq<bool>
    decreases adj.len() - outer,
{
    if outer < 0 || outer >= adj.len() {
        sides
    } else if visited.contains(outer) {
        discover_pass(adj, sides, visited, outer + 1)
    } else {
        let r = dfs_run(adj, sides, visited, seq![(outer as usize, 0usize)]);
        discover_pass(adj, r.0, r.1, outer + 1)
    }
}

/// The side assignment the traversal discovers for a graph, starting from
/// all-Left sides and nothing visited. [`discover_partition`] returns
/// exactly this value, so the depth-parity coloring — in particular that
/// each component's first-reached node lands Left — is pinned by the graph
/// alone.
pub open spec fn discovered_sides(g: GraphData) -> Seq<bool> {
    discover_pass(
        adj_of(g),
        Seq::new(g.node_count as nat, |i: int| true),
        Set::empty(),
        0,
    )
}

/// Whether `c` is a proper two-coloring of the adjacency lists: every
/// listed neighbor takes the other color. A graph is bipartite exactly when
/// such a coloring exists; a self-loop admits none.
pub open spec fn proper_on_adj(c: Seq<bool>, adj: Seq<Seq<usize>>) -> bool {
    forall|v: int, k: int|
        0 <= v < adj.len() && 0 <= k < adj[v].len() ==> c[(#[trigger] adj[v][k]) as int] != c[v]
}

/// Whether the adjacency relation is symmetric, as an undirected graph's is.
pub open spec fn sym_adj(adj: Seq<Seq<usize>>) -> bool {
    forall|v: int, w: int|
        0 <= v < adj.len() && 0 <= w < adj.len() ==> ((#[trigger] adj[v].contains(
            w as usize,
        )) <==> adj[w].contains(v as usize))
}

/// A coloring that separates every edge's endpoints is proper on the
/// neighbor lists, whichever way the edges are read.
proof fn lemma_proper_edges_to_adj(edges: Seq<(usize, usize)>, directed: bool, c: Seq<bool>, v: int)
    requires
        forall|e: int|
            0 <= e < edges.len() ==> c[(#[trigger] edges[e]).0 as int] != c[edges[e].1 as int],
    ensures
        forall|j: int|
            0 <= j < crate::graph::neighbors_of(edges, directed, v).len() ==> c[(
            #[trigger] crate::graph::neighbors_of(edges, directed, v)[j]) as int] != c[v],
    decreases edges.len(),
{
    if edges.len() > 0 {
        assert(forall|k: int|
            0 <= k < edges.drop_last().len() ==> #[trigger] edges.drop_last()[k] == edges[k]);
        lemma_proper_edges_to_adj(edges.drop_last(), directed, c, v);
        let rest = crate::graph::neighbors_of(edges.drop_last(), directed, v);
        let full = crate::graph::neighbors_of(edges, directed, v);
        assert(edges.last() == edges[edges.len() - 1]);
        assert forall|j: int| 0 <= j < full.len() implies c[(#[trigger] full[j]) as int] != c[v] by {
            if j < rest.len() {
                assert(full[j] == rest[j]);
            }
        }
    }
}

/// An undirected graph's neighbor lists are symmetric: `w` appears beside
/// `v` exactly when `v` appears beside `w`.
proof fn lemma_undirected_sym(edges: Seq<(usize, usize)>, v: int, w: int)
    requires
        0 <= v <= usize::MAX,
        0 <= w <= usize::MAX,
    ensures
        crate::graph::neighbors_of(edges, false, v).contains(w as usize)
            <==> crate::graph::neighbors_of(edges, false, w).contains(v as usize),
    decreases edges.len(),
{
    if edges.len() > 0 {
        lemma_undirected_sym(edges.drop_last(), v, w);
        let e = edges.last();
        let rv = crate::graph::neighbors_of(edges.drop_last(), false, v);
        let rw = crate::graph::neighbors_of(edges.drop_last(), false, w);
        let fv = crate::graph::neighbors_of(edges, false, v);
        let fw = crate::graph::neighbors_of(edges, false, w);
        assert(fv == if e.1 == v && e.0 != v {
            (if e.0 == v {
                rv.push(e.1)
            } else {
                rv
            }).push(e.0)
        } else {
            if e.0 == v {
                rv.push(e.1)
            } else {
                rv
            }
        });
        assert(fw == if e.1 == w && e.0 != w {
            (if e.0 == w {
                rw.push(e.1)
            } else {
                rw
            }).push(e.0)
        } else {
            if e.0 == w {
                rw.push(e.1)
            } else {
                rw
            }
        });
        // Contains-through-push reduces both sides to the hypothesis.
        vstd::seq_lib::lemma_seq_contains_after_push(rv, e.1, w as usize);
        vstd::seq_lib::lemma_seq_contains_after_push(rv.push(e.1), e.0, w as usize);
        vstd::seq_lib::lemma_seq_contains_after_push(rv, e.0, w as usize);
        vstd::seq_lib::lemma_seq_contains_after_push(rw, e.1, v as usize);
        vstd::seq_lib::lemma_seq_contains_after_push(rw.push(e.1), e.0, v as usize);
        vstd::seq_lib::lemma_seq_contains_after_push(rw, e.0, v as usize);
    }
}

/// The entries the frontier holds: each is an unvisited neighbor paired
/// with the given layer, and every unvisited neighbor among the first `j`
/// appears in it.
proof fn lemma_frontier_facts(nbs: Seq<usize>, visited: Set<int>, layer: usize, j: int)
    ensures
        ({
            let f = frontier(nbs, visited, layer, j);
            &&& forall|k: int|
                0 <= k < f.len() ==> (#[trigger] f[k]).1 == layer && exists|t: int|
                    0 <= t < j && nbs[t] == f[k].0 && !visited.contains(nbs[t] as int)
            &&& forall|t: int|
                0 <= t < j ==> visited.contains((#[trigger] nbs[t]) as int) || exists|k: int|
                    0 <= k < f.len() && (#[trigger] f[k]).0 == nbs[t]
        }),
    decreases j,
{
    if j > 0 {
        lemma_frontier_facts(nbs, visited, layer, j - 1);
        let pre = frontier(nbs, visited, layer, j - 1);
        let f = frontier(nbs, visited, layer, j);
        assert forall|t: int|
            0 <= t < j implies visited.contains((#[trigger] nbs[t]) as int) || exists|k: int|
            0 <= k < f.len() && (#[trigger] f[k]).0 == nbs[t] by {
            if !visited.contains(nbs[t] as int) {
                if t == j - 1 {
                    assert(f[f.len() - 1].0 == nbs[t]);
                } else {
                    let k = choose|k: int| 0 <= k < pre.len() && (#[trigger] pre[k]).0 == nbs[t];
                    assert(f[k].0 == nbs[t]);
                }
            }
        }
    }
}

/// One fresh visit keeps the traversal's invariants: after marking the
/// popped node and pushing its frontier, the stack is still in range, its
/// layers still bounded, its parities still encode the coloring, and the
/// visited set is still closed up to the stack.
proof fn lemma_dfs_step(
    adj: Seq<Seq<usize>>,
    visited: Set<int>,
    stack: Seq<(usize, usize)>,
    c: Seq<bool>,
    rootc: bool,
)
    requires
        dfs_pre(adj, visited, stack),
        crate::hierarchical::adj_ok(adj),
        adj.len() <= crate::graph::MAX_NODES,
        c.len() == adj.len(),
        proper_on_adj(c, adj),
        stack.len() > 0,
        !visited.contains(stack.last().0 as int),
        forall|k: int| 0 <= k < stack.len() ==> (#[trigger] stack[k]).1 <= visited.len(),
        forall|k: int|
            0 <= k < stack.len() ==> ((c[(#[trigger] stack[k]).0 as int] == rootc) <==> (stack[k].1
                % 2 == 0)),
        forall|v: int, k: int|
            visited.contains(v) && 0 <= v < adj.len() && 0 <= k < adj[v].len() ==> visited.contains(
                (#[trigger] adj[v][k]) as int,
            ) || exists|t: int| 0 <= t < stack.len() && (#[trigger] stack[t]).0 == adj[v][k],
    ensures
        ({
            let cur = stack.last().0 as int;
            let layer = stack.last().1;
            let v2 = visited.insert(cur);
            let fr = frontier(adj[cur], v2, (layer + 1) as usize, adj[cur].len() as int);
            let st2 = stack.drop_last() + fr;
            &&& dfs_pre(adj, v2, st2)
            &&& v2.len() == visited.len() + 1
            &&& forall|k: int| 0 <= k < st2.len() ==> (#[trigger] st2[k]).1 <= v2.len()
            &&& forall|k: int|
                0 <= k < st2.len() ==> ((c[(#[trigger] st2[k]).0 as int] == rootc) <==> (st2[k].1
                    % 2 == 0))
            &&& forall|v: int, k: int|
                v2.contains(v) && 0 <= v < adj.len() && 0 <= k < adj[v].len() ==> v2.contains(
                    (#[trigger] adj[v][k]) as int,
                ) || exists|t: int| 0 <= t < st2.len() && (#[trigger] st2[t]).0 == adj[v][k]
        }),
{
    lemma_int_range(0, adj.len() as int);
    lemma_len_subset(visited, set_int_range(0, adj.len() as int));
    let cur = stack.last().0 as int;
    let layer = stack.last().1;
    let rest = stack.drop_last();
    assert(stack.last() == stack[stack.len() - 1]);
    let v2 = visited.insert(cur);
    axiom_set_insert_finite(visited, cur);
    axiom_set_insert_len(visited, cur);
    let fr = frontier(adj[cur], v2, (layer + 1) as usize, adj[cur].len() as int);
    let st2 = rest + fr;
    lemma_frontier_facts(adj[cur], v2, (layer + 1) as usize, adj[cur].len() as int);
    assert forall|k: int| 0 <= k < st2.len() implies (#[trigger] st2[k]).0 < adj.len()
        && st2[k].1 <= v2.len() && ((c[st2[k].0 as int] == rootc) <==> (st2[k].1 % 2 == 0)) by {
        if k < rest.len() {
            assert(st2[k] == stack[k]);
        } else {
            assert(st2[k] == fr[k - rest.len()]);
            let t = choose|t: int|
                0 <= t < adj[cur].len() && adj[cur][t] == fr[k - rest.len()].0 && !v2.contains(
                    adj[cur][t] as int,
                );
            assert(c[adj[cur][t] as int] != c[cur]);
        }
    }
    assert forall|v: int, k: int|
        v2.contains(v) && 0 <= v < adj.len() && 0 <= k < adj[v].len() implies v2.contains(
        (#[trigger] adj[v][k]) as int,
    ) || exists|t: int| 0 <= t < st2.len() && (#[trigger] st2[t]).0 == adj[v][k] by {
        if v == cur {
            if !v2.contains(adj[cur][k] as int) {
                let t = choose|t: int| 0 <= t < fr.len() && (#[trigger] fr[t]).0 == adj[cur][k];
                assert(st2[rest.len() + t].0 == adj[cur][k]);
            }
        } else {
            if !visited.contains(adj[v][k] as int) {
                let t = choose|t: int|
                    0 <= t < stack.len() && (#[trigger] stack[t]).0 == adj[v][k];
                if t < rest.len() {
                    assert(st2[t].0 == adj[v][k]);
                } else {
                    assert(stack[t].0 as int == cur);
                }
            }
        }
    }
}

/// One traversal run colors what it reaches by layer parity: every node it
/// newly visits takes Left exactly when its color agrees with the run's
/// root color, prior sides are left alone, everything it was asked to visit
/// is visited, and the visited set ends closed under adjacency.
proof fn lemma_dfs_run_proper(
    adj: Seq<Seq<usize>>,
    sides: Seq<bool>,
    visited: Set<int>,
    stack: Seq<(usize, usize)>,
    c: Seq<bool>,
    rootc: bool,
)
    requires
        dfs_pre(adj, visited, stack),
        crate::hierarchical::adj_ok(adj),
        adj.len() <= crate::graph::MAX_NODES,
        c.len() == adj.len(),
        sides.len() == adj.len(),
        proper_on_adj(c, adj),
        forall|k: int| 0 <= k < stack.len() ==> (#[trigger] stack[k]).1 <= visited.len(),
        forall|k: int|
            0 <= k < stack.len() ==> ((c[(#[trigger] stack[k]).0 as int] == rootc) <==> (stack[k].1
                % 2 == 0)),
        forall|v: int, k: int|
            visited.contains(v) && 0 <= v < adj.len() && 0 <= k < adj[v].len() ==> visited.contains(
                (#[trigger] adj[v][k]) as int,
            ) || exists|t: int| 0 <= t < stack.len() && (#[trigger] stack[t]).0 == adj[v][k],
    ensures
        ({
            let r = dfs_run(adj, sides, visited, stack);
            &&& r.1.finite()
            &&& visited.subset_of(r.1)
            &&& r.1.subset_of(set_int_range(0, adj.len() as int))
            &&& r.0.len() == adj.len()
            &&& forall|v: int|
                0 <= v < adj.len() && !(r.1.contains(v) && !visited.contains(v)) ==> r.0[v]
                    == sides[v]
            &&& forall|v: int|
                r.1.contains(v) && !visited.contains(v) ==> r.0[v] == (c[v] == rootc)
            &&& forall|k: int| 0 <= k < stack.len() ==> r.1.contains((#[trigger] stack[k]).0 as int)
            &&& forall|v: int, k: int|
                r.1.contains(v) && 0 <= v < adj.len() && 0 <= k < adj[v].len() ==> r.1.contains(
                    (#[trigger] adj[v][k]) as int,
                )
        }),
    decreases adj.len() - visited.len(), stack.len(),
{
    lemma_int_range(0, adj.len() as int);
    lemma_len_subset(visited, set_int_range(0, adj.len() as int));
    if stack.len() == 0 {
    } else {
        let cur = stack.last().0 as int;
        let layer = stack.last().1;
        let rest = stack.drop_last();
        assert(stack.last() == stack[stack.len() - 1]);
        if visited.contains(cur) {
            assert forall|v: int, k: int|
                visited.contains(v) && 0 <= v < adj.len() && 0 <= k
                    < adj[v].len() implies visited.contains((#[trigger] adj[v][k]) as int)
                || exists|t: int| 0 <= t < rest.len() && (#[trigger] rest[t]).0 == adj[v][k] by {
                if !visited.contains(adj[v][k] as int) {
                    let t = choose|t: int|
                        0 <= t < stack.len() && (#[trigger] stack[t]).0 == adj[v][k];
                    assert(t < rest.len());
                    assert(rest[t].0 == adj[v][k]);
                }
            }
            lemma_dfs_run_proper(adj, sides, visited, rest, c, rootc);
            let r = dfs_run(adj, sides, visited, rest);
            assert forall|k: int|
                0 <= k < stack.len() implies r.1.contains((#[trigger] stack[k]).0 as int) by {
                if k < rest.len() {
                    assert(rest[k] == stack[k]);
                } else {
                    assert(stack[k] == stack.last());
                }
            }
        } else {
            lemma_dfs_step(adj, visited, stack, c, rootc);
            let v2 = visited.insert(cur);
            axiom_set_insert_finite(visited, cur);
            axiom_set_insert_len(visited, cur);
            lemma_len_subset(v2, set_int_range(0, adj.len() as int));
            let s2 = sides.update(cur, layer % 2 == 0);
            let fr = frontier(adj[cur], v2, (layer + 1) as usize, adj[cur].len() as int);
            let st2 = rest + fr;
            lemma_dfs_run_proper(adj, s2, v2, st2, c, rootc);
            let r = dfs_run(adj, s2, v2, st2);
            assert(dfs_run(adj, sides, visited, stack) == r);
            assert forall|k: int|
                0 <= k < stack.len() implies r.1.contains((#[trigger] stack[k]).0 as int) by {
                if k < rest.len() {
                    assert(st2[k] == stack[k]);
                } else {
                    assert(stack[k] == stack.last());
                    assert(v2.contains(cur) && v2.subset_of(r.1));
                }
            }
            assert forall|v: int|
                0 <= v < adj.len() && !(r.1.contains(v) && !visited.contains(v)) implies r.0[v]
                == sides[v] by {
                assert(!(r.1.contains(v) && !v2.contains(v)) ==> r.0[v] == s2[v]);
                assert(v != cur);
            }
            assert forall|v: int|
                r.1.contains(v) && !visited.contains(v) implies r.0[v] == (c[v] == rootc) by {
                if v == cur {
                    assert(r.0[cur] == s2[cur]);
                    assert(s2[cur] == (layer % 2 == 0));
                } else {
                    assert(r.1.contains(v) && !v2.contains(v));
                }
            }
        }
    }
}

/// The outer traversal, run over every start node from `outer` on: for
/// every node it has reached or will reach, a listed adjacency pair ends on
/// equal sides exactly when the coloring gives its ends equal colors.
proof fn lemma_discover_pass_proper(
    adj: Seq<Seq<usize>>,
    sides: Seq<bool>,
    visited: Set<int>,
    outer: int,
    c: Seq<bool>,
)
    requires
        crate::hierarchical::adj_ok(adj),
        adj.len() <= crate::graph::MAX_NODES,
        sym_adj(adj),
        proper_on_adj(c, adj),
        c.len() == adj.len(),
        sides.len() == adj.len(),
        0 <= outer,
        visited.finite(),
        visited.subset_of(set_int_range(0, adj.len() as int)),
        forall|v: int, k: int|
            visited.contains(v) && 0 <= v < adj.len() && 0 <= k < adj[v].len() ==> visited.contains(
                (#[trigger] adj[v][k]) as int,
            ),
        forall|v: int, k: int|
            visited.contains(v) && 0 <= v < adj.len() && 0 <= k < adj[v].len() ==> ((sides[v]
                == sides[(#[trigger] adj[v][k]) as int]) <==> (c[v] == c[adj[v][k] as int])),
    ensures
        ({
            let r = discover_pass(adj, sides, visited, outer);
            &&& r.len() == adj.len()
            &&& forall|u: int, k: int|
                (visited.contains(u) || outer <= u < adj.len()) && 0 <= u < adj.len() && 0 <= k
                    < adj[u].len() ==> ((r[u] == r[(#[trigger] adj[u][k]) as int]) <==> (c[u] == c[
                    adj[u][k] as int]))
        }),
    decreases adj.len() - outer,
{
    if outer < 0 || outer >= adj.len() {
    } else if visited.contains(outer) {
        lemma_discover_pass_proper(adj, sides, visited, outer + 1, c);
    } else {
        let rootc = c[outer];
        let st0: Seq<(usize, usize)> = seq![(outer as usize, 0usize)];
        assert(st0[0] == (outer as usize, 0usize) && st0.len() == 1);
        lemma_dfs_run_proper(adj, sides, visited, st0, c, rootc);
        let r1 = dfs_run(adj, sides, visited, st0);
        assert forall|v: int, k: int|
            r1.1.contains(v) && 0 <= v < adj.len() && 0 <= k < adj[v].len() implies ((r1.0[v]
            == r1.0[(#[trigger] adj[v][k]) as int]) <==> (c[v] == c[adj[v][k] as int])) by {
            let w = adj[v][k] as int;
            assert(r1.1.contains(w));
            assert(adj[v].contains(adj[v][k]));
            assert(adj[w].contains(v as usize));
            let k2 = choose|k2: int| 0 <= k2 < adj[w].len() && (#[trigger] adj[w][k2]) == v as usize;
            if visited.contains(v) && visited.contains(w) {
                assert(r1.0[v] == sides[v] && r1.0[w] == sides[w]);
            } else if !visited.contains(v) && !visited.contains(w) {
                assert(r1.0[v] == (c[v] == rootc) && r1.0[w] == (c[w] == rootc));
            } else if visited.contains(v) {
                assert(visited.contains(adj[v][k] as int));
                assert(false);
            } else {
                assert(visited.contains(adj[w][k2] as int));
                assert(false);
            }
        }
        lemma_discover_pass_proper(adj, r1.0, r1.1, outer + 1, c);
        assert(r1.1.contains(outer));
    }
}

/// Law: on an undirected graph that admits a proper two-coloring — a
/// bipartite graph — the discovered side assignment separates the two ends
/// of every listed neighbor pair: any traversal-parity coloring is proper
/// there. On a directed graph this can fail even when the edge relation is
/// bipartite, because the traversal follows edge directions and two runs
/// may color a shared edge's ends independently.
pub proof fn lemma_discovered_sides_separate(g: GraphData, c: Seq<bool>, u: int, k: int)
    requires
        g.wf(),
        !g.directed,
        c.len() == g.node_count,
        forall|e: int|
            0 <= e < g.edges@.len() ==> c[(#[trigger] g.edges@[e]).0 as int] != c[g.edges@[e].1 as int],
        0 <= u < g.node_count,
        0 <= k < adj_of(g)[u].len(),
    ensures
        discovered_sides(g)[u] != discovered_sides(g)[adj_of(g)[u][k] as int],
{
    let adj = adj_of(g);
    assert forall|v: int, j: int|
        0 <= v < adj.len() && 0 <= j < adj[v].len() implies c[(#[trigger] adj[v][j]) as int] != c[
    v] by {
        lemma_proper_edges_to_adj(g.edges@, g.directed, c, v);
    }
    assert forall|v: int, j: int|
        0 <= v < adj.len() && 0 <= j < adj[v].len() implies (#[trigger] adj[v][j]) < adj.len() by {
        crate::graph::lemma_neighbors_valid(g, v);
    }
    assert forall|v: int, w: int|
        0 <= v < adj.len() && 0 <= w < adj.len() implies ((#[trigger] adj[v].contains(w as usize))
        <==> adj[w].contains(v as usize)) by {
        lemma_undirected_sym(g.edges@, v, w);
    }
    lemma_discover_pass_proper(
        adj,
        Seq::new(g.node_count as nat, |i: int| true),
        Set::empty(),
        0,
        c,
    );
    assert(c[u] != c[adj[u][k] as int]);
}

/// How many of the first `upto` entries of `sides` equal `side`.
pub open spec fn side_count(sides: Seq<bool>, side: bool, upto: int) -> int
    decreases upto,
{
    if upto <= 0 {
        0
    } else {
        side_count(sides, side, upto - 1) + if sides[upto - 1] == side {
            1int
        } else {
            0int
        }
    }
}

/// The x-coordinate of a side: 0.25 for Left, 0.75 for Right.
pub open spec fn side_x(left: bool) -> int {
    if left {
        QUARTER as int
    } else {
        THREE_QUARTERS as int
    }
}

/// The y-coordinate of the node of rank `rank` on a side holding `cnt`
/// nodes: ranks spaced by 1/(cnt-1), so that a side spans [0, 1]; a side of
/// one node sits at y = 0.
pub open spec fn side_y(rank: int, cnt: int) -> int {
    if cnt > 1 {
        rank * (UNIT as int) / (cnt - 1)
    } else {
        0
    }
}

/// What the bipartite layout promises: each node sits at the x of its side
/// and at the y given by its rank within that side.
pub open spec fn bipartite_formula(sides: Seq<bool>, ps: Seq<Pos>) -> bool {
    &&& ps.len() == sides.len()
    &&& forall|i: int|
        0 <= i < ps.len() ==> (#[trigger] ps[i]).x == side_x(sides[i]) && ps[i].y == side_y(
            side_count(sides, sides[i], i),
            side_count(sides, sides[i], sides.len() as int),
        )
}

/// The running count never exceeds the number of entries counted.
proof fn lemma_side_count_le(sides: Seq<bool>, side: bool, upto: int)
    requires
        0 <= upto,
    ensures
        side_count(sides, side, upto) <= upto,
        0 <= side_count(sides, side, upto),
    decreases upto,
{
    if upto > 0 {
        lemma_side_count_le(sides, side, upto - 1);
    }
}

/// Counting is monotone, and strictly so across an entry of the counted side.
pub proof fn lemma_side_count_mono(sides: Seq<bool>, side: bool, i: int, j: int)
    requires
        0 <= i <= j,
    ensures
        side_count(sides, side, i) <= side_count(sides, side, j),
        i < j && sides[i] == side ==> side_count(sides, side, i) < side_count(sides, side, j),
    decreases j - i,
{
    if i < j {
        lemma_side_count_mono(sides, side, i + 1, j);
    }
}

/// Law: under the bipartite placement, every node sits at x = 0.25 or
/// x = 0.75 by its side, and within one side the y-coordinates strictly
/// increase in index order and stay inside [0, 1]. Needs at most `UNIT`
/// nodes, else two ranks could collapse onto one fixed-point y.
pub proof fn lemma_bipartite_y_strictly_increasing(sides: Seq<bool>, ps: Seq<Pos>, i: int, j: int)
    requires
        bipartite_formula(sides, ps),
        sides.len() <= UNIT,
        0 <= i < j < ps.len(),
        sides[i] == sides[j],
    ensures
        ps[i].y < ps[j].y,
        0 <= ps[i].y <= UNIT,
        0 <= ps[j].y <= UNIT,
        ps[i].x == side_x(sides[i]),
{
    let side = sides[i];
    let len = sides.len() as int;
    let cnt = side_count(sides, side, len);
    let ri = side_count(sides, side, i);
    let rj = side_count(sides, side, j);
    lemma_side_count_le(sides, side, len);
    lemma_side_count_mono(sides, side, 0, i);
    lemma_side_count_mono(sides, side, i, j);
    lemma_side_count_mono(sides, side, j, len);
    // Both i and j lie on `side`, so cnt >= 2 and the ranks are distinct.
    assert(ri < rj < cnt);
    let u = UNIT as int;
    let d = cnt - 1;
    assert(1 <= d <= u);
    assert(0 <= ri * u) by (nonlinear_arith)
        requires 0 <= ri, 0 < u;
    vstd::arithmetic::div_mod::lemma_div_pos_is_pos(ri * u, d);
    vstd::arithmetic::div_mod::lemma_div_pos_is_pos(rj * u, d);
    // One more rank adds at least one denominator to the numerator.
    assert((ri + 1) * u == ri * u + u) by (nonlinear_arith);
    vstd::arithmetic::div_mod::lemma_hoist_over_denominator(ri * u, 1, d as nat);
    assert((ri * u + d) / d == ri * u / d + 1);
    vstd::arithmetic::div_mod::lemma_div_is_ordered(ri * u + d, rj * u, d);
    assert(rj * u >= ri * u + d) by (nonlinear_arith)
        requires rj >= ri + 1, d <= u, 0 <= ri, 0 < d;
    // Ranks stay at most cnt - 1, so y stays at most UNIT.
    assert(rj * u <= d * u) by (nonlinear_arith)
        requires rj <= d, 0 < u;
    vstd::arithmetic::div_mod::lemma_div_is_ordered(rj * u, d * u, d);
    vstd::arithmetic::div_mod::lemma_div_by_multiple(u, d);
    vstd::arithmetic::div_mod::lemma_div_is_ordered(ri * u, rj * u, d);
    assert(ri * u <= rj * u) by (nonlinear_arith)
        requires ri <= rj, 0 < u;
}

/// Law: a side holding more than one node spans the full [0, 1] range: its
/// rank-0 node sits at y = 0 and its top-rank node at y = UNIT.
pub proof fn lemma_bipartite_side_span(sides: Seq<bool>, ps: Seq<Pos>, i: int)
    requires
        bipartite_formula(sides, ps),
        0 <= i < ps.len(),
        side_count(sides, sides[i], sides.len() as int) > 1,
    ensures
        side_count(sides, sides[i], i) == 0 ==> ps[i].y == 0,
        side_count(sides, sides[i], i) == side_count(sides, sides[i], sides.len() as int) - 1
            ==> ps[i].y == UNIT,
{
    let side = sides[i];
    let len = sides.len() as int;
    let cnt = side_count(sides, side, len);
    let ri = side_count(sides, side, i);
    let u = UNIT as int;
    let d = cnt - 1;
    if ri == 0 {
        assert(0 * u == 0) by (nonlinear_arith);
        vstd::arithmetic::div_mod::lemma_div_of0(d);
    }
    if ri == d {
        vstd::arithmetic::div_mod::lemma_div_by_multiple(u, d);
        assert(d * u == u * d) by (nonlinear_arith);
    }
}

/// Places nodes given an explicit Left side: node `i` is Left exactly when
/// `is_left[i]` is true.
pub fn bipartite_positions(node_count: usize, is_left: &Vec<bool>) -> (r: PositionMap)
    requires
        is_left@.len() == node_count,
        node_count <= MAX_NODES,
    ensures
        bipartite_formula(is_left@, r.positions@),
        forall|i: int|
            0 <= i < node_count ==> crate::position::in_unit_square(#[trigger] r.positions@[i]),
{
    let ghost sides = is_left@;
    let n = node_count;
    // First pass: size of each side.
    let mut lt: usize = 0;
    let mut rt: usize = 0;
    let mut i: usize = 0;
    while i < n
        invariant
            i <= n == is_left@.len(),
            lt == side_count(sides, true, i as int),
            rt == side_count(sides, false, i as int),
            lt + rt == i,
            sides == is_left@,
        decreases n - i,
    {
        if is_left[i] {
            lt += 1;
        } else {
            rt += 1;
        }
        i += 1;
    }
    // Second pass: place each node by its rank within its side.
    let mut ps: Vec<Pos> = Vec::new();
    let mut li: usize = 0;
    let mut ri: usize = 0;
    let mut i: usize = 0;
    while i < n
        invariant
            i <= n == is_left@.len() && n <= MAX_NODES,
            sides == is_left@,
            lt == side_count(sides, true, n as int),
            rt == side_count(sides, false, n as int),
            lt + rt == n,
            li == side_count(sides, true, i as int),
            ri == side_count(sides, false, i as int),
            li + ri == i,
            ps@.len() == i,
            forall|j: int|
                0 <= j < i ==> (#[trigger] ps@[j]).x == side_x(sides[j]) && ps@[j].y == side_y(
                    side_count(sides, sides[j], j),
                    side_count(sides, sides[j], n as int),
                ),
            forall|j: int| 0 <= j < i ==> crate::position::in_unit_square(#[trigger] ps@[j]),
        decreases n - i,
    {
        let left = is_left[i];
        let (rank, cnt) = if left {
            (li, lt)
        } else {
            (ri, rt)
        };
        proof {
            lemma_side_count_mono(sides, left, i as int, n as int);
        }
        let y: i64 = if cnt > 1 {
            proof {
                vstd::arithmetic::div_mod::lemma_div_nonincreasing(
                    (rank as i64) * UNIT,
                    (cnt - 1) as int,
                );
                vstd::arithmetic::div_mod::lemma_div_pos_is_pos(
                    (rank as i64) * UNIT,
                    (cnt - 1) as int,
                );
                // The rank stays below the side size, so y stays within UNIT.
                vstd::arithmetic::mul::lemma_mul_inequality(
                    rank as int,
                    (cnt - 1) as int,
                    UNIT as int,
                );
                vstd::arithmetic::div_mod::lemma_div_is_ordered(
                    (rank as int) * (UNIT as int),
                    ((cnt - 1) as int) * (UNIT as int),
                    (cnt - 1) as int,
                );
                vstd::arithmetic::div_mod::lemma_div_multiples_vanish(
                    UNIT as int,
                    (cnt - 1) as int,
                );
            }
            crate::fixed::mul_div(rank as i64, UNIT, (cnt - 1) as i64)
        } else {
            0
        };
        let x: i64 = if left {
            QUARTER
        } else {
            THREE_QUARTERS
        };
        ps.push(Pos { x, y });
        if left {
            li += 1;
        } else {
            ri += 1;
        }
        i += 1;
    }
    PositionMap { positions: ps }
}

/// Discovers a two-sided partition by depth-first traversal from every
/// unvisited node, alternating the side with the traversal depth: even depth
/// is Left, odd depth is Right. Every node is assigned a side; the result is
/// not checked for consistency with the edges.
pub fn discover_partition(g: &GraphData) -> (r: Vec<bool>)
    requires
        g.wf(),
    ensures
        r@.len() == g.node_count,
        r@ == discovered_sides(*g),
{
    let n = g.node_count;
    let adj = g.neighbor_lists();
    let ghost av = lists_view(adj@);
    proof {
        assert forall|vv: int| 0 <= vv < n implies #[trigger] av[vv] == adj_of(*g)[vv] by {
            assert(av[vv] == adj@[vv]@);
        }
        assert(av =~= adj_of(*g));
    }
    let mut sides: Vec<bool> = Vec::new();
    let mut i: usize = 0;
    while i < n
        invariant
            i <= n,
            sides@.len() == i,
            forall|w: int| 0 <= w < i ==> #[trigger] sides@[w] == true,
        decreases n - i,
    {
        sides.push(true);
        i += 1;
    }
    let mut visited = bitset_new(n);
    proof {
        lemma_int_range(0, n as int);
        assert(sides@ =~= Seq::new(g.node_count as nat, |i: int| true));
    }
    let mut stack: Vec<(usize, usize)> = Vec::new();
    let mut outer: usize = 0;
    while outer < n
        invariant
            g.wf(),
            outer <= n == g.node_count,
            sides@.len() == n,
            adj@.len() == n,
            av == lists_view(adj@),
            av.len() == n,
            forall|v: int|
                0 <= v < n ==> #[trigger] adj@[v]@ == crate::graph::neighbors_of(
                    g.edges@,
                    g.directed,
                    v,
                ),
            bitset_cap(visited) == n,
            bitset_bits(visited).finite(),
            bitset_bits(visited).subset_of(set_int_range(0, n as int)),
            stack@.len() == 0,
            discover_pass(av, sides@, bitset_bits(visited), outer as int) == discovered_sides(*g),
        decreases n - outer,
    {
        let ghost s0 = sides@;
        let ghost b0 = bitset_bits(visited);
        if !bitset_contains(&visited, outer) {
            stack.push((outer, 0));
            proof {
                assert(stack@ =~= seq![(outer, 0usize)]);
            }
            while stack.len() > 0
                invariant
                    g.wf(),
                    n == g.node_count,
                    outer < n,
                    sides@.len() == n,
                    adj@.len() == n,
                    av == lists_view(adj@),
                    av.len() == n,
                    s0.len() == n,
                    forall|v: int|
                        0 <= v < n ==> #[trigger] adj@[v]@ == crate::graph::neighbors_of(
                            g.edges@,
                            g.directed,
                            v,
                        ),
                    bitset_cap(visited) == n,
                    bitset_bits(visited).finite(),
                    bitset_bits(visited).subset_of(set_int_range(0, n as int)),
                    forall|k: int|
                        0 <= k < stack@.len() ==> (#[trigger] stack@[k]).0 < n && stack@[k].1
                            <= bitset_bits(visited).len(),
                    dfs_run(av, sides@, bitset_bits(visited), stack@) == dfs_run(
                        av,
                        s0,
                        b0,
                        seq![(outer, 0usize)],
                    ),
                decreases n - bitset_bits(visited).len(), stack@.len(),
            {
                proof {
                    lemma_int_range(0, n as int);
                    lemma_len_subset(bitset_bits(visited), set_int_range(0, n as int));
                }
                let ghost s_pre = sides@;
                let ghost b_pre = bitset_bits(visited);
                let ghost st_pre = stack@;
                let (cur, layer) = stack.pop().unwrap();
                let ghost st_rest = stack@;
                proof {
                    assert(st_rest =~= st_pre.drop_last());
                }
                if !bitset_contains(&visited, cur) {
                    proof {
                        vstd::set::axiom_set_insert_len(bitset_bits(visited), cur as int);
                        vstd::set::axiom_set_insert_finite(bitset_bits(visited), cur as int);
                    }
                    bitset_insert(&mut visited, cur);
                    proof {
                        lemma_len_subset(bitset_bits(visited), set_int_range(0, n as int));
                    }
                    sides[cur] = layer % 2 == 0;
                    let ghost b_mid = bitset_bits(visited);
                    let ghost s_mid = sides@;
                    let nbs = &adj[cur];
                    proof {
                        crate::graph::lemma_neighbors_valid(*g, cur as int);
                        assert(av[cur as int] == adj@[cur as int]@);
                    }
                    let mut j: usize = 0;
                    while j < nbs.len()
                        invariant
                            j <= nbs@.len(),
                            n == g.node_count,
                            cur < n,
                            nbs@ == crate::graph::neighbors_of(g.edges@, g.directed, cur as int),
                            nbs@ == av[cur as int],
                            av.len() == n,
                            forall|q: int| 0 <= q < nbs@.len() ==> #[trigger] nbs@[q] < n,
                            layer + 1 <= bitset_bits(visited).len() <= n,
                            bitset_cap(visited) == n,
                            bitset_bits(visited) == b_mid,
                            sides@ == s_mid,
                            bitset_bits(visited).finite(),
                            bitset_bits(visited).subset_of(set_int_range(0, n as int)),
                            forall|k: int|
                                0 <= k < stack@.len() ==> (#[trigger] stack@[k]).0 < n
                                    && stack@[k].1 <= bitset_bits(visited).len(),
                            stack@ == st_rest + frontier(
                                av[cur as int],
                                b_mid,
                                (layer + 1) as usize,
                                j as int,
                            ),
                        decreases nbs@.len() - j,
                    {
                        let ghost st_j = stack@;
                        let nb = nbs[j];
                        if !bitset_contains(&visited, nb) {
                            stack.push((nb, layer + 1));
                        }
                        proof {
                            assert(stack@ =~= st_rest + frontier(
                                av[cur as int],
                                b_mid,
                                (layer + 1) as usize,
                                j + 1,
                            ));
                        }
                        j += 1;
                    }
                    proof {
                        assert(dfs_run(av, s_pre, b_pre, st_pre) == dfs_run(
                            av,
                            sides@,
                            bitset_bits(visited),
                            stack@,
                        ));
                    }
                } else {
                    proof {
                        assert(dfs_run(av, s_pre, b_pre, st_pre) == dfs_run(
                            av,
                            sides@,
                            bitset_bits(visited),
                            stack@,
                        ));
                    }
                }
                proof {
                    lemma_int_range(0, n as int);
                    lemma_len_subset(bitset_bits(visited), set_int_range(0, n as int));
                }
            }
            proof {
                assert(dfs_run(av, sides@, bitset_bits(visited), stack@) == (
                    sides@,
                    bitset_bits(visited),
                ));
                assert(discover_pass(av, s0, b0, outer as int) == discover_pass(
                    av,
                    sides@,
                    bitset_bits(visited),
                    outer + 1,
                ));
            }
        } else {
            proof {
                assert(discover_pass(av, s0, b0, outer as int) == discover_pass(
                    av,
                    sides@,
                    bitset_bits(visited),
                    outer + 1,
                ));
            }
        }
        outer += 1;
    }
    proof {
        assert(discover_pass(av, sides@, bitset_bits(visited), n as int) == sides@);
    }
    sides
}

/// Arranges nodes in a bipartite layout. With `Some(is_left)` the given side
/// assignment is used as-is; with `None` the side assignment discovered by
/// traversal is used (see [`discover_partition`] and [`discovered_sides`]).
pub fn bipartite_layout(g: &GraphData, left: Option<&Vec<bool>>) -> (r: PositionMap)
    requires
        g.wf(),
        left matches Some(l) ==> l@.len() == g.node_count,
    ensures
        r.positions@.len() == g.node_count,
        forall|i: int|
            0 <= i < g.node_count ==> crate::position::in_unit_square(#[trigger] r.positions@[i]),
        left matches Some(l) ==> bipartite_formula(l@, r.positions@),
        left is None ==> bipartite_formula(discovered_sides(*g), r.positions@),
    {
    match left {
        Some(l) => bipartite_positions(g.node_count, l),
        None => {
            let s = discover_partition(g);
            let r = bipartite_positions(g.node_count, &s);
            proof {
                assert(bipartite_formula(discovered_sides(*g), r.positions@));
            }
            r
        },
    }
}

} // verus!
