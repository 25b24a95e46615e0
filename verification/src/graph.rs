//! Dense, index-based graph data.
//!
//! The layout algorithms only ever read a graph through a small capability
//! set: the number of nodes, the list of edges with their endpoints, and
//! per-node neighbor lists. [`GraphData`] holds exactly that, with nodes
//! identified by dense indices in `[0, node_count)`. Any concrete graph
//! representation can be reduced to it once before a layout call.
//!
//! For a directed graph the neighbors of a node are the targets of its
//! outgoing edges; for an undirected graph every incident edge contributes a
//! neighbor in both directions. Neighbor lists follow edge insertion order,
//! which keeps layouts deterministic.

use vstd::prelude::*;

verus! {

/// Largest node count a graph may have.
pub const MAX_NODES: usize = 1_000_000;

/// Largest edge count a graph may have.
pub const MAX_EDGES: usize = 1_000_000;

/// A graph given by a dense node range and an edge list.
#[derive(Debug, Clone)]
pub struct GraphData {
    /// Number of nodes; nodes are the indices `0 .. node_count`.
    pub node_count: usize,
    /// Edges as `(source, target)` pairs of node indices.
    pub edges: Vec<(usize, usize)>,
    /// Whether edges are directed. An undirected edge connects both ways.
    pub directed: bool,
}

impl GraphData {
    /// Every edge endpoint is a valid node and the size limits hold.
    pub open spec fn wf(self) -> bool {
        &&& self.node_count <= MAX_NODES
        &&& self.edges@.len() <= MAX_EDGES
        &&& forall|k: int|
            0 <= k < self.edges@.len() ==> #[trigger] self.edges@[k].0 < self.node_count
                && self.edges@[k].1 < self.node_count
    }

    /// Builds a graph, checking that every endpoint names a valid node.
    pub fn new(node_count: usize, edges: Vec<(usize, usize)>, directed: bool) -> (r: Option<
        GraphData,
    >)
        ensures
            r is Some <==> (node_count <= MAX_NODES && edges@.len() <= MAX_EDGES && forall|k: int|
                0 <= k < edges@.len() ==> #[trigger] edges@[k].0 < node_count && edges@[k].1
                    < node_count),
            r is Some ==> {
                let g = r->Some_0;
                g.node_count == node_count && g.edges@ == edges@ && g.directed == directed && g.wf()
            },
    {
        if node_count > MAX_NODES || edges.len() > MAX_EDGES {
            return None;
        }
        let mut k: usize = 0;
        while k < edges.len()
            invariant
                k <= edges@.len(),
                forall|j: int|
                    0 <= j < k ==> #[trigger] edges@[j].0 < node_count && edges@[j].1 < node_count,
            decreases edges@.len() - k,
        {
            let (s, t) = edges[k];
            if s >= node_count || t >= node_count {
                return None;
            }
            k += 1;
        }
        Some(GraphData { node_count, edges, directed })
    }
}

/// The neighbor list of node `v`: targets of edges leaving `v`, and for an
/// undirected graph also sources of edges entering `v`, in edge order. A
/// self-loop contributes its node once.
pub open spec fn neighbors_of(edges: Seq<(usize, usize)>, directed: bool, v: int) -> Seq<usize>
    decreases edges.len(),
{
    if edges.len() == 0 {
        Seq::empty()
    } else {
        let rest = neighbors_of(edges.drop_last(), directed, v);
        let e = edges.last();
        let with_out = if e.0 == v {
            rest.push(e.1)
        } else {
            rest
        };
        if !directed && e.1 == v && e.0 != v {
            with_out.push(e.0)
        } else {
            with_out
        }
    }
}

/// The reverse-neighbor list of node `v`: sources of edges entering `v`, and
/// for an undirected graph also targets of edges leaving `v`, in edge order.
pub open spec fn in_neighbors_of(edges: Seq<(usize, usize)>, directed: bool, v: int) -> Seq<usize>
    decreases edges.len(),
{
    if edges.len() == 0 {
        Seq::empty()
    } else {
        let rest = in_neighbors_of(edges.drop_last(), directed, v);
        let e = edges.last();
        let with_in = if e.1 == v {
            rest.push(e.0)
        } else {
            rest
        };
        if !directed && e.0 == v && e.1 != v {
            with_in.push(e.1)
        } else {
            with_in
        }
    }
}

/// Every listed neighbor is a valid node of a well-formed graph.
pub proof fn lemma_neighbors_valid(g: GraphData, v: int)
    requires
        g.wf(),
    ensures
        forall|j: int|
            0 <= j < neighbors_of(g.edges@, g.directed, v).len() ==> #[trigger] neighbors_of(
                g.edges@,
                g.directed,
                v,
            )[j] < g.node_count,
{
    lemma_neighbors_valid_rec(g.edges@, g.directed, v, g.node_count as int);
}

proof fn lemma_neighbors_valid_rec(edges: Seq<(usize, usize)>, directed: bool, v: int, n: int)
    requires
        forall|k: int| 0 <= k < edges.len() ==> #[trigger] edges[k].0 < n && edges[k].1 < n,
    ensures
        forall|j: int|
            0 <= j < neighbors_of(edges, directed, v).len() ==> #[trigger] neighbors_of(
                edges,
                directed,
                v,
            )[j] < n,
    decreases edges.len(),
{
    if edges.len() > 0 {
        assert(edges.last() == edges[edges.len() - 1]);
        assert(forall|k: int|
            0 <= k < edges.drop_last().len() ==> #[trigger] edges.drop_last()[k] == edges[k]);
        lemma_neighbors_valid_rec(edges.drop_last(), directed, v, n);
        let rest = neighbors_of(edges.drop_last(), directed, v);
        let full = neighbors_of(edges, directed, v);
        assert forall|j: int| 0 <= j < full.len() implies #[trigger] full[j] < n by {
            if j < rest.len() {
                assert(full[j] == rest[j]);
            }
        }
    }
}

impl GraphData {
    /// Neighbor lists for every node, in edge insertion order.
    pub fn neighbor_lists(&self) -> (r: Vec<Vec<usize>>)
        requires
            self.wf(),
        ensures
            r@.len() == self.node_count,
            forall|v: int|
                0 <= v < self.node_count ==> #[trigger] r@[v]@ == neighbors_of(
                    self.edges@,
                    self.directed,
                    v,
                ),
    {
        let n = self.node_count;
        let mut r: Vec<Vec<usize>> = Vec::new();
        let mut v: usize = 0;
        while v < n
            invariant
                v <= n,
                r@.len() == v,
                forall|w: int| 0 <= w < v ==> #[trigger] r@[w]@ == Seq::<usize>::empty(),
            decreases n - v,
        {
            r.push(Vec::new());
            v += 1;
        }
        let mut k: usize = 0;
        while k < self.edges.len()
            invariant
                self.wf(),
                k <= self.edges@.len(),
                r@.len() == self.node_count,
                forall|w: int|
                    0 <= w < self.node_count ==> #[trigger] r@[w]@ == neighbors_of(
                        self.edges@.take(k as int),
                        self.directed,
                        w,
                    ),
            decreases self.edges@.len() - k,
        {
            let ghost pre = r@;
            let (s, t) = self.edges[k];
            r[s].push(t);
            if !self.directed && t != s {
                r[t].push(s);
            }
            proof {
                let taken = self.edges@.take(k + 1);
                assert(taken.drop_last() =~= self.edges@.take(k as int));
                assert(taken.last() == self.edges@[k as int]);
                assert forall|w: int| 0 <= w < self.node_count implies #[trigger] r@[w]@
                    == neighbors_of(taken, self.directed, w) by {
                    let e = self.edges@[k as int];
                    if w == s as int {
                        if !self.directed && e.1 == w && e.0 != w {
                            assert(r@[w]@ == pre[w]@.push(e.1).push(e.0));
                        } else {
                            assert(r@[w]@ == pre[w]@.push(e.1));
                        }
                    } else if !self.directed && w == t as int {
                        assert(r@[w]@ == pre[w]@.push(e.0));
                    } else {
                        assert(r@[w]@ == pre[w]@);
                    }
                }
            }
            k += 1;
        }
        proof {
            assert(self.edges@.take(self.edges@.len() as int) =~= self.edges@);
        }
        r
    }

    /// Number of edges entering each node (for an undirected graph, the
    /// number of incident edges).
    pub fn in_degrees(&self) -> (r: Vec<usize>)
        requires
            self.wf(),
        ensures
            r@.len() == self.node_count,
            forall|v: int|
                0 <= v < self.node_count ==> #[trigger] r@[v] == in_neighbors_of(
                    self.edges@,
                    self.directed,
                    v,
                ).len(),
    {
        let n = self.node_count;
        let mut r: Vec<usize> = Vec::new();
        let mut v: usize = 0;
        while v < n
            invariant
                v <= n,
                r@.len() == v,
                forall|w: int| 0 <= w < v ==> #[trigger] r@[w] == 0,
            decreases n - v,
        {
            r.push(0);
            v += 1;
        }
        let mut k: usize = 0;
        while k < self.edges.len()
            invariant
                self.wf(),
                k <= self.edges@.len(),
                r@.len() == self.node_count,
                forall|w: int|
                    0 <= w < self.node_count ==> #[trigger] r@[w] == in_neighbors_of(
                        self.edges@.take(k as int),
                        self.directed,
                        w,
                    ).len(),
            decreases self.edges@.len() - k,
        {
            let ghost pre = r@;
            let (s, t) = self.edges[k];
            proof {
                lemma_in_neighbors_len_bound(self.edges@.take(k as int), self.directed, t as int);
                if !self.directed {
                    lemma_in_neighbors_len_bound(
                        self.edges@.take(k as int),
                        self.directed,
                        s as int,
                    );
                }
            }
            let c_t = r[t];
            r[t] = c_t + 1;
            if !self.directed && s != t {
                let c_s = r[s];
                r[s] = c_s + 1;
            }
            proof {
                let taken = self.edges@.take(k + 1);
                assert(taken.drop_last() =~= self.edges@.take(k as int));
                assert(taken.last() == self.edges@[k as int]);
            }
            k += 1;
        }
        proof {
            assert(self.edges@.take(self.edges@.len() as int) =~= self.edges@);
        }
        r
    }
}

/// A node appears at most twice per edge, so the list is no longer than twice
/// the edge count.
proof fn lemma_in_neighbors_len_bound(edges: Seq<(usize, usize)>, directed: bool, v: int)
    ensures
        in_neighbors_of(edges, directed, v).len() <= 2 * edges.len(),
    decreases edges.len(),
{
    if edges.len() > 0 {
        lemma_in_neighbors_len_bound(edges.drop_last(), directed, v);
    }
}

} // verus!
