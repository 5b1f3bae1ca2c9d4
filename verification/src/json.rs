//! The JSON-shaped model of a graph: a list of nodes with their ids and
//! data, and a list of edges, optionally emitted once per undirected pair.
use crate::graph::{Graph, NodeId};
use crate::search::{has_edge_to, no_self_loops, rows_distinct, same_targets};
use vstd::prelude::*;

verus! {

/// A user record as read from JSON: a name and a count of mutual followers.
pub struct JsonData {
    pub username: String,
    pub mutuals: i32,
}

/// A node of the model: its id and its data.
pub struct JsonNode<N> {
    pub id: usize,
    pub data: N,
}

/// An edge of the model.
pub struct JsonEdge<W> {
    pub src: usize,
    pub dst: usize,
    pub weight: W,
}

/// A graph as nodes and edges, with whether the edges are directed.
pub struct JsonGraph<N, W> {
    pub directed: bool,
    pub nodes: Vec<JsonNode<N>>,
    pub edges: Vec<JsonEdge<W>>,
}

/// The edges `(u, target, weight)` emitted for the first `j` edges of node
/// `u`: all of them when directed; otherwise only those whose target is not
/// below `u`, so that each undirected pair appears once.
pub open spec fn row_export<W>(adj: Seq<Seq<(NodeId, W)>>, directed: bool, u: int, j: int) -> Seq<
    (NodeId, NodeId, W),
>
    decreases j,
{
    if j <= 0 {
        Seq::empty()
    } else {
        let prev = row_export(adj, directed, u, j - 1);
        let e = adj[u][j - 1];
        if !directed && (e.0 as int) < u {
            prev
        } else {
            prev.push((u as NodeId, e.0, e.1))
        }
    }
}

/// The edges emitted for the first `k` nodes, node by node.
pub open spec fn export_edges<W>(adj: Seq<Seq<(NodeId, W)>>, directed: bool, k: int) -> Seq<(NodeId, NodeId, W)>
    decreases k,
{
    if k <= 0 {
        Seq::empty()
    } else {
        export_edges(adj, directed, k - 1) + row_export(adj, directed, k - 1, adj[k - 1].len() as int)
    }
}

/// The edges of the model as triples.
pub open spec fn edge_triples<W>(edges: Seq<JsonEdge<W>>) -> Seq<(NodeId, NodeId, W)> {
    edges.map_values(|e: JsonEdge<W>| (e.src, e.dst, e.weight))
}

/// The edge lists obtained by adding the given edges in order to `n` nodes
/// without edges, each one also reversed when the model is undirected.
pub open spec fn import_adj<W>(n: nat, edges: Seq<(NodeId, NodeId, W)>, directed: bool) -> Seq<Seq<(NodeId, W)>>
    decreases edges.len(),
{
    if edges.len() == 0 {
        Seq::new(n, |i: int| Seq::<(NodeId, W)>::empty())
    } else {
        let a = import_adj(n, edges.drop_last(), directed);
        let e = edges.last();
        let a1 = a.update(e.0 as int, a[e.0 as int].push((e.1, e.2)));
        if directed {
            a1
        } else {
            a1.update(e.1 as int, a1[e.1 as int].push((e.0, e.2)))
        }
    }
}

/// `b` has the shape and targets of `a`, with clones of its weights.
pub open spec fn adj_cloned<W: Clone>(a: Seq<Seq<(NodeId, W)>>, b: Seq<Seq<(NodeId, W)>>) -> bool {
    &&& a.len() == b.len()
    &&& forall|i: int| 0 <= i < a.len() ==> (#[trigger] a[i]).len() == b[i].len()
    &&& forall|i: int, j: int|
        0 <= i < a.len() && 0 <= j < a[i].len() ==> (#[trigger] b[i][j]).0 == a[i][j].0 && cloned(a[i][j].1, b[i][j].1)
}

/// The model's edges have the endpoints of `ex` and clones of its weights.
pub open spec fn edges_cloned<W: Clone>(ex: Seq<(NodeId, NodeId, W)>, edges: Seq<JsonEdge<W>>) -> bool {
    &&& edges.len() == ex.len()
    &&& forall|k: int|
        0 <= k < ex.len() ==> (#[trigger] edges[k]).src == ex[k].0 && edges[k].dst == ex[k].1 && cloned(
            ex[k].2,
            edges[k].weight,
        )
}

impl<N: Clone, W: Clone> Graph<N, W> {
    /// The model of this graph: node `i` with id `i` and a clone of its
    /// data, and the edges of `export_edges` with cloned weights.
    pub fn to_json_model(&self, directed: bool) -> (jg: JsonGraph<N, W>)
        requires
            self.wf(),
        ensures
            jg.directed == directed,
            jg.nodes@.len() == self.size(),
            forall|i: int|
                0 <= i < jg.nodes@.len() ==> (#[trigger] jg.nodes@[i]).id == i && cloned(
                    self.nodes_view()[i],
                    jg.nodes@[i].data,
                ),
            edges_cloned(export_edges(self.adj_view(), directed, self.size() as int), jg.edges@),
    {
        let n = self.len();
        let mut nodes: Vec<JsonNode<N>> = Vec::with_capacity(n);
        let mut u: usize = 0;
        while u < n
            invariant
                n == self.size(),
                u <= n,
                nodes@.len() == u,
                forall|i: int|
                    0 <= i < u ==> (#[trigger] nodes@[i]).id == i && cloned(self.nodes_view()[i], nodes@[i].data),
            decreases n - u,
        {
            let data = self.node(u).clone();
            nodes.push(JsonNode { id: u, data });
            u = u + 1;
        }
        let ghost adj = self.adj_view();
        let mut edges: Vec<JsonEdge<W>> = Vec::new();
        let mut u: usize = 0;
        while u < n
            invariant
                n == self.size(),
                self.wf(),
                adj == self.adj_view(),
                u <= n,
                edges_cloned(export_edges(adj, directed, u as int), edges@),
            decreases n - u,
        {
            let nb = self.neighbors(u);
            let mut j: usize = 0;
            while j < nb.len()
                invariant
                    nb@ == adj[u as int],
                    u < n,
                    j <= nb@.len(),
                    edges_cloned(export_edges(adj, directed, u as int) + row_export(adj, directed, u as int, j as int), edges@),
                decreases nb@.len() - j,
            {
                let v = nb[j].0;
                let ghost ex = export_edges(adj, directed, u as int) + row_export(adj, directed, u as int, j as int);
                assert(nb@[j as int] == adj[u as int][j as int]);
                if !directed && v < u {
                    assert(ex =~= export_edges(adj, directed, u as int) + row_export(adj, directed, u as int, j + 1));
                } else {
                    let w = nb[j].1.clone();
                    let ghost wc = w;
                    let ghost e0 = edges@;
                    edges.push(JsonEdge { src: u, dst: v, weight: w });
                    proof {
                        let ex1 = export_edges(adj, directed, u as int) + row_export(adj, directed, u as int, j + 1);
                        assert(ex1 =~= ex.push((u, v, adj[u as int][j as int].1)));
                        assert(cloned(adj[u as int][j as int].1, wc));
                        assert forall|k: int| 0 <= k < ex1.len() implies (#[trigger] edges@[k]).src == ex1[k].0
                            && edges@[k].dst == ex1[k].1 && cloned(ex1[k].2, edges@[k].weight) by {
                            if k < ex.len() {
                                assert(edges@[k] == e0[k]);
                            }
                        }
                    }
                }
                j = j + 1;
            }
            assert(export_edges(adj, directed, u + 1) =~= export_edges(adj, directed, u as int) + row_export(
                adj,
                directed,
                u as int,
                nb@.len() as int,
            ));
            u = u + 1;
        }
        JsonGraph { directed, nodes, edges }
    }

    /// The graph that a model describes: node `i` holds a clone of the data
    /// of the model's node `i`, and the edges are those of `import_adj`
    /// with cloned weights.
    pub fn from_json_model(jg: JsonGraph<N, W>) -> (g: Self)
        requires
            forall|i: int| 0 <= i < jg.nodes@.len() ==> (#[trigger] jg.nodes@[i]).id == i,
            forall|k: int|
                0 <= k < jg.edges@.len() ==> (#[trigger] jg.edges@[k]).src < jg.nodes@.len() && jg.edges@[k].dst
                    < jg.nodes@.len(),
        ensures
            g.wf(),
            g.size() == jg.nodes@.len(),
            forall|i: int| 0 <= i < g.size() ==> cloned(#[trigger] jg.nodes@[i].data, g.nodes_view()[i]),
            adj_cloned(import_adj(jg.nodes@.len(), edge_triples(jg.edges@), jg.directed), g.adj_view()),
            jg.directed ==> adj_cloned(
                Seq::new(jg.nodes@.len(), |u: int| listed_from(edge_triples(jg.edges@), u)),
                g.adj_view(),
            ),
    {
        let mut g: Graph<N, W> = Graph::new();
        let n = jg.nodes.len();
        let mut i: usize = 0;
        while i < n
            invariant
                n == jg.nodes@.len(),
                i <= n,
                g.wf(),
                g.size() == i,
                forall|k: int| 0 <= k < i ==> cloned(#[trigger] jg.nodes@[k].data, g.nodes_view()[k]),
                adj_cloned(Seq::new(i as nat, |t: int| Seq::<(NodeId, W)>::empty()), g.adj_view()),
            decreases n - i,
        {
            let data = jg.nodes[i].data.clone();
            let ghost a0 = g.adj_view();
            let id = g.add_node(data);
            assert(Seq::new((i + 1) as nat, |t: int| Seq::<(NodeId, W)>::empty()) =~= Seq::new(
                i as nat,
                |t: int| Seq::<(NodeId, W)>::empty(),
            ).push(Seq::<(NodeId, W)>::empty()));
            i = i + 1;
        }
        let ghost trip = edge_triples(jg.edges@);
        let m = jg.edges.len();
        let mut k: usize = 0;
        while k < m
            invariant
                n == jg.nodes@.len(),
                m == jg.edges@.len(),
                trip == edge_triples(jg.edges@),
                forall|t: int|
                    0 <= t < jg.edges@.len() ==> (#[trigger] jg.edges@[t]).src < jg.nodes@.len() && jg.edges@[t].dst
                        < jg.nodes@.len(),
                k <= m,
                g.wf(),
                g.size() == n,
                forall|t: int| 0 <= t < n ==> cloned(#[trigger] jg.nodes@[t].data, g.nodes_view()[t]),
                adj_cloned(import_adj(n as nat, trip.take(k as int), jg.directed), g.adj_view()),
            decreases m - k,
        {
            let src = jg.edges[k].src;
            let dst = jg.edges[k].dst;
            let ghost a = import_adj(n as nat, trip.take(k as int), jg.directed);
            let ghost w0 = jg.edges@[k as int].weight;
            assert(trip.take(k + 1).drop_last() =~= trip.take(k as int));
            assert(trip.take(k + 1).last() == (src, dst, w0));
            proof {
                assert forall|t: int| 0 <= t < trip.take(k as int).len() implies (#[trigger] trip.take(k as int)[t]).0 < n
                    && trip.take(k as int)[t].1 < n by {
                    assert(trip.take(k as int)[t] == trip[t]);
                    assert(jg.edges@[t].src < n);
                }
                lemma_import_len(n as nat, trip.take(k as int), jg.directed);
            }
            let w1 = jg.edges[k].weight.clone();
            let ghost g0 = g.adj_view();
            g.add_edge(src, dst, w1);
            proof {
                let a1 = a.update(src as int, a[src as int].push((dst, w0)));
                lemma_cloned_push(a, g0, src as int, dst, w0, w1);
                assert(adj_cloned(a1, g.adj_view()));
            }
            if !jg.directed {
                let w2 = jg.edges[k].weight.clone();
                let ghost g1 = g.adj_view();
                let ghost a1 = a.update(src as int, a[src as int].push((dst, w0)));
                g.add_edge(dst, src, w2);
                proof {
                    lemma_cloned_push(a1, g1, dst as int, src, w0, w2);
                }
            }
            k = k + 1;
        }
        assert(trip.take(m as int) =~= trip);
        proof {
            if jg.directed {
                assert forall|t: int| 0 <= t < trip.len() implies (#[trigger] trip[t]).0 < n && trip[t].1 < n by {
                    assert(jg.edges@[t].src < n);
                }
                lemma_directed_import_rows(n as nat, trip);
                assert(Seq::new(n as nat, |u: int| listed_from(trip, u)) =~= import_adj(n as nat, trip, true));
            }
        }
        g
    }
}

proof fn lemma_import_len<W>(n: nat, edges: Seq<(NodeId, NodeId, W)>, directed: bool)
    requires
        forall|k: int| 0 <= k < edges.len() ==> (#[trigger] edges[k]).0 < n && edges[k].1 < n,
    ensures
        import_adj(n, edges, directed).len() == n,
    decreases edges.len(),
{
    if edges.len() > 0 {
        lemma_import_len(n, edges.drop_last(), directed);
    }
}

/// The targets and weights of the edges of `edges` that leave `u`, in the
/// order they are listed.
pub open spec fn listed_from<W>(edges: Seq<(NodeId, NodeId, W)>, u: int) -> Seq<(NodeId, W)> {
    edges.filter(|e: (NodeId, NodeId, W)| e.0 == u).map_values(|e: (NodeId, NodeId, W)| (e.1, e.2))
}

/// A directed import keeps every listed edge: whatever order the edges are
/// listed in, node `u` gets the target and weight of exactly the edges that
/// leave `u`, in the order they are listed.
pub proof fn lemma_directed_import_rows<W>(n: nat, edges: Seq<(NodeId, NodeId, W)>)
    requires
        forall|k: int| 0 <= k < edges.len() ==> (#[trigger] edges[k]).0 < n && edges[k].1 < n,
    ensures
        import_adj(n, edges, true).len() == n,
        forall|u: int| 0 <= u < n ==> #[trigger] import_adj(n, edges, true)[u] == listed_from(edges, u),
    decreases edges.len(),
{
    lemma_import_len(n, edges, true);
    if edges.len() == 0 {
        assert forall|u: int| 0 <= u < n implies #[trigger] import_adj(n, edges, true)[u] == listed_from(edges, u) by {
            reveal(Seq::filter);
            assert(listed_from(edges, u) =~= Seq::<(NodeId, W)>::empty());
        }
    } else {
        let e0 = edges.drop_last();
        let e = edges.last();
        assert forall|k: int| 0 <= k < e0.len() implies (#[trigger] e0[k]).0 < n && e0[k].1 < n by {
            assert(e0[k] == edges[k]);
        }
        lemma_directed_import_rows(n, e0);
        assert(edges =~= e0.push(e));
        assert(e == edges[edges.len() - 1]);
        let a = import_adj(n, e0, true);
        assert forall|u: int| 0 <= u < n implies #[trigger] import_adj(n, edges, true)[u] == listed_from(edges, u) by {
            let pred = |x: (NodeId, NodeId, W)| x.0 == u;
            let f = |x: (NodeId, NodeId, W)| (x.1, x.2);
            e0.lemma_filter_push(e, pred);
            assert(a[u] == listed_from(e0, u));
            if e.0 == u {
                assert(e0.filter(pred).push(e).map_values(f) =~= e0.filter(pred).map_values(f).push((e.1, e.2)));
            }
        }
    }
}

proof fn lemma_cloned_push<W: Clone>(a: Seq<Seq<(NodeId, W)>>, b: Seq<Seq<(NodeId, W)>>, u: int, v: NodeId, w: W, wc: W)
    requires
        adj_cloned(a, b),
        0 <= u < a.len(),
        cloned(w, wc),
    ensures
        adj_cloned(a.update(u, a[u].push((v, w))), b.update(u, b[u].push((v, wc)))),
{
    let a1 = a.update(u, a[u].push((v, w)));
    let b1 = b.update(u, b[u].push((v, wc)));
    assert forall|i: int| 0 <= i < a1.len() implies (#[trigger] a1[i]).len() == b1[i].len() by {
        if i != u {
            assert(a1[i] == a[i] && b1[i] == b[i]);
        }
    }
    assert forall|i: int, j: int| 0 <= i < a1.len() && 0 <= j < a1[i].len() implies (#[trigger] b1[i][j]).0
        == a1[i][j].0 && cloned(a1[i][j].1, b1[i][j].1) by {
        if i != u {
            assert(a1[i] == a[i] && b1[i] == b[i]);
            assert(b[i][j].0 == a[i][j].0);
        } else if j < a[u].len() {
            assert(a1[i][j] == a[u][j] && b1[i][j] == b[u][j]);
            assert(b[u][j].0 == a[u][j].0);
        }
    }
}

/// The edge lists of the first `k` nodes, the first `j` edges of node `k`,
/// and no edges for the others.
spec fn partial_adj<W>(adj: Seq<Seq<(NodeId, W)>>, k: int, j: int) -> Seq<Seq<(NodeId, W)>> {
    Seq::new(
        adj.len(),
        |i: int|
            if i < k {
                adj[i]
            } else if i == k {
                adj[k].take(j)
            } else {
                Seq::<(NodeId, W)>::empty()
            },
    )
}

proof fn lemma_round_trip_prefix<W>(adj: Seq<Seq<(NodeId, W)>>, k: int, j: int)
    requires
        adj.len() <= usize::MAX,
        0 <= k <= adj.len(),
        k < adj.len() ==> 0 <= j <= adj[k].len(),
        k == adj.len() ==> j == 0,
    ensures
        import_adj(adj.len(), export_edges(adj, true, k) + row_export(adj, true, k, j), true) == partial_adj(adj, k, j),
    decreases k, j,
{
    let e = export_edges(adj, true, k) + row_export(adj, true, k, j);
    if j > 0 {
        let e0 = export_edges(adj, true, k) + row_export(adj, true, k, j - 1);
        lemma_round_trip_prefix(adj, k, j - 1);
        assert(e.drop_last() =~= e0);
        assert(e.last() == (k as NodeId, adj[k][j - 1].0, adj[k][j - 1].1));
        let p0 = partial_adj(adj, k, j - 1);
        assert(p0[k] == adj[k].take(j - 1));
        assert(adj[k].take(j - 1).push(adj[k][j - 1]) =~= adj[k].take(j));
        assert(import_adj(adj.len(), e, true) =~= partial_adj(adj, k, j));
    } else if k > 0 {
        lemma_round_trip_prefix(adj, k - 1, adj[k - 1].len() as int);
        assert(row_export(adj, true, k, 0) =~= Seq::<(NodeId, NodeId, W)>::empty());
        assert(e =~= export_edges(adj, true, k - 1) + row_export(adj, true, k - 1, adj[k - 1].len() as int));
        assert(adj[k - 1].take(adj[k - 1].len() as int) =~= adj[k - 1]);
        assert forall|i: int| 0 <= i < adj.len() implies #[trigger] partial_adj(adj, k - 1, adj[k - 1].len() as int)[i]
            == partial_adj(adj, k, 0)[i] by {
            if i == k {
                assert(adj[k].take(0) =~= Seq::<(NodeId, W)>::empty());
            }
        }
        assert(partial_adj(adj, k - 1, adj[k - 1].len() as int) =~= partial_adj(adj, k, 0));
    } else {
        assert(e =~= Seq::<(NodeId, NodeId, W)>::empty());
        assert forall|i: int| 0 <= i < adj.len() implies #[trigger] partial_adj(adj, 0, 0)[i] == Seq::<(NodeId, W)>::empty() by {
            if i == 0 {
                assert(adj[0].take(0) =~= Seq::<(NodeId, W)>::empty());
            }
        }
        assert(import_adj(adj.len(), e, true) =~= partial_adj(adj, 0, 0));
    }
}

proof fn lemma_export_in_range<W>(adj: Seq<Seq<(NodeId, W)>>, k: int, j: int)
    requires
        adj.len() <= usize::MAX,
        forall|u: int, t: int| 0 <= u < adj.len() && 0 <= t < adj[u].len() ==> #[trigger] adj[u][t].0 < adj.len(),
        0 <= k <= adj.len(),
        k < adj.len() ==> 0 <= j <= adj[k].len(),
        k == adj.len() ==> j == 0,
    ensures
        forall|t: int|
            0 <= t < (export_edges(adj, true, k) + row_export(adj, true, k, j)).len() ==> (#[trigger] (export_edges(adj, true, k) + row_export(adj, true, k, j))[t]).0
                < adj.len() && (export_edges(adj, true, k) + row_export(adj, true, k, j))[t].1 < adj.len(),
    decreases k, j,
{
    let e = export_edges(adj, true, k) + row_export(adj, true, k, j);
    if j > 0 {
        lemma_export_in_range(adj, k, j - 1);
        assert(e =~= (export_edges(adj, true, k) + row_export(adj, true, k, j - 1)).push(
            (k as NodeId, adj[k][j - 1].0, adj[k][j - 1].1),
        ));
        assert(adj[k][j - 1].0 < adj.len());
    } else if k > 0 {
        lemma_export_in_range(adj, k - 1, adj[k - 1].len() as int);
        assert(row_export(adj, true, k, j) =~= Seq::<(NodeId, NodeId, W)>::empty());
        assert(e =~= export_edges(adj, true, k - 1) + row_export(adj, true, k - 1, adj[k - 1].len() as int));
    } else {
        assert(e =~= Seq::<(NodeId, NodeId, W)>::empty());
    }
}

/// Directed round trip: exporting a well-formed graph's edges as directed
/// and adding them back in order to as many empty nodes rebuilds every
/// node's edge list exactly; every exported edge joins existing nodes.
pub proof fn lemma_directed_round_trip<W>(adj: Seq<Seq<(NodeId, W)>>)
    requires
        adj.len() <= usize::MAX,
        forall|u: int, t: int| 0 <= u < adj.len() && 0 <= t < adj[u].len() ==> #[trigger] adj[u][t].0 < adj.len(),
    ensures
        forall|t: int|
            0 <= t < export_edges(adj, true, adj.len() as int).len() ==> (#[trigger] export_edges(
                adj,
                true,
                adj.len() as int,
            )[t]).0 < adj.len() && export_edges(adj, true, adj.len() as int)[t].1 < adj.len(),
        import_adj(adj.len(), export_edges(adj, true, adj.len() as int), true) == adj,
{
    let n = adj.len() as int;
    lemma_round_trip_prefix(adj, n, 0);
    lemma_export_in_range(adj, n, 0);
    assert(row_export(adj, true, n, 0) =~= Seq::<(NodeId, NodeId, W)>::empty());
    assert(export_edges(adj, true, n) + row_export(adj, true, n, 0) =~= export_edges(adj, true, n));
    assert(partial_adj(adj, n, 0) =~= adj);
}

/// Some triple of `edges` goes from `x` to `y`.
pub open spec fn pair_in<W>(edges: Seq<(NodeId, NodeId, W)>, x: int, y: int) -> bool {
    exists|t: int| 0 <= t < edges.len() && (#[trigger] edges[t]).0 == x && edges[t].1 == y
}

spec fn exported_pair<W>(adj: Seq<Seq<(NodeId, W)>>, x: int, y: int, k: int, j: int) -> bool {
    ||| (0 <= x < k && x <= y && has_edge_to(adj, x, y))
    ||| (x == k && x <= y && exists|t: int| 0 <= t < j && #[trigger] adj[k][t].0 == y)
}

proof fn lemma_undirected_export_pairs<W>(adj: Seq<Seq<(NodeId, W)>>, k: int, j: int)
    requires
        adj.len() <= usize::MAX,
        0 <= k <= adj.len(),
        k < adj.len() ==> 0 <= j <= adj[k].len(),
        k == adj.len() ==> j == 0,
    ensures
        forall|x: int, y: int|
            #[trigger] pair_in(export_edges(adj, false, k) + row_export(adj, false, k, j), x, y) <==> exported_pair(
                adj,
                x,
                y,
                k,
                j,
            ),
    decreases k, j,
{
    let e = export_edges(adj, false, k) + row_export(adj, false, k, j);
    if j > 0 {
        lemma_undirected_export_pairs(adj, k, j - 1);
        let prev = export_edges(adj, false, k) + row_export(adj, false, k, j - 1);
        let v = adj[k][j - 1].0;
        assert forall|x: int, y: int| #[trigger] pair_in(e, x, y) <==> exported_pair(adj, x, y, k, j) by {
            assert(pair_in(prev, x, y) <==> exported_pair(adj, x, y, k, j - 1));
            if (v as int) < k {
                assert(e =~= prev);
                if x == k && x <= y && exists|t: int| 0 <= t < j && #[trigger] adj[k][t].0 == y {
                    let t = choose|t: int| 0 <= t < j && #[trigger] adj[k][t].0 == y;
                    assert(t < j - 1);
                }
            } else {
                assert(e =~= prev.push((k as NodeId, v, adj[k][j - 1].1)));
                if pair_in(e, x, y) {
                    let t = choose|t: int| 0 <= t < e.len() && (#[trigger] e[t]).0 == x && e[t].1 == y;
                    if t < prev.len() {
                        assert(e[t] == prev[t]);
                    } else {
                        assert(adj[k][j - 1].0 == y);
                    }
                }
                if exported_pair(adj, x, y, k, j) {
                    if x == k && x <= y && exists|t: int| 0 <= t < j && #[trigger] adj[k][t].0 == y {
                        let t = choose|t: int| 0 <= t < j && #[trigger] adj[k][t].0 == y;
                        if t == j - 1 {
                            assert(e[prev.len() as int] == (k as NodeId, v, adj[k][j - 1].1));
                        }
                    }
                }
                if pair_in(prev, x, y) {
                    let t = choose|t: int| 0 <= t < prev.len() && (#[trigger] prev[t]).0 == x && prev[t].1 == y;
                    assert(e[t] == prev[t]);
                }
            }
        }
    } else if k > 0 {
        let l = adj[k - 1].len() as int;
        lemma_undirected_export_pairs(adj, k - 1, l);
        assert(row_export(adj, false, k, j) =~= Seq::<(NodeId, NodeId, W)>::empty());
        assert(e =~= export_edges(adj, false, k - 1) + row_export(adj, false, k - 1, l));
        assert forall|x: int, y: int| #[trigger] pair_in(e, x, y) <==> exported_pair(adj, x, y, k, j) by {
            assert(pair_in(e, x, y) <==> exported_pair(adj, x, y, k - 1, l));
            if x == k - 1 && has_edge_to(adj, x, y) {
                let t = choose|t: int| 0 <= t < adj[x].len() && #[trigger] adj[x][t].0 == y;
                assert(adj[k - 1][t].0 == y);
            }
        }
    } else {
        assert(e =~= Seq::<(NodeId, NodeId, W)>::empty());
    }
}

proof fn lemma_push_edge<W>(adj: Seq<Seq<(NodeId, W)>>, a: int, b: NodeId, w: W, x: int, y: int)
    requires
        0 <= a < adj.len(),
        0 <= x < adj.len(),
    ensures
        has_edge_to(adj.update(a, adj[a].push((b, w))), x, y) <==> (has_edge_to(adj, x, y) || (x == a && y == b)),
{
    let a1 = adj.update(a, adj[a].push((b, w)));
    if has_edge_to(adj, x, y) {
        let t = choose|t: int| 0 <= t < adj[x].len() && #[trigger] adj[x][t].0 == y;
        assert(a1[x][t] == adj[x][t]);
    }
    if x == a && y == b {
        assert(a1[a][adj[a].len() as int].0 == b);
    }
    if has_edge_to(a1, x, y) {
        let t = choose|t: int| 0 <= t < a1[x].len() && #[trigger] a1[x][t].0 == y;
        if x != a || t < adj[a].len() {
            assert(a1[x][t] == adj[x][t]);
        }
    }
}

proof fn lemma_undirected_import_pairs<W>(n: nat, edges: Seq<(NodeId, NodeId, W)>)
    requires
        forall|t: int| 0 <= t < edges.len() ==> (#[trigger] edges[t]).0 < n && edges[t].1 < n,
    ensures
        import_adj(n, edges, false).len() == n,
        forall|x: int, y: int|
            0 <= x < n ==> (#[trigger] has_edge_to(import_adj(n, edges, false), x, y) <==> (pair_in(edges, x, y)
                || pair_in(edges, y, x))),
    decreases edges.len(),
{
    if edges.len() == 0 {
        assert forall|x: int, y: int| 0 <= x < n implies !#[trigger] has_edge_to(import_adj(n, edges, false), x, y) by {}
    } else {
        let e0 = edges.drop_last();
        lemma_undirected_import_pairs(n, e0);
        let a = import_adj(n, e0, false);
        let e = edges.last();
        let a1 = a.update(e.0 as int, a[e.0 as int].push((e.1, e.2)));
        assert forall|x: int, y: int| 0 <= x < n implies (#[trigger] has_edge_to(import_adj(n, edges, false), x, y)
            <==> (pair_in(edges, x, y) || pair_in(edges, y, x))) by {
            lemma_push_edge(a, e.0 as int, e.1, e.2, x, y);
            lemma_push_edge(a1, e.1 as int, e.0, e.2, x, y);
            assert(has_edge_to(a, x, y) <==> (pair_in(e0, x, y) || pair_in(e0, y, x)));
            let l = edges.len() - 1;
            assert(edges[l] == e);
            if pair_in(e0, x, y) {
                let t = choose|t: int| 0 <= t < e0.len() && (#[trigger] e0[t]).0 == x && e0[t].1 == y;
                assert(edges[t] == e0[t]);
            }
            if pair_in(e0, y, x) {
                let t = choose|t: int| 0 <= t < e0.len() && (#[trigger] e0[t]).0 == y && e0[t].1 == x;
                assert(edges[t] == e0[t]);
            }
            if pair_in(edges, x, y) {
                let t = choose|t: int| 0 <= t < edges.len() && (#[trigger] edges[t]).0 == x && edges[t].1 == y;
                if t < l {
                    assert(edges[t] == e0[t]);
                }
            }
            if pair_in(edges, y, x) {
                let t = choose|t: int| 0 <= t < edges.len() && (#[trigger] edges[t]).0 == y && edges[t].1 == x;
                if t < l {
                    assert(edges[t] == e0[t]);
                }
            }
        }
    }
}

/// Undirected round trip: for a graph whose edges come in both directions
/// (an edge `x -> y` exists exactly when an edge `y -> x` does), exporting
/// it as undirected and importing the result, which mirrors every exported
/// edge, gives a graph with exactly the same pairs of joined nodes.
pub proof fn lemma_undirected_round_trip<W>(adj: Seq<Seq<(NodeId, W)>>)
    requires
        adj.len() <= usize::MAX,
        forall|u: int, t: int| 0 <= u < adj.len() && 0 <= t < adj[u].len() ==> #[trigger] adj[u][t].0 < adj.len(),
        forall|x: int, y: int|
            0 <= x < adj.len() && 0 <= y < adj.len() ==> (#[trigger] has_edge_to(adj, x, y) <==> has_edge_to(adj, y, x)),
    ensures
        ({
            let back = import_adj(adj.len(), export_edges(adj, false, adj.len() as int), false);
            &&& back.len() == adj.len()
            &&& forall|x: int, y: int|
                0 <= x < adj.len() ==> (#[trigger] has_edge_to(back, x, y) <==> has_edge_to(adj, x, y))
        }),
{
    let n = adj.len() as int;
    let ex = export_edges(adj, false, n);
    lemma_undirected_export_pairs(adj, n, 0);
    assert(row_export(adj, false, n, 0) =~= Seq::<(NodeId, NodeId, W)>::empty());
    assert(export_edges(adj, false, n) + row_export(adj, false, n, 0) =~= ex);
    assert forall|t: int| 0 <= t < ex.len() implies (#[trigger] ex[t]).0 < adj.len() && ex[t].1 < adj.len() by {
        assert(pair_in(ex, ex[t].0 as int, ex[t].1 as int));
        assert(exported_pair(adj, ex[t].0 as int, ex[t].1 as int, n, 0));
        let u = ex[t].0 as int;
        let tt = choose|tt: int| 0 <= tt < adj[u].len() && #[trigger] adj[u][tt].0 == ex[t].1;
    }
    lemma_undirected_import_pairs(adj.len(), ex);
    assert forall|x: int, y: int| 0 <= x < adj.len() implies (#[trigger] has_edge_to(
        import_adj(adj.len(), ex, false),
        x,
        y,
    ) <==> has_edge_to(adj, x, y)) by {
        assert(pair_in(ex, x, y) <==> exported_pair(adj, x, y, n, 0));
        assert(pair_in(ex, y, x) <==> exported_pair(adj, y, x, n, 0));
        if has_edge_to(adj, x, y) {
            let t = choose|t: int| 0 <= t < adj[x].len() && #[trigger] adj[x][t].0 == y;
            assert(0 <= y < adj.len());
            assert(has_edge_to(adj, y, x));
        }
        if exported_pair(adj, y, x, n, 0) {
            assert(has_edge_to(adj, y, x));
            let t = choose|t: int| 0 <= t < adj[y].len() && #[trigger] adj[y][t].0 == x;
            assert(0 <= y < adj.len());
        }
    }
}

proof fn lemma_export_simple_prefix<W>(adj: Seq<Seq<(NodeId, W)>>, k: int, j: int)
    requires
        adj.len() <= usize::MAX,
        forall|u: int, t: int| 0 <= u < adj.len() && 0 <= t < adj[u].len() ==> #[trigger] adj[u][t].0 < adj.len(),
        no_self_loops(adj),
        rows_distinct(adj),
        0 <= k <= adj.len(),
        k < adj.len() ==> 0 <= j <= adj[k].len(),
        k == adj.len() ==> j == 0,
    ensures
        ({
            let e = export_edges(adj, false, k) + row_export(adj, false, k, j);
            &&& forall|t: int| 0 <= t < e.len() ==> (#[trigger] e[t]).0 < e[t].1 < adj.len() && e[t].0 <= k
            &&& forall|t: int|
                0 <= t < e.len() ==> (#[trigger] e[t]).0 < k || (e[t].0 == k && exists|s: int|
                    0 <= s < j && #[trigger] adj[k][s].0 == e[t].1)
            &&& forall|t1: int, t2: int|
                0 <= t1 < t2 < e.len() ==> !((#[trigger] e[t1]).0 == (#[trigger] e[t2]).0 && e[t1].1 == e[t2].1)
        }),
    decreases k, j,
{
    let e = export_edges(adj, false, k) + row_export(adj, false, k, j);
    if j > 0 {
        lemma_export_simple_prefix(adj, k, j - 1);
        let prev = export_edges(adj, false, k) + row_export(adj, false, k, j - 1);
        let v = adj[k][j - 1].0;
        if (v as int) < k {
            assert(e =~= prev);
            assert forall|t: int| 0 <= t < e.len() implies (#[trigger] e[t]).0 < k || (e[t].0 == k && exists|s: int|
                0 <= s < j && #[trigger] adj[k][s].0 == e[t].1) by {
                if e[t].0 == k {
                    let s = choose|s: int| 0 <= s < j - 1 && #[trigger] adj[k][s].0 == e[t].1;
                }
            }
        } else {
            let x = (k as NodeId, v, adj[k][j - 1].1);
            assert(e =~= prev.push(x));
            assert(v != k);
            assert(v < adj.len());
            assert forall|t: int| 0 <= t < e.len() implies (#[trigger] e[t]).0 < k || (e[t].0 == k && exists|s: int|
                0 <= s < j && #[trigger] adj[k][s].0 == e[t].1) by {
                if t < prev.len() {
                    assert(e[t] == prev[t]);
                    if e[t].0 == k {
                        let s = choose|s: int| 0 <= s < j - 1 && #[trigger] adj[k][s].0 == prev[t].1;
                    }
                } else {
                    assert(adj[k][j - 1].0 == e[t].1);
                }
            }
            assert forall|t1: int, t2: int|
                0 <= t1 < t2 < e.len() implies !((#[trigger] e[t1]).0 == (#[trigger] e[t2]).0 && e[t1].1 == e[t2].1) by {
                if t2 < prev.len() {
                    assert(e[t1] == prev[t1] && e[t2] == prev[t2]);
                } else {
                    assert(e[t1] == prev[t1]);
                    if prev[t1].0 == k {
                        let s = choose|s: int| 0 <= s < j - 1 && #[trigger] adj[k][s].0 == prev[t1].1;
                        assert(adj[k][s].0 != adj[k][j - 1].0);
                    }
                }
            }
        }
    } else if k > 0 {
        let l = adj[k - 1].len() as int;
        lemma_export_simple_prefix(adj, k - 1, l);
        assert(row_export(adj, false, k, j) =~= Seq::<(NodeId, NodeId, W)>::empty());
        assert(e =~= export_edges(adj, false, k - 1) + row_export(adj, false, k - 1, l));
    } else {
        assert(e =~= Seq::<(NodeId, NodeId, W)>::empty());
    }
}

/// Exporting a graph without self-loops or repeated edges as undirected
/// lists every edge from the smaller node to the larger one, each joined
/// pair of nodes at most once.
pub proof fn lemma_undirected_export_simple<W>(adj: Seq<Seq<(NodeId, W)>>)
    requires
        adj.len() <= usize::MAX,
        forall|u: int, t: int| 0 <= u < adj.len() && 0 <= t < adj[u].len() ==> #[trigger] adj[u][t].0 < adj.len(),
        no_self_loops(adj),
        rows_distinct(adj),
    ensures
        ({
            let e = export_edges(adj, false, adj.len() as int);
            &&& forall|t: int| 0 <= t < e.len() ==> (#[trigger] e[t]).0 < e[t].1 < adj.len()
            &&& forall|t1: int, t2: int|
                0 <= t1 < t2 < e.len() ==> !((#[trigger] e[t1]).0 == (#[trigger] e[t2]).0 && e[t1].1 == e[t2].1)
            &&& forall|x: int, y: int|
                0 <= x < adj.len() ==> (#[trigger] pair_in(e, x, y) <==> (x < y && has_edge_to(adj, x, y)))
        }),
{
    let n = adj.len() as int;
    let e = export_edges(adj, false, n);
    lemma_export_simple_prefix(adj, n, 0);
    lemma_undirected_export_pairs(adj, n, 0);
    assert(row_export(adj, false, n, 0) =~= Seq::<(NodeId, NodeId, W)>::empty());
    assert(export_edges(adj, false, n) + row_export(adj, false, n, 0) =~= e);
    assert forall|x: int, y: int| 0 <= x < adj.len() implies (#[trigger] pair_in(e, x, y) <==> (x < y && has_edge_to(
        adj,
        x,
        y,
    ))) by {
        assert(pair_in(e, x, y) <==> exported_pair(adj, x, y, n, 0));
        if has_edge_to(adj, x, y) && x == y {
            let t = choose|t: int| 0 <= t < adj[x].len() && #[trigger] adj[x][t].0 == y;
        }
    }
}

proof fn lemma_import_cloned<W: Clone>(n: nat, e1: Seq<(NodeId, NodeId, W)>, e2: Seq<(NodeId, NodeId, W)>, directed: bool)
    requires
        e1.len() == e2.len(),
        forall|k: int|
            0 <= k < e1.len() ==> (#[trigger] e1[k]).0 == e2[k].0 && e1[k].1 == e2[k].1 && cloned(e1[k].2, e2[k].2)
                && e1[k].0 < n && e1[k].1 < n,
    ensures
        adj_cloned(import_adj(n, e1, directed), import_adj(n, e2, directed)),
    decreases e1.len(),
{
    if e1.len() > 0 {
        let l = e1.len() - 1;
        lemma_import_cloned(n, e1.drop_last(), e2.drop_last(), directed);
        assert forall|k: int| 0 <= k < l implies (#[trigger] e2.drop_last()[k]).0 < n && e2.drop_last()[k].1 < n by {
            assert(e1[k].0 == e2[k].0 && e1[k].1 == e2[k].1);
        }
        assert forall|k: int| 0 <= k < l implies (#[trigger] e1.drop_last()[k]).0 < n && e1.drop_last()[k].1 < n by {
            assert(e1[k].0 < n && e1[k].1 < n);
        }
        lemma_import_len(n, e1.drop_last(), directed);
        lemma_import_len(n, e2.drop_last(), directed);
        let a = import_adj(n, e1.drop_last(), directed);
        let b = import_adj(n, e2.drop_last(), directed);
        let x = e1.last();
        let y = e2.last();
        assert(e1[l] == x && e2[l] == y);
        lemma_cloned_push(a, b, x.0 as int, x.1, x.2, y.2);
        if !directed {
            let a1 = a.update(x.0 as int, a[x.0 as int].push((x.1, x.2)));
            let b1 = b.update(y.0 as int, b[y.0 as int].push((y.1, y.2)));
            lemma_cloned_push(a1, b1, x.1 as int, x.0, x.2, y.2);
        }
    } else {
        let a = import_adj(n, e1, directed);
        assert forall|i: int, j: int| 0 <= i < a.len() && 0 <= j < a[i].len() implies (#[trigger] import_adj(n, e2, directed)[i][j]).0
            == a[i][j].0 && cloned(a[i][j].1, import_adj(n, e2, directed)[i][j].1) by {}
    }
}

/// Directed round trip through the exported model: when `jg` is what
/// `to_json_model(true)` returns for `g` and `g2` what `from_json_model`
/// returns for `jg`, then `jg` meets what `from_json_model` requires, `g2`
/// has as many nodes as `g` and the same edge targets in the same order, and
/// when cloning node data and weights gives equal values `g2` equals `g`.
pub proof fn lemma_json_round_trip<N: Clone, W: Clone>(g: Graph<N, W>, jg: JsonGraph<N, W>, g2: Graph<N, W>)
    requires
        g.wf(),
        jg.directed,
        jg.nodes@.len() == g.size(),
        forall|i: int|
            0 <= i < jg.nodes@.len() ==> (#[trigger] jg.nodes@[i]).id == i && cloned(g.nodes_view()[i], jg.nodes@[i].data),
        edges_cloned(export_edges(g.adj_view(), true, g.size() as int), jg.edges@),
        g2.wf(),
        g2.size() == jg.nodes@.len(),
        forall|i: int| 0 <= i < g2.size() ==> cloned(#[trigger] jg.nodes@[i].data, g2.nodes_view()[i]),
        adj_cloned(import_adj(jg.nodes@.len(), edge_triples(jg.edges@), jg.directed), g2.adj_view()),
    ensures
        forall|k: int|
            0 <= k < jg.edges@.len() ==> (#[trigger] jg.edges@[k]).src < jg.nodes@.len() && jg.edges@[k].dst
                < jg.nodes@.len(),
        g2.size() == g.size(),
        same_targets(g.adj_view(), g2.adj_view()),
        (forall|a: N, b: N| cloned(a, b) ==> a == b) && (forall|a: W, b: W| cloned(a, b) ==> a == b) ==> g2.nodes_view()
            == g.nodes_view() && g2.adj_view() == g.adj_view(),
{
    let adj = g.adj_view();
    let n = g.size();
    g.lemma_size_fits();
    lemma_directed_round_trip(adj);
    let ex = export_edges(adj, true, n as int);
    let t = edge_triples(jg.edges@);
    assert forall|k: int| 0 <= k < jg.edges@.len() implies (#[trigger] jg.edges@[k]).src < jg.nodes@.len()
        && jg.edges@[k].dst < jg.nodes@.len() by {
        assert(ex[k].0 < n && ex[k].1 < n);
    }
    assert forall|k: int| 0 <= k < ex.len() implies (#[trigger] ex[k]).0 == t[k].0 && ex[k].1 == t[k].1 && cloned(
        ex[k].2,
        t[k].2,
    ) && ex[k].0 < n && ex[k].1 < n by {
        assert(t[k] == (jg.edges@[k].src, jg.edges@[k].dst, jg.edges@[k].weight));
    }
    lemma_import_cloned(n, ex, t, true);
    let mid = import_adj(n, t, true);
    assert(import_adj(n, ex, true) == adj);
    assert forall|u: int| 0 <= u < adj.len() implies (#[trigger] adj[u]).len() == g2.adj_view()[u].len() by {
        assert(mid[u].len() == adj[u].len());
    }
    assert forall|u: int, j: int| 0 <= u < adj.len() && 0 <= j < adj[u].len() implies (#[trigger] adj[u][j]).0
        == g2.adj_view()[u][j].0 by {
        assert(mid[u][j].0 == adj[u][j].0);
    }
    if (forall|a: N, b: N| cloned(a, b) ==> a == b) && (forall|a: W, b: W| cloned(a, b) ==> a == b) {
        assert forall|i: int| 0 <= i < n implies g2.nodes_view()[i] == g.nodes_view()[i] by {
            assert(cloned(g.nodes_view()[i], jg.nodes@[i].data));
            assert(cloned(jg.nodes@[i].data, g2.nodes_view()[i]));
        }
        assert(g2.nodes_view() =~= g.nodes_view());
        assert forall|u: int| 0 <= u < adj.len() implies g2.adj_view()[u] == adj[u] by {
            assert forall|j: int| 0 <= j < adj[u].len() implies g2.adj_view()[u][j] == adj[u][j] by {
                assert(cloned(adj[u][j].1, mid[u][j].1));
                assert(cloned(mid[u][j].1, g2.adj_view()[u][j].1));
                assert(mid[u][j].0 == adj[u][j].0);
            }
            assert(g2.adj_view()[u] =~= adj[u]);
        }
        assert(g2.adj_view() =~= adj);
    }
}

} // verus!
