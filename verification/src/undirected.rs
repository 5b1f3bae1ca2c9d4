//! Undirected graphs through the JSON model: a graph whose edges were added
//! in both directions comes back from an undirected export and import with
//! every edge list holding the same entries, possibly in another order.
use crate::graph::{Graph, GraphCall, NodeId};
use crate::search::no_self_loops;
use crate::json::{adj_cloned, edge_triples, edges_cloned, export_edges, import_adj, row_export, JsonGraph};
use vstd::prelude::*;
use vstd::seq_lib::{group_to_multiset_ensures, lemma_multiset_commutative};

verus! {

/// How often `(v, w)` occurs in the list `row`.
pub open spec fn occurs<W>(row: Seq<(NodeId, W)>, v: NodeId, w: W) -> nat {
    row.to_multiset().count((v, w))
}

/// How often the triple `(x, y, w)` occurs in `edges`.
pub open spec fn listed<W>(edges: Seq<(NodeId, NodeId, W)>, x: NodeId, y: NodeId, w: W) -> nat {
    edges.to_multiset().count((x, y, w))
}

/// An undirected import adds every listed edge in both directions: node `u`
/// holds `(v, w)` once for each listed edge `(u, v, w)` and once for each
/// listed edge `(v, u, w)`, so a loop `(u, u, w)` is held twice.
pub proof fn lemma_import_counts<W>(n: nat, edges: Seq<(NodeId, NodeId, W)>)
    requires
        forall|k: int| 0 <= k < edges.len() ==> (#[trigger] edges[k]).0 < n && edges[k].1 < n,
    ensures
        import_adj(n, edges, false).len() == n,
        forall|u: NodeId, v: NodeId, w: W|
            u < n ==> #[trigger] occurs(import_adj(n, edges, false)[u as int], v, w) == listed(edges, u, v, w)
                + listed(edges, v, u, w),
    decreases edges.len(),
{
    broadcast use group_to_multiset_ensures;

    if edges.len() == 0 {
        assert forall|u: NodeId, v: NodeId, w: W| u < n implies #[trigger] occurs(
            import_adj(n, edges, false)[u as int],
            v,
            w,
        ) == listed(edges, u, v, w) + listed(edges, v, u, w) by {
            assert(import_adj(n, edges, false)[u as int] =~= Seq::<(NodeId, W)>::empty());
            assert(edges =~= Seq::<(NodeId, NodeId, W)>::empty());
        }
    } else {
        let e0 = edges.drop_last();
        assert forall|k: int| 0 <= k < e0.len() implies (#[trigger] e0[k]).0 < n && e0[k].1 < n by {
            assert(e0[k] == edges[k]);
        }
        lemma_import_counts(n, e0);
        let e = edges.last();
        assert(edges =~= e0.push(e));
        assert(e == edges[edges.len() - 1]);
        let a = import_adj(n, e0, false);
        let a1 = a.update(e.0 as int, a[e.0 as int].push((e.1, e.2)));
        let b = a1.update(e.1 as int, a1[e.1 as int].push((e.0, e.2)));
        assert(import_adj(n, edges, false) == b);
        assert forall|u: NodeId, v: NodeId, w: W| u < n implies #[trigger] occurs(b[u as int], v, w) == listed(
            edges,
            u,
            v,
            w,
        ) + listed(edges, v, u, w) by {
            assert(occurs(a[u as int], v, w) == listed(e0, u, v, w) + listed(e0, v, u, w));
            assert(edges.to_multiset() =~= e0.to_multiset().insert(e));
            if u == e.0 {
                assert(a1[u as int] == a[u as int].push((e.1, e.2)));
            } else {
                assert(a1[u as int] == a[u as int]);
            }
            if u == e.1 {
                assert(b[u as int] == a1[u as int].push((e.0, e.2)));
            } else {
                assert(b[u as int] == a1[u as int]);
            }
        }
    }
}

proof fn lemma_row_counts<W>(adj: Seq<Seq<(NodeId, W)>>, u: int, j: int)
    requires
        adj.len() <= usize::MAX,
        0 <= u < adj.len(),
        0 <= j <= adj[u].len(),
    ensures
        forall|x: NodeId, y: NodeId, w: W|
            #[trigger] listed(row_export(adj, false, u, j), x, y, w) == if x == u && y >= u {
                occurs(adj[u].take(j), y, w)
            } else {
                0
            },
    decreases j,
{
    broadcast use group_to_multiset_ensures;

    if j == 0 {
        assert(row_export(adj, false, u, j) =~= Seq::<(NodeId, NodeId, W)>::empty());
        assert(adj[u].take(j) =~= Seq::<(NodeId, W)>::empty());
    } else {
        lemma_row_counts(adj, u, j - 1);
        let e = adj[u][j - 1];
        assert(adj[u].take(j) =~= adj[u].take(j - 1).push(e));
        let prev = row_export(adj, false, u, j - 1);
        assert forall|x: NodeId, y: NodeId, w: W|
            #[trigger] listed(row_export(adj, false, u, j), x, y, w) == if x == u && y >= u {
                occurs(adj[u].take(j), y, w)
            } else {
                0
            } by {
            assert(adj[u].take(j).to_multiset() =~= adj[u].take(j - 1).to_multiset().insert(e));
            assert(listed(prev, x, y, w) == if x == u && y >= u {
                occurs(adj[u].take(j - 1), y, w)
            } else {
                0
            });
            if e == (y, w) {
                assert(occurs(adj[u].take(j), y, w) == occurs(adj[u].take(j - 1), y, w) + 1);
            } else {
                assert(occurs(adj[u].take(j), y, w) == occurs(adj[u].take(j - 1), y, w));
            }
            if (e.0 as int) < u {
                assert(row_export(adj, false, u, j) == prev);
            } else {
                assert(row_export(adj, false, u, j) == prev.push((u as NodeId, e.0, e.1)));
                assert(prev.push((u as NodeId, e.0, e.1)).to_multiset() =~= prev.to_multiset().insert(
                    (u as NodeId, e.0, e.1),
                ));
            }
        }
    }
}

proof fn lemma_export_counts<W>(adj: Seq<Seq<(NodeId, W)>>, k: int)
    requires
        adj.len() <= usize::MAX,
        0 <= k <= adj.len(),
    ensures
        forall|x: NodeId, y: NodeId, w: W|
            #[trigger] listed(export_edges(adj, false, k), x, y, w) == if x < k && y >= x {
                occurs(adj[x as int], y, w)
            } else {
                0
            },
    decreases k,
{
    broadcast use group_to_multiset_ensures;

    if k == 0 {
        assert(export_edges(adj, false, k) =~= Seq::<(NodeId, NodeId, W)>::empty());
    } else {
        lemma_export_counts(adj, k - 1);
        let row = adj[k - 1];
        lemma_row_counts(adj, k - 1, row.len() as int);
        assert(row.take(row.len() as int) =~= row);
        let prev = export_edges(adj, false, k - 1);
        let r = row_export(adj, false, k - 1, row.len() as int);
        lemma_multiset_commutative(prev, r);
        assert forall|x: NodeId, y: NodeId, w: W|
            #[trigger] listed(export_edges(adj, false, k), x, y, w) == if x < k && y >= x {
                occurs(adj[x as int], y, w)
            } else {
                0
            } by {
            assert(listed(prev, x, y, w) + listed(r, x, y, w) == listed(prev + r, x, y, w));
        }
    }
}

/// Every node `x` lists `(y, w)` exactly as often as node `y` lists
/// `(x, w)`: each edge stands beside its reverse with the same weight.
pub open spec fn balanced<W>(adj: Seq<Seq<(NodeId, W)>>) -> bool {
    forall|x: NodeId, y: NodeId, w: W|
        x < adj.len() && y < adj.len() ==> #[trigger] occurs(adj[x as int], y, w) == occurs(adj[y as int], x, w)
}

/// Every edge ends at a node of the graph.
pub open spec fn targets_in_range<W>(adj: Seq<Seq<(NodeId, W)>>) -> bool {
    forall|u: int, j: int| 0 <= u < adj.len() && 0 <= j < adj[u].len() ==> #[trigger] adj[u][j].0 < adj.len()
}

proof fn lemma_absent<W>(row: Seq<(NodeId, W)>, v: NodeId, w: W)
    requires
        forall|j: int| 0 <= j < row.len() ==> #[trigger] row[j].0 != v,
    ensures
        occurs(row, v, w) == 0,
{
    broadcast use group_to_multiset_ensures;

    if row.contains((v, w)) {
        let j = choose|j: int| 0 <= j < row.len() && row[j] == (v, w);
        assert(row[j].0 == v);
    }
}

proof fn lemma_export_targets<W>(adj: Seq<Seq<(NodeId, W)>>)
    requires
        adj.len() <= usize::MAX,
        targets_in_range(adj),
    ensures
        forall|k: int|
            0 <= k < export_edges(adj, false, adj.len() as int).len() ==> (#[trigger] export_edges(
                adj,
                false,
                adj.len() as int,
            )[k]).0 < adj.len() && export_edges(adj, false, adj.len() as int)[k].1 < adj.len(),
{
    broadcast use group_to_multiset_ensures;

    let n = adj.len();
    let ex = export_edges(adj, false, n as int);
    lemma_export_counts(adj, n as int);
    assert forall|k: int| 0 <= k < ex.len() implies (#[trigger] ex[k]).0 < n && ex[k].1 < n by {
        let t = ex[k];
        assert(t == (t.0, t.1, t.2));
        assert(ex.contains(t));
        assert(ex.to_multiset().count(t) > 0);
        assert(listed(ex, t.0, t.1, t.2) > 0);
        assert(t.0 < n);
        assert(occurs(adj[t.0 as int], t.1, t.2) > 0);
        assert(adj[t.0 as int].contains((t.1, t.2)));
        let j = choose|j: int| 0 <= j < adj[t.0 as int].len() && adj[t.0 as int][j] == (t.1, t.2);
        assert(adj[t.0 as int][j].0 < n);
    }
}

/// Undirected round trip, entry by entry: for a graph without self-loops
/// whose edges stand beside their reverses with the same weights, exporting
/// it as undirected and importing the result gives every node back the same
/// entries `(target, weight)`, each as often, possibly in another order.
pub proof fn lemma_undirected_rows_permuted<W>(adj: Seq<Seq<(NodeId, W)>>)
    requires
        adj.len() <= usize::MAX,
        targets_in_range(adj),
        no_self_loops(adj),
        balanced(adj),
    ensures
        ({
            let back = import_adj(adj.len(), export_edges(adj, false, adj.len() as int), false);
            &&& back.len() == adj.len()
            &&& forall|u: int| 0 <= u < adj.len() ==> (#[trigger] back[u]).to_multiset() == adj[u].to_multiset()
        }),
{
    broadcast use group_to_multiset_ensures;

    let n = adj.len();
    let ex = export_edges(adj, false, n as int);
    lemma_export_counts(adj, n as int);
    lemma_export_targets(adj);
    lemma_import_counts(n, ex);
    let back = import_adj(n, ex, false);
    assert forall|u: int| 0 <= u < adj.len() implies (#[trigger] back[u]).to_multiset() == adj[u].to_multiset() by {
        let uu = u as NodeId;
        assert forall|p: (NodeId, W)| #[trigger] back[u].to_multiset().count(p) == adj[u].to_multiset().count(p) by {
            let v = p.0;
            let w = p.1;
            assert(p == (v, w));
            assert(occurs(back[u], v, w) == listed(ex, uu, v, w) + listed(ex, v, uu, w));
            if v >= n {
                assert forall|j: int| 0 <= j < adj[u].len() implies #[trigger] adj[u][j].0 != v by {}
                lemma_absent(adj[u], v, w);
            } else if v == uu {
                assert forall|j: int| 0 <= j < adj[u].len() implies #[trigger] adj[u][j].0 != v by {}
                lemma_absent(adj[u], v, w);
            } else if v < uu {
                assert(occurs(adj[v as int], uu, w) == occurs(adj[u], v, w));
            }
        }
        assert(back[u].to_multiset() =~= adj[u].to_multiset());
    }
}

/// What the contracts of `add_node` and `add_undir_edge` say of the edge
/// lists when the call `c` takes `g0` to `g1`; other calls are not covered.
pub open spec fn undir_call_done<N, W: Clone>(g0: Graph<N, W>, c: GraphCall<N, W>, g1: Graph<N, W>) -> bool {
    let a = g0.adj_view();
    match c {
        GraphCall::AddNode(d) => g1.adj_view() == a.push(Seq::<(NodeId, W)>::empty()),
        GraphCall::AddUndirEdge(u, v, w) => {
            &&& u < a.len()
            &&& v < a.len()
            &&& exists|w1: W|
                #![trigger cloned(w, w1)]
                {
                    let a1 = a.update(u as int, a[u as int].push((v, w1)));
                    &&& cloned(w, w1)
                    &&& g1.adj_view() == a1.update(v as int, a1[v as int].push((u, w)))
                }
        },
        _ => false,
    }
}

/// The call joins a node to another node, not to itself.
pub open spec fn joins_two_nodes<N, W>(c: GraphCall<N, W>) -> bool {
    match c {
        GraphCall::AddUndirEdge(u, v, w) => u != v,
        _ => true,
    }
}

proof fn lemma_undir_step<N, W: Clone>(g0: Graph<N, W>, c: GraphCall<N, W>, g1: Graph<N, W>)
    requires
        balanced(g0.adj_view()),
        no_self_loops(g0.adj_view()),
        targets_in_range(g0.adj_view()),
        undir_call_done(g0, c, g1),
        joins_two_nodes(c),
        forall|a: W, b: W| cloned(a, b) ==> a == b,
    ensures
        balanced(g1.adj_view()),
        no_self_loops(g1.adj_view()),
        targets_in_range(g1.adj_view()),
{
    broadcast use group_to_multiset_ensures;

    let a = g0.adj_view();
    let b = g1.adj_view();
    match c {
        GraphCall::AddNode(d) => {
            assert forall|x: NodeId, y: NodeId, w: W| x < b.len() && y < b.len() implies #[trigger] occurs(
                b[x as int],
                y,
                w,
            ) == occurs(b[y as int], x, w) by {
                if x < a.len() && y < a.len() {
                    assert(occurs(a[x as int], y, w) == occurs(a[y as int], x, w));
                } else if x < a.len() {
                    assert(b[y as int] =~= Seq::<(NodeId, W)>::empty());
                    assert forall|j: int| 0 <= j < b[x as int].len() implies #[trigger] b[x as int][j].0 != y by {
                        assert(b[x as int][j] == a[x as int][j]);
                    }
                    lemma_absent(b[x as int], y, w);
                } else if y < a.len() {
                    assert(b[x as int] =~= Seq::<(NodeId, W)>::empty());
                    assert forall|j: int| 0 <= j < b[y as int].len() implies #[trigger] b[y as int][j].0 != x by {
                        assert(b[y as int][j] == a[y as int][j]);
                    }
                    lemma_absent(b[y as int], x, w);
                }
            }
            assert forall|u: int, j: int| 0 <= u < b.len() && 0 <= j < b[u].len() implies #[trigger] b[u][j].0 != u
                && b[u][j].0 < b.len() by {
                assert(u < a.len());
                assert(b[u][j] == a[u][j]);
            }
        },
        GraphCall::AddUndirEdge(u, v, w) => {
            let w1 = choose|w1: W|
                #![trigger cloned(w, w1)]
                {
                    let a1 = a.update(u as int, a[u as int].push((v, w1)));
                    &&& cloned(w, w1)
                    &&& b == a1.update(v as int, a1[v as int].push((u, w)))
                };
            assert(w1 == w);
            let a1 = a.update(u as int, a[u as int].push((v, w)));
            assert forall|x: NodeId, y: NodeId, z: W| x < b.len() && y < b.len() implies #[trigger] occurs(
                b[x as int],
                y,
                z,
            ) == occurs(b[y as int], x, z) by {
                assert(occurs(a[x as int], y, z) == occurs(a[y as int], x, z));
                assert forall|t: NodeId| t < b.len() implies #[trigger] occurs(b[t as int], y, z) == occurs(
                    a[t as int],
                    y,
                    z,
                ) + (if t == u && y == v && z == w {
                    1nat
                } else {
                    0nat
                }) + (if t == v && y == u && z == w {
                    1nat
                } else {
                    0nat
                }) by {
                    if t == u {
                        assert(a1[t as int] == a[t as int].push((v, w)));
                    } else {
                        assert(a1[t as int] == a[t as int]);
                    }
                    if t == v {
                        assert(b[t as int] == a1[t as int].push((u, w)));
                    } else {
                        assert(b[t as int] == a1[t as int]);
                    }
                }
                assert forall|t: NodeId| t < b.len() implies #[trigger] occurs(b[t as int], x, z) == occurs(
                    a[t as int],
                    x,
                    z,
                ) + (if t == u && x == v && z == w {
                    1nat
                } else {
                    0nat
                }) + (if t == v && x == u && z == w {
                    1nat
                } else {
                    0nat
                }) by {
                    if t == u {
                        assert(a1[t as int] == a[t as int].push((v, w)));
                    } else {
                        assert(a1[t as int] == a[t as int]);
                    }
                    if t == v {
                        assert(b[t as int] == a1[t as int].push((u, w)));
                    } else {
                        assert(b[t as int] == a1[t as int]);
                    }
                }
                assert(occurs(b[x as int], y, z) == occurs(a[x as int], y, z) + (if x == u && y == v && z == w {
                    1nat
                } else {
                    0nat
                }) + (if x == v && y == u && z == w {
                    1nat
                } else {
                    0nat
                }));
                assert(occurs(b[y as int], x, z) == occurs(a[y as int], x, z) + (if y == u && x == v && z == w {
                    1nat
                } else {
                    0nat
                }) + (if y == v && x == u && z == w {
                    1nat
                } else {
                    0nat
                }));
            }
            assert forall|t: int, j: int| 0 <= t < b.len() && 0 <= j < b[t].len() implies #[trigger] b[t][j].0 != t
                && b[t][j].0 < b.len() by {
                if t == v && j == a1[t].len() {
                } else {
                    assert(b[t][j] == a1[t][j]);
                    if t == u && j == a[t].len() {
                    } else {
                        assert(a1[t][j] == a[t][j]);
                    }
                }
            }
        },
        _ => {},
    }
}

/// A graph built from an empty one by `add_node` calls and by
/// `add_undir_edge` calls that each join two different nodes, with weights
/// whose clones equal them, has no self-loops, edges only to its own
/// nodes, and each of its edges stands beside its reverse with the same
/// weight.
pub proof fn lemma_built_undirected<N, W: Clone>(calls: Seq<GraphCall<N, W>>, gs: Seq<Graph<N, W>>)
    requires
        gs.len() == calls.len() + 1,
        gs[0].adj_view() == Seq::<Seq<(NodeId, W)>>::empty(),
        forall|i: int| 0 <= i < calls.len() ==> undir_call_done(#[trigger] gs[i], calls[i], gs[i + 1]),
        forall|i: int| 0 <= i < calls.len() ==> joins_two_nodes(#[trigger] calls[i]),
        forall|a: W, b: W| cloned(a, b) ==> a == b,
    ensures
        balanced(gs.last().adj_view()),
        no_self_loops(gs.last().adj_view()),
        targets_in_range(gs.last().adj_view()),
    decreases calls.len(),
{
    if calls.len() > 0 {
        let m = calls.len() - 1;
        let c0 = calls.drop_last();
        let g0 = gs.drop_last();
        assert forall|i: int| 0 <= i < c0.len() implies undir_call_done(#[trigger] g0[i], c0[i], g0[i + 1]) by {
            assert(undir_call_done(gs[i], calls[i], gs[i + 1]));
        }
        assert forall|i: int| 0 <= i < c0.len() implies joins_two_nodes(#[trigger] c0[i]) by {
            assert(joins_two_nodes(calls[i]));
        }
        lemma_built_undirected(c0, g0);
        assert(g0.last() == gs[m]);
        assert(undir_call_done(gs[m], calls[m], gs[m + 1]));
        assert(joins_two_nodes(calls[m]));
        lemma_undir_step(gs[m], calls[m], gs[m + 1]);
    }
}

/// Undirected round trip of a graph: when `jg` is what
/// `to_json_model(false)` returns for `g`, `g2` is what `from_json_model`
/// returns for `jg`, and `g` has no self-loops, each of its edges beside its
/// reverse with the same weight (as `lemma_built_undirected` gives), and
/// weights whose clones equal them, then `jg` meets what `from_json_model`
/// requires, `g2` has as many nodes as `g`, the same node data when clones
/// of node data equal them, and for every node the same entries
/// `(target, weight)` as in `g`, each as often, possibly in another order.
pub proof fn lemma_json_undirected_round_trip<N: Clone, W: Clone>(g: Graph<N, W>, jg: JsonGraph<N, W>, g2: Graph<N, W>)
    requires
        g.wf(),
        !jg.directed,
        jg.nodes@.len() == g.size(),
        forall|i: int|
            0 <= i < jg.nodes@.len() ==> (#[trigger] jg.nodes@[i]).id == i && cloned(g.nodes_view()[i], jg.nodes@[i].data),
        edges_cloned(export_edges(g.adj_view(), false, g.size() as int), jg.edges@),
        g2.wf(),
        g2.size() == jg.nodes@.len(),
        forall|i: int| 0 <= i < g2.size() ==> cloned(#[trigger] jg.nodes@[i].data, g2.nodes_view()[i]),
        adj_cloned(import_adj(jg.nodes@.len(), edge_triples(jg.edges@), jg.directed), g2.adj_view()),
        no_self_loops(g.adj_view()),
        balanced(g.adj_view()),
        forall|a: W, b: W| cloned(a, b) ==> a == b,
    ensures
        forall|k: int|
            0 <= k < jg.edges@.len() ==> (#[trigger] jg.edges@[k]).src < jg.nodes@.len() && jg.edges@[k].dst
                < jg.nodes@.len(),
        g2.size() == g.size(),
        forall|u: int| 0 <= u < g.size() ==> (#[trigger] g2.adj_view()[u]).to_multiset() == g.adj_view()[u].to_multiset(),
        (forall|a: N, b: N| cloned(a, b) ==> a == b) ==> g2.nodes_view() == g.nodes_view(),
{
    let adj = g.adj_view();
    let n = g.size();
    g.lemma_size_fits();
    lemma_export_targets(adj);
    let ex = export_edges(adj, false, n as int);
    let t = edge_triples(jg.edges@);
    assert forall|k: int| 0 <= k < jg.edges@.len() implies (#[trigger] jg.edges@[k]).src < jg.nodes@.len()
        && jg.edges@[k].dst < jg.nodes@.len() by {
        assert(ex[k].0 < n && ex[k].1 < n);
    }
    assert forall|k: int| 0 <= k < ex.len() implies #[trigger] t[k] == ex[k] by {
        assert(cloned(ex[k].2, jg.edges@[k].weight));
    }
    assert(t =~= ex);
    lemma_undirected_rows_permuted(adj);
    let back = import_adj(n, ex, false);
    assert forall|u: int| 0 <= u < n implies #[trigger] g2.adj_view()[u] == back[u] by {
        assert forall|j: int| 0 <= j < back[u].len() implies g2.adj_view()[u][j] == back[u][j] by {
            assert(cloned(back[u][j].1, g2.adj_view()[u][j].1));
        }
        assert(g2.adj_view()[u] =~= back[u]);
    }
    if forall|a: N, b: N| cloned(a, b) ==> a == b {
        assert forall|i: int| 0 <= i < n implies g2.nodes_view()[i] == g.nodes_view()[i] by {
            assert(cloned(g.nodes_view()[i], jg.nodes@[i].data));
            assert(cloned(jg.nodes@[i].data, g2.nodes_view()[i]));
        }
        assert(g2.nodes_view() =~= g.nodes_view());
    }
}

} // verus!
