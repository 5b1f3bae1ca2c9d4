//! An adjacency-list graph whose nodes carry data of type `N` and whose
//! directed edges carry weights of type `W`.
use crate::search::{back_chain, bfs_search, chain_ends, covers_reachable, covers_within, discovered, fifo_search, is_bfs_tree, stops_at, walk_back};
use crate::walks::{hop_distance, reachable};
use vstd::prelude::*;

verus! {

/// The outcome of a path search between two users: their names, the names
/// and ids of the nodes along the path, and its number of edges.
pub struct BfsResult {
    pub start_user: String,
    pub end_user: String,
    pub path_nodes: Vec<String>,
    pub path_ids: Vec<usize>,
    pub distance: usize,
}

/// Nodes are named by their position in the order they were added.
pub type NodeId = usize;

/// A directed graph stored as a list of node data and, for each node, the
/// list of its outgoing edges `(target, weight)` in insertion order.
pub struct Graph<N, W = ()> {
    nodes: Vec<N>,
    adj: Vec<Vec<(NodeId, W)>>,
}

impl<N, W> Graph<N, W> {
    /// The data of every node, by id.
    pub closed spec fn nodes_view(&self) -> Seq<N> {
        self.nodes@
    }

    /// The outgoing edges of every node, by id, in insertion order.
    pub closed spec fn adj_view(&self) -> Seq<Seq<(NodeId, W)>> {
        self.adj@.map_values(|row: Vec<(NodeId, W)>| row@)
    }

    /// The number of nodes, as a mathematical integer.
    pub open spec fn size(&self) -> nat {
        self.nodes_view().len()
    }

    /// Every node has an edge list, and every edge ends at an existing node.
    pub open spec fn wf(&self) -> bool {
        &&& self.adj_view().len() == self.size()
        &&& forall|u: int, j: int|
            0 <= u < self.adj_view().len() && 0 <= j < self.adj_view()[u].len() ==> #[trigger] self.adj_view()[u][j].0
                < self.size()
    }

    /// A graph has fewer nodes than `usize` can count.
    pub proof fn lemma_size_fits(&self)
        ensures
            self.size() <= usize::MAX,
    {
        assert(self.nodes.len() == self.nodes@.len());
    }

    /// An empty graph.
    pub fn new() -> (g: Self)
        ensures
            g.wf(),
            g.nodes_view() == Seq::<N>::empty(),
            g.adj_view() == Seq::<Seq<(NodeId, W)>>::empty(),
    {
        let g = Graph { nodes: Vec::new(), adj: Vec::new() };
        assert(g.adj_view() =~= Seq::<Seq<(NodeId, W)>>::empty());
        g
    }

    /// Adds a node holding `data`, with no edges, and returns its id.
    pub fn add_node(&mut self, data: N) -> (id: NodeId)
        requires
            old(self).wf(),
        ensures
            final(self).wf(),
            id == old(self).size(),
            final(self).nodes_view() == old(self).nodes_view().push(data),
            final(self).adj_view() == old(self).adj_view().push(Seq::<(NodeId, W)>::empty()),
    {
        let id = self.nodes.len();
        self.nodes.push(data);
        self.adj.push(Vec::new());
        assert(self.adj_view() =~= old(self).adj_view().push(Seq::<(NodeId, W)>::empty()));
        id
    }

    /// Adds the directed edge `u -> v` with weight `w` after the existing
    /// edges of `u`.
    pub fn add_edge(&mut self, u: NodeId, v: NodeId, w: W)
        requires
            old(self).wf(),
            u < old(self).size(),
            v < old(self).size(),
        ensures
            final(self).wf(),
            final(self).nodes_view() == old(self).nodes_view(),
            final(self).adj_view() == old(self).adj_view().update(
                u as int,
                old(self).adj_view()[u as int].push((v, w)),
            ),
    {
        let ghost a0 = self.adj_view();
        self.adj[u].push((v, w));
        assert(self.adj_view() =~= a0.update(u as int, a0[u as int].push((v, w))));
        assert forall|x: int, j: int|
            0 <= x < self.adj_view().len() && 0 <= j < self.adj_view()[x].len() implies #[trigger] self.adj_view()[x][j].0
                < self.size() by {
            if x == u && j == a0[x].len() {
            } else {
                assert(self.adj_view()[x][j] == a0[x][j]);
            }
        }
    }

    /// The outgoing edges of `u`.
    pub fn neighbors(&self, u: NodeId) -> (r: &[(NodeId, W)])
        requires
            self.wf(),
            u < self.size(),
        ensures
            r@ == self.adj_view()[u as int],
    {
        self.adj[u].as_slice()
    }

    /// The data of node `id`.
    pub fn node(&self, id: NodeId) -> (r: &N)
        requires
            id < self.size(),
        ensures
            *r == self.nodes_view()[id as int],
    {
        &self.nodes[id]
    }

    /// Mutable access to the data of node `id`; the edges stay as they are.
    pub fn node_mut(&mut self, id: NodeId) -> (r: &mut N)
        requires
            id < old(self).size(),
        ensures
            *r == old(self).nodes_view()[id as int],
            final(self).nodes_view() == old(self).nodes_view().update(id as int, *final(r)),
            final(self).adj_view() == old(self).adj_view(),
    {
        &mut self.nodes[id]
    }

    /// The number of nodes.
    pub fn len(&self) -> (n: usize)
        ensures
            n == self.size(),
    {
        self.nodes.len()
    }

    /// Whether the graph has no nodes.
    pub fn is_empty(&self) -> (b: bool)
        ensures
            b == (self.size() == 0),
    {
        self.nodes.is_empty()
    }
}

impl<N, W: Clone> Graph<N, W> {
    /// Adds `u -> v` with a clone of `w`, then `v -> u` with `w`.
    pub fn add_undir_edge(&mut self, u: NodeId, v: NodeId, w: W)
        requires
            old(self).wf(),
            u < old(self).size(),
            v < old(self).size(),
        ensures
            final(self).wf(),
            final(self).nodes_view() == old(self).nodes_view(),
            exists|w1: W|
                #![trigger cloned(w, w1)]
                {
                    let a1 = old(self).adj_view().update(u as int, old(self).adj_view()[u as int].push((v, w1)));
                    &&& cloned(w, w1)
                    &&& final(self).adj_view() == a1.update(v as int, a1[v as int].push((u, w)))
                },
    {
        let w1 = w.clone();
        let ghost wc = w1;
        let ghost a1 = old(self).adj_view().update(u as int, old(self).adj_view()[u as int].push((v, wc)));
        self.add_edge(u, v, w1);
        self.add_edge(v, u, w);
        assert(cloned(w, wc));
        assert(self.adj_view() == a1.update(v as int, a1[v as int].push((u, w))));
    }
}

/// A call that changes a graph: `add_node` with the data, `add_edge` or
/// `add_undir_edge` with their arguments, or a write of new data into node
/// `id` through `node_mut`.
pub enum GraphCall<N, W> {
    AddNode(N),
    AddEdge(NodeId, NodeId, W),
    AddUndirEdge(NodeId, NodeId, W),
    SetNode(NodeId, N),
}

/// What the contract of the call `c` says of the nodes when it takes `g0`
/// to `g1`; `id` is what `add_node` returned.
pub open spec fn call_done<N, W>(g0: Graph<N, W>, c: GraphCall<N, W>, g1: Graph<N, W>, id: NodeId) -> bool {
    match c {
        GraphCall::AddNode(d) => id == g0.size() && g1.nodes_view() == g0.nodes_view().push(d),
        GraphCall::AddEdge(u, v, w) => g1.nodes_view() == g0.nodes_view(),
        GraphCall::AddUndirEdge(u, v, w) => g1.nodes_view() == g0.nodes_view(),
        GraphCall::SetNode(k, d) => k < g0.size() && g1.nodes_view() == g0.nodes_view().update(k as int, d),
    }
}

/// How many of `calls` are `add_node`.
pub open spec fn nodes_added<N, W>(calls: Seq<GraphCall<N, W>>) -> nat
    decreases calls.len(),
{
    if calls.len() == 0 {
        0
    } else {
        nodes_added(calls.drop_last()) + if calls.last() is AddNode {
            1nat
        } else {
            0nat
        }
    }
}

/// The node data after `calls`, starting from no nodes: each `add_node`
/// appends its data and each write replaces the data of its node.
pub open spec fn nodes_after<N, W>(calls: Seq<GraphCall<N, W>>) -> Seq<N>
    decreases calls.len(),
{
    if calls.len() == 0 {
        Seq::empty()
    } else {
        let s = nodes_after(calls.drop_last());
        match calls.last() {
            GraphCall::AddNode(d) => s.push(d),
            GraphCall::SetNode(k, d) => s.update(k as int, d),
            _ => s,
        }
    }
}

/// Node ids are dense and count the nodes: when the graphs `gs[0]`, ...,
/// `gs[m]` start from an empty graph and each `gs[i + 1]` comes from `gs[i]`
/// by the call `calls[i]`, every `add_node` returns the number of
/// `add_node` calls before it (0, 1, 2, ... in order), the final graph has
/// as many nodes as there were `add_node` calls (edges and writes change no
/// count), and its node data are those added, each as last written.
pub proof fn lemma_node_ids_dense<N, W>(calls: Seq<GraphCall<N, W>>, gs: Seq<Graph<N, W>>, ids: Seq<NodeId>)
    requires
        gs.len() == calls.len() + 1,
        ids.len() == calls.len(),
        gs[0].nodes_view() == Seq::<N>::empty(),
        forall|i: int| 0 <= i < calls.len() ==> call_done(#[trigger] gs[i], calls[i], gs[i + 1], ids[i]),
    ensures
        gs.last().size() == nodes_added(calls),
        gs.last().nodes_view() == nodes_after(calls),
        forall|i: int| 0 <= i < calls.len() && (#[trigger] calls[i]) is AddNode ==> ids[i] == nodes_added(calls.take(i)),
    decreases calls.len(),
{
    if calls.len() > 0 {
        let m = calls.len() - 1;
        let c0 = calls.drop_last();
        let g0 = gs.drop_last();
        assert forall|i: int| 0 <= i < c0.len() implies call_done(#[trigger] g0[i], c0[i], g0[i + 1], ids.drop_last()[i]) by {
            assert(call_done(gs[i], calls[i], gs[i + 1], ids[i]));
        }
        lemma_node_ids_dense(c0, g0, ids.drop_last());
        assert(g0.last() == gs[m]);
        assert(call_done(gs[m], calls[m], gs[m + 1], ids[m]));
        assert(calls.take(m) =~= c0);
        assert forall|i: int| 0 <= i < calls.len() && (#[trigger] calls[i]) is AddNode implies ids[i] == nodes_added(
            calls.take(i),
        ) by {
            if i < m {
                assert(c0[i] == calls[i]);
                assert(c0.take(i) =~= calls.take(i));
            }
        }
    }
}

/// Breadth-first search from `start`, first in first out, that stops once
/// `target` leaves the queue. `parent[v]` is the node `v` was discovered
/// from (`start` for itself, `None` for undiscovered nodes): the
/// earliest-discovered node with an edge to `v`, following its edges in
/// order. The result is a shortest-path tree; when `target` is reachable it
/// is discovered, together with every node no farther from `start` than
/// it, otherwise every reachable node is.
pub fn bfs<N, W>(g: &Graph<N, W>, start: NodeId, target: NodeId) -> (parent: Vec<Option<NodeId>>)
    requires
        g.wf(),
        start < g.size(),
    ensures
        is_bfs_tree(g.adj_view(), start as int, parent@),
        reachable(g.adj_view(), start as int, target as int) ==> target < parent@.len() && discovered(
            parent@,
            target as int,
        ) && exists|d: int|
            hop_distance(g.adj_view(), start as int, target as int, d) && #[trigger] covers_within(
                g.adj_view(),
                start as int,
                parent@,
                d,
            ),
        !reachable(g.adj_view(), start as int, target as int) ==> covers_reachable(
            g.adj_view(),
            start as int,
            parent@,
        ),
        exists|order: Seq<NodeId>, done: int|
            #[trigger] fifo_search(g.adj_view(), start as int, order, done, parent@) && stops_at(
                order,
                done,
                Some(target),
            ),
{
    let parent = bfs_search(g, start, Some(target));
    proof {
        let adj = g.adj_view();
        if reachable(adj, start as int, target as int) {
            let s = choose|s: Seq<int>| crate::walks::is_walk(adj, start as int, s, target as int);
            if s.len() > 0 {
                let u = crate::walks::walk_end(adj, start as int, s.drop_last());
                assert(adj[u][s.last()].0 < g.size());
            }
            if covers_reachable(adj, start as int, parent@) {
                assert(discovered(parent@, target as int));
                if target == start {
                    assert(crate::walks::is_walk(adj, start as int, Seq::<int>::empty(), start as int));
                    assert(hop_distance(adj, start as int, target as int, 0));
                    assert(covers_within(adj, start as int, parent@, 0));
                } else {
                    let d0 = choose|d0: int| #[trigger] hop_distance(adj, start as int, parent@[target as int]->0 as int, d0)
                        && hop_distance(adj, start as int, target as int, d0 + 1);
                    assert(covers_within(adj, start as int, parent@, d0 + 1));
                }
            }
        } else {
            if !covers_reachable(adj, start as int, parent@) {
                assert(reachable(adj, start as int, target as int));
            }
        }
    }
    parent
}

/// Rebuilds the path from `start` to `dest` by following parent links back
/// from `dest`: the chain of links read from `start`, or an empty path when
/// the chain stops before reaching `start`.
pub fn build_path_from_parent(start: NodeId, dest: NodeId, parent: &[Option<NodeId>]) -> (path: Vec<NodeId>)
    requires
        chain_ends(parent@, start, dest),
    ensures
        path@ == if back_chain(parent@, start, dest).last() == start {
            back_chain(parent@, start, dest).reverse()
        } else {
            Seq::<NodeId>::empty()
        },
{
    let ghost f = choose|f: nat| (#[trigger] walk_back(parent@, start, dest, f)) is Some;
    let ghost c = back_chain(parent@, start, dest);
    let mut path: Vec<NodeId> = Vec::new();
    let mut cur: Option<NodeId> = Some(dest);
    let ghost mut fuel: nat = f;
    loop
        invariant_except_break
            cur matches Some(v) ==> walk_back(parent@, start, v, fuel) is Some && path@ + walk_back(
                parent@,
                start,
                v,
                fuel,
            )->0 == c,
            cur is None ==> path@ == c && path@.len() > 0,
        invariant
            c == walk_back(parent@, start, dest, f)->0,
        ensures
            path@ == c,
            path@.len() > 0,
        decreases fuel,
    {
        match cur {
            None => {
                break ;
            },
            Some(v) => {
                let ghost p0 = path@;
                path.push(v);
                if v == start {
                    assert(path@ =~= c);
                    break ;
                }
                cur = parent[v];
                proof {
                    match cur {
                        None => {
                            assert(path@ =~= c);
                        },
                        Some(p) => {
                            let rest = walk_back(parent@, start, p, (fuel - 1) as nat)->0;
                            assert(path@ + rest =~= p0 + (seq![v] + rest));
                        },
                    }
                    fuel = (fuel - 1) as nat;
                }
            },
        }
    }
    let mut rev: Vec<NodeId> = Vec::new();
    let mut k = path.len();
    while k > 0
        invariant
            k <= path@.len(),
            rev@ == path@.subrange(k as int, path@.len() as int).reverse(),
        decreases k,
    {
        k = k - 1;
        rev.push(path[k]);
        assert(rev@ =~= path@.subrange(k as int, path@.len() as int).reverse());
    }
    assert(path@.subrange(0, path@.len() as int) =~= path@);
    if rev.len() > 0 && rev[0] == start {
        rev
    } else {
        Vec::new()
    }
}

} // verus!
