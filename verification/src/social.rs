//! Building the graph of mutual followers: canonical user names, the index
//! from names to nodes, the edges added for each reply about a user, and
//! the shortest route between two users.
use crate::graph::{bfs, build_path_from_parent, BfsResult, Graph, NodeId};
use crate::index::NameIndex;
use crate::json::{export_edges, lemma_undirected_export_simple, pair_in};
use crate::search::{back_chain, covers_reachable, covers_within, discovered, fifo_search, stops_at, has_edge_to, is_bfs_tree, is_node_path, lemma_tree_paths_are_shortest, no_self_loops, rows_distinct, symmetric};
use crate::text::{ascii_upper_str, canonical, lemma_canonical_idempotent, trim_str};
use crate::walks::{hop_distance, reachable};
use vstd::prelude::*;

verus! {

/// The canonical form of a user name: surrounding whitespace removed and
/// ASCII letters upper-cased.
pub fn canon(s: &str) -> (r: String)
    ensures
        r@ == canonical(s@),
{
    ascii_upper_str(trim_str(s))
}

/// The names of the nodes of a graph of users, by id.
pub open spec fn names_of<W>(g: &Graph<String, W>) -> Seq<Seq<char>> {
    g.nodes_view().map_values(|s: String| s@)
}

/// Every indexed name maps to a node that carries that name.
pub open spec fn consistent<W>(idx: &NameIndex, g: &Graph<String, W>) -> bool {
    &&& idx.wf()
    &&& g.wf()
    &&& forall|k: Seq<char>|
        #[trigger] idx.map().contains_key(k) ==> idx.map()[k] < g.size() && g.nodes_view()[idx.map()[k] as int]@ == k
}

/// The state that building the graph of mutual followers keeps: the index
/// is consistent and names every node by its own name, each name is
/// canonical, no node is joined to itself, no edge is repeated, and every
/// edge has its reverse.
pub open spec fn mutual_graph_ok<W>(idx: &NameIndex, g: &Graph<String, W>) -> bool {
    &&& consistent(idx, g)
    &&& forall|i: int|
        0 <= i < g.size() ==> idx.map().contains_key(#[trigger] g.nodes_view()[i]@) && idx.map()[g.nodes_view()[i]@]
            == i
    &&& forall|i: int| 0 <= i < g.size() ==> canonical(#[trigger] g.nodes_view()[i]@) == g.nodes_view()[i]@
    &&& no_self_loops(g.adj_view())
    &&& rows_distinct(g.adj_view())
    &&& symmetric(g.adj_view())
}

/// The id of the node named by the canonical form of `name`: the one the
/// index gives for that name, or a new node (without edges) holding the
/// name, which is then indexed.
pub fn get_or_create_node<W>(name: &str, g: &mut Graph<String, W>, idx: &mut NameIndex) -> (id: NodeId)
    requires
        consistent(old(idx), old(g)),
    ensures
        consistent(final(idx), final(g)),
        id < final(g).size(),
        final(g).nodes_view()[id as int]@ == canonical(name@),
        final(idx).map().contains_key(canonical(name@)),
        final(idx).map()[canonical(name@)] == id,
        old(idx).map().contains_key(canonical(name@)) ==> {
            &&& id == old(idx).map()[canonical(name@)]
            &&& final(idx).map() == old(idx).map()
            &&& final(g).nodes_view() == old(g).nodes_view()
            &&& final(g).adj_view() == old(g).adj_view()
        },
        !old(idx).map().contains_key(canonical(name@)) ==> {
            &&& id == old(g).size()
            &&& final(idx).map() == old(idx).map().insert(canonical(name@), id)
            &&& final(g).nodes_view().len() == old(g).size() + 1
            &&& final(g).nodes_view().drop_last() == old(g).nodes_view()
            &&& final(g).adj_view() == old(g).adj_view().push(Seq::<(NodeId, W)>::empty())
        },
        mutual_graph_ok(old(idx), old(g)) ==> mutual_graph_ok(final(idx), final(g)),
{
    let key = canon(name);
    match idx.get(key.as_str()) {
        Some(id) => id,
        None => {
            let ghost n0 = g.nodes_view();
            let ghost a0 = g.adj_view();
            let ghost m0 = idx.map();
            let ghost ok0 = mutual_graph_ok(idx, g);
            let id = g.add_node(key.clone());
            idx.insert_new(key, id);
            proof {
                let k = canonical(name@);
                assert(g.nodes_view().drop_last() =~= n0);
                assert forall|k2: Seq<char>| #[trigger] idx.map().contains_key(k2) implies idx.map()[k2] < g.size()
                    && g.nodes_view()[idx.map()[k2] as int]@ == k2 by {
                    if k2 != k {
                        assert(m0.contains_key(k2));
                        assert(g.nodes_view()[m0[k2] as int] == n0[m0[k2] as int]);
                    }
                }
                if ok0 {
                    lemma_canonical_idempotent(name@);
                    assert forall|i: int| 0 <= i < g.size() implies idx.map().contains_key(
                        #[trigger] g.nodes_view()[i]@,
                    ) && idx.map()[g.nodes_view()[i]@] == i by {
                        if i < n0.len() {
                            assert(g.nodes_view()[i] == n0[i]);
                            assert(m0.contains_key(n0[i]@));
                        }
                    }
                    assert forall|i: int| 0 <= i < g.size() implies canonical(#[trigger] g.nodes_view()[i]@)
                        == g.nodes_view()[i]@ by {
                        if i < n0.len() {
                            assert(g.nodes_view()[i] == n0[i]);
                        }
                    }
                    let a1 = g.adj_view();
                    assert forall|u: int, j: int| 0 <= u < a1.len() && 0 <= j < a1[u].len() implies #[trigger] a1[u][j].0
                        != u by {
                        assert(a1[u] == a0[u]);
                        assert(a0[u][j].0 < n0.len());
                    }
                    assert forall|u: int, i: int, j: int| 0 <= u < a1.len() && 0 <= i < j < a1[u].len() implies #[trigger] a1[u][i].0
                        != #[trigger] a1[u][j].0 by {
                        assert(a1[u] == a0[u]);
                    }
                    assert forall|x: int, y: int| 0 <= x < a1.len() && 0 <= y < a1.len() implies (#[trigger] has_edge_to(
                        a1,
                        x,
                        y,
                    ) <==> has_edge_to(a1, y, x)) by {
                        lemma_has_edge_push_empty(a0, x, y);
                        lemma_has_edge_push_empty(a0, y, x);
                        if x < a0.len() && y < a0.len() {
                            assert(has_edge_to(a0, x, y) <==> has_edge_to(a0, y, x));
                        }
                    }
                }
            }
            id
        },
    }
}

/// Adding a node without edges adds no edge to or from any node.
proof fn lemma_has_edge_push_empty<W>(adj: Seq<Seq<(NodeId, W)>>, x: int, y: int)
    requires
        forall|u: int, j: int| 0 <= u < adj.len() && 0 <= j < adj[u].len() ==> #[trigger] adj[u][j].0 < adj.len(),
        0 <= x <= adj.len(),
        0 <= y <= adj.len(),
    ensures
        has_edge_to(adj.push(Seq::<(NodeId, W)>::empty()), x, y) <==> (x < adj.len() && y < adj.len() && has_edge_to(
            adj,
            x,
            y,
        )),
{
    let a1 = adj.push(Seq::<(NodeId, W)>::empty());
    if has_edge_to(a1, x, y) {
        let j = choose|j: int| 0 <= j < a1[x].len() && #[trigger] a1[x][j].0 == y;
        assert(x < adj.len());
        assert(a1[x][j] == adj[x][j]);
    }
    if x < adj.len() && has_edge_to(adj, x, y) {
        let j = choose|j: int| 0 <= j < adj[x].len() && #[trigger] adj[x][j].0 == y;
        assert(a1[x][j] == adj[x][j]);
    }
}

/// Whether some edge leads from `u` to `v`.
pub fn has_edge<N, W>(g: &Graph<N, W>, u: NodeId, v: NodeId) -> (b: bool)
    requires
        g.wf(),
        u < g.size(),
    ensures
        b == has_edge_to(g.adj_view(), u as int, v as int),
{
    let nb = g.neighbors(u);
    let mut j: usize = 0;
    while j < nb.len()
        invariant
            nb@ == g.adj_view()[u as int],
            j <= nb@.len(),
            forall|t: int| 0 <= t < j ==> #[trigger] nb@[t].0 != v,
        decreases nb@.len() - j,
    {
        if nb[j].0 == v {
            assert(g.adj_view()[u as int][j as int].0 == v);
            return true;
        }
        j = j + 1;
    }
    proof {
        if has_edge_to(g.adj_view(), u as int, v as int) {
            let t = choose|t: int| 0 <= t < g.adj_view()[u as int].len() && #[trigger] g.adj_view()[u as int][t].0 == v;
            assert(nb@[t].0 == v);
        }
    }
    false
}

/// Breadth-first search from `start` that stops once `target` leaves the
/// queue; the same search as `graph::bfs`. `target` is discovered exactly
/// when it is reachable.
pub fn bfs_until<N, W>(g: &Graph<N, W>, start: NodeId, target: NodeId) -> (parent: Vec<Option<NodeId>>)
    requires
        g.wf(),
        start < g.size(),
    ensures
        is_bfs_tree(g.adj_view(), start as int, parent@),
        reachable(g.adj_view(), start as int, target as int) ==> exists|d: int|
            hop_distance(g.adj_view(), start as int, target as int, d) && #[trigger] covers_within(
                g.adj_view(),
                start as int,
                parent@,
                d,
            ),
        !reachable(g.adj_view(), start as int, target as int) ==> covers_reachable(
            g.adj_view(),
            start as int,
            parent@,
        ),
        exists|order: Seq<NodeId>, done: int|
            #[trigger] fifo_search(g.adj_view(), start as int, order, done, parent@) && stops_at(
                order,
                done,
                Some(target),
            ),
        reachable(g.adj_view(), start as int, target as int) <==> (target < parent@.len() && discovered(
            parent@,
            target as int,
        )),
{
    let parent = bfs(g, start, target);
    proof {
        if target < parent@.len() && discovered(parent@, target as int) {
            assert(reachable(g.adj_view(), start as int, target as int));
        }
    }
    parent
}

/// Adds the edge `a -> b` with weight `w` unless some edge `a -> b` exists.
pub open spec fn add_if_missing<W>(adj: Seq<Seq<(NodeId, W)>>, a: int, b: int, w: W) -> Seq<Seq<(NodeId, W)>> {
    if has_edge_to(adj, a, b) {
        adj
    } else {
        adj.update(a, adj[a].push((b as NodeId, w)))
    }
}

/// Adds `u -> v` and then `v -> u`, each unless already there.
pub open spec fn add_both<W>(adj: Seq<Seq<(NodeId, W)>>, u: int, v: int, w: W) -> Seq<Seq<(NodeId, W)>> {
    add_if_missing(add_if_missing(adj, u, v, w), v, u, w)
}

/// The index, node names and edges after recording that the user at node
/// `u`, named `user`, and the user named `m` follow each other: nothing when
/// the canonical form of `m` is `user`; otherwise the node the index gives
/// for that name, or a new node holding it (indexed under it), and an edge
/// each way unless one is already there.
pub open spec fn link_mutual<W>(
    map: Map<Seq<char>, NodeId>,
    names: Seq<Seq<char>>,
    adj: Seq<Seq<(NodeId, W)>>,
    u: int,
    user: Seq<char>,
    m: Seq<char>,
    w: W,
) -> (Map<Seq<char>, NodeId>, Seq<Seq<char>>, Seq<Seq<(NodeId, W)>>) {
    let key = canonical(m);
    if key == user {
        (map, names, adj)
    } else if map.contains_key(key) {
        (map, names, add_both(adj, u, map[key] as int, w))
    } else {
        let v = adj.len() as int;
        (map.insert(key, v as NodeId), names.push(key), add_both(adj.push(Seq::<(NodeId, W)>::empty()), u, v, w))
    }
}

/// `link_mutual` applied to each name of `ms` in turn.
pub open spec fn link_all<W>(
    map: Map<Seq<char>, NodeId>,
    names: Seq<Seq<char>>,
    adj: Seq<Seq<(NodeId, W)>>,
    u: int,
    user: Seq<char>,
    ms: Seq<Seq<char>>,
    w: W,
) -> (Map<Seq<char>, NodeId>, Seq<Seq<char>>, Seq<Seq<(NodeId, W)>>)
    decreases ms.len(),
{
    if ms.len() == 0 {
        (map, names, adj)
    } else {
        let prev = link_all(map, names, adj, u, user, ms.drop_last(), w);
        link_mutual(prev.0, prev.1, prev.2, u, user, ms.last(), w)
    }
}

/// A reply about one user: the user's name, the names of the users who
/// follow them back, or an error when the user is unknown.
pub struct PyResp {
    pub username: String,
    pub mutuals: Option<Vec<String>>,
    pub error: Option<String>,
}

/// How a reply was used.
#[derive(PartialEq, Eq, Structural, Clone, Copy, Debug)]
pub enum Reply {
    /// The reply reported an error: the user keeps a node without edges.
    Missing,
    /// The user was linked with each mutual follower.
    Linked,
    /// The reply had neither an error nor a list of mutual followers.
    NoMutuals,
}

/// Records a reply about the user at node `u_id`, named `username`: with an
/// error nothing changes; with a list of mutual followers each one is linked
/// with the user by edges of weight `weight` both ways (`link_all`).
pub fn apply_response<W: Copy>(
    g: &mut Graph<String, W>,
    idx: &mut NameIndex,
    u_id: NodeId,
    username: &str,
    resp: &PyResp,
    weight: W,
) -> (r: Reply)
    requires
        consistent(old(idx), old(g)),
        u_id < old(g).size(),
    ensures
        consistent(final(idx), final(g)),
        resp.error is Some ==> r == Reply::Missing,
        resp.error is None && resp.mutuals is None ==> r == Reply::NoMutuals,
        r != Reply::Linked ==> final(idx).map() == old(idx).map() && final(g).nodes_view() == old(g).nodes_view()
            && final(g).adj_view() == old(g).adj_view(),
        resp.error is None ==> (resp.mutuals matches Some(ms) ==> r == Reply::Linked && (
        final(idx).map(),
        names_of(final(g)),
        final(g).adj_view(),
        ) == link_all(
            old(idx).map(),
            names_of(old(g)),
            old(g).adj_view(),
            u_id as int,
            username@,
            ms@.map_values(|s: String| s@),
            weight,
        )),
        mutual_graph_ok(old(idx), old(g)) && old(g).nodes_view()[u_id as int]@ == username@ ==> mutual_graph_ok(
            final(idx),
            final(g),
        ),
{
    if resp.error.is_some() {
        return Reply::Missing;
    }
    let ms = match &resp.mutuals {
        Some(ms) => ms,
        None => {
            return Reply::NoMutuals;
        },
    };
    let user = username.to_owned();
    let ghost m0 = idx.map();
    let ghost n0 = names_of(g);
    let ghost a0 = g.adj_view();
    let ghost msv = ms@.map_values(|s: String| s@);
    let ghost ok0 = mutual_graph_ok(idx, g) && g.nodes_view()[u_id as int]@ == username@;
    let ghost lu = g.nodes_view()[u_id as int]@;
    let mut i: usize = 0;
    while i < ms.len()
        invariant
            consistent(idx, g),
            u_id < g.size(),
            user@ == username@,
            i <= ms@.len(),
            msv == ms@.map_values(|s: String| s@),
            (idx.map(), names_of(g), g.adj_view()) == link_all(m0, n0, a0, u_id as int, username@, msv.take(i as int), weight),
            g.nodes_view()[u_id as int]@ == lu,
            ok0 ==> lu == username@,
            ok0 ==> mutual_graph_ok(idx, g),
        decreases ms@.len() - i,
    {
        let ghost mb = idx.map();
        let ghost nb = names_of(g);
        let ghost ab = g.adj_view();
        let ghost nv = g.nodes_view();
        assert(msv.take(i + 1).drop_last() =~= msv.take(i as int));
        assert(msv.take(i + 1).last() == ms@[i as int]@);
        let m = canon(ms[i].as_str());
        if m == user {
        } else {
            proof {
                lemma_canonical_idempotent(ms@[i as int]@);
            }
            let v_id = get_or_create_node(m.as_str(), g, idx);
            proof {
                if !mb.contains_key(m@) {
                    assert(names_of(g) =~= nb.push(m@)) by {
                        assert forall|t: int| 0 <= t < nb.len() implies names_of(g)[t] == nb[t] by {
                            assert(g.nodes_view()[t] == g.nodes_view().drop_last()[t]);
                        }
                    }
                    assert(g.nodes_view()[u_id as int] == nv[u_id as int]) by {
                        assert(g.nodes_view()[u_id as int] == g.nodes_view().drop_last()[u_id as int]);
                    }
                }
            }
            let ghost am = g.adj_view();
            if !has_edge(g, u_id, v_id) {
                g.add_edge(u_id, v_id, weight);
            }
            if !has_edge(g, v_id, u_id) {
                g.add_edge(v_id, u_id, weight);
            }
            proof {
                if ok0 {
                    g.lemma_size_fits();
                    assert(v_id != u_id);
                    lemma_add_both_ok(am, u_id as int, v_id as int, weight);
                }
            }
        }
        i = i + 1;
    }
    assert(msv.take(ms@.len() as int) =~= msv);
    Reply::Linked
}

/// Adding a missing edge `a -> b` adds exactly that pair to the joined
/// pairs.
proof fn lemma_add_if_missing_edges<W>(adj: Seq<Seq<(NodeId, W)>>, a: int, b: int, w: W, x: int, y: int)
    requires
        adj.len() <= usize::MAX,
        0 <= a < adj.len(),
        0 <= b < adj.len(),
        0 <= x < adj.len(),
    ensures
        add_if_missing(adj, a, b, w).len() == adj.len(),
        has_edge_to(add_if_missing(adj, a, b, w), x, y) <==> (has_edge_to(adj, x, y) || (x == a && y == b)),
{
    let r = add_if_missing(adj, a, b, w);
    if !has_edge_to(adj, a, b) {
        if has_edge_to(adj, x, y) {
            let t = choose|t: int| 0 <= t < adj[x].len() && #[trigger] adj[x][t].0 == y;
            assert(r[x][t] == adj[x][t]);
        }
        if x == a && y == b {
            assert(r[a][adj[a].len() as int].0 == b);
        }
        if has_edge_to(r, x, y) {
            let t = choose|t: int| 0 <= t < r[x].len() && #[trigger] r[x][t].0 == y;
            if x != a || t < adj[a].len() {
                assert(r[x][t] == adj[x][t]);
            }
        }
    }
}

proof fn lemma_add_missing_shape<W>(adj: Seq<Seq<(NodeId, W)>>, a: int, b: int, w: W)
    requires
        adj.len() <= usize::MAX,
        0 <= a < adj.len(),
        0 <= b < adj.len(),
        a != b,
        no_self_loops(adj),
        rows_distinct(adj),
    ensures
        no_self_loops(add_if_missing(adj, a, b, w)),
        rows_distinct(add_if_missing(adj, a, b, w)),
{
    let r = add_if_missing(adj, a, b, w);
    if !has_edge_to(adj, a, b) {
        assert forall|u: int, j: int| 0 <= u < r.len() && 0 <= j < r[u].len() implies #[trigger] r[u][j].0 != u by {
            if u != a || j < adj[a].len() {
                assert(r[u][j] == adj[u][j]);
            }
        }
        assert forall|u: int, i: int, j: int| 0 <= u < r.len() && 0 <= i < j < r[u].len() implies #[trigger] r[u][i].0
            != #[trigger] r[u][j].0 by {
            if u != a || j < adj[a].len() {
                assert(r[u][i] == adj[u][i] && r[u][j] == adj[u][j]);
            } else {
                assert(r[u][i] == adj[u][i]);
                assert(r[u][j].0 == b);
                if adj[u][i].0 == b {
                    assert(has_edge_to(adj, a, b));
                }
            }
        }
    }
}

/// Joining two different nodes both ways keeps a graph free of self-loops
/// and repeated edges, and keeps every edge paired with its reverse.
proof fn lemma_add_both_ok<W>(adj: Seq<Seq<(NodeId, W)>>, u: int, v: int, w: W)
    requires
        adj.len() <= usize::MAX,
        0 <= u < adj.len(),
        0 <= v < adj.len(),
        u != v,
        no_self_loops(adj),
        rows_distinct(adj),
        symmetric(adj),
    ensures
        no_self_loops(add_both(adj, u, v, w)),
        rows_distinct(add_both(adj, u, v, w)),
        symmetric(add_both(adj, u, v, w)),
        add_both(adj, u, v, w).len() == adj.len(),
{
    let a1 = add_if_missing(adj, u, v, w);
    let a2 = add_both(adj, u, v, w);
    lemma_add_missing_shape(adj, u, v, w);
    lemma_add_if_missing_edges(adj, u, v, w, 0, 0);
    lemma_add_missing_shape(a1, v, u, w);
    assert forall|x: int, y: int| 0 <= x < a2.len() && 0 <= y < a2.len() implies (#[trigger] has_edge_to(a2, x, y)
        <==> has_edge_to(a2, y, x)) by {
        lemma_add_if_missing_edges(adj, u, v, w, x, y);
        lemma_add_if_missing_edges(adj, u, v, w, y, x);
        lemma_add_if_missing_edges(a1, v, u, w, x, y);
        lemma_add_if_missing_edges(a1, v, u, w, y, x);
        assert(has_edge_to(adj, x, y) <==> has_edge_to(adj, y, x));
    }
    lemma_add_if_missing_edges(a1, v, u, w, 0, 0);
}

/// `res` describes a shortest path from node `s`, named `sk`, to node `d`,
/// named `ek`: its ids start at `s`, end at `d` and follow edges, it has as
/// few edges as any walk between them, and its names are the nodes' names.
pub open spec fn is_route<W>(
    adj: Seq<Seq<(NodeId, W)>>,
    names: Seq<Seq<char>>,
    s: int,
    d: int,
    sk: Seq<char>,
    ek: Seq<char>,
    res: BfsResult,
) -> bool {
    let p = res.path_ids@;
    &&& res.start_user@ == sk
    &&& res.end_user@ == ek
    &&& p.len() > 0
    &&& p[0] == s
    &&& p.last() == d
    &&& is_node_path(adj, p)
    &&& hop_distance(adj, s, d, p.len() - 1)
    &&& res.distance == p.len() - 1
    &&& res.path_nodes@.len() == p.len()
    &&& forall|i: int| 0 <= i < p.len() ==> (#[trigger] res.path_nodes@[i])@ == names[p[i] as int]
}

/// The outcome of looking for a route between two users.
pub enum Route {
    /// One of the two names is not indexed.
    UnknownUser,
    /// Both users are known and no path leads from the first to the second.
    NoPath { start_user: String, end_user: String },
    /// A shortest path from the first user to the second.
    Found(BfsResult),
}

/// Looks up both users by the canonical forms of the given names and, when
/// both are known, finds a path with the fewest edges from the first to the
/// second.
pub fn find_route<W>(g: &Graph<String, W>, idx: &NameIndex, start_input: &str, end_input: &str) -> (r: Route)
    requires
        consistent(idx, g),
    ensures
        ({
            let sk = canonical(start_input@);
            let ek = canonical(end_input@);
            let map = idx.map();
            &&& (r is UnknownUser <==> !(map.contains_key(sk) && map.contains_key(ek)))
            &&& map.contains_key(sk) && map.contains_key(ek) ==> {
                let s = map[sk] as int;
                let d = map[ek] as int;
                &&& (r is NoPath <==> !reachable(g.adj_view(), s, d))
                &&& (r matches Route::NoPath { start_user, end_user } ==> start_user@ == sk && end_user@ == ek)
                &&& (r matches Route::Found(res) ==> is_route(g.adj_view(), names_of(g), s, d, sk, ek, res))
                &&& (r matches Route::Found(res) ==> exists|order: Seq<NodeId>, done: int, parent: Seq<Option<NodeId>>|
                    #[trigger] fifo_search(g.adj_view(), s, order, done, parent) && stops_at(order, done, Some(d as NodeId))
                        && res.path_ids@ == back_chain(parent, s as NodeId, d as NodeId).reverse())
            }
        }),
{
    let start_node = canon(start_input);
    let end_node = canon(end_input);
    let s = match idx.get(start_node.as_str()) {
        Some(s) => s,
        None => {
            return Route::UnknownUser;
        },
    };
    let d = match idx.get(end_node.as_str()) {
        Some(d) => d,
        None => {
            return Route::UnknownUser;
        },
    };
    let ghost names = names_of(g);
    let ghost adj = g.adj_view();
    let parent = bfs_until(g, s, d);
    proof {
        lemma_tree_paths_are_shortest(adj, s, parent@, d);
    }
    let path_ids = build_path_from_parent(s, d, parent.as_slice());
    if path_ids.len() == 0 {
        return Route::NoPath { start_user: start_node, end_user: end_node };
    }
    let mut path_nodes: Vec<String> = Vec::new();
    let mut i: usize = 0;
    while i < path_ids.len()
        invariant
            g.wf(),
            names == names_of(g),
            i <= path_ids@.len(),
            forall|k: int| 0 <= k < path_ids@.len() ==> #[trigger] path_ids@[k] < g.size(),
            path_nodes@.len() == i,
            forall|k: int| 0 <= k < i ==> (#[trigger] path_nodes@[k])@ == names[path_ids@[k] as int],
        decreases path_ids@.len() - i,
    {
        let id = path_ids[i];
        let name = g.node(id).clone();
        path_nodes.push(name);
        i = i + 1;
    }
    let distance = path_ids.len() - 1;
    proof {
        let (order, done) = choose|order: Seq<NodeId>, done: int|
            #[trigger] fifo_search(adj, s as int, order, done, parent@) && stops_at(order, done, Some(d));
        assert(fifo_search(adj, s as int, order, done, parent@) && stops_at(order, done, Some(d)) && path_ids@
            == back_chain(parent@, s, d).reverse());
    }
    Route::Found(BfsResult { start_user: start_node, end_user: end_node, path_nodes, path_ids, distance })
}

/// The number of edges of all nodes together.
pub open spec fn total_edges<W>(adj: Seq<Seq<(NodeId, W)>>) -> nat
    decreases adj.len(),
{
    if adj.len() == 0 {
        0
    } else {
        total_edges(adj.drop_last()) + adj.last().len()
    }
}

/// The edge count of a single list is its length.
pub proof fn lemma_total_edges_single<W>(row: Seq<(NodeId, W)>)
    ensures
        total_edges(seq![row]) == row.len(),
{
    let e = Seq::<Seq<(NodeId, W)>>::empty();
    assert(seq![row].drop_last() =~= e);
    assert(total_edges(e) == 0);
    assert(seq![row].last() == row);
}

/// Edge counts add up: the lists of `a` followed by those of `b` hold as many
/// edges as `a` and `b` together.
pub proof fn lemma_total_edges_append<W>(a: Seq<Seq<(NodeId, W)>>, b: Seq<Seq<(NodeId, W)>>)
    ensures
        total_edges(a + b) == total_edges(a) + total_edges(b),
    decreases b.len(),
{
    if b.len() > 0 {
        lemma_total_edges_append(a, b.drop_last());
        assert((a + b).drop_last() =~= a + b.drop_last());
        assert((a + b).last() == b.last());
    } else {
        assert(a + b =~= a);
    }
}

/// One more edge in any list raises the edge count by exactly one.
pub proof fn lemma_total_edges_add_edge<W>(adj: Seq<Seq<(NodeId, W)>>, u: int, e: (NodeId, W))
    requires
        0 <= u < adj.len(),
    ensures
        total_edges(adj.update(u, adj[u].push(e))) == total_edges(adj) + 1,
{
    let b = adj.update(u, adj[u].push(e));
    let pre = adj.take(u);
    let post = adj.skip(u + 1);
    assert(adj =~= pre + seq![adj[u]] + post);
    assert(b =~= pre + seq![adj[u].push(e)] + post);
    lemma_total_edges_append(pre + seq![adj[u]], post);
    lemma_total_edges_append(pre, seq![adj[u]]);
    lemma_total_edges_append(pre + seq![adj[u].push(e)], post);
    lemma_total_edges_append(pre, seq![adj[u].push(e)]);
    lemma_total_edges_single(adj[u]);
    lemma_total_edges_single(adj[u].push(e));
}

proof fn lemma_total_prefix<W>(adj: Seq<Seq<(NodeId, W)>>, k: int)
    requires
        0 <= k <= adj.len(),
    ensures
        total_edges(adj.take(k)) <= total_edges(adj),
    decreases adj.len(),
{
    if k < adj.len() {
        assert(adj.drop_last().take(k) =~= adj.take(k));
        lemma_total_prefix(adj.drop_last(), k);
    } else {
        assert(adj.take(k) =~= adj);
    }
}

/// The number of edges in the graph.
pub fn edge_count<N, W>(g: &Graph<N, W>) -> (c: usize)
    requires
        g.wf(),
        total_edges(g.adj_view()) <= usize::MAX,
    ensures
        c == total_edges(g.adj_view()),
{
    let ghost adj = g.adj_view();
    let n = g.len();
    let mut c: usize = 0;
    let mut u: usize = 0;
    while u < n
        invariant
            g.wf(),
            adj == g.adj_view(),
            n == adj.len(),
            u <= n,
            c == total_edges(adj.take(u as int)),
            total_edges(adj) <= usize::MAX,
        decreases n - u,
    {
        assert(adj.take(u + 1).drop_last() =~= adj.take(u as int));
        proof {
            lemma_total_prefix(adj, u + 1);
        }
        c = c + g.neighbors(u).len();
        u = u + 1;
    }
    assert(adj.take(n as int) =~= adj);
    c
}

/// An empty index beside an empty graph is a state that building the graph
/// of mutual followers keeps.
pub proof fn lemma_empty_is_ok<W>(idx: &NameIndex, g: &Graph<String, W>)
    requires
        idx.wf(),
        g.wf(),
        idx.map() == Map::<Seq<char>, NodeId>::empty(),
        g.size() == 0,
    ensures
        mutual_graph_ok(idx, g),
{
}

/// One node per name: in a consistent index two names that map to the same
/// node are the same name, the name that node carries.
pub proof fn lemma_one_node_per_name<W>(idx: &NameIndex, g: &Graph<String, W>, k1: Seq<char>, k2: Seq<char>)
    requires
        consistent(idx, g),
        idx.map().contains_key(k1),
        idx.map().contains_key(k2),
        idx.map()[k1] == idx.map()[k2],
    ensures
        k1 == k2,
{
}

/// The graph of mutual followers as exported: in a state that building it
/// keeps, names are canonical and pairwise distinct, and the undirected
/// export lists every edge from the smaller node to the larger, each pair
/// of joined nodes exactly once.
pub proof fn lemma_mutual_graph_export<W>(idx: &NameIndex, g: &Graph<String, W>)
    requires
        mutual_graph_ok(idx, g),
    ensures
        forall|i: int| 0 <= i < g.size() ==> canonical(#[trigger] names_of(g)[i]) == names_of(g)[i],
        forall|i: int, j: int| 0 <= i < j < g.size() ==> #[trigger] names_of(g)[i] != #[trigger] names_of(g)[j],
        ({
            let e = export_edges(g.adj_view(), false, g.size() as int);
            &&& forall|t: int| 0 <= t < e.len() ==> (#[trigger] e[t]).0 < e[t].1 < g.size()
            &&& forall|t1: int, t2: int|
                0 <= t1 < t2 < e.len() ==> !((#[trigger] e[t1]).0 == (#[trigger] e[t2]).0 && e[t1].1 == e[t2].1)
            &&& forall|x: int, y: int|
                0 <= x < y < g.size() ==> (#[trigger] pair_in(e, x, y) <==> has_edge_to(g.adj_view(), x, y))
        }),
{
    let adj = g.adj_view();
    g.lemma_size_fits();
    lemma_undirected_export_simple(adj);
    assert forall|i: int| 0 <= i < g.size() implies canonical(#[trigger] names_of(g)[i]) == names_of(g)[i] by {
        assert(canonical(g.nodes_view()[i]@) == g.nodes_view()[i]@);
    }
    assert forall|i: int, j: int| 0 <= i < j < g.size() implies #[trigger] names_of(g)[i] != #[trigger] names_of(g)[j] by {
        assert(idx.map()[g.nodes_view()[i]@] == i);
        assert(idx.map()[g.nodes_view()[j]@] == j);
    }
}

/// The index, names and edges are in step: as many names as edge lists, and
/// every indexed id names an existing node.
pub open spec fn link_ready<W>(map: Map<Seq<char>, NodeId>, names: Seq<Seq<char>>, adj: Seq<Seq<(NodeId, W)>>) -> bool {
    &&& names.len() == adj.len()
    &&& forall|k: Seq<char>| #[trigger] map.contains_key(k) ==> map[k] < adj.len()
}

/// The node indexed under `key` is joined to `u` by an edge each way.
pub open spec fn linked_both<W>(map: Map<Seq<char>, NodeId>, adj: Seq<Seq<(NodeId, W)>>, u: int, key: Seq<char>) -> bool {
    &&& map.contains_key(key)
    &&& has_edge_to(adj, u, map[key] as int)
    &&& has_edge_to(adj, map[key] as int, u)
}

/// Mutual followers are linked both ways: after recording that the user at
/// `u` and the user named `m` follow each other (with a different canonical
/// name), that name is indexed and its node is joined to `u` by an edge in
/// each direction.
pub proof fn lemma_link_mutual_symmetric<W>(
    map: Map<Seq<char>, NodeId>,
    names: Seq<Seq<char>>,
    adj: Seq<Seq<(NodeId, W)>>,
    u: int,
    user: Seq<char>,
    m: Seq<char>,
    w: W,
)
    requires
        link_ready(map, names, adj),
        adj.len() < usize::MAX,
        0 <= u < adj.len(),
        canonical(m) != user,
    ensures
        ({
            let r = link_mutual(map, names, adj, u, user, m, w);
            &&& link_ready(r.0, r.1, r.2)
            &&& linked_both(r.0, r.2, u, canonical(m))
        }),
{
    let key = canonical(m);
    let adj1 = if map.contains_key(key) { adj } else { adj.push(Seq::<(NodeId, W)>::empty()) };
    let v = if map.contains_key(key) { map[key] as int } else { adj.len() as int };
    let a2 = add_if_missing(adj1, u, v, w);
    let a3 = add_if_missing(a2, v, u, w);
    assert(has_edge_to(a2, u, v)) by {
        if !has_edge_to(adj1, u, v) {
            assert(a2[u][adj1[u].len() as int].0 == v);
        }
    }
    let j = choose|j: int| 0 <= j < a2[u].len() && #[trigger] a2[u][j].0 == v;
    if !has_edge_to(a2, v, u) {
        assert(a3[v][a2[v].len() as int].0 == u);
        assert(a3[u][j] == a2[u][j]);
    }
    assert(a3[u][j].0 == v);
    let r = link_mutual(map, names, adj, u, user, m, w);
    assert forall|k: Seq<char>| #[trigger] r.0.contains_key(k) implies r.0[k] < r.2.len() by {
        if k != key {
            assert(map.contains_key(k));
        }
    }
}

proof fn lemma_link_mutual_grows<W>(
    map: Map<Seq<char>, NodeId>,
    names: Seq<Seq<char>>,
    adj: Seq<Seq<(NodeId, W)>>,
    u: int,
    user: Seq<char>,
    m: Seq<char>,
    w: W,
)
    requires
        link_ready(map, names, adj),
        adj.len() < usize::MAX,
        0 <= u < adj.len(),
    ensures
        ({
            let r = link_mutual(map, names, adj, u, user, m, w);
            &&& link_ready(r.0, r.1, r.2)
            &&& adj.len() <= r.2.len() <= adj.len() + 1
            &&& forall|k: Seq<char>| #[trigger] map.contains_key(k) ==> r.0.contains_key(k) && r.0[k] == map[k]
            &&& forall|x: int, y: int| 0 <= x < adj.len() && #[trigger] has_edge_to(adj, x, y) ==> has_edge_to(r.2, x, y)
        }),
{
    let key = canonical(m);
    if key != user {
        lemma_link_mutual_symmetric(map, names, adj, u, user, m, w);
        let v = if map.contains_key(key) { map[key] as int } else { adj.len() as int };
        let adj1 = if map.contains_key(key) { adj } else { adj.push(Seq::<(NodeId, W)>::empty()) };
        let a2 = add_if_missing(adj1, u, v, w);
        assert forall|x: int, y: int| 0 <= x < adj.len() && #[trigger] has_edge_to(adj, x, y) implies has_edge_to(
            link_mutual(map, names, adj, u, user, m, w).2,
            x,
            y,
        ) by {
            let j = choose|j: int| 0 <= j < adj[x].len() && #[trigger] adj[x][j].0 == y;
            assert(adj1[x][j] == adj[x][j]);
            lemma_add_keeps(adj1, u, v, w, x, y);
            lemma_add_keeps(a2, v, u, w, x, y);
        }
    }
}

/// Recording the same mutual follower twice changes nothing the second time.
pub proof fn lemma_link_mutual_idempotent<W>(
    map: Map<Seq<char>, NodeId>,
    names: Seq<Seq<char>>,
    adj: Seq<Seq<(NodeId, W)>>,
    u: int,
    user: Seq<char>,
    m: Seq<char>,
    w: W,
)
    requires
        link_ready(map, names, adj),
        adj.len() < usize::MAX,
        0 <= u < adj.len(),
    ensures
        ({
            let r = link_mutual(map, names, adj, u, user, m, w);
            link_mutual(r.0, r.1, r.2, u, user, m, w) == r
        }),
{
    if canonical(m) != user {
        lemma_link_mutual_symmetric(map, names, adj, u, user, m, w);
    }
}

/// Every mutual follower ends up linked both ways: after a reply's list of
/// mutual followers is recorded for the user at `u` (`link_all`), each name
/// of the list whose canonical form is not `user` is indexed, and its node
/// is joined to `u` by an edge in each direction; indexed names keep their
/// nodes.
pub proof fn lemma_link_all_symmetric<W>(
    map: Map<Seq<char>, NodeId>,
    names: Seq<Seq<char>>,
    adj: Seq<Seq<(NodeId, W)>>,
    u: int,
    user: Seq<char>,
    ms: Seq<Seq<char>>,
    w: W,
)
    requires
        link_ready(map, names, adj),
        adj.len() + ms.len() < usize::MAX,
        0 <= u < adj.len(),
    ensures
        ({
            let r = link_all(map, names, adj, u, user, ms, w);
            &&& link_ready(r.0, r.1, r.2)
            &&& adj.len() <= r.2.len() <= adj.len() + ms.len()
            &&& forall|k: Seq<char>| #[trigger] map.contains_key(k) ==> r.0.contains_key(k) && r.0[k] == map[k]
            &&& forall|t: int|
                0 <= t < ms.len() && canonical(#[trigger] ms[t]) != user ==> linked_both(r.0, r.2, u, canonical(ms[t]))
        }),
    decreases ms.len(),
{
    if ms.len() > 0 {
        let ms0 = ms.drop_last();
        lemma_link_all_symmetric(map, names, adj, u, user, ms0, w);
        let p = link_all(map, names, adj, u, user, ms0, w);
        let r = link_mutual(p.0, p.1, p.2, u, user, ms.last(), w);
        lemma_link_mutual_grows(p.0, p.1, p.2, u, user, ms.last(), w);
        assert forall|t: int| 0 <= t < ms.len() && canonical(#[trigger] ms[t]) != user implies linked_both(
            r.0,
            r.2,
            u,
            canonical(ms[t]),
        ) by {
            if t == ms.len() - 1 {
                lemma_link_mutual_symmetric(p.0, p.1, p.2, u, user, ms.last(), w);
            } else {
                assert(ms0[t] == ms[t]);
                assert(linked_both(p.0, p.2, u, canonical(ms0[t])));
                let key = canonical(ms[t]);
                assert(p.0.contains_key(key));
                assert(has_edge_to(p.2, u, p.0[key] as int));
                assert(has_edge_to(p.2, p.0[key] as int, u));
            }
        }
    }
}

proof fn lemma_add_keeps<W>(adj: Seq<Seq<(NodeId, W)>>, a: int, b: int, w: W, x: int, y: int)
    requires
        0 <= a < adj.len(),
        0 <= x < adj.len(),
        has_edge_to(adj, x, y),
    ensures
        add_if_missing(adj, a, b, w).len() == adj.len(),
        has_edge_to(add_if_missing(adj, a, b, w), x, y),
{
    let r = add_if_missing(adj, a, b, w);
    let j = choose|j: int| 0 <= j < adj[x].len() && #[trigger] adj[x][j].0 == y;
    if !has_edge_to(adj, a, b) {
        assert(r[x][j] == adj[x][j]);
    }
}

} // verus!
