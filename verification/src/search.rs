//! Breadth-first search over a `Graph`, recording for each discovered node
//! the node it was discovered from.
use crate::graph::{Graph, NodeId};
use crate::walks::{hop_distance, is_walk, lemma_prefix_valid, lemma_walk_push, reachable, walk_end};
use std::collections::VecDeque;
use vstd::prelude::*;

verus! {

/// Node `v` has been discovered.
pub open spec fn discovered(parent: Seq<Option<NodeId>>, v: int) -> bool {
    parent[v] is Some
}

/// Some edge of `u` leads to `v`.
pub open spec fn has_edge_to<W>(adj: Seq<Seq<(NodeId, W)>>, u: int, v: int) -> bool {
    exists|j: int| 0 <= j < adj[u].len() && #[trigger] adj[u][j].0 == v
}

/// No edge leads from a node to itself.
pub open spec fn no_self_loops<W>(adj: Seq<Seq<(NodeId, W)>>) -> bool {
    forall|u: int, j: int| 0 <= u < adj.len() && 0 <= j < adj[u].len() ==> #[trigger] adj[u][j].0 != u
}

/// No node has two edges to the same node.
pub open spec fn rows_distinct<W>(adj: Seq<Seq<(NodeId, W)>>) -> bool {
    forall|u: int, i: int, j: int|
        0 <= u < adj.len() && 0 <= i < j < adj[u].len() ==> #[trigger] adj[u][i].0 != #[trigger] adj[u][j].0
}

/// An edge `x -> y` exists exactly when an edge `y -> x` does.
pub open spec fn symmetric<W>(adj: Seq<Seq<(NodeId, W)>>) -> bool {
    forall|x: int, y: int|
        0 <= x < adj.len() && 0 <= y < adj.len() ==> (#[trigger] has_edge_to(adj, x, y) <==> has_edge_to(adj, y, x))
}

/// The parent link of `v` is an edge from a discovered node one hop
/// closer to `start` than `v`.
pub open spec fn tree_link<W>(adj: Seq<Seq<(NodeId, W)>>, start: int, parent: Seq<Option<NodeId>>, v: int) -> bool {
    let u = parent[v]->0 as int;
    &&& 0 <= u < adj.len()
    &&& discovered(parent, u)
    &&& has_edge_to(adj, u, v)
    &&& exists|d: int| #[trigger] hop_distance(adj, start, u, d) && hop_distance(adj, start, v, d + 1)
}

/// `parent` is a shortest-path tree rooted at `start`: the root is its own
/// parent, every discovered node is reachable, and every other discovered
/// node hangs off a node one hop closer to the root.
pub open spec fn is_bfs_tree<W>(adj: Seq<Seq<(NodeId, W)>>, start: int, parent: Seq<Option<NodeId>>) -> bool {
    &&& parent.len() == adj.len()
    &&& 0 <= start < adj.len()
    &&& parent[start] == Some(start as NodeId)
    &&& forall|v: int| 0 <= v < parent.len() && #[trigger] discovered(parent, v) ==> reachable(adj, start, v)
    &&& forall|v: int|
        0 <= v < parent.len() && v != start && #[trigger] discovered(parent, v) ==> tree_link(adj, start, parent, v)
}

/// Every node that `start` reaches has been discovered.
pub open spec fn covers_reachable<W>(adj: Seq<Seq<(NodeId, W)>>, start: int, parent: Seq<Option<NodeId>>) -> bool {
    forall|v: int| 0 <= v < parent.len() && reachable(adj, start, v) ==> #[trigger] discovered(parent, v)
}

/// Every node that some walk of at most `d` edges reaches from `start` has
/// been discovered.
pub open spec fn covers_within<W>(adj: Seq<Seq<(NodeId, W)>>, start: int, parent: Seq<Option<NodeId>>, d: int) -> bool {
    forall|v: int, s: Seq<int>|
        0 <= v < parent.len() && #[trigger] is_walk(adj, start, s, v) && s.len() <= d ==> #[trigger] discovered(
            parent,
            v,
        )
}

/// Every edge of the graph ends at an existing node.
pub open spec fn in_range<W>(adj: Seq<Seq<(NodeId, W)>>) -> bool {
    forall|u: int, j: int| 0 <= u < adj.len() && 0 <= j < adj[u].len() ==> #[trigger] adj[u][j].0 < adj.len()
}

/// The number of undiscovered nodes.
pub open spec fn count_none(s: Seq<Option<NodeId>>) -> nat
    decreases s.len(),
{
    if s.len() == 0 {
        0
    } else {
        count_none(s.drop_last()) + if s.last() is None { 1nat } else { 0nat }
    }
}

proof fn lemma_count_discover(s: Seq<Option<NodeId>>, i: int, x: NodeId)
    requires
        0 <= i < s.len(),
        s[i] is None,
    ensures
        count_none(s.update(i, Some(x))) + 1 == count_none(s),
    decreases s.len(),
{
    if i == s.len() - 1 {
        assert(s.update(i, Some(x)).drop_last() =~= s.drop_last());
    } else {
        assert(s.update(i, Some(x)).drop_last() =~= s.drop_last().update(i, Some(x)));
        lemma_count_discover(s.drop_last(), i, x);
    }
}

/// The queue holds `u`.
pub open spec fn in_queue(q: Seq<NodeId>, u: int) -> bool {
    exists|a: int| 0 <= a < q.len() && #[trigger] q[a] == u
}

/// Every edge out of `u` leads to a discovered node.
pub open spec fn expanded<W>(adj: Seq<Seq<(NodeId, W)>>, parent: Seq<Option<NodeId>>, u: int) -> bool {
    forall|j: int| 0 <= j < adj[u].len() ==> discovered(parent, #[trigger] adj[u][j].0 as int)
}

/// Every discovered node other than `skip` is queued or expanded.
pub open spec fn frontier_ok<W>(adj: Seq<Seq<(NodeId, W)>>, parent: Seq<Option<NodeId>>, q: Seq<NodeId>, skip: int) -> bool {
    forall|u: int|
        0 <= u < adj.len() && u != skip && #[trigger] discovered(parent, u) ==> in_queue(q, u) || expanded(
            adj,
            parent,
            u,
        )
}

/// Along any walk from the root, either the end is discovered or some
/// point of the walk is still queued; the result is `-1` in the first case
/// and the length of the prefix that ends at a queued node otherwise.
proof fn lemma_bfs_frontier<W>(
    adj: Seq<Seq<(NodeId, W)>>,
    parent: Seq<Option<NodeId>>,
    q: Seq<NodeId>,
    start: int,
    s: Seq<int>,
    v: int,
) -> (k: int)
    requires
        in_range(adj),
        parent.len() == adj.len(),
        0 <= start < adj.len(),
        discovered(parent, start),
        frontier_ok(adj, parent, q, -1),
        is_walk(adj, start, s, v),
    ensures
        0 <= v < adj.len(),
        k == -1 ==> discovered(parent, v),
        k != -1 ==> 0 <= k <= s.len() && in_queue(q, walk_end(adj, start, s.take(k))),
    decreases s.len(),
{
    if s.len() == 0 {
        -1
    } else {
        let s0 = s.drop_last();
        let u = walk_end(adj, start, s0);
        let j = s.last();
        assert(is_walk(adj, start, s0, u));
        let k0 = lemma_bfs_frontier(adj, parent, q, start, s0, u);
        assert(adj[u][j].0 < adj.len());
        if k0 == -1 {
            if in_queue(q, u) {
                assert(s.take(s.len() - 1) =~= s0);
                s.len() - 1
            } else {
                assert(expanded(adj, parent, u));
                assert(discovered(parent, adj[u][j].0 as int));
                -1
            }
        } else {
            assert(s.take(k0) =~= s0.take(k0));
            k0
        }
    }
}

/// Edge `j` is the first edge of `u` that leads to `v`.
pub open spec fn first_edge<W>(adj: Seq<Seq<(NodeId, W)>>, u: int, v: int, j: int) -> bool {
    &&& 0 <= j < adj[u].len()
    &&& adj[u][j].0 == v
    &&& forall|i: int| 0 <= i < j ==> #[trigger] adj[u][i].0 != v
}

/// In the discovery order `order`, node `order[k]` is discovered from
/// `order[p]`, the earliest node of the order with an edge to it, through
/// the first such edge `j`.
pub open spec fn discovered_by<W>(adj: Seq<Seq<(NodeId, W)>>, order: Seq<NodeId>, k: int, p: int, j: int) -> bool {
    &&& 0 <= p < k < order.len()
    &&& first_edge(adj, order[p] as int, order[k] as int, j)
    &&& forall|q: int| 0 <= q < p ==> !has_edge_to(adj, #[trigger] order[q] as int, order[k] as int)
}

/// Node `order[k]` was discovered from a node before position `bound`,
/// which `parent` records.
pub open spec fn link_ok<W>(adj: Seq<Seq<(NodeId, W)>>, order: Seq<NodeId>, parent: Seq<Option<NodeId>>, bound: int, k: int) -> bool {
    exists|p: int, j: int|
        #[trigger] discovered_by(adj, order, k, p, j) && p < bound && parent[order[k] as int] == Some(order[p])
}

/// Every node after the first was discovered from a node before position
/// `bound`, which `parent` records.
pub open spec fn linked<W>(adj: Seq<Seq<(NodeId, W)>>, order: Seq<NodeId>, parent: Seq<Option<NodeId>>, bound: int) -> bool {
    forall|k: int| 1 <= k < order.len() ==> #[trigger] link_ok(adj, order, parent, bound, k)
}

/// Nodes appear in the order in which they are discovered: by the position
/// of the node they are discovered from, then by the edge.
pub open spec fn fifo_ordered<W>(adj: Seq<Seq<(NodeId, W)>>, order: Seq<NodeId>) -> bool {
    forall|k1: int, p1: int, j1: int, k2: int, p2: int, j2: int|
        #[trigger] discovered_by(adj, order, k1, p1, j1) && #[trigger] discovered_by(adj, order, k2, p2, j2) && k1 < k2
            ==> p1 < p2 || (p1 == p2 && j1 < j2)
}

/// Every edge of the first `done` nodes of the order leads to a node of the
/// order.
pub open spec fn expanded_upto<W>(adj: Seq<Seq<(NodeId, W)>>, order: Seq<NodeId>, done: int) -> bool {
    forall|p: int, j: int|
        0 <= p < done && 0 <= j < adj[order[p] as int].len() ==> order.contains(#[trigger] adj[order[p] as int][j].0)
}

/// The shape shared by every state of the search: the order starts at
/// `start`, holds each node once, and the discovered nodes are exactly its
/// nodes.
pub open spec fn order_ok<W>(adj: Seq<Seq<(NodeId, W)>>, start: int, order: Seq<NodeId>, parent: Seq<Option<NodeId>>) -> bool {
    &&& parent.len() == adj.len()
    &&& adj.len() <= usize::MAX
    &&& order.len() > 0
    &&& order[0] == start
    &&& forall|a: int, b: int| 0 <= a < b < order.len() ==> order[a] != order[b]
    &&& forall|k: int| 0 <= k < order.len() ==> #[trigger] order[k] < adj.len()
    &&& forall|v: int| 0 <= v < parent.len() ==> (#[trigger] discovered(parent, v) <==> order.contains(v as NodeId))
    &&& parent[start] == Some(start as NodeId)
}

/// `parent` is the table of a first-in-first-out breadth-first search from
/// `start` after the first `done` nodes of the discovery order `order` have
/// had all their edges followed: each other node of the order was
/// discovered from the earliest of those nodes with an edge to it, through
/// that node's first such edge, nodes appear in order of discovery, and
/// every edge of an expanded node leads into the order.
pub open spec fn fifo_search<W>(
    adj: Seq<Seq<(NodeId, W)>>,
    start: int,
    order: Seq<NodeId>,
    done: int,
    parent: Seq<Option<NodeId>>,
) -> bool {
    &&& order_ok(adj, start, order, parent)
    &&& 0 <= done <= order.len()
    &&& linked(adj, order, parent, done)
    &&& fifo_ordered(adj, order)
    &&& expanded_upto(adj, order, done)
}

/// The search has stopped where it should: without a target once every
/// node of the order has been expanded; with a target just before
/// expanding it, or after expanding everything when it never appears.
pub open spec fn stops_at(order: Seq<NodeId>, done: int, target: Option<NodeId>) -> bool {
    match target {
        None => done == order.len(),
        Some(t) => (forall|k: int| 0 <= k < done ==> order[k] != t) && (done == order.len() || (done < order.len()
            && order[done] == t)),
    }
}

/// The search state while node `order[done]` has had its first `j` edges
/// followed.
pub open spec fn fifo_partial<W>(
    adj: Seq<Seq<(NodeId, W)>>,
    start: int,
    order: Seq<NodeId>,
    done: int,
    j: int,
    parent: Seq<Option<NodeId>>,
) -> bool {
    &&& order_ok(adj, start, order, parent)
    &&& 0 <= done < order.len()
    &&& 0 <= j <= adj[order[done] as int].len()
    &&& linked(adj, order, parent, done + 1)
    &&& fifo_ordered(adj, order)
    &&& expanded_upto(adj, order, done)
    &&& forall|t: int| 0 <= t < j ==> order.contains(#[trigger] adj[order[done] as int][t].0)
    &&& forall|k: int, p: int, i: int| #[trigger] discovered_by(adj, order, k, p, i) && p == done ==> i < j
}

proof fn lemma_discovered_by_unique<W>(adj: Seq<Seq<(NodeId, W)>>, order: Seq<NodeId>, k: int, p1: int, j1: int, p2: int, j2: int)
    requires
        discovered_by(adj, order, k, p1, j1),
        discovered_by(adj, order, k, p2, j2),
    ensures
        p1 == p2,
        j1 == j2,
{
    let v = order[k] as int;
    if p1 < p2 {
        assert(has_edge_to(adj, order[p1] as int, v));
    } else if p2 < p1 {
        assert(has_edge_to(adj, order[p2] as int, v));
    }
    if j1 < j2 {
        assert(adj[order[p1] as int][j1].0 == v);
    } else if j2 < j1 {
        assert(adj[order[p1] as int][j2].0 == v);
    }
}

proof fn lemma_discovered_by_push<W>(adj: Seq<Seq<(NodeId, W)>>, order: Seq<NodeId>, x: NodeId, k: int, p: int, j: int)
    requires
        0 <= k < order.len(),
    ensures
        discovered_by(adj, order.push(x), k, p, j) == discovered_by(adj, order, k, p, j),
{
    let o2 = order.push(x);
    if 0 <= p < k {
        assert(o2[p] == order[p] && o2[k] == order[k]);
        assert forall|q: int| 0 <= q < p implies #[trigger] o2[q] == order[q] by {}
        if discovered_by(adj, order, k, p, j) {
            assert forall|q: int| 0 <= q < p implies !has_edge_to(adj, #[trigger] o2[q] as int, o2[k] as int) by {
                assert(!has_edge_to(adj, order[q] as int, order[k] as int));
            }
        }
        if discovered_by(adj, o2, k, p, j) {
            assert forall|q: int| 0 <= q < p implies !has_edge_to(adj, #[trigger] order[q] as int, order[k] as int) by {
                assert(!has_edge_to(adj, o2[q] as int, o2[k] as int));
            }
        }
    }
}

proof fn lemma_linked_weaken<W>(adj: Seq<Seq<(NodeId, W)>>, order: Seq<NodeId>, parent: Seq<Option<NodeId>>, b1: int, b2: int)
    requires
        linked(adj, order, parent, b1),
        b1 <= b2,
    ensures
        linked(adj, order, parent, b2),
{
    assert forall|k: int| 1 <= k < order.len() implies #[trigger] link_ok(adj, order, parent, b2, k) by {
        assert(link_ok(adj, order, parent, b1, k));
        let (pw, jw) = choose|pw: int, jw: int|
            #[trigger] discovered_by(adj, order, k, pw, jw) && pw < b1 && parent[order[k] as int] == Some(order[pw]);
        assert(discovered_by(adj, order, k, pw, jw) && pw < b2);
    }
}

/// Starting to expand `order[done]` from a state after `done` expansions.
proof fn lemma_fifo_enter<W>(adj: Seq<Seq<(NodeId, W)>>, start: int, order: Seq<NodeId>, done: int, parent: Seq<Option<NodeId>>)
    requires
        fifo_search(adj, start, order, done, parent),
        done < order.len(),
    ensures
        fifo_partial(adj, start, order, done, 0, parent),
{
    assert forall|k: int, p: int, i: int| #[trigger] discovered_by(adj, order, k, p, i) && p == done implies i < 0 by {
        assert(link_ok(adj, order, parent, done, k));
        let (pw, jw) = choose|pw: int, jw: int|
            #[trigger] discovered_by(adj, order, k, pw, jw) && pw < done && parent[order[k] as int] == Some(order[pw]);
        lemma_discovered_by_unique(adj, order, k, p, i, pw, jw);
    }
    lemma_linked_weaken(adj, order, parent, done, done + 1);
    assert(fifo_ordered(adj, order));
    assert(expanded_upto(adj, order, done));
    assert(0 <= 0 <= adj[order[done] as int].len());
    assert(order_ok(adj, start, order, parent));
}

/// Finishing the expansion of `order[done]`.
proof fn lemma_fifo_leave<W>(adj: Seq<Seq<(NodeId, W)>>, start: int, order: Seq<NodeId>, done: int, parent: Seq<Option<NodeId>>)
    requires
        fifo_partial(adj, start, order, done, adj[order[done] as int].len() as int, parent),
    ensures
        fifo_search(adj, start, order, done + 1, parent),
{
}

/// Following edge `j` of `order[done]` to a node already in the order.
proof fn lemma_fifo_skip<W>(adj: Seq<Seq<(NodeId, W)>>, start: int, order: Seq<NodeId>, done: int, j: int, parent: Seq<Option<NodeId>>)
    requires
        fifo_partial(adj, start, order, done, j, parent),
        j < adj[order[done] as int].len(),
        order.contains(adj[order[done] as int][j].0),
    ensures
        fifo_partial(adj, start, order, done, j + 1, parent),
{
}

/// Following edge `j` of `order[done]` to a node `v` not yet in the order:
/// `v` joins the order with `order[done]` as its parent.
proof fn lemma_fifo_append<W>(adj: Seq<Seq<(NodeId, W)>>, start: int, order: Seq<NodeId>, done: int, j: int, parent: Seq<Option<NodeId>>, v: NodeId)
    requires
        fifo_partial(adj, start, order, done, j, parent),
        j < adj[order[done] as int].len(),
        adj[order[done] as int][j].0 == v,
        v < adj.len(),
        !order.contains(v),
    ensures
        fifo_partial(adj, start, order.push(v), done, j + 1, parent.update(v as int, Some(order[done]))),
{
    let o2 = order.push(v);
    let p2 = parent.update(v as int, Some(order[done]));
    let u = order[done] as int;
    let n = order.len() as int;
    assert(o2[n] == v);
    assert(o2[done] == order[done]);
    // the new node is discovered from order[done] through edge j
    assert forall|i: int| 0 <= i < j implies #[trigger] adj[u][i].0 != v by {
        assert(order.contains(adj[u][i].0));
    }
    assert forall|q: int| 0 <= q < done implies !has_edge_to(adj, #[trigger] o2[q] as int, o2[n] as int) by {
        assert(o2[q] == order[q]);
        if has_edge_to(adj, order[q] as int, v as int) {
            let jj = choose|jj: int| 0 <= jj < adj[order[q] as int].len() && #[trigger] adj[order[q] as int][jj].0 == v;
            assert(order.contains(adj[order[q] as int][jj].0));
        }
    }
    assert(discovered_by(adj, o2, n, done, j));
    assert forall|k: int| 0 <= k < o2.len() implies #[trigger] o2[k] < adj.len() by {
        if k < n {
            assert(o2[k] == order[k]);
        }
    }
    assert forall|a: int, b: int| 0 <= a < b < o2.len() implies o2[a] != o2[b] by {
        if b < n {
            assert(o2[a] == order[a] && o2[b] == order[b]);
        } else {
            assert(o2[a] == order[a]);
            assert(order.contains(order[a]));
        }
    }
    assert forall|x: int| 0 <= x < p2.len() implies (#[trigger] discovered(p2, x) <==> o2.contains(x as NodeId)) by {
        if x == v {
            assert(o2[n] == x as NodeId);
            assert(discovered(p2, x));
        } else {
            assert(discovered(p2, x) == discovered(parent, x));
            assert(discovered(parent, x) == order.contains(x as NodeId));
            if o2.contains(x as NodeId) {
                let k = choose|k: int| 0 <= k < o2.len() && o2[k] == x as NodeId;
                assert(k < n);
                assert(order[k] == x as NodeId);
            }
            if order.contains(x as NodeId) {
                let k = choose|k: int| 0 <= k < order.len() && order[k] == x as NodeId;
                assert(o2[k] == order[k]);
            }
        }
    }
    assert(p2[start] == Some(start as NodeId)) by {
        assert(order.contains(start as NodeId)) by { assert(order[0] == start); }
    }
    assert forall|k: int| 1 <= k < o2.len() implies #[trigger] link_ok(adj, o2, p2, done + 1, k) by {
        if k == n {
            assert(discovered_by(adj, o2, k, done, j));
        } else {
            assert(o2[k] == order[k]);
            assert(link_ok(adj, order, parent, done + 1, k));
            let (pw, jw) = choose|pw: int, jw: int|
                #[trigger] discovered_by(adj, order, k, pw, jw) && pw < done + 1 && parent[order[k] as int] == Some(order[pw]);
            lemma_discovered_by_push(adj, order, v, k, pw, jw);
            assert(order.contains(order[k]));
            assert(o2[pw] == order[pw]);
            assert(discovered_by(adj, o2, k, pw, jw));
        }
    }
    assert forall|k1: int, q1: int, j1: int, k2: int, q2: int, j2: int|
        #[trigger] discovered_by(adj, o2, k1, q1, j1) && #[trigger] discovered_by(adj, o2, k2, q2, j2) && k1 < k2
            implies q1 < q2 || (q1 == q2 && j1 < j2) by {
        lemma_discovered_by_push(adj, order, v, k1, q1, j1);
        if k2 < n {
            lemma_discovered_by_push(adj, order, v, k2, q2, j2);
        } else {
            lemma_discovered_by_unique(adj, o2, k2, q2, j2, done, j);
            assert(order[k1] == o2[k1]);
            assert(link_ok(adj, order, parent, done + 1, k1));
            let (pw, jw) = choose|pw: int, jw: int|
                #[trigger] discovered_by(adj, order, k1, pw, jw) && pw < done + 1 && parent[order[k1] as int] == Some(order[pw]);
            lemma_discovered_by_unique(adj, order, k1, q1, j1, pw, jw);
        }
    }
    assert forall|q: int, i: int| 0 <= q < done && 0 <= i < adj[o2[q] as int].len() implies o2.contains(
        #[trigger] adj[o2[q] as int][i].0,
    ) by {
        assert(o2[q] == order[q]);
        assert(order.contains(adj[order[q] as int][i].0));
        let k = choose|k: int| 0 <= k < order.len() && order[k] == adj[order[q] as int][i].0;
        assert(o2[k] == order[k]);
    }
    assert forall|t: int| 0 <= t < j + 1 implies o2.contains(#[trigger] adj[o2[done] as int][t].0) by {
        if t < j {
            assert(order.contains(adj[u][t].0));
            let k = choose|k: int| 0 <= k < order.len() && order[k] == adj[u][t].0;
            assert(o2[k] == order[k]);
        }
    }
    assert forall|k: int, q: int, i: int| #[trigger] discovered_by(adj, o2, k, q, i) && q == done implies i < j + 1 by {
        if k < n {
            lemma_discovered_by_push(adj, order, v, k, q, i);
        } else {
            lemma_discovered_by_unique(adj, o2, k, q, i, done, j);
        }
    }
}

proof fn lemma_order_step_half<W>(
    adj: Seq<Seq<(NodeId, W)>>,
    o1: Seq<NodeId>,
    o2: Seq<NodeId>,
    d2: int,
    k: int,
    pa: int,
    ja: int,
    pb: int,
    jb: int,
)
    requires
        forall|a: int, b: int| 0 <= a < b < o1.len() ==> o1[a] != o1[b],
        fifo_ordered(adj, o2),
        expanded_upto(adj, o2, d2),
        1 <= k < o1.len(),
        k < o2.len(),
        forall|i: int| 0 <= i < k ==> o1[i] == o2[i],
        discovered_by(adj, o1, k, pa, ja),
        discovered_by(adj, o2, k, pb, jb),
        pb < d2,
        pa < pb || (pa == pb && ja <= jb),
    ensures
        o1[k] == o2[k],
{
    let x = o1[k];
    let u = o1[pa];
    assert(o2[pa] == u);
    if pa == pb && ja == jb {
    } else {
        assert(o2.contains(adj[o2[pa] as int][ja].0));
        let m = choose|m: int| 0 <= m < o2.len() && o2[m] == x;
        if m < k {
            assert(o1[m] == o2[m]);
        } else if m > k {
            assert forall|q: int| 0 <= q < pa implies !has_edge_to(adj, #[trigger] o2[q] as int, o2[m] as int) by {
                assert(o2[q] == o1[q]);
                assert(!has_edge_to(adj, o1[q] as int, o1[k] as int));
            }
            assert(discovered_by(adj, o2, m, pa, ja));
        }
    }
}

proof fn lemma_order_prefix<W>(
    adj: Seq<Seq<(NodeId, W)>>,
    start: int,
    o1: Seq<NodeId>,
    d1: int,
    p1: Seq<Option<NodeId>>,
    o2: Seq<NodeId>,
    d2: int,
    p2: Seq<Option<NodeId>>,
    k: int,
)
    requires
        fifo_search(adj, start, o1, d1, p1),
        fifo_search(adj, start, o2, d2, p2),
        1 <= k <= o1.len(),
        k <= o2.len(),
    ensures
        forall|i: int| 0 <= i < k ==> o1[i] == o2[i],
    decreases k,
{
    if k > 1 {
        lemma_order_prefix(adj, start, o1, d1, p1, o2, d2, p2, k - 1);
        let i = k - 1;
        assert(link_ok(adj, o1, p1, d1, i));
        assert(link_ok(adj, o2, p2, d2, i));
        let (pa, ja) = choose|pa: int, ja: int|
            #[trigger] discovered_by(adj, o1, i, pa, ja) && pa < d1 && p1[o1[i] as int] == Some(o1[pa]);
        let (pb, jb) = choose|pb: int, jb: int|
            #[trigger] discovered_by(adj, o2, i, pb, jb) && pb < d2 && p2[o2[i] as int] == Some(o2[pb]);
        if pa < pb || (pa == pb && ja <= jb) {
            lemma_order_step_half(adj, o1, o2, d2, i, pa, ja, pb, jb);
        } else {
            lemma_order_step_half(adj, o2, o1, d1, i, pb, jb, pa, ja);
        }
    }
}

proof fn lemma_order_not_longer<W>(
    adj: Seq<Seq<(NodeId, W)>>,
    start: int,
    target: Option<NodeId>,
    o1: Seq<NodeId>,
    d1: int,
    p1: Seq<Option<NodeId>>,
    o2: Seq<NodeId>,
    d2: int,
    p2: Seq<Option<NodeId>>,
)
    requires
        fifo_search(adj, start, o1, d1, p1),
        stops_at(o1, d1, target),
        fifo_search(adj, start, o2, d2, p2),
        stops_at(o2, d2, target),
        forall|i: int| 0 <= i < o2.len() && i < o1.len() ==> o1[i] == o2[i],
    ensures
        o1.len() <= o2.len(),
{
    if o1.len() > o2.len() {
        let l = o2.len() as int;
        assert(link_ok(adj, o1, p1, d1, l));
        let (pa, ja) = choose|pa: int, ja: int|
            #[trigger] discovered_by(adj, o1, l, pa, ja) && pa < d1 && p1[o1[l] as int] == Some(o1[pa]);
        let x = o1[l];
        if pa < d2 {
            assert(o2[pa] == o1[pa]);
            assert(o2.contains(adj[o2[pa] as int][ja].0));
            let m = choose|m: int| 0 <= m < o2.len() && o2[m] == x;
            assert(o1[m] == o2[m]);
        } else {
            let t = target->0;
            assert(o2[d2] == t);
            assert(o1[d2] == o2[d2]);
        }
    }
}

/// The search result is determined: two states that both meet `fifo_search`
/// and `stops_at` for the same graph, start and target have the same
/// discovery order, the same stopping point and the same parent table.
pub proof fn lemma_fifo_search_unique<W>(
    adj: Seq<Seq<(NodeId, W)>>,
    start: int,
    target: Option<NodeId>,
    o1: Seq<NodeId>,
    d1: int,
    p1: Seq<Option<NodeId>>,
    o2: Seq<NodeId>,
    d2: int,
    p2: Seq<Option<NodeId>>,
)
    requires
        fifo_search(adj, start, o1, d1, p1),
        stops_at(o1, d1, target),
        fifo_search(adj, start, o2, d2, p2),
        stops_at(o2, d2, target),
    ensures
        o1 == o2,
        d1 == d2,
        p1 == p2,
{
    let l = if o1.len() <= o2.len() { o1.len() as int } else { o2.len() as int };
    lemma_order_prefix(adj, start, o1, d1, p1, o2, d2, p2, l);
    lemma_order_not_longer(adj, start, target, o1, d1, p1, o2, d2, p2);
    lemma_order_not_longer(adj, start, target, o2, d2, p2, o1, d1, p1);
    assert(o1 =~= o2);
    if let Some(t) = target {
        if d1 < d2 {
            assert(o2[d1] == t);
        } else if d2 < d1 {
            assert(o1[d2] == t);
        }
    }
    assert forall|v: int| 0 <= v < p1.len() implies #[trigger] p1[v] == p2[v] by {
        assert(discovered(p1, v) == o1.contains(v as NodeId));
        assert(discovered(p2, v) == o2.contains(v as NodeId));
        if o1.contains(v as NodeId) {
            let k = choose|k: int| 0 <= k < o1.len() && o1[k] == v as NodeId;
            if k > 0 {
                assert(link_ok(adj, o1, p1, d1, k));
                assert(link_ok(adj, o2, p2, d2, k));
                let (pa, ja) = choose|pa: int, ja: int|
                    #[trigger] discovered_by(adj, o1, k, pa, ja) && pa < d1 && p1[o1[k] as int] == Some(o1[pa]);
                let (pb, jb) = choose|pb: int, jb: int|
                    #[trigger] discovered_by(adj, o2, k, pb, jb) && pb < d2 && p2[o2[k] as int] == Some(o2[pb]);
                lemma_discovered_by_unique(adj, o1, k, pa, ja, pb, jb);
            }
        }
    }
    assert(p1 =~= p2);
}

/// Breadth-first search from `start`, stopping as soon as `target` (when
/// given) leaves the queue. Returns, for each node, the node it was
/// discovered from (`start` for `start` itself), or `None`.
#[verifier::rlimit(40)]
#[verifier::spinoff_prover]
pub(crate) fn bfs_search<N, W>(g: &Graph<N, W>, start: NodeId, target: Option<NodeId>) -> (parent: Vec<
    Option<NodeId>,
>)
    requires
        g.wf(),
        start < g.size(),
    ensures
        is_bfs_tree(g.adj_view(), start as int, parent@),
        covers_reachable(g.adj_view(), start as int, parent@) || (target matches Some(t) && 0 <= t < parent@.len()
            && discovered(parent@, t as int) && exists|d: int|
            hop_distance(g.adj_view(), start as int, t as int, d) && #[trigger] covers_within(
                g.adj_view(),
                start as int,
                parent@,
                d,
            )),
        exists|order: Seq<NodeId>, done: int|
            #[trigger] fifo_search(g.adj_view(), start as int, order, done, parent@) && stops_at(order, done, target),
{
    let n = g.len();
    let ghost adj = g.adj_view();
    let mut parent: Vec<Option<NodeId>> = Vec::new();
    let mut i: usize = 0;
    while i < n
        invariant
            i <= n,
            parent@.len() == i,
            forall|k: int| 0 <= k < i ==> parent@[k] is None,
        decreases n - i,
    {
        parent.push(None);
        i = i + 1;
    }
    let mut q: VecDeque<NodeId> = VecDeque::new();
    parent.set(start, Some(start));
    q.push_back(start);
    let ghost mut level: Seq<int> = Seq::new(n as nat, |k: int| 0int);
    let ghost mut order: Seq<NodeId> = seq![start];
    let ghost mut done: int = 0;
    proof {
        assert(order.contains(start)) by {
            assert(order[0] == start);
        }
        assert forall|v: int| 0 <= v < parent@.len() implies (#[trigger] discovered(parent@, v) <==> order.contains(
            v as NodeId,
        )) by {
            if order.contains(v as NodeId) {
                let k = choose|k: int| 0 <= k < order.len() && order[k] == v as NodeId;
                assert(k == 0);
            }
        }
        assert(fifo_search(adj, start as int, order, done, parent@));
        assert(q@ =~= order.subrange(0, 1));
        assert(in_range(adj));
        assert(is_walk(adj, start as int, Seq::<int>::empty(), start as int));
        assert(hop_distance(adj, start as int, start as int, 0));
        assert(q@[0] == start);
        assert(in_queue(q@, start as int));
    }
    loop
        invariant_except_break
            frontier_ok(adj, parent@, q@, -1),
            q@ == order.subrange(done, order.len() as int),
        invariant
            fifo_search(adj, start as int, order, done, parent@),
            target matches Some(t) ==> forall|k: int| 0 <= k < done ==> order[k] != t,
            n == g.size(),
            adj == g.adj_view(),
            g.wf(),
            in_range(adj),
            start < n,
            parent@.len() == n,
            level.len() == n,
            parent@[start as int] == Some(start),
            level[start as int] == 0,
            forall|v: int|
                0 <= v < n && #[trigger] discovered(parent@, v) ==> hop_distance(adj, start as int, v, level[v]),
            forall|v: int|
                0 <= v < n && v != start && #[trigger] discovered(parent@, v) ==> {
                    let u = parent@[v]->0 as int;
                    &&& 0 <= u < n
                    &&& discovered(parent@, u)
                    &&& level[v] == level[u] + 1
                    &&& has_edge_to(adj, u, v)
                },
            forall|a: int| 0 <= a < q@.len() ==> #[trigger] q@[a] < n && discovered(parent@, q@[a] as int),
            forall|a: int, b: int|
                0 <= a <= b < q@.len() ==> level[#[trigger] q@[a] as int] <= level[#[trigger] q@[b] as int],
            forall|a: int| 0 <= a < q@.len() ==> level[#[trigger] q@[a] as int] <= level[q@[0] as int] + 1,
        ensures
            fifo_search(adj, start as int, order, done, parent@),
            stops_at(order, done, target),
            (q@.len() == 0 && frontier_ok(adj, parent@, q@, -1)) || (target matches Some(t) && 0 <= t < n
                && discovered(parent@, t as int) && forall|y: int, s: Seq<int>|
                0 <= y < n && !discovered(parent@, y) && #[trigger] is_walk(adj, start as int, s, y) ==> level[t as int]
                    + 1 <= s.len()),
        decreases count_none(parent@), q@.len(),
    {
        let ghost q0 = q@;
        let ghost par0 = parent@;
        let ghost cnt0 = count_none(parent@);
        let front = q.pop_front();
        let u = match front {
            None => {
                break ;
            },
            Some(u) => u,
        };
        let ghost lu = level[u as int];
        proof {
            assert(q0[0] == u);
            assert(order[done] == u);
            lemma_fifo_enter(adj, start as int, order, done, parent@);
            assert(q@ =~= order.subrange(done + 1, order.len() as int));
            assert forall|y: int, s: Seq<int>|
                0 <= y < n && !discovered(par0, y) && #[trigger] is_walk(adj, start as int, s, y) implies lu + 1
                    <= s.len() by {
                let k = lemma_bfs_frontier(adj, par0, q0, start as int, s, y);
                let x = walk_end(adj, start as int, s.take(k));
                let a = choose|a: int| 0 <= a < q0.len() && #[trigger] q0[a] == x;
                assert(discovered(par0, x));
                if k == s.len() {
                    assert(s.take(k) =~= s);
                }
                lemma_prefix_valid(adj, start as int, s, k);
                assert(is_walk(adj, start as int, s.take(k), x));
                assert(hop_distance(adj, start as int, x, level[x]));
                assert(level[q0[0] as int] <= level[q0[a] as int]);
            }
            assert forall|u2: int| 0 <= u2 < adj.len() && u2 != u && #[trigger] discovered(parent@, u2) implies in_queue(
                q@,
                u2,
            ) || expanded(adj, parent@, u2) by {
                if in_queue(q0, u2) {
                    let a = choose|a: int| 0 <= a < q0.len() && #[trigger] q0[a] == u2;
                    assert(q@[a - 1] == u2);
                }
            }
        }
        match target {
            Some(t) => {
                if t == u {
                    break ;
                }
            },
            None => {},
        }
        assert(target matches Some(t) ==> t != u);
        let nb = g.neighbors(u);
        let ghost base = q@.len();
        let mut j: usize = 0;
        while j < nb.len()
            invariant
                fifo_partial(adj, start as int, order, done, j as int, parent@),
                target matches Some(t) ==> forall|k: int| 0 <= k <= done ==> order[k] != t,
                q@ == order.subrange(done + 1, order.len() as int),
                order[done] == u,
                n == g.size(),
                adj == g.adj_view(),
                g.wf(),
                in_range(adj),
                start < n,
                u < n,
                nb@ == adj[u as int],
                parent@.len() == n,
                level.len() == n,
                parent@[start as int] == Some(start),
                level[start as int] == 0,
                discovered(parent@, u as int),
                lu == level[u as int],
                j <= nb@.len(),
                forall|y: int| 0 <= y < n && !discovered(parent@, y) ==> !discovered(par0, y),
                forall|y: int, s: Seq<int>|
                    0 <= y < n && !discovered(par0, y) && #[trigger] is_walk(adj, start as int, s, y) ==> lu + 1
                        <= s.len(),
                forall|t: int| 0 <= t < j ==> discovered(parent@, #[trigger] adj[u as int][t].0 as int),
                forall|v: int|
                    0 <= v < n && #[trigger] discovered(parent@, v) ==> hop_distance(adj, start as int, v, level[v]),
                forall|v: int|
                    0 <= v < n && v != start && #[trigger] discovered(parent@, v) ==> {
                        let w = parent@[v]->0 as int;
                        &&& 0 <= w < n
                        &&& discovered(parent@, w)
                        &&& level[v] == level[w] + 1
                        &&& has_edge_to(adj, w, v)
                    },
                forall|a: int| 0 <= a < q@.len() ==> #[trigger] q@[a] < n && discovered(parent@, q@[a] as int),
                forall|a: int, b: int|
                    0 <= a <= b < q@.len() ==> level[#[trigger] q@[a] as int] <= level[#[trigger] q@[b] as int],
                forall|a: int| 0 <= a < q@.len() ==> lu <= level[#[trigger] q@[a] as int] <= lu + 1,
                frontier_ok(adj, parent@, q@, u as int),
                count_none(parent@) + q@.len() <= cnt0 + base,
                q@.len() >= base,
                base + 1 == q0.len(),
            decreases nb@.len() - j,
        {
            let v = nb[j].0;
            assert(adj[u as int][j as int].0 == v);
            assert(v < n);
            if parent[v].is_none() {
                let ghost p0 = parent@;
                let ghost qq = q@;
                let ghost lv0 = level;
                let ghost o0 = order;
                proof {
                    assert(order_ok(adj, start as int, order, parent@));
                    assert(!discovered(parent@, v as int));
                    assert(!order.contains(v));
                    lemma_fifo_append(adj, start as int, order, done, j as int, parent@, v);
                }
                parent.set(v, Some(u));
                q.push_back(v);
                proof {
                    order = order.push(v);
                    assert(parent@ == p0.update(v as int, Some(o0[done])));
                    assert(q@ =~= order.subrange(done + 1, order.len() as int));
                    level = level.update(v as int, lu + 1);
                    lemma_count_discover(p0, v as int, u);
                    let su = choose|s: Seq<int>| #[trigger] is_walk(adj, start as int, s, u as int) && s.len() == lu;
                    lemma_walk_push(adj, start as int, su, u as int, j as int);
                    assert(hop_distance(adj, start as int, v as int, lu + 1));
                    assert(has_edge_to(adj, u as int, v as int));
                    assert forall|x: int|
                        0 <= x < n && #[trigger] discovered(parent@, x) implies hop_distance(
                        adj,
                        start as int,
                        x,
                        level[x],
                    ) by {
                        if x != v {
                            assert(discovered(p0, x));
                        }
                    }
                    assert forall|x: int|
                        0 <= x < n && x != start && #[trigger] discovered(parent@, x) implies {
                        let w = parent@[x]->0 as int;
                        &&& 0 <= w < n
                        &&& discovered(parent@, w)
                        &&& level[x] == level[w] + 1
                        &&& has_edge_to(adj, w, x)
                    } by {
                        if x != v {
                            assert(discovered(p0, x));
                            let w = p0[x]->0 as int;
                            assert(discovered(p0, w));
                        }
                    }
                    assert forall|a: int| 0 <= a < q@.len() implies #[trigger] q@[a] < n && discovered(
                        parent@,
                        q@[a] as int,
                    ) by {
                        if a < qq.len() {
                            assert(q@[a] == qq[a]);
                        }
                    }
                    assert forall|a: int, b: int|
                        0 <= a <= b < q@.len() implies level[#[trigger] q@[a] as int] <= level[#[trigger] q@[b] as int] by {
                        if b < qq.len() {
                            assert(q@[a] == qq[a] && q@[b] == qq[b]);
                            assert(discovered(p0, qq[a] as int) && discovered(p0, qq[b] as int));
                        } else if a < qq.len() {
                            assert(q@[a] == qq[a]);
                            assert(discovered(p0, qq[a] as int));
                        }
                    }
                    assert forall|a: int| 0 <= a < q@.len() implies lu <= level[#[trigger] q@[a] as int] <= lu + 1 by {
                        if a < qq.len() {
                            assert(q@[a] == qq[a]);
                            assert(discovered(p0, qq[a] as int));
                        }
                    }
                    assert forall|x: int|
                        0 <= x < adj.len() && x != u && #[trigger] discovered(parent@, x) implies in_queue(q@, x)
                            || expanded(adj, parent@, x) by {
                        if x == v {
                            assert(q@[qq.len() as int] == v);
                        } else if in_queue(qq, x) {
                            let a = choose|a: int| 0 <= a < qq.len() && #[trigger] qq[a] == x;
                            assert(q@[a] == x);
                        } else {
                            assert(discovered(p0, x));
                            assert(expanded(adj, p0, x));
                            assert forall|t: int| 0 <= t < adj[x].len() implies discovered(
                                parent@,
                                #[trigger] adj[x][t].0 as int,
                            ) by {
                                assert(discovered(p0, adj[x][t].0 as int));
                            }
                        }
                    }
                    assert forall|y: int| 0 <= y < n && !discovered(parent@, y) implies !discovered(par0, y) by {
                        assert(!discovered(p0, y));
                    }
                    assert forall|t: int| 0 <= t <= j implies discovered(parent@, #[trigger] adj[u as int][t].0 as int) by {
                        if t < j {
                            assert(discovered(p0, adj[u as int][t].0 as int));
                        }
                    }
                }
            } else {
                proof {
                    assert(order_ok(adj, start as int, order, parent@));
                    assert(discovered(parent@, v as int));
                    assert(order.contains(v));
                    lemma_fifo_skip(adj, start as int, order, done, j as int, parent@);
                }
            }
            j = j + 1;
        }
        proof {
            lemma_fifo_leave(adj, start as int, order, done, parent@);
            done = done + 1;
            assert(q@ =~= order.subrange(done, order.len() as int));
            assert(expanded(adj, parent@, u as int));
            assert(count_none(parent@) < cnt0 || (count_none(parent@) == cnt0 && q@.len() < q0.len()));
            if q@.len() > 0 {
                assert forall|a: int| 0 <= a < q@.len() implies level[#[trigger] q@[a] as int] <= level[q@[0] as int] + 1 by {
                    assert(lu <= level[q@[0] as int]);
                }
            }
        }
    }
    proof {
        assert forall|v: int| 0 <= v < parent@.len() && #[trigger] discovered(parent@, v) implies reachable(
            adj,
            start as int,
            v,
        ) by {
            assert(hop_distance(adj, start as int, v, level[v]));
        }
        assert forall|v: int|
            0 <= v < parent@.len() && v != start && #[trigger] discovered(parent@, v) implies tree_link(
            adj,
            start as int,
            parent@,
            v,
        ) by {
            let w = parent@[v]->0 as int;
            assert(hop_distance(adj, start as int, w, level[w]));
            assert(hop_distance(adj, start as int, v, level[v]));
        }
        if q@.len() == 0 && frontier_ok(adj, parent@, q@, -1) {
            assert forall|v: int| 0 <= v < parent@.len() && reachable(adj, start as int, v) implies #[trigger] discovered(
                parent@,
                v,
            ) by {
                let s = choose|s: Seq<int>| is_walk(adj, start as int, s, v);
                let k = lemma_bfs_frontier(adj, parent@, q@, start as int, s, v);
            }
        } else {
            let t = target->0;
            assert(hop_distance(adj, start as int, t as int, level[t as int]));
            assert(covers_within(adj, start as int, parent@, level[t as int]));
        }
        assert(fifo_search(adj, start as int, order, done, parent@));
    }
    parent
}

/// The chain of parent links from `v` back towards `start`: it stops at
/// `start` or at a node without a parent; `None` when it leaves the table or
/// needs more than `fuel` links.
pub open spec fn walk_back(parent: Seq<Option<NodeId>>, start: NodeId, v: NodeId, fuel: nat) -> Option<Seq<NodeId>>
    decreases fuel,
{
    if fuel == 0 {
        None
    } else if v == start {
        Some(seq![v])
    } else if v >= parent.len() {
        None
    } else {
        match parent[v as int] {
            None => Some(seq![v]),
            Some(p) => match walk_back(parent, start, p, (fuel - 1) as nat) {
                Some(rest) => Some(seq![v] + rest),
                None => None,
            },
        }
    }
}

/// The chain of parent links from `v` ends after finitely many steps.
pub open spec fn chain_ends(parent: Seq<Option<NodeId>>, start: NodeId, v: NodeId) -> bool {
    exists|f: nat| (#[trigger] walk_back(parent, start, v, f)) is Some
}

/// The finite chain of parent links from `v`, starting with `v`.
pub open spec fn back_chain(parent: Seq<Option<NodeId>>, start: NodeId, v: NodeId) -> Seq<NodeId> {
    walk_back(parent, start, v, choose|f: nat| (#[trigger] walk_back(parent, start, v, f)) is Some)->0
}

/// More fuel does not change a chain that already ended.
pub proof fn lemma_walk_back_fuel(parent: Seq<Option<NodeId>>, start: NodeId, v: NodeId, f: nat, f2: nat)
    requires
        walk_back(parent, start, v, f) is Some,
        f <= f2,
    ensures
        walk_back(parent, start, v, f2) == walk_back(parent, start, v, f),
    decreases f,
{
    if v != start && v < parent.len() {
        if let Some(p) = parent[v as int] {
            lemma_walk_back_fuel(parent, start, p, (f - 1) as nat, (f2 - 1) as nat);
        }
    }
}

/// Consecutive nodes of `p` are joined by edges.
pub open spec fn is_node_path<W>(adj: Seq<Seq<(NodeId, W)>>, p: Seq<NodeId>) -> bool {
    forall|i: int| 0 <= i < p.len() - 1 ==> #[trigger] has_edge_to(adj, p[i] as int, p[i + 1] as int)
}

/// Two least walk lengths to the same node agree.
proof fn lemma_hop_unique<W>(adj: Seq<Seq<(NodeId, W)>>, start: int, v: int, d1: int, d2: int)
    requires
        hop_distance(adj, start, v, d1),
        hop_distance(adj, start, v, d2),
    ensures
        d1 == d2,
{
    let s1 = choose|s: Seq<int>| #[trigger] is_walk(adj, start, s, v) && s.len() == d1;
    let s2 = choose|s: Seq<int>| #[trigger] is_walk(adj, start, s, v) && s.len() == d2;
}

/// In a shortest-path tree, the parent chain of a discovered node at hop
/// distance `d` has `d + 1` nodes, ends at the root, and runs against edges.
proof fn lemma_tree_chain<W>(adj: Seq<Seq<(NodeId, W)>>, start: NodeId, parent: Seq<Option<NodeId>>, v: NodeId, d: nat)
    requires
        is_bfs_tree(adj, start as int, parent),
        v < parent.len(),
        discovered(parent, v as int),
        hop_distance(adj, start as int, v as int, d as int),
    ensures
        walk_back(parent, start, v, d + 1) is Some,
        ({
            let c = walk_back(parent, start, v, d + 1)->0;
            &&& c.len() == d + 1
            &&& c[0] == v
            &&& c.last() == start
            &&& forall|i: int| 0 <= i < c.len() - 1 ==> #[trigger] has_edge_to(adj, c[i + 1] as int, c[i] as int)
            &&& forall|i: int| 0 <= i < c.len() ==> #[trigger] c[i] < parent.len()
        }),
    decreases d,
{
    if v == start {
        assert(is_walk(adj, start as int, Seq::<int>::empty(), start as int));
        assert(d == 0);
    } else {
        assert(tree_link(adj, start as int, parent, v as int));
        let u = parent[v as int]->0;
        let d0 = choose|d0: int| #[trigger] hop_distance(adj, start as int, u as int, d0) && hop_distance(adj, start as int, v as int, d0 + 1);
        lemma_hop_unique(adj, start as int, v as int, d as int, d0 + 1);
        let su = choose|s: Seq<int>| #[trigger] is_walk(adj, start as int, s, u as int) && s.len() == d0;
        lemma_tree_chain(adj, start, parent, u, d0 as nat);
        let rest = walk_back(parent, start, u, d0 as nat + 1)->0;
        let c = walk_back(parent, start, v, d + 1)->0;
        assert(c =~= seq![v] + rest);
        assert forall|i: int| 0 <= i < c.len() implies #[trigger] c[i] < parent.len() by {
            if i > 0 {
                assert(c[i] == rest[i - 1]);
            }
        }
        assert forall|i: int| 0 <= i < c.len() - 1 implies #[trigger] has_edge_to(adj, c[i + 1] as int, c[i] as int) by {
            if i > 0 {
                assert(c[i] == rest[i - 1] && c[i + 1] == rest[i]);
                assert(has_edge_to(adj, rest[(i - 1) + 1] as int, rest[i - 1] as int));
            } else {
                assert(c[1] == rest[0]);
                assert(rest[0] == u);
            }
        }
    }
}

/// Shortest paths from a tree: in a shortest-path tree rooted at `start`,
/// the parent chain of every node in the table ends, so the path can be
/// rebuilt from it. For a discovered node the chain, read from the root,
/// starts at `start`, ends at `dest`, follows edges, and has as many edges
/// as the fewest edges of any walk from `start` to `dest`; for an
/// undiscovered node the chain does not reach `start`.
pub proof fn lemma_tree_paths_are_shortest<W>(
    adj: Seq<Seq<(NodeId, W)>>,
    start: NodeId,
    parent: Seq<Option<NodeId>>,
    dest: NodeId,
)
    requires
        is_bfs_tree(adj, start as int, parent),
        dest < parent.len(),
    ensures
        chain_ends(parent, start, dest),
        discovered(parent, dest as int) ==> {
            let p = back_chain(parent, start, dest).reverse();
            &&& back_chain(parent, start, dest).last() == start
            &&& p.len() > 0
            &&& p[0] == start
            &&& p.last() == dest
            &&& forall|i: int| 0 <= i < p.len() ==> #[trigger] p[i] < parent.len()
            &&& is_node_path(adj, p)
            &&& hop_distance(adj, start as int, dest as int, p.len() - 1)
        },
        !discovered(parent, dest as int) ==> back_chain(parent, start, dest) == seq![dest] && dest != start,
{
    if discovered(parent, dest as int) {
        let d: int = if dest == start {
            assert(is_walk(adj, start as int, Seq::<int>::empty(), start as int));
            0
        } else {
            assert(tree_link(adj, start as int, parent, dest as int));
            let d0 = choose|d0: int| #[trigger] hop_distance(adj, start as int, parent[dest as int]->0 as int, d0)
                && hop_distance(adj, start as int, dest as int, d0 + 1);
            d0 + 1
        };
        assert(hop_distance(adj, start as int, dest as int, d));
        assert(d >= 0) by {
            let s = choose|s: Seq<int>| #[trigger] is_walk(adj, start as int, s, dest as int) && s.len() == d;
        }
        lemma_tree_chain(adj, start, parent, dest, d as nat);
        assert(walk_back(parent, start, dest, (d + 1) as nat) is Some);
        let f = choose|f: nat| (#[trigger] walk_back(parent, start, dest, f)) is Some;
        if f <= d + 1 {
            lemma_walk_back_fuel(parent, start, dest, f, (d + 1) as nat);
        } else {
            lemma_walk_back_fuel(parent, start, dest, (d + 1) as nat, f);
        }
        let c = back_chain(parent, start, dest);
        let p = c.reverse();
        assert(c == walk_back(parent, start, dest, (d + 1) as nat)->0);
        assert forall|i: int| 0 <= i < p.len() implies #[trigger] p[i] < parent.len() by {
            assert(p[i] == c[c.len() - 1 - i]);
        }
        assert forall|i: int| 0 <= i < p.len() - 1 implies #[trigger] has_edge_to(adj, p[i] as int, p[i + 1] as int) by {
            let k = c.len() - 2 - i;
            assert(p[i] == c[k + 1] && p[i + 1] == c[k]);
            assert(has_edge_to(adj, c[k + 1] as int, c[k] as int));
        }
    } else {
        assert(dest != start);
        assert(walk_back(parent, start, dest, 1) == Some(seq![dest]));
        let f = choose|f: nat| (#[trigger] walk_back(parent, start, dest, f)) is Some;
        if f <= 1 {
            lemma_walk_back_fuel(parent, start, dest, f, 1);
        } else {
            lemma_walk_back_fuel(parent, start, dest, 1, f);
        }
    }
}

/// Two adjacency lists with the same edge targets in the same order,
/// whatever their weights.
pub open spec fn same_targets<W1, W2>(a: Seq<Seq<(NodeId, W1)>>, b: Seq<Seq<(NodeId, W2)>>) -> bool {
    &&& a.len() == b.len()
    &&& forall|u: int| 0 <= u < a.len() ==> (#[trigger] a[u]).len() == b[u].len()
    &&& forall|u: int, j: int| 0 <= u < a.len() && 0 <= j < a[u].len() ==> (#[trigger] a[u][j]).0 == b[u][j].0
}

proof fn lemma_has_edge_same<W1, W2>(a: Seq<Seq<(NodeId, W1)>>, b: Seq<Seq<(NodeId, W2)>>, u: int, v: int)
    requires
        same_targets(a, b),
        0 <= u < a.len(),
    ensures
        has_edge_to(a, u, v) == has_edge_to(b, u, v),
{
    if has_edge_to(a, u, v) {
        let j = choose|j: int| 0 <= j < a[u].len() && #[trigger] a[u][j].0 == v;
        assert(b[u][j].0 == v);
    }
    if has_edge_to(b, u, v) {
        let j = choose|j: int| 0 <= j < b[u].len() && #[trigger] b[u][j].0 == v;
        assert(a[u][j].0 == v);
    }
}

proof fn lemma_discovered_by_same<W1, W2>(
    a: Seq<Seq<(NodeId, W1)>>,
    b: Seq<Seq<(NodeId, W2)>>,
    o: Seq<NodeId>,
    k: int,
    p: int,
    j: int,
)
    requires
        same_targets(a, b),
        forall|t: int| 0 <= t < o.len() ==> #[trigger] o[t] < a.len(),
    ensures
        discovered_by(a, o, k, p, j) == discovered_by(b, o, k, p, j),
{
    if 0 <= p < k < o.len() {
        let u = o[p] as int;
        let v = o[k] as int;
        assert(o[p] < a.len());
        assert forall|i: int| 0 <= i < a[u].len() implies #[trigger] a[u][i].0 == b[u][i].0 by {}
        assert forall|q: int| 0 <= q < p implies has_edge_to(a, #[trigger] o[q] as int, v) == has_edge_to(
            b,
            o[q] as int,
            v,
        ) by {
            assert(o[q] < a.len());
            lemma_has_edge_same(a, b, o[q] as int, v);
        }
        if discovered_by(a, o, k, p, j) {
            assert forall|i: int| 0 <= i < j implies #[trigger] b[u][i].0 != v by {
                assert(a[u][i].0 != v);
            }
        }
        if discovered_by(b, o, k, p, j) {
            assert forall|i: int| 0 <= i < j implies #[trigger] a[u][i].0 != v by {
                assert(b[u][i].0 != v);
            }
        }
    }
}

proof fn lemma_fifo_transfer<W1, W2>(
    a: Seq<Seq<(NodeId, W1)>>,
    b: Seq<Seq<(NodeId, W2)>>,
    start: int,
    o: Seq<NodeId>,
    d: int,
    p: Seq<Option<NodeId>>,
)
    requires
        same_targets(a, b),
        fifo_search(a, start, o, d, p),
    ensures
        fifo_search(b, start, o, d, p),
{
    assert forall|k: int| 1 <= k < o.len() implies #[trigger] link_ok(b, o, p, d, k) by {
        assert(link_ok(a, o, p, d, k));
        let (pw, jw) = choose|pw: int, jw: int|
            #[trigger] discovered_by(a, o, k, pw, jw) && pw < d && p[o[k] as int] == Some(o[pw]);
        lemma_discovered_by_same(a, b, o, k, pw, jw);
    }
    assert forall|k1: int, p1: int, j1: int, k2: int, p2: int, j2: int|
        #[trigger] discovered_by(b, o, k1, p1, j1) && #[trigger] discovered_by(b, o, k2, p2, j2) && k1 < k2 implies p1
            < p2 || (p1 == p2 && j1 < j2) by {
        lemma_discovered_by_same(a, b, o, k1, p1, j1);
        lemma_discovered_by_same(a, b, o, k2, p2, j2);
    }
    assert forall|q: int, j: int| 0 <= q < d && 0 <= j < b[o[q] as int].len() implies o.contains(
        #[trigger] b[o[q] as int][j].0,
    ) by {
        assert(o[q] < a.len());
        assert(a[o[q] as int][j].0 == b[o[q] as int][j].0);
        assert(o.contains(a[o[q] as int][j].0));
    }
}

/// Breadth-first search ignores weights and node data: over two graphs
/// whose nodes have the same edge targets in the same order, searches from
/// the same start for the same target give the same parent table, the same
/// discovery order and the same stopping point.
pub proof fn lemma_bfs_ignores_weights<W1, W2>(
    a: Seq<Seq<(NodeId, W1)>>,
    b: Seq<Seq<(NodeId, W2)>>,
    start: int,
    target: Option<NodeId>,
    o1: Seq<NodeId>,
    d1: int,
    p1: Seq<Option<NodeId>>,
    o2: Seq<NodeId>,
    d2: int,
    p2: Seq<Option<NodeId>>,
)
    requires
        same_targets(a, b),
        fifo_search(a, start, o1, d1, p1),
        stops_at(o1, d1, target),
        fifo_search(b, start, o2, d2, p2),
        stops_at(o2, d2, target),
    ensures
        p1 == p2,
        o1 == o2,
        d1 == d2,
{
    lemma_fifo_transfer(a, b, start, o1, d1, p1);
    lemma_fifo_search_unique(b, start, target, o1, d1, p1, o2, d2, p2);
}

} // verus!
