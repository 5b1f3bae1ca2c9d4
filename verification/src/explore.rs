//! Exhaustive breadth-first search: a shortest-path tree of everything the
//! start node reaches.
use crate::graph::{Graph, NodeId};
use crate::search::{bfs_search, covers_reachable, fifo_search, is_bfs_tree, stops_at};
use vstd::prelude::*;

verus! {

/// Breadth-first search from `start` over the whole graph, first in first
/// out. `parent[v]` is the node `v` was discovered from (`start` for
/// itself): the earliest-discovered node with an edge to `v`, following its
/// edges in order. Exactly the nodes that `start` reaches are discovered,
/// each one hop farther from `start` than its parent.
pub fn bfs<N, W>(g: &Graph<N, W>, start: NodeId) -> (parent: Vec<Option<NodeId>>)
    requires
        g.wf(),
        start < g.size(),
    ensures
        is_bfs_tree(g.adj_view(), start as int, parent@),
        covers_reachable(g.adj_view(), start as int, parent@),
        exists|order: Seq<NodeId>|
            #[trigger] fifo_search(g.adj_view(), start as int, order, order.len() as int, parent@),
{
    let parent = bfs_search(g, start, None);
    proof {
        let (order, done) = choose|order: Seq<NodeId>, done: int|
            #[trigger] fifo_search(g.adj_view(), start as int, order, done, parent@) && stops_at(order, done, None);
        assert(fifo_search(g.adj_view(), start as int, order, order.len() as int, parent@));
    }
    parent
}

} // verus!
