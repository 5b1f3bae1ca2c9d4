//! Walks through an adjacency list, described by the start node and the
//! sequence of edge positions taken at each step.
use vstd::prelude::*;

verus! {

/// The node a walk ends at: starting at `from`, step `k` follows edge
/// `steps[k]` of the current node.
pub open spec fn walk_end<W>(adj: Seq<Seq<(usize, W)>>, from: int, steps: Seq<int>) -> int
    decreases steps.len(),
{
    if steps.len() == 0 {
        from
    } else {
        adj[walk_end(adj, from, steps.drop_last())][steps.last()].0 as int
    }
}

/// Every step of the walk names an existing edge of the node it leaves.
pub open spec fn valid_walk<W>(adj: Seq<Seq<(usize, W)>>, from: int, steps: Seq<int>) -> bool
    decreases steps.len(),
{
    if steps.len() == 0 {
        true
    } else {
        let u = walk_end(adj, from, steps.drop_last());
        &&& valid_walk(adj, from, steps.drop_last())
        &&& 0 <= u < adj.len()
        &&& 0 <= steps.last() < adj[u].len()
    }
}

/// `steps` is a walk from `from` to `to`.
pub open spec fn is_walk<W>(adj: Seq<Seq<(usize, W)>>, from: int, steps: Seq<int>, to: int) -> bool {
    valid_walk(adj, from, steps) && walk_end(adj, from, steps) == to
}

/// Some walk leads from `from` to `to`.
pub open spec fn reachable<W>(adj: Seq<Seq<(usize, W)>>, from: int, to: int) -> bool {
    exists|steps: Seq<int>| is_walk(adj, from, steps, to)
}

/// `d` is the least number of edges on a walk from `from` to `to`.
pub open spec fn hop_distance<W>(adj: Seq<Seq<(usize, W)>>, from: int, to: int, d: int) -> bool {
    &&& exists|steps: Seq<int>| #[trigger] is_walk(adj, from, steps, to) && steps.len() == d
    &&& forall|steps: Seq<int>| #[trigger] is_walk(adj, from, steps, to) ==> d <= steps.len()
}

/// The total weight of a walk whose edges carry integer weights.
pub open spec fn walk_weight(adj: Seq<Seq<(usize, usize)>>, from: int, steps: Seq<int>) -> int
    decreases steps.len(),
{
    if steps.len() == 0 {
        0
    } else {
        walk_weight(adj, from, steps.drop_last())
            + adj[walk_end(adj, from, steps.drop_last())][steps.last()].1
    }
}

/// Following one more existing edge extends a walk.
pub proof fn lemma_walk_push<W>(adj: Seq<Seq<(usize, W)>>, from: int, steps: Seq<int>, to: int, j: int)
    requires
        is_walk(adj, from, steps, to),
        0 <= to < adj.len(),
        0 <= j < adj[to].len(),
    ensures
        is_walk(adj, from, steps.push(j), adj[to][j].0 as int),
        steps.push(j).len() == steps.len() + 1,
{
    assert(steps.push(j).drop_last() =~= steps);
}

/// The weight of an extended walk adds the weight of the new edge.
pub proof fn lemma_weight_push(adj: Seq<Seq<(usize, usize)>>, from: int, steps: Seq<int>, to: int, j: int)
    requires
        is_walk(adj, from, steps, to),
        0 <= to < adj.len(),
        0 <= j < adj[to].len(),
    ensures
        walk_weight(adj, from, steps.push(j)) == walk_weight(adj, from, steps) + adj[to][j].1,
{
    assert(steps.push(j).drop_last() =~= steps);
}

/// A prefix of a valid walk is a valid walk.
pub proof fn lemma_prefix_valid<W>(adj: Seq<Seq<(usize, W)>>, from: int, steps: Seq<int>, k: int)
    requires
        valid_walk(adj, from, steps),
        0 <= k <= steps.len(),
    ensures
        valid_walk(adj, from, steps.take(k)),
    decreases steps.len(),
{
    if k < steps.len() {
        assert(steps.drop_last().take(k) =~= steps.take(k));
        lemma_prefix_valid(adj, from, steps.drop_last(), k);
    } else {
        assert(steps.take(k) =~= steps);
    }
}

/// Walk weights never decrease along the walk.
pub proof fn lemma_weight_prefix(adj: Seq<Seq<(usize, usize)>>, from: int, steps: Seq<int>, k: int)
    requires
        0 <= k <= steps.len(),
    ensures
        walk_weight(adj, from, steps.take(k)) <= walk_weight(adj, from, steps),
    decreases steps.len(),
{
    if k < steps.len() {
        assert(steps.drop_last().take(k) =~= steps.take(k));
        lemma_weight_prefix(adj, from, steps.drop_last(), k);
    } else {
        assert(steps.take(k) =~= steps);
    }
}

} // verus!
