//! Single-source shortest distances over an adjacency list with
//! non-negative integer weights, computed by Dijkstra's method with a
//! priority queue of `(cost, position)` entries that are skipped when stale.
use crate::priority::{outranks, pop_best, State};
use crate::walks::{is_walk, lemma_walk_push, lemma_weight_prefix, lemma_weight_push, walk_end, walk_weight};
use vstd::prelude::*;

verus! {

/// The edge lists of an adjacency list of vectors, as sequences.
pub open spec fn rows(graph: Seq<Vec<(usize, usize)>>) -> Seq<Seq<(usize, usize)>> {
    graph.map_values(|r: Vec<(usize, usize)>| r@)
}

/// Every edge ends at an existing node.
pub open spec fn targets_in_range(adj: Seq<Seq<(usize, usize)>>) -> bool {
    forall|u: int, j: int|
        0 <= u < adj.len() && 0 <= j < adj[u].len() ==> #[trigger] adj[u][j].0 < adj.len()
}

/// Some walk from `start` reaches `u` with total weight at most `bound`.
pub open spec fn reachable_within(adj: Seq<Seq<(usize, usize)>>, start: int, u: int, bound: int) -> bool {
    exists|s: Seq<int>| #[trigger] is_walk(adj, start, s, u) && walk_weight(adj, start, s) <= bound
}

/// For every node that some walk of weight below `usize::MAX` reaches, the
/// cheapest such walk extended by any one of its edges still fits in a
/// `usize`: the sums the search forms never overflow.
pub open spec fn sums_fit(adj: Seq<Seq<(usize, usize)>>, start: int) -> bool {
    forall|u: int, j: int|
        0 <= u < adj.len() && 0 <= j < adj[u].len() && reachable_within(adj, start, u, usize::MAX - 1)
            ==> #[trigger] reachable_within(adj, start, u, usize::MAX - adj[u][j].1)
}

/// `d` is the least weight of a walk from `start` to `v`, or `usize::MAX`
/// when no walk weighs less than `usize::MAX`.
pub open spec fn is_shortest_distance(adj: Seq<Seq<(usize, usize)>>, start: int, v: int, d: usize) -> bool {
    &&& d < usize::MAX ==> exists|s: Seq<int>| #[trigger] is_walk(adj, start, s, v) && walk_weight(adj, start, s) == d
    &&& forall|s: Seq<int>| #[trigger] is_walk(adj, start, s, v) ==> d <= walk_weight(adj, start, s)
}

/// The sum of a sequence of distances.
pub open spec fn seq_sum(s: Seq<usize>) -> nat
    decreases s.len(),
{
    if s.len() == 0 {
        0
    } else {
        seq_sum(s.drop_last()) + s.last() as nat
    }
}

proof fn lemma_sum_update(s: Seq<usize>, i: int, x: usize)
    requires
        0 <= i < s.len(),
    ensures
        seq_sum(s.update(i, x)) == seq_sum(s) - s[i] + x,
    decreases s.len(),
{
    if i == s.len() - 1 {
        assert(s.update(i, x).drop_last() =~= s.drop_last());
    } else {
        assert(s.update(i, x).drop_last() =~= s.drop_last().update(i, x));
        lemma_sum_update(s.drop_last(), i, x);
    }
}

/// Every edge out of `u` leads to a node whose recorded distance is at most
/// the distance of `u` plus the edge's weight.
pub open spec fn relaxed(adj: Seq<Seq<(usize, usize)>>, dist: Seq<usize>, u: int) -> bool {
    forall|j: int| 0 <= j < adj[u].len() ==> dist[#[trigger] adj[u][j].0 as int] <= dist[u] + adj[u][j].1
}

/// The queue holds the entry `(c, p)`.
pub open spec fn queued(heap: Seq<State>, c: usize, p: int) -> bool {
    exists|k: int| 0 <= k < heap.len() && (#[trigger] heap[k]).cost == c && heap[k].position == p
}

/// Every recorded distance below `usize::MAX` is the weight of a walk.
pub open spec fn sound(adj: Seq<Seq<(usize, usize)>>, start: int, dist: Seq<usize>) -> bool {
    forall|v: int|
        0 <= v < dist.len() && #[trigger] dist[v] < usize::MAX ==> exists|s: Seq<int>|
            #[trigger] is_walk(adj, start, s, v) && walk_weight(adj, start, s) == dist[v]
}

/// Queue entries name existing nodes, never undercut the recorded distance,
/// and are below `usize::MAX`.
pub open spec fn entries_ok(heap: Seq<State>, dist: Seq<usize>) -> bool {
    forall|k: int|
        0 <= k < heap.len() ==> (#[trigger] heap[k]).position < dist.len() && dist[heap[k].position as int]
            <= heap[k].cost && heap[k].cost < usize::MAX
}

/// Every node other than `skip` is relaxed or still has its current
/// distance queued.
pub open spec fn settled_except(adj: Seq<Seq<(usize, usize)>>, dist: Seq<usize>, heap: Seq<State>, skip: int) -> bool {
    forall|u: int|
        0 <= u < adj.len() && u != skip ==> relaxed(adj, dist, u) || queued(heap, #[trigger] dist[u], u)
}

proof fn lemma_queued_push(heap: Seq<State>, c: usize, p: int, e: State)
    requires
        queued(heap, c, p),
    ensures
        queued(heap.push(e), c, p),
{
    let k = choose|k: int| 0 <= k < heap.len() && (#[trigger] heap[k]).cost == c && heap[k].position == p;
    assert(heap.push(e)[k] == heap[k]);
}

proof fn lemma_queued_remove(heap: Seq<State>, c: usize, p: int, i: int)
    requires
        queued(heap, c, p),
        0 <= i < heap.len(),
        !(heap[i].cost == c && heap[i].position == p),
    ensures
        queued(heap.remove(i), c, p),
{
    let k = choose|k: int| 0 <= k < heap.len() && (#[trigger] heap[k]).cost == c && heap[k].position == p;
    if k < i {
        assert(heap.remove(i)[k] == heap[k]);
    } else {
        assert(heap.remove(i)[k - 1] == heap[k]);
    }
}

/// Following any walk from `start`, either its end already has a distance
/// no greater than the walk's weight, or some point of the walk is queued
/// with a distance no greater than the weight of the walk up to there.
/// The result is `-1` in the first case and the length of that prefix in
/// the second.
proof fn lemma_frontier(
    adj: Seq<Seq<(usize, usize)>>,
    dist: Seq<usize>,
    heap: Seq<State>,
    start: int,
    s: Seq<int>,
    v: int,
) -> (k: int)
    requires
        targets_in_range(adj),
        dist.len() == adj.len(),
        0 <= start < adj.len(),
        dist[start] == 0,
        settled_except(adj, dist, heap, -1),
        is_walk(adj, start, s, v),
    ensures
        0 <= v < adj.len(),
        k == -1 ==> dist[v] <= walk_weight(adj, start, s),
        k != -1 ==> {
            let x = walk_end(adj, start, s.take(k));
            &&& 0 <= k <= s.len()
            &&& 0 <= x < adj.len()
            &&& queued(heap, dist[x], x)
            &&& dist[x] <= walk_weight(adj, start, s.take(k))
        },
    decreases s.len(),
{
    if s.len() == 0 {
        -1
    } else {
        let s0 = s.drop_last();
        let u = walk_end(adj, start, s0);
        let j = s.last();
        assert(is_walk(adj, start, s0, u));
        let k0 = lemma_frontier(adj, dist, heap, start, s0, u);
        assert(adj[u][j].0 < adj.len());
        if k0 == -1 {
            if queued(heap, dist[u], u) {
                assert(s.take(s.len() - 1) =~= s0);
                s.len() - 1
            } else {
                assert(relaxed(adj, dist, u));
                assert(dist[adj[u][j].0 as int] <= dist[u] + adj[u][j].1);
                -1
            }
        } else {
            assert(s.take(k0) =~= s0.take(k0));
            lemma_weight_prefix(adj, start, s, s.len() - 1);
            assert(s.take(s.len() - 1) =~= s0);
            k0
        }
    }
}

/// The distance of each node from `start` along the cheapest walk, with
/// `usize::MAX` for nodes that no walk reaches below that weight. Edge
/// `(next, weight)` in `graph[u]` leads from `u` to `next`. `maybe_target`
/// does not change the result.
#[verifier::rlimit(40)]
#[verifier::spinoff_prover]
pub fn dkj_adj_list(graph: &Vec<Vec<(usize, usize)>>, start: usize, maybe_target: Option<usize>) -> (dist: Vec<usize>)
    requires
        start < graph@.len(),
        targets_in_range(rows(graph@)),
        sums_fit(rows(graph@), start as int),
    ensures
        dist@.len() == graph@.len(),
        forall|v: int|
            0 <= v < dist@.len() ==> is_shortest_distance(rows(graph@), start as int, v, #[trigger] dist@[v]),
{
    let n = graph.len();
    let ghost adj = rows(graph@);
    let mut dist: Vec<usize> = Vec::new();
    let mut i: usize = 0;
    while i < n
        invariant
            i <= n,
            dist@.len() == i,
            forall|k: int| 0 <= k < i ==> dist@[k] == usize::MAX,
        decreases n - i,
    {
        dist.push(usize::MAX);
        i = i + 1;
    }
    let mut heap: Vec<State> = Vec::new();
    dist.set(start, 0);
    heap.push(State { cost: 0, position: start });
    proof {
        assert(is_walk(adj, start as int, Seq::<int>::empty(), start as int));
        assert(heap@[0].cost == 0 && heap@[0].position == start);
        assert(queued(heap@, dist@[start as int], start as int));
        assert forall|u: int| 0 <= u < adj.len() && u != -1 implies relaxed(adj, dist@, u) || queued(
            heap@,
            #[trigger] dist@[u],
            u,
        ) by {
            if u != start {
                assert forall|j: int| 0 <= j < adj[u].len() implies dist@[#[trigger] adj[u][j].0 as int] <= dist@[u]
                    + adj[u][j].1 by {}
            }
        }
        assert forall|v: int| 0 <= v < dist@.len() && #[trigger] dist@[v] < usize::MAX implies exists|s: Seq<int>|
            #[trigger] is_walk(adj, start as int, s, v) && walk_weight(adj, start as int, s) == dist@[v] by {
            assert(v == start);
            assert(is_walk(adj, start as int, Seq::<int>::empty(), v));
        }
    }
    while heap.len() > 0
        invariant
            n == graph@.len(),
            adj == rows(graph@),
            targets_in_range(adj),
            sums_fit(adj, start as int),
            dist@.len() == n,
            start < n,
            dist@[start as int] == 0,
            sound(adj, start as int, dist@),
            settled_except(adj, dist@, heap@, -1),
            entries_ok(heap@, dist@),
        decreases seq_sum(dist@), heap@.len(),
    {
        let ghost heap0 = heap@;
        let ghost sum0 = seq_sum(dist@);
        let best = pop_best(&mut heap);
        let cost = best.cost;
        let position = best.position;
        let ghost bi = choose|i: int| 0 <= i < heap0.len() && heap0[i] == best && heap@ == heap0.remove(i);
        assert(heap0[bi].cost == cost);
        if cost > dist[position] {
            proof {
                assert forall|u: int| 0 <= u < adj.len() && u != -1 implies relaxed(adj, dist@, u) || queued(
                    heap@,
                    #[trigger] dist@[u],
                    u,
                ) by {
                    if !relaxed(adj, dist@, u) {
                        lemma_queued_remove(heap0, dist@[u], u, bi);
                    }
                }
                assert forall|k: int| 0 <= k < heap@.len() implies (#[trigger] heap@[k]).position < dist@.len()
                    && dist@[heap@[k].position as int] <= heap@[k].cost && heap@[k].cost < usize::MAX by {
                    if k < bi {
                        assert(heap@[k] == heap0[k]);
                    } else {
                        assert(heap@[k] == heap0[k + 1]);
                    }
                }
            }
            continue;
        }
        let ghost sp: Seq<int> = choose|s: Seq<int>|
            #[trigger] is_walk(adj, start as int, s, position as int) && walk_weight(adj, start as int, s) == dist@[position as int];
        proof {
            assert(dist@[position as int] < usize::MAX);
            assert forall|s: Seq<int>| #[trigger] is_walk(adj, start as int, s, position as int) implies cost
                <= walk_weight(adj, start as int, s) by {
                let k = lemma_frontier(adj, dist@, heap0, start as int, s, position as int);
                if k != -1 {
                    let x = walk_end(adj, start as int, s.take(k));
                    let q = choose|q: int| 0 <= q < heap0.len() && (#[trigger] heap0[q]).cost == dist@[x] && heap0[q].position == x;
                    assert(!outranks(heap0[q], best));
                    lemma_weight_prefix(adj, start as int, s, k);
                }
            }
            assert forall|u: int| 0 <= u < adj.len() && u != position implies relaxed(adj, dist@, u) || queued(
                heap@,
                #[trigger] dist@[u],
                u,
            ) by {
                if !relaxed(adj, dist@, u) {
                    lemma_queued_remove(heap0, dist@[u], u, bi);
                }
            }
            assert forall|k: int| 0 <= k < heap@.len() implies (#[trigger] heap@[k]).position < dist@.len()
                && dist@[heap@[k].position as int] <= heap@[k].cost && heap@[k].cost < usize::MAX by {
                if k < bi {
                    assert(heap@[k] == heap0[k]);
                } else {
                    assert(heap@[k] == heap0[k + 1]);
                }
            }
        }
        let ghost base = heap@.len();
        let row_len = graph[position].len();
        let mut j: usize = 0;
        while j < row_len
            invariant
                n == graph@.len(),
                adj == rows(graph@),
                targets_in_range(adj),
                sums_fit(adj, start as int),
                dist@.len() == n,
                start < n,
                dist@[start as int] == 0,
                position < n,
                cost == dist@[position as int],
                cost < usize::MAX,
                is_walk(adj, start as int, sp, position as int),
                walk_weight(adj, start as int, sp) == cost,
                forall|s: Seq<int>| #[trigger] is_walk(adj, start as int, s, position as int) ==> cost <= walk_weight(
                    adj,
                    start as int,
                    s,
                ),
                row_len == adj[position as int].len(),
                j <= row_len,
                forall|t: int|
                    0 <= t < j ==> dist@[#[trigger] adj[position as int][t].0 as int] <= cost
                        + adj[position as int][t].1,
                sound(adj, start as int, dist@),
                settled_except(adj, dist@, heap@, position as int),
                entries_ok(heap@, dist@),
                seq_sum(dist@) + heap@.len() <= sum0 + base,
                base + 1 == heap0.len(),
                heap@.len() >= base,
            decreases row_len - j,
        {
            let (next, weight) = graph[position][j];
            assert(adj[position as int][j as int] == (next, weight));
            proof {
                assert(reachable_within(adj, start as int, position as int, usize::MAX - 1));
                assert(reachable_within(adj, start as int, position as int, usize::MAX - adj[position as int][j as int].1));
            }
            let next_cost = cost + weight;
            if next_cost < dist[next] {
                let ghost d0 = dist@;
                let ghost h0 = heap@;
                let e = State { cost: next_cost, position: next };
                dist.set(next, next_cost);
                heap.push(e);
                proof {
                    lemma_sum_update(d0, next as int, next_cost);
                    lemma_walk_push(adj, start as int, sp, position as int, j as int);
                    lemma_weight_push(adj, start as int, sp, position as int, j as int);
                    assert(heap@[h0.len() as int] == e);
                    assert forall|v: int| 0 <= v < dist@.len() && #[trigger] dist@[v] < usize::MAX implies exists|
                        s: Seq<int>,
                    | #[trigger] is_walk(adj, start as int, s, v) && walk_weight(adj, start as int, s) == dist@[v] by {
                        if v == next {
                            assert(is_walk(adj, start as int, sp.push(j as int), v));
                        } else {
                            assert(dist@[v] == d0[v]);
                        }
                    }
                    assert forall|u: int| 0 <= u < adj.len() && u != position implies relaxed(adj, dist@, u)
                        || queued(heap@, #[trigger] dist@[u], u) by {
                        if u == next {
                            assert(heap@[h0.len() as int] == e);
                        } else if relaxed(adj, d0, u) {
                            assert forall|t: int| 0 <= t < adj[u].len() implies dist@[#[trigger] adj[u][t].0 as int]
                                <= dist@[u] + adj[u][t].1 by {
                                assert(d0[adj[u][t].0 as int] <= d0[u] + adj[u][t].1);
                            }
                        } else {
                            lemma_queued_push(h0, d0[u], u, e);
                        }
                    }
                    assert forall|k: int| 0 <= k < heap@.len() implies (#[trigger] heap@[k]).position < dist@.len()
                        && dist@[heap@[k].position as int] <= heap@[k].cost && heap@[k].cost < usize::MAX by {
                        if k < h0.len() {
                            assert(heap@[k] == h0[k]);
                        }
                    }
                    assert forall|t: int| 0 <= t <= j implies dist@[#[trigger] adj[position as int][t].0 as int]
                        <= cost + adj[position as int][t].1 by {
                        if t < j {
                            assert(d0[adj[position as int][t].0 as int] <= cost + adj[position as int][t].1);
                        }
                    }
                }
            }
            j = j + 1;
        }
        proof {
            assert(seq_sum(dist@) < sum0 || (seq_sum(dist@) == sum0 && heap@.len() < heap0.len()));
            assert(relaxed(adj, dist@, position as int));
            assert forall|u: int| 0 <= u < adj.len() && u != -1 implies relaxed(adj, dist@, u) || queued(
                heap@,
                #[trigger] dist@[u],
                u,
            ) by {
                if u != position {
                    assert(settled_except(adj, dist@, heap@, position as int));
                }
            }
        }
    }
    proof {
        assert forall|v: int| 0 <= v < dist@.len() implies is_shortest_distance(
            adj,
            start as int,
            v,
            #[trigger] dist@[v],
        ) by {
            assert forall|s: Seq<int>| #[trigger] is_walk(adj, start as int, s, v) implies dist@[v] <= walk_weight(
                adj,
                start as int,
                s,
            ) by {
                let k = lemma_frontier(adj, dist@, heap@, start as int, s, v);
            }
            if dist@[v] < usize::MAX {
                assert(sound(adj, start as int, dist@));
            }
        }
    }
    dist
}

} // verus!
