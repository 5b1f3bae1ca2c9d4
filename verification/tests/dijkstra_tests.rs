use mutuals_graph::dijkstra::dkj_adj_list;
use mutuals_graph::priority::{pop_best, State};
use std::cmp::Ordering;

#[test]
fn distances_take_the_cheapest_walk() {
    // 0 -> 1 (4), 0 -> 2 (1), 2 -> 1 (2), 1 -> 3 (1), 2 -> 3 (7)
    let graph = vec![vec![(1, 4), (2, 1)], vec![(3, 1)], vec![(1, 2), (3, 7)], vec![]];
    assert_eq!(dkj_adj_list(&graph, 0, None), vec![0, 3, 1, 4]);
}

#[test]
fn unreachable_nodes_stay_at_max() {
    let graph = vec![vec![(1, 5)], vec![], vec![(0, 1)]];
    assert_eq!(dkj_adj_list(&graph, 0, Some(2)), vec![0, 5, usize::MAX]);
}

#[test]
fn target_does_not_change_the_result() {
    let graph = vec![vec![(1, 2), (2, 9)], vec![(2, 3)], vec![]];
    let a = dkj_adj_list(&graph, 0, None);
    let b = dkj_adj_list(&graph, 0, Some(1));
    assert_eq!(a, vec![0, 2, 5]);
    assert_eq!(a, b);
}

#[test]
fn zero_weights_and_cycles() {
    let graph = vec![vec![(1, 0)], vec![(0, 0), (2, 0)], vec![(2, 3)]];
    assert_eq!(dkj_adj_list(&graph, 1, None), vec![0, 0, 0]);
}

#[test]
fn parallel_edges_use_the_lightest() {
    let graph = vec![vec![(1, 10), (1, 3), (1, 7)], vec![]];
    assert_eq!(dkj_adj_list(&graph, 0, None), vec![0, 3]);
}

#[test]
fn queue_order_prefers_low_cost_then_high_position() {
    let a = State { cost: 1, position: 5 };
    let b = State { cost: 2, position: 9 };
    let c = State { cost: 1, position: 7 };
    assert_eq!(a.cmp(&b), Ordering::Greater);
    assert_eq!(b.cmp(&a), Ordering::Less);
    assert_eq!(c.cmp(&a), Ordering::Greater);
    assert_eq!(a.cmp(&a), Ordering::Equal);
    assert_eq!(a.partial_cmp(&b), Some(Ordering::Greater));
}

#[test]
fn pop_best_removes_the_highest_ranked_entry() {
    let mut q = vec![
        State { cost: 4, position: 0 },
        State { cost: 1, position: 2 },
        State { cost: 1, position: 6 },
        State { cost: 3, position: 1 },
    ];
    assert_eq!(pop_best(&mut q), State { cost: 1, position: 6 });
    assert_eq!(pop_best(&mut q), State { cost: 1, position: 2 });
    assert_eq!(q, vec![State { cost: 4, position: 0 }, State { cost: 3, position: 1 }]);
}
