use mutuals_graph::explore;
use mutuals_graph::graph::{bfs, build_path_from_parent, Graph};

fn line_graph() -> Graph<&'static str, f32> {
    // A - B - C and A - D, as in the demo of the original program.
    let mut g = Graph::<&'static str, f32>::new();
    let a = g.add_node("A");
    let b = g.add_node("B");
    let c = g.add_node("C");
    let d = g.add_node("D");
    g.add_undir_edge(a, b, 1.0);
    g.add_undir_edge(b, c, 2.5);
    g.add_undir_edge(a, d, 0.7);
    g
}

#[test]
fn new_graph_is_empty() {
    let g = Graph::<u32, u32>::new();
    assert_eq!(g.len(), 0);
    assert!(g.is_empty());
}

#[test]
fn add_node_returns_consecutive_ids() {
    let mut g = Graph::<String, ()>::new();
    assert_eq!(g.add_node("x".to_string()), 0);
    assert_eq!(g.add_node("y".to_string()), 1);
    assert_eq!(g.len(), 2);
    assert!(!g.is_empty());
    assert_eq!(g.node(1), "y");
    assert!(g.neighbors(0).is_empty());
}

#[test]
fn add_edge_appends_in_order() {
    let mut g = Graph::<u8, u32>::new();
    for i in 0..3u8 {
        g.add_node(i);
    }
    g.add_edge(0, 2, 7);
    g.add_edge(0, 1, 3);
    g.add_edge(0, 2, 9);
    assert_eq!(g.neighbors(0), &[(2, 7), (1, 3), (2, 9)]);
    assert!(g.neighbors(1).is_empty());
}

#[test]
fn add_undir_edge_adds_both_directions() {
    let g = line_graph();
    assert_eq!(g.neighbors(0), &[(1, 1.0), (3, 0.7)]);
    assert_eq!(g.neighbors(1), &[(0, 1.0), (2, 2.5)]);
    assert_eq!(g.neighbors(2), &[(1, 2.5)]);
    assert_eq!(g.neighbors(3), &[(0, 0.7)]);
}

#[test]
fn undirected_self_loop_appears_twice() {
    let mut g = Graph::<u8, u8>::new();
    g.add_node(0);
    g.add_undir_edge(0, 0, 5);
    assert_eq!(g.neighbors(0), &[(0, 5), (0, 5)]);
}

#[test]
fn node_mut_changes_only_that_node() {
    let mut g = line_graph();
    *g.node_mut(2) = "Z";
    assert_eq!(*g.node(2), "Z");
    assert_eq!(*g.node(1), "B");
    assert_eq!(g.neighbors(2), &[(1, 2.5)]);
}

#[test]
fn demo_path_from_a_to_c() {
    let g = line_graph();
    let parent = explore::bfs(&g, 0);
    assert_eq!(parent, vec![Some(0), Some(0), Some(1), Some(0)]);
    let path = build_path_from_parent(0, 2, &parent);
    assert_eq!(path, vec![0, 1, 2]);
    let labels: Vec<&str> = path.iter().map(|&id| *g.node(id)).collect();
    assert_eq!(labels, vec!["A", "B", "C"]);
}

#[test]
fn full_bfs_leaves_unreachable_nodes_undiscovered() {
    let mut g = Graph::<u8, ()>::new();
    for i in 0..4u8 {
        g.add_node(i);
    }
    g.add_edge(0, 1, ());
    g.add_edge(2, 3, ());
    let parent = explore::bfs(&g, 0);
    assert_eq!(parent, vec![Some(0), Some(0), None, None]);
    assert!(build_path_from_parent(0, 3, &parent).is_empty());
}

#[test]
fn edges_are_directed() {
    let mut g = Graph::<u8, ()>::new();
    g.add_node(0);
    g.add_node(1);
    g.add_edge(1, 0, ());
    let parent = explore::bfs(&g, 0);
    assert_eq!(parent, vec![Some(0), None]);
}

fn ring_with_chord() -> Graph<u8, ()> {
    // 0 -> 1 -> 2 -> 3 -> 4 and a chord 0 -> 3
    let mut g = Graph::<u8, ()>::new();
    for i in 0..5u8 {
        g.add_node(i);
    }
    g.add_edge(0, 1, ());
    g.add_edge(1, 2, ());
    g.add_edge(2, 3, ());
    g.add_edge(3, 4, ());
    g.add_edge(0, 3, ());
    g
}

#[test]
fn bfs_path_has_fewest_edges() {
    let g = ring_with_chord();
    let parent = bfs(&g, 0, 4);
    let path = build_path_from_parent(0, 4, &parent);
    assert_eq!(path, vec![0, 3, 4]);
}

#[test]
fn bfs_stops_at_target() {
    let g = ring_with_chord();
    // Node 1 leaves the queue first and is the target: its neighbour 2 is
    // never discovered.
    let parent = bfs(&g, 0, 1);
    assert_eq!(parent, vec![Some(0), Some(0), None, Some(0), None]);
    assert_eq!(build_path_from_parent(0, 1, &parent), vec![0, 1]);
}

#[test]
fn bfs_with_unreachable_target_explores_everything() {
    let mut g = ring_with_chord();
    g.add_node(9);
    let parent = bfs(&g, 0, 5);
    assert_eq!(parent, vec![Some(0), Some(0), Some(1), Some(0), Some(3), None]);
    assert!(build_path_from_parent(0, 5, &parent).is_empty());
}

#[test]
fn bfs_target_out_of_range_explores_everything() {
    let g = ring_with_chord();
    let parent = bfs(&g, 0, 42);
    assert_eq!(parent, vec![Some(0), Some(0), Some(1), Some(0), Some(3)]);
}

#[test]
fn path_to_start_is_start_alone() {
    let g = ring_with_chord();
    let parent = bfs(&g, 2, 2);
    assert_eq!(build_path_from_parent(2, 2, &parent), vec![2]);
    // even without any parent table entry for it
    assert_eq!(build_path_from_parent(7, 7, &[]), vec![7]);
}

#[test]
fn path_chain_that_misses_start_is_empty() {
    // 3 -> 1 -> None: the chain ends at 1, not at the start 0
    let parent = vec![Some(0), None, Some(1), Some(1)];
    assert!(build_path_from_parent(0, 3, &parent).is_empty());
    // 2 -> 1? no: 2's parent is 1 whose parent is None
    assert!(build_path_from_parent(0, 2, &parent).is_empty());
}

#[test]
fn path_follows_arbitrary_parent_links() {
    let parent = vec![Some(0), Some(3), Some(1), Some(0)];
    assert_eq!(build_path_from_parent(0, 2, &parent), vec![0, 3, 1, 2]);
}

#[test]
fn node_ids_stay_dense_between_edge_calls() {
    let mut g = Graph::<u32, u8>::new();
    let mut ids = Vec::new();
    for k in 0..5u32 {
        ids.push(g.add_node(10 * k));
        if k > 0 {
            g.add_edge(k as usize, 0, 1);
            g.add_undir_edge(0, k as usize, 2);
        }
        *g.node_mut(0) = 99;
        assert_eq!(g.len(), k as usize + 1);
    }
    assert_eq!(ids, vec![0, 1, 2, 3, 4]);
    assert_eq!(g.len(), 5);
    assert_eq!(*g.node(0), 99);
    assert_eq!(*g.node(3), 30);
}

#[test]
fn bfs_ignores_weights_and_node_data() {
    let heavy = ring_with_chord();
    let mut light = Graph::<&'static str, f64>::new();
    for _ in 0..heavy.len() {
        light.add_node("n");
    }
    for u in 0..heavy.len() {
        for e in heavy.neighbors(u) {
            light.add_edge(u, e.0, 1e9);
        }
    }
    for s in 0..heavy.len() {
        assert_eq!(explore::bfs(&heavy, s), explore::bfs(&light, s));
        for t in 0..heavy.len() {
            assert_eq!(bfs(&heavy, s, t), bfs(&light, s, t));
        }
    }
}
