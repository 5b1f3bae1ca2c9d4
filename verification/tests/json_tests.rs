use mutuals_graph::graph::Graph;
use mutuals_graph::json::{JsonEdge, JsonGraph, JsonNode};

fn sample() -> Graph<String, u32> {
    let mut g = Graph::new();
    g.add_node("A".to_string());
    g.add_node("B".to_string());
    g.add_node("C".to_string());
    g.add_undir_edge(0, 1, 4);
    g.add_edge(2, 0, 7);
    g.add_edge(1, 1, 2);
    g
}

fn triples(jg: &JsonGraph<String, u32>) -> Vec<(usize, usize, u32)> {
    jg.edges.iter().map(|e| (e.src, e.dst, e.weight)).collect()
}

#[test]
fn directed_model_lists_every_edge() {
    let jg = sample().to_json_model(true);
    assert!(jg.directed);
    let nodes: Vec<(usize, String)> = jg.nodes.iter().map(|n| (n.id, n.data.clone())).collect();
    assert_eq!(nodes, vec![(0, "A".to_string()), (1, "B".to_string()), (2, "C".to_string())]);
    assert_eq!(triples(&jg), vec![(0, 1, 4), (1, 0, 4), (1, 1, 2), (2, 0, 7)]);
}

#[test]
fn undirected_model_skips_edges_to_lower_ids() {
    let jg = sample().to_json_model(false);
    assert!(!jg.directed);
    assert_eq!(triples(&jg), vec![(0, 1, 4), (1, 1, 2)]);
}

#[test]
fn directed_round_trip_rebuilds_the_graph() {
    let g = sample();
    let back = Graph::from_json_model(g.to_json_model(true));
    assert_eq!(back.len(), g.len());
    for u in 0..g.len() {
        assert_eq!(back.node(u), g.node(u));
        assert_eq!(back.neighbors(u), g.neighbors(u));
    }
}

#[test]
fn undirected_model_is_mirrored_on_import() {
    let jg = JsonGraph {
        directed: false,
        nodes: vec![JsonNode { id: 0, data: 'x' }, JsonNode { id: 1, data: 'y' }, JsonNode { id: 2, data: 'z' }],
        edges: vec![JsonEdge { src: 0, dst: 2, weight: 1u8 }, JsonEdge { src: 1, dst: 1, weight: 5u8 }],
    };
    let g = Graph::from_json_model(jg);
    assert_eq!(g.len(), 3);
    assert_eq!(*g.node(2), 'z');
    assert_eq!(g.neighbors(0), &[(2, 1)]);
    assert_eq!(g.neighbors(2), &[(0, 1)]);
    assert_eq!(g.neighbors(1), &[(1, 5), (1, 5)]);
}

#[test]
fn empty_model_gives_empty_graph() {
    let jg: JsonGraph<String, u32> = JsonGraph { directed: true, nodes: vec![], edges: vec![] };
    let g = Graph::from_json_model(jg);
    assert!(g.is_empty());
}

#[test]
fn undirected_round_trip_keeps_the_joined_pairs() {
    let mut g: Graph<String, u32> = Graph::new();
    for name in ["A", "B", "C", "D"] {
        g.add_node(name.to_string());
    }
    g.add_undir_edge(3, 1, 1);
    g.add_undir_edge(0, 3, 1);
    g.add_undir_edge(2, 3, 1);
    let back = Graph::from_json_model(g.to_json_model(false));
    for x in 0..4 {
        for y in 0..4 {
            let before = g.neighbors(x).iter().any(|e| e.0 == y);
            let after = back.neighbors(x).iter().any(|e| e.0 == y);
            assert_eq!(before, after, "pair {} {}", x, y);
        }
    }
    // the lists themselves may come back in another order
    assert_eq!(g.neighbors(3), &[(1, 1), (0, 1), (2, 1)]);
    assert_eq!(back.neighbors(3), &[(0, 1), (1, 1), (2, 1)]);
}

#[test]
fn undirected_round_trip_gives_each_list_back_reordered() {
    let mut g: Graph<String, u32> = Graph::new();
    for name in ["A", "B", "C", "D"] {
        g.add_node(name.to_string());
    }
    g.add_undir_edge(3, 1, 5);
    g.add_undir_edge(0, 3, 7);
    g.add_undir_edge(1, 3, 5);
    g.add_undir_edge(2, 3, 9);
    g.add_undir_edge(3, 2, 4);
    let back = Graph::from_json_model(g.to_json_model(false));
    assert_eq!(back.len(), g.len());
    for u in 0..4 {
        assert_eq!(back.node(u), g.node(u));
        let mut before = g.neighbors(u).to_vec();
        let mut after = back.neighbors(u).to_vec();
        before.sort();
        after.sort();
        assert_eq!(before, after, "node {}", u);
    }
    assert_eq!(g.neighbors(3), &[(1, 5), (0, 7), (1, 5), (2, 9), (2, 4)]);
    assert_eq!(back.neighbors(3), &[(0, 7), (1, 5), (1, 5), (2, 9), (2, 4)]);
}
