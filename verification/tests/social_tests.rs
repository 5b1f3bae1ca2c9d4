use mutuals_graph::graph::Graph;
use mutuals_graph::index::NameIndex;
use mutuals_graph::social::{
    apply_response, bfs_until, canon, edge_count, find_route, get_or_create_node, has_edge, PyResp, Reply,
    Route,
};

#[test]
fn canon_trims_and_uppercases() {
    assert_eq!(canon("  alice\t\n"), "ALICE");
    assert_eq!(canon("Bob Smith "), "BOB SMITH");
    assert_eq!(canon("émile"), "éMILE");
    assert_eq!(canon("\u{3000}x\u{2003}"), "X");
    assert_eq!(canon("   "), "");
    assert_eq!(canon(&canon(" a b ")), canon(" a b "));
}

#[test]
fn get_or_create_reuses_the_canonical_name() {
    let mut g: Graph<String, f64> = Graph::new();
    let mut idx = NameIndex::new();
    let a = get_or_create_node(" a ", &mut g, &mut idx);
    let b = get_or_create_node("b", &mut g, &mut idx);
    let a2 = get_or_create_node("A", &mut g, &mut idx);
    assert_eq!((a, b, a2), (0, 1, 0));
    assert_eq!(g.len(), 2);
    assert_eq!(g.node(0), "A");
    assert_eq!(idx.len(), 2);
    assert_eq!(idx.get("B"), Some(1));
    assert_eq!(idx.get("b"), None);
    assert!(idx.contains_key("A"));
    assert!(!idx.contains_key("a"));
}

#[test]
fn has_edge_looks_at_outgoing_edges() {
    let mut g: Graph<u8, ()> = Graph::new();
    g.add_node(0);
    g.add_node(1);
    g.add_edge(0, 1, ());
    assert!(has_edge(&g, 0, 1));
    assert!(!has_edge(&g, 1, 0));
}

fn reply(mutuals: Option<Vec<&str>>, error: Option<&str>) -> PyResp {
    PyResp {
        username: "x".to_string(),
        mutuals: mutuals.map(|m| m.into_iter().map(|s| s.to_string()).collect()),
        error: error.map(|e| e.to_string()),
    }
}

#[test]
fn replies_link_mutuals_both_ways_once() {
    let mut g: Graph<String, f64> = Graph::new();
    let mut idx = NameIndex::new();
    let user = canon("a");
    let u = get_or_create_node(&user, &mut g, &mut idx);
    let r = apply_response(&mut g, &mut idx, u, &user, &reply(Some(vec!["b", " c", "a", "B"]), None), 1.0);
    assert_eq!(r, Reply::Linked);
    assert_eq!(g.len(), 3);
    assert_eq!(g.node(1), "B");
    assert_eq!(g.node(2), "C");
    assert_eq!(g.neighbors(0), &[(1, 1.0), (2, 1.0)]);
    assert_eq!(g.neighbors(1), &[(0, 1.0)]);
    assert_eq!(g.neighbors(2), &[(0, 1.0)]);
    // a later reply for b naming a again adds nothing
    let b = get_or_create_node("b", &mut g, &mut idx);
    let r = apply_response(&mut g, &mut idx, b, "B", &reply(Some(vec!["a"]), None), 1.0);
    assert_eq!(r, Reply::Linked);
    assert_eq!(edge_count(&g), 4);
}

#[test]
fn error_replies_change_nothing() {
    let mut g: Graph<String, f64> = Graph::new();
    let mut idx = NameIndex::new();
    let u = get_or_create_node("a", &mut g, &mut idx);
    let r = apply_response(&mut g, &mut idx, u, "A", &reply(Some(vec!["b"]), Some("user not found")), 1.0);
    assert_eq!(r, Reply::Missing);
    let r = apply_response(&mut g, &mut idx, u, "A", &reply(None, None), 1.0);
    assert_eq!(r, Reply::NoMutuals);
    assert_eq!(g.len(), 1);
    assert_eq!(edge_count(&g), 0);
}

fn chain() -> (Graph<String, f64>, NameIndex) {
    let mut g: Graph<String, f64> = Graph::new();
    let mut idx = NameIndex::new();
    for (user, mutuals) in [("a", vec!["b", "e"]), ("b", vec!["c"]), ("c", vec!["d"]), ("e", vec!["d"]), ("z", vec![])] {
        let name = canon(user);
        let u = get_or_create_node(&name, &mut g, &mut idx);
        apply_response(&mut g, &mut idx, u, &name, &reply(Some(mutuals), None), 1.0);
    }
    (g, idx)
}

#[test]
fn route_is_a_shortest_path() {
    let (g, idx) = chain();
    match find_route(&g, &idx, "a", " d ") {
        Route::Found(res) => {
            assert_eq!(res.start_user, "A");
            assert_eq!(res.end_user, "D");
            assert_eq!(res.path_nodes, vec!["A", "E", "D"]);
            assert_eq!(res.distance, 2);
            assert_eq!(res.path_ids.len(), 3);
        },
        _ => panic!("expected a route"),
    }
}

#[test]
fn route_to_oneself_has_no_edges() {
    let (g, idx) = chain();
    match find_route(&g, &idx, "c", "C") {
        Route::Found(res) => {
            assert_eq!(res.path_nodes, vec!["C"]);
            assert_eq!(res.distance, 0);
        },
        _ => panic!("expected a route"),
    }
}

#[test]
fn route_between_unconnected_users() {
    let (g, idx) = chain();
    match find_route(&g, &idx, "a", "z") {
        Route::NoPath { start_user, end_user } => {
            assert_eq!(start_user, "A");
            assert_eq!(end_user, "Z");
        },
        _ => panic!("expected no path"),
    }
}

#[test]
fn route_with_unknown_user() {
    let (g, idx) = chain();
    assert!(matches!(find_route(&g, &idx, "a", "q"), Route::UnknownUser));
    assert!(matches!(find_route(&g, &idx, "q", "a"), Route::UnknownUser));
}

#[test]
fn bfs_until_matches_reachability() {
    let (g, _) = chain();
    let parent = bfs_until(&g, 0, 4);
    assert_eq!(parent[0], Some(0));
    assert!(parent[4].is_some());
    let parent = bfs_until(&g, 0, 5);
    assert!(parent[5].is_none());
}

#[test]
fn edge_count_sums_all_lists() {
    let (g, _) = chain();
    assert_eq!(edge_count(&g), 10);
}

#[test]
fn index_may_leave_nodes_unnamed() {
    let mut g: Graph<String, f64> = Graph::new();
    g.add_node("X".to_string());
    let mut idx = NameIndex::new();
    let x = get_or_create_node("x", &mut g, &mut idx);
    assert_eq!(x, 1);
    assert_eq!(g.len(), 2);
    assert_eq!(g.node(1), "X");
    assert_eq!(idx.len(), 1);
    assert_eq!(idx.get("X"), Some(1));
    assert_eq!(get_or_create_node(" X", &mut g, &mut idx), 1);
    assert_eq!(g.len(), 2);
}

#[test]
fn exported_run_has_distinct_labels_and_simple_pairs() {
    let (g, _idx) = chain();
    let jg = g.to_json_model(false);
    assert!(!jg.directed);
    for (i, n) in jg.nodes.iter().enumerate() {
        assert_eq!(n.id, i);
        assert_eq!(canon(&n.data), n.data);
        for m in &jg.nodes[..i] {
            assert_ne!(m.data, n.data);
        }
    }
    for (k, e) in jg.edges.iter().enumerate() {
        assert!(e.src < e.dst && e.dst < jg.nodes.len());
        assert_eq!(e.weight, 1.0);
        for f in &jg.edges[..k] {
            assert!(!(f.src == e.src && f.dst == e.dst));
        }
    }
    assert_eq!(2 * jg.edges.len(), edge_count(&g));
}
