use ironweaver::attrs::Attrs;
use ironweaver::graph::Vertex;
use ironweaver::value::Value;
use ironweaver::GraphError;

fn s(x: &str) -> String {
    x.to_string()
}

/// Nodes A,B,C,D; edges A->B, B->C, A->D.
fn diamondless() -> Vertex {
    let mut g = Vertex::new();
    g.add_node(s("A"), None).unwrap();
    g.add_node(s("B"), None).unwrap();
    g.add_node(s("C"), None).unwrap();
    g.add_node(s("D"), None).unwrap();
    g.add_edge(&s("A"), &s("B"), None).unwrap();
    g.add_edge(&s("B"), &s("C"), None).unwrap();
    g.add_edge(&s("A"), &s("D"), None).unwrap();
    g
}

fn id_set(g: &Vertex) -> Vec<String> {
    let mut ids = g.keys();
    ids.sort();
    ids
}

#[test]
fn bfs_visits_reachable_set() {
    let g = diamondless();
    let h = g.bfs(&s("A"), None, None).unwrap();
    assert_eq!(id_set(&h), vec![s("A"), s("B"), s("C"), s("D")]);
    // breadth-first order: the root, its neighbors, then their neighbors
    assert_eq!(h.keys(), vec![s("A"), s("B"), s("D"), s("C")]);
    let from_b = g.bfs(&s("B"), None, None).unwrap();
    assert_eq!(id_set(&from_b), vec![s("B"), s("C")]);
}

#[test]
fn bfs_depth_bound() {
    let g = diamondless();
    let h = g.bfs(&s("A"), Some(1), None).unwrap();
    assert_eq!(id_set(&h), vec![s("A"), s("B"), s("D")]);
    let h0 = g.bfs(&s("A"), Some(0), None).unwrap();
    assert_eq!(id_set(&h0), vec![s("A")]);
}

#[test]
fn bfs_missing_root() {
    let g = diamondless();
    assert!(matches!(g.bfs(&s("Z"), None, None), Err(GraphError::NotFound)));
}

#[test]
fn bfs_records_nodelist() {
    let g = diamondless();
    let h = g.bfs(&s("A"), None, None).unwrap();
    match h.meta.get(&s("nodelist")) {
        Some(Value::List(items)) => {
            assert_eq!(items.len(), 4);
            match &items[0] {
                Value::Str(first) => assert_eq!(first, &s("A")),
                _ => panic!("expected a string id"),
            }
        },
        _ => panic!("expected the visitation order"),
    }
}

#[test]
fn traverse_visits_reachable_set() {
    let g = diamondless();
    let h = g.traverse(&s("A"), None, None).unwrap();
    assert_eq!(id_set(&h), vec![s("A"), s("B"), s("C"), s("D")]);
    // depth-first pre-order: the first edge is explored before the second
    assert_eq!(h.keys(), vec![s("A"), s("B"), s("C"), s("D")]);
}

#[test]
fn bfs_and_traverse_same_set() {
    let g = diamondless();
    let b = g.bfs(&s("A"), None, None).unwrap();
    let t = g.traverse(&s("A"), None, None).unwrap();
    assert_eq!(id_set(&b), id_set(&t));
}

#[test]
fn bfs_search_finds_and_misses() {
    let g = diamondless();
    let found = g.bfs_search(&s("A"), &s("C"), None, None).unwrap();
    assert_eq!(found.unwrap().id, s("C"));
    let missed = g.bfs_search(&s("B"), &s("D"), None, None).unwrap();
    assert!(missed.is_none());
    let too_shallow = g.bfs_search(&s("A"), &s("C"), Some(1), None).unwrap();
    assert!(too_shallow.is_none());
    let deep_enough = g.bfs_search(&s("A"), &s("C"), Some(2), None).unwrap();
    assert_eq!(deep_enough.unwrap().id, s("C"));
}

#[test]
fn edge_filter_restricts_traversal() {
    let mut g = Vertex::new();
    g.add_node(s("A"), None).unwrap();
    g.add_node(s("B"), None).unwrap();
    g.add_node(s("C"), None).unwrap();
    let mut broader = Attrs::new();
    broader.set(s("type"), Value::Str(s("broader")));
    g.add_edge(&s("A"), &s("B"), Some(broader)).unwrap();
    let mut narrower = Attrs::new();
    narrower.set(s("type"), Value::Str(s("narrower")));
    g.add_edge(&s("A"), &s("C"), Some(narrower)).unwrap();
    let mut filter = Attrs::new();
    filter.set(s("type"), Value::Str(s("broader")));
    let h = g.bfs(&s("A"), None, Some(&filter)).unwrap();
    assert_eq!(id_set(&h), vec![s("A"), s("B")]);
    // an edge without the key at all never qualifies
    let mut g2 = Vertex::new();
    g2.add_node(s("A"), None).unwrap();
    g2.add_node(s("B"), None).unwrap();
    g2.add_edge(&s("A"), &s("B"), None).unwrap();
    let h2 = g2.bfs(&s("A"), None, Some(&filter)).unwrap();
    assert_eq!(id_set(&h2), vec![s("A")]);
}

#[test]
fn traversal_result_is_induced_subgraph() {
    let g = diamondless();
    let h = g.bfs(&s("B"), None, None).unwrap();
    // nodes B and C, and the one edge between them
    assert_eq!(h.node_count(), 2);
    assert_eq!(h.edge_count(), 1);
    let e = h.edge_at(0);
    assert_eq!(e.from, s("B"));
    assert_eq!(e.to, s("C"));
}

#[test]
fn cycles_are_visited_once() {
    let mut g = Vertex::new();
    g.add_node(s("A"), None).unwrap();
    g.add_node(s("B"), None).unwrap();
    g.add_node(s("C"), None).unwrap();
    g.add_edge(&s("A"), &s("B"), None).unwrap();
    g.add_edge(&s("B"), &s("C"), None).unwrap();
    g.add_edge(&s("C"), &s("A"), None).unwrap();
    let b = g.bfs(&s("A"), None, None).unwrap();
    assert_eq!(b.keys(), vec![s("A"), s("B"), s("C")]);
    let t = g.traverse(&s("A"), None, None).unwrap();
    assert_eq!(t.keys(), vec![s("A"), s("B"), s("C")]);
}

#[test]
fn self_loop_is_kept_in_induced_result() {
    let mut g = Vertex::new();
    g.add_node(s("A"), None).unwrap();
    g.add_edge(&s("A"), &s("A"), None).unwrap();
    let b = g.bfs(&s("A"), None, None).unwrap();
    assert_eq!(b.keys(), vec![s("A")]);
    assert_eq!(b.edge_count(), 1);
}

#[test]
fn bfs_nodelist_is_in_layer_order() {
    let g = diamondless();
    let h = g.bfs(&s("A"), None, None).unwrap();
    let order = h.keys();
    let expected_layers = vec![0usize, 1, 1, 2];
    let layer_of = |id: &String| -> usize {
        if id == "A" {
            0
        } else if id == "B" || id == "D" {
            1
        } else {
            2
        }
    };
    let mut seen: Vec<usize> = order.iter().map(|id| layer_of(id)).collect();
    assert_eq!(seen.len(), expected_layers.len());
    let sorted = {
        let mut c = seen.clone();
        c.sort();
        c
    };
    assert_eq!(seen, sorted, "breadth-first distances never decrease");
    seen.sort();
    assert_eq!(seen, expected_layers);
}

#[test]
fn traverse_bounded_depth_keeps_root_neighbors() {
    let g = diamondless();
    let h = g.traverse(&s("A"), Some(1), None).unwrap();
    assert_eq!(id_set(&h), vec![s("A"), s("B"), s("D")]);
}
