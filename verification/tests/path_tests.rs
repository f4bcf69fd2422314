use ironweaver::graph::Vertex;
use ironweaver::GraphError;

fn s(x: &str) -> String {
    x.to_string()
}

/// Nodes A,B,C,D; edges A->B, B->C, A->D.
fn sample() -> Vertex {
    let mut g = Vertex::new();
    g.add_node(s("A"), None).unwrap();
    g.add_node(s("B"), None).unwrap();
    g.add_node(s("C"), None).unwrap();
    g.add_node(s("D"), None).unwrap();
    g.add_edge(&s("A"), &s("B"), None).unwrap();
    g.add_edge(&s("B"), &s("C"), None).unwrap();
    g.add_edge(&s("A"), &s("D"), None).unwrap();
    g
}

fn id_set(g: &Vertex) -> Vec<String> {
    let mut ids = g.keys();
    ids.sort();
    ids
}

#[test]
fn shortest_path_a_to_c() {
    let g = sample();
    let h = g.shortest_path_bfs(&s("A"), &s("C"), None).unwrap();
    assert_eq!(id_set(&h), vec![s("A"), s("B"), s("C")]);
    assert_eq!(h.keys(), vec![s("A"), s("B"), s("C")]);
    assert_eq!(h.edge_count(), 2);
    let e0 = h.edge_at(0);
    let e1 = h.edge_at(1);
    assert_eq!((e0.from.as_str(), e0.to.as_str()), ("A", "B"));
    assert_eq!((e1.from.as_str(), e1.to.as_str()), ("B", "C"));
    // path length equals the breadth-first distance
    assert_eq!(h.node_count() - 1, 2);
}

#[test]
fn shortest_path_same_node() {
    let g = sample();
    let h = g.shortest_path_bfs(&s("A"), &s("A"), None).unwrap();
    assert_eq!(h.node_count(), 1);
    assert_eq!(h.edge_count(), 0);
    assert_eq!(h.keys(), vec![s("A")]);
}

#[test]
fn shortest_path_errors() {
    let g = sample();
    assert!(matches!(
        g.shortest_path_bfs(&s("Z"), &s("A"), None),
        Err(GraphError::NotFound)
    ));
    assert!(matches!(
        g.shortest_path_bfs(&s("A"), &s("Z"), None),
        Err(GraphError::NotFound)
    ));
    assert!(matches!(
        g.shortest_path_bfs(&s("C"), &s("A"), None),
        Err(GraphError::Unreachable)
    ));
    assert!(matches!(
        g.shortest_path_bfs(&s("A"), &s("C"), Some(1)),
        Err(GraphError::Unreachable)
    ));
}

#[test]
fn shortest_path_picks_minimal_route() {
    // two routes to the target: one of length three, one of length one
    let mut g = Vertex::new();
    g.add_node(s("A"), None).unwrap();
    g.add_node(s("B"), None).unwrap();
    g.add_node(s("C"), None).unwrap();
    g.add_node(s("T"), None).unwrap();
    g.add_edge(&s("A"), &s("B"), None).unwrap();
    g.add_edge(&s("B"), &s("C"), None).unwrap();
    g.add_edge(&s("C"), &s("T"), None).unwrap();
    g.add_edge(&s("A"), &s("T"), None).unwrap();
    let h = g.shortest_path_bfs(&s("A"), &s("T"), None).unwrap();
    assert_eq!(h.node_count(), 2);
    assert_eq!(h.keys(), vec![s("A"), s("T")]);
}

#[test]
fn parallel_bfs_same_found_set_as_bfs() {
    let g = sample();
    for root in ["A", "B", "C", "D"] {
        for depth in [None, Some(0), Some(1), Some(2), Some(5)] {
            let p = g.parallel_bfs(&s(root), depth).unwrap();
            let b = g.bfs(&s(root), depth, None).unwrap();
            assert_eq!(id_set(&p), id_set(&b));
        }
    }
}

#[test]
fn parallel_bfs_missing_root() {
    let g = sample();
    assert!(matches!(g.parallel_bfs(&s("Z"), None), Err(GraphError::NotFound)));
}

#[test]
fn node_successors_lists_targets() {
    let g = sample();
    let mut succ = ironweaver::paths::node_successors(&g, &s("A"));
    succ.sort();
    assert_eq!(succ, vec![s("B"), s("D")]);
    let none = ironweaver::paths::node_successors(&g, &s("C"));
    assert!(none.is_empty());
}

#[test]
fn merge_layer_admits_each_id_once() {
    let mut visited = vec![s("A")];
    let lists = vec![vec![s("B"), s("C")], vec![s("C"), s("A"), s("D")]];
    let next = ironweaver::paths::merge_layer(&mut visited, &lists);
    assert_eq!(next, vec![s("B"), s("C"), s("D")]);
    assert_eq!(visited, vec![s("A"), s("B"), s("C"), s("D")]);
}
