use ironweaver::graph::Vertex;
use ironweaver::value::Value;
use ironweaver::GraphError;

fn s(x: &str) -> String {
    x.to_string()
}

/// Nodes A,B,C,D; edges A->B, B->C, A->D.
fn sample() -> Vertex {
    let mut g = Vertex::new();
    g.add_node(s("A"), None).unwrap();
    g.add_node(s("B"), None).unwrap();
    g.add_node(s("C"), None).unwrap();
    g.add_node(s("D"), None).unwrap();
    g.add_edge(&s("A"), &s("B"), None).unwrap();
    g.add_edge(&s("B"), &s("C"), None).unwrap();
    g.add_edge(&s("A"), &s("D"), None).unwrap();
    g
}

fn id_set(g: &Vertex) -> Vec<String> {
    let mut ids = g.keys();
    ids.sort();
    ids
}

fn edge_pairs(g: &Vertex) -> Vec<(String, String)> {
    let mut out = Vec::new();
    let mut e = 0;
    while e < g.edge_count() {
        let edge = g.edge_at(e);
        out.push((edge.from.clone(), edge.to.clone()));
        e += 1;
    }
    out.sort();
    out
}

#[test]
fn filter_keeps_requested_induced_subgraph() {
    let g = sample();
    let h = g.filter(&vec![s("A"), s("B")]).unwrap();
    assert_eq!(id_set(&h), vec![s("A"), s("B")]);
    assert_eq!(edge_pairs(&h), vec![(s("A"), s("B"))]);
}

#[test]
fn filter_missing_id() {
    let g = sample();
    assert!(matches!(
        g.filter(&vec![s("A"), s("Z")]),
        Err(GraphError::NotFound)
    ));
}

#[test]
fn filter_ignores_duplicates() {
    let g = sample();
    let h = g.filter(&vec![s("A"), s("A"), s("B")]).unwrap();
    assert_eq!(h.keys(), vec![s("A"), s("B")]);
}

#[test]
fn filter_is_idempotent() {
    let g = sample();
    let ids = vec![s("A"), s("B"), s("C")];
    let once = g.filter(&ids).unwrap();
    let twice = once.filter(&ids).unwrap();
    assert_eq!(once.keys(), twice.keys());
    assert_eq!(edge_pairs(&once), edge_pairs(&twice));
}

#[test]
fn expand_zero_reproduces_receiver() {
    let g = sample();
    let receiver = g.filter(&vec![s("A"), s("B")]).unwrap();
    let expanded = receiver.expand(&g, Some(0));
    assert_eq!(expanded.keys(), receiver.keys());
    assert_eq!(edge_pairs(&expanded), edge_pairs(&receiver));
}

#[test]
fn expand_default_depth_grows_by_one_step() {
    let g = sample();
    let receiver = g.filter(&vec![s("A")]).unwrap();
    let expanded = receiver.expand(&g, None);
    assert_eq!(id_set(&expanded), vec![s("A"), s("B"), s("D")]);
    assert_eq!(edge_pairs(&expanded), vec![(s("A"), s("B")), (s("A"), s("D"))]);
}

#[test]
fn expand_unreachable_receiver_node_is_dropped() {
    let g = sample();
    let mut receiver = Vertex::new();
    receiver.add_node(s("A"), None).unwrap();
    receiver.add_node(s("X"), None).unwrap();
    let expanded = receiver.expand(&g, Some(1));
    assert_eq!(id_set(&expanded), vec![s("A"), s("B"), s("D")]);
}

#[test]
fn random_walks_respect_bounds_and_novelty() {
    let g = sample();
    let walks = g
        .random_walks(&s("A"), 3, 5, None, Some(false), None, None)
        .unwrap();
    assert!(walks.len() <= 5);
    assert!(!walks.is_empty());
    for w in &walks {
        assert!(w.nodes.len() >= 1 && w.nodes.len() <= 3);
        assert_eq!(w.nodes[0], s("A"));
        for i in 0..w.nodes.len() {
            for j in (i + 1)..w.nodes.len() {
                assert_ne!(w.nodes[i], w.nodes[j]);
            }
        }
    }
}

#[test]
fn random_walks_follow_edges() {
    let g = sample();
    let walks = g
        .random_walks(&s("A"), 4, 8, None, None, None, None)
        .unwrap();
    for w in &walks {
        for i in 0..w.nodes.len() - 1 {
            let from = &w.nodes[i];
            let to = &w.nodes[i + 1];
            let mut found = false;
            let mut e = 0;
            while e < g.edge_count() {
                let edge = g.edge_at(e);
                if &edge.from == from && &edge.to == to {
                    found = true;
                }
                e += 1;
            }
            assert!(found, "walk steps must follow edges of the graph");
        }
    }
}

#[test]
fn random_walks_deduplicates() {
    let g = sample();
    let walks = g
        .random_walks(&s("A"), 3, 64, None, Some(false), None, None)
        .unwrap();
    for i in 0..walks.len() {
        for j in (i + 1)..walks.len() {
            assert_ne!(walks[i].nodes, walks[j].nodes);
        }
    }
}

#[test]
fn random_walks_edge_labels() {
    let mut g = Vertex::new();
    g.add_node(s("A"), None).unwrap();
    g.add_node(s("B"), None).unwrap();
    let mut attr = ironweaver::attrs::Attrs::new();
    attr.set(s("type"), Value::Str(s("broader")));
    g.add_edge(&s("A"), &s("B"), Some(attr)).unwrap();
    let walks = g
        .random_walks(&s("A"), 2, 4, Some(2), Some(false), Some(true), None)
        .unwrap();
    for w in &walks {
        assert_eq!(w.nodes.len(), 2);
        assert_eq!(w.edges, vec![s("broader")]);
    }
}

#[test]
fn random_walks_parameter_errors() {
    let g = sample();
    assert!(matches!(
        g.random_walks(&s("Z"), 3, 5, None, None, None, None),
        Err(GraphError::NodeNotFound)
    ));
    assert!(matches!(
        g.random_walks(&s("A"), 0, 5, None, None, None, None),
        Err(GraphError::InvalidParameter)
    ));
    assert!(matches!(
        g.random_walks(&s("A"), 3, 5, Some(4), None, None, None),
        Err(GraphError::InvalidParameter)
    ));
}

#[test]
fn random_walks_returns_at_least_one_walk() {
    let g = sample();
    let walks = g
        .random_walks(&s("A"), 3, 1, None, Some(false), None, None)
        .unwrap();
    assert_eq!(walks.len(), 1);
    // an isolated node still yields the one-node walk
    let mut lone = Vertex::new();
    lone.add_node(s("X"), None).unwrap();
    let walks = lone
        .random_walks(&s("X"), 4, 3, None, None, None, None)
        .unwrap();
    assert_eq!(walks.len(), 1);
    assert_eq!(walks[0].nodes, vec![s("X")]);
}

#[test]
fn random_walks_are_maximal() {
    // on the sample graph every walk from A of at most three nodes must
    // run to a dead end: it is A,B,C or A,D, never a strict prefix
    let g = sample();
    let walks = g
        .random_walks(&s("A"), 3, 32, None, Some(false), None, None)
        .unwrap();
    for w in &walks {
        let abc = vec![s("A"), s("B"), s("C")];
        let ad = vec![s("A"), s("D")];
        assert!(w.nodes == abc || w.nodes == ad, "every walk must be maximal");
    }
}
