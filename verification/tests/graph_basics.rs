use ironweaver::attrs::Attrs;
use ironweaver::graph::Vertex;
use ironweaver::node::Node;
use ironweaver::value::Value;
use ironweaver::GraphError;

fn s(x: &str) -> String {
    x.to_string()
}

#[test]
fn add_node_and_get_node() {
    let mut g = Vertex::new();
    let idx = g.add_node(s("A"), None).unwrap();
    assert_eq!(idx, 0);
    assert_eq!(g.node_count(), 1);
    assert!(g.has_node(&s("A")));
    assert!(!g.has_node(&s("B")));
    let n = g.get_node(&s("A")).unwrap();
    assert_eq!(n.id, s("A"));
    assert!(matches!(g.get_node(&s("B")), Err(GraphError::NotFound)));
}

#[test]
fn add_node_duplicate_id() {
    let mut g = Vertex::new();
    g.add_node(s("A"), None).unwrap();
    let second = g.add_node(s("A"), None);
    assert!(matches!(second, Err(GraphError::DuplicateId)));
    assert_eq!(g.node_count(), 1);
}

#[test]
fn add_edge_missing_endpoint() {
    let mut g = Vertex::new();
    g.add_node(s("A"), None).unwrap();
    let r = g.add_edge(&s("X"), &s("A"), None);
    assert!(matches!(r, Err(GraphError::NodeNotFound)));
    assert_eq!(g.edge_count(), 0);
}

#[test]
fn add_edge_success() {
    let mut g = Vertex::new();
    g.add_node(s("A"), None).unwrap();
    g.add_node(s("B"), None).unwrap();
    let e = g.add_edge(&s("A"), &s("B"), None).unwrap();
    assert_eq!(e, 0);
    assert_eq!(g.edge_count(), 1);
    let edge = g.edge_at(0);
    assert_eq!(edge.from, s("A"));
    assert_eq!(edge.to, s("B"));
}

#[test]
fn attrs_set_get_and_replace() {
    let mut a = Attrs::new();
    assert_eq!(a.len(), 0);
    a.set(s("k"), Value::Int(1));
    a.set(s("j"), Value::Bool(true));
    a.set(s("k"), Value::Int(2));
    assert_eq!(a.len(), 2);
    match a.get(&s("k")) {
        Some(Value::Int(v)) => assert_eq!(*v, 2),
        _ => panic!("expected the replaced integer"),
    }
    assert!(a.get(&s("missing")).is_none());
    assert!(a.contains_key(&s("j")));
}

#[test]
fn value_structural_equality() {
    let a = Value::List(vec![Value::Int(1), Value::Str(s("x"))]);
    let b = Value::List(vec![Value::Int(1), Value::Str(s("x"))]);
    let c = Value::List(vec![Value::Int(2), Value::Str(s("x"))]);
    assert!(a.eq_value(&b));
    assert!(!a.eq_value(&c));
    assert!(!a.eq_value(&Value::Null));
    let f1 = Value::Float(3.5f64.to_bits());
    let f2 = Value::Float(3.5f64.to_bits());
    assert!(f1.eq_value(&f2));
}

#[test]
fn node_attr_set_reports_change() {
    let mut g = Vertex::new();
    g.add_node(s("A"), None).unwrap();
    let changed = g.node_attr_set(&s("A"), s("w"), Value::Int(5)).unwrap();
    assert!(changed);
    let unchanged = g.node_attr_set(&s("A"), s("w"), Value::Int(5)).unwrap();
    assert!(!unchanged);
    let changed_again = g.node_attr_set(&s("A"), s("w"), Value::Int(6)).unwrap();
    assert!(changed_again);
    assert!(matches!(
        g.node_attr_set(&s("Z"), s("w"), Value::Int(1)),
        Err(GraphError::NotFound)
    ));
}

#[test]
fn attr_list_append_creates_and_extends() {
    let mut n = Node::new(s("A"), None);
    n.attr_list_append(s("tags"), Value::Str(s("x"))).unwrap();
    n.attr_list_append(s("tags"), Value::Str(s("y"))).unwrap();
    match n.attr_get(&s("tags")) {
        Some(Value::List(items)) => assert_eq!(items.len(), 2),
        _ => panic!("expected a list"),
    }
    let mut m = Node::new(s("B"), None);
    m.attr.set(s("tags"), Value::Int(1));
    assert!(matches!(
        m.attr_list_append(s("tags"), Value::Int(2)),
        Err(GraphError::InvalidParameter)
    ));
}

#[test]
fn from_nodes_validates() {
    let nodes = vec![Node::new(s("A"), None), Node::new(s("A"), None)];
    assert!(matches!(
        Vertex::from_nodes(nodes, Vec::new()),
        Err(GraphError::DuplicateId)
    ));
    let nodes = vec![Node::new(s("A"), None)];
    let edges = vec![ironweaver::edge::Edge::new(s("A"), s("B"), None, None)];
    assert!(matches!(
        Vertex::from_nodes(nodes, edges),
        Err(GraphError::NodeNotFound)
    ));
    let nodes = vec![Node::new(s("A"), None), Node::new(s("B"), None)];
    let edges = vec![ironweaver::edge::Edge::new(s("A"), s("B"), None, None)];
    let g = Vertex::from_nodes(nodes, edges).unwrap();
    assert_eq!(g.node_count(), 2);
    assert_eq!(g.edge_count(), 1);
}

#[test]
fn keys_and_metadata() {
    let mut g = Vertex::new();
    g.add_node(s("A"), None).unwrap();
    g.add_node(s("B"), None).unwrap();
    g.add_edge(&s("A"), &s("B"), None).unwrap();
    let keys = g.keys();
    assert_eq!(keys, vec![s("A"), s("B")]);
    let md = g.get_metadata();
    match md.get(&s("node_count")) {
        Some(Value::Int(n)) => assert_eq!(*n, 2),
        _ => panic!("expected node count"),
    }
    match md.get(&s("edge_count")) {
        Some(Value::Int(n)) => assert_eq!(*n, 1),
        _ => panic!("expected edge count"),
    }
    match md.get(&s("node_ids")) {
        Some(Value::List(ids)) => assert_eq!(ids.len(), 2),
        _ => panic!("expected id list"),
    }
}
