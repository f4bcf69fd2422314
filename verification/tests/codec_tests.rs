use ironweaver::attrs::Attrs;
use ironweaver::codec::SerializableGraph;
use ironweaver::graph::Vertex;
use ironweaver::value::Value;
use ironweaver::GraphError;

fn s(x: &str) -> String {
    x.to_string()
}

fn sample() -> Vertex {
    let mut g = Vertex::new();
    let mut a_attr = Attrs::new();
    a_attr.set(s("weight"), Value::Float(3.5f64.to_bits()));
    a_attr.set(s("label"), Value::Str(s("alpha \"quoted\"\n")));
    g.add_node(s("A"), Some(a_attr)).unwrap();
    g.add_node(s("B"), None).unwrap();
    g.add_node(s("C"), None).unwrap();
    let mut e_attr = Attrs::new();
    e_attr.set(s("type"), Value::Str(s("broader")));
    e_attr.set(s("count"), Value::Int(-7));
    e_attr.set(
        s("mixed"),
        Value::List(vec![
            Value::Null,
            Value::Bool(true),
            Value::Dict(vec![(s("k"), Value::Int(1))]),
        ]),
    );
    g.add_edge(&s("A"), &s("B"), Some(e_attr)).unwrap();
    g.add_edge(&s("B"), &s("C"), None).unwrap();
    g.meta_set(s("title"), Value::Str(s("sample")));
    g
}

fn same_content(a: &Vertex, b: &Vertex) {
    assert_eq!(a.keys(), b.keys());
    assert_eq!(a.edge_count(), b.edge_count());
    let mut i = 0;
    while i < a.node_count() {
        let na = a.node_at(i);
        let nb = b.node_at(i);
        assert_eq!(na.id, nb.id);
        assert!(na.attr.eq_attrs(&nb.attr));
        assert!(na.meta.eq_attrs(&nb.meta));
        i += 1;
    }
    let mut e = 0;
    while e < a.edge_count() {
        let ea = a.edge_at(e);
        let eb = b.edge_at(e);
        assert_eq!(ea.from, eb.from);
        assert_eq!(ea.to, eb.to);
        assert!(ea.attr.eq_attrs(&eb.attr));
        assert!(ea.meta.eq_attrs(&eb.meta));
        e += 1;
    }
}

#[test]
fn portable_round_trip() {
    let g = sample();
    let sg = SerializableGraph::from_vertex(&g, s("2024-01-01T00:00:00Z"));
    let back = sg.to_vertex().unwrap();
    same_content(&g, &back);
    // the synthesized edge ids name the position and the endpoints
    assert_eq!(sg.edges[0].id, s("edge_0_A_to_B"));
    assert_eq!(sg.edges[1].id, s("edge_1_B_to_C"));
    // the metadata block carries the counts and the stamp
    match sg.metadata.get(&s("node_count")) {
        Some(Value::Int(n)) => assert_eq!(*n, 3),
        _ => panic!("expected the node count"),
    }
    match sg.metadata.get(&s("timestamp")) {
        Some(Value::Str(t)) => assert_eq!(t, &s("2024-01-01T00:00:00Z")),
        _ => panic!("expected the timestamp"),
    }
}

#[test]
fn portable_node_edge_ids() {
    let g = sample();
    let sg = SerializableGraph::from_vertex(&g, s("t"));
    assert_eq!(sg.nodes[0].edge_ids, vec![s("edge_0_A_to_B")]);
    assert_eq!(sg.nodes[1].edge_ids, vec![s("edge_1_B_to_C")]);
    assert_eq!(sg.nodes[1].inverse_edge_ids, vec![s("edge_0_A_to_B")]);
    assert!(sg.nodes[0].inverse_edge_ids.is_empty());
}

#[test]
fn json_round_trip() {
    let g = sample();
    let text = g.save_to_json(s("stamp"));
    let back = Vertex::load_from_json(text.as_str()).unwrap();
    same_content(&g, &back);
}

#[test]
fn json_preserves_float_exactly() {
    let mut g = Vertex::new();
    let mut attr = Attrs::new();
    attr.set(s("weight"), Value::Float(3.5f64.to_bits()));
    g.add_node(s("A"), Some(attr)).unwrap();
    let text = g.save_to_json(s("t"));
    let back = Vertex::load_from_json(text.as_str()).unwrap();
    let n = back.get_node(&s("A")).unwrap();
    match n.attr_get(&s("weight")) {
        Some(Value::Float(bits)) => assert_eq!(f64::from_bits(*bits), 3.5),
        _ => panic!("expected the float back"),
    }
}

#[test]
fn json_rejects_garbage() {
    assert!(matches!(
        Vertex::load_from_json("not json at all"),
        Err(GraphError::CodecError)
    ));
    assert!(matches!(
        Vertex::load_from_json("{\"nodes\":{}}"),
        Err(GraphError::CodecError)
    ));
}

#[test]
fn binary_round_trip() {
    let g = sample();
    let bytes = g.save_to_binary(s("stamp"));
    let back = Vertex::load_from_binary(&bytes).unwrap();
    same_content(&g, &back);
}

#[test]
fn binary_rejects_garbage() {
    assert!(matches!(
        Vertex::load_from_binary(&vec![9u8, 1, 2, 3]),
        Err(GraphError::CodecError)
    ));
    let g = sample();
    let mut bytes = g.save_to_binary(s("t"));
    bytes.push(0);
    assert!(matches!(
        Vertex::load_from_binary(&bytes),
        Err(GraphError::CodecError)
    ));
}

#[test]
fn binary_f16_preserves_representable_floats() {
    let mut g = Vertex::new();
    let mut attr = Attrs::new();
    attr.set(s("w"), Value::Float(3.5f64.to_bits()));
    g.add_node(s("A"), Some(attr)).unwrap();
    let bytes = g.save_to_binary_f16(s("t"));
    let back = Vertex::load_from_binary(&bytes).unwrap();
    let n = back.get_node(&s("A")).unwrap();
    match n.attr_get(&s("w")) {
        Some(Value::Float(bits)) => assert_eq!(f64::from_bits(*bits), 3.5),
        _ => panic!("expected the float back"),
    }
}

#[test]
fn binary_f16_is_lossy_for_small_differences() {
    let mut g = Vertex::new();
    let mut attr = Attrs::new();
    let value = 3.3f64;
    attr.set(s("w"), Value::Float(value.to_bits()));
    g.add_node(s("A"), Some(attr)).unwrap();
    let bytes = g.save_to_binary_f16(s("t"));
    let back = Vertex::load_from_binary(&bytes).unwrap();
    let n = back.get_node(&s("A")).unwrap();
    match n.attr_get(&s("w")) {
        Some(Value::Float(bits)) => {
            let got = f64::from_bits(*bits);
            assert_ne!(got, value);
            assert!((got - value).abs() < 0.01);
        },
        _ => panic!("expected the float back"),
    }
}

#[test]
fn binary_f16_file_is_smaller() {
    let mut g = Vertex::new();
    let mut attr = Attrs::new();
    for i in 0..10i64 {
        attr.set(format!("k{}", i), Value::Float((i as f64).to_bits()));
    }
    g.add_node(s("A"), Some(attr)).unwrap();
    let full = g.save_to_binary(s("t"));
    let compact = g.save_to_binary_f16(s("t"));
    assert!(compact.len() < full.len());
}

#[test]
fn to_vertex_rejects_bad_tables() {
    let g = sample();
    let mut sg = SerializableGraph::from_vertex(&g, s("t"));
    sg.edges.push(ironweaver::codec::SerializableEdge {
        id: s("edge_x"),
        from_id: s("missing"),
        to_id: s("A"),
        attr: Attrs::new(),
        meta: Attrs::new(),
    });
    assert!(matches!(sg.to_vertex(), Err(GraphError::NodeNotFound)));
}
