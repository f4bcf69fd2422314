use std::cell::Cell;

use ironweaver::graph::Vertex;
use ironweaver::observer::{GraphObserver, ObservedDictionary, Path, SilentObserver,
    fire_node_add_callbacks};
use ironweaver::value::Value;
use ironweaver::GraphError;

fn s(x: &str) -> String {
    x.to_string()
}

struct Counting {
    node_adds: Cell<u32>,
    edge_adds: Cell<u32>,
    node_updates: Cell<u32>,
    edge_updates: Cell<u32>,
    keep_going: bool,
}

impl Counting {
    fn new(keep_going: bool) -> Counting {
        Counting {
            node_adds: Cell::new(0),
            edge_adds: Cell::new(0),
            node_updates: Cell::new(0),
            edge_updates: Cell::new(0),
            keep_going,
        }
    }
}

impl GraphObserver for Counting {
    fn on_node_add(&self, _graph: &Vertex, _node_index: usize) -> bool {
        self.node_adds.set(self.node_adds.get() + 1);
        self.keep_going
    }

    fn on_edge_add(&self, _graph: &Vertex, _edge_index: usize) -> bool {
        self.edge_adds.set(self.edge_adds.get() + 1);
        self.keep_going
    }

    fn on_node_update(
        &self,
        _node_id: &String,
        _key: &String,
        _new_value: &Value,
        _old_value: Option<&Value>,
    ) -> bool {
        self.node_updates.set(self.node_updates.get() + 1);
        self.keep_going
    }

    fn on_edge_update(
        &self,
        _edge_index: usize,
        _key: &String,
        _new_value: &Value,
        _old_value: Option<&Value>,
    ) -> bool {
        self.edge_updates.set(self.edge_updates.get() + 1);
        self.keep_going
    }
}

#[test]
fn observers_fire_on_adds() {
    let observers = vec![Counting::new(true), Counting::new(true)];
    let mut g = Vertex::new();
    g.add_node_observed(&observers, s("A"), None).unwrap();
    g.add_node_observed(&observers, s("B"), None).unwrap();
    g.add_edge_observed(&observers, &s("A"), &s("B"), None).unwrap();
    assert_eq!(observers[0].node_adds.get(), 2);
    assert_eq!(observers[1].node_adds.get(), 2);
    assert_eq!(observers[0].edge_adds.get(), 1);
    // a failed add fires nothing
    assert!(matches!(
        g.add_node_observed(&observers, s("A"), None),
        Err(GraphError::DuplicateId)
    ));
    assert_eq!(observers[0].node_adds.get(), 2);
}

#[test]
fn halt_on_false_stops_later_observers() {
    let observers = vec![Counting::new(false), Counting::new(true)];
    let mut g = Vertex::new();
    g.add_node_observed(&observers, s("A"), None).unwrap();
    assert_eq!(observers[0].node_adds.get(), 1);
    assert_eq!(observers[1].node_adds.get(), 0);
}

#[test]
fn updates_fire_only_on_change() {
    let observers = vec![Counting::new(true)];
    let mut g = Vertex::new();
    g.add_node_observed(&observers, s("A"), None).unwrap();
    g.node_attr_set_observed(&observers, &s("A"), s("k"), Value::Int(1)).unwrap();
    assert_eq!(observers[0].node_updates.get(), 1);
    // writing the same value again is a silent overwrite
    g.node_attr_set_observed(&observers, &s("A"), s("k"), Value::Int(1)).unwrap();
    assert_eq!(observers[0].node_updates.get(), 1);
    g.node_attr_set_observed(&observers, &s("A"), s("k"), Value::Int(2)).unwrap();
    assert_eq!(observers[0].node_updates.get(), 2);
}

#[test]
fn edge_updates_fire_only_on_change() {
    let observers = vec![Counting::new(true)];
    let mut g = Vertex::new();
    g.add_node(s("A"), None).unwrap();
    g.add_node(s("B"), None).unwrap();
    let e = g.add_edge(&s("A"), &s("B"), None).unwrap();
    g.edge_attr_set_observed(&observers, e, s("k"), Value::Bool(true)).unwrap();
    g.edge_attr_set_observed(&observers, e, s("k"), Value::Bool(true)).unwrap();
    assert_eq!(observers[0].edge_updates.get(), 1);
}

#[test]
fn silent_observer_never_halts() {
    let observers = vec![SilentObserver {}, SilentObserver {}];
    let g = Vertex::new();
    let fired = fire_node_add_callbacks(&observers, &g, 0);
    assert_eq!(fired, 2);
}

#[test]
fn observed_dictionary_set_and_get() {
    let observers = vec![Counting::new(true)];
    let mut d = ObservedDictionary::new();
    let name = s("ctx");
    let changed = d.set_item(&observers, &name, s("k"), Value::Int(1));
    assert!(changed);
    let unchanged = d.set_item(&observers, &name, s("k"), Value::Int(1));
    assert!(!unchanged);
    assert_eq!(observers[0].node_updates.get(), 1);
    match d.get_item(&s("k")) {
        Ok(Value::Int(v)) => assert_eq!(*v, 1),
        _ => panic!("expected the stored value"),
    }
    assert!(matches!(d.get_item(&s("missing")), Err(GraphError::NotFound)));
}

#[test]
fn path_holds_ids_in_order() {
    let p = Path::new(Some(vec![s("A"), s("B"), s("C")]));
    assert_eq!(p.ids(), vec![s("A"), s("B"), s("C")]);
    let empty = Path::new(None);
    assert!(empty.ids().is_empty());
}
