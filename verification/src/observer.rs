//! The observer protocol: change detection and notification fan-out.
//!
//! A caller hands a list of observers to a mutation entry point; on a
//! change they are invoked in registration order, and an observer may
//! return `false` to stop the remaining ones (the mutation itself is never
//! undone). One list registered at the graph level observes every entity,
//! so no per-entity registration exists or is needed. Attribute writes
//! notify only when the stored value actually changed; the write happens
//! in either case.

use vstd::prelude::*;
use crate::attrs::{Attrs, set_entry, lookup};
use crate::graph::{Vertex, has_id, idx_of};
use crate::node::NodeView;
use crate::edge::EdgeView;
use crate::value::{Value, ValueView};
use crate::GraphError;

verus! {

/// The capability a caller registers to watch a graph. Observers are
/// invoked in list order; returning `false` halts the remaining ones for
/// that event. An observer that keeps state does so behind `&self`.
pub trait GraphObserver {
    /// A node was added; its table position is given.
    fn on_node_add(&self, graph: &Vertex, node_index: usize) -> bool;

    /// An edge was added; its table position is given.
    fn on_edge_add(&self, graph: &Vertex, edge_index: usize) -> bool;

    /// A node attribute changed.
    fn on_node_update(
        &self,
        node_id: &String,
        key: &String,
        new_value: &Value,
        old_value: Option<&Value>,
    ) -> bool;

    /// An edge attribute changed.
    fn on_edge_update(
        &self,
        edge_index: usize,
        key: &String,
        new_value: &Value,
        old_value: Option<&Value>,
    ) -> bool;
}

/// An observer that watches everything and never halts the fan-out.
pub struct SilentObserver {}

impl GraphObserver for SilentObserver {
    fn on_node_add(&self, graph: &Vertex, node_index: usize) -> bool {
        true
    }

    fn on_edge_add(&self, graph: &Vertex, edge_index: usize) -> bool {
        true
    }

    fn on_node_update(
        &self,
        node_id: &String,
        key: &String,
        new_value: &Value,
        old_value: Option<&Value>,
    ) -> bool {
        true
    }

    fn on_edge_update(
        &self,
        edge_index: usize,
        key: &String,
        new_value: &Value,
        old_value: Option<&Value>,
    ) -> bool {
        true
    }
}

/// Invoke each observer's node-add hook in order until one returns
/// `false`; the count of invoked observers is returned.
pub fn fire_node_add_callbacks<O: GraphObserver>(
    callbacks: &Vec<O>,
    graph: &Vertex,
    node_index: usize,
) -> (fired: usize)
    ensures
        fired <= callbacks@.len(),
{
    let n = callbacks.len();
    let mut i: usize = 0;
    while i < n
        invariant
            n == callbacks@.len(),
            i <= n,
        decreases n - i,
    {
        if !callbacks[i].on_node_add(graph, node_index) {
            return i + 1;
        }
        i += 1;
    }
    n
}

/// Invoke each observer's edge-add hook in order until one returns
/// `false`; the count of invoked observers is returned.
pub fn fire_edge_add_callbacks<O: GraphObserver>(
    callbacks: &Vec<O>,
    graph: &Vertex,
    edge_index: usize,
) -> (fired: usize)
    ensures
        fired <= callbacks@.len(),
{
    let n = callbacks.len();
    let mut i: usize = 0;
    while i < n
        invariant
            n == callbacks@.len(),
            i <= n,
        decreases n - i,
    {
        if !callbacks[i].on_edge_add(graph, edge_index) {
            return i + 1;
        }
        i += 1;
    }
    n
}

/// Invoke each observer's node-update hook in order until one returns
/// `false`; the count of invoked observers is returned.
pub fn fire_node_update_callbacks<O: GraphObserver>(
    callbacks: &Vec<O>,
    node_id: &String,
    key: &String,
    new_value: &Value,
    old_value: Option<&Value>,
) -> (fired: usize)
    ensures
        fired <= callbacks@.len(),
{
    let n = callbacks.len();
    let mut i: usize = 0;
    while i < n
        invariant
            n == callbacks@.len(),
            i <= n,
        decreases n - i,
    {
        if !callbacks[i].on_node_update(node_id, key, new_value, old_value) {
            return i + 1;
        }
        i += 1;
    }
    n
}

/// Invoke each observer's edge-update hook in order until one returns
/// `false`; the count of invoked observers is returned.
pub fn fire_edge_update_callbacks<O: GraphObserver>(
    callbacks: &Vec<O>,
    edge_index: usize,
    key: &String,
    new_value: &Value,
    old_value: Option<&Value>,
) -> (fired: usize)
    ensures
        fired <= callbacks@.len(),
{
    let n = callbacks.len();
    let mut i: usize = 0;
    while i < n
        invariant
            n == callbacks@.len(),
            i <= n,
        decreases n - i,
    {
        if !callbacks[i].on_edge_update(edge_index, key, new_value, old_value) {
            return i + 1;
        }
        i += 1;
    }
    n
}

impl Vertex {
    /// Add a node and notify the node-add observers on success. The graph
    /// change and the error cases are those of `add_node`; observers fire
    /// only on success, in order, halting after one returns `false`.
    pub fn add_node_observed<O: GraphObserver>(
        &mut self,
        callbacks: &Vec<O>,
        id: String,
        attr: Option<Attrs>,
    ) -> (r: Result<usize, GraphError>)
        ensures
            match r {
                Ok(i) => {
                    &&& !has_id(old(self)@.nodes, id@)
                    &&& i == old(self)@.nodes.len()
                    &&& final(self)@.nodes == old(self)@.nodes.push(
                        NodeView {
                            id: id@,
                            attr: match attr {
                                Some(a) => a@,
                                None => Seq::<(Seq<char>, ValueView)>::empty(),
                            },
                            meta: Seq::<(Seq<char>, ValueView)>::empty(),
                        },
                    )
                    &&& final(self)@.edges == old(self)@.edges
                    &&& final(self)@.meta == old(self)@.meta
                },
                Err(e) => {
                    &&& e == GraphError::DuplicateId
                    &&& has_id(old(self)@.nodes, id@)
                    &&& *final(self) == *old(self)
                },
            },
            old(self).wf() ==> final(self).wf(),
    {
        let idx = match self.add_node(id, attr) {
            Ok(idx) => idx,
            Err(e) => {
                return Err(e);
            },
        };
        fire_node_add_callbacks(callbacks, self, idx);
        Ok(idx)
    }

    /// Add an edge and notify the edge-add observers on success. The graph
    /// change and the error cases are those of `add_edge`.
    pub fn add_edge_observed<O: GraphObserver>(
        &mut self,
        callbacks: &Vec<O>,
        from_id: &String,
        to_id: &String,
        attr: Option<Attrs>,
    ) -> (r: Result<usize, GraphError>)
        ensures
            match r {
                Ok(e) => {
                    &&& has_id(old(self)@.nodes, from_id@)
                    &&& has_id(old(self)@.nodes, to_id@)
                    &&& e == old(self)@.edges.len()
                    &&& final(self)@.edges == old(self)@.edges.push(
                        EdgeView {
                            id: None,
                            from: from_id@,
                            to: to_id@,
                            attr: match attr {
                                Some(a) => a@,
                                None => Seq::<(Seq<char>, ValueView)>::empty(),
                            },
                            meta: Seq::<(Seq<char>, ValueView)>::empty(),
                        },
                    )
                    &&& final(self)@.nodes == old(self)@.nodes
                    &&& final(self)@.meta == old(self)@.meta
                },
                Err(err) => {
                    &&& err == GraphError::NodeNotFound
                    &&& !(has_id(old(self)@.nodes, from_id@) && has_id(old(self)@.nodes, to_id@))
                    &&& *final(self) == *old(self)
                },
            },
            old(self).wf() ==> final(self).wf(),
    {
        let idx = match self.add_edge(from_id, to_id, attr) {
            Ok(idx) => idx,
            Err(e) => {
                return Err(e);
            },
        };
        fire_edge_add_callbacks(callbacks, self, idx);
        Ok(idx)
    }

    /// Set a node attribute and notify the node-update observers exactly
    /// when the stored value actually changed; the write happens in either
    /// case. The graph change and errors are those of `node_attr_set`.
    pub fn node_attr_set_observed<O: GraphObserver>(
        &mut self,
        callbacks: &Vec<O>,
        id: &String,
        key: String,
        value: Value,
    ) -> (r: Result<bool, GraphError>)
        requires
            old(self).wf(),
        ensures
            final(self).wf(),
            match r {
                Ok(changed) => {
                    &&& has_id(old(self)@.nodes, id@)
                    &&& {
                        let i = idx_of(old(self)@.nodes, id@);
                        let n0 = old(self)@.nodes[i];
                        &&& changed == (lookup(n0.attr, key@) != Some(value@))
                        &&& final(self)@.nodes == old(self)@.nodes.update(
                            i,
                            NodeView {
                                id: n0.id,
                                attr: set_entry(n0.attr, key@, value@),
                                meta: n0.meta,
                            },
                        )
                    }
                    &&& final(self)@.edges == old(self)@.edges
                    &&& final(self)@.meta == old(self)@.meta
                },
                Err(e) => {
                    &&& e == GraphError::NotFound
                    &&& !has_id(old(self)@.nodes, id@)
                    &&& *final(self) == *old(self)
                },
            },
    {
        let old_value: Option<Value> = match self.get_node(id) {
            Ok(n) => match n.attr_get(&key) {
                Some(v) => Some(v.deep_clone()),
                None => None,
            },
            Err(_) => None,
        };
        let notify_value = value.deep_clone();
        let changed = match self.node_attr_set(id, key.clone(), value) {
            Ok(changed) => changed,
            Err(e) => {
                return Err(e);
            },
        };
        if changed {
            fire_node_update_callbacks(
                callbacks,
                id,
                &key,
                &notify_value,
                match &old_value {
                    Some(v) => Some(v),
                    None => None,
                },
            );
        }
        Ok(changed)
    }

    /// Set an edge attribute and notify the edge-update observers exactly
    /// when the stored value actually changed. The graph change and errors
    /// are those of `edge_attr_set`.
    pub fn edge_attr_set_observed<O: GraphObserver>(
        &mut self,
        callbacks: &Vec<O>,
        edge_index: usize,
        key: String,
        value: Value,
    ) -> (r: Result<bool, GraphError>)
        ensures
            old(self).wf() ==> final(self).wf(),
            match r {
                Ok(changed) => {
                    &&& edge_index < old(self)@.edges.len()
                    &&& {
                        let e0 = old(self)@.edges[edge_index as int];
                        &&& changed == (lookup(e0.attr, key@) != Some(value@))
                        &&& final(self)@.edges == old(self)@.edges.update(
                            edge_index as int,
                            EdgeView {
                                id: e0.id,
                                from: e0.from,
                                to: e0.to,
                                attr: set_entry(e0.attr, key@, value@),
                                meta: e0.meta,
                            },
                        )
                    }
                    &&& final(self)@.nodes == old(self)@.nodes
                    &&& final(self)@.meta == old(self)@.meta
                },
                Err(e) => {
                    &&& e == GraphError::NotFound
                    &&& edge_index >= old(self)@.edges.len()
                    &&& *final(self) == *old(self)
                },
            },
    {
        let old_value: Option<Value> = if edge_index < self.edge_count() {
            match self.edge_at(edge_index).attr_get(&key) {
                Some(v) => Some(v.deep_clone()),
                None => None,
            }
        } else {
            None
        };
        let notify_value = value.deep_clone();
        let changed = match self.edge_attr_set(edge_index, key.clone(), value) {
            Ok(changed) => changed,
            Err(e) => {
                return Err(e);
            },
        };
        if changed {
            fire_edge_update_callbacks(
                callbacks,
                edge_index,
                &key,
                &notify_value,
                match &old_value {
                    Some(v) => Some(v),
                    None => None,
                },
            );
        }
        Ok(changed)
    }
}

/// An observed string-keyed dictionary: a plain attribute map whose writes
/// report whether the stored value actually changed, with notification
/// through the same observer capability the graph uses.
pub struct ObservedDictionary {
    dict: Attrs,
}

impl View for ObservedDictionary {
    type V = Seq<(Seq<char>, ValueView)>;

    closed spec fn view(&self) -> Seq<(Seq<char>, ValueView)> {
        self.dict@
    }
}

impl ObservedDictionary {
    /// An empty dictionary.
    pub fn new() -> (r: ObservedDictionary)
        ensures
            r@ == Seq::<(Seq<char>, ValueView)>::empty(),
    {
        ObservedDictionary { dict: Attrs::new() }
    }

    /// Store `value` under `key`, notifying the observers exactly when the
    /// stored value actually changed; the write happens in either case.
    pub fn set_item<O: GraphObserver>(
        &mut self,
        callbacks: &Vec<O>,
        name: &String,
        key: String,
        value: Value,
    ) -> (changed: bool)
        ensures
            final(self)@ == set_entry(old(self)@, key@, value@),
            changed == (lookup(old(self)@, key@) != Some(value@)),
    {
        let old_value: Option<Value> = match self.dict.get(&key) {
            Some(v) => Some(v.deep_clone()),
            None => None,
        };
        let changed = match &old_value {
            Some(v) => !v.eq_value(&value),
            None => true,
        };
        let notify_value = value.deep_clone();
        self.dict.set(key.clone(), value);
        if changed {
            fire_node_update_callbacks(
                callbacks,
                name,
                &key,
                &notify_value,
                match &old_value {
                    Some(v) => Some(v),
                    None => None,
                },
            );
        }
        changed
    }

    /// The value stored under `key`; `NotFound` when absent.
    pub fn get_item(&self, key: &String) -> (r: Result<&Value, GraphError>)
        ensures
            match r {
                Ok(v) => lookup(self@, key@) == Some(v@),
                Err(e) => e == GraphError::NotFound && lookup(self@, key@) is None,
            },
    {
        match self.dict.get(key) {
            Some(v) => Ok(v),
            None => Err(GraphError::NotFound),
        }
    }
}

/// An ordered list of node ids standing for a path through a graph.
pub struct Path {
    pub nodes: Vec<String>,
}

impl Path {
    /// A path over the given ids, empty when none are given.
    pub fn new(nodes: Option<Vec<String>>) -> (r: Path)
        ensures
            r.nodes@ == match nodes {
                Some(v) => v@,
                None => Seq::<String>::empty(),
            },
    {
        Path {
            nodes: match nodes {
                Some(v) => v,
                None => Vec::new(),
            },
        }
    }

    /// The ids of the path, in order.
    pub fn ids(&self) -> (r: Vec<String>)
        ensures
            r@.len() == self.nodes@.len(),
            forall|i: int| 0 <= i < r@.len() ==> (#[trigger] r@[i]@) == self.nodes@[i]@,
    {
        let n = self.nodes.len();
        let mut out: Vec<String> = Vec::new();
        let mut i: usize = 0;
        while i < n
            invariant
                n == self.nodes@.len(),
                i <= n,
                out@.len() == i,
                forall|j: int| 0 <= j < i ==> (#[trigger] out@[j]@) == self.nodes@[j]@,
            decreases n - i,
        {
            out.push(self.nodes[i].clone());
            i += 1;
        }
        out
    }
}

} // verus!
