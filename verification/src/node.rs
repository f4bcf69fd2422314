//! The node entity: an id unique within its owning graph, plus dynamic
//! attribute and metadata maps.
//!
//! Adjacency is owned by the graph container: the outgoing and incoming
//! edges of a node are the edges of the graph whose `from` (respectively
//! `to`) field equals the node's id, in insertion order.

use vstd::prelude::*;
use crate::attrs::Attrs;
use crate::value::{Value, ValueView};
use crate::attrs::{lookup, has_key, key_index};
use crate::GraphError;

verus! {

pub struct Node {
    pub id: String,
    pub attr: Attrs,
    pub meta: Attrs,
}

/// The mathematical shape of a [`Node`].
#[verifier::ext_equal]
pub struct NodeView {
    pub id: Seq<char>,
    pub attr: Seq<(Seq<char>, ValueView)>,
    pub meta: Seq<(Seq<char>, ValueView)>,
}

impl View for Node {
    type V = NodeView;

    open spec fn view(&self) -> NodeView {
        NodeView { id: self.id@, attr: self.attr@, meta: self.meta@ }
    }
}

impl Node {
    /// A node with the given id and attributes and empty metadata.
    pub fn new(id: String, attr: Option<Attrs>) -> (r: Node)
        ensures
            r@.id == id@,
            r@.attr == match attr {
                Some(a) => a@,
                None => Seq::<(Seq<char>, ValueView)>::empty(),
            },
            r@.meta == Seq::<(Seq<char>, ValueView)>::empty(),
    {
        let a = match attr {
            Some(a) => a,
            None => Attrs::new(),
        };
        Node { id, attr: a, meta: Attrs::new() }
    }

    /// The value stored under `key`, if any.
    pub fn attr_get(&self, key: &String) -> (r: Option<&Value>)
        ensures
            match r {
                Some(v) => lookup(self@.attr, key@) == Some(v@),
                None => lookup(self@.attr, key@) is None,
            },
    {
        self.attr.get(key)
    }

    /// A copy whose view equals this node's view.
    pub fn deep_clone(&self) -> (r: Node)
        ensures
            r@ == self@,
    {
        Node { id: self.id.clone(), attr: self.attr.deep_clone(), meta: self.meta.deep_clone() }
    }

    /// Append `value` to the list stored at `key`, creating the list when the
    /// key is absent. A non-list value under `key` is rejected.
    pub fn attr_list_append(&mut self, key: String, value: Value) -> (r: Result<(), GraphError>)
        ensures
            match r {
                Ok(_) => {
                    &&& match lookup(old(self)@.attr, key@) {
                        None => final(self)@.attr == old(self)@.attr.push(
                            (key@, ValueView::List(seq![value@])),
                        ),
                        Some(ValueView::List(items)) => final(self)@.attr == old(self)@.attr.update(
                            key_index(old(self)@.attr, key@),
                            (key@, ValueView::List(items.push(value@))),
                        ),
                        Some(_) => false,
                    }
                    &&& final(self)@.id == old(self)@.id
                    &&& final(self)@.meta == old(self)@.meta
                },
                Err(e) => {
                    &&& e == GraphError::InvalidParameter
                    &&& match lookup(old(self)@.attr, key@) {
                        Some(v) => !(v is List),
                        None => false,
                    }
                    &&& *final(self) == *old(self)
                },
            },
    {
        let existing: Option<&Value> = self.attr.get(&key);
        match existing {
            None => {
                let mut items: Vec<Value> = Vec::new();
                items.push(value);
                proof {
                    crate::value::lemma_view_list_index(items@);
                    assert(crate::value::view_list(items@) =~= seq![items@[0]@]);
                }
                self.attr.set(key, Value::List(items));
                Ok(())
            },
            Some(v) => {
                match v {
                    Value::List(_) => {
                        // Rebuild the list with the appended element.
                        let current = match self.attr.get(&key) {
                            Some(cv) => cv.deep_clone(),
                            None => Value::Null,
                        };
                        match current {
                            Value::List(mut items) => {
                                let ghost items0 = items@;
                                items.push(value);
                                proof {
                                    crate::value::lemma_view_list_index(items@);
                                    crate::value::lemma_view_list_index(items0);
                                    assert(crate::value::view_list(items@) =~= crate::value::view_list(
                                        items0,
                                    ).push(items@[items0.len() as int]@));
                                }
                                self.attr.set(key, Value::List(items));
                                Ok(())
                            },
                            _ => {
                                proof {
                                    assert(false);
                                }
                                Err(GraphError::InvalidParameter)
                            },
                        }
                    },
                    _ => Err(GraphError::InvalidParameter),
                }
            },
        }
    }
}

/// The view of a sequence of nodes, elementwise.
pub open spec fn view_nodes(ns: Seq<Node>) -> Seq<NodeView>
    decreases ns.len(),
{
    if ns.len() == 0 {
        Seq::empty()
    } else {
        view_nodes(ns.drop_last()).push(ns.last()@)
    }
}

pub proof fn lemma_view_nodes_index(ns: Seq<Node>)
    ensures
        view_nodes(ns).len() == ns.len(),
        forall|i: int| 0 <= i < ns.len() ==> #[trigger] view_nodes(ns)[i] == ns[i]@,
    decreases ns.len(),
{
    if ns.len() > 0 {
        let pre = ns.drop_last();
        lemma_view_nodes_index(pre);
        assert(view_nodes(ns) == view_nodes(pre).push(ns.last()@));
        assert forall|i: int| 0 <= i < ns.len() implies #[trigger] view_nodes(ns)[i] == ns[i]@ by {
            if i < ns.len() - 1 {
                assert(pre[i] == ns[i]);
            } else {
                assert(ns[i] == ns.last());
            }
        }
    }
}

} // verus!
