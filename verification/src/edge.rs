//! The edge entity: a directed connection between two nodes of the same
//! graph, identified by the endpoint ids, with dynamic attribute and
//! metadata maps. The optional edge id is assigned by the codec.

use vstd::prelude::*;
use crate::attrs::Attrs;
use crate::attrs::lookup;
use crate::value::{Value, ValueView};

verus! {

pub struct Edge {
    pub id: Option<String>,
    pub from: String,
    pub to: String,
    pub attr: Attrs,
    pub meta: Attrs,
}

/// The mathematical shape of an [`Edge`].
#[verifier::ext_equal]
pub struct EdgeView {
    pub id: Option<Seq<char>>,
    pub from: Seq<char>,
    pub to: Seq<char>,
    pub attr: Seq<(Seq<char>, ValueView)>,
    pub meta: Seq<(Seq<char>, ValueView)>,
}

impl View for Edge {
    type V = EdgeView;

    open spec fn view(&self) -> EdgeView {
        EdgeView {
            id: match self.id {
                Some(s) => Some(s@),
                None => None,
            },
            from: self.from@,
            to: self.to@,
            attr: self.attr@,
            meta: self.meta@,
        }
    }
}

impl Edge {
    /// An edge from `from` to `to` with the given attributes, empty
    /// metadata, and an optional explicit id.
    pub fn new(from: String, to: String, attr: Option<Attrs>, id: Option<String>) -> (r: Edge)
        ensures
            r@.from == from@,
            r@.to == to@,
            r@.attr == match attr {
                Some(a) => a@,
                None => Seq::<(Seq<char>, ValueView)>::empty(),
            },
            r@.meta == Seq::<(Seq<char>, ValueView)>::empty(),
            r@.id == match id {
                Some(s) => Some(s@),
                None => None::<Seq<char>>,
            },
    {
        let a = match attr {
            Some(a) => a,
            None => Attrs::new(),
        };
        Edge { id, from, to, attr: a, meta: Attrs::new() }
    }

    /// The value stored under `key`, if any.
    pub fn attr_get(&self, key: &String) -> (r: Option<&Value>)
        ensures
            match r {
                Some(v) => lookup(self@.attr, key@) == Some(v@),
                None => lookup(self@.attr, key@) is None,
            },
    {
        self.attr.get(key)
    }

    /// A copy whose view equals this edge's view.
    pub fn deep_clone(&self) -> (r: Edge)
        ensures
            r@ == self@,
    {
        let id = match &self.id {
            Some(s) => Some(s.clone()),
            None => None,
        };
        Edge {
            id,
            from: self.from.clone(),
            to: self.to.clone(),
            attr: self.attr.deep_clone(),
            meta: self.meta.deep_clone(),
        }
    }
}

/// The view of a sequence of edges, elementwise.
pub open spec fn view_edges(es: Seq<Edge>) -> Seq<EdgeView>
    decreases es.len(),
{
    if es.len() == 0 {
        Seq::empty()
    } else {
        view_edges(es.drop_last()).push(es.last()@)
    }
}

pub proof fn lemma_view_edges_index(es: Seq<Edge>)
    ensures
        view_edges(es).len() == es.len(),
        forall|i: int| 0 <= i < es.len() ==> #[trigger] view_edges(es)[i] == es[i]@,
    decreases es.len(),
{
    if es.len() > 0 {
        let pre = es.drop_last();
        lemma_view_edges_index(pre);
        assert(view_edges(es) == view_edges(pre).push(es.last()@));
        assert forall|i: int| 0 <= i < es.len() implies #[trigger] view_edges(es)[i] == es[i]@ by {
            if i < es.len() - 1 {
                assert(pre[i] == es[i]);
            } else {
                assert(es[i] == es.last());
            }
        }
    }
}

} // verus!
