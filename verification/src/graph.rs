//! The graph container: it owns the node table and the edge table.
//!
//! Nodes are stored in insertion order; ids are unique. Edges are stored in
//! insertion order and refer to their endpoints by id; the outgoing edges of
//! a node are the edges whose `from` equals its id, in table order. Nothing
//! is ever removed: the model is append-only.

use vstd::prelude::*;
use crate::attrs::{Attrs, set_entry, lookup, has_key, key_index, lemma_lookup_props};
use crate::node::{Node, NodeView, view_nodes, lemma_view_nodes_index};
use crate::edge::{Edge, EdgeView, view_edges, lemma_view_edges_index};
use crate::value::{Value, ValueView};
use crate::GraphError;

verus! {

/// The mathematical shape of a graph.
#[verifier::ext_equal]
pub struct VertexView {
    pub nodes: Seq<NodeView>,
    pub edges: Seq<EdgeView>,
    pub meta: Seq<(Seq<char>, ValueView)>,
}

/// Whether a node with the given id occurs in the node table.
pub open spec fn has_id(nodes: Seq<NodeView>, id: Seq<char>) -> bool {
    exists|i: int| 0 <= i < nodes.len() && (#[trigger] nodes[i].id) == id
}

/// The index of the node with the given id (meaningful under `distinct_ids`
/// when the id is present).
pub open spec fn idx_of(nodes: Seq<NodeView>, id: Seq<char>) -> int {
    choose|i: int| 0 <= i < nodes.len() && (#[trigger] nodes[i].id) == id
}

/// All node ids distinct.
pub open spec fn distinct_ids(nodes: Seq<NodeView>) -> bool {
    forall|i: int, j: int|
        0 <= i < j < nodes.len() ==> (#[trigger] nodes[i].id) != (#[trigger] nodes[j].id)
}

/// Every edge endpoint names a node of the table.
pub open spec fn edges_resolve(nodes: Seq<NodeView>, edges: Seq<EdgeView>) -> bool {
    forall|e: int|
        0 <= e < edges.len() ==> has_id(nodes, (#[trigger] edges[e]).from) && has_id(
            nodes,
            edges[e].to,
        )
}

/// Well-formedness of a graph view: ids unique, every edge endpoint present.
pub open spec fn wf_graph(g: VertexView) -> bool {
    &&& distinct_ids(g.nodes)
    &&& edges_resolve(g.nodes, g.edges)
}

pub proof fn lemma_idx_of_unique(nodes: Seq<NodeView>, id: Seq<char>, i: int)
    requires
        distinct_ids(nodes),
        0 <= i < nodes.len(),
        nodes[i].id == id,
    ensures
        idx_of(nodes, id) == i,
        has_id(nodes, id),
{
    assert(has_id(nodes, id));
    let j = idx_of(nodes, id);
    if j != i {
        assert(nodes[i].id != nodes[j].id);
    }
}

/// The graph container.
pub struct Vertex {
    nodes: Vec<Node>,
    edges: Vec<Edge>,
    pub meta: Attrs,
}

impl View for Vertex {
    type V = VertexView;

    closed spec fn view(&self) -> VertexView {
        VertexView {
            nodes: view_nodes(self.nodes@),
            edges: view_edges(self.edges@),
            meta: self.meta@,
        }
    }
}

impl Vertex {
    /// Well-formedness: ids unique, every edge endpoint present.
    pub open spec fn wf(self) -> bool {
        wf_graph(self@)
    }

    /// The empty graph.
    pub fn new() -> (r: Vertex)
        ensures
            r@.nodes == Seq::<NodeView>::empty(),
            r@.edges == Seq::<EdgeView>::empty(),
            r@.meta == Seq::<(Seq<char>, ValueView)>::empty(),
            r.wf(),
    {
        let r = Vertex { nodes: Vec::new(), edges: Vec::new(), meta: Attrs::new() };
        proof {
            assert(r@.nodes =~= Seq::<NodeView>::empty());
            assert(r@.edges =~= Seq::<EdgeView>::empty());
        }
        r
    }

    /// A graph assembled from parts already known to be consistent.
    pub(crate) fn from_parts(nodes: Vec<Node>, edges: Vec<Edge>, meta: Attrs) -> (r: Vertex)
        ensures
            r@.nodes == view_nodes(nodes@),
            r@.edges == view_edges(edges@),
            r@.meta == meta@,
    {
        Vertex { nodes, edges, meta }
    }

    pub fn node_count(&self) -> (r: usize)
        ensures
            r == self@.nodes.len(),
    {
        proof {
            lemma_view_nodes_index(self.nodes@);
        }
        self.nodes.len()
    }

    pub fn edge_count(&self) -> (r: usize)
        ensures
            r == self@.edges.len(),
    {
        proof {
            lemma_view_edges_index(self.edges@);
        }
        self.edges.len()
    }

    /// The node at table position `i`.
    pub fn node_at(&self, i: usize) -> (r: &Node)
        requires
            i < self@.nodes.len(),
        ensures
            r@ == self@.nodes[i as int],
    {
        proof {
            lemma_view_nodes_index(self.nodes@);
        }
        &self.nodes[i]
    }

    /// The edge at table position `e`.
    pub fn edge_at(&self, e: usize) -> (r: &Edge)
        requires
            e < self@.edges.len(),
        ensures
            r@ == self@.edges[e as int],
    {
        proof {
            lemma_view_edges_index(self.edges@);
        }
        &self.edges[e]
    }

    /// The table position of the node with the given id, if present.
    pub fn node_index(&self, id: &String) -> (r: Option<usize>)
        ensures
            match r {
                Some(i) => i < self@.nodes.len() && self@.nodes[i as int].id == id@ && has_id(
                    self@.nodes,
                    id@,
                ),
                None => !has_id(self@.nodes, id@),
            },
    {
        proof {
            lemma_view_nodes_index(self.nodes@);
        }
        let n = self.nodes.len();
        let mut i: usize = 0;
        while i < n
            invariant
                n == self.nodes@.len() == self@.nodes.len(),
                i <= n,
                forall|j: int| 0 <= j < i ==> (#[trigger] self@.nodes[j].id) != id@,
                forall|j: int| 0 <= j < n ==> #[trigger] self@.nodes[j] == self.nodes@[j]@,
            decreases n - i,
        {
            if self.nodes[i].id.eq(id) {
                return Some(i);
            }
            i += 1;
        }
        proof {
            if has_id(self@.nodes, id@) {
                let w = choose|j: int|
                    0 <= j < self@.nodes.len() && (#[trigger] self@.nodes[j].id) == id@;
                assert(self@.nodes[w].id == id@);
                assert(false);
            }
        }
        None
    }

    /// Whether a node with the given id exists.
    pub fn has_node(&self, id: &String) -> (r: bool)
        ensures
            r == has_id(self@.nodes, id@),
    {
        match self.node_index(id) {
            Some(_) => true,
            None => false,
        }
    }

    /// The node with the given id; `NotFound` when absent.
    pub fn get_node(&self, id: &String) -> (r: Result<&Node, GraphError>)
        ensures
            match r {
                Ok(n) => {
                    &&& has_id(self@.nodes, id@)
                    &&& n@.id == id@
                    &&& exists|i: int|
                        0 <= i < self@.nodes.len() && (#[trigger] self@.nodes[i]) == n@
                    &&& self.wf() ==> n@ == self@.nodes[idx_of(self@.nodes, id@)]
                },
                Err(e) => e == GraphError::NotFound && !has_id(self@.nodes, id@),
            },
    {
        proof {
            lemma_view_nodes_index(self.nodes@);
        }
        match self.node_index(id) {
            Some(i) => {
                proof {
                    if self.wf() {
                        lemma_idx_of_unique(self@.nodes, id@, i as int);
                    }
                }
                Ok(&self.nodes[i])
            },
            None => Err(GraphError::NotFound),
        }
    }

    /// All node ids, in table order.
    pub fn keys(&self) -> (r: Vec<String>)
        ensures
            r@.len() == self@.nodes.len(),
            forall|i: int| 0 <= i < r@.len() ==> (#[trigger] r@[i]@) == self@.nodes[i].id,
    {
        proof {
            lemma_view_nodes_index(self.nodes@);
        }
        let n = self.nodes.len();
        let mut out: Vec<String> = Vec::new();
        let mut i: usize = 0;
        while i < n
            invariant
                n == self.nodes@.len() == self@.nodes.len(),
                i <= n,
                out@.len() == i,
                forall|j: int| 0 <= j < i ==> (#[trigger] out@[j]@) == self@.nodes[j].id,
                forall|j: int| 0 <= j < n ==> #[trigger] self@.nodes[j] == self.nodes@[j]@,
            decreases n - i,
        {
            out.push(self.nodes[i].id.clone());
            i += 1;
        }
        out
    }

    /// Add a node; `DuplicateId` when the id is already present. On success
    /// the new node is appended to the node table and its position returned.
    pub fn add_node(&mut self, id: String, attr: Option<Attrs>) -> (r: Result<usize, GraphError>)
        ensures
            match r {
                Ok(i) => {
                    &&& !has_id(old(self)@.nodes, id@)
                    &&& i == old(self)@.nodes.len()
                    &&& final(self)@.nodes == old(self)@.nodes.push(
                        NodeView {
                            id: id@,
                            attr: match attr {
                                Some(a) => a@,
                                None => Seq::<(Seq<char>, ValueView)>::empty(),
                            },
                            meta: Seq::<(Seq<char>, ValueView)>::empty(),
                        },
                    )
                    &&& final(self)@.edges == old(self)@.edges
                    &&& final(self)@.meta == old(self)@.meta
                },
                Err(e) => {
                    &&& e == GraphError::DuplicateId
                    &&& has_id(old(self)@.nodes, id@)
                    &&& *final(self) == *old(self)
                },
            },
            old(self).wf() ==> final(self).wf(),
    {
        proof {
            lemma_view_nodes_index(self.nodes@);
        }
        if self.has_node(&id) {
            return Err(GraphError::DuplicateId);
        }
        let i = self.nodes.len();
        let node = Node::new(id, attr);
        self.nodes.push(node);
        proof {
            lemma_view_nodes_index(self.nodes@);
            assert(self@.nodes =~= old(self)@.nodes.push(self.nodes@[i as int]@));
            if old(self).wf() {
                assert forall|a: int, b: int|
                    0 <= a < b < self@.nodes.len() implies (#[trigger] self@.nodes[a].id) != (
                #[trigger] self@.nodes[b].id) by {
                    if b < i {
                        assert(old(self)@.nodes[a].id != old(self)@.nodes[b].id);
                    } else {
                        assert(self@.nodes[b].id == self.nodes@[i as int]@.id);
                        if has_id(old(self)@.nodes, self@.nodes[a].id) {
                        }
                        assert(self@.nodes[a] == old(self)@.nodes[a]);
                        assert(has_id(old(self)@.nodes, self@.nodes[a].id));
                    }
                }
                assert forall|e: int| 0 <= e < self@.edges.len() implies has_id(
                    self@.nodes,
                    (#[trigger] self@.edges[e]).from,
                ) && has_id(self@.nodes, self@.edges[e].to) by {
                    assert(has_id(old(self)@.nodes, self@.edges[e].from));
                    let w1 = choose|k: int|
                        0 <= k < old(self)@.nodes.len() && (#[trigger] old(self)@.nodes[k].id)
                            == self@.edges[e].from;
                    assert(self@.nodes[w1].id == self@.edges[e].from);
                    let w2 = choose|k: int|
                        0 <= k < old(self)@.nodes.len() && (#[trigger] old(self)@.nodes[k].id)
                            == self@.edges[e].to;
                    assert(self@.nodes[w2].id == self@.edges[e].to);
                }
            }
        }
        Ok(i)
    }

    /// Add an edge; `NodeNotFound` when either endpoint is absent. Creation
    /// is all-or-nothing: on failure the graph is unchanged. On success the
    /// new edge is appended to the edge table and its position returned.
    pub fn add_edge(&mut self, from_id: &String, to_id: &String, attr: Option<Attrs>) -> (r: Result<
        usize,
        GraphError,
    >)
        ensures
            match r {
                Ok(e) => {
                    &&& has_id(old(self)@.nodes, from_id@)
                    &&& has_id(old(self)@.nodes, to_id@)
                    &&& e == old(self)@.edges.len()
                    &&& final(self)@.edges == old(self)@.edges.push(
                        EdgeView {
                            id: None,
                            from: from_id@,
                            to: to_id@,
                            attr: match attr {
                                Some(a) => a@,
                                None => Seq::<(Seq<char>, ValueView)>::empty(),
                            },
                            meta: Seq::<(Seq<char>, ValueView)>::empty(),
                        },
                    )
                    &&& final(self)@.nodes == old(self)@.nodes
                    &&& final(self)@.meta == old(self)@.meta
                },
                Err(err) => {
                    &&& err == GraphError::NodeNotFound
                    &&& !(has_id(old(self)@.nodes, from_id@) && has_id(old(self)@.nodes, to_id@))
                    &&& *final(self) == *old(self)
                },
            },
            old(self).wf() ==> final(self).wf(),
    {
        if !self.has_node(from_id) {
            return Err(GraphError::NodeNotFound);
        }
        if !self.has_node(to_id) {
            return Err(GraphError::NodeNotFound);
        }
        let e = self.edges.len();
        proof {
            lemma_view_edges_index(self.edges@);
        }
        let edge = Edge::new(from_id.clone(), to_id.clone(), attr, None);
        self.edges.push(edge);
        proof {
            lemma_view_edges_index(self.edges@);
            assert(self@.edges =~= old(self)@.edges.push(self.edges@[e as int]@));
            if old(self).wf() {
                assert forall|k: int| 0 <= k < self@.edges.len() implies has_id(
                    self@.nodes,
                    (#[trigger] self@.edges[k]).from,
                ) && has_id(self@.nodes, self@.edges[k].to) by {
                    if k < e {
                        assert(self@.edges[k] == old(self)@.edges[k]);
                        assert(has_id(old(self)@.nodes, self@.edges[k].from));
                        assert(has_id(old(self)@.nodes, self@.edges[k].to));
                    }
                }
            }
        }
        Ok(e)
    }

    /// Set a node attribute through the graph; `NotFound` when the id is
    /// absent. Returns whether the stored value actually changed; the write
    /// happens in either case.
    pub fn node_attr_set(&mut self, id: &String, key: String, value: Value) -> (r: Result<
        bool,
        GraphError,
    >)
        requires
            old(self).wf(),
        ensures
            final(self).wf(),
            match r {
                Ok(changed) => {
                    &&& has_id(old(self)@.nodes, id@)
                    &&& {
                        let i = idx_of(old(self)@.nodes, id@);
                        let n0 = old(self)@.nodes[i];
                        &&& changed == (lookup(n0.attr, key@) != Some(value@))
                        &&& final(self)@.nodes == old(self)@.nodes.update(
                            i,
                            NodeView { id: n0.id, attr: set_entry(n0.attr, key@, value@), meta: n0.meta },
                        )
                    }
                    &&& final(self)@.edges == old(self)@.edges
                    &&& final(self)@.meta == old(self)@.meta
                },
                Err(e) => {
                    &&& e == GraphError::NotFound
                    &&& !has_id(old(self)@.nodes, id@)
                    &&& *final(self) == *old(self)
                },
            },
    {
        proof {
            lemma_view_nodes_index(self.nodes@);
        }
        let idx = match self.node_index(id) {
            Some(i) => i,
            None => {
                return Err(GraphError::NotFound);
            },
        };
        proof {
            lemma_idx_of_unique(self@.nodes, id@, idx as int);
        }
        let changed = match self.nodes[idx].attr.get(&key) {
            Some(existing) => !existing.eq_value(&value),
            None => true,
        };
        let mut updated = self.nodes[idx].deep_clone();
        updated.attr.set(key, value);
        self.nodes.set(idx, updated);
        proof {
            lemma_view_nodes_index(self.nodes@);
            let i = idx as int;
            assert(self@.nodes =~= old(self)@.nodes.update(i, self.nodes@[i]@));
            assert(self.nodes@[i]@ =~= NodeView {
                id: old(self)@.nodes[i].id,
                attr: set_entry(old(self)@.nodes[i].attr, key@, value@),
                meta: old(self)@.nodes[i].meta,
            });
            assert forall|a: int, b: int|
                0 <= a < b < self@.nodes.len() implies (#[trigger] self@.nodes[a].id) != (
            #[trigger] self@.nodes[b].id) by {
                assert(self@.nodes[a].id == old(self)@.nodes[a].id);
                assert(self@.nodes[b].id == old(self)@.nodes[b].id);
                assert(old(self)@.nodes[a].id != old(self)@.nodes[b].id);
            }
            assert forall|e: int| 0 <= e < self@.edges.len() implies has_id(
                self@.nodes,
                (#[trigger] self@.edges[e]).from,
            ) && has_id(self@.nodes, self@.edges[e].to) by {
                assert(self@.edges[e] == old(self)@.edges[e]);
                let w1 = choose|k: int|
                    0 <= k < old(self)@.nodes.len() && (#[trigger] old(self)@.nodes[k].id)
                        == self@.edges[e].from;
                assert(self@.nodes[w1].id == self@.edges[e].from);
                let w2 = choose|k: int|
                    0 <= k < old(self)@.nodes.len() && (#[trigger] old(self)@.nodes[k].id)
                        == self@.edges[e].to;
                assert(self@.nodes[w2].id == self@.edges[e].to);
            }
        }
        Ok(changed)
    }

    /// Set an edge attribute through the graph, by edge table position;
    /// `NotFound` when the position is out of range. Returns whether the
    /// stored value actually changed; the write happens in either case.
    pub fn edge_attr_set(&mut self, edge_index: usize, key: String, value: Value) -> (r: Result<
        bool,
        GraphError,
    >)
        ensures
            old(self).wf() ==> final(self).wf(),
            match r {
                Ok(changed) => {
                    &&& edge_index < old(self)@.edges.len()
                    &&& {
                        let e0 = old(self)@.edges[edge_index as int];
                        &&& changed == (lookup(e0.attr, key@) != Some(value@))
                        &&& final(self)@.edges == old(self)@.edges.update(
                            edge_index as int,
                            EdgeView {
                                id: e0.id,
                                from: e0.from,
                                to: e0.to,
                                attr: set_entry(e0.attr, key@, value@),
                                meta: e0.meta,
                            },
                        )
                    }
                    &&& final(self)@.nodes == old(self)@.nodes
                    &&& final(self)@.meta == old(self)@.meta
                },
                Err(e) => {
                    &&& e == GraphError::NotFound
                    &&& edge_index >= old(self)@.edges.len()
                    &&& *final(self) == *old(self)
                },
            },
    {
        proof {
            lemma_view_edges_index(self.edges@);
        }
        if edge_index >= self.edges.len() {
            return Err(GraphError::NotFound);
        }
        let changed = match self.edges[edge_index].attr.get(&key) {
            Some(existing) => !existing.eq_value(&value),
            None => true,
        };
        let mut updated = self.edges[edge_index].deep_clone();
        updated.attr.set(key, value);
        self.edges.set(edge_index, updated);
        proof {
            lemma_view_edges_index(self.edges@);
            let i = edge_index as int;
            assert(self@.edges =~= old(self)@.edges.update(i, self.edges@[i]@));
            assert(self.edges@[i]@ =~= EdgeView {
                id: old(self)@.edges[i].id,
                from: old(self)@.edges[i].from,
                to: old(self)@.edges[i].to,
                attr: set_entry(old(self)@.edges[i].attr, key@, value@),
                meta: old(self)@.edges[i].meta,
            });
            if old(self).wf() {
                assert forall|e: int| 0 <= e < self@.edges.len() implies has_id(
                    self@.nodes,
                    (#[trigger] self@.edges[e]).from,
                ) && has_id(self@.nodes, self@.edges[e].to) by {
                    assert(self@.edges[e].from == old(self)@.edges[e].from);
                    assert(self@.edges[e].to == old(self)@.edges[e].to);
                    assert(has_id(old(self)@.nodes, old(self)@.edges[e].from));
                    assert(has_id(old(self)@.nodes, old(self)@.edges[e].to));
                }
            }
        }
        Ok(changed)
    }

    /// A graph over the given node and edge tables, validated: ids must be
    /// unique (`DuplicateId`) and every edge endpoint present
    /// (`NodeNotFound`). The metadata starts empty.
    pub fn from_nodes(nodes: Vec<Node>, edges: Vec<Edge>) -> (r: Result<Vertex, GraphError>)
        ensures
            match r {
                Ok(g) => {
                    &&& g@.nodes == view_nodes(nodes@)
                    &&& g@.edges == view_edges(edges@)
                    &&& g@.meta == Seq::<(Seq<char>, ValueView)>::empty()
                    &&& g.wf()
                },
                Err(e) => {
                    ||| (e == GraphError::DuplicateId && !distinct_ids(view_nodes(nodes@)))
                    ||| (e == GraphError::NodeNotFound && distinct_ids(view_nodes(nodes@))
                        && !edges_resolve(view_nodes(nodes@), view_edges(edges@)))
                },
            },
    {
        proof {
            lemma_view_nodes_index(nodes@);
            lemma_view_edges_index(edges@);
        }
        let ghost nv = view_nodes(nodes@);
        let ghost ev = view_edges(edges@);
        let n = nodes.len();
        let mut i: usize = 0;
        while i < n
            invariant
                nv == view_nodes(nodes@),
                n == nodes@.len() == nv.len(),
                i <= n,
                forall|k: int| 0 <= k < n ==> #[trigger] nv[k] == nodes@[k]@,
                forall|a: int, b: int| 0 <= a < i && a < b < n ==> (#[trigger] nv[a].id) != (
                #[trigger] nv[b].id),
            decreases n - i,
        {
            let mut j: usize = i + 1;
            while j < n
                invariant
                    nv == view_nodes(nodes@),
                    n == nodes@.len() == nv.len(),
                    i < j <= n,
                    forall|k: int| 0 <= k < n ==> #[trigger] nv[k] == nodes@[k]@,
                    forall|b: int| i < b < j ==> nv[i as int].id != (#[trigger] nv[b].id),
                decreases n - j,
            {
                if nodes[i].id.eq(&nodes[j].id) {
                    proof {
                        assert(nv[i as int].id == nv[j as int].id);
                    }
                    return Err(GraphError::DuplicateId);
                }
                j += 1;
            }
            i += 1;
        }
        let m = edges.len();
        let mut e: usize = 0;
        while e < m
            invariant
                distinct_ids(nv),
                nv == view_nodes(nodes@),
                ev == view_edges(edges@),
                n == nodes@.len() == nv.len(),
                m == edges@.len() == ev.len(),
                e <= m,
                forall|k: int| 0 <= k < n ==> #[trigger] nv[k] == nodes@[k]@,
                forall|k: int| 0 <= k < m ==> #[trigger] ev[k] == edges@[k]@,
                forall|k: int|
                    0 <= k < e ==> has_id(nv, (#[trigger] ev[k]).from) && has_id(nv, ev[k].to),
            decreases m - e,
        {
            let mut from_ok = false;
            let mut to_ok = false;
            let mut j: usize = 0;
            while j < n
                invariant
                    nv == view_nodes(nodes@),
                    ev == view_edges(edges@),
                    n == nodes@.len() == nv.len(),
                    m == edges@.len() == ev.len(),
                    e < m,
                    j <= n,
                    forall|k: int| 0 <= k < n ==> #[trigger] nv[k] == nodes@[k]@,
                    forall|k: int| 0 <= k < m ==> #[trigger] ev[k] == edges@[k]@,
                    from_ok ==> has_id(nv, ev[e as int].from),
                    to_ok ==> has_id(nv, ev[e as int].to),
                    !from_ok ==> forall|k: int| 0 <= k < j ==> (#[trigger] nv[k].id) != ev[
                        e as int
                    ].from,
                    !to_ok ==> forall|k: int| 0 <= k < j ==> (#[trigger] nv[k].id) != ev[
                        e as int
                    ].to,
                decreases n - j,
            {
                if nodes[j].id.eq(&edges[e].from) {
                    from_ok = true;
                    proof {
                        assert(nv[j as int].id == ev[e as int].from);
                        assert(has_id(nv, ev[e as int].from));
                    }
                }
                if nodes[j].id.eq(&edges[e].to) {
                    to_ok = true;
                    proof {
                        assert(nv[j as int].id == ev[e as int].to);
                        assert(has_id(nv, ev[e as int].to));
                    }
                }
                j += 1;
            }
            if !from_ok || !to_ok {
                proof {
                    if !from_ok {
                        if has_id(nv, ev[e as int].from) {
                            let w = choose|w: int|
                                0 <= w < nv.len() && (#[trigger] nv[w].id) == ev[e as int].from;
                            assert(false);
                        }
                    } else {
                        if has_id(nv, ev[e as int].to) {
                            let w = choose|w: int|
                                0 <= w < nv.len() && (#[trigger] nv[w].id) == ev[e as int].to;
                            assert(false);
                        }
                    }
                }
                return Err(GraphError::NodeNotFound);
            }
            e += 1;
        }
        let g = Vertex::from_parts(nodes, edges, Attrs::new());
        Ok(g)
    }

    /// As `from_nodes`, with the traversal order recorded in the metadata
    /// under `nodelist`.
    pub fn from_nodes_with_path(nodes: Vec<Node>, edges: Vec<Edge>, nodelist: Vec<String>) -> (r:
        Result<Vertex, GraphError>)
        ensures
            match r {
                Ok(g) => {
                    &&& g@.nodes == view_nodes(nodes@)
                    &&& g@.edges == view_edges(edges@)
                    &&& g@.meta == crate::algorithms::nodelist_meta(
                        crate::traversal::strs_view(nodelist@),
                    )
                    &&& g.wf()
                },
                Err(e) => {
                    ||| (e == GraphError::DuplicateId && !distinct_ids(view_nodes(nodes@)))
                    ||| (e == GraphError::NodeNotFound && distinct_ids(view_nodes(nodes@))
                        && !edges_resolve(view_nodes(nodes@), view_edges(edges@)))
                },
            },
    {
        let mut g = match Vertex::from_nodes(nodes, edges) {
            Ok(g) => g,
            Err(e) => {
                return Err(e);
            },
        };
        let list = crate::algorithms::ids_list_value(&nodelist);
        let key = String::from_str("nodelist");
        g.meta_set(key, list);
        proof {
            assert(g@.meta =~= crate::algorithms::nodelist_meta(
                crate::traversal::strs_view(nodelist@),
            ));
        }
        Ok(g)
    }

    /// Summary metadata of the graph: the node count, the edge count and
    /// the node ids, as an attribute map.
    pub fn get_metadata(&self) -> (r: Attrs)
        requires
            self@.nodes.len() <= i64::MAX,
            self@.edges.len() <= i64::MAX,
        ensures
            lookup(r@, "node_count"@) == Some(ValueView::Int(self@.nodes.len() as int)),
            lookup(r@, "edge_count"@) == Some(ValueView::Int(self@.edges.len() as int)),
            lookup(r@, "node_ids"@) == Some(
                ValueView::List(
                    crate::algorithms::str_values(crate::subgraph::ids_of(self@.nodes)),
                ),
            ),
    {
        proof {
            reveal_strlit("node_count");
            reveal_strlit("edge_count");
            reveal_strlit("node_ids");
            assert("node_count"@ != "edge_count"@) by {
                assert("node_count"@[0] == 'n' && "edge_count"@[0] == 'e');
            }
            assert("node_count"@ != "node_ids"@) by {
                assert("node_count"@.len() == 10 && "node_ids"@.len() == 8);
            }
            assert("edge_count"@ != "node_ids"@) by {
                assert("edge_count"@.len() == 10 && "node_ids"@.len() == 8);
            }
        }
        let mut out = Attrs::new();
        let ids = self.keys();
        let node_count = self.node_count();
        let edge_count = self.edge_count();
        let ghost m0 = out@;
        let ghost v1 = ValueView::Int(self@.nodes.len() as int);
        let ghost v2 = ValueView::Int(self@.edges.len() as int);
        out.set(String::from_str("node_count"), Value::Int(node_count as i64));
        let ghost m1 = out@;
        proof {
            assert(m1 == m0.push(("node_count"@, v1)));
            crate::attrs::lemma_lookup_push_fresh(m0, "node_count"@, v1);
        }
        out.set(String::from_str("edge_count"), Value::Int(edge_count as i64));
        let ghost m2 = out@;
        proof {
            assert(!has_key(m1, "edge_count"@));
            assert(m2 == m1.push(("edge_count"@, v2)));
            crate::attrs::lemma_lookup_push_fresh(m1, "edge_count"@, v2);
        }
        let list = crate::algorithms::ids_list_value(&ids);
        proof {
            assert(crate::traversal::strs_view(ids@) =~= crate::subgraph::ids_of(self@.nodes));
        }
        let ghost v3 = ValueView::List(
            crate::algorithms::str_values(crate::subgraph::ids_of(self@.nodes)),
        );
        out.set(String::from_str("node_ids"), list);
        proof {
            assert(!has_key(m2, "node_ids"@));
            assert(out@ == m2.push(("node_ids"@, v3)));
            crate::attrs::lemma_lookup_push_fresh(m2, "node_ids"@, v3);
        }
        out
    }

    /// The graph-level metadata.
    pub fn meta_attrs(&self) -> (r: &Attrs)
        ensures
            r@ == self@.meta,
    {
        &self.meta
    }

    /// Replace the graph-level metadata wholesale.
    pub(crate) fn set_meta(&mut self, meta: Attrs)
        ensures
            final(self)@.meta == meta@,
            final(self)@.nodes == old(self)@.nodes,
            final(self)@.edges == old(self)@.edges,
            old(self).wf() ==> final(self).wf(),
    {
        self.meta = meta;
    }

    /// Set a graph-level metadata entry.
    pub fn meta_set(&mut self, key: String, value: Value)
        ensures
            final(self)@.meta == set_entry(old(self)@.meta, key@, value@),
            final(self)@.nodes == old(self)@.nodes,
            final(self)@.edges == old(self)@.edges,
            old(self).wf() ==> final(self).wf(),
    {
        proof {
            lemma_lookup_props(self.meta@, key@);
        }
        self.meta.set(key, value);
    }
}

} // verus!
