//! The serialization codec: the live, reference-cyclic graph is converted
//! into an acyclic, portable representation and back.
//!
//! Every edge receives a synthesized id built from its table position and
//! its endpoints; each node records the ids of its outgoing and incoming
//! edges. Import rebuilds the graph in passes: nodes first, then edges,
//! which need both endpoints to exist; a missing endpoint fails the whole
//! import and leaves nothing behind.

use vstd::prelude::*;
use crate::attrs::Attrs;
use crate::edge::{Edge, EdgeView};
use crate::graph::{Vertex, VertexView, has_id, distinct_ids, edges_resolve, wf_graph};
use crate::node::{Node, NodeView};
use crate::value::{Value, ValueView};
use crate::GraphError;

verus! {

/// Relies on `String::push`: appends exactly the one character.
#[verifier::external_body]
pub(crate) fn push_char(s: &mut String, c: char)
    ensures
        final(s)@ == old(s)@.push(c),
{
    s.push(c);
}

/// The decimal digit characters.
pub open spec fn digit_char(d: nat) -> char {
    if d == 0 {
        '0'
    } else if d == 1 {
        '1'
    } else if d == 2 {
        '2'
    } else if d == 3 {
        '3'
    } else if d == 4 {
        '4'
    } else if d == 5 {
        '5'
    } else if d == 6 {
        '6'
    } else if d == 7 {
        '7'
    } else if d == 8 {
        '8'
    } else {
        '9'
    }
}

/// The decimal digits of `n`, most significant first.
pub open spec fn dec_str(n: nat) -> Seq<char>
    decreases n,
{
    if n < 10 {
        seq![digit_char(n)]
    } else {
        dec_str(n / 10).push(digit_char(n % 10))
    }
}

fn digit_exec(d: usize) -> (c: char)
    requires
        d < 10,
    ensures
        c == digit_char(d as nat),
{
    if d == 0 {
        '0'
    } else if d == 1 {
        '1'
    } else if d == 2 {
        '2'
    } else if d == 3 {
        '3'
    } else if d == 4 {
        '4'
    } else if d == 5 {
        '5'
    } else if d == 6 {
        '6'
    } else if d == 7 {
        '7'
    } else if d == 8 {
        '8'
    } else {
        '9'
    }
}

/// The decimal rendering of `n`.
pub fn usize_dec(n: usize) -> (s: String)
    ensures
        s@ == dec_str(n as nat),
    decreases n,
{
    if n < 10 {
        let mut s = String::new();
        push_char(&mut s, digit_exec(n));
        proof {
            assert(s@ =~= dec_str(n as nat));
        }
        s
    } else {
        let mut s = usize_dec(n / 10);
        push_char(&mut s, digit_exec(n % 10));
        s
    }
}

/// The synthesized id of the edge at table position `e`.
pub open spec fn edge_id_str(e: nat, from: Seq<char>, to: Seq<char>) -> Seq<char> {
    "edge_"@ + dec_str(e) + "_"@ + from + "_to_"@ + to
}

fn edge_id_string(e: usize, from: &String, to: &String) -> (s: String)
    ensures
        s@ == edge_id_str(e as nat, from@, to@),
{
    let mut s = String::from_str("edge_");
    let digits = usize_dec(e);
    s.append(digits.as_str());
    s.append("_");
    s.append(from.as_str());
    s.append("_to_");
    s.append(to.as_str());
    proof {
        assert(s@ =~= edge_id_str(e as nat, from@, to@));
    }
    s
}

/// A portable node: attributes and metadata plus edge ids in place of
/// edge references.
pub struct SerializableNode {
    pub id: String,
    pub attr: Attrs,
    pub meta: Attrs,
    pub edge_ids: Vec<String>,
    pub inverse_edge_ids: Vec<String>,
}

#[verifier::ext_equal]
pub struct SNodeView {
    pub id: Seq<char>,
    pub attr: Seq<(Seq<char>, ValueView)>,
    pub meta: Seq<(Seq<char>, ValueView)>,
    pub edge_ids: Seq<Seq<char>>,
    pub inverse_edge_ids: Seq<Seq<char>>,
}

impl View for SerializableNode {
    type V = SNodeView;

    open spec fn view(&self) -> SNodeView {
        SNodeView {
            id: self.id@,
            attr: self.attr@,
            meta: self.meta@,
            edge_ids: crate::traversal::strs_view(self.edge_ids@),
            inverse_edge_ids: crate::traversal::strs_view(self.inverse_edge_ids@),
        }
    }
}

/// A portable edge: endpoint ids in place of node references.
pub struct SerializableEdge {
    pub id: String,
    pub from_id: String,
    pub to_id: String,
    pub attr: Attrs,
    pub meta: Attrs,
}

#[verifier::ext_equal]
pub struct SEdgeView {
    pub id: Seq<char>,
    pub from_id: Seq<char>,
    pub to_id: Seq<char>,
    pub attr: Seq<(Seq<char>, ValueView)>,
    pub meta: Seq<(Seq<char>, ValueView)>,
}

impl View for SerializableEdge {
    type V = SEdgeView;

    open spec fn view(&self) -> SEdgeView {
        SEdgeView {
            id: self.id@,
            from_id: self.from_id@,
            to_id: self.to_id@,
            attr: self.attr@,
            meta: self.meta@,
        }
    }
}

/// The complete acyclic representation of a graph.
pub struct SerializableGraph {
    pub nodes: Vec<SerializableNode>,
    pub edges: Vec<SerializableEdge>,
    pub meta: Attrs,
    pub metadata: Attrs,
}

#[verifier::ext_equal]
pub struct SGraphView {
    pub nodes: Seq<SNodeView>,
    pub edges: Seq<SEdgeView>,
    pub meta: Seq<(Seq<char>, ValueView)>,
    pub metadata: Seq<(Seq<char>, ValueView)>,
}

impl View for SerializableGraph {
    type V = SGraphView;

    open spec fn view(&self) -> SGraphView {
        SGraphView {
            nodes: view_snodes(self.nodes@),
            edges: view_sedges(self.edges@),
            meta: self.meta@,
            metadata: self.metadata@,
        }
    }
}

pub open spec fn view_snodes(ns: Seq<SerializableNode>) -> Seq<SNodeView> {
    Seq::new(ns.len(), |i: int| ns[i]@)
}

pub open spec fn view_sedges(es: Seq<SerializableEdge>) -> Seq<SEdgeView> {
    Seq::new(es.len(), |i: int| es[i]@)
}

/// The synthesized ids of the first `m` edges leaving `id`, table order.
pub open spec fn out_ids_upto(g: VertexView, id: Seq<char>, m: nat) -> Seq<Seq<char>>
    decreases m,
{
    if m == 0 || m > g.edges.len() {
        Seq::empty()
    } else {
        let p = out_ids_upto(g, id, (m - 1) as nat);
        if g.edges[m - 1].from == id {
            p.push(edge_id_str((m - 1) as nat, g.edges[m - 1].from, g.edges[m - 1].to))
        } else {
            p
        }
    }
}

/// The synthesized ids of the first `m` edges entering `id`, table order.
pub open spec fn in_ids_upto(g: VertexView, id: Seq<char>, m: nat) -> Seq<Seq<char>>
    decreases m,
{
    if m == 0 || m > g.edges.len() {
        Seq::empty()
    } else {
        let p = in_ids_upto(g, id, (m - 1) as nat);
        if g.edges[m - 1].to == id {
            p.push(edge_id_str((m - 1) as nat, g.edges[m - 1].from, g.edges[m - 1].to))
        } else {
            p
        }
    }
}

/// The metadata block the export writes.
pub open spec fn codec_metadata(ts: Seq<char>, nc: int, ec: int) -> Seq<(Seq<char>, ValueView)> {
    seq![
        ("version"@, ValueView::Str("1.0"@)),
        ("node_count"@, ValueView::Int(nc)),
        ("edge_count"@, ValueView::Int(ec)),
        ("timestamp"@, ValueView::Str(ts)),
    ]
}

/// The portable form of a graph, stamped with the given timestamp.
pub open spec fn ir_of(g: VertexView, ts: Seq<char>) -> SGraphView {
    SGraphView {
        nodes: Seq::new(
            g.nodes.len(),
            |i: int|
                SNodeView {
                    id: g.nodes[i].id,
                    attr: g.nodes[i].attr,
                    meta: g.nodes[i].meta,
                    edge_ids: out_ids_upto(g, g.nodes[i].id, g.edges.len()),
                    inverse_edge_ids: in_ids_upto(g, g.nodes[i].id, g.edges.len()),
                },
        ),
        edges: Seq::new(
            g.edges.len(),
            |e: int|
                SEdgeView {
                    id: edge_id_str(e as nat, g.edges[e].from, g.edges[e].to),
                    from_id: g.edges[e].from,
                    to_id: g.edges[e].to,
                    attr: g.edges[e].attr,
                    meta: g.edges[e].meta,
                },
        ),
        meta: g.meta,
        metadata: codec_metadata(ts, g.nodes.len() as int, g.edges.len() as int),
    }
}

/// The live graph a portable form stands for.
pub open spec fn graph_of(sg: SGraphView) -> VertexView {
    VertexView {
        nodes: Seq::new(
            sg.nodes.len(),
            |i: int|
                NodeView { id: sg.nodes[i].id, attr: sg.nodes[i].attr, meta: sg.nodes[i].meta },
        ),
        edges: Seq::new(
            sg.edges.len(),
            |e: int|
                EdgeView {
                    id: Some(sg.edges[e].id),
                    from: sg.edges[e].from_id,
                    to: sg.edges[e].to_id,
                    attr: sg.edges[e].attr,
                    meta: sg.edges[e].meta,
                },
        ),
        meta: sg.meta,
    }
}

/// A portable form that imports cleanly: node ids unique, every edge
/// endpoint present.
pub open spec fn ir_valid(sg: SGraphView) -> bool {
    wf_graph(graph_of(sg))
}

impl SerializableGraph {
    /// Export: two passes over the live graph build node shells and the
    /// edge table with synthesized edge ids, and stamp the metadata block
    /// with the given timestamp.
    pub fn from_vertex(g: &Vertex, timestamp: String) -> (r: SerializableGraph)
        requires
            g@.nodes.len() <= i64::MAX,
            g@.edges.len() <= i64::MAX,
        ensures
            r@ == ir_of(g@, timestamp@),
    {
        let ecount = g.edge_count();
        let ncount = g.node_count();
        let mut snodes: Vec<SerializableNode> = Vec::new();
        let mut i: usize = 0;
        while i < ncount
            invariant
                g@.nodes.len() <= i64::MAX,
                g@.edges.len() <= i64::MAX,
                ncount == g@.nodes.len(),
                ecount == g@.edges.len(),
                i <= ncount,
                snodes@.len() == i,
                forall|j: int| 0 <= j < i ==> #[trigger] snodes@[j]@ =~= ir_of(
                    g@,
                    timestamp@,
                ).nodes[j],
            decreases ncount - i,
        {
            let node = g.node_at(i);
            let ghost nid = node@.id;
            let mut edge_ids: Vec<String> = Vec::new();
            let mut inverse_edge_ids: Vec<String> = Vec::new();
            let mut e: usize = 0;
            proof {
                assert(crate::traversal::strs_view(edge_ids@) =~= out_ids_upto(g@, nid, 0));
                assert(crate::traversal::strs_view(inverse_edge_ids@) =~= in_ids_upto(g@, nid, 0));
            }
            while e < ecount
                invariant
                    i < ncount,
                    ncount == g@.nodes.len(),
                    ecount == g@.edges.len(),
                    e <= ecount,
                    nid == g@.nodes[i as int].id,
                    node@ == g@.nodes[i as int],
                    crate::traversal::strs_view(edge_ids@) == out_ids_upto(g@, nid, e as nat),
                    crate::traversal::strs_view(inverse_edge_ids@) == in_ids_upto(
                        g@,
                        nid,
                        e as nat,
                    ),
                decreases ecount - e,
            {
                let edge = g.edge_at(e);
                if edge.from.eq(&node.id) {
                    let ghost pre = crate::traversal::strs_view(edge_ids@);
                    let ghost plen = edge_ids@.len();
                    edge_ids.push(edge_id_string(e, &edge.from, &edge.to));
                    proof {
                        crate::traversal::lemma_strs_view_push(
                            edge_ids@.drop_last(),
                            edge_ids@[plen as int],
                        );
                        assert(edge_ids@.drop_last() =~= edge_ids@.take(plen as int));
                        assert(crate::traversal::strs_view(edge_ids@) =~= pre.push(
                            edge_id_str(e as nat, g@.edges[e as int].from, g@.edges[e as int].to),
                        ));
                    }
                }
                if edge.to.eq(&node.id) {
                    let ghost pre = crate::traversal::strs_view(inverse_edge_ids@);
                    let ghost plen = inverse_edge_ids@.len();
                    inverse_edge_ids.push(edge_id_string(e, &edge.from, &edge.to));
                    proof {
                        crate::traversal::lemma_strs_view_push(
                            inverse_edge_ids@.drop_last(),
                            inverse_edge_ids@[plen as int],
                        );
                        assert(inverse_edge_ids@.drop_last() =~= inverse_edge_ids@.take(
                            plen as int,
                        ));
                        assert(crate::traversal::strs_view(inverse_edge_ids@) =~= pre.push(
                            edge_id_str(e as nat, g@.edges[e as int].from, g@.edges[e as int].to),
                        ));
                    }
                }
                e += 1;
            }
            let snode = SerializableNode {
                id: node.id.clone(),
                attr: node.attr.deep_clone(),
                meta: node.meta.deep_clone(),
                edge_ids,
                inverse_edge_ids,
            };
            snodes.push(snode);
            i += 1;
        }
        let mut sedges: Vec<SerializableEdge> = Vec::new();
        let mut e: usize = 0;
        while e < ecount
            invariant
                g@.nodes.len() <= i64::MAX,
                g@.edges.len() <= i64::MAX,
                ecount == g@.edges.len(),
                e <= ecount,
                sedges@.len() == e,
                forall|j: int| 0 <= j < e ==> #[trigger] sedges@[j]@ =~= ir_of(
                    g@,
                    timestamp@,
                ).edges[j],
            decreases ecount - e,
        {
            let edge = g.edge_at(e);
            let sedge = SerializableEdge {
                id: edge_id_string(e, &edge.from, &edge.to),
                from_id: edge.from.clone(),
                to_id: edge.to.clone(),
                attr: edge.attr.deep_clone(),
                meta: edge.meta.deep_clone(),
            };
            sedges.push(sedge);
            e += 1;
        }
        let meta = g.meta_attrs().deep_clone();
        let mut metadata = Attrs::new();
        proof {
            reveal_strlit("version");
            reveal_strlit("node_count");
            reveal_strlit("edge_count");
            reveal_strlit("timestamp");
            assert("version"@ != "node_count"@) by {
                assert("version"@.len() == 7 && "node_count"@.len() == 10);
            }
            assert("version"@ != "edge_count"@) by {
                assert("version"@.len() == 7 && "edge_count"@.len() == 10);
            }
            assert("version"@ != "timestamp"@) by {
                assert("version"@.len() == 7 && "timestamp"@.len() == 9);
            }
            assert("node_count"@ != "edge_count"@) by {
                assert("node_count"@[0] == 'n' && "edge_count"@[0] == 'e');
            }
            assert("node_count"@ != "timestamp"@) by {
                assert("node_count"@.len() == 10 && "timestamp"@.len() == 9);
            }
            assert("edge_count"@ != "timestamp"@) by {
                assert("edge_count"@.len() == 10 && "timestamp"@.len() == 9);
            }
        }
        let ghost m0 = metadata@;
        let ghost w1 = ValueView::Str("1.0"@);
        let ghost w2 = ValueView::Int(g@.nodes.len() as int);
        let ghost w3 = ValueView::Int(g@.edges.len() as int);
        let ghost w4 = ValueView::Str(timestamp@);
        metadata.set(String::from_str("version"), Value::Str(String::from_str("1.0")));
        let ghost m1 = metadata@;
        proof {
            assert(m1 == m0.push(("version"@, w1)));
            crate::attrs::lemma_lookup_push_fresh(m0, "version"@, w1);
        }
        metadata.set(String::from_str("node_count"), Value::Int(ncount as i64));
        let ghost m2 = metadata@;
        proof {
            assert(m2 == m1.push(("node_count"@, w2)));
            crate::attrs::lemma_lookup_push_fresh(m1, "node_count"@, w2);
        }
        metadata.set(String::from_str("edge_count"), Value::Int(ecount as i64));
        let ghost m3 = metadata@;
        proof {
            assert(m3 == m2.push(("edge_count"@, w3)));
            crate::attrs::lemma_lookup_push_fresh(m2, "edge_count"@, w3);
        }
        metadata.set(String::from_str("timestamp"), Value::Str(timestamp));
        proof {
            assert(metadata@ =~= codec_metadata(timestamp@, ncount as int, ecount as int));
        }
        let r = SerializableGraph { nodes: snodes, edges: sedges, meta, metadata };
        proof {
            assert(r@.nodes =~= ir_of(g@, timestamp@).nodes);
            assert(r@.edges =~= ir_of(g@, timestamp@).edges);
            assert(r@ =~= ir_of(g@, timestamp@));
        }
        r
    }

    /// Import: rebuild the live graph in passes. Node ids must be unique
    /// (`DuplicateId`) and every referenced endpoint present
    /// (`NodeNotFound`); a failed import leaves nothing behind.
    pub fn to_vertex(&self) -> (r: Result<Vertex, GraphError>)
        ensures
            match r {
                Ok(v) => {
                    &&& ir_valid(self@)
                    &&& v@ == graph_of(self@)
                    &&& v.wf()
                },
                Err(e) => {
                    &&& !ir_valid(self@)
                    &&& ((e == GraphError::DuplicateId && !distinct_ids(graph_of(self@).nodes)) || (
                    e == GraphError::NodeNotFound && distinct_ids(graph_of(self@).nodes)
                        && !edges_resolve(graph_of(self@).nodes, graph_of(self@).edges)))
                },
            },
    {
        let ncount = self.nodes.len();
        let mut nodes: Vec<Node> = Vec::new();
        let mut i: usize = 0;
        while i < ncount
            invariant
                ncount == self.nodes@.len(),
                i <= ncount,
                nodes@.len() == i,
                forall|j: int| 0 <= j < i ==> (#[trigger] nodes@[j]@) =~= graph_of(
                    self@,
                ).nodes[j],
            decreases ncount - i,
        {
            let sn = &self.nodes[i];
            let node = Node {
                id: sn.id.clone(),
                attr: sn.attr.deep_clone(),
                meta: sn.meta.deep_clone(),
            };
            nodes.push(node);
            i += 1;
        }
        let ecount = self.edges.len();
        let mut edges: Vec<Edge> = Vec::new();
        let mut e: usize = 0;
        while e < ecount
            invariant
                ecount == self.edges@.len(),
                e <= ecount,
                edges@.len() == e,
                forall|j: int| 0 <= j < e ==> (#[trigger] edges@[j]@) =~= graph_of(
                    self@,
                ).edges[j],
            decreases ecount - e,
        {
            let se = &self.edges[e];
            let edge = Edge {
                id: Some(se.id.clone()),
                from: se.from_id.clone(),
                to: se.to_id.clone(),
                attr: se.attr.deep_clone(),
                meta: se.meta.deep_clone(),
            };
            edges.push(edge);
            e += 1;
        }
        proof {
            crate::node::lemma_view_nodes_index(nodes@);
            crate::edge::lemma_view_edges_index(edges@);
            assert(crate::node::view_nodes(nodes@) =~= graph_of(self@).nodes);
            assert(crate::edge::view_edges(edges@) =~= graph_of(self@).edges);
        }
        let mut v = match Vertex::from_nodes(nodes, edges) {
            Ok(v) => v,
            Err(e) => {
                proof {
                    assert(!wf_graph(graph_of(self@)));
                }
                return Err(e);
            },
        };
        v.set_meta(self.meta.deep_clone());
        proof {
            assert(v@ =~= graph_of(self@));
        }
        Ok(v)
    }
}

/// Relies on chrono's `Utc::now`: the moment of the call, rendered as an
/// RFC 3339 stamp. Nothing is assumed of the value: it depends on the
/// clock. `Utc::now` itself panics on a machine whose clock reads before
/// the Unix epoch; no input of this wrapper can exclude that.
#[verifier::external_body]
fn now_rfc3339() -> (r: String) {
    chrono::Utc::now().to_rfc3339()
}

impl SerializableGraph {
    /// Export stamped with the present moment.
    pub fn from_vertex_now(g: &Vertex) -> (r: SerializableGraph)
        requires
            g@.nodes.len() <= i64::MAX,
            g@.edges.len() <= i64::MAX,
        ensures
            exists|ts: Seq<char>| r@ == #[trigger] ir_of(g@, ts),
    {
        let stamp = now_rfc3339();
        let ghost ts = stamp@;
        let r = SerializableGraph::from_vertex(g, stamp);
        proof {
            assert(r@ == ir_of(g@, ts));
        }
        r
    }
}

/// Export then import reproduces the graph: every node comes back whole,
/// and every edge comes back with its endpoints, attributes and metadata,
/// carrying its synthesized id.
pub proof fn lemma_ir_round_trip(g: VertexView, ts: Seq<char>)
    requires
        wf_graph(g),
    ensures
        ir_valid(ir_of(g, ts)),
        graph_of(ir_of(g, ts)).nodes == g.nodes,
        graph_of(ir_of(g, ts)).edges.len() == g.edges.len(),
        forall|e: int|
            0 <= e < g.edges.len() ==> {
                let re = #[trigger] graph_of(ir_of(g, ts)).edges[e];
                re.from == g.edges[e].from && re.to == g.edges[e].to && re.attr == g.edges[e].attr
                    && re.meta == g.edges[e].meta && re.id == Some(
                    edge_id_str(e as nat, g.edges[e].from, g.edges[e].to),
                )
            },
        graph_of(ir_of(g, ts)).meta == g.meta,
{
    let sg = ir_of(g, ts);
    let v = graph_of(sg);
    assert(v.nodes =~= g.nodes);
    assert forall|e: int| 0 <= e < g.edges.len() implies {
        let re = #[trigger] graph_of(ir_of(g, ts)).edges[e];
        re.from == g.edges[e].from && re.to == g.edges[e].to && re.attr == g.edges[e].attr
            && re.meta == g.edges[e].meta && re.id == Some(
            edge_id_str(e as nat, g.edges[e].from, g.edges[e].to),
        )
    } by {}
    assert(wf_graph(v)) by {
        assert(distinct_ids(v.nodes));
        assert forall|e: int| 0 <= e < v.edges.len() implies has_id(
            v.nodes,
            (#[trigger] v.edges[e]).from,
        ) && has_id(v.nodes, v.edges[e].to) by {
            assert(v.edges[e].from == g.edges[e].from);
            assert(v.edges[e].to == g.edges[e].to);
            assert(has_id(g.nodes, g.edges[e].from));
            let w1 = choose|w: int|
                0 <= w < g.nodes.len() && (#[trigger] g.nodes[w].id) == g.edges[e].from;
            assert(v.nodes[w1].id == g.edges[e].from);
            let w2 = choose|w: int|
                0 <= w < g.nodes.len() && (#[trigger] g.nodes[w].id) == g.edges[e].to;
            assert(v.nodes[w2].id == g.edges[e].to);
        }
    }
}

} // verus!
