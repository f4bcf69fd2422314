//! Induced subgraphs: a chosen node subset together with every edge of the
//! original graph whose both endpoints lie in that subset.
//!
//! `filter` restricts a graph to an explicit id set; `expand` grows a
//! graph's node set outward into a source graph and returns the induced
//! subgraph of the source over what was found.

use vstd::prelude::*;
use crate::attrs::Attrs;
use crate::edge::{Edge, EdgeView};
use crate::graph::{Vertex, VertexView, has_id, idx_of, distinct_ids, wf_graph, lemma_idx_of_unique};
use crate::node::{Node, NodeView};
use crate::traversal::{strs_view, contains_string, bfs_visit, reach_within};
use crate::value::ValueView;
use crate::GraphError;

verus! {

/// The ids of a node table, in table order.
pub open spec fn ids_of(nodes: Seq<NodeView>) -> Seq<Seq<char>> {
    Seq::new(nodes.len(), |i: int| nodes[i].id)
}

/// The membership predicate of an induced subgraph: both endpoints chosen.
pub open spec fn induced_pred(s: Seq<Seq<char>>) -> spec_fn(EdgeView) -> bool {
    |e: EdgeView| s.contains(e.from) && s.contains(e.to)
}

/// The edges of `g` whose both endpoints lie in `s`, in table order.
pub open spec fn induced_edges(g: VertexView, s: Seq<Seq<char>>) -> Seq<EdgeView> {
    g.edges.filter(induced_pred(s))
}

/// The induced subgraph of `g` over the ids `s`, with the given metadata.
pub open spec fn induced_graph(
    g: VertexView,
    s: Seq<Seq<char>>,
    meta: Seq<(Seq<char>, ValueView)>,
) -> VertexView {
    VertexView {
        nodes: Seq::new(s.len(), |i: int| g.nodes[idx_of(g.nodes, s[i])]),
        edges: induced_edges(g, s),
        meta,
    }
}

/// First-occurrence deduplication, order kept.
pub open spec fn dedup_first(s: Seq<Seq<char>>) -> Seq<Seq<char>>
    decreases s.len(),
{
    if s.len() == 0 {
        s
    } else {
        let pre = dedup_first(s.drop_last());
        if pre.contains(s.last()) {
            pre
        } else {
            pre.push(s.last())
        }
    }
}

pub proof fn lemma_dedup_first_props(s: Seq<Seq<char>>)
    ensures
        dedup_first(s).no_duplicates(),
        forall|v: Seq<char>| #[trigger] dedup_first(s).contains(v) <==> s.contains(v),
    decreases s.len(),
{
    broadcast use vstd::seq_lib::group_seq_properties;

    if s.len() > 0 {
        lemma_dedup_first_props(s.drop_last());
        let pre = dedup_first(s.drop_last());
        assert forall|v: Seq<char>| #[trigger] dedup_first(s).contains(v) implies s.contains(v) by {
            if pre.contains(v) || v == s.last() {
                if s.drop_last().contains(v) {
                    let i = choose|i: int| 0 <= i < s.drop_last().len() && s.drop_last()[i] == v;
                    assert(s[i] == v);
                } else {
                    assert(s[s.len() - 1] == v);
                }
            }
        }
        assert forall|v: Seq<char>| s.contains(v) implies #[trigger] dedup_first(s).contains(v) by {
            let i = choose|i: int| 0 <= i < s.len() && s[i] == v;
            if i < s.len() - 1 {
                assert(s.drop_last()[i] == v);
                assert(pre.contains(v));
                if !pre.contains(s.last()) {
                    let j = choose|j: int| 0 <= j < pre.len() && pre[j] == v;
                    assert(dedup_first(s)[j] == v);
                }
            } else {
                if pre.contains(s.last()) {
                } else {
                    assert(dedup_first(s)[pre.len() as int] == v);
                }
            }
        }
    }
}

pub proof fn lemma_filter_take_step<A>(s: Seq<A>, pred: spec_fn(A) -> bool, e: int)
    requires
        0 <= e < s.len(),
    ensures
        s.take(e + 1).filter(pred) == if pred(s[e]) {
            s.take(e).filter(pred).push(s[e])
        } else {
            s.take(e).filter(pred)
        },
{
    reveal(Seq::filter);
    assert(s.take(e + 1).drop_last() =~= s.take(e));
    assert(s.take(e + 1).last() == s[e]);
}

pub proof fn lemma_filter_all<A>(s: Seq<A>, pred: spec_fn(A) -> bool)
    requires
        forall|i: int| 0 <= i < s.len() ==> pred(#[trigger] s[i]),
    ensures
        s.filter(pred) == s,
    decreases s.len(),
{
    reveal(Seq::filter);
    if s.len() > 0 {
        lemma_filter_all(s.drop_last(), pred);
        assert(s.filter(pred) =~= s);
    }
}

/// Build the induced subgraph of `g` over the distinct, present ids in
/// `ids`, carrying the given metadata. Nodes are copied in the order of
/// `ids`; edges keep the edge-table order of `g`.
pub(crate) fn induced_subgraph(g: &Vertex, ids: &Vec<String>, meta: Attrs) -> (r: Vertex)
    requires
        g.wf(),
        strs_view(ids@).no_duplicates(),
        forall|i: int| 0 <= i < ids@.len() ==> has_id(g@.nodes, #[trigger] strs_view(ids@)[i]),
    ensures
        r@ == induced_graph(g@, strs_view(ids@), meta@),
        r.wf(),
{
    broadcast use vstd::seq_lib::group_seq_properties;

    let ghost s = strs_view(ids@);
    let n = ids.len();
    let mut nodes: Vec<Node> = Vec::new();
    let mut i: usize = 0;
    while i < n
        invariant
            g.wf(),
            s == strs_view(ids@),
            n == ids@.len(),
            i <= n,
            forall|j: int| 0 <= j < n ==> has_id(g@.nodes, #[trigger] s[j]),
            nodes@.len() == i,
            forall|j: int|
                0 <= j < i ==> #[trigger] nodes@[j]@ == g@.nodes[idx_of(g@.nodes, s[j])],
        decreases n - i,
    {
        let idx = match g.node_index(&ids[i]) {
            Some(idx) => idx,
            None => {
                proof {
                    assert(has_id(g@.nodes, s[i as int]));
                    assert(false);
                }
                0
            },
        };
        proof {
            lemma_idx_of_unique(g@.nodes, s[i as int], idx as int);
        }
        nodes.push(g.node_at(idx).deep_clone());
        i += 1;
    }
    let e_len = g.edge_count();
    let mut edges: Vec<Edge> = Vec::new();
    let mut e: usize = 0;
    proof {
        assert(g@.edges.take(0).filter(induced_pred(s)) =~= Seq::<EdgeView>::empty()) by {
            reveal(Seq::filter);
        }
        crate::edge::lemma_view_edges_index(edges@);
    }
    while e < e_len
        invariant
            g.wf(),
            s == strs_view(ids@),
            e_len == g@.edges.len(),
            e <= e_len,
            crate::edge::view_edges(edges@) == g@.edges.take(e as int).filter(induced_pred(s)),
        decreases e_len - e,
    {
        let ghost pre = crate::edge::view_edges(edges@);
        let edge = g.edge_at(e);
        let keep_from = contains_string(ids, &edge.from);
        let keep_to = contains_string(ids, &edge.to);
        proof {
            lemma_filter_take_step(g@.edges, induced_pred(s), e as int);
        }
        if keep_from && keep_to {
            let ghost elen = edges@.len();
            let ghost eseq0 = edges@;
            edges.push(edge.deep_clone());
            proof {
                crate::edge::lemma_view_edges_index(eseq0);
                crate::edge::lemma_view_edges_index(edges@);
                assert(crate::edge::view_edges(edges@) =~= pre.push(edges@[elen as int]@));
            }
        }
        e += 1;
    }
    proof {
        assert(g@.edges.take(e_len as int) =~= g@.edges);
    }
    let r = Vertex::from_parts(nodes, edges, meta);
    proof {
        crate::node::lemma_view_nodes_index(nodes@);
        assert(r@.nodes =~= induced_graph(g@, s, meta@).nodes);
        assert(r@ =~= induced_graph(g@, s, meta@));
        // well-formedness of the result
        assert forall|a: int, b: int|
            0 <= a < b < r@.nodes.len() implies (#[trigger] r@.nodes[a].id) != (
        #[trigger] r@.nodes[b].id) by {
            lemma_id_at(g@.nodes, s, a);
            lemma_id_at(g@.nodes, s, b);
        }
        assert forall|k: int| 0 <= k < r@.edges.len() implies has_id(
            r@.nodes,
            (#[trigger] r@.edges[k]).from,
        ) && has_id(r@.nodes, r@.edges[k].to) by {
            broadcast use vstd::seq_lib::group_filter_ensures;
            assert(induced_pred(s)(r@.edges[k]));
            let fi = choose|fi: int| 0 <= fi < s.len() && s[fi] == r@.edges[k].from;
            lemma_id_at(g@.nodes, s, fi);
            assert(r@.nodes[fi].id == r@.edges[k].from);
            let ti = choose|ti: int| 0 <= ti < s.len() && s[ti] == r@.edges[k].to;
            lemma_id_at(g@.nodes, s, ti);
            assert(r@.nodes[ti].id == r@.edges[k].to);
        }
    }
    r
}

/// In an induced subgraph the node at position `i` carries the chosen id.
proof fn lemma_id_at(nodes: Seq<NodeView>, s: Seq<Seq<char>>, i: int)
    requires
        0 <= i < s.len(),
        has_id(nodes, s[i]),
    ensures
        nodes[idx_of(nodes, s[i])].id == s[i],
        0 <= idx_of(nodes, s[i]) < nodes.len(),
{
    let w = choose|w: int| 0 <= w < nodes.len() && (#[trigger] nodes[w].id) == s[i];
    assert(nodes[w].id == s[i]);
}

impl Vertex {
    /// The induced subgraph over exactly the given id set; `NotFound` when
    /// any requested id is absent. Duplicates in `ids` are ignored; nodes
    /// come in first-occurrence order.
    pub fn filter(&self, ids: &Vec<String>) -> (r: Result<Vertex, GraphError>)
        requires
            self.wf(),
        ensures
            match r {
                Ok(h) => {
                    &&& forall|i: int|
                        0 <= i < ids@.len() ==> has_id(self@.nodes, #[trigger] strs_view(ids@)[i])
                    &&& h@ == induced_graph(
                        self@,
                        dedup_first(strs_view(ids@)),
                        Seq::<(Seq<char>, ValueView)>::empty(),
                    )
                    &&& h.wf()
                },
                Err(e) => {
                    &&& e == GraphError::NotFound
                    &&& exists|i: int|
                        0 <= i < ids@.len() && !has_id(self@.nodes, #[trigger] strs_view(ids@)[i])
                },
            },
    {
        broadcast use vstd::seq_lib::group_seq_properties;

        let n = ids.len();
        let mut i: usize = 0;
        while i < n
            invariant
                n == ids@.len(),
                i <= n,
                forall|j: int| 0 <= j < i ==> has_id(self@.nodes, #[trigger] strs_view(ids@)[j]),
        decreases n - i,
        {
            if !self.has_node(&ids[i]) {
                proof {
                    assert(strs_view(ids@)[i as int] == ids@[i as int]@);
                    assert(!has_id(self@.nodes, strs_view(ids@)[i as int]));
                }
                return Err(GraphError::NotFound);
            }
            i += 1;
        }
        let mut uniq: Vec<String> = Vec::new();
        let mut i: usize = 0;
        proof {
            assert(dedup_first(strs_view(ids@).take(0)) =~= Seq::<Seq<char>>::empty());
            assert(strs_view(uniq@) =~= Seq::<Seq<char>>::empty());
        }
        while i < n
            invariant
                n == ids@.len(),
                i <= n,
                forall|j: int| 0 <= j < n ==> has_id(self@.nodes, #[trigger] strs_view(ids@)[j]),
                strs_view(uniq@) == dedup_first(strs_view(ids@).take(i as int)),
            decreases n - i,
        {
            let ghost pre = strs_view(uniq@);
            proof {
                assert(strs_view(ids@).take(i as int + 1).drop_last() =~= strs_view(ids@).take(
                    i as int,
                ));
                assert(strs_view(ids@).take(i as int + 1).last() == strs_view(ids@)[i as int]);
            }
            if !contains_string(&uniq, &ids[i]) {
                let ghost ulen = uniq@.len();
                uniq.push(ids[i].clone());
                proof {
                    crate::traversal::lemma_strs_view_push(
                        uniq@.take(ulen as int),
                        uniq@[ulen as int],
                    );
                    assert(uniq@.take(ulen as int) =~= uniq@.drop_last());
                    assert(strs_view(uniq@) =~= pre.push(strs_view(ids@)[i as int]));
                }
            }
            i += 1;
        }
        proof {
            assert(strs_view(ids@).take(n as int) =~= strs_view(ids@));
            lemma_dedup_first_props(strs_view(ids@));
            assert forall|j: int| 0 <= j < strs_view(uniq@).len() implies has_id(
                self@.nodes,
                #[trigger] strs_view(uniq@)[j],
            ) by {
                let v = strs_view(uniq@)[j];
                assert(strs_view(uniq@).contains(v));
                assert(strs_view(ids@).contains(v));
                let w = choose|w: int|
                    0 <= w < strs_view(ids@).len() && strs_view(ids@)[w] == v;
            }
        }
        Ok(induced_subgraph(self, &uniq, Attrs::new()))
    }
}

/// Membership in the expansion of `rcv` into `src`: within `d` qualifying
/// steps of some node of `rcv` that `src` also holds.
pub open spec fn expand_found(rcv: VertexView, src: VertexView, v: Seq<char>, d: nat) -> bool {
    exists|u: Seq<char>|
        #[trigger] ids_of(rcv.nodes).contains(u) && has_id(src.nodes, u) && reach_within(
            src,
            None,
            u,
            v,
            d,
        )
}

/// The predicate "this id is present in the source graph".
pub open spec fn present_in(src: VertexView) -> spec_fn(Seq<char>) -> bool {
    |id: Seq<char>| has_id(src.nodes, id)
}

impl Vertex {
    /// Grow this graph's node set outward into `source`, which holds the
    /// full data: every node within `depth` qualifying steps (default 1) of
    /// a node of this graph that `source` also holds is collected, and the
    /// induced subgraph of `source` over the collected set is returned.
    /// With depth zero the collected set is exactly this graph's node set
    /// restricted to `source`, in this graph's node order.
    pub fn expand(&self, source: &Vertex, depth: Option<usize>) -> (r: Vertex)
        requires
            self.wf(),
            source.wf(),
        ensures
            ({
                let d = match depth {
                    Some(d) => d as nat,
                    None => 1,
                };
                &&& forall|v: Seq<char>|
                    #[trigger] ids_of(r@.nodes).contains(v) <==> expand_found(
                        self@,
                        source@,
                        v,
                        d,
                    )
                &&& r@ == induced_graph(
                    source@,
                    ids_of(r@.nodes),
                    Seq::<(Seq<char>, ValueView)>::empty(),
                )
                &&& r.wf()
                &&& (d == 0 ==> ids_of(r@.nodes) == ids_of(self@.nodes).filter(
                    present_in(source@),
                ))
            }),
    {
        broadcast use vstd::seq_lib::group_seq_properties;

        let d: usize = match depth {
            Some(d) => d,
            None => 1,
        };
        let ghost rids = ids_of(self@.nodes);
        let mut discovered: Vec<String> = Vec::new();
        let n = self.node_count();
        let mut i: usize = 0;
        proof {
            assert(rids.take(0).filter(present_in(source@)) =~= Seq::<Seq<char>>::empty()) by {
                reveal(Seq::filter);
            }
        }
        while i < n
            invariant
                self.wf(),
                source.wf(),
                rids == ids_of(self@.nodes),
                n == self@.nodes.len(),
                i <= n,
                strs_view(discovered@).no_duplicates(),
                forall|j: int| 0 <= j < discovered@.len() ==> has_id(
                    source@.nodes,
                    #[trigger] strs_view(discovered@)[j],
                ),
                forall|v: Seq<char>|
                    #[trigger] strs_view(discovered@).contains(v) <==> exists|u: Seq<char>|
                        #[trigger] rids.take(i as int).contains(u) && has_id(source@.nodes, u)
                            && reach_within(source@, None, u, v, d as nat),
                d == 0 ==> strs_view(discovered@) == rids.take(i as int).filter(
                    present_in(source@),
                ),
            decreases n - i,
        {
            let ghost disc0 = strs_view(discovered@);
            let node = self.node_at(i);
            let ghost u = node@.id;
            proof {
                assert(rids[i as int] == u);
                lemma_filter_take_step(rids, present_in(source@), i as int);
                assert(rids.take(i as int + 1).drop_last() =~= rids.take(i as int));
            }
            if source.has_node(&node.id) {
                let r = bfs_visit(source, &node.id, Some(d), None);
                let order = r.0;
                let m = order.len();
                proof {
                    if d == 0 {
                        // breadth-first order at depth zero is the start node alone
                        assert forall|q: int|
                            0 <= q < strs_view(order@).len() implies strs_view(order@)[q] == u by {
                            assert(strs_view(order@).contains(strs_view(order@)[q]));
                            assert(reach_within(source@, None, u, strs_view(order@)[q], 0));
                        }
                        if strs_view(order@).len() > 1 {
                            assert(strs_view(order@)[0] == u && strs_view(order@)[1] == u);
                            assert(false);
                        }
                        assert(strs_view(order@) =~= seq![u]);
                        if disc0.contains(u) {
                            let u0 = choose|u0: Seq<char>|
                                #[trigger] rids.take(i as int).contains(u0) && has_id(
                                    source@.nodes,
                                    u0,
                                ) && reach_within(source@, None, u0, u, 0);
                            assert(u0 == u);
                            let w = choose|w: int|
                                0 <= w < rids.take(i as int).len() && #[trigger] rids.take(
                                    i as int,
                                )[w] == u;
                            assert(rids[w] == rids[i as int]);
                            assert(self@.nodes[w].id == self@.nodes[i as int].id);
                            assert(false);
                        }
                    }
                }
                let mut j: usize = 0;
                while j < m
                    invariant
                        self.wf(),
                        source.wf(),
                        rids == ids_of(self@.nodes),
                        i < n,
                        n == self@.nodes.len(),
                        m == order@.len(),
                        j <= m,
                        u == rids[i as int],
                        has_id(source@.nodes, u),
                        strs_view(order@).no_duplicates(),
                        order@.len() > 0 && order@[0]@ == u,
                        forall|q: int| 0 <= q < order@.len() ==> has_id(
                            source@.nodes,
                            #[trigger] strs_view(order@)[q],
                        ),
                        forall|w: Seq<char>|
                            #[trigger] strs_view(order@).contains(w) <==> reach_within(
                                source@,
                                None,
                                u,
                                w,
                                d as nat,
                            ),
                        strs_view(discovered@).no_duplicates(),
                        forall|q: int| 0 <= q < discovered@.len() ==> has_id(
                            source@.nodes,
                            #[trigger] strs_view(discovered@)[q],
                        ),
                        forall|v: Seq<char>|
                            #[trigger] strs_view(discovered@).contains(v) <==> (disc0.contains(v)
                                || strs_view(order@).take(j as int).contains(v)),
                        forall|v: Seq<char>|
                            #[trigger] disc0.contains(v) <==> exists|u0: Seq<char>|
                                #[trigger] rids.take(i as int).contains(u0) && has_id(
                                    source@.nodes,
                                    u0,
                                ) && reach_within(source@, None, u0, v, d as nat),
                        d == 0 ==> m == 1 && !disc0.contains(u) && strs_view(discovered@) == (
                        if j == 0 {
                            disc0
                        } else {
                            disc0.push(u)
                        }),
                    decreases m - j,
                {
                    let ghost oj = strs_view(order@)[j as int];
                    proof {
                        assert(strs_view(order@).take(j as int + 1) =~= strs_view(order@).take(
                            j as int,
                        ).push(oj));
                        assert forall|v: Seq<char>| #[trigger]
                            strs_view(order@).take(j as int + 1).contains(v) <==> (strs_view(
                            order@,
                        ).take(j as int).contains(v) || v == oj) by {
                            crate::traversal::lemma_push_contains(
                                strs_view(order@).take(j as int),
                                oj,
                                v,
                            );
                        }
                    }
                    if !contains_string(&discovered, &order[j]) {
                        let ghost dpre = strs_view(discovered@);
                        let ghost dlen = discovered@.len();
                        discovered.push(order[j].clone());
                        proof {
                            crate::traversal::lemma_strs_view_push(
                                discovered@.drop_last(),
                                discovered@[dlen as int],
                            );
                            assert(discovered@.drop_last() =~= discovered@.take(dlen as int));
                            assert(strs_view(discovered@) =~= dpre.push(oj));
                            assert(strs_view(order@).contains(oj));
                            assert(has_id(source@.nodes, oj));
                            assert forall|v: Seq<char>| #[trigger]
                                strs_view(discovered@).contains(v) <==> (dpre.contains(v) || v
                                == oj) by {
                                crate::traversal::lemma_push_contains(dpre, oj, v);
                            }
                        }
                    } else {
                        proof {
                            assert(strs_view(discovered@).contains(oj));
                        }
                    }
                    j += 1;
                }
                proof {
                    assert(strs_view(order@).take(m as int) =~= strs_view(order@));
                    // fold this node's reach into the prefix characterization
                    assert forall|v: Seq<char>| #[trigger]
                        strs_view(discovered@).contains(v) implies (exists|u0: Seq<char>|
                        #[trigger] rids.take(i as int + 1).contains(u0) && has_id(
                            source@.nodes,
                            u0,
                        ) && reach_within(source@, None, u0, v, d as nat)) by {
                        if disc0.contains(v) {
                            let u0 = choose|u0: Seq<char>|
                                #[trigger] rids.take(i as int).contains(u0) && has_id(
                                    source@.nodes,
                                    u0,
                                ) && reach_within(source@, None, u0, v, d as nat);
                            assert(rids.take(i as int + 1).contains(u0)) by {
                                let w = choose|w: int|
                                    0 <= w < rids.take(i as int).len() && #[trigger] rids.take(
                                        i as int,
                                    )[w] == u0;
                                assert(rids.take(i as int + 1)[w] == u0);
                            }
                        } else {
                            assert(strs_view(order@).contains(v));
                            assert(rids.take(i as int + 1)[i as int] == u);
                            assert(rids.take(i as int + 1).contains(u));
                        }
                    }
                    assert forall|v: Seq<char>|
                        (exists|u0: Seq<char>|
                            #[trigger] rids.take(i as int + 1).contains(u0) && has_id(
                                source@.nodes,
                                u0,
                            ) && reach_within(source@, None, u0, v, d as nat)) implies #[trigger]
                        strs_view(discovered@).contains(v) by {
                        let u0 = choose|u0: Seq<char>|
                            #[trigger] rids.take(i as int + 1).contains(u0) && has_id(
                                source@.nodes,
                                u0,
                            ) && reach_within(source@, None, u0, v, d as nat);
                        let w = choose|w: int|
                            0 <= w < rids.take(i as int + 1).len() && #[trigger] rids.take(
                                i as int + 1,
                            )[w] == u0;
                        if w < i as int {
                            assert(rids.take(i as int)[w] == u0);
                            assert(rids.take(i as int).contains(u0));
                            assert(disc0.contains(v));
                        } else {
                            assert(u0 == u);
                            assert(strs_view(order@).contains(v));
                        }
                    }
                    if d == 0 {
                        assert(strs_view(discovered@) == disc0.push(u));
                        assert(strs_view(discovered@) == rids.take(i as int + 1).filter(
                            present_in(source@),
                        ));
                    }
                }
            } else {
                proof {
                    assert(!has_id(source@.nodes, u));
                    assert forall|v: Seq<char>| #[trigger]
                        strs_view(discovered@).contains(v) implies (exists|u0: Seq<char>|
                        #[trigger] rids.take(i as int + 1).contains(u0) && has_id(
                            source@.nodes,
                            u0,
                        ) && reach_within(source@, None, u0, v, d as nat)) by {
                        let u0 = choose|u0: Seq<char>|
                            #[trigger] rids.take(i as int).contains(u0) && has_id(
                                source@.nodes,
                                u0,
                            ) && reach_within(source@, None, u0, v, d as nat);
                        let w = choose|w: int|
                            0 <= w < rids.take(i as int).len() && rids.take(i as int)[w] == u0;
                        assert(rids.take(i as int + 1)[w] == u0);
                        assert(rids.take(i as int + 1).contains(u0));
                    }
                    assert forall|v: Seq<char>|
                        (exists|u0: Seq<char>|
                            #[trigger] rids.take(i as int + 1).contains(u0) && has_id(
                                source@.nodes,
                                u0,
                            ) && reach_within(source@, None, u0, v, d as nat)) implies #[trigger]
                        strs_view(discovered@).contains(v) by {
                        let u0 = choose|u0: Seq<char>|
                            #[trigger] rids.take(i as int + 1).contains(u0) && has_id(
                                source@.nodes,
                                u0,
                            ) && reach_within(source@, None, u0, v, d as nat);
                        let w = choose|w: int|
                            0 <= w < rids.take(i as int + 1).len() && #[trigger] rids.take(
                                i as int + 1,
                            )[w] == u0;
                        if w < i as int {
                            assert(rids.take(i as int)[w] == u0);
                            assert(rids.take(i as int).contains(u0));
                        } else {
                            assert(u0 == u);
                            assert(false);
                        }
                    }
                }
            }
            i += 1;
        }
        proof {
            assert(rids.take(n as int) =~= rids);
        }
        let r = induced_subgraph(source, &discovered, Attrs::new());
        proof {
            assert(ids_of(r@.nodes) =~= strs_view(discovered@)) by {
                assert forall|q: int| 0 <= q < strs_view(discovered@).len() implies r@.nodes[q].id
                    == strs_view(discovered@)[q] by {
                    lemma_id_at(source@.nodes, strs_view(discovered@), q);
                }
            }
            assert(r@ == induced_graph(
                source@,
                ids_of(r@.nodes),
                Seq::<(Seq<char>, ValueView)>::empty(),
            ));
        }
        r
    }
}

/// Expanding by depth zero reproduces the receiver: a graph that is the
/// induced subgraph of `source` over its own node ids comes back from a
/// zero-depth expansion with identical node and edge content.
pub proof fn lemma_expand_zero(
    src: VertexView,
    s: Seq<Seq<char>>,
    meta: Seq<(Seq<char>, ValueView)>,
    meta2: Seq<(Seq<char>, ValueView)>,
)
    requires
        wf_graph(src),
        s.no_duplicates(),
        forall|i: int| 0 <= i < s.len() ==> has_id(src.nodes, #[trigger] s[i]),
    ensures
        ({
            let rcv = induced_graph(src, s, meta);
            let r = induced_graph(src, ids_of(rcv.nodes).filter(present_in(src)), meta2);
            r.nodes == rcv.nodes && r.edges == rcv.edges
        }),
{
    let rcv = induced_graph(src, s, meta);
    assert forall|i: int| 0 <= i < s.len() implies (#[trigger] rcv.nodes[i]).id == s[i] by {
        lemma_id_at(src.nodes, s, i);
    }
    assert(ids_of(rcv.nodes) =~= s);
    assert forall|i: int| 0 <= i < s.len() implies present_in(src)(#[trigger] s[i]) by {}
    lemma_filter_all(s, present_in(src));
    let r = induced_graph(src, s, meta2);
    assert(r.nodes =~= rcv.nodes);
}

/// Restricting an induced subgraph to its own id set changes nothing: the
/// `filter` operation is idempotent on node and edge content.
pub proof fn lemma_filter_idempotent(
    g: VertexView,
    s: Seq<Seq<char>>,
    meta: Seq<(Seq<char>, ValueView)>,
)
    requires
        wf_graph(g),
        s.no_duplicates(),
        forall|i: int| 0 <= i < s.len() ==> has_id(g.nodes, #[trigger] s[i]),
    ensures
        induced_graph(induced_graph(g, s, meta), s, meta) == induced_graph(g, s, meta),
{
    let h = induced_graph(g, s, meta);
    assert forall|i: int| 0 <= i < s.len() implies (#[trigger] h.nodes[i]).id == s[i] by {
        lemma_id_at(g.nodes, s, i);
    }
    assert forall|i: int| 0 <= i < s.len() implies has_id(h.nodes, #[trigger] s[i]) by {
        lemma_id_at(g.nodes, s, i);
        assert(h.nodes[i].id == s[i]);
    }
    let h2 = induced_graph(h, s, meta);
    assert forall|i: int| 0 <= i < s.len() implies #[trigger] h2.nodes[i] == h.nodes[i] by {
        lemma_id_at(g.nodes, s, i);
        assert(h.nodes[i].id == s[i]);
        assert forall|a: int, b: int|
            0 <= a < b < h.nodes.len() implies (#[trigger] h.nodes[a].id) != (
        #[trigger] h.nodes[b].id) by {
            lemma_id_at(g.nodes, s, a);
            lemma_id_at(g.nodes, s, b);
        }
        lemma_idx_of_unique(h.nodes, s[i], i);
    }
    assert(h2.nodes =~= h.nodes);
    // the induced edges already connect chosen endpoints only
    broadcast use vstd::seq_lib::group_filter_ensures;
    assert forall|i: int| 0 <= i < h.edges.len() implies induced_pred(s)(#[trigger] h.edges[i]) by {}
    lemma_filter_all(h.edges, induced_pred(s));
    assert(h2 =~= h);
}

} // verus!
