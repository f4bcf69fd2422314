//! Shortest paths and the layer-synchronous breadth-first traversal.
//!
//! `shortest_path_bfs` returns the induced subgraph over one shortest
//! path; its node count states the breadth-first distance exactly.
//! `parallel_bfs` processes the frontier one whole layer at a time: the
//! per-node successor collection (`node_successors`) is independent work
//! that a worker pool may fan out, and `merge_layer` folds the collected
//! lists in with a test-and-insert that admits no double discovery.

use vstd::prelude::*;
use crate::attrs::Attrs;
use crate::graph::{Vertex, VertexView, has_id, idx_of, lemma_idx_of_unique};
use crate::subgraph::{induced_graph, induced_subgraph, ids_of};
use crate::traversal::{strs_view, contains_string, bfs_visit, filter_view, found_within,
    reach_within, reachable, step, succ_of, step_upto, lemma_step_upto_full, lemma_reach_mono,
    lemma_reach_fixpoint, lemma_strs_view_push, lemma_strs_view_add, lemma_push_contains,
    lemma_concat_contains, lemma_distinct_ids_bound};
use crate::algorithms::{nodelist_meta, traversal_result};
use crate::value::ValueView;
use crate::GraphError;

verus! {

/// Whether one qualifying edge runs from `a` to `b`.
fn has_step(g: &Vertex, a: &String, b: &String) -> (r: bool)
    ensures
        r == step(g@, None::<Seq<(Seq<char>, ValueView)>>, a@, b@),
{
    let ghost f = None::<Seq<(Seq<char>, ValueView)>>;
    let n = g.edge_count();
    let mut e: usize = 0;
    while e < n
        invariant
            f == None::<Seq<(Seq<char>, ValueView)>>,
            n == g@.edges.len(),
            e <= n,
            !step_upto(g@, f, e as int, a@, b@),
        decreases n - e,
    {
        let edge = g.edge_at(e);
        if edge.from.eq(a) && edge.to.eq(b) {
            proof {
                assert(g@.edges[e as int].from == a@ && g@.edges[e as int].to == b@
                    && crate::traversal::edge_matches(g@.edges[e as int], f));
                assert(step(g@, f, a@, b@));
            }
            return true;
        }
        proof {
            if step_upto(g@, f, e as int + 1, a@, b@) {
                let we = choose|we: int|
                    0 <= we < e + 1 && we < g@.edges.len() && (#[trigger] g@.edges[we]).from == a@
                        && g@.edges[we].to == b@;
                assert(we == e as int || step_upto(g@, f, e as int, a@, b@));
                assert(false);
            }
        }
        e += 1;
    }
    proof {
        lemma_step_upto_full(g@, f, a@, b@);
    }
    false
}

/// The successor ids of `id` along the edge table, in table order; an id
/// occurs once for each edge that reaches it. This is the independent
/// per-node work of a layer, safe to fan out to a worker pool.
pub fn node_successors(g: &Vertex, id: &String) -> (r: Vec<String>)
    ensures
        forall|v: Seq<char>|
            #[trigger] strs_view(r@).contains(v) <==> step(
                g@,
                None::<Seq<(Seq<char>, ValueView)>>,
                id@,
                v,
            ),
        forall|i: int| 0 <= i < r@.len() ==> step(
            g@,
            None::<Seq<(Seq<char>, ValueView)>>,
            id@,
            #[trigger] strs_view(r@)[i],
        ),
{
    let ghost f = None::<Seq<(Seq<char>, ValueView)>>;
    let n = g.edge_count();
    let mut out: Vec<String> = Vec::new();
    let mut e: usize = 0;
    while e < n
        invariant
            f == None::<Seq<(Seq<char>, ValueView)>>,
            n == g@.edges.len(),
            e <= n,
            forall|v: Seq<char>|
                #[trigger] strs_view(out@).contains(v) <==> step_upto(g@, f, e as int, id@, v),
            forall|i: int| 0 <= i < out@.len() ==> step(g@, f, id@, #[trigger] strs_view(out@)[i]),
        decreases n - e,
    {
        let ghost pre = strs_view(out@);
        let edge = g.edge_at(e);
        if edge.from.eq(id) {
            let ghost olen = out@.len();
            out.push(edge.to.clone());
            proof {
                lemma_strs_view_push(out@.drop_last(), out@[olen as int]);
                assert(out@.drop_last() =~= out@.take(olen as int));
                assert(strs_view(out@) =~= pre.push(edge@.to));
                assert(g@.edges[e as int].from == id@ && g@.edges[e as int].to == edge@.to
                    && crate::traversal::edge_matches(g@.edges[e as int], f));
                assert(step(g@, f, id@, edge@.to));
                assert(step_upto(g@, f, e as int + 1, id@, edge@.to));
                assert forall|v: Seq<char>|
                    #[trigger] strs_view(out@).contains(v) <==> step_upto(
                        g@,
                        f,
                        e as int + 1,
                        id@,
                        v,
                    ) by {
                    lemma_push_contains(pre, edge@.to, v);
                    if v != edge@.to && step_upto(g@, f, e as int + 1, id@, v) {
                        let we = choose|we: int|
                            0 <= we < e + 1 && we < g@.edges.len() && (#[trigger] g@.edges[we]).from
                                == id@ && g@.edges[we].to == v;
                        assert(we < e);
                        assert(step_upto(g@, f, e as int, id@, v));
                    }
                }
            }
        } else {
            proof {
                assert forall|v: Seq<char>|
                    #[trigger] strs_view(out@).contains(v) <==> step_upto(
                        g@,
                        f,
                        e as int + 1,
                        id@,
                        v,
                    ) by {
                    if step_upto(g@, f, e as int + 1, id@, v) {
                        let we = choose|we: int|
                            0 <= we < e + 1 && we < g@.edges.len() && (#[trigger] g@.edges[we]).from
                                == id@ && g@.edges[we].to == v;
                        assert(we < e);
                        assert(step_upto(g@, f, e as int, id@, v));
                    }
                }
            }
        }
        e += 1;
    }
    proof {
        assert forall|v: Seq<char>|
            #[trigger] strs_view(out@).contains(v) <==> step(g@, f, id@, v) by {
            lemma_step_upto_full(g@, f, id@, v);
        }
    }
    out
}

/// The views of the inner lists, elementwise.
pub open spec fn lists_view(ls: Seq<Vec<String>>) -> Seq<Seq<Seq<char>>> {
    Seq::new(ls.len(), |i: int| strs_view(ls[i]@))
}

/// Fold one layer's collected successor lists into the visited set: every
/// id in some list that is not yet visited is appended to `visited`, and
/// returned, exactly once. Testing membership and inserting happen as one
/// step, so no id is admitted twice however the lists overlap.
pub fn merge_layer(visited: &mut Vec<String>, lists: &Vec<Vec<String>>) -> (next: Vec<String>)
    requires
        strs_view(old(visited)@).no_duplicates(),
    ensures
        final(visited)@ == old(visited)@ + next@,
        strs_view(final(visited)@).no_duplicates(),
        forall|v: Seq<char>|
            #[trigger] strs_view(next@).contains(v) <==> (!strs_view(old(visited)@).contains(v)
                && exists|j: int|
                0 <= j < lists@.len() && #[trigger] lists_view(lists@)[j].contains(v)),
{
    broadcast use vstd::seq_lib::group_seq_properties;

    let ghost vis0 = visited@;
    let mut next: Vec<String> = Vec::new();
    let n = lists.len();
    let mut j: usize = 0;
    while j < n
        invariant
            n == lists@.len(),
            j <= n,
            visited@ == vis0 + next@,
            strs_view(vis0).no_duplicates(),
            strs_view(visited@).no_duplicates(),
            forall|v: Seq<char>|
                #[trigger] strs_view(next@).contains(v) <==> (!strs_view(vis0).contains(v)
                    && exists|q: int|
                    0 <= q < j && #[trigger] lists_view(lists@)[q].contains(v)),
        decreases n - j,
    {
        let row = &lists[j];
        let m = row.len();
        let mut i: usize = 0;
        while i < m
            invariant
                n == lists@.len(),
                j < n,
                m == row@.len(),
                i <= m,
                row@ == lists@[j as int]@,
                visited@ == vis0 + next@,
                strs_view(vis0).no_duplicates(),
                strs_view(visited@).no_duplicates(),
                forall|v: Seq<char>|
                    #[trigger] strs_view(next@).contains(v) <==> (!strs_view(vis0).contains(v) && (
                    (exists|q: int| 0 <= q < j && #[trigger] lists_view(lists@)[q].contains(v))
                        || strs_view(row@).take(i as int).contains(v))),
            decreases m - i,
        {
            let ghost w = strs_view(row@)[i as int];
            proof {
                assert(strs_view(row@).take(i as int + 1) =~= strs_view(row@).take(i as int).push(
                    w,
                ));
                assert forall|v: Seq<char>| #[trigger]
                    strs_view(row@).take(i as int + 1).contains(v) <==> (strs_view(row@).take(
                        i as int,
                    ).contains(v) || v == w) by {
                    lemma_push_contains(strs_view(row@).take(i as int), w, v);
                }
            }
            if !contains_string(visited, &row[i]) {
                let ghost npre = strs_view(next@);
                let ghost vpre = strs_view(visited@);
                let ghost vlen = visited@.len();
                let ghost nlen = next@.len();
                visited.push(row[i].clone());
                next.push(row[i].clone());
                proof {
                    lemma_strs_view_push(visited@.drop_last(), visited@[vlen as int]);
                    assert(visited@.drop_last() =~= visited@.take(vlen as int));
                    assert(strs_view(visited@) =~= vpre.push(w));
                    lemma_strs_view_push(next@.drop_last(), next@[nlen as int]);
                    assert(next@.drop_last() =~= next@.take(nlen as int));
                    assert(strs_view(next@) =~= npre.push(w));
                    assert(visited@ =~= vis0 + next@);
                    assert forall|v: Seq<char>| #[trigger]
                        strs_view(next@).contains(v) <==> (npre.contains(v) || v == w) by {
                        lemma_push_contains(npre, w, v);
                    }
                    assert(!strs_view(vis0).contains(w)) by {
                        if strs_view(vis0).contains(w) {
                            let q = choose|q: int|
                                0 <= q < strs_view(vis0).len() && strs_view(vis0)[q] == w;
                            assert(vpre[q] == w);
                            assert(vpre.contains(w));
                            assert(false);
                        }
                    }
                    assert(lists_view(lists@)[j as int].contains(w)) by {
                        assert(lists_view(lists@)[j as int] == strs_view(row@));
                        assert(strs_view(row@)[i as int] == w);
                    }
                }
            } else {
                proof {
                    assert(strs_view(visited@).contains(w));
                    lemma_concat_contains(strs_view(vis0), strs_view(next@), w);
                    assert(strs_view(visited@) =~= strs_view(vis0) + strs_view(next@)) by {
                        lemma_strs_view_add(vis0, next@);
                    }
                }
            }
            i += 1;
        }
        proof {
            assert(strs_view(row@).take(m as int) =~= strs_view(row@));
            assert forall|v: Seq<char>| #[trigger]
                strs_view(next@).contains(v) <==> (!strs_view(vis0).contains(v) && exists|q: int|
                0 <= q < j + 1 && #[trigger] lists_view(lists@)[q].contains(v)) by {
                if strs_view(next@).contains(v) {
                    if strs_view(row@).contains(v) {
                        assert(lists_view(lists@)[j as int].contains(v));
                    }
                }
                if !strs_view(vis0).contains(v) && exists|q: int|
                    0 <= q < j + 1 && #[trigger] lists_view(lists@)[q].contains(v) {
                    let q = choose|q: int|
                        0 <= q < j + 1 && #[trigger] lists_view(lists@)[q].contains(v);
                    if q == j as int {
                        assert(strs_view(row@).contains(v));
                    }
                }
            }
        }
        j += 1;
    }
    next
}

/// A copy of the strings in reverse order.
fn reverse_vec(v: &Vec<String>) -> (r: Vec<String>)
    ensures
        r@.len() == v@.len(),
        forall|i: int|
            0 <= i < v@.len() ==> #[trigger] strs_view(r@)[i] == strs_view(v@)[v@.len() - 1 - i],
{
    let n = v.len();
    let mut out: Vec<String> = Vec::new();
    let mut i: usize = 0;
    while i < n
        invariant
            n == v@.len(),
            i <= n,
            out@.len() == i,
            forall|j: int|
                0 <= j < i ==> #[trigger] strs_view(out@)[j] == strs_view(v@)[n - 1 - j],
        decreases n - i,
    {
        let ghost out0 = out@;
        out.push(v[n - 1 - i].clone());
        proof {
            assert(out@[i as int]@ == v@[n - 1 - i as int]@);
            assert forall|j: int|
                0 <= j < i + 1 implies #[trigger] strs_view(out@)[j] == strs_view(v@)[n - 1
                - j] by {
                if j < i {
                    assert(out@[j] == out0[j]);
                    assert(strs_view(out0)[j] == strs_view(v@)[n - 1 - j]);
                }
            }
        }
        i += 1;
    }
    out
}

/// Find, among the visited nodes, a predecessor of `current` one layer
/// closer to the root: the search cannot fail when one exists.
fn find_predecessor(
    g: &Vertex,
    order: &Vec<String>,
    dist: &Vec<usize>,
    current: &String,
    cur_d: usize,
) -> (pi: usize)
    requires
        dist@.len() == order@.len(),
        exists|q: int|
            0 <= q < order@.len() && (#[trigger] dist@[q]) + 1 == cur_d && step(
                g@,
                None::<Seq<(Seq<char>, ValueView)>>,
                strs_view(order@)[q],
                current@,
            ),
    ensures
        pi < order@.len(),
        dist@[pi as int] + 1 == cur_d,
        step(g@, None::<Seq<(Seq<char>, ValueView)>>, strs_view(order@)[pi as int], current@),
{
    let ghost f = None::<Seq<(Seq<char>, ValueView)>>;
    let n = order.len();
    let mut j: usize = 0;
    while j < n
        invariant
            f == None::<Seq<(Seq<char>, ValueView)>>,
            n == order@.len() == dist@.len(),
            j <= n,
            forall|q: int|
                0 <= q < j ==> !((#[trigger] dist@[q]) + 1 == cur_d && step(
                    g@,
                    f,
                    strs_view(order@)[q],
                    current@,
                )),
            exists|q: int|
                0 <= q < order@.len() && (#[trigger] dist@[q]) + 1 == cur_d && step(
                    g@,
                    f,
                    strs_view(order@)[q],
                    current@,
                ),
        decreases n - j,
    {
        if dist[j] < cur_d && dist[j] + 1 == cur_d {
            if has_step(g, &order[j], current) {
                return j;
            }
        }
        j += 1;
    }
    proof {
        let q = choose|q: int|
            0 <= q < order@.len() && (#[trigger] dist@[q]) + 1 == cur_d && step(
                g@,
                f,
                strs_view(order@)[q],
                current@,
            );
        assert(false);
    }
    0
}

impl Vertex {
    /// One shortest path from `root_id` to `target_id` by breadth-first
    /// search, as the induced subgraph over the path's nodes: the node
    /// count exceeds the breadth-first distance by exactly one. A root
    /// equal to the target yields that single node, isolated. `NotFound`
    /// when either id is absent; `Unreachable` when the target is not
    /// reached within the depth bound.
    pub fn shortest_path_bfs(
        &self,
        root_id: &String,
        target_id: &String,
        max_depth: Option<usize>,
    ) -> (r: Result<Vertex, GraphError>)
        requires
            self.wf(),
        ensures
            match r {
                Ok(h) => {
                    &&& has_id(self@.nodes, root_id@)
                    &&& has_id(self@.nodes, target_id@)
                    &&& h.wf()
                    &&& (root_id@ == target_id@ ==> h@.nodes.len() == 1 && h@.nodes[0].id
                        == root_id@ && h@.nodes[0].attr == self@.nodes[idx_of(
                        self@.nodes,
                        root_id@,
                    )].attr && h@.edges.len() == 0)
                    &&& (root_id@ != target_id@ ==> {
                        let path = ids_of(h@.nodes);
                        &&& h@ == induced_graph(
                            self@,
                            path,
                            Seq::<(Seq<char>, ValueView)>::empty(),
                        )
                        &&& path.no_duplicates()
                        &&& path.len() >= 2
                        &&& path[0] == root_id@
                        &&& path[path.len() - 1] == target_id@
                        &&& forall|i: int|
                            0 <= i < path.len() - 1 ==> step(
                                self@,
                                None::<Seq<(Seq<char>, ValueView)>>,
                                #[trigger] path[i],
                                path[i + 1],
                            )
                        &&& reach_within(
                            self@,
                            None::<Seq<(Seq<char>, ValueView)>>,
                            root_id@,
                            target_id@,
                            (path.len() - 1) as nat,
                        )
                        &&& !reach_within(
                            self@,
                            None::<Seq<(Seq<char>, ValueView)>>,
                            root_id@,
                            target_id@,
                            (path.len() - 2) as nat,
                        )
                        &&& match max_depth {
                            Some(d) => path.len() - 1 <= d,
                            None => true,
                        }
                    })
                },
                Err(e) => {
                    ||| (e == GraphError::NotFound && !(has_id(self@.nodes, root_id@) && has_id(
                        self@.nodes,
                        target_id@,
                    )))
                    ||| (e == GraphError::Unreachable && has_id(self@.nodes, root_id@) && has_id(
                        self@.nodes,
                        target_id@,
                    ) && root_id@ != target_id@ && !found_within(
                        self@,
                        None::<Seq<(Seq<char>, ValueView)>>,
                        root_id@,
                        target_id@,
                        max_depth,
                    ))
                },
            },
    {
        broadcast use vstd::seq_lib::group_seq_properties;

        let ghost f = None::<Seq<(Seq<char>, ValueView)>>;
        let ghost g = self@;
        if !self.has_node(root_id) || !self.has_node(target_id) {
            return Err(GraphError::NotFound);
        }
        if root_id.eq(target_id) {
            let idx = match self.node_index(root_id) {
                Some(idx) => idx,
                None => {
                    proof {
                        assert(false);
                    }
                    0
                },
            };
            proof {
                lemma_idx_of_unique(g.nodes, root_id@, idx as int);
            }
            let src = self.node_at(idx);
            let single = crate::node::Node::new(src.id.clone(), Some(src.attr.deep_clone()));
            let mut nodes: Vec<crate::node::Node> = Vec::new();
            nodes.push(single);
            let h = Vertex::from_parts(nodes, Vec::new(), Attrs::new());
            proof {
                crate::node::lemma_view_nodes_index(nodes@);
                crate::edge::lemma_view_edges_index(Seq::<crate::edge::Edge>::empty());
                assert(h@.edges =~= Seq::<crate::edge::EdgeView>::empty());
                assert(h@.nodes.len() == 1);
                assert(h@.nodes[0] == nodes@[0]@);
            }
            return Ok(h);
        }
        let visit = bfs_visit(self, root_id, max_depth, None);
        let order = visit.0;
        let dist = visit.1;
        let n = order.len();
        let mut ti: usize = 0;
        let mut target_found = false;
        while !target_found && ti < n
            invariant
                n == order@.len(),
                ti <= n,
                target_found ==> ti < n && strs_view(order@)[ti as int] == target_id@,
                !target_found ==> forall|q: int|
                    0 <= q < ti ==> (#[trigger] strs_view(order@)[q]) != target_id@,
            decreases n - ti, if target_found { 0int } else { 1int },
        {
            if order[ti].eq(target_id) {
                target_found = true;
            } else {
                ti += 1;
            }
        }
        if !target_found {
            proof {
                if strs_view(order@).contains(target_id@) {
                    let q = choose|q: int|
                        0 <= q < strs_view(order@).len() && strs_view(order@)[q] == target_id@;
                    assert(strs_view(order@)[q] == target_id@);
                    assert(false);
                }
            }
            return Err(GraphError::Unreachable);
        }
        let big_d = dist[ti];
        proof {
            assert(strs_view(order@)[ti as int] == target_id@);
            assert(reach_within(g, f, root_id@, target_id@, big_d as nat));
            if big_d == 0 {
                assert(target_id@ == root_id@);
                assert(false);
            }
        }
        let mut path_rev: Vec<String> = Vec::new();
        path_rev.push(target_id.clone());
        let mut current: String = target_id.clone();
        let mut cur_d: usize = big_d;
        proof {
            assert(strs_view(path_rev@) =~= Seq::<Seq<char>>::empty().push(target_id@));
        }
        while cur_d > 0
            invariant
                f == None::<Seq<(Seq<char>, ValueView)>>,
                g == self@,
                self.wf(),
                has_id(g.nodes, root_id@),
                n == order@.len() == dist@.len(),
                strs_view(order@).no_duplicates(),
                forall|i: int| 0 <= i < order@.len() ==> has_id(
                    g.nodes,
                    #[trigger] strs_view(order@)[i],
                ),
                forall|v: Seq<char>|
                    #[trigger] strs_view(order@).contains(v) <==> found_within(
                        g,
                        f,
                        root_id@,
                        v,
                        max_depth,
                    ),
                forall|i: int|
                    0 <= i < order@.len() ==> reach_within(
                        g,
                        f,
                        root_id@,
                        #[trigger] strs_view(order@)[i],
                        dist@[i] as nat,
                    ) && (dist@[i] > 0 ==> !reach_within(
                        g,
                        f,
                        root_id@,
                        strs_view(order@)[i],
                        (dist@[i] - 1) as nat,
                    )),
                match max_depth {
                    Some(d) => big_d <= d,
                    None => true,
                },
                cur_d <= big_d,
                path_rev@.len() == big_d - cur_d + 1,
                strs_view(path_rev@)[0] == target_id@,
                current@ == strs_view(path_rev@)[path_rev@.len() - 1],
                forall|j: int|
                    0 <= j < path_rev@.len() ==> reach_within(
                        g,
                        f,
                        root_id@,
                        #[trigger] strs_view(path_rev@)[j],
                        (big_d - j) as nat,
                    ) && (big_d - j > 0 ==> !reach_within(
                        g,
                        f,
                        root_id@,
                        strs_view(path_rev@)[j],
                        (big_d - j - 1) as nat,
                    )),
                forall|j: int|
                    0 <= j < path_rev@.len() - 1 ==> step(
                        g,
                        f,
                        #[trigger] strs_view(path_rev@)[j + 1],
                        strs_view(path_rev@)[j],
                    ),
                forall|j: int| 0 <= j < path_rev@.len() ==> has_id(
                    g.nodes,
                    #[trigger] strs_view(path_rev@)[j],
                ),
            decreases cur_d,
        {
            proof {
                // the node one step back exists and sits in the visited set
                assert(reach_within(g, f, root_id@, current@, cur_d as nat));
                assert(!reach_within(g, f, root_id@, current@, (cur_d - 1) as nat));
                if current@ == root_id@ {
                    assert(reach_within(g, f, root_id@, current@, (cur_d - 1) as nat));
                    assert(false);
                }
                let u = choose|u: Seq<char>|
                    #[trigger] step(g, f, u, current@) && reach_within(
                        g,
                        f,
                        root_id@,
                        u,
                        (cur_d - 1) as nat,
                    );
                assert(strs_view(order@).contains(u)) by {
                    match max_depth {
                        Some(d) => {
                            lemma_reach_mono(g, f, root_id@, u, (cur_d - 1) as nat, d as nat);
                        },
                        None => {},
                    }
                }
                let q = choose|q: int|
                    0 <= q < strs_view(order@).len() && strs_view(order@)[q] == u;
                assert(dist@[q] + 1 == cur_d) by {
                    if dist@[q] > cur_d - 1 {
                        lemma_reach_mono(
                            g,
                            f,
                            root_id@,
                            u,
                            (cur_d - 1) as nat,
                            (dist@[q] - 1) as nat,
                        );
                        assert(false);
                    }
                    if dist@[q] < cur_d - 1 {
                        assert(reach_within(g, f, root_id@, current@, (dist@[q] + 1) as nat));
                        lemma_reach_mono(
                            g,
                            f,
                            root_id@,
                            current@,
                            (dist@[q] + 1) as nat,
                            (cur_d - 1) as nat,
                        );
                        assert(false);
                    }
                }
            }
            let pi = find_predecessor(self, &order, &dist, &current, cur_d);
            let ghost pr0 = strs_view(path_rev@);
            let ghost plen = path_rev@.len();
            path_rev.push(order[pi].clone());
            current = order[pi].clone();
            cur_d -= 1;
            proof {
                lemma_strs_view_push(path_rev@.drop_last(), path_rev@[plen as int]);
                assert(path_rev@.drop_last() =~= path_rev@.take(plen as int));
                assert(strs_view(path_rev@) =~= pr0.push(strs_view(order@)[pi as int]));
                assert(strs_view(order@).contains(strs_view(order@)[pi as int]));
            }
        }
        proof {
            // the walk ended at the root
            assert(reach_within(g, f, root_id@, current@, 0));
            assert(current@ == root_id@);
            // pairwise distinct: each entry has a different exact distance
            assert forall|a: int, b: int|
                0 <= a < b < strs_view(path_rev@).len() implies strs_view(path_rev@)[a]
                    != strs_view(path_rev@)[b] by {
                if strs_view(path_rev@)[a] == strs_view(path_rev@)[b] {
                    assert(reach_within(
                        g,
                        f,
                        root_id@,
                        strs_view(path_rev@)[b],
                        (big_d - b) as nat,
                    ));
                    lemma_reach_mono(
                        g,
                        f,
                        root_id@,
                        strs_view(path_rev@)[b],
                        (big_d - b) as nat,
                        (big_d - a - 1) as nat,
                    );
                    assert(false);
                }
            }
        }
        let path = reverse_vec(&path_rev);
        proof {
            let ps = strs_view(path@);
            let rs = strs_view(path_rev@);
            let m = path_rev@.len();
            assert(ps.len() == m);
            assert forall|a: int, b: int| 0 <= a < b < ps.len() implies ps[a] != ps[b] by {
                assert(ps[a] == rs[m - 1 - a]);
                assert(ps[b] == rs[m - 1 - b]);
            }
            assert(ps.no_duplicates());
            assert forall|i: int| 0 <= i < ps.len() implies has_id(g.nodes, #[trigger] ps[i]) by {
                assert(ps[i] == rs[m - 1 - i]);
            }
        }
        let h = induced_subgraph(self, &path, Attrs::new());
        proof {
            let ps = strs_view(path@);
            let rs = strs_view(path_rev@);
            let m = path_rev@.len();
            assert forall|i: int| 0 <= i < ps.len() implies (#[trigger] h@.nodes[i]).id
                == ps[i] by {
                let w = choose|w: int| 0 <= w < g.nodes.len() && (#[trigger] g.nodes[w].id) == ps[i];
            }
            assert(ids_of(h@.nodes) =~= ps);
            assert(ps[0] == rs[m - 1]);
            assert(ps[ps.len() - 1] == rs[0]);
            assert forall|i: int|
                0 <= i < ps.len() - 1 implies step(g, f, #[trigger] ps[i], ps[i + 1]) by {
                assert(ps[i] == rs[m - 1 - i]);
                assert(ps[i + 1] == rs[m - 2 - i]);
                assert(step(g, f, rs[(m - 2 - i) + 1], rs[m - 2 - i]));
            }
            assert(reach_within(g, f, root_id@, target_id@, (ps.len() - 1) as nat)) by {
                assert(rs[0] == target_id@);
                assert(big_d - 0 == m - 1);
            }
            assert(!reach_within(g, f, root_id@, target_id@, (ps.len() - 2) as nat)) by {
                assert(rs[0] == target_id@);
            }
        }
        Ok(h)
    }

    /// Layer-synchronous breadth-first traversal from `root_id`: each
    /// frontier's successor lists are collected independently per node and
    /// folded in with `merge_layer`, one whole layer before the next.
    /// Fails with `NotFound` when the root is absent. The result has the
    /// shape of `bfs` without an edge filter: the induced subgraph over
    /// exactly the found set, with the discovery order under `nodelist`.
    pub fn parallel_bfs(&self, root_id: &String, max_depth: Option<usize>) -> (r: Result<
        Vertex,
        GraphError,
    >)
        requires
            self.wf(),
        ensures
            match r {
                Ok(h) => {
                    &&& has_id(self@.nodes, root_id@)
                    &&& h.wf()
                    &&& h@ == induced_graph(
                        self@,
                        ids_of(h@.nodes),
                        nodelist_meta(ids_of(h@.nodes)),
                    )
                    &&& ids_of(h@.nodes).no_duplicates()
                    &&& ids_of(h@.nodes).len() > 0 && ids_of(h@.nodes)[0] == root_id@
                    &&& forall|v: Seq<char>|
                        #[trigger] ids_of(h@.nodes).contains(v) <==> found_within(
                            self@,
                            None::<Seq<(Seq<char>, ValueView)>>,
                            root_id@,
                            v,
                            max_depth,
                        )
                },
                Err(e) => {
                    &&& e == GraphError::NotFound
                    &&& !has_id(self@.nodes, root_id@)
                },
            },
    {
        broadcast use vstd::seq_lib::group_seq_properties;

        if !self.has_node(root_id) {
            return Err(GraphError::NotFound);
        }
        let ghost f = None::<Seq<(Seq<char>, ValueView)>>;
        let ghost g = self@;
        let mut visited: Vec<String> = Vec::new();
        visited.push(root_id.clone());
        let mut frontier: Vec<String> = Vec::new();
        frontier.push(root_id.clone());
        let mut remaining: usize = match max_depth {
            Some(d) => d,
            None => 0,
        };
        let unbounded: bool = match max_depth {
            Some(_) => false,
            None => true,
        };
        let ghost mut k: nat = 0;
        proof {
            assert(strs_view(visited@) =~= Seq::<Seq<char>>::empty().push(root_id@));
            assert(strs_view(frontier@) =~= Seq::<Seq<char>>::empty().push(root_id@));
            assert forall|v: Seq<char>| #[trigger]
                strs_view(visited@).contains(v) implies reach_within(g, f, root_id@, v, k) by {
                let i = choose|i: int|
                    0 <= i < strs_view(visited@).len() && strs_view(visited@)[i] == v;
                assert(v == root_id@);
            }
            assert forall|v: Seq<char>|
                reach_within(g, f, root_id@, v, k) implies #[trigger] strs_view(visited@).contains(
                v,
            ) by {
                assert(v == root_id@);
                assert(strs_view(visited@)[0] == root_id@);
            }
            lemma_distinct_ids_bound(strs_view(visited@), g.nodes);
        }
        while frontier.len() > 0 && (unbounded || remaining > 0)
            invariant
                unbounded == (max_depth is None),
                f == None::<Seq<(Seq<char>, ValueView)>>,
                self.wf(),
                g == self@,
                has_id(g.nodes, root_id@),
                strs_view(visited@).no_duplicates(),
                visited@.len() > 0 && visited@[0]@ == root_id@,
                visited@.len() <= g.nodes.len(),
                forall|i: int| 0 <= i < visited@.len() ==> has_id(
                    g.nodes,
                    #[trigger] strs_view(visited@)[i],
                ),
                forall|v: Seq<char>|
                    #[trigger] strs_view(visited@).contains(v) <==> reach_within(
                        g,
                        f,
                        root_id@,
                        v,
                        k,
                    ),
                forall|v: Seq<char>| #[trigger]
                    strs_view(frontier@).contains(v) ==> strs_view(visited@).contains(v),
                forall|u: Seq<char>, v: Seq<char>|
                    strs_view(visited@).contains(u) && !strs_view(frontier@).contains(u)
                        && #[trigger] step(g, f, u, v) ==> strs_view(visited@).contains(v),
                match max_depth {
                    Some(d) => k + remaining == d,
                    None => true,
                },
            decreases g.nodes.len() - visited@.len(), frontier@.len(),
        {
            let ghost vis0 = visited@;
            let ghost fr0 = strs_view(frontier@);
            // collect each frontier node's successors: independent per-node
            // work that a worker pool may perform concurrently
            let mut lists: Vec<Vec<String>> = Vec::new();
            let fl = frontier.len();
            let mut fi: usize = 0;
            while fi < fl
                invariant
                    f == None::<Seq<(Seq<char>, ValueView)>>,
                    self.wf(),
                    g == self@,
                    fl == frontier@.len(),
                    fi <= fl,
                    lists@.len() == fi,
                    forall|j: int, v: Seq<char>|
                        0 <= j < fi ==> (#[trigger] lists_view(lists@)[j].contains(v) <==> step(
                            g,
                            f,
                            strs_view(frontier@)[j],
                            v,
                        )),
                decreases fl - fi,
            {
                let succ = node_successors(self, &frontier[fi]);
                let ghost lists0 = lists@;
                lists.push(succ);
                proof {
                    assert forall|j: int, v: Seq<char>|
                        0 <= j < fi + 1 implies (#[trigger] lists_view(lists@)[j].contains(v) <==>
                    step(g, f, strs_view(frontier@)[j], v)) by {
                        if j < fi {
                            assert(lists@[j] == lists0[j]);
                            assert(lists_view(lists@)[j] == strs_view(lists0[j]@));
                            assert(lists_view(lists0)[j] == strs_view(lists0[j]@));
                            assert(lists_view(lists0)[j].contains(v) <==> step(
                                g,
                                f,
                                strs_view(frontier@)[j],
                                v,
                            ));
                        } else {
                            assert(lists@[j] == succ);
                            assert(lists_view(lists@)[j] == strs_view(succ@));
                            assert(strs_view(frontier@)[j] == frontier@[fi as int]@);
                        }
                    }
                }
                fi += 1;
            }
            let next = merge_layer(&mut visited, &lists);
            proof {
                lemma_strs_view_add(vis0, next@);
                let vis1 = strs_view(visited@);
                let nxt = strs_view(next@);
                assert(vis1 == strs_view(vis0) + nxt);
                // what the merge admitted is exactly the frontier's successors
                assert forall|v: Seq<char>| #[trigger]
                    nxt.contains(v) <==> (!strs_view(vis0).contains(v) && succ_of(
                        g,
                        f,
                        fr0,
                        v,
                    )) by {
                    if nxt.contains(v) {
                        let j = choose|j: int|
                            0 <= j < lists@.len() && #[trigger] lists_view(lists@)[j].contains(v);
                        assert(step(g, f, fr0[j], v));
                        assert(succ_of(g, f, fr0, v));
                    }
                    if !strs_view(vis0).contains(v) && succ_of(g, f, fr0, v) {
                        let j = choose|j: int| 0 <= j < fr0.len() && step(g, f, #[trigger] fr0[j], v);
                        assert(lists_view(lists@)[j].contains(v));
                    }
                }
                assert forall|v: Seq<char>| #[trigger]
                    vis1.contains(v) implies reach_within(g, f, root_id@, v, k + 1) by {
                    lemma_concat_contains(strs_view(vis0), nxt, v);
                    if strs_view(vis0).contains(v) {
                        lemma_reach_mono(g, f, root_id@, v, k, k + 1);
                    } else {
                        assert(nxt.contains(v));
                        let j = choose|j: int| 0 <= j < fr0.len() && step(g, f, #[trigger] fr0[j], v);
                        assert(fr0.contains(fr0[j]));
                        assert(strs_view(vis0).contains(fr0[j]));
                        assert(reach_within(g, f, root_id@, fr0[j], k));
                    }
                }
                assert forall|v: Seq<char>|
                    reach_within(g, f, root_id@, v, k + 1) implies #[trigger] vis1.contains(v) by {
                    lemma_concat_contains(strs_view(vis0), nxt, v);
                    if v == root_id@ {
                        assert(reach_within(g, f, root_id@, v, k));
                        assert(strs_view(vis0).contains(v));
                    } else {
                        let u = choose|u: Seq<char>|
                            #[trigger] step(g, f, u, v) && reach_within(g, f, root_id@, u, k);
                        assert(strs_view(vis0).contains(u));
                        if fr0.contains(u) {
                            assert(succ_of(g, f, fr0, v)) by {
                                let j = choose|j: int| 0 <= j < fr0.len() && fr0[j] == u;
                                assert(step(g, f, fr0[j], v));
                            }
                            if !strs_view(vis0).contains(v) {
                                assert(nxt.contains(v));
                            }
                        } else {
                            assert(strs_view(vis0).contains(v));
                        }
                    }
                }
                assert forall|u: Seq<char>, v: Seq<char>|
                    vis1.contains(u) && !nxt.contains(u) && #[trigger] step(g, f, u, v) implies
                    vis1.contains(v) by {
                    lemma_concat_contains(strs_view(vis0), nxt, u);
                    lemma_concat_contains(strs_view(vis0), nxt, v);
                    assert(strs_view(vis0).contains(u));
                    if fr0.contains(u) {
                        let j = choose|j: int| 0 <= j < fr0.len() && fr0[j] == u;
                        assert(step(g, f, fr0[j], v));
                        assert(succ_of(g, f, fr0, v));
                        if !strs_view(vis0).contains(v) {
                            assert(nxt.contains(v));
                        }
                    } else {
                        assert(strs_view(vis0).contains(v));
                    }
                }
                assert forall|v: Seq<char>| #[trigger] nxt.contains(v) implies vis1.contains(v) by {
                    lemma_concat_contains(strs_view(vis0), nxt, v);
                }
                assert forall|i: int| 0 <= i < visited@.len() implies has_id(
                    g.nodes,
                    #[trigger] strs_view(visited@)[i],
                ) by {
                    if i >= vis0.len() {
                        assert(strs_view(visited@)[i] == nxt[i - vis0.len()]);
                        assert(nxt.contains(nxt[i - vis0.len()]));
                        let j = choose|j: int| 0 <= j < fr0.len() && step(g, f, #[trigger] fr0[j], nxt[i - vis0.len()]);
                        let e = choose|e: int|
                            0 <= e < g.edges.len() && (#[trigger] g.edges[e]).from == fr0[j]
                                && g.edges[e].to == nxt[i - vis0.len()]
                                && crate::traversal::edge_matches(g.edges[e], f);
                        assert(has_id(g.nodes, g.edges[e].to));
                    }
                }
                lemma_distinct_ids_bound(vis1, g.nodes);
                if next@.len() > 0 {
                    k = k + 1;
                }
            }
            if next.len() > 0 {
                if !unbounded {
                    remaining -= 1;
                }
            }
            frontier = next;
        }
        proof {
            let vis = strs_view(visited@);
            if frontier.len() == 0 {
                assert forall|w: Seq<char>| #[trigger]
                    reach_within(g, f, root_id@, w, k + 1) implies reach_within(
                    g,
                    f,
                    root_id@,
                    w,
                    k,
                ) by {
                    if w == root_id@ {
                    } else {
                        let u = choose|u: Seq<char>|
                            #[trigger] step(g, f, u, w) && reach_within(g, f, root_id@, u, k);
                        assert(vis.contains(u));
                        assert(!strs_view(frontier@).contains(u));
                        assert(vis.contains(w));
                    }
                }
                assert forall|v: Seq<char>| #[trigger]
                    vis.contains(v) implies found_within(g, f, root_id@, v, max_depth) by {
                    match max_depth {
                        Some(d) => {
                            lemma_reach_mono(g, f, root_id@, v, k, d as nat);
                        },
                        None => {
                            assert(reach_within(g, f, root_id@, v, k));
                        },
                    }
                }
                assert forall|v: Seq<char>|
                    found_within(g, f, root_id@, v, max_depth) implies #[trigger] vis.contains(
                    v,
                ) by {
                    match max_depth {
                        Some(d) => {
                            lemma_reach_fixpoint(g, f, root_id@, k, v, d as nat);
                        },
                        None => {
                            let n = choose|n: nat| reach_within(g, f, root_id@, v, n);
                            lemma_reach_fixpoint(g, f, root_id@, k, v, n);
                        },
                    }
                }
            } else {
                assert(!unbounded && remaining == 0);
            }
        }
        let h = traversal_result(self, &visited);
        Ok(h)
    }
}


/// The layer-synchronous traversal and the queue traversal find the same
/// nodes: any two id sequences that each hold exactly the unfiltered
/// breadth-first found set of the same graph, root and depth bound agree
/// on membership, whatever their orders.
pub proof fn lemma_parallel_bfs_matches_bfs(
    g: VertexView,
    root: Seq<char>,
    depth: Option<usize>,
    parallel_found: Seq<Seq<char>>,
    bfs_found: Seq<Seq<char>>,
)
    requires
        forall|v: Seq<char>|
            #[trigger] parallel_found.contains(v) <==> found_within(
                g,
                None::<Seq<(Seq<char>, ValueView)>>,
                root,
                v,
                depth,
            ),
        forall|v: Seq<char>|
            #[trigger] bfs_found.contains(v) <==> found_within(
                g,
                None::<Seq<(Seq<char>, ValueView)>>,
                root,
                v,
                depth,
            ),
    ensures
        forall|v: Seq<char>| #[trigger] parallel_found.contains(v) <==> bfs_found.contains(v),
{
}

} // verus!
