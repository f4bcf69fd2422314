//! Graph-level traversal operations: breadth-first traversal, depth-first
//! traversal, and breadth-first search for a single target.
//!
//! Each traversal returns a fresh, self-contained graph: the induced
//! subgraph over the visited ids, with the visitation order recorded in
//! the result's metadata under `nodelist`.

use vstd::prelude::*;
use crate::attrs::Attrs;
use crate::graph::{Vertex, VertexView, has_id, idx_of, lemma_idx_of_unique};
use crate::node::Node;
use crate::subgraph::{induced_graph, induced_subgraph, ids_of};
use crate::traversal::{strs_view, contains_string, bfs_visit, filter_view, found_within,
    reach_within, reachable, step, lemma_reach_mono, lemma_closed_set_reach,
    lemma_strs_view_push, lemma_push_contains};
use crate::value::{Value, ValueView, view_list, lemma_view_list_index};
use crate::GraphError;

verus! {

/// The views of ids wrapped as string values.
pub open spec fn str_values(s: Seq<Seq<char>>) -> Seq<ValueView> {
    Seq::new(s.len(), |i: int| ValueView::Str(s[i]))
}

/// The metadata of a traversal result: the visitation order under the key
/// `nodelist`.
pub open spec fn nodelist_meta(s: Seq<Seq<char>>) -> Seq<(Seq<char>, ValueView)> {
    seq![("nodelist"@, ValueView::List(str_values(s)))]
}

/// The ids as a list value, in order.
pub fn ids_list_value(order: &Vec<String>) -> (v: Value)
    ensures
        v@ == ValueView::List(str_values(strs_view(order@))),
{
    let n = order.len();
    let mut items: Vec<Value> = Vec::new();
    let mut i: usize = 0;
    while i < n
        invariant
            n == order@.len(),
            i <= n,
            items@.len() == i,
            forall|j: int| 0 <= j < i ==> #[trigger] items@[j]@ == ValueView::Str(order@[j]@),
        decreases n - i,
    {
        items.push(Value::Str(order[i].clone()));
        i += 1;
    }
    proof {
        lemma_view_list_index(items@);
        assert(view_list(items@) =~= str_values(strs_view(order@)));
    }
    Value::List(items)
}

/// Build the traversal result: the induced subgraph over the visited ids,
/// with the order recorded under `nodelist` in the metadata.
pub(crate) fn traversal_result(g: &Vertex, order: &Vec<String>) -> (h: Vertex)
    requires
        g.wf(),
        strs_view(order@).no_duplicates(),
        forall|i: int| 0 <= i < order@.len() ==> has_id(g@.nodes, #[trigger] strs_view(order@)[i]),
    ensures
        h@ == induced_graph(g@, strs_view(order@), nodelist_meta(strs_view(order@))),
        h.wf(),
        ids_of(h@.nodes) == strs_view(order@),
{
    let mut meta = Attrs::new();
    let nodelist = ids_list_value(order);
    let key = String::from_str("nodelist");
    meta.set(key, nodelist);
    proof {
        assert(meta@ =~= nodelist_meta(strs_view(order@)));
    }
    let h = induced_subgraph(g, order, meta);
    proof {
        let s = strs_view(order@);
        assert forall|i: int| 0 <= i < s.len() implies (#[trigger] h@.nodes[i]).id == s[i] by {
            let w = choose|w: int| 0 <= w < g@.nodes.len() && (#[trigger] g@.nodes[w].id) == s[i];
        }
        assert(ids_of(h@.nodes) =~= s);
    }
    h
}

impl Vertex {
    /// Breadth-first traversal of the nodes reachable from `root_id`
    /// through qualifying edges, within the optional depth bound. Fails
    /// with `NotFound` when the root is absent. The result is the induced
    /// subgraph over exactly the found set, with the visitation order in
    /// its metadata under `nodelist`; that order is layer order: whatever
    /// path bound reaches a later node also reaches every earlier one.
    pub fn bfs(&self, root_id: &String, depth: Option<usize>, filter: Option<&Attrs>) -> (r: Result<
        Vertex,
        GraphError,
    >)
        requires
            self.wf(),
        ensures
            match r {
                Ok(h) => {
                    &&& has_id(self@.nodes, root_id@)
                    &&& h.wf()
                    &&& h@ == induced_graph(
                        self@,
                        ids_of(h@.nodes),
                        nodelist_meta(ids_of(h@.nodes)),
                    )
                    &&& ids_of(h@.nodes).no_duplicates()
                    &&& ids_of(h@.nodes).len() > 0 && ids_of(h@.nodes)[0] == root_id@
                    &&& forall|v: Seq<char>|
                        #[trigger] ids_of(h@.nodes).contains(v) <==> found_within(
                            self@,
                            filter_view(filter),
                            root_id@,
                            v,
                            depth,
                        )
                    &&& forall|i: int, j: int, n: nat|
                        0 <= i <= j < ids_of(h@.nodes).len() && #[trigger] reach_within(
                            self@,
                            filter_view(filter),
                            root_id@,
                            ids_of(h@.nodes)[j],
                            n,
                        ) ==> #[trigger] reach_within(
                            self@,
                            filter_view(filter),
                            root_id@,
                            ids_of(h@.nodes)[i],
                            n,
                        )
                },
                Err(e) => {
                    &&& e == GraphError::NotFound
                    &&& !has_id(self@.nodes, root_id@)
                },
            },
    {
        if !self.has_node(root_id) {
            return Err(GraphError::NotFound);
        }
        let visit = bfs_visit(self, root_id, depth, filter);
        let order = visit.0;
        let ghost dist = visit.1@;
        let h = traversal_result(self, &order);
        proof {
            let ghost f = filter_view(filter);
            let ids = ids_of(h@.nodes);
            assert forall|i: int, j: int, n: nat|
                0 <= i <= j < ids.len() && #[trigger] reach_within(
                    self@,
                    f,
                    root_id@,
                    ids[j],
                    n,
                ) implies #[trigger] reach_within(self@, f, root_id@, ids[i], n) by {
                assert(ids[i] == strs_view(order@)[i]);
                assert(ids[j] == strs_view(order@)[j]);
                // a later node is no closer than an earlier one
                if dist[j] > n {
                    lemma_reach_mono(self@, f, root_id@, ids[j], n, (dist[j] - 1) as nat);
                    assert(false);
                }
                assert(dist[i] <= dist[j]);
                lemma_reach_mono(self@, f, root_id@, ids[i], dist[i] as nat, n);
            }
        }
        Ok(h)
    }

    /// Breadth-first search: the node with `target_id` when it lies within
    /// the optional depth bound of `root_id` through qualifying edges,
    /// `None` otherwise. Fails with `NotFound` when the root is absent.
    pub fn bfs_search(
        &self,
        root_id: &String,
        target_id: &String,
        depth: Option<usize>,
        filter: Option<&Attrs>,
    ) -> (r: Result<Option<&Node>, GraphError>)
        requires
            self.wf(),
        ensures
            match r {
                Ok(found) => {
                    &&& has_id(self@.nodes, root_id@)
                    &&& match found {
                        Some(n) => found_within(
                            self@,
                            filter_view(filter),
                            root_id@,
                            target_id@,
                            depth,
                        ) && n@ == self@.nodes[idx_of(self@.nodes, target_id@)] && n@.id
                            == target_id@,
                        None => !found_within(
                            self@,
                            filter_view(filter),
                            root_id@,
                            target_id@,
                            depth,
                        ),
                    }
                },
                Err(e) => {
                    &&& e == GraphError::NotFound
                    &&& !has_id(self@.nodes, root_id@)
                },
            },
    {
        if !self.has_node(root_id) {
            return Err(GraphError::NotFound);
        }
        let visit = bfs_visit(self, root_id, depth, filter);
        let order = visit.0;
        if contains_string(&order, target_id) {
            match self.get_node(target_id) {
                Ok(n) => Ok(Some(n)),
                Err(_) => {
                    proof {
                        let i = choose|i: int|
                            0 <= i < strs_view(order@).len() && strs_view(order@)[i] == target_id@;
                        assert(has_id(self@.nodes, strs_view(order@)[i]));
                        assert(false);
                    }
                    Err(GraphError::NotFound)
                },
            }
        } else {
            Ok(None)
        }
    }
}

/// The ids of a stack of (id, depth) entries, bottom first.
pub open spec fn pairs_ids(st: Seq<(String, usize)>) -> Seq<Seq<char>> {
    Seq::new(st.len(), |i: int| st[i].0@)
}

/// One qualifying edge among the table suffix starting at `lo`.
pub open spec fn step_from(
    g: VertexView,
    f: Option<Seq<(Seq<char>, ValueView)>>,
    lo: int,
    a: Seq<char>,
    b: Seq<char>,
) -> bool {
    exists|e: int|
        lo <= e < g.edges.len() && (#[trigger] g.edges[e]).from == a && g.edges[e].to == b
            && crate::traversal::edge_matches(g.edges[e], f)
}

impl Vertex {
    /// Depth-first traversal of the nodes reachable from `root_id` through
    /// qualifying edges, pre-order, first edge first; a node discovered at
    /// the depth bound is included but not expanded. Fails with `NotFound`
    /// when the root is absent. The result is the induced subgraph over
    /// the visited ids, with the visitation order in its metadata under
    /// `nodelist`. Every visited node respects the depth bound; with no
    /// bound the visited set is exactly the reachable set.
    pub fn traverse(&self, root_id: &String, depth: Option<usize>, filter: Option<&Attrs>) -> (r:
        Result<Vertex, GraphError>)
        requires
            self.wf(),
        ensures
            match r {
                Ok(h) => {
                    &&& has_id(self@.nodes, root_id@)
                    &&& h.wf()
                    &&& h@ == induced_graph(
                        self@,
                        ids_of(h@.nodes),
                        nodelist_meta(ids_of(h@.nodes)),
                    )
                    &&& ids_of(h@.nodes).no_duplicates()
                    &&& ids_of(h@.nodes).len() > 0 && ids_of(h@.nodes)[0] == root_id@
                    &&& forall|v: Seq<char>|
                        #[trigger] ids_of(h@.nodes).contains(v) ==> found_within(
                            self@,
                            filter_view(filter),
                            root_id@,
                            v,
                            depth,
                        )
                    &&& (depth is None ==> forall|v: Seq<char>|
                        #[trigger] ids_of(h@.nodes).contains(v) <==> reachable(
                            self@,
                            filter_view(filter),
                            root_id@,
                            v,
                        ))
                    &&& forall|j: int|
                        1 <= j < ids_of(h@.nodes).len() ==> exists|i: int|
                            0 <= i < j && step(
                                self@,
                                filter_view(filter),
                                ids_of(h@.nodes)[i],
                                #[trigger] ids_of(h@.nodes)[j],
                            )
                    &&& (match depth {
                        Some(d) => d >= 1 ==> forall|v: Seq<char>|
                            #[trigger] step(self@, filter_view(filter), root_id@, v) ==> ids_of(
                                h@.nodes,
                            ).contains(v),
                        None => true,
                    })
                },
                Err(e) => {
                    &&& e == GraphError::NotFound
                    &&& !has_id(self@.nodes, root_id@)
                },
            },
    {
        broadcast use vstd::seq_lib::group_seq_properties;

        if !self.has_node(root_id) {
            return Err(GraphError::NotFound);
        }
        let ghost f = filter_view(filter);
        let ghost g = self@;
        let unbounded: bool = match depth {
            Some(_) => false,
            None => true,
        };
        let mut visited: Vec<String> = Vec::new();
        let mut stack: Vec<(String, usize)> = Vec::new();
        stack.push((root_id.clone(), 0));
        proof {
            assert(pairs_ids(stack@) =~= Seq::<Seq<char>>::empty().push(root_id@));
            assert(pairs_ids(stack@).contains(root_id@));
            assert(reach_within(g, f, root_id@, root_id@, 0));
        }
        while stack.len() > 0
            invariant
                self.wf(),
                g == self@,
                f == filter_view(filter),
                unbounded == (depth is None),
                has_id(g.nodes, root_id@),
                strs_view(visited@).no_duplicates(),
                visited@.len() <= g.nodes.len(),
                forall|i: int| 0 <= i < visited@.len() ==> has_id(
                    g.nodes,
                    #[trigger] strs_view(visited@)[i],
                ),
                forall|i: int| 0 <= i < visited@.len() ==> found_within(
                    g,
                    f,
                    root_id@,
                    #[trigger] strs_view(visited@)[i],
                    depth,
                ),
                visited@.len() > 0 ==> visited@[0]@ == root_id@,
                strs_view(visited@).contains(root_id@) || pairs_ids(stack@).contains(root_id@),
                forall|i: int|
                    0 <= i < stack@.len() ==> has_id(g.nodes, (#[trigger] stack@[i]).0@)
                        && reach_within(g, f, root_id@, stack@[i].0@, stack@[i].1 as nat) && (
                    stack@[i].1 <= visited@.len()) && (match depth {
                        Some(d) => stack@[i].1 <= d,
                        None => true,
                    }),
                unbounded ==> forall|u: Seq<char>, v: Seq<char>|
                    strs_view(visited@).contains(u) && #[trigger] step(g, f, u, v) ==> (strs_view(
                        visited@,
                    ).contains(v) || pairs_ids(stack@).contains(v)),
                forall|j: int|
                    1 <= j < visited@.len() ==> exists|i: int|
                        0 <= i < j && step(
                            g,
                            f,
                            strs_view(visited@)[i],
                            #[trigger] strs_view(visited@)[j],
                        ),
                forall|t: int|
                    0 <= t < stack@.len() ==> ((#[trigger] stack@[t]).0@ == root_id@ || exists|
                        i: int,
                    |
                        0 <= i < visited@.len() && step(
                            g,
                            f,
                            strs_view(visited@)[i],
                            stack@[t].0@,
                        )),
                visited@.len() == 0 ==> stack@.len() == 1 && stack@[0].0@ == root_id@
                    && stack@[0].1 == 0,
                match depth {
                    Some(d) => d >= 1 && visited@.len() > 0 ==> forall|v: Seq<char>|
                        #[trigger] step(g, f, root_id@, v) ==> (strs_view(visited@).contains(v)
                            || pairs_ids(stack@).contains(v)),
                    None => true,
                },
            decreases g.nodes.len() - visited@.len(), stack@.len(),
        {
            let ghost st0 = stack@;
            let entry = match stack.pop() {
                Some(entry) => entry,
                None => {
                    proof {
                        assert(false);
                    }
                    (root_id.clone(), 0)
                },
            };
            let id = entry.0;
            let dep = entry.1;
            proof {
                assert(stack@ =~= st0.drop_last());
                assert(st0.last() == (id, dep));
                assert(pairs_ids(stack@) =~= pairs_ids(st0).drop_last());
            }
            if !contains_string(&visited, &id) {
                let ghost vis0 = strs_view(visited@);
                visited.push(id.clone());
                proof {
                    lemma_strs_view_push(visited@.drop_last(), visited@[vis0.len() as int]);
                    assert(visited@.drop_last() =~= visited@.take(vis0.len() as int));
                    assert(strs_view(visited@) =~= vis0.push(id@));
                    assert(strs_view(visited@)[vis0.len() as int] == id@);
                    assert(strs_view(visited@).contains(id@));
                    assert(pairs_ids(st0)[st0.len() - 1] == id@);
                    assert(pairs_ids(st0).contains(id@));
                    assert forall|w: Seq<char>| #[trigger]
                        vis0.contains(w) implies strs_view(visited@).contains(w) by {
                        lemma_push_contains(vis0, id@, w);
                    }
                    if !strs_view(visited@).contains(root_id@) {
                        assert(!vis0.contains(root_id@));
                        let w = choose|w: int|
                            0 <= w < pairs_ids(st0).len() && pairs_ids(st0)[w] == root_id@;
                        if w == st0.len() - 1 {
                            assert(id@ == root_id@);
                            assert(false);
                        } else {
                            assert(pairs_ids(stack@)[w] == root_id@);
                            assert(pairs_ids(stack@).contains(root_id@));
                        }
                    }
                    if depth is Some {
                        lemma_reach_mono(g, f, root_id@, id@, dep as nat, depth->0 as nat);
                    }
                    crate::traversal::lemma_distinct_ids_bound(strs_view(visited@), g.nodes);
                    assert forall|w: Seq<char>| #[trigger]
                        pairs_ids(stack@).contains(w) implies pairs_ids(st0).contains(w) by {
                        let i = choose|i: int|
                            0 <= i < pairs_ids(stack@).len() && pairs_ids(stack@)[i] == w;
                        assert(pairs_ids(st0)[i] == w);
                    }
                    if unbounded {
                        assert forall|u: Seq<char>, v: Seq<char>|
                            strs_view(visited@).contains(u) && u != id@ && #[trigger] step(
                                g,
                                f,
                                u,
                                v,
                            ) implies (strs_view(visited@).contains(v) || pairs_ids(
                            stack@,
                        ).contains(v)) by {
                            lemma_push_contains(vis0, id@, u);
                            assert(vis0.contains(u));
                            if !vis0.contains(v) {
                                let w = choose|w: int|
                                    0 <= w < pairs_ids(st0).len() && pairs_ids(st0)[w] == v;
                                if w == st0.len() - 1 {
                                    assert(v == id@);
                                } else {
                                    assert(pairs_ids(stack@)[w] == v);
                                }
                            } else {
                                lemma_push_contains(vis0, id@, v);
                            }
                        }
                    }
                    // the new node was discovered from an earlier visit
                    assert forall|j: int| 1 <= j < visited@.len() implies exists|i: int|
                        0 <= i < j && step(
                            g,
                            f,
                            strs_view(visited@)[i],
                            #[trigger] strs_view(visited@)[j],
                        ) by {
                        if j < vis0.len() {
                            let i = choose|i: int| 0 <= i < j && step(g, f, vis0[i], vis0[j]);
                            assert(strs_view(visited@)[i] == vis0[i]);
                            assert(strs_view(visited@)[j] == vis0[j]);
                        } else {
                            assert(strs_view(visited@)[j] == id@);
                            assert(vis0[0] == root_id@);
                            assert(vis0.contains(root_id@));
                            assert(id@ != root_id@);
                            assert(st0[st0.len() - 1].0@ == id@);
                            let i = choose|i: int|
                                0 <= i < vis0.len() && step(g, f, vis0[i], st0[st0.len() - 1].0@);
                            assert(strs_view(visited@)[i] == vis0[i]);
                            assert(step(g, f, strs_view(visited@)[i], id@));
                        }
                    }
                    // the remaining stack entries keep their discoverers
                    assert forall|t: int| 0 <= t < stack@.len() implies ((
                    #[trigger] stack@[t]).0@ == root_id@ || exists|i: int|
                        0 <= i < visited@.len() && step(
                            g,
                            f,
                            strs_view(visited@)[i],
                            stack@[t].0@,
                        )) by {
                        assert(stack@[t] == st0[t]);
                        if st0[t].0@ != root_id@ {
                            let i = choose|i: int|
                                0 <= i < vis0.len() && step(g, f, vis0[i], st0[t].0@);
                            assert(strs_view(visited@)[i] == vis0[i]);
                        }
                    }
                }
                let ghost first_visit = vis0.len() == 0;
                proof {
                    if depth is Some && depth->0 >= 1 && !first_visit {
                        assert forall|v: Seq<char>| #[trigger] step(g, f, root_id@, v) implies (
                        strs_view(visited@).contains(v) || pairs_ids(stack@).contains(v)) by {
                            if !vis0.contains(v) {
                                let w = choose|w: int|
                                    0 <= w < pairs_ids(st0).len() && pairs_ids(st0)[w] == v;
                                if w == st0.len() - 1 {
                                    assert(v == id@);
                                    assert(strs_view(visited@).contains(id@));
                                } else {
                                    assert(pairs_ids(stack@)[w] == v);
                                }
                            } else {
                                lemma_push_contains(vis0, id@, v);
                            }
                        }
                    }
                    if first_visit {
                        assert(st0.len() == 1);
                        assert((id, dep) == st0[0]);
                        assert(id@ == root_id@ && dep == 0);
                    }
                }
                let expand_children = match depth {
                    None => true,
                    Some(d) => dep < d,
                };
                if expand_children {
                    let vl = visited.len();
                    let elen = self.edge_count();
                    let mut e = elen;
                    proof {
                        assert(dep < vl);
                    }
                    while e > 0
                        invariant
                            self.wf(),
                            g == self@,
                            f == filter_view(filter),
                            unbounded == (depth is None),
                            has_id(g.nodes, root_id@),
                            e <= elen,
                            elen == g.edges.len(),
                            dep < vl <= visited@.len(),
                            match depth {
                                Some(d) => dep < d,
                                None => true,
                            },
                            strs_view(visited@).contains(id@),
                            reach_within(g, f, root_id@, id@, dep as nat),
                            strs_view(visited@).no_duplicates(),
                            visited@.len() <= g.nodes.len(),
                            forall|i: int| 0 <= i < visited@.len() ==> has_id(
                                g.nodes,
                                #[trigger] strs_view(visited@)[i],
                            ),
                            forall|i: int| 0 <= i < visited@.len() ==> found_within(
                                g,
                                f,
                                root_id@,
                                #[trigger] strs_view(visited@)[i],
                                depth,
                            ),
                            visited@.len() > 0 && visited@[0]@ == root_id@,
                            strs_view(visited@).contains(root_id@) || pairs_ids(
                                stack@,
                            ).contains(root_id@),
                            forall|i: int|
                                0 <= i < stack@.len() ==> has_id(g.nodes, (#[trigger] stack@[i]).0@)
                                    && reach_within(g, f, root_id@, stack@[i].0@, stack@[i].1 as nat)
                                    && (stack@[i].1 <= visited@.len()) && (match depth {
                                    Some(d) => stack@[i].1 <= d,
                                    None => true,
                                }),
                            unbounded ==> forall|u: Seq<char>, v: Seq<char>|
                                strs_view(visited@).contains(u) && u != id@ && #[trigger] step(
                                    g,
                                    f,
                                    u,
                                    v,
                                ) ==> (strs_view(visited@).contains(v) || pairs_ids(
                                    stack@,
                                ).contains(v)),
                            forall|v: Seq<char>|
                                #[trigger] step_from(g, f, e as int, id@, v) ==> pairs_ids(
                                    stack@,
                                ).contains(v),
                            forall|t: int|
                                0 <= t < stack@.len() ==> ((#[trigger] stack@[t]).0@ == root_id@
                                    || exists|i: int|
                                    0 <= i < visited@.len() && step(
                                        g,
                                        f,
                                        strs_view(visited@)[i],
                                        stack@[t].0@,
                                    )),
                            match depth {
                                Some(d) => d >= 1 && !first_visit ==> forall|v: Seq<char>|
                                    #[trigger] step(g, f, root_id@, v) ==> (strs_view(
                                        visited@,
                                    ).contains(v) || pairs_ids(stack@).contains(v)),
                                None => true,
                            },
                        decreases e,
                    {
                        e -= 1;
                        let ghost stp = stack@;
                        let edge = self.edge_at(e);
                        if edge.from.eq(&id) && self.edge_matches_filter(e, filter) {
                            stack.push((edge.to.clone(), dep + 1));
                            proof {
                                assert(stack@ =~= stp.push(stack@[stp.len() as int]));
                                assert(pairs_ids(stack@) =~= pairs_ids(stp).push(edge@.to));
                                assert(reach_within(g, f, root_id@, edge@.to, dep as nat + 1)) by {
                                    assert(step(g, f, id@, edge@.to));
                                }
                                assert forall|w: Seq<char>| #[trigger]
                                    pairs_ids(stp).contains(w) implies pairs_ids(
                                    stack@,
                                ).contains(w) by {
                                    lemma_push_contains(pairs_ids(stp), edge@.to, w);
                                }
                                assert forall|v: Seq<char>| #[trigger]
                                    step_from(g, f, e as int, id@, v) implies pairs_ids(
                                    stack@,
                                ).contains(v) by {
                                    lemma_push_contains(pairs_ids(stp), edge@.to, v);
                                    let we = choose|we: int|
                                        e as int <= we < g.edges.len() && (
                                        #[trigger] g.edges[we]).from == id@ && g.edges[we].to == v
                                            && crate::traversal::edge_matches(g.edges[we], f);
                                    if we > e as int {
                                        assert(step_from(g, f, e as int + 1, id@, v));
                                    }
                                }
                                // the pushed entry's discoverer is the current node
                                assert forall|t: int| 0 <= t < stack@.len() implies ((
                                #[trigger] stack@[t]).0@ == root_id@ || exists|i: int|
                                    0 <= i < visited@.len() && step(
                                        g,
                                        f,
                                        strs_view(visited@)[i],
                                        stack@[t].0@,
                                    )) by {
                                    if t < stp.len() {
                                        assert(stack@[t] == stp[t]);
                                    } else {
                                        assert(stack@[t].0@ == edge@.to);
                                        let i = choose|i: int|
                                            0 <= i < strs_view(visited@).len() && strs_view(
                                                visited@,
                                            )[i] == id@;
                                        assert(step(g, f, strs_view(visited@)[i], edge@.to));
                                    }
                                }
                            }
                        } else {
                            proof {
                                assert forall|v: Seq<char>| #[trigger]
                                    step_from(g, f, e as int, id@, v) implies pairs_ids(
                                    stack@,
                                ).contains(v) by {
                                    let we = choose|we: int|
                                        e as int <= we < g.edges.len() && (
                                        #[trigger] g.edges[we]).from == id@ && g.edges[we].to == v
                                            && crate::traversal::edge_matches(g.edges[we], f);
                                    assert(we > e as int);
                                    assert(step_from(g, f, e as int + 1, id@, v));
                                }
                            }
                        }
                    }
                    proof {
                        if unbounded {
                            assert forall|u: Seq<char>, v: Seq<char>|
                                strs_view(visited@).contains(u) && #[trigger] step(g, f, u, v)
                                    implies (strs_view(visited@).contains(v) || pairs_ids(
                                stack@,
                            ).contains(v)) by {
                                if u == id@ {
                                    assert(step_from(g, f, 0, id@, v));
                                }
                            }
                        }
                        if depth is Some && depth->0 >= 1 && first_visit {
                            assert forall|v: Seq<char>| #[trigger] step(g, f, root_id@, v) implies (
                            strs_view(visited@).contains(v) || pairs_ids(stack@).contains(v)) by {
                                assert(step(g, f, id@, v));
                                assert(step_from(g, f, 0, id@, v));
                            }
                        }
                    }
                } else {
                    proof {
                        if unbounded {
                            assert(false);
                        }
                        if first_visit && depth is Some {
                            assert(dep == 0 && dep >= depth->0);
                        }
                    }
                }
            } else {
                proof {
                    if !strs_view(visited@).contains(root_id@) {
                        let w = choose|w: int|
                            0 <= w < pairs_ids(st0).len() && pairs_ids(st0)[w] == root_id@;
                        if w == st0.len() - 1 {
                            assert(id@ == root_id@);
                            assert(false);
                        } else {
                            assert(pairs_ids(stack@)[w] == root_id@);
                            assert(pairs_ids(stack@).contains(root_id@));
                        }
                    }
                    assert forall|w: Seq<char>| #[trigger]
                        pairs_ids(stack@).contains(w) implies pairs_ids(st0).contains(w) by {
                        let i = choose|i: int|
                            0 <= i < pairs_ids(stack@).len() && pairs_ids(stack@)[i] == w;
                        assert(pairs_ids(st0)[i] == w);
                    }
                    if unbounded {
                        assert forall|u: Seq<char>, v: Seq<char>|
                            strs_view(visited@).contains(u) && #[trigger] step(g, f, u, v) implies (
                        strs_view(visited@).contains(v) || pairs_ids(stack@).contains(v)) by {
                            if !strs_view(visited@).contains(v) {
                                let w = choose|w: int|
                                    0 <= w < pairs_ids(st0).len() && pairs_ids(st0)[w] == v;
                                if w == st0.len() - 1 {
                                    assert(v == id@);
                                    assert(strs_view(visited@).contains(id@));
                                    assert(false);
                                } else {
                                    assert(pairs_ids(stack@)[w] == v);
                                }
                            }
                        }
                    }
                    assert forall|t: int| 0 <= t < stack@.len() implies ((
                    #[trigger] stack@[t]).0@ == root_id@ || exists|i: int|
                        0 <= i < visited@.len() && step(
                            g,
                            f,
                            strs_view(visited@)[i],
                            stack@[t].0@,
                        )) by {
                        assert(stack@[t] == st0[t]);
                    }
                    if depth is Some && depth->0 >= 1 && visited@.len() > 0 {
                        assert forall|v: Seq<char>| #[trigger] step(g, f, root_id@, v) implies (
                        strs_view(visited@).contains(v) || pairs_ids(stack@).contains(v)) by {
                            if !strs_view(visited@).contains(v) {
                                let w = choose|w: int|
                                    0 <= w < pairs_ids(st0).len() && pairs_ids(st0)[w] == v;
                                if w == st0.len() - 1 {
                                    assert(v == id@);
                                    assert(strs_view(visited@).contains(id@));
                                    assert(false);
                                } else {
                                    assert(pairs_ids(stack@)[w] == v);
                                }
                            }
                        }
                    }
                }
            }
        }
        proof {
            if unbounded {
                assert(strs_view(visited@).contains(root_id@));
                assert forall|v: Seq<char>|
                    reachable(g, f, root_id@, v) implies #[trigger] strs_view(visited@).contains(
                    v,
                ) by {
                    let n = choose|n: nat| reach_within(g, f, root_id@, v, n);
                    assert forall|u: Seq<char>, w: Seq<char>|
                        strs_view(visited@).contains(u) && #[trigger] step(g, f, u, w) implies
                        strs_view(visited@).contains(w) by {}
                    lemma_closed_set_reach(g, f, root_id@, strs_view(visited@), v, n);
                }
                assert forall|v: Seq<char>| #[trigger]
                    strs_view(visited@).contains(v) implies reachable(g, f, root_id@, v) by {}
            }
        }
        let h = traversal_result(self, &visited);
        proof {
            let ids = ids_of(h@.nodes);
            assert(ids == strs_view(visited@));
            assert forall|j: int| 1 <= j < ids.len() implies exists|i: int|
                0 <= i < j && step(g, f, ids[i], #[trigger] ids[j]) by {
                let i = choose|i: int|
                    0 <= i < j && step(g, f, strs_view(visited@)[i], strs_view(visited@)[j]);
                assert(step(g, f, ids[i], ids[j]));
            }
            if depth is Some && depth->0 >= 1 {
                assert(strs_view(visited@).contains(root_id@));
                assert forall|v: Seq<char>| #[trigger] step(g, f, root_id@, v) implies ids.contains(
                    v,
                ) by {
                    assert(strs_view(visited@).contains(v));
                }
            }
        }
        Ok(h)
    }
}

/// Two traversals that each visit exactly the qualifying reachable set
/// visit the same set of nodes, whatever their orders.
pub proof fn lemma_same_found_set(
    g: VertexView,
    f: Option<Seq<(Seq<char>, ValueView)>>,
    root: Seq<char>,
    a: Seq<Seq<char>>,
    b: Seq<Seq<char>>,
    depth: Option<usize>,
)
    requires
        forall|v: Seq<char>| #[trigger] a.contains(v) <==> found_within(g, f, root, v, depth),
        forall|v: Seq<char>| #[trigger] b.contains(v) <==> found_within(g, f, root, v, depth),
    ensures
        forall|v: Seq<char>| #[trigger] a.contains(v) <==> b.contains(v),
{
}

} // verus!
