//! Reachability: the specification vocabulary shared by every traversal.
//!
//! `step` is one qualifying edge; `reach_within` bounds the path length;
//! `reachable` is its closure. An optional edge filter restricts which
//! edges may be followed: an edge qualifies only if every filter entry is
//! present in its attributes with an equal value.

use vstd::prelude::*;
use crate::attrs::{Attrs, lookup};
use crate::edge::{Edge, EdgeView};
use crate::graph::{Vertex, VertexView, has_id};
use crate::value::ValueView;

verus! {

/// The view of an optional edge filter.
pub open spec fn filter_view(f: Option<&Attrs>) -> Option<Seq<(Seq<char>, ValueView)>> {
    match f {
        Some(a) => Some(a@),
        None => None,
    }
}

/// The view of a sequence of strings, elementwise.
pub open spec fn strs_view(ss: Seq<String>) -> Seq<Seq<char>> {
    Seq::new(ss.len(), |i: int| ss[i]@)
}

/// Whether an edge qualifies under the filter: every filter key must be
/// present in the edge's attributes with an equal value.
pub open spec fn edge_matches(e: EdgeView, f: Option<Seq<(Seq<char>, ValueView)>>) -> bool {
    match f {
        None => true,
        Some(fm) => forall|i: int|
            0 <= i < fm.len() ==> lookup(e.attr, (#[trigger] fm[i]).0) == Some(fm[i].1),
    }
}

/// One qualifying edge from `a` to `b`.
pub open spec fn step(
    g: VertexView,
    f: Option<Seq<(Seq<char>, ValueView)>>,
    a: Seq<char>,
    b: Seq<char>,
) -> bool {
    exists|e: int|
        0 <= e < g.edges.len() && (#[trigger] g.edges[e]).from == a && g.edges[e].to == b
            && edge_matches(g.edges[e], f)
}

/// A qualifying path of length at most `n` from `root` to `v`.
pub open spec fn reach_within(
    g: VertexView,
    f: Option<Seq<(Seq<char>, ValueView)>>,
    root: Seq<char>,
    v: Seq<char>,
    n: nat,
) -> bool
    decreases n,
{
    v == root || (n > 0 && exists|u: Seq<char>|
        #[trigger] step(g, f, u, v) && reach_within(g, f, root, u, (n - 1) as nat))
}

/// A qualifying path of any length from `root` to `v`.
pub open spec fn reachable(
    g: VertexView,
    f: Option<Seq<(Seq<char>, ValueView)>>,
    root: Seq<char>,
    v: Seq<char>,
) -> bool {
    exists|n: nat| reach_within(g, f, root, v, n)
}

/// The breadth-first found set under an optional depth bound.
pub open spec fn found_within(
    g: VertexView,
    f: Option<Seq<(Seq<char>, ValueView)>>,
    root: Seq<char>,
    v: Seq<char>,
    depth: Option<usize>,
) -> bool {
    match depth {
        Some(d) => reach_within(g, f, root, v, d as nat),
        None => reachable(g, f, root, v),
    }
}

/// Longer bounds reach no fewer nodes.
pub proof fn lemma_reach_mono(
    g: VertexView,
    f: Option<Seq<(Seq<char>, ValueView)>>,
    root: Seq<char>,
    v: Seq<char>,
    n: nat,
    m: nat,
)
    requires
        reach_within(g, f, root, v, n),
        n <= m,
    ensures
        reach_within(g, f, root, v, m),
    decreases n,
{
    if v != root && n > 0 {
        let u = choose|u: Seq<char>|
            #[trigger] step(g, f, u, v) && reach_within(g, f, root, u, (n - 1) as nat);
        lemma_reach_mono(g, f, root, u, (n - 1) as nat, (m - 1) as nat);
    }
}

/// When one more step adds nothing, no number of further steps does.
pub proof fn lemma_reach_fixpoint(
    g: VertexView,
    f: Option<Seq<(Seq<char>, ValueView)>>,
    root: Seq<char>,
    k: nat,
    v: Seq<char>,
    m: nat,
)
    requires
        forall|w: Seq<char>|
            #[trigger] reach_within(g, f, root, w, k + 1) ==> reach_within(g, f, root, w, k),
        reach_within(g, f, root, v, m),
    ensures
        reach_within(g, f, root, v, k),
    decreases m,
{
    if v == root {
        assert(reach_within(g, f, root, v, 0));
        lemma_reach_mono(g, f, root, v, 0, k);
    } else if m > 0 {
        let u = choose|u: Seq<char>|
            #[trigger] step(g, f, u, v) && reach_within(g, f, root, u, (m - 1) as nat);
        lemma_reach_fixpoint(g, f, root, k, u, (m - 1) as nat);
        assert(reach_within(g, f, root, v, k + 1));
    }
}

impl Vertex {
    /// Whether the edge at table position `e` qualifies under the filter.
    pub fn edge_matches_filter(&self, e: usize, filter: Option<&Attrs>) -> (r: bool)
        requires
            e < self@.edges.len(),
        ensures
            r == edge_matches(self@.edges[e as int], filter_view(filter)),
    {
        let fm = match filter {
            None => {
                return true;
            },
            Some(fm) => fm,
        };
        let edge: &Edge = self.edge_at(e);
        let n = fm.len();
        let mut i: usize = 0;
        while i < n
            invariant
                filter_view(filter) == Some(fm@),
                n == fm@.len(),
                i <= n,
                e < self@.edges.len(),
                edge@ == self@.edges[e as int],
                forall|j: int|
                    0 <= j < i ==> lookup(edge@.attr, (#[trigger] fm@[j]).0) == Some(fm@[j].1),
            decreases n - i,
        {
            let key: &String = fm.key_at(i);
            let want = fm.value_at(i);
            match edge.attr.get(key) {
                Some(got) => {
                    if !got.eq_value(want) {
                        proof {
                            assert(filter_view(filter) == Some(fm@));
                            assert(lookup(self@.edges[e as int].attr, fm@[i as int].0) == Some(
                                got@,
                            ));
                            assert(got@ != fm@[i as int].1);
                            assert(!edge_matches(self@.edges[e as int], filter_view(filter)));
                        }
                        return false;
                    }
                },
                None => {
                    proof {
                        assert(filter_view(filter) == Some(fm@));
                        assert(lookup(self@.edges[e as int].attr, fm@[i as int].0) is None);
                        assert(!edge_matches(self@.edges[e as int], filter_view(filter)));
                    }
                    return false;
                },
            }
            i += 1;
        }
        true
    }
}

/// Linear membership scan over owned strings.
pub fn contains_string(ids: &Vec<String>, s: &String) -> (r: bool)
    ensures
        r == strs_view(ids@).contains(s@),
{
    let n = ids.len();
    let mut i: usize = 0;
    while i < n
        invariant
            n == ids@.len(),
            i <= n,
            forall|j: int| 0 <= j < i ==> strs_view(ids@)[j] != s@,
        decreases n - i,
    {
        if ids[i].eq(s) {
            assert(strs_view(ids@)[i as int] == s@);
            return true;
        }
        i += 1;
    }
    proof {
        if strs_view(ids@).contains(s@) {
            let j = choose|j: int| 0 <= j < strs_view(ids@).len() && strs_view(ids@)[j] == s@;
            assert(strs_view(ids@)[j] == s@);
            assert(false);
        }
    }
    false
}

/// One qualifying edge among the first `m` edges of the table.
pub open spec fn step_upto(
    g: VertexView,
    f: Option<Seq<(Seq<char>, ValueView)>>,
    m: int,
    a: Seq<char>,
    b: Seq<char>,
) -> bool {
    exists|e: int|
        0 <= e < m && e < g.edges.len() && (#[trigger] g.edges[e]).from == a && g.edges[e].to == b
            && edge_matches(g.edges[e], f)
}

pub proof fn lemma_step_upto_full(
    g: VertexView,
    f: Option<Seq<(Seq<char>, ValueView)>>,
    a: Seq<char>,
    b: Seq<char>,
)
    ensures
        step_upto(g, f, g.edges.len() as int, a, b) == step(g, f, a, b),
{
    if step_upto(g, f, g.edges.len() as int, a, b) {
        let e = choose|e: int|
            0 <= e < g.edges.len() && (#[trigger] g.edges[e]).from == a && g.edges[e].to == b
                && edge_matches(g.edges[e], f);
        assert(step(g, f, a, b));
    }
    if step(g, f, a, b) {
        let e = choose|e: int|
            0 <= e < g.edges.len() && (#[trigger] g.edges[e]).from == a && g.edges[e].to == b
                && edge_matches(g.edges[e], f);
        assert(step_upto(g, f, g.edges.len() as int, a, b));
    }
}

/// One qualifying step out of some member of `fr`.
pub open spec fn succ_of(
    g: VertexView,
    f: Option<Seq<(Seq<char>, ValueView)>>,
    fr: Seq<Seq<char>>,
    v: Seq<char>,
) -> bool {
    exists|j: int| 0 <= j < fr.len() && step(g, f, #[trigger] fr[j], v)
}

pub proof fn lemma_strs_view_push(ss: Seq<String>, x: String)
    ensures
        strs_view(ss.push(x)) == strs_view(ss).push(x@),
{
    assert(strs_view(ss.push(x)) =~= strs_view(ss).push(x@));
}

pub proof fn lemma_strs_view_add(a: Seq<String>, b: Seq<String>)
    ensures
        strs_view(a + b) == strs_view(a) + strs_view(b),
{
    assert(strs_view(a + b) =~= strs_view(a) + strs_view(b));
}

/// Distinct ids all present in the node table: no more of them than nodes.
pub proof fn lemma_distinct_ids_bound(ids: Seq<Seq<char>>, nodes: Seq<crate::node::NodeView>)
    requires
        ids.no_duplicates(),
        forall|i: int| 0 <= i < ids.len() ==> has_id(nodes, #[trigger] ids[i]),
    ensures
        ids.len() <= nodes.len(),
{
    broadcast use vstd::seq_lib::seq_to_set_is_finite;
    broadcast use vstd::set::group_set_axioms;

    let nid = Seq::new(nodes.len(), |i: int| nodes[i].id);
    ids.unique_seq_to_set();
    assert forall|x: Seq<char>| ids.to_set().contains(x) implies nid.to_set().contains(x) by {
        assert(ids.contains(x));
        let w = choose|k: int| 0 <= k < nodes.len() && (#[trigger] nodes[k].id) == x;
        assert(nid[w] == x);
        assert(nid.contains(x));
    }
    vstd::set_lib::lemma_len_subset(ids.to_set(), nid.to_set());
    nid.lemma_cardinality_of_set();
}

/// Expand one breadth-first layer: append to `visited`, and return, every
/// id one qualifying step out of `frontier` that was not yet visited.
fn expand_layer(
    g: &Vertex,
    filter: Option<&Attrs>,
    visited: &mut Vec<String>,
    frontier: &Vec<String>,
) -> (next: Vec<String>)
    requires
        g.wf(),
        strs_view(old(visited)@).no_duplicates(),
    ensures
        final(visited)@ == old(visited)@ + next@,
        strs_view(final(visited)@).no_duplicates(),
        forall|v: Seq<char>|
            #[trigger] strs_view(next@).contains(v) <==> (!strs_view(old(visited)@).contains(v)
                && succ_of(g@, filter_view(filter), strs_view(frontier@), v)),
        forall|i: int| 0 <= i < next@.len() ==> has_id(g@.nodes, #[trigger] strs_view(next@)[i]),
{
    broadcast use vstd::seq_lib::group_seq_properties;

    let ghost vis0 = visited@;
    let ghost f = filter_view(filter);
    let mut next: Vec<String> = Vec::new();
    let fn_len = frontier.len();
    let mut fi: usize = 0;
    proof {
        assert(strs_view(frontier@).take(0) =~= Seq::<Seq<char>>::empty());
    }
    while fi < fn_len
        invariant
            g.wf(),
            f == filter_view(filter),
            fn_len == frontier@.len(),
            fi <= fn_len,
            visited@ == vis0 + next@,
            strs_view(vis0).no_duplicates(),
            strs_view(visited@).no_duplicates(),
            forall|v: Seq<char>|
                #[trigger] strs_view(next@).contains(v) <==> (!strs_view(vis0).contains(v)
                    && succ_of(g@, f, strs_view(frontier@).take(fi as int), v)),
            forall|i: int| 0 <= i < next@.len() ==> has_id(
                g@.nodes,
                #[trigger] strs_view(next@)[i],
            ),
        decreases fn_len - fi,
    {
        let e_len = g.edge_count();
        let mut e: usize = 0;
        let ghost fr_pre = strs_view(frontier@).take(fi as int);
        let ghost u = frontier@[fi as int]@;
        while e < e_len
            invariant
                g.wf(),
                f == filter_view(filter),
                fn_len == frontier@.len(),
                fi < fn_len,
                e <= e_len,
                e_len == g@.edges.len(),
                fr_pre == strs_view(frontier@).take(fi as int),
                u == frontier@[fi as int]@,
                visited@ == vis0 + next@,
                strs_view(vis0).no_duplicates(),
                strs_view(visited@).no_duplicates(),
                forall|v: Seq<char>|
                    #[trigger] strs_view(next@).contains(v) <==> (!strs_view(vis0).contains(v) && (
                    succ_of(g@, f, fr_pre, v) || step_upto(g@, f, e as int, u, v))),
                forall|i: int| 0 <= i < next@.len() ==> has_id(
                    g@.nodes,
                    #[trigger] strs_view(next@)[i],
                ),
            decreases e_len - e,
        {
            let edge = g.edge_at(e);
            if edge.from.eq(&frontier[fi]) && g.edge_matches_filter(e, filter) {
                if !contains_string(visited, &edge.to) {
                    let ghost next_pre = next@;
                    let ghost vis_pre = visited@;
                    visited.push(edge.to.clone());
                    next.push(edge.to.clone());
                    proof {
                        lemma_strs_view_push(vis_pre, visited@[vis_pre.len() as int]);
                        lemma_strs_view_push(next_pre, next@[next_pre.len() as int]);
                        assert(visited@ =~= vis0 + next@);
                        let v = edge@.to;
                        assert(g@.edges[e as int].from == u && g@.edges[e as int].to == v
                            && edge_matches(g@.edges[e as int], f));
                        assert(step_upto(g@, f, e as int + 1, u, v));
                        // has_id of the target from graph well-formedness
                        assert(has_id(g@.nodes, v));
                        // new-visited distinctness: v was not in visited
                        assert(!strs_view(vis_pre).contains(v));
                        assert(strs_view(visited@) =~= strs_view(vis_pre).push(v));
                        // membership characterization after the push
                        assert forall|w: Seq<char>| #[trigger]
                            strs_view(next@).contains(w) implies (!strs_view(vis0).contains(w) && (
                        succ_of(g@, f, fr_pre, w) || step_upto(g@, f, e as int + 1, u, w))) by {
                            if w == v {
                                assert(!strs_view(vis0).contains(v)) by {
                                    assert forall|z: Seq<char>| #[trigger]
                                        strs_view(vis0).contains(z) implies strs_view(
                                        vis_pre,
                                    ).contains(z) by {
                                        let zi = choose|zi: int|
                                            0 <= zi < strs_view(vis0).len() && strs_view(vis0)[zi]
                                                == z;
                                        assert(strs_view(vis_pre)[zi] == z);
                                    }
                                }
                            } else {
                                assert(strs_view(next_pre).contains(w));
                            }
                        }
                        assert forall|w: Seq<char>|
                            (!strs_view(vis0).contains(w) && (succ_of(g@, f, fr_pre, w)
                                || step_upto(g@, f, e as int + 1, u, w))) implies #[trigger]
                            strs_view(next@).contains(w) by {
                            if w == v {
                                assert(strs_view(next@)[next_pre.len() as int] == v);
                            } else {
                                if step_upto(g@, f, e as int + 1, u, w) {
                                    let we = choose|we: int|
                                        0 <= we < e + 1 && we < g@.edges.len() && (
                                        #[trigger] g@.edges[we]).from == u && g@.edges[we].to == w
                                            && edge_matches(g@.edges[we], f);
                                    assert(we < e || w == v);
                                    assert(step_upto(g@, f, e as int, u, w));
                                }
                                assert(strs_view(next_pre).contains(w));
                                let wi = choose|wi: int|
                                    0 <= wi < strs_view(next_pre).len() && strs_view(next_pre)[wi]
                                        == w;
                                assert(strs_view(next@)[wi] == w);
                            }
                        }
                    }
                } else {
                    proof {
                        let v = edge@.to;
                        assert(g@.edges[e as int].from == u && g@.edges[e as int].to == v
                            && edge_matches(g@.edges[e as int], f));
                        assert(step_upto(g@, f, e as int + 1, u, v));
                        // already visited: either in the base set or already in next
                        assert(strs_view(visited@).contains(v));
                        assert forall|w: Seq<char>|
                            (!strs_view(vis0).contains(w) && (succ_of(g@, f, fr_pre, w)
                                || step_upto(g@, f, e as int + 1, u, w))) implies #[trigger]
                            strs_view(next@).contains(w) by {
                            if w == v {
                                lemma_strs_view_add(vis0, next@);
                                assert(strs_view(vis0) + strs_view(next@) == strs_view(visited@));
                                if !strs_view(vis0).contains(v) {
                                    let vi = choose|vi: int|
                                        0 <= vi < strs_view(visited@).len() && strs_view(
                                            visited@,
                                        )[vi] == v;
                                    if vi < strs_view(vis0).len() {
                                        assert(strs_view(vis0)[vi] == v);
                                        assert(false);
                                    } else {
                                        assert(strs_view(next@)[vi - strs_view(vis0).len()] == v);
                                    }
                                }
                            } else {
                                if step_upto(g@, f, e as int + 1, u, w) {
                                    let we = choose|we: int|
                                        0 <= we < e + 1 && we < g@.edges.len() && (
                                        #[trigger] g@.edges[we]).from == u && g@.edges[we].to == w
                                            && edge_matches(g@.edges[we], f);
                                    assert(step_upto(g@, f, e as int, u, w));
                                }
                            }
                        }
                    }
                }
            } else {
                proof {
                    assert forall|w: Seq<char>|
                        step_upto(g@, f, e as int + 1, u, w) implies (succ_of(g@, f, fr_pre, w)
                            || step_upto(g@, f, e as int, u, w) || #[trigger] strs_view(
                            next@,
                        ).contains(w)) by {
                        let we = choose|we: int|
                            0 <= we < e + 1 && we < g@.edges.len() && (#[trigger] g@.edges[we]).from
                                == u && g@.edges[we].to == w && edge_matches(g@.edges[we], f);
                        assert(we < e);
                    }
                }
            }
            e += 1;
        }
        proof {
            assert(strs_view(frontier@).take(fi as int + 1) =~= fr_pre.push(u));
            assert forall|v: Seq<char>| #[trigger]
                strs_view(next@).contains(v) implies (!strs_view(vis0).contains(v) && succ_of(
                g@,
                f,
                strs_view(frontier@).take(fi as int + 1),
                v,
            )) by {
                if step_upto(g@, f, e_len as int, u, v) {
                    lemma_step_upto_full(g@, f, u, v);
                    let fr2 = strs_view(frontier@).take(fi as int + 1);
                    assert(fr2[fi as int] == u);
                    assert(succ_of(g@, f, fr2, v));
                } else {
                    let j = choose|j: int| 0 <= j < fr_pre.len() && step(g@, f, #[trigger] fr_pre[j], v);
                    let fr2 = strs_view(frontier@).take(fi as int + 1);
                    assert(fr2[j] == fr_pre[j]);
                    assert(succ_of(g@, f, fr2, v));
                }
            }
            assert forall|v: Seq<char>|
                (!strs_view(vis0).contains(v) && succ_of(
                    g@,
                    f,
                    strs_view(frontier@).take(fi as int + 1),
                    v,
                )) implies #[trigger] strs_view(next@).contains(v) by {
                let fr2 = strs_view(frontier@).take(fi as int + 1);
                let j = choose|j: int| 0 <= j < fr2.len() && step(g@, f, #[trigger] fr2[j], v);
                if j < fi as int {
                    assert(fr_pre[j] == fr2[j]);
                    assert(succ_of(g@, f, fr_pre, v));
                } else {
                    assert(fr2[j] == u);
                    lemma_step_upto_full(g@, f, u, v);
                }
            }
        }
        fi += 1;
    }
    proof {
        assert(strs_view(frontier@).take(fn_len as int) =~= strs_view(frontier@));
    }
    next
}

pub proof fn lemma_push_contains(s: Seq<Seq<char>>, x: Seq<char>, v: Seq<char>)
    ensures
        s.push(x).contains(v) <==> (s.contains(v) || v == x),
{
    if s.push(x).contains(v) {
        let i = choose|i: int| 0 <= i < s.push(x).len() && s.push(x)[i] == v;
        if i < s.len() {
            assert(s[i] == v);
        }
    }
    if s.contains(v) {
        let i = choose|i: int| 0 <= i < s.len() && s[i] == v;
        assert(s.push(x)[i] == v);
    }
    assert(s.push(x)[s.len() as int] == x);
}

pub proof fn lemma_concat_contains(a: Seq<Seq<char>>, b: Seq<Seq<char>>, v: Seq<char>)
    ensures
        (a + b).contains(v) <==> a.contains(v) || b.contains(v),
{
    if (a + b).contains(v) {
        let i = choose|i: int| 0 <= i < (a + b).len() && (a + b)[i] == v;
        if i < a.len() {
            assert(a[i] == v);
        } else {
            assert(b[i - a.len()] == v);
        }
    }
    if a.contains(v) {
        let i = choose|i: int| 0 <= i < a.len() && a[i] == v;
        assert((a + b)[i] == v);
    }
    if b.contains(v) {
        let i = choose|i: int| 0 <= i < b.len() && b[i] == v;
        assert((a + b)[a.len() + i] == v);
    }
}

/// The breadth-first visitation order from `root`: layer-synchronous, each
/// layer in frontier order, each node once. The returned order holds
/// exactly the ids whose breadth-first distance from the root respects the
/// depth bound; with no bound, exactly the reachable ids. Beside each id
/// stands the layer at which it was discovered: its exact breadth-first
/// distance from the root.
pub fn bfs_visit(g: &Vertex, root: &String, depth: Option<usize>, filter: Option<&Attrs>) -> (r: (
    Vec<String>,
    Vec<usize>,
))
    requires
        g.wf(),
        has_id(g@.nodes, root@),
    ensures
        ({
            let (order, dist) = r;
            &&& strs_view(order@).no_duplicates()
            &&& order@.len() > 0 && order@[0]@ == root@
            &&& forall|i: int|
                0 <= i < order@.len() ==> has_id(g@.nodes, #[trigger] strs_view(order@)[i])
            &&& forall|v: Seq<char>|
                #[trigger] strs_view(order@).contains(v) <==> found_within(
                    g@,
                    filter_view(filter),
                    root@,
                    v,
                    depth,
                )
            &&& dist@.len() == order@.len()
            &&& forall|i: int|
                0 <= i < order@.len() ==> reach_within(
                    g@,
                    filter_view(filter),
                    root@,
                    #[trigger] strs_view(order@)[i],
                    dist@[i] as nat,
                ) && (dist@[i] > 0 ==> !reach_within(
                    g@,
                    filter_view(filter),
                    root@,
                    strs_view(order@)[i],
                    (dist@[i] - 1) as nat,
                ))
            &&& forall|a: int, b: int| 0 <= a <= b < dist@.len() ==> #[trigger] dist@[a]
                <= #[trigger] dist@[b]
            &&& match depth {
                Some(d) => forall|i: int| 0 <= i < dist@.len() ==> #[trigger] dist@[i] <= d,
                None => true,
            }
        }),
{
    broadcast use vstd::seq_lib::group_seq_properties;

    let ghost f = filter_view(filter);
    let mut visited: Vec<String> = Vec::new();
    visited.push(root.clone());
    let mut dist: Vec<usize> = Vec::new();
    dist.push(0);
    let mut frontier: Vec<String> = Vec::new();
    frontier.push(root.clone());
    let mut remaining: usize = match depth {
        Some(d) => d,
        None => 0,
    };
    let unbounded: bool = match depth {
        Some(_) => false,
        None => true,
    };
    let mut layer: usize = 0;
    let ghost mut k: nat = 0;
    proof {
        assert(strs_view(visited@) =~= Seq::<Seq<char>>::empty().push(root@));
        assert(strs_view(frontier@) =~= Seq::<Seq<char>>::empty().push(root@));
        assert forall|v: Seq<char>| #[trigger]
            strs_view(visited@).contains(v) implies reach_within(g@, f, root@, v, k) by {
            let i = choose|i: int|
                0 <= i < strs_view(visited@).len() && strs_view(visited@)[i] == v;
            assert(v == root@);
        }
        assert forall|v: Seq<char>|
            reach_within(g@, f, root@, v, k) implies #[trigger] strs_view(visited@).contains(
            v,
        ) by {
            assert(v == root@);
            assert(strs_view(visited@)[0] == root@);
        }
        lemma_distinct_ids_bound(strs_view(visited@), g@.nodes);
    }
    while frontier.len() > 0 && (unbounded || remaining > 0)
        invariant
            unbounded == (depth is None),
            g.wf(),
            has_id(g@.nodes, root@),
            f == filter_view(filter),
            strs_view(visited@).no_duplicates(),
            visited@.len() > 0 && visited@[0]@ == root@,
            visited@.len() <= g@.nodes.len(),
            forall|i: int| 0 <= i < visited@.len() ==> has_id(
                g@.nodes,
                #[trigger] strs_view(visited@)[i],
            ),
            forall|v: Seq<char>|
                #[trigger] strs_view(visited@).contains(v) <==> reach_within(g@, f, root@, v, k),
            forall|v: Seq<char>| #[trigger]
                strs_view(frontier@).contains(v) ==> strs_view(visited@).contains(v),
            forall|u: Seq<char>, v: Seq<char>|
                strs_view(visited@).contains(u) && !strs_view(frontier@).contains(u) && #[trigger]
                step(g@, f, u, v) ==> strs_view(visited@).contains(v),
            match depth {
                Some(d) => k + remaining == d,
                None => true,
            },
            layer == k,
            layer < visited@.len(),
            dist@.len() == visited@.len(),
            forall|i: int| 0 <= i < dist@.len() ==> #[trigger] dist@[i] <= k,
            forall|a: int, b: int| 0 <= a <= b < dist@.len() ==> #[trigger] dist@[a]
                <= #[trigger] dist@[b],
            forall|i: int|
                0 <= i < visited@.len() ==> reach_within(
                    g@,
                    f,
                    root@,
                    #[trigger] strs_view(visited@)[i],
                    dist@[i] as nat,
                ) && (dist@[i] > 0 ==> !reach_within(
                    g@,
                    f,
                    root@,
                    strs_view(visited@)[i],
                    (dist@[i] - 1) as nat,
                )),
        decreases g@.nodes.len() - visited@.len(), frontier@.len(),
    {
        let ghost vis0 = visited@;
        let ghost fr0 = strs_view(frontier@);
        let next = expand_layer(g, filter, &mut visited, &frontier);
        proof {
            lemma_strs_view_add(vis0, next@);
            let vis1 = strs_view(visited@);
            let nxt = strs_view(next@);
            assert(vis1 == strs_view(vis0) + nxt);
            // the new visited set is exactly what is reachable in one more layer
            assert forall|v: Seq<char>| #[trigger]
                vis1.contains(v) implies reach_within(g@, f, root@, v, k + 1) by {
                lemma_concat_contains(strs_view(vis0), nxt, v);
                if strs_view(vis0).contains(v) {
                    lemma_reach_mono(g@, f, root@, v, k, k + 1);
                } else {
                    assert(nxt.contains(v));
                    let j = choose|j: int| 0 <= j < fr0.len() && step(g@, f, #[trigger] fr0[j], v);
                    assert(fr0.contains(fr0[j]));
                    assert(strs_view(vis0).contains(fr0[j]));
                    assert(reach_within(g@, f, root@, fr0[j], k));
                    assert(step(g@, f, fr0[j], v));
                }
            }
            assert forall|v: Seq<char>|
                reach_within(g@, f, root@, v, k + 1) implies #[trigger] vis1.contains(v) by {
                lemma_concat_contains(strs_view(vis0), nxt, v);
                if v == root@ {
                    assert(reach_within(g@, f, root@, v, k));
                    assert(strs_view(vis0).contains(v));
                } else {
                    let u = choose|u: Seq<char>|
                        #[trigger] step(g@, f, u, v) && reach_within(g@, f, root@, u, k);
                    assert(strs_view(vis0).contains(u));
                    if fr0.contains(u) {
                        assert(succ_of(g@, f, fr0, v)) by {
                            let j = choose|j: int| 0 <= j < fr0.len() && fr0[j] == u;
                            assert(step(g@, f, fr0[j], v));
                        }
                        if !strs_view(vis0).contains(v) {
                            assert(nxt.contains(v));
                        }
                    } else {
                        assert(strs_view(vis0).contains(v));
                    }
                }
            }
            // closure of the processed region under one step
            assert forall|u: Seq<char>, v: Seq<char>|
                vis1.contains(u) && !nxt.contains(u) && #[trigger] step(g@, f, u, v) implies
                vis1.contains(v) by {
                lemma_concat_contains(strs_view(vis0), nxt, u);
                lemma_concat_contains(strs_view(vis0), nxt, v);
                assert(strs_view(vis0).contains(u));
                if fr0.contains(u) {
                    let j = choose|j: int| 0 <= j < fr0.len() && fr0[j] == u;
                    assert(step(g@, f, fr0[j], v));
                    assert(succ_of(g@, f, fr0, v));
                    if !strs_view(vis0).contains(v) {
                        assert(nxt.contains(v));
                    }
                } else {
                    assert(strs_view(vis0).contains(v));
                }
            }
            assert forall|v: Seq<char>| #[trigger]
                nxt.contains(v) implies vis1.contains(v) by {
                lemma_concat_contains(strs_view(vis0), nxt, v);
            }
            lemma_distinct_ids_bound(vis1, g@.nodes);
        }
        if next.len() > 0 {
            proof {
                k = k + 1;
            }
            let vis_len = visited.len();
            assert(layer < vis_len);
            layer += 1;
            if !unbounded {
                remaining -= 1;
            }
            let ghost vis1 = strs_view(visited@);
            let ghost nxt = strs_view(next@);
            let added = next.len();
            let mut q: usize = 0;
            while q < added
                invariant
                    q <= added,
                    added == next@.len(),
                    vis1 == strs_view(visited@),
                    nxt == strs_view(next@),
                    visited@ == vis0 + next@,
                    dist@.len() == vis0.len() + q,
                    layer == k,
                    k >= 1,
                    forall|i: int| 0 <= i < dist@.len() ==> #[trigger] dist@[i] <= k,
                    forall|i: int| vis0.len() <= i < dist@.len() ==> #[trigger] dist@[i] == layer,
                    forall|a: int, b: int| 0 <= a <= b < dist@.len() ==> #[trigger] dist@[a]
                        <= #[trigger] dist@[b],
                    forall|i: int| 0 <= i < vis0.len() ==> #[trigger] dist@[i] <= k - 1,
                    forall|i: int|
                        0 <= i < vis0.len() ==> reach_within(
                            g@,
                            f,
                            root@,
                            #[trigger] strs_view(visited@)[i],
                            dist@[i] as nat,
                        ) && (dist@[i] > 0 ==> !reach_within(
                            g@,
                            f,
                            root@,
                            strs_view(visited@)[i],
                            (dist@[i] - 1) as nat,
                        )),
                    forall|v: Seq<char>|
                        #[trigger] nxt.contains(v) ==> reach_within(g@, f, root@, v, k)
                            && !reach_within(g@, f, root@, v, (k - 1) as nat),
                decreases added - q,
            {
                dist.push(layer);
                q += 1;
            }
            proof {
                assert forall|i: int|
                    0 <= i < visited@.len() implies reach_within(
                    g@,
                    f,
                    root@,
                    #[trigger] strs_view(visited@)[i],
                    dist@[i] as nat,
                ) && (dist@[i] > 0 ==> !reach_within(
                    g@,
                    f,
                    root@,
                    strs_view(visited@)[i],
                    (dist@[i] - 1) as nat,
                )) by {
                    if i >= vis0.len() {
                        assert(strs_view(visited@)[i] == strs_view(next@)[i - vis0.len()]);
                        assert(strs_view(next@).contains(strs_view(visited@)[i]));
                        assert(dist@[i] == layer);
                    }
                }
            }
        }
        frontier = next;
    }
    proof {
        let vis = strs_view(visited@);
        if frontier.len() == 0 {
            // the frontier is exhausted: one more layer adds nothing
            assert forall|w: Seq<char>| #[trigger]
                reach_within(g@, f, root@, w, k + 1) implies reach_within(g@, f, root@, w, k) by {
                if w == root@ {
                } else {
                    let u = choose|u: Seq<char>|
                        #[trigger] step(g@, f, u, w) && reach_within(g@, f, root@, u, k);
                    assert(vis.contains(u));
                    assert(!strs_view(frontier@).contains(u));
                    assert(vis.contains(w));
                }
            }
            assert forall|v: Seq<char>| #[trigger]
                vis.contains(v) implies found_within(g@, f, root@, v, depth) by {
                match depth {
                    Some(d) => {
                        lemma_reach_mono(g@, f, root@, v, k, d as nat);
                    },
                    None => {
                        assert(reach_within(g@, f, root@, v, k));
                    },
                }
            }
            assert forall|v: Seq<char>|
                found_within(g@, f, root@, v, depth) implies #[trigger] vis.contains(v) by {
                match depth {
                    Some(d) => {
                        lemma_reach_fixpoint(g@, f, root@, k, v, d as nat);
                    },
                    None => {
                        let n = choose|n: nat| reach_within(g@, f, root@, v, n);
                        lemma_reach_fixpoint(g@, f, root@, k, v, n);
                    },
                }
            }
        } else {
            // the depth bound is exhausted: k equals the bound
            assert(!unbounded && remaining == 0);
        }
    }
    (visited, dist)
}

/// A set that contains the root and is closed under qualifying steps
/// contains everything reachable.
pub proof fn lemma_closed_set_reach(
    g: VertexView,
    f: Option<Seq<(Seq<char>, ValueView)>>,
    root: Seq<char>,
    s: Seq<Seq<char>>,
    v: Seq<char>,
    n: nat,
)
    requires
        s.contains(root),
        forall|u: Seq<char>, w: Seq<char>|
            s.contains(u) && #[trigger] step(g, f, u, w) ==> s.contains(w),
        reach_within(g, f, root, v, n),
    ensures
        s.contains(v),
    decreases n,
{
    if v != root && n > 0 {
        let u = choose|u: Seq<char>|
            #[trigger] step(g, f, u, v) && reach_within(g, f, root, u, (n - 1) as nat);
        lemma_closed_set_reach(g, f, root, s, u, (n - 1) as nat);
    }
}

} // verus!
