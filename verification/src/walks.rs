//! Random walks: repeated independent walks that pick uniformly among the
//! qualifying next edges at every step, stop early at a dead end, and are
//! returned deduplicated.
//!
//! Whatever the random choices, every returned walk starts at the start
//! node, follows edges of the graph, respects the length bounds, and, when
//! revisiting is disallowed, never repeats a node.

use vstd::prelude::*;
use crate::attrs::lookup;
use crate::edge::EdgeView;
use crate::graph::{Vertex, VertexView, has_id};
use crate::traversal::{strs_view, contains_string, step, step_upto, lemma_step_upto_full,
    lemma_strs_view_push};
use crate::value::ValueView;
use crate::GraphError;

verus! {

/// Relies on rand's thread-local generator through `Rng::gen_range`: the
/// drawn value lies below `n`; nothing more is assumed of it.
#[verifier::external_body]
fn pick_index(n: usize) -> (r: usize)
    requires
        n > 0,
    ensures
        r < n,
{
    rand::Rng::gen_range(&mut rand::thread_rng(), 0..n)
}

/// One walk: the node ids in visit order and, when asked for, the edge
/// type label between each consecutive pair.
pub struct Walk {
    pub nodes: Vec<String>,
    pub edges: Vec<String>,
}

/// The type label of an edge under `field`: the string stored there, or
/// `unknown` when absent or not a string.
pub open spec fn edge_label(e: EdgeView, field: Seq<char>) -> Seq<char> {
    match lookup(e.attr, field) {
        Some(ValueView::Str(s)) => s,
        _ => "unknown"@,
    }
}

/// A labelled qualifying step: some edge runs from `a` to `b`, and when
/// labels are kept, `label` is that edge's type label under `field`.
pub open spec fn labelled_step(
    g: VertexView,
    a: Seq<char>,
    b: Seq<char>,
    keep: bool,
    label: Seq<char>,
    field: Seq<char>,
) -> bool {
    exists|e: int|
        0 <= e < g.edges.len() && (#[trigger] g.edges[e]).from == a && g.edges[e].to == b && (keep
            ==> label == edge_label(g.edges[e], field))
}

/// A dead end: no admissible step leads out of `last` — every edge from it
/// is barred, and with revisiting allowed nothing bars an edge, so none
/// may exist at all.
pub open spec fn walk_stuck(
    g: VertexView,
    visited: Seq<Seq<char>>,
    last: Seq<char>,
    allow_revisit: bool,
) -> bool {
    forall|v: Seq<char>|
        #[trigger] step(g, None::<Seq<(Seq<char>, ValueView)>>, last, v) ==> (!allow_revisit
            && visited.contains(v))
}

/// What holds of every returned walk, whatever the random draws.
pub open spec fn walk_ok(
    g: VertexView,
    start: Seq<char>,
    max_length: usize,
    allow_revisit: bool,
    keep: bool,
    field: Seq<char>,
    w: Walk,
) -> bool {
    &&& 1 <= w.nodes@.len() <= max_length
    &&& strs_view(w.nodes@)[0] == start
    &&& (!allow_revisit ==> strs_view(w.nodes@).no_duplicates())
    &&& w.edges@.len() == (if keep {
        w.nodes@.len() - 1
    } else {
        0
    })
    &&& forall|i: int|
        0 <= i < w.nodes@.len() - 1 ==> labelled_step(
            g,
            #[trigger] strs_view(w.nodes@)[i],
            strs_view(w.nodes@)[i + 1],
            keep,
            if keep {
                strs_view(w.edges@)[i]
            } else {
                Seq::empty()
            },
            field,
        )
    &&& (w.nodes@.len() < max_length ==> walk_stuck(
        g,
        strs_view(w.nodes@),
        strs_view(w.nodes@).last(),
        allow_revisit,
    ))
}

/// One simple random walk without backtracking: at each step one of the
/// qualifying next edges is drawn uniformly; a dead end ends the walk.
fn random_walk(
    g: &Vertex,
    start: &String,
    max_length: usize,
    allow_revisit: bool,
    keep: bool,
    field: &String,
) -> (w: Walk)
    requires
        g.wf(),
        has_id(g@.nodes, start@),
        max_length >= 1,
    ensures
        walk_ok(g@, start@, max_length, allow_revisit, keep, field@, w),
{
    let mut nodes: Vec<String> = Vec::new();
    let mut labels: Vec<String> = Vec::new();
    nodes.push(start.clone());
    let mut current: String = start.clone();
    let mut stuck = false;
    proof {
        assert(strs_view(nodes@) =~= Seq::<Seq<char>>::empty().push(start@));
    }
    while nodes.len() < max_length && !stuck
        invariant
            g.wf(),
            1 <= nodes@.len() <= max_length,
            strs_view(nodes@)[0] == start@,
            current@ == strs_view(nodes@)[nodes@.len() - 1],
            !allow_revisit ==> strs_view(nodes@).no_duplicates(),
            labels@.len() == (if keep {
                nodes@.len() - 1
            } else {
                0
            }),
            forall|i: int|
                0 <= i < nodes@.len() - 1 ==> labelled_step(
                    g@,
                    #[trigger] strs_view(nodes@)[i],
                    strs_view(nodes@)[i + 1],
                    keep,
                    if keep {
                        strs_view(labels@)[i]
                    } else {
                        Seq::empty()
                    },
                    field@,
                ),
            stuck ==> walk_stuck(g@, strs_view(nodes@), current@, allow_revisit),
        decreases max_length - nodes@.len(), if stuck {
            0int
        } else {
            1int
        },
    {
        // gather the qualifying next edges out of the current node
        let mut options: Vec<(String, String)> = Vec::new();
        let elen = g.edge_count();
        let mut e: usize = 0;
        while e < elen
            invariant
                g.wf(),
                e <= elen,
                elen == g@.edges.len(),
                !allow_revisit ==> strs_view(nodes@).no_duplicates(),
                forall|q: int|
                    0 <= q < options@.len() ==> labelled_step(
                        g@,
                        current@,
                        (#[trigger] options@[q]).0@,
                        keep,
                        options@[q].1@,
                        field@,
                    ) && (!allow_revisit ==> !strs_view(nodes@).contains(options@[q].0@)),
                forall|v: Seq<char>|
                    #[trigger] step_upto(
                        g@,
                        None::<Seq<(Seq<char>, ValueView)>>,
                        e as int,
                        current@,
                        v,
                    ) && (allow_revisit || !strs_view(nodes@).contains(v)) ==> exists|q: int|
                        0 <= q < options@.len() && (#[trigger] options@[q].0@) == v,
            decreases elen - e,
        {
            let ghost opts0 = options@;
            let edge = g.edge_at(e);
            let matches_from = edge.from.eq(&current);
            let admissible = if !matches_from {
                false
            } else if allow_revisit {
                true
            } else {
                !contains_string(&nodes, &edge.to)
            };
            if admissible {
                let label: String = if keep {
                    match edge.attr.get(field) {
                        Some(v) => match v {
                            crate::value::Value::Str(s) => s.clone(),
                            _ => String::from_str("unknown"),
                        },
                        None => String::from_str("unknown"),
                    }
                } else {
                    String::from_str("unknown")
                };
                proof {
                    assert(g@.edges[e as int].from == current@);
                    if keep {
                        assert(label@ == edge_label(g@.edges[e as int], field@));
                    }
                }
                options.push((edge.to.clone(), label));
            }
            proof {
                let ghost f = None::<Seq<(Seq<char>, ValueView)>>;
                assert forall|v: Seq<char>|
                    #[trigger] step_upto(g@, f, e as int + 1, current@, v) && (allow_revisit
                        || !strs_view(nodes@).contains(v)) implies exists|q: int|
                    0 <= q < options@.len() && (#[trigger] options@[q].0@) == v by {
                    let we = choose|we: int|
                        0 <= we < e + 1 && we < g@.edges.len() && (#[trigger] g@.edges[we]).from
                            == current@ && g@.edges[we].to == v && crate::traversal::edge_matches(
                            g@.edges[we],
                            f,
                        );
                    if we < e as int {
                        assert(step_upto(g@, f, e as int, current@, v));
                        let q = choose|q: int|
                            0 <= q < opts0.len() && (#[trigger] opts0[q].0@) == v;
                        assert(options@[q].0@ == v);
                    } else {
                        assert(g@.edges[e as int].to == v);
                        assert(admissible);
                        assert(options@[options@.len() - 1].0@ == v);
                    }
                }
            }
            e += 1;
        }
        if options.len() == 0 {
            stuck = true;
            proof {
                let ghost f = None::<Seq<(Seq<char>, ValueView)>>;
                assert forall|v: Seq<char>| #[trigger] step(g@, f, current@, v) implies (
                !allow_revisit && strs_view(nodes@).contains(v)) by {
                    lemma_step_upto_full(g@, f, current@, v);
                    if allow_revisit || !strs_view(nodes@).contains(v) {
                        let q = choose|q: int|
                            0 <= q < options@.len() && (#[trigger] options@[q].0@) == v;
                        assert(false);
                    }
                }
                assert(walk_stuck(g@, strs_view(nodes@), current@, allow_revisit));
            }
        } else {
            let choice = pick_index(options.len());
            let ghost nodes0 = nodes@;
            let ghost labels0 = labels@;
            let next = options[choice].0.clone();
            nodes.push(next);
            if keep {
                labels.push(options[choice].1.clone());
            }
            current = options[choice].0.clone();
            proof {
                lemma_strs_view_push(nodes@.drop_last(), nodes@[nodes0.len() as int]);
                assert(nodes@.drop_last() =~= nodes@.take(nodes0.len() as int));
                assert(strs_view(nodes@) =~= strs_view(nodes0).push(options@[choice as int].0@));
                if keep {
                    lemma_strs_view_push(labels@.drop_last(), labels@[labels0.len() as int]);
                    assert(labels@.drop_last() =~= labels@.take(labels0.len() as int));
                    assert(strs_view(labels@) =~= strs_view(labels0).push(
                        options@[choice as int].1@,
                    ));
                }
                if !allow_revisit {
                    assert(!strs_view(nodes0).contains(options@[choice as int].0@));
                }
                assert forall|i: int|
                    0 <= i < nodes@.len() - 1 implies labelled_step(
                    g@,
                    #[trigger] strs_view(nodes@)[i],
                    strs_view(nodes@)[i + 1],
                    keep,
                    if keep {
                        strs_view(labels@)[i]
                    } else {
                        Seq::empty()
                    },
                    field@,
                ) by {
                    if i < nodes0.len() - 1 {
                        assert(strs_view(nodes@)[i] == strs_view(nodes0)[i]);
                        assert(strs_view(nodes@)[i + 1] == strs_view(nodes0)[i + 1]);
                        if keep {
                            assert(strs_view(labels@)[i] == strs_view(labels0)[i]);
                        }
                    } else {
                        assert(strs_view(nodes@)[i] == current@ || strs_view(nodes@)[i]
                            == strs_view(nodes0)[nodes0.len() - 1]);
                    }
                }
            }
        }
    }
    proof {
        if nodes@.len() < max_length {
            assert(stuck);
            assert(current@ == strs_view(nodes@).last());
        }
    }
    Walk { nodes, edges: labels }
}

/// Structural equality of two id sequences.
fn strings_eq(a: &Vec<String>, b: &Vec<String>) -> (r: bool)
    ensures
        r == (strs_view(a@) == strs_view(b@)),
{
    if a.len() != b.len() {
        proof {
            assert(strs_view(a@).len() != strs_view(b@).len());
        }
        return false;
    }
    let n = a.len();
    let mut i: usize = 0;
    while i < n
        invariant
            n == a@.len() == b@.len(),
            i <= n,
            forall|j: int| 0 <= j < i ==> #[trigger] strs_view(a@)[j] == strs_view(b@)[j],
        decreases n - i,
    {
        if !a[i].eq(&b[i]) {
            proof {
                assert(strs_view(a@)[i as int] != strs_view(b@)[i as int]);
            }
            return false;
        }
        i += 1;
    }
    proof {
        assert(strs_view(a@) =~= strs_view(b@));
    }
    true
}

/// The key under which walks are deduplicated: both walks' node sequences
/// agree, and their label sequences agree when labels are kept.
pub open spec fn same_walk(a: Walk, b: Walk, keep: bool) -> bool {
    strs_view(a.nodes@) == strs_view(b.nodes@) && (keep ==> strs_view(a.edges@) == strs_view(
        b.edges@,
    ))
}

impl Vertex {
    /// Repeated independent random walks from `start_node_id`: each walk
    /// has between `min_length` (default 1) and `max_length` nodes, starts
    /// at the start node, follows edges of the graph, and, when
    /// `allow_revisit` is false (the default), never repeats a node. Walks
    /// that dead-end before `min_length` are discarded, not retried; the
    /// result is deduplicated, so it may hold fewer walks than
    /// `num_attempts`. With `include_edge_types` the label under
    /// `edge_type_field` (default `type`) stands beside each step.
    pub fn random_walks(
        &self,
        start_node_id: &String,
        max_length: usize,
        num_attempts: usize,
        min_length: Option<usize>,
        allow_revisit: Option<bool>,
        include_edge_types: Option<bool>,
        edge_type_field: Option<String>,
    ) -> (r: Result<Vec<Walk>, GraphError>)
        requires
            self.wf(),
        ensures
            ({
                let min_len = match min_length {
                    Some(m) => m,
                    None => 1,
                };
                let revisit = match allow_revisit {
                    Some(b) => b,
                    None => false,
                };
                let keep = match include_edge_types {
                    Some(b) => b,
                    None => false,
                };
                let field = match edge_type_field {
                    Some(s) => s@,
                    None => "type"@,
                };
                match r {
                    Ok(walks) => {
                        &&& has_id(self@.nodes, start_node_id@)
                        &&& max_length >= 1
                        &&& min_len <= max_length
                        &&& walks@.len() <= num_attempts
                        &&& (min_len <= 1 && num_attempts >= 1 ==> walks@.len() >= 1)
                        &&& forall|i: int|
                            0 <= i < walks@.len() ==> walk_ok(
                                self@,
                                start_node_id@,
                                max_length,
                                revisit,
                                keep,
                                field,
                                #[trigger] walks@[i],
                            ) && walks@[i].nodes@.len() >= min_len
                        &&& forall|i: int, j: int|
                            0 <= i < j < walks@.len() ==> !same_walk(
                                #[trigger] walks@[i],
                                #[trigger] walks@[j],
                                keep,
                            )
                    },
                    Err(e) => {
                        ||| (e == GraphError::NodeNotFound && !has_id(
                            self@.nodes,
                            start_node_id@,
                        ))
                        ||| (e == GraphError::InvalidParameter && has_id(
                            self@.nodes,
                            start_node_id@,
                        ) && (max_length == 0 || min_len > max_length))
                    },
                }
            }),
    {
        let min_len: usize = match min_length {
            Some(m) => m,
            None => 1,
        };
        let revisit: bool = match allow_revisit {
            Some(b) => b,
            None => false,
        };
        let keep: bool = match include_edge_types {
            Some(b) => b,
            None => false,
        };
        let field: String = match edge_type_field {
            Some(s) => s,
            None => String::from_str("type"),
        };
        if !self.has_node(start_node_id) {
            return Err(GraphError::NodeNotFound);
        }
        if max_length == 0 {
            return Err(GraphError::InvalidParameter);
        }
        if min_len > max_length {
            return Err(GraphError::InvalidParameter);
        }
        let ghost fieldv = field@;
        let mut out: Vec<Walk> = Vec::new();
        let mut attempt: usize = 0;
        while attempt < num_attempts
            invariant
                self.wf(),
                has_id(self@.nodes, start_node_id@),
                max_length >= 1,
                fieldv == field@,
                attempt <= num_attempts,
                out@.len() <= attempt,
                forall|i: int|
                    0 <= i < out@.len() ==> walk_ok(
                        self@,
                        start_node_id@,
                        max_length,
                        revisit,
                        keep,
                        fieldv,
                        #[trigger] out@[i],
                    ) && out@[i].nodes@.len() >= min_len,
                forall|i: int, j: int|
                    0 <= i < j < out@.len() ==> !same_walk(
                        #[trigger] out@[i],
                        #[trigger] out@[j],
                        keep,
                    ),
                min_len <= 1 && attempt >= 1 ==> out@.len() >= 1,
            decreases num_attempts - attempt,
        {
            let walk = random_walk(self, start_node_id, max_length, revisit, keep, &field);
            if walk.nodes.len() >= min_len {
                // keep the walk only when no kept walk shares its key
                let mut dup = false;
                let m = out.len();
                let mut q: usize = 0;
                while q < m
                    invariant
                        q <= m,
                        m == out@.len(),
                        dup ==> exists|j: int|
                            0 <= j < out@.len() && same_walk(#[trigger] out@[j], walk, keep),
                        !dup ==> forall|j: int|
                            0 <= j < q ==> !same_walk(#[trigger] out@[j], walk, keep),
                    decreases m - q,
                {
                    let nodes_same = strings_eq(&out[q].nodes, &walk.nodes);
                    let key_same = if keep {
                        nodes_same && strings_eq(&out[q].edges, &walk.edges)
                    } else {
                        nodes_same
                    };
                    if key_same {
                        dup = true;
                    }
                    q += 1;
                }
                if !dup {
                    let ghost out0 = out@;
                    out.push(walk);
                    proof {
                        assert forall|i: int, j: int|
                            0 <= i < j < out@.len() implies !same_walk(
                            #[trigger] out@[i],
                            #[trigger] out@[j],
                            keep,
                        ) by {
                            if j < out0.len() {
                                assert(out@[i] == out0[i] && out@[j] == out0[j]);
                            } else {
                                assert(out@[i] == out0[i]);
                                assert(!same_walk(out0[i], out@[j], keep));
                            }
                        }
                    }
                }
            }
            attempt += 1;
        }
        Ok(out)
    }
}

/// No walk returned without revisiting repeats a node: the law restates,
/// for every element of a result, the no-duplicates clause of `walk_ok`.
pub proof fn lemma_walks_no_revisit(
    g: VertexView,
    start: Seq<char>,
    max_length: usize,
    keep: bool,
    field: Seq<char>,
    walks: Seq<Walk>,
)
    requires
        forall|i: int|
            0 <= i < walks.len() ==> walk_ok(
                g,
                start,
                max_length,
                false,
                keep,
                field,
                #[trigger] walks[i],
            ),
    ensures
        forall|i: int|
            0 <= i < walks.len() ==> (#[trigger] strs_view(walks[i].nodes@)).no_duplicates(),
{
    assert forall|i: int|
        0 <= i < walks.len() implies (#[trigger] strs_view(walks[i].nodes@)).no_duplicates() by {
        assert(walk_ok(g, start, max_length, false, keep, field, walks[i]));
    }
}

} // verus!
