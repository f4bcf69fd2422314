//! The dynamic attribute value: a recursive tagged union used for every
//! attribute and metadata slot and for the persisted forms.
//!
//! Floating-point slots hold the IEEE-754 double bit pattern as a `u64`, so
//! that equality and the codecs stay exact; callers that want the numeric
//! value convert at the boundary.

use vstd::prelude::*;

verus! {

/// A dynamic value: string, integer, float (by bit pattern), boolean, null,
/// list, or string-keyed map (association list, insertion order kept).
pub enum Value {
    Str(String),
    Int(i64),
    Float(u64),
    Bool(bool),
    Null,
    List(Vec<Value>),
    Dict(Vec<(String, Value)>),
}

/// The mathematical shape of a [`Value`]: strings as character sequences,
/// lists and maps as sequences.
#[verifier::ext_equal]
pub enum ValueView {
    Str(Seq<char>),
    Int(int),
    Float(u64),
    Bool(bool),
    Null,
    List(Seq<ValueView>),
    Dict(Seq<(Seq<char>, ValueView)>),
}

/// The view of a sequence of values, elementwise.
pub open spec fn view_list(vs: Seq<Value>) -> Seq<ValueView>
    decreases vs,
{
    if vs.len() == 0 {
        Seq::empty()
    } else {
        view_list(vs.drop_last()).push(vs.last()@)
    }
}

/// The view of a sequence of key-value entries, elementwise.
pub open spec fn view_entries(es: Seq<(String, Value)>) -> Seq<(Seq<char>, ValueView)>
    decreases es,
{
    if es.len() == 0 {
        Seq::empty()
    } else {
        view_entries(es.drop_last()).push((es.last().0@, es.last().1@))
    }
}

impl View for Value {
    type V = ValueView;

    open spec fn view(&self) -> ValueView
        decreases self,
    {
        match self {
            Value::Str(s) => ValueView::Str(s@),
            Value::Int(i) => ValueView::Int(*i as int),
            Value::Float(b) => ValueView::Float(*b),
            Value::Bool(b) => ValueView::Bool(*b),
            Value::Null => ValueView::Null,
            Value::List(vs) => ValueView::List(view_list(vs@)),
            Value::Dict(es) => ValueView::Dict(view_entries(es@)),
        }
    }
}

pub proof fn lemma_view_list_index(vs: Seq<Value>)
    ensures
        view_list(vs).len() == vs.len(),
        forall|i: int| 0 <= i < vs.len() ==> #[trigger] view_list(vs)[i] == vs[i]@,
    decreases vs.len(),
{
    if vs.len() > 0 {
        let pre = vs.drop_last();
        lemma_view_list_index(pre);
        assert(view_list(vs) == view_list(pre).push(vs.last()@));
        assert forall|i: int| 0 <= i < vs.len() implies #[trigger] view_list(vs)[i] == vs[i]@ by {
            if i < vs.len() - 1 {
                assert(pre[i] == vs[i]);
                assert(view_list(pre)[i] == pre[i]@);
            } else {
                assert(vs[i] == vs.last());
            }
        }
    }
}

pub proof fn lemma_view_entries_index(es: Seq<(String, Value)>)
    ensures
        view_entries(es).len() == es.len(),
        forall|i: int| 0 <= i < es.len() ==> #[trigger] view_entries(es)[i] == (es[i].0@, es[i].1@),
    decreases es.len(),
{
    if es.len() > 0 {
        let pre = es.drop_last();
        lemma_view_entries_index(pre);
        assert(view_entries(es) == view_entries(pre).push((es.last().0@, es.last().1@)));
        assert forall|i: int| 0 <= i < es.len() implies #[trigger] view_entries(es)[i] == (
        es[i].0@,
        es[i].1@,
        ) by {
            if i < es.len() - 1 {
                assert(pre[i] == es[i]);
                assert(view_entries(pre)[i] == (pre[i].0@, pre[i].1@));
            } else {
                assert(es[i] == es.last());
            }
        }
    }
}

impl Value {
    /// Structural equality on values, the equality of their views.
    pub fn eq_value(&self, other: &Value) -> (r: bool)
        ensures
            r == (self@ == other@),
        decreases self,
    {
        match (self, other) {
            (Value::Str(x), Value::Str(y)) => {
                let r = x.eq(y);
                assert(r == (x@ == y@));
                r
            },
            (Value::Int(x), Value::Int(y)) => x == y,
            (Value::Float(x), Value::Float(y)) => x == y,
            (Value::Bool(x), Value::Bool(y)) => x == y,
            (Value::Null, Value::Null) => true,
            (Value::List(xs), Value::List(ys)) => {
                proof {
                    lemma_view_list_index(xs@);
                    lemma_view_list_index(ys@);
                }
                if xs.len() != ys.len() {
                    return false;
                }
                let n = xs.len();
                let mut i: usize = 0;
                while i < n
                    invariant
                        *self == Value::List(*xs),
                        *other == Value::List(*ys),
                        n == xs@.len() == ys@.len(),
                        i <= n,
                        forall|j: int| 0 <= j < i ==> view_list(xs@)[j] == view_list(ys@)[j],
                        view_list(xs@).len() == view_list(ys@).len() == n,
                        forall|j: int| 0 <= j < n ==> #[trigger] view_list(xs@)[j] == xs@[j]@,
                        forall|j: int| 0 <= j < n ==> #[trigger] view_list(ys@)[j] == ys@[j]@,
                    decreases n - i,
                {
                    proof {
                        assert(decreases_to!(*self => self->List_0));
                        assert(decreases_to!(*xs => xs@));
                        vstd::seq::axiom_seq_index_decreases(xs@, i as int);
                    }
                    if !xs[i].eq_value(&ys[i]) {
                        assert(view_list(xs@)[i as int] != view_list(ys@)[i as int]);
                        return false;
                    }
                    i += 1;
                }
                assert(view_list(xs@) =~= view_list(ys@));
                true
            },
            (Value::Dict(xs), Value::Dict(ys)) => {
                proof {
                    lemma_view_entries_index(xs@);
                    lemma_view_entries_index(ys@);
                }
                if xs.len() != ys.len() {
                    return false;
                }
                let n = xs.len();
                let mut i: usize = 0;
                while i < n
                    invariant
                        *self == Value::Dict(*xs),
                        *other == Value::Dict(*ys),
                        n == xs@.len() == ys@.len(),
                        i <= n,
                        forall|j: int| 0 <= j < i ==> view_entries(xs@)[j] == view_entries(ys@)[j],
                        view_entries(xs@).len() == view_entries(ys@).len() == n,
                        forall|j: int| 0 <= j < n ==> #[trigger] view_entries(xs@)[j] == (xs@[j].0@, xs@[j].1@),
                        forall|j: int| 0 <= j < n ==> #[trigger] view_entries(ys@)[j] == (ys@[j].0@, ys@[j].1@),
                    decreases n - i,
                {
                    proof {
                        assert(decreases_to!(*self => self->Dict_0));
                        assert(decreases_to!(*xs => xs@));
                        vstd::seq::axiom_seq_index_decreases(xs@, i as int);
                    }
                    let keys_equal = xs[i].0.eq(&ys[i].0);
                    if !keys_equal || !xs[i].1.eq_value(&ys[i].1) {
                        assert(view_entries(xs@)[i as int] != view_entries(ys@)[i as int]);
                        return false;
                    }
                    i += 1;
                }
                assert(view_entries(xs@) =~= view_entries(ys@));
                true
            },
            _ => {
                assert(self@ != other@);
                false
            },
        }
    }

    /// A copy whose view equals this value's view.
    pub fn deep_clone(&self) -> (r: Value)
        ensures
            r@ == self@,
        decreases self,
    {
        match self {
            Value::Str(s) => Value::Str(s.clone()),
            Value::Int(i) => Value::Int(*i),
            Value::Float(b) => Value::Float(*b),
            Value::Bool(b) => Value::Bool(*b),
            Value::Null => Value::Null,
            Value::List(xs) => {
                let n = xs.len();
                let mut out: Vec<Value> = Vec::new();
                let mut i: usize = 0;
                while i < n
                    invariant
                        *self == Value::List(*xs),
                        n == xs@.len(),
                        i <= n,
                        out@.len() == i,
                        forall|j: int| 0 <= j < i ==> #[trigger] out@[j]@ == xs@[j]@,
                    decreases n - i,
                {
                    proof {
                        assert(decreases_to!(*self => self->List_0));
                        assert(decreases_to!(*xs => xs@));
                        vstd::seq::axiom_seq_index_decreases(xs@, i as int);
                    }
                    out.push(xs[i].deep_clone());
                    i += 1;
                }
                proof {
                    lemma_view_list_index(xs@);
                    lemma_view_list_index(out@);
                    assert(view_list(out@) =~= view_list(xs@));
                }
                Value::List(out)
            },
            Value::Dict(es) => {
                let n = es.len();
                let mut out: Vec<(String, Value)> = Vec::new();
                let mut i: usize = 0;
                while i < n
                    invariant
                        *self == Value::Dict(*es),
                        n == es@.len(),
                        i <= n,
                        out@.len() == i,
                        forall|j: int| 0 <= j < i ==> #[trigger] out@[j].0@ == es@[j].0@
                            && out@[j].1@ == es@[j].1@,
                    decreases n - i,
                {
                    proof {
                        assert(decreases_to!(*self => self->Dict_0));
                        assert(decreases_to!(*es => es@));
                        vstd::seq::axiom_seq_index_decreases(es@, i as int);
                    }
                    let entry = (es[i].0.clone(), es[i].1.deep_clone());
                    out.push(entry);
                    i += 1;
                }
                proof {
                    lemma_view_entries_index(es@);
                    lemma_view_entries_index(out@);
                    assert(view_entries(out@) =~= view_entries(es@));
                }
                Value::Dict(out)
            },
        }
    }
}

} // verus!
