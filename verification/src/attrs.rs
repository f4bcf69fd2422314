//! String-keyed attribute maps.
//!
//! An [`Attrs`] is an association list in insertion order; a key occurs at
//! most once. Lookup, insertion and replacement are specified exactly over
//! the sequence-of-entries view.

use vstd::prelude::*;
use crate::value::{Value, ValueView, view_entries, lemma_view_entries_index};

verus! {

/// First-match lookup in a sequence of key-value entries.
pub open spec fn lookup(m: Seq<(Seq<char>, ValueView)>, k: Seq<char>) -> Option<ValueView>
    decreases m.len(),
{
    if m.len() == 0 {
        None
    } else if m[0].0 == k {
        Some(m[0].1)
    } else {
        lookup(m.subrange(1, m.len() as int), k)
    }
}

/// Index of the first entry with key `k` (meaningful only when the key is
/// present).
pub open spec fn key_index(m: Seq<(Seq<char>, ValueView)>, k: Seq<char>) -> int
    decreases m.len(),
{
    if m.len() == 0 {
        0
    } else if m[0].0 == k {
        0
    } else {
        1 + key_index(m.subrange(1, m.len() as int), k)
    }
}

pub open spec fn has_key(m: Seq<(Seq<char>, ValueView)>, k: Seq<char>) -> bool {
    lookup(m, k) is Some
}

/// The map after insert-or-replace: a present key has its first entry
/// replaced in place, an absent key is appended.
pub open spec fn set_entry(
    m: Seq<(Seq<char>, ValueView)>,
    k: Seq<char>,
    v: ValueView,
) -> Seq<(Seq<char>, ValueView)> {
    if has_key(m, k) {
        m.update(key_index(m, k), (k, v))
    } else {
        m.push((k, v))
    }
}

/// All keys distinct: the well-formedness of an attribute map.
pub open spec fn distinct_keys(m: Seq<(Seq<char>, ValueView)>) -> bool {
    forall|i: int, j: int| 0 <= i < j < m.len() ==> (#[trigger] m[i].0) != (#[trigger] m[j].0)
}

/// `lookup` finds the first entry with the key; `key_index` points at it.
pub proof fn lemma_lookup_props(m: Seq<(Seq<char>, ValueView)>, k: Seq<char>)
    ensures
        has_key(m, k) <==> exists|j: int| 0 <= j < m.len() && (#[trigger] m[j].0) == k,
        has_key(m, k) ==> {
            let i = key_index(m, k);
            &&& 0 <= i < m.len()
            &&& m[i].0 == k
            &&& lookup(m, k) == Some(m[i].1)
            &&& forall|j: int| 0 <= j < i ==> (#[trigger] m[j].0) != k
        },
    decreases m.len(),
{
    if m.len() > 0 && m[0].0 != k {
        let tail = m.subrange(1, m.len() as int);
        lemma_lookup_props(tail, k);
        assert(forall|j: int| 0 <= j < tail.len() ==> #[trigger] tail[j] == m[j + 1]);
        if has_key(m, k) {
            let i = key_index(m, k);
            assert(i == 1 + key_index(tail, k));
            assert(m[i] == tail[i - 1]);
            assert forall|j: int| 0 <= j < i implies (#[trigger] m[j].0) != k by {
                if j > 0 {
                    assert(tail[j - 1].0 != k);
                }
            }
        }
        if exists|j: int| 0 <= j < m.len() && (#[trigger] m[j].0) == k {
            let j = choose|j: int| 0 <= j < m.len() && (#[trigger] m[j].0) == k;
            assert(tail[j - 1].0 == k);
            assert(has_key(tail, k));
        }
    }
}

/// A string-keyed attribute map with insertion order kept.
pub struct Attrs {
    entries: Vec<(String, Value)>,
}

impl View for Attrs {
    type V = Seq<(Seq<char>, ValueView)>;

    closed spec fn view(&self) -> Seq<(Seq<char>, ValueView)> {
        view_entries(self.entries@)
    }
}

impl Attrs {
    /// The empty attribute map.
    pub fn new() -> (r: Attrs)
        ensures
            r@ == Seq::<(Seq<char>, ValueView)>::empty(),
    {
        let r = Attrs { entries: Vec::new() };
        proof {
            assert(r@ =~= Seq::<(Seq<char>, ValueView)>::empty());
        }
        r
    }

    pub fn len(&self) -> (r: usize)
        ensures
            r == self@.len(),
    {
        proof {
            lemma_view_entries_index(self.entries@);
        }
        self.entries.len()
    }

    /// The key of the entry at position `i`.
    pub fn key_at(&self, i: usize) -> (r: &String)
        requires
            i < self@.len(),
        ensures
            r@ == self@[i as int].0,
    {
        proof {
            lemma_view_entries_index(self.entries@);
        }
        &self.entries[i].0
    }

    /// The value of the entry at position `i`.
    pub fn value_at(&self, i: usize) -> (r: &Value)
        requires
            i < self@.len(),
        ensures
            r@ == self@[i as int].1,
    {
        proof {
            lemma_view_entries_index(self.entries@);
        }
        &self.entries[i].1
    }

    /// First-match lookup by key.
    pub fn get(&self, key: &String) -> (r: Option<&Value>)
        ensures
            match r {
                Some(v) => lookup(self@, key@) == Some(v@),
                None => lookup(self@, key@) is None,
            },
    {
        proof {
            lemma_view_entries_index(self.entries@);
            lemma_lookup_props(self@, key@);
        }
        let n = self.entries.len();
        let mut i: usize = 0;
        while i < n
            invariant
                n == self.entries@.len() == self@.len(),
                i <= n,
                forall|j: int| 0 <= j < i ==> (#[trigger] self@[j].0) != key@,
                forall|j: int| 0 <= j < n ==> #[trigger] view_entries(self.entries@)[j] == (
                    self.entries@[j].0@,
                    self.entries@[j].1@,
                ),
                has_key(self@, key@) ==> {
                    let ki = key_index(self@, key@);
                    0 <= ki < self@.len() && self@[ki].0 == key@ && lookup(self@, key@) == Some(
                        self@[ki].1,
                    ) && forall|j: int| 0 <= j < ki ==> (#[trigger] self@[j].0) != key@
                },
                has_key(self@, key@) <==> exists|j: int|
                    0 <= j < self@.len() && (#[trigger] self@[j].0) == key@,
            decreases n - i,
        {
            if self.entries[i].0.eq(key) {
                proof {
                    assert(self@[i as int].0 == key@);
                    assert(has_key(self@, key@));
                    let ki = key_index(self@, key@);
                    if ki < i as int {
                        assert(self@[ki].0 == key@);
                        assert(false);
                    }
                    if ki > i as int {
                        assert(self@[i as int].0 != key@);
                        assert(false);
                    }
                    assert(lookup(self@, key@) == Some(self@[i as int].1));
                }
                return Some(&self.entries[i].1);
            }
            i += 1;
        }
        proof {
            if has_key(self@, key@) {
                let ki = key_index(self@, key@);
                assert(self@[ki].0 == key@);
                assert(false);
            }
        }
        None
    }

    /// Whether `key` is present.
    pub fn contains_key(&self, key: &String) -> (r: bool)
        ensures
            r == has_key(self@, key@),
    {
        match self.get(key) {
            Some(_) => true,
            None => false,
        }
    }

    /// Insert or replace: a present key has its entry replaced in place, an
    /// absent key is appended.
    pub fn set(&mut self, key: String, value: Value)
        ensures
            !has_key(old(self)@, key@) ==> final(self)@ == old(self)@.push((key@, value@)),
            has_key(old(self)@, key@) ==> final(self)@ == old(self)@.update(
                key_index(old(self)@, key@),
                (key@, value@),
            ),
            final(self)@ == set_entry(old(self)@, key@, value@),
            lookup(final(self)@, key@) == Some(value@),
            distinct_keys(old(self)@) ==> distinct_keys(final(self)@),
    {
        proof {
            lemma_view_entries_index(self.entries@);
            lemma_lookup_props(self@, key@);
        }
        let ghost m0 = self@;
        let n = self.entries.len();
        let mut i: usize = 0;
        while i < n
            invariant
                m0 == old(self)@,
                self@ == m0,
                n == self.entries@.len() == self@.len(),
                i <= n,
                forall|j: int| 0 <= j < i ==> (#[trigger] m0[j].0) != key@,
                forall|j: int| 0 <= j < n ==> #[trigger] view_entries(self.entries@)[j] == (
                    self.entries@[j].0@,
                    self.entries@[j].1@,
                ),
                has_key(m0, key@) ==> {
                    let ki = key_index(m0, key@);
                    0 <= ki < m0.len() && m0[ki].0 == key@ && forall|j: int|
                        0 <= j < ki ==> (#[trigger] m0[j].0) != key@
                },
                has_key(m0, key@) <==> exists|j: int|
                    0 <= j < m0.len() && (#[trigger] m0[j].0) == key@,
            decreases n - i,
        {
            if self.entries[i].0.eq(&key) {
                proof {
                    assert(m0[i as int].0 == key@);
                    assert(has_key(m0, key@));
                    let ki = key_index(m0, key@);
                    if ki < i as int {
                        assert(m0[ki].0 == key@);
                        assert(false);
                    }
                    if ki > i as int {
                        assert(m0[i as int].0 != key@);
                        assert(false);
                    }
                }
                assert(has_key(m0, key@) && key_index(m0, key@) == i);
                self.entries.set(i, (key, value));
                proof {
                    lemma_view_entries_index(self.entries@);
                    assert(self@ =~= m0.update(i as int, (self.entries@[i as int].0@,
                    self.entries@[i as int].1@)));
                    lemma_lookup_update(m0, key_index(m0, self.entries@[i as int].0@));
                }
                return;
            }
            i += 1;
        }
        self.entries.push((key, value));
        proof {
            lemma_view_entries_index(self.entries@);
            assert(self@ =~= m0.push((self.entries@[n as int].0@, self.entries@[n as int].1@)));
            lemma_lookup_push_fresh(m0, self.entries@[n as int].0@, self.entries@[n as int].1@);
        }
    }

    /// A copy whose view equals this map's view.
    pub fn deep_clone(&self) -> (r: Attrs)
        ensures
            r@ == self@,
    {
        let n = self.entries.len();
        let mut out: Vec<(String, Value)> = Vec::new();
        let mut i: usize = 0;
        while i < n
            invariant
                n == self.entries@.len(),
                i <= n,
                out@.len() == i,
                forall|j: int| 0 <= j < i ==> #[trigger] out@[j].0@ == self.entries@[j].0@
                    && out@[j].1@ == self.entries@[j].1@,
            decreases n - i,
        {
            let entry = (self.entries[i].0.clone(), self.entries[i].1.deep_clone());
            out.push(entry);
            i += 1;
        }
        proof {
            lemma_view_entries_index(self.entries@);
            lemma_view_entries_index(out@);
            assert(view_entries(out@) =~= view_entries(self.entries@));
        }
        Attrs { entries: out }
    }

    /// Structural equality: the equality of the views.
    pub fn eq_attrs(&self, other: &Attrs) -> (r: bool)
        ensures
            r == (self@ == other@),
    {
        proof {
            lemma_view_entries_index(self.entries@);
            lemma_view_entries_index(other.entries@);
        }
        if self.entries.len() != other.entries.len() {
            return false;
        }
        let n = self.entries.len();
        let mut i: usize = 0;
        while i < n
            invariant
                n == self.entries@.len() == other.entries@.len(),
                i <= n,
                forall|j: int| 0 <= j < i ==> self@[j] == other@[j],
                self@.len() == other@.len() == n,
                forall|j: int| 0 <= j < n ==> #[trigger] self@[j] == (
                    self.entries@[j].0@,
                    self.entries@[j].1@,
                ),
                forall|j: int| 0 <= j < n ==> #[trigger] other@[j] == (
                    other.entries@[j].0@,
                    other.entries@[j].1@,
                ),
            decreases n - i,
        {
            let keys_equal = self.entries[i].0.eq(&other.entries[i].0);
            if !keys_equal || !self.entries[i].1.eq_value(&other.entries[i].1) {
                assert(self@[i as int] != other@[i as int]);
                return false;
            }
            i += 1;
        }
        assert(self@ =~= other@);
        true
    }
}

/// Updating the entry at the first index of a key keeps `lookup` of every
/// other key, and makes `lookup` of that key the new value.
pub proof fn lemma_lookup_update(m: Seq<(Seq<char>, ValueView)>, i: int)
    requires
        0 <= i < m.len(),
        forall|j: int| 0 <= j < i ==> (#[trigger] m[j].0) != m[i].0,
    ensures
        forall|k: Seq<char>, v: ValueView|
            #[trigger] lookup(m.update(i, (m[i].0, v)), k) == if k == m[i].0 {
                Some(v)
            } else {
                lookup(m, k)
            },
    decreases m.len(),
{
    assert forall|k: Seq<char>, v: ValueView|
        #[trigger] lookup(m.update(i, (m[i].0, v)), k) == if k == m[i].0 {
            Some(v)
        } else {
            lookup(m, k)
        } by {
        lemma_lookup_update_one(m, i, k, v);
    }
}

proof fn lemma_lookup_update_one(m: Seq<(Seq<char>, ValueView)>, i: int, k: Seq<char>, v: ValueView)
    requires
        0 <= i < m.len(),
        forall|j: int| 0 <= j < i ==> (#[trigger] m[j].0) != m[i].0,
    ensures
        lookup(m.update(i, (m[i].0, v)), k) == if k == m[i].0 {
            Some(v)
        } else {
            lookup(m, k)
        },
    decreases m.len(),
{
    let m2 = m.update(i, (m[i].0, v));
    if i == 0 {
        if k != m[0].0 {
            assert(m2.subrange(1, m2.len() as int) =~= m.subrange(1, m.len() as int));
        }
    } else {
        let tail = m.subrange(1, m.len() as int);
        assert forall|j: int| 0 <= j < i - 1 implies (#[trigger] tail[j].0) != tail[i - 1].0 by {
            assert(tail[j] == m[j + 1]);
        }
        lemma_lookup_update_one(tail, i - 1, k, v);
        assert(m2.subrange(1, m2.len() as int) =~= tail.update(i - 1, (tail[i - 1].0, v)));
        assert(m2[0] == m[0]);
    }
}

/// Appending an entry with a fresh key keeps `lookup` of every other key,
/// and makes `lookup` of the fresh key the new value.
pub proof fn lemma_lookup_push_fresh(m: Seq<(Seq<char>, ValueView)>, k0: Seq<char>, v: ValueView)
    requires
        !has_key(m, k0),
    ensures
        forall|k: Seq<char>|
            #[trigger] lookup(m.push((k0, v)), k) == if k == k0 {
                Some(v)
            } else {
                lookup(m, k)
            },
    decreases m.len(),
{
    assert forall|k: Seq<char>|
        #[trigger] lookup(m.push((k0, v)), k) == if k == k0 {
            Some(v)
        } else {
            lookup(m, k)
        } by {
        lemma_lookup_push_fresh_one(m, k0, v, k);
    }
}

proof fn lemma_lookup_push_fresh_one(
    m: Seq<(Seq<char>, ValueView)>,
    k0: Seq<char>,
    v: ValueView,
    k: Seq<char>,
)
    requires
        !has_key(m, k0),
    ensures
        lookup(m.push((k0, v)), k) == if k == k0 {
            Some(v)
        } else {
            lookup(m, k)
        },
    decreases m.len(),
{
    let m2 = m.push((k0, v));
    if m.len() == 0 {
        assert(m2[0] == (k0, v));
        if k != k0 {
            assert(lookup(m2.subrange(1, m2.len() as int), k) is None);
        }
    } else {
        let tail = m.subrange(1, m.len() as int);
        lemma_lookup_push_fresh_one(tail, k0, v, k);
        assert(m2.subrange(1, m2.len() as int) =~= tail.push((k0, v)));
        assert(m2[0] == m[0]);
    }
}

} // verus!
