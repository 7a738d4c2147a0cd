//! A string-keyed map kept as a vector of entries with pairwise-distinct
//! keys, and the record type built on it. Lookups are specified through a
//! first-match association lookup over the entry sequence, so insertion order
//! is part of the model (a table's schema order is observable in output).

use vstd::prelude::*;
use vstd::string::StrSliceExecFns;
use crate::tokenizer::str_eq;
use crate::values::{Value, ValueModel};

verus! {

/// First entry with the given key, if any.
pub open spec fn assoc_lookup<X>(m: Seq<(Seq<char>, X)>, k: Seq<char>) -> Option<X>
    decreases m.len(),
{
    if m.len() == 0 {
        None
    } else if m[0].0 == k {
        Some(m[0].1)
    } else {
        assoc_lookup(m.drop_first(), k)
    }
}

/// Replace the value of the first entry with the given key, or append a new
/// entry when the key is absent.
pub open spec fn assoc_set<X>(m: Seq<(Seq<char>, X)>, k: Seq<char>, v: X) -> Seq<(Seq<char>, X)>
    decreases m.len(),
{
    if m.len() == 0 {
        seq![(k, v)]
    } else if m[0].0 == k {
        seq![(k, v)] + m.drop_first()
    } else {
        seq![m[0]] + assoc_set(m.drop_first(), k, v)
    }
}

/// The keys of the entries, in order.
pub open spec fn assoc_keys<X>(m: Seq<(Seq<char>, X)>) -> Seq<Seq<char>> {
    m.map_values(|p: (Seq<char>, X)| p.0)
}

/// No two entries share a key.
pub open spec fn assoc_wf<X>(m: Seq<(Seq<char>, X)>) -> bool {
    forall|i: int, j: int| 0 <= i < j < m.len() ==> (#[trigger] m[i]).0 != (#[trigger] m[j]).0
}

/// A lookup hits exactly when some entry carries the key.
pub proof fn lemma_assoc_lookup_exists<X>(m: Seq<(Seq<char>, X)>, k: Seq<char>)
    ensures
        (assoc_lookup(m, k) is Some) <==> exists|i: int| 0 <= i < m.len() && (#[trigger] m[i]).0
            == k,
    decreases m.len(),
{
    if m.len() > 0 {
        lemma_assoc_lookup_exists(m.drop_first(), k);
        if m[0].0 == k {
        } else {
            if exists|i: int| 0 <= i < m.len() && (#[trigger] m[i]).0 == k {
                let i = choose|i: int| 0 <= i < m.len() && (#[trigger] m[i]).0 == k;
                assert(m.drop_first()[i - 1] == m[i]);
            }
            if assoc_lookup(m.drop_first(), k) is Some {
                let i = choose|i: int|
                    0 <= i < m.drop_first().len() && (#[trigger] m.drop_first()[i]).0 == k;
                assert(m[i + 1] == m.drop_first()[i]);
            }
        }
    }
}

/// In a well-formed map the lookup of an entry's key gives that entry's value.
pub proof fn lemma_assoc_lookup_at<X>(m: Seq<(Seq<char>, X)>, i: int)
    requires
        assoc_wf(m),
        0 <= i < m.len(),
    ensures
        assoc_lookup(m, m[i].0) == Some(m[i].1),
    decreases m.len(),
{
    if i == 0 {
    } else {
        assert(m[0].0 != m[i].0);
        assert(assoc_wf(m.drop_first())) by {
            assert(forall|p: int, q: int|
                0 <= p < q < m.drop_first().len() ==> m.drop_first()[p] == m[p + 1]
                    && m.drop_first()[q] == m[q + 1]);
        }
        assert(m.drop_first()[i - 1] == m[i]);
        lemma_assoc_lookup_at(m.drop_first(), i - 1);
    }
}

/// Setting the key of the entry at its first position is an in-place update.
pub proof fn lemma_assoc_set_is_update<X>(m: Seq<(Seq<char>, X)>, i: int, v: X)
    requires
        0 <= i < m.len(),
        forall|j: int| 0 <= j < i ==> (#[trigger] m[j]).0 != m[i].0,
    ensures
        assoc_set(m, m[i].0, v) == m.update(i, (m[i].0, v)),
    decreases i,
{
    if i == 0 {
        assert(assoc_set(m, m[0].0, v) =~= m.update(0, (m[0].0, v)));
    } else {
        assert(m.drop_first()[i - 1] == m[i]);
        assert(forall|j: int|
            0 <= j < i - 1 ==> #[trigger] m.drop_first()[j] == m[j + 1]);
        lemma_assoc_set_is_update(m.drop_first(), i - 1, v);
        assert(assoc_set(m, m[i].0, v) =~= m.update(i, (m[i].0, v))) by {
            assert(m.drop_first().update(i - 1, (m[i].0, v)) =~= m.update(
                i,
                (m[i].0, v),
            ).drop_first());
        }
    }
}

/// A string-keyed map as an ordered vector of entries with distinct keys.
#[derive(Debug)]
pub struct StrKeyMap<V> {
    entries: Vec<(String, V)>,
}

impl<V: View> View for StrKeyMap<V> {
    type V = Seq<(Seq<char>, V::V)>;

    closed spec fn view(&self) -> Seq<(Seq<char>, V::V)> {
        self.entries@.map_values(|p: (String, V)| (p.0@, p.1@))
    }
}

impl<V: View> StrKeyMap<V> {
    /// Keys are pairwise distinct.
    pub open spec fn wf(&self) -> bool {
        assoc_wf(self@)
    }

    pub fn new() -> (r: StrKeyMap<V>)
        ensures
            r@ == Seq::<(Seq<char>, V::V)>::empty(),
            r.wf(),
    {
        let r = StrKeyMap { entries: Vec::new() };
        proof {
            assert(r@ =~= Seq::<(Seq<char>, V::V)>::empty());
        }
        r
    }

    pub fn len(&self) -> (r: usize)
        ensures
            r == self@.len(),
    {
        self.entries.len()
    }

    /// The key of the entry at a position.
    pub fn key_at(&self, i: usize) -> (r: &String)
        requires
            i < self@.len(),
        ensures
            r@ == self@[i as int].0,
    {
        &self.entries[i].0
    }

    /// The value of the entry at a position.
    pub fn val_at(&self, i: usize) -> (r: &V)
        requires
            i < self@.len(),
        ensures
            r@ == self@[i as int].1,
    {
        &self.entries[i].1
    }

    /// Look the key up, returning the first entry's value.
    pub fn get(&self, k: &str) -> (r: Option<&V>)
        ensures
            match r {
                Some(v) => assoc_lookup(self@, k@) == Some(v@),
                None => assoc_lookup(self@, k@) is None,
            },
    {
        let n = self.entries.len();
        let mut i: usize = 0;
        proof {
            assert(self@.skip(0) =~= self@);
        }
        while i < n
            invariant
                0 <= i <= n,
                n == self@.len(),
                n == self.entries@.len(),
                assoc_lookup(self@, k@) == assoc_lookup(self@.skip(i as int), k@),
            decreases n - i,
        {
            proof {
                assert(self@.skip(i as int)[0] == self@[i as int]);
                assert(self@.skip(i as int).drop_first() =~= self@.skip(i + 1));
            }
            if str_eq(self.entries[i].0.as_str(), k) {
                return Some(&self.entries[i].1);
            }
            i += 1;
        }
        proof {
            assert(self@.skip(n as int) =~= Seq::<(Seq<char>, V::V)>::empty());
        }
        None
    }

    /// Whether the key is present.
    pub fn contains_key(&self, k: &str) -> (r: bool)
        ensures
            r == (assoc_lookup(self@, k@) is Some),
    {
        self.get(k).is_some()
    }

    /// Add an entry for a new key; refuse a key that is already present.
    pub fn try_insert(&mut self, k: String, v: V) -> (r: bool)
        ensures
            r == (assoc_lookup(old(self)@, k@) is None),
            r ==> final(self)@ == old(self)@.push((k@, v@)),
            !r ==> final(self)@ == old(self)@,
            old(self).wf() ==> final(self).wf(),
    {
        if self.get(k.as_str()).is_some() {
            return false;
        }
        proof {
            lemma_assoc_lookup_exists(self@, k@);
        }
        let ghost prev = self@;
        self.entries.push((k, v));
        proof {
            assert(self@ =~= prev.push((k@, v@)));
            if assoc_wf(prev) {
                assert(forall|i: int| 0 <= i < prev.len() ==> #[trigger] self@[i] == prev[i]);
                assert(assoc_wf(self@));
            }
        }
        true
    }

    /// Set the key's value: replace it in place when the key is present, else
    /// append a new entry.
    pub fn set(&mut self, k: String, v: V)
        ensures
            final(self)@ == assoc_set(old(self)@, k@, v@),
            old(self).wf() ==> final(self).wf(),
    {
        let n = self.entries.len();
        let mut i: usize = 0;
        proof {
            assert(self@.take(0) =~= Seq::<(Seq<char>, V::V)>::empty());
            assert(self@.skip(0) =~= self@);
        }
        while i < n
            invariant
                0 <= i <= n,
                n == self@.len(),
                n == self.entries@.len(),
                self@ == old(self)@,
                forall|j: int| 0 <= j < i ==> (#[trigger] self@[j]).0 != k@,
                assoc_set(self@, k@, v@) == self@.take(i as int) + assoc_set(
                    self@.skip(i as int),
                    k@,
                    v@,
                ),
            decreases n - i,
        {
            proof {
                assert(self@.skip(i as int)[0] == self@[i as int]);
                assert(self@.skip(i as int).drop_first() =~= self@.skip(i + 1));
            }
            if str_eq(self.entries[i].0.as_str(), k.as_str()) {
                let ghost prev = self@;
                let _ = self.entries.remove(i);
                proof {
                    assert(self@ =~= prev.take(i as int) + prev.skip(i + 1));
                }
                self.entries.insert(i, (k, v));
                proof {
                    assert(self@ =~= prev.take(i as int) + (seq![(k@, v@)] + prev.skip(i + 1)));
                    assert(assoc_set(prev.skip(i as int), k@, v@) =~= seq![(k@, v@)] + prev.skip(
                        i + 1,
                    ));
                    assert(assoc_set(prev, k@, v@) =~= self@);
                    if assoc_wf(prev) {
                        assert(forall|j: int|
                            0 <= j < self@.len() && j != i ==> #[trigger] self@[j] == prev[j]);
                        assert(self@[i as int].0 == prev[i as int].0);
                        assert(assoc_wf(self@));
                    }
                }
                return ;
            }
            i += 1;
            proof {
                assert(self@.take(i as int) =~= self@.take(i - 1).push(self@[i - 1]));
                assert(self@.take(i - 1) + (seq![self@[i - 1]] + assoc_set(
                    self@.skip(i as int),
                    k@,
                    v@,
                )) =~= self@.take(i as int) + assoc_set(self@.skip(i as int), k@, v@));
            }
        }
        let ghost prev = self@;
        self.entries.push((k, v));
        proof {
            assert(prev.skip(n as int) =~= Seq::<(Seq<char>, V::V)>::empty());
            assert(self@ =~= prev.take(n as int) + assoc_set(prev.skip(n as int), k@, v@));
            if assoc_wf(prev) {
                assert(forall|j: int| 0 <= j < prev.len() ==> #[trigger] self@[j] == prev[j]);
                lemma_assoc_lookup_exists(prev, k@);
                assert(self@[prev.len() as int] == (k@, v@));
                assert(forall|j: int| 0 <= j < prev.len() ==> (#[trigger] self@[j]).0 != k@);
                assert(assoc_wf(self@));
            }
        }
    }

    /// Position of the entry with the given key.
    pub fn index_of(&self, k: &str) -> (r: Option<usize>)
        ensures
            match r {
                Some(i) => i < self@.len() && self@[i as int].0 == k@ && assoc_lookup(self@, k@)
                    == Some(self@[i as int].1) && (forall|j: int|
                    0 <= j < i ==> (#[trigger] self@[j]).0 != k@),
                None => assoc_lookup(self@, k@) is None,
            },
    {
        let n = self.entries.len();
        let mut i: usize = 0;
        proof {
            assert(self@.skip(0) =~= self@);
        }
        while i < n
            invariant
                0 <= i <= n,
                n == self@.len(),
                n == self.entries@.len(),
                assoc_lookup(self@, k@) == assoc_lookup(self@.skip(i as int), k@),
                forall|j: int| 0 <= j < i ==> (#[trigger] self@[j]).0 != k@,
            decreases n - i,
        {
            proof {
                assert(self@.skip(i as int)[0] == self@[i as int]);
                assert(self@.skip(i as int).drop_first() =~= self@.skip(i + 1));
            }
            if str_eq(self.entries[i].0.as_str(), k) {
                return Some(i);
            }
            i += 1;
        }
        proof {
            assert(self@.skip(n as int) =~= Seq::<(Seq<char>, V::V)>::empty());
        }
        None
    }

    /// Take the entry at a position out of the map.
    pub fn take_at(&mut self, i: usize) -> (p: (String, V))
        requires
            i < old(self)@.len(),
        ensures
            p.0@ == old(self)@[i as int].0,
            p.1@ == old(self)@[i as int].1,
            final(self)@ == old(self)@.remove(i as int),
    {
        let ghost prev = self@;
        let p = self.entries.remove(i);
        proof {
            assert(self@ =~= prev.remove(i as int));
        }
        p
    }

    /// Put an entry back at a position.
    pub fn put_at(&mut self, i: usize, k: String, v: V)
        requires
            i <= old(self)@.len(),
        ensures
            final(self)@ == old(self)@.insert(i as int, (k@, v@)),
    {
        let ghost prev = self@;
        self.entries.insert(i, (k, v));
        proof {
            assert(self@ =~= prev.insert(i as int, (k@, v@)));
        }
    }

    /// The keys, cloned, in entry order.
    pub fn keys(&self) -> (r: Vec<String>)
        ensures
            r@.map_values(|s: String| s@) == assoc_keys(self@),
    {
        let n = self.entries.len();
        let mut r: Vec<String> = Vec::new();
        let mut i: usize = 0;
        while i < n
            invariant
                0 <= i <= n,
                n == self.entries@.len(),
                n == self@.len(),
                r@.len() == i,
                forall|j: int| 0 <= j < i ==> (#[trigger] r@[j])@ == self@[j].0,
            decreases n - i,
        {
            r.push(self.entries[i].0.clone());
            i += 1;
        }
        proof {
            assert(r@.map_values(|s: String| s@) =~= assoc_keys(self@));
        }
        r
    }
}

/// One row: a mapping from column name to value. A stored record always
/// carries exactly the columns of its table's schema.
#[derive(Debug)]
pub struct Record {
    values: StrKeyMap<Value>,
}

impl View for Record {
    type V = Seq<(Seq<char>, ValueModel)>;

    closed spec fn view(&self) -> Seq<(Seq<char>, ValueModel)> {
        self.values@
    }
}

impl Record {
    pub open spec fn wf(&self) -> bool {
        assoc_wf(self@)
    }

    /// Wrap a column-to-value map as a record.
    pub fn from_values(values: StrKeyMap<Value>) -> (r: Record)
        ensures
            r@ == values@,
    {
        Record { values }
    }

    /// The value stored under the column, if the column exists.
    pub fn get_value_for_column(&self, column_name: &str) -> (r: Option<&Value>)
        ensures
            match r {
                Some(v) => assoc_lookup(self@, column_name@) == Some(v@),
                None => assoc_lookup(self@, column_name@) is None,
            },
    {
        self.values.get(column_name)
    }
}

} // verus!
