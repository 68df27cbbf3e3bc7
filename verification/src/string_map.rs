//! An insertion-ordered map from strings to strings.
//!
//! The entries are kept in the order in which their keys first arrived, so
//! that everything computed from a map is a function of how it was built.

use vstd::prelude::*;
use crate::text::str_eq;

verus! {

/// The entries of a map as mathematical values: `(key, value)` pairs.
pub type Entries = Seq<(Seq<char>, Seq<char>)>;

/// Whether some entry of `e` has key `k`.
pub open spec fn has_key(e: Entries, k: Seq<char>) -> bool {
    exists|i: int| 0 <= i < e.len() && (#[trigger] e[i]).0 == k
}

/// No key occurs in two entries.
pub open spec fn distinct_keys(e: Entries) -> bool {
    forall|i: int, j: int| 0 <= i < j < e.len() ==> (#[trigger] e[i]).0 != (#[trigger] e[j]).0
}

/// The value stored under `k`, if any.
pub open spec fn value_of(e: Entries, k: Seq<char>) -> Option<Seq<char>>
    decreases e.len(),
{
    if e.len() == 0 {
        None
    } else if e.last().0 == k {
        Some(e.last().1)
    } else {
        value_of(e.drop_last(), k)
    }
}

/// `e` after storing `v` under `k`: an entry that has the key keeps its
/// place and takes the new value, a new key goes to the end.
pub open spec fn put(e: Entries, k: Seq<char>, v: Seq<char>) -> Entries {
    if has_key(e, k) {
        Seq::new(e.len(), |i: int| if e[i].0 == k { (k, v) } else { e[i] })
    } else {
        e.push((k, v))
    }
}

/// Storing a value keeps the keys distinct.
pub proof fn lemma_put_distinct(e: Entries, k: Seq<char>, v: Seq<char>)
    requires
        distinct_keys(e),
    ensures
        distinct_keys(put(e, k, v)),
        has_key(put(e, k, v), k),
{
    let r = put(e, k, v);
    if has_key(e, k) {
        let i = choose|i: int| 0 <= i < e.len() && (#[trigger] e[i]).0 == k;
        assert(r[i].0 == k);
        assert forall|a: int, b: int| 0 <= a < b < r.len() implies (#[trigger] r[a]).0 != (
        #[trigger] r[b]).0 by {
            assert(r[a].0 == e[a].0);
            assert(r[b].0 == e[b].0);
        }
    } else {
        assert(r[e.len() as int].0 == k);
        assert forall|a: int, b: int| 0 <= a < b < r.len() implies (#[trigger] r[a]).0 != (
        #[trigger] r[b]).0 by {
            if b < e.len() {
                assert(r[a] == e[a] && r[b] == e[b]);
            } else {
                assert(r[a] == e[a]);
            }
        }
    }
}

/// A map from strings to strings that remembers the order of its keys.
#[derive(Debug)]
pub struct StringMap {
    entries: Vec<(String, String)>,
}

impl DeepView for StringMap {
    type V = Entries;

    closed spec fn deep_view(&self) -> Entries {
        self.entries.deep_view()
    }
}

impl Clone for StringMap {
    fn clone(&self) -> (m: StringMap)
        ensures
            m.deep_view() == self.deep_view(),
            distinct_keys(m.deep_view()),
    {
        proof {
            use_type_invariant(self);
        }
        let n = self.entries.len();
        let mut entries: Vec<(String, String)> = Vec::new();
        let mut i: usize = 0;
        while i < n
            invariant
                i <= n,
                n == self.entries@.len(),
                entries@.len() == i,
                forall|j: int| 0 <= j < i ==> #[trigger] entries@[j] == self.entries@[j],
            decreases n - i,
        {
            entries.push((self.entries[i].0.clone(), self.entries[i].1.clone()));
            i += 1;
        }
        assert(entries@ =~= self.entries@);
        StringMap { entries }
    }
}

impl StringMap {
    #[verifier::type_invariant]
    spec fn keys_are_distinct(&self) -> bool {
        distinct_keys(self.entries.deep_view())
    }

    /// The empty map.
    pub fn new() -> (m: StringMap)
        ensures
            m.deep_view() == Entries::empty(),
    {
        let m = StringMap { entries: Vec::new() };
        assert(m.entries.deep_view() =~= Entries::empty());
        m
    }

    /// Number of entries.
    pub fn len(&self) -> (n: usize)
        ensures
            n == self.deep_view().len(),
            distinct_keys(self.deep_view()),
    {
        proof {
            use_type_invariant(self);
        }
        self.entries.len()
    }

    /// The key of the `i`-th entry.
    pub fn key(&self, i: usize) -> (k: &String)
        requires
            i < self.deep_view().len(),
        ensures
            k@ == self.deep_view()[i as int].0,
    {
        &self.entries[i].0
    }

    /// The value of the `i`-th entry.
    pub fn value(&self, i: usize) -> (v: &String)
        requires
            i < self.deep_view().len(),
        ensures
            v@ == self.deep_view()[i as int].1,
    {
        &self.entries[i].1
    }

    /// Position of the entry with key `k`.
    fn find(&self, k: &str) -> (r: Option<usize>)
        ensures
            match r {
                Some(i) => i < self.deep_view().len() && self.deep_view()[i as int].0 == k@,
                None => !has_key(self.deep_view(), k@),
            },
    {
        let n = self.entries.len();
        let mut i: usize = 0;
        while i < n
            invariant
                i <= n,
                n == self.entries@.len(),
                forall|j: int| 0 <= j < i ==> (#[trigger] self.entries.deep_view()[j]).0 != k@,
            decreases n - i,
        {
            if str_eq(self.entries[i].0.as_str(), k) {
                return Some(i);
            }
            i += 1;
        }
        None
    }

    /// The value stored under `k`, if any.
    pub fn get(&self, k: &str) -> (r: Option<&String>)
        ensures
            match r {
                Some(v) => value_of(self.deep_view(), k@) == Some(v@),
                None => value_of(self.deep_view(), k@).is_none(),
            },
    {
        proof {
            use_type_invariant(self);
            lemma_value_of(self.deep_view(), k@);
        }
        match self.find(k) {
            Some(i) => Some(&self.entries[i].1),
            None => None,
        }
    }

    /// Stores `v` under `k`, replacing the value that `k` had.
    pub fn insert(&mut self, k: String, v: String)
        ensures
            final(self).deep_view() == put(old(self).deep_view(), k@, v@),
    {
        proof {
            use_type_invariant(&*self);
            lemma_put_distinct(self.deep_view(), k@, v@);
        }
        let found = self.find(k.as_str());
        let ghost before = self.entries.deep_view();
        let mut entries: Vec<(String, String)> = Vec::new();
        assert(entries.deep_view() =~= Entries::empty());
        std::mem::swap(&mut entries, &mut self.entries);
        match found {
            Some(i) => {
                entries.set(i, (k, v));
                assert(entries.deep_view() =~= put(before, k@, v@)) by {
                    assert forall|j: int| 0 <= j < before.len() && j != i implies (
                    #[trigger] before[j]).0 != k@ by {
                        if j < i {
                            assert(before[j].0 != before[i as int].0);
                        } else {
                            assert(before[i as int].0 != before[j].0);
                        }
                    }
                    assert(before[i as int].0 == k@);
                }
            },
            None => {
                entries.push((k, v));
                assert(entries.deep_view() =~= put(before, k@, v@));
            },
        }
        self.entries = entries;
    }
}

/// With distinct keys, the value stored under a key is that of its one entry.
pub proof fn lemma_value_of(e: Entries, k: Seq<char>)
    requires
        distinct_keys(e),
    ensures
        !has_key(e, k) ==> value_of(e, k).is_none(),
        forall|i: int| 0 <= i < e.len() && (#[trigger] e[i]).0 == k ==> value_of(e, k) == Some(e[i].1),
    decreases e.len(),
{
    if e.len() > 0 {
        let d = e.drop_last();
        assert forall|i: int, j: int| 0 <= i < j < d.len() implies (#[trigger] d[i]).0 != (
        #[trigger] d[j]).0 by {
            assert(d[i] == e[i] && d[j] == e[j]);
        }
        lemma_value_of(d, k);
        if e.last().0 == k {
            assert(e[e.len() - 1].0 == k);
            assert forall|i: int| 0 <= i < e.len() && (#[trigger] e[i]).0 == k implies value_of(e, k)
                == Some(e[i].1) by {
                if i < e.len() - 1 {
                    assert(e[i].0 != e[e.len() - 1].0);
                }
            }
        } else {
            if has_key(d, k) {
                let i = choose|i: int| 0 <= i < d.len() && (#[trigger] d[i]).0 == k;
                assert(e[i] == d[i]);
            }
            assert forall|i: int| 0 <= i < e.len() && (#[trigger] e[i]).0 == k implies value_of(e, k)
                == Some(e[i].1) by {
                assert(d[i] == e[i]);
            }
            if !has_key(e, k) {
                assert forall|i: int| 0 <= i < d.len() implies (#[trigger] d[i]).0 != k by {
                    assert(d[i] == e[i]);
                }
            }
        }
    }
}

} // verus!
