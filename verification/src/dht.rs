//! The shared store: an in-memory mapping from string keys to string values.
//!
//! The store is modelled as a `Map<Seq<char>, Seq<char>>`; the implementation
//! keeps a vector of entries with pairwise-distinct keys. Exclusive access
//! under concurrency is the caller's business (the process wraps one instance
//! in a mutual-exclusion lock and hands each connection handler exclusive
//! access for the duration of a single `insert` or `lookup`).

use vstd::prelude::*;
use vstd::pervasive::VecAdditionalExecFns;
use crate::text::str_eq;

verus! {

/// One key/value pair held by the store.
#[derive(Debug)]
pub struct DHTEntry {
    pub key: String,
    pub value: String,
}

/// The store itself: a mapping from keys to values, one value per key.
#[derive(Debug)]
pub struct DHT {
    entries: Vec<DHTEntry>,
}

/// The mapping described by a sequence of entries; later entries win,
/// though `DHT::wf` rules repeated keys out altogether.
spec fn entries_map(s: Seq<DHTEntry>) -> Map<Seq<char>, Seq<char>>
    decreases s.len(),
{
    if s.len() == 0 {
        Map::empty()
    } else {
        entries_map(s.drop_last()).insert(s.last().key@, s.last().value@)
    }
}

/// Pairwise-distinct keys.
spec fn distinct_keys(s: Seq<DHTEntry>) -> bool {
    forall|i: int, j: int| 0 <= i < j < s.len() ==> s[i].key@ != s[j].key@
}

impl View for DHT {
    type V = Map<Seq<char>, Seq<char>>;

    closed spec fn view(&self) -> Map<Seq<char>, Seq<char>> {
        entries_map(self.entries@)
    }
}

proof fn lemma_entries_map_contains(s: Seq<DHTEntry>, k: Seq<char>)
    ensures
        entries_map(s).contains_key(k) <==> exists|i: int| 0 <= i < s.len() && s[i].key@ == k,
    decreases s.len(),
{
    if s.len() > 0 {
        lemma_entries_map_contains(s.drop_last(), k);
        if s.last().key@ == k {
            assert(s[s.len() - 1].key@ == k);
        } else if entries_map(s).contains_key(k) {
            let i = choose|i: int| 0 <= i < s.drop_last().len() && s.drop_last()[i].key@ == k;
            assert(s[i].key@ == k);
        } else {
            assert forall|i: int| 0 <= i < s.len() implies s[i].key@ != k by {
                if i < s.len() - 1 {
                    assert(s.drop_last()[i] == s[i]);
                }
            }
        }
    }
}

proof fn lemma_entries_map_index(s: Seq<DHTEntry>, i: int)
    requires
        distinct_keys(s),
        0 <= i < s.len(),
    ensures
        entries_map(s).contains_key(s[i].key@),
        entries_map(s)[s[i].key@] == s[i].value@,
    decreases s.len(),
{
    if i == s.len() - 1 {
    } else {
        assert(s[i].key@ != s.last().key@);
        lemma_entries_map_index(s.drop_last(), i);
        assert(s.drop_last()[i] == s[i]);
    }
}

proof fn lemma_entries_map_update(s: Seq<DHTEntry>, i: int, e: DHTEntry)
    requires
        distinct_keys(s),
        0 <= i < s.len(),
        e.key@ == s[i].key@,
    ensures
        entries_map(s.update(i, e)) =~= entries_map(s).insert(e.key@, e.value@),
    decreases s.len(),
{
    let t = s.update(i, e);
    if i == s.len() - 1 {
        assert(t.drop_last() =~= s.drop_last());
        assert(t.last() == e);
    } else {
        assert(t.drop_last() =~= s.drop_last().update(i, e));
        assert(s.drop_last()[i] == s[i]);
        lemma_entries_map_update(s.drop_last(), i, e);
        assert(t.last() == s.last());
        assert(s.last().key@ != e.key@);
    }
}

impl DHT {
    /// The store's internal invariant: no key occurs twice.
    pub closed spec fn wf(&self) -> bool {
        distinct_keys(self.entries@)
    }

    /// Creates a new, empty store.
    pub fn new() -> (d: DHT)
        ensures
            d.wf(),
            d@ == Map::<Seq<char>, Seq<char>>::empty(),
    {
        DHT { entries: Vec::new() }
    }

    /// Inserts a key-value pair, overwriting any value the key already had.
    pub fn insert(&mut self, key: String, value: String)
        requires
            old(self).wf(),
        ensures
            final(self).wf(),
            final(self)@ == old(self)@.insert(key@, value@),
    {
        let n = self.entries.len();
        let mut i: usize = 0;
        while i < n
            invariant
                old(self).wf(),
                n == self.entries.len(),
                i <= n,
                *self == *old(self),
                forall|j: int| 0 <= j < i ==> self.entries@[j].key@ != key@,
            decreases n - i,
        {
            if self.entries[i].key == key {
                proof {
                    lemma_entries_map_update(self.entries@, i as int,
                        DHTEntry { key: key, value: value });
                }
                self.entries.set(i, DHTEntry { key, value });
                proof {
                    assert forall|a: int, b: int|
                        0 <= a < b < self.entries@.len()
                        implies self.entries@[a].key@ != self.entries@[b].key@ by {
                        assert(old(self).entries@[a].key@ == self.entries@[a].key@);
                        assert(old(self).entries@[b].key@ == self.entries@[b].key@);
                    }
                }
                return;
            }
            i += 1;
        }
        self.entries.push(DHTEntry { key, value });
        proof {
            assert(self.entries@.drop_last() =~= old(self).entries@);
        }
    }

    /// Returns the value stored under `key`, or `None` if the key is absent.
    pub fn lookup(&self, key: &str) -> (r: Option<String>)
        requires
            self.wf(),
        ensures
            match r {
                Some(v) => self@.contains_key(key@) && v@ == self@[key@],
                None => !self@.contains_key(key@),
            },
    {
        let n = self.entries.len();
        let mut i: usize = 0;
        while i < n
            invariant
                self.wf(),
                n == self.entries.len(),
                i <= n,
                forall|j: int| 0 <= j < i ==> self.entries@[j].key@ != key@,
            decreases n - i,
        {
            if str_eq(self.entries[i].key.as_str(), key) {
                proof {
                    lemma_entries_map_index(self.entries@, i as int);
                }
                return Some(self.entries[i].value.clone());
            }
            i += 1;
        }
        proof {
            lemma_entries_map_contains(self.entries@, key@);
        }
        None
    }
}

} // verus!
