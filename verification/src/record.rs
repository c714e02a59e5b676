//! A record: the keys of one chunk, each with its value.

use vstd::prelude::*;
use vstd::string::*;

verus! {

/// The entries of a record as plain values: key and value, in the order in
/// which the keys first came.
pub type Entries = Seq<(Seq<char>, Seq<char>)>;

/// Some entry has the key `k`.
pub open spec fn has_key(entries: Entries, k: Seq<char>) -> bool {
    exists|i: int| 0 <= i < entries.len() && (#[trigger] entries[i]).0 == k
}

/// The index of an entry with the key `k`, where there is one.
pub open spec fn slot(entries: Entries, k: Seq<char>) -> int {
    choose|i: int| 0 <= i < entries.len() && (#[trigger] entries[i]).0 == k
}

/// No key stands in two entries.
pub open spec fn distinct_keys(entries: Entries) -> bool {
    forall|i: int, j: int|
        0 <= i < j < entries.len() ==> (#[trigger] entries[i]).0 != (#[trigger] entries[j]).0
}

/// The value under `k`, if the key is there.
pub open spec fn lookup(entries: Entries, k: Seq<char>) -> Option<Seq<char>> {
    if has_key(entries, k) {
        Some(entries[slot(entries, k)].1)
    } else {
        None
    }
}

/// The entries after `k` has been given the value `v`: a key that is there
/// keeps its place and loses its old value, a new one goes to the end.
pub open spec fn put(entries: Entries, k: Seq<char>, v: Seq<char>) -> Entries {
    if has_key(entries, k) {
        entries.update(slot(entries, k), (k, v))
    } else {
        entries.push((k, v))
    }
}

/// The keys of the entries, in order.
pub open spec fn keys_of(entries: Entries) -> Seq<Seq<char>> {
    Seq::new(entries.len(), |i: int| entries[i].0)
}

/// With distinct keys, the entry at `i` is the one that `slot` names for its key.
pub proof fn lemma_slot_is_unique(entries: Entries, i: int)
    requires
        distinct_keys(entries),
        0 <= i < entries.len(),
    ensures
        has_key(entries, entries[i].0),
        slot(entries, entries[i].0) == i,
        lookup(entries, entries[i].0) == Some(entries[i].1),
{
    let k = entries[i].0;
    let j = slot(entries, k);
    assert(0 <= j < entries.len() && entries[j].0 == k);
    if j < i {
        assert(entries[j].0 != entries[i].0);
    }
    if i < j {
        assert(entries[i].0 != entries[j].0);
    }
}

/// Writing a key keeps the keys distinct, leaves every other key as it was,
/// and makes the written value the one that `lookup` finds.
pub proof fn lemma_put(entries: Entries, k: Seq<char>, v: Seq<char>)
    requires
        distinct_keys(entries),
    ensures
        distinct_keys(put(entries, k, v)),
        lookup(put(entries, k, v), k) == Some(v),
        forall|other: Seq<char>|
            other != k ==> lookup(put(entries, k, v), other) == lookup(entries, other),
        forall|other: Seq<char>|
            has_key(put(entries, k, v), other) <==> (other == k || has_key(entries, other)),
{
    let after = put(entries, k, v);
    if has_key(entries, k) {
        let s = slot(entries, k);
        assert(0 <= s < entries.len() && entries[s].0 == k);
        assert(after.len() == entries.len());
        assert forall|i: int| 0 <= i < after.len() implies (#[trigger] after[i]).0
            == entries[i].0 by {}
        assert(distinct_keys(after)) by {
            assert forall|i: int, j: int| 0 <= i < j < after.len() implies (#[trigger] after[i]).0
                != (#[trigger] after[j]).0 by {
                assert(entries[i].0 != entries[j].0);
            }
        }
        assert(after[s].0 == k);
        lemma_slot_is_unique(after, s);
        assert forall|other: Seq<char>| other != k implies lookup(after, other) == lookup(
            entries,
            other,
        ) by {
            if has_key(entries, other) {
                let t = slot(entries, other);
                assert(0 <= t < entries.len() && entries[t].0 == other);
                assert(after[t].0 == other);
                lemma_slot_is_unique(entries, t);
                lemma_slot_is_unique(after, t);
            } else if has_key(after, other) {
                let t = slot(after, other);
                assert(0 <= t < after.len() && after[t].0 == other);
                assert(entries[t].0 == other);
            }
        }
        assert forall|other: Seq<char>| has_key(after, other) <==> (other == k || has_key(
            entries,
            other,
        )) by {
            if has_key(after, other) {
                let t = slot(after, other);
                assert(0 <= t < after.len() && after[t].0 == other);
                assert(entries[t].0 == other);
            }
            if has_key(entries, other) {
                let t = slot(entries, other);
                assert(0 <= t < entries.len() && entries[t].0 == other);
                assert(after[t].0 == other);
            }
        }
    } else {
        let n = entries.len() as int;
        assert(after.len() == n + 1);
        assert(after[n] == (k, v));
        assert forall|i: int| 0 <= i < n implies (#[trigger] after[i]) == entries[i] by {}
        assert(distinct_keys(after)) by {
            assert forall|i: int, j: int| 0 <= i < j < after.len() implies (#[trigger] after[i]).0
                != (#[trigger] after[j]).0 by {
                if j < n {
                    assert(entries[i].0 != entries[j].0);
                } else {
                    assert(entries[i].0 != k);
                }
            }
        }
        lemma_slot_is_unique(after, n);
        assert forall|other: Seq<char>| other != k implies lookup(after, other) == lookup(
            entries,
            other,
        ) by {
            if has_key(entries, other) {
                let t = slot(entries, other);
                assert(0 <= t < entries.len() && entries[t].0 == other);
                assert(after[t].0 == other);
                lemma_slot_is_unique(entries, t);
                lemma_slot_is_unique(after, t);
            } else if has_key(after, other) {
                let t = slot(after, other);
                assert(0 <= t < after.len() && after[t].0 == other);
                assert(entries[t].0 == other);
            }
        }
        assert forall|other: Seq<char>| has_key(after, other) <==> (other == k || has_key(
            entries,
            other,
        )) by {
            if has_key(after, other) {
                let t = slot(after, other);
                assert(0 <= t < after.len() && after[t].0 == other);
                if t < n {
                    assert(entries[t].0 == other);
                }
            }
            if has_key(entries, other) {
                let t = slot(entries, other);
                assert(0 <= t < entries.len() && entries[t].0 == other);
                assert(after[t].0 == other);
            }
        }
    }
}

/// A mapping from key to value in which no key stands twice. The keys keep
/// the order in which they first came.
#[derive(Debug)]
pub struct Record {
    entries: Vec<(String, String)>,
}

/// The keys and values of stored entries as plain values.
spec fn entry_views(entries: Seq<(String, String)>) -> Entries {
    Seq::new(entries.len(), |i: int| (entries[i].0@, entries[i].1@))
}

impl View for Record {
    type V = Entries;

    closed spec fn view(&self) -> Entries {
        entry_views(self.entries@)
    }
}

impl Record {
    /// No key stands twice. This holds of every record.
    #[verifier::type_invariant]
    closed spec fn wf(&self) -> bool {
        distinct_keys(self@)
    }

    /// A record without entries.
    pub fn new() -> (record: Record)
        ensures
            record@ == Entries::empty(),
    {
        let record = Record { entries: Vec::new() };
        assert(record@ =~= Entries::empty());
        record
    }

    /// How many keys the record has.
    pub fn len(&self) -> (n: usize)
        ensures
            n == self@.len(),
    {
        self.entries.len()
    }

    /// The key of the entry at `i`.
    pub fn key_at(&self, i: usize) -> (key: &String)
        requires
            i < self@.len(),
        ensures
            key@ == self@[i as int].0,
    {
        &self.entries[i].0
    }

    /// The index of the first entry with the key `key`.
    fn find(&self, key: &String) -> (found: Option<usize>)
        ensures
            match found {
                Some(i) => i < self@.len() && self@[i as int].0 == key@ && forall|j: int|
                    0 <= j < i ==> (#[trigger] self@[j]).0 != key@,
                None => !has_key(self@, key@),
            },
    {
        let mut i: usize = 0;
        while i < self.entries.len()
            invariant
                i <= self.entries.len(),
                forall|j: int| 0 <= j < i ==> (#[trigger] self@[j]).0 != key@,
            decreases self.entries.len() - i,
        {
            if self.entries[i].0 == *key {
                return Some(i);
            }
            i += 1;
        }
        None
    }

    /// The value under `key`, if the record has the key.
    pub fn get(&self, key: &String) -> (value: Option<&String>)
        ensures
            match value {
                Some(v) => lookup(self@, key@) == Some(v@),
                None => lookup(self@, key@) is None,
            },
    {
        proof {
            use_type_invariant(self);
        }
        match self.find(key) {
            Some(i) => {
                proof {
                    lemma_slot_is_unique(self@, i as int);
                }
                Some(&self.entries[i].1)
            },
            None => None,
        }
    }

    /// Gives `key` the value `value`. A value that the key had is lost.
    pub fn insert(&mut self, key: String, value: String)
        ensures
            final(self)@ == put(old(self)@, key@, value@),
            distinct_keys(final(self)@),
    {
        proof {
            use_type_invariant(&*self);
            lemma_put(self@, key@, value@);
        }
        let found = self.find(&key);
        let mut entries: Vec<(String, String)> = Vec::new();
        core::mem::swap(&mut self.entries, &mut entries);
        match found {
            Some(i) => {
                proof {
                    lemma_slot_is_unique(old(self)@, i as int);
                }
                entries.set(i, (key, value));
            },
            None => {
                entries.push((key, value));
            },
        }
        assert(entry_views(entries@) =~= put(old(self)@, key@, value@));
        self.entries = entries;
    }
}

} // verus!
