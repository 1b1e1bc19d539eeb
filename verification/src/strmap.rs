//! A string-to-string mapping with last-write-wins insertion.
//!
//! Headers and query parameters are both stored in a [`StringMap`].  The
//! map keeps its entries in the order they were first inserted (callers may
//! not rely on that order over the wire, but it makes serialization
//! deterministic), keeps keys exactly as received, and lets a later insert
//! of an existing key overwrite the earlier value.

use vstd::prelude::*;

verus! {

broadcast use vstd::std_specs::vec::group_vec_axioms;

/// The entries of a map, as key/value character sequences in storage order.
pub type Entries = Seq<(Seq<char>, Seq<char>)>;

/// Inserting into an entry sequence: the first entry with an equal key has
/// its value replaced in place; a fresh key is appended at the end.
pub open spec fn spec_upsert(entries: Entries, k: Seq<char>, v: Seq<char>) -> Entries
    decreases entries.len(),
{
    if entries.len() == 0 {
        seq![(k, v)]
    } else if entries[0].0 == k {
        seq![(k, v)] + entries.drop_first()
    } else {
        seq![entries[0]] + spec_upsert(entries.drop_first(), k, v)
    }
}

/// The mapping an entry sequence denotes; a later entry for a key wins.
pub open spec fn spec_assoc_map(entries: Entries) -> Map<Seq<char>, Seq<char>>
    decreases entries.len(),
{
    if entries.len() == 0 {
        Map::empty()
    } else {
        spec_assoc_map(entries.drop_last()).insert(entries.last().0, entries.last().1)
    }
}

/// No two entries share a key.
pub open spec fn entries_wf(entries: Entries) -> bool {
    forall|i: int, j: int| 0 <= i < j < entries.len() ==> entries[i].0 != entries[j].0
}

/// If no entry has key `k`, upsert appends.
pub proof fn lemma_upsert_absent(entries: Entries, k: Seq<char>, v: Seq<char>)
    requires
        forall|j: int| 0 <= j < entries.len() ==> entries[j].0 != k,
    ensures
        spec_upsert(entries, k, v) =~= entries.push((k, v)),
    decreases entries.len(),
{
    if entries.len() > 0 {
        lemma_upsert_absent(entries.drop_first(), k, v);
    }
}

/// If the first entry with key `k` stands at index `i`, upsert replaces its
/// value in place.
pub proof fn lemma_upsert_found(entries: Entries, k: Seq<char>, v: Seq<char>, i: int)
    requires
        0 <= i < entries.len(),
        entries[i].0 == k,
        forall|j: int| 0 <= j < i ==> entries[j].0 != k,
    ensures
        spec_upsert(entries, k, v) =~= entries.update(i, (k, v)),
    decreases entries.len(),
{
    if i == 0 {
        assert(spec_upsert(entries, k, v) =~= entries.update(0, (k, v)));
    } else {
        lemma_upsert_found(entries.drop_first(), k, v, i - 1);
    }
}

/// Upsert preserves key uniqueness.
pub proof fn lemma_upsert_wf(entries: Entries, k: Seq<char>, v: Seq<char>)
    requires
        entries_wf(entries),
    ensures
        entries_wf(spec_upsert(entries, k, v)),
{
    lemma_find_key(entries, k);
    if exists|i: int| 0 <= i < entries.len() && entries[i].0 == k {
        let i = choose|i: int|
            0 <= i < entries.len() && entries[i].0 == k && (forall|j: int|
                0 <= j < i ==> entries[j].0 != k);
        lemma_upsert_found(entries, k, v, i);
    } else {
        lemma_upsert_absent(entries, k, v);
    }
}

/// Either `k` occurs nowhere, or there is a first entry holding it.
proof fn lemma_find_key(entries: Entries, k: Seq<char>)
    ensures
        (exists|i: int| 0 <= i < entries.len() && entries[i].0 == k) ==> exists|i: int|
            0 <= i < entries.len() && entries[i].0 == k && (forall|j: int|
                0 <= j < i ==> entries[j].0 != k),
    decreases entries.len(),
{
    if entries.len() > 0 {
        if entries[0].0 == k {
            assert(0 <= 0 < entries.len() && entries[0].0 == k && (forall|j: int|
                0 <= j < 0 ==> entries[j].0 != k));
        } else {
            lemma_find_key(entries.drop_first(), k);
            if exists|i: int| 0 <= i < entries.len() && entries[i].0 == k {
                let i0 = choose|i: int| 0 <= i < entries.len() && entries[i].0 == k;
                assert(entries.drop_first()[i0 - 1] == entries[i0]);
                let i1 = choose|i: int|
                    0 <= i < entries.drop_first().len() && entries.drop_first()[i].0 == k && (
                    forall|j: int| 0 <= j < i ==> entries.drop_first()[j].0 != k);
                assert(entries[i1 + 1].0 == k);
                assert(forall|j: int| 0 <= j < i1 + 1 ==> entries[j].0 != k) by {
                    assert forall|j: int| 1 <= j < i1 + 1 implies entries[j].0 != k by {
                        assert(entries.drop_first()[j - 1] == entries[j]);
                    }
                }
            }
        }
    }
}

/// The denoted mapping of an upsert is the mapping with `k` bound to `v`.
pub proof fn lemma_upsert_assoc_map(entries: Entries, k: Seq<char>, v: Seq<char>)
    requires
        entries_wf(entries),
    ensures
        spec_assoc_map(spec_upsert(entries, k, v)) =~= spec_assoc_map(entries).insert(k, v),
    decreases entries.len(),
{
    lemma_find_key(entries, k);
    if exists|i: int| 0 <= i < entries.len() && entries[i].0 == k {
        let i = choose|i: int|
            0 <= i < entries.len() && entries[i].0 == k && (forall|j: int|
                0 <= j < i ==> entries[j].0 != k);
        lemma_upsert_found(entries, k, v, i);
        lemma_assoc_map_update(entries, i, v);
    } else {
        lemma_upsert_absent(entries, k, v);
        assert(entries.push((k, v)).drop_last() =~= entries);
    }
}

/// Updating the value at index `i` updates the denoted mapping at that key,
/// provided keys are unique.
proof fn lemma_assoc_map_update(entries: Entries, i: int, v: Seq<char>)
    requires
        entries_wf(entries),
        0 <= i < entries.len(),
    ensures
        spec_assoc_map(entries.update(i, (entries[i].0, v))) =~= spec_assoc_map(entries).insert(
            entries[i].0,
            v,
        ),
    decreases entries.len(),
{
    let k = entries[i].0;
    let updated = entries.update(i, (k, v));
    if i == entries.len() - 1 {
        assert(updated.drop_last() =~= entries.drop_last());
    } else {
        assert(updated.drop_last() =~= entries.drop_last().update(i, (k, v)));
        assert(entries.drop_last()[i] == entries[i]);
        assert(entries_wf(entries.drop_last())) by {
            assert forall|a: int, b: int|
                0 <= a < b < entries.drop_last().len() implies entries.drop_last()[a].0
                != entries.drop_last()[b].0 by {
                assert(entries.drop_last()[a] == entries[a]);
                assert(entries.drop_last()[b] == entries[b]);
            }
        }
        lemma_assoc_map_update(entries.drop_last(), i, v);
        assert(entries.last().0 != k);
    }
}

/// An entry of a well-formed sequence is bound in the denoted mapping.
pub proof fn lemma_assoc_map_index(entries: Entries, i: int)
    requires
        entries_wf(entries),
        0 <= i < entries.len(),
    ensures
        spec_assoc_map(entries).contains_key(entries[i].0),
        spec_assoc_map(entries)[entries[i].0] == entries[i].1,
    decreases entries.len(),
{
    if i == entries.len() - 1 {
    } else {
        assert(entries.drop_last()[i] == entries[i]);
        assert(entries_wf(entries.drop_last())) by {
            assert forall|a: int, b: int|
                0 <= a < b < entries.drop_last().len() implies entries.drop_last()[a].0
                != entries.drop_last()[b].0 by {
                assert(entries.drop_last()[a] == entries[a]);
                assert(entries.drop_last()[b] == entries[b]);
            }
        }
        lemma_assoc_map_index(entries.drop_last(), i);
        assert(entries.last().0 != entries[i].0);
    }
}

/// A key that no entry holds is not bound in the denoted mapping.
pub proof fn lemma_assoc_map_absent(entries: Entries, k: Seq<char>)
    requires
        forall|j: int| 0 <= j < entries.len() ==> entries[j].0 != k,
    ensures
        !spec_assoc_map(entries).contains_key(k),
    decreases entries.len(),
{
    if entries.len() > 0 {
        assert forall|j: int|
            0 <= j < entries.drop_last().len() implies entries.drop_last()[j].0 != k by {
            assert(entries.drop_last()[j] == entries[j]);
        }
        lemma_assoc_map_absent(entries.drop_last(), k);
    }
}

/// A mapping from strings to strings, keyed by exact character equality.
pub struct StringMap {
    entries: Vec<(String, String)>,
}

impl View for StringMap {
    type V = Entries;

    closed spec fn view(&self) -> Entries {
        self.entries@.map_values(|p: (String, String)| (p.0@, p.1@))
    }
}

impl StringMap {
    /// Keys are pairwise distinct.
    pub open spec fn wf(&self) -> bool {
        entries_wf(self@)
    }

    /// The mapping this value denotes.
    pub open spec fn as_map(&self) -> Map<Seq<char>, Seq<char>> {
        spec_assoc_map(self@)
    }

    /// An empty map.
    pub fn new() -> (r: StringMap)
        ensures
            r@ =~= Seq::<(Seq<char>, Seq<char>)>::empty(),
            r.wf(),
    {
        StringMap { entries: Vec::new() }
    }

    /// Number of entries.
    pub fn len(&self) -> (r: usize)
        ensures
            r == self@.len(),
    {
        self.entries.len()
    }

    /// The entry at position `i`, in storage order.
    pub fn pair_at(&self, i: usize) -> (r: &(String, String))
        requires
            i < self@.len(),
        ensures
            (r.0@, r.1@) == self@[i as int],
    {
        &self.entries[i]
    }

    /// Binds `key` to `value`; an existing binding of the key is
    /// overwritten in place, a fresh key is appended.
    pub fn insert(&mut self, key: String, value: String)
        requires
            old(self).wf(),
        ensures
            final(self)@ == spec_upsert(old(self)@, key@, value@),
            final(self).wf(),
            final(self).as_map() =~= old(self).as_map().insert(key@, value@),
    {
        let ghost orig = self@;
        let n = self.entries.len();
        let mut i: usize = 0;
        while i < n
            invariant
                0 <= i <= n,
                n == self.entries@.len(),
                orig == old(self)@,
                self@ == orig,
                self.wf(),
                forall|j: int| 0 <= j < i ==> self@[j].0 != key@,
            decreases n - i,
        {
            if self.entries[i].0 == key {
                let ghost idx = i as int;
                self.entries[i] = (key, value);
                proof {
                    assert(self@ =~= orig.update(idx, (key@, value@)));
                    lemma_upsert_found(orig, key@, value@, idx);
                    lemma_upsert_wf(orig, key@, value@);
                    lemma_upsert_assoc_map(orig, key@, value@);
                }
                return ;
            }
            i = i + 1;
        }
        self.entries.push((key, value));
        proof {
            assert(self@ =~= orig.push((key@, value@)));
            lemma_upsert_absent(orig, key@, value@);
            lemma_upsert_wf(orig, key@, value@);
            lemma_upsert_assoc_map(orig, key@, value@);
        }
    }

    /// The value bound to `key`, if any.
    pub fn get(&self, key: &str) -> (r: Option<&String>)
        requires
            self.wf(),
        ensures
            match r {
                Some(v) => self.as_map().contains_key(key@) && v@ == self.as_map()[key@],
                None => !self.as_map().contains_key(key@),
            },
    {
        let owned = key.to_owned();
        let n = self.entries.len();
        let mut i: usize = 0;
        while i < n
            invariant
                0 <= i <= n,
                n == self.entries@.len(),
                self.wf(),
                owned@ == key@,
                forall|j: int| 0 <= j < i ==> self@[j].0 != key@,
            decreases n - i,
        {
            if self.entries[i].0 == owned {
                proof {
                    lemma_assoc_map_index(self@, i as int);
                }
                return Some(&self.entries[i].1);
            }
            i = i + 1;
        }
        proof {
            lemma_assoc_map_absent(self@, key@);
        }
        None
    }
}

} // verus!
