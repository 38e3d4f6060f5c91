//! The in-memory index: a mapping from key to the byte range of the key's
//! most recent value in the current log file.
//!
//! The index is kept as a vector of key/location entries with pairwise
//! distinct keys; its specification view is the `Map` those entries denote.

use vstd::prelude::*;

verus! {

/// Byte range of one value within the current log file.
#[derive(Clone, Copy, PartialEq, Eq, Structural)]
pub struct IndexValue {
    pub offset: u64,
    pub bytes_to_read: usize,
}

/// The mapping denoted by a sequence of key/value entries; a later entry
/// for the same key supersedes an earlier one.
pub open spec fn map_of<V>(s: Seq<(String, V)>) -> Map<Seq<char>, V>
    decreases s.len(),
{
    if s.len() == 0 {
        Map::empty()
    } else {
        map_of(s.drop_last()).insert(s.last().0@, s.last().1)
    }
}

/// No two entries share a key.
pub open spec fn unique_keys<V>(s: Seq<(String, V)>) -> bool {
    forall|i: int, j: int| 0 <= i < j < s.len() ==> s[i].0@ != s[j].0@
}

/// A key is in the denoted mapping exactly when some entry carries it.
pub proof fn lemma_map_of_contains<V>(s: Seq<(String, V)>, k: Seq<char>)
    ensures
        map_of(s).contains_key(k) <==> exists|i: int| 0 <= i < s.len() && s[i].0@ == k,
    decreases s.len(),
{
    if s.len() > 0 {
        lemma_map_of_contains(s.drop_last(), k);
        if s.last().0@ == k {
            assert(s[s.len() - 1].0@ == k);
        } else {
            if exists|i: int| 0 <= i < s.len() && s[i].0@ == k {
                let i = choose|i: int| 0 <= i < s.len() && s[i].0@ == k;
                assert(s.drop_last()[i] == s[i]);
            }
        }
    }
}

/// With distinct keys, the entry carrying a key determines its mapping.
pub proof fn lemma_map_of_index<V>(s: Seq<(String, V)>, i: int)
    requires
        unique_keys(s),
        0 <= i < s.len(),
    ensures
        map_of(s).contains_key(s[i].0@),
        map_of(s)[s[i].0@] == s[i].1,
    decreases s.len(),
{
    if i == s.len() - 1 {
    } else {
        assert(s.drop_last()[i] == s[i]);
        lemma_map_of_index(s.drop_last(), i);
        assert(s[i].0@ != s.last().0@);
    }
}

/// Removing an entry removes exactly its key from the denoted mapping.
pub proof fn lemma_map_of_remove<V>(s: Seq<(String, V)>, i: int)
    requires
        unique_keys(s),
        0 <= i < s.len(),
    ensures
        map_of(s.remove(i)) == map_of(s).remove(s[i].0@),
    decreases s.len(),
{
    let k = s[i].0@;
    if i == s.len() - 1 {
        assert(s.remove(i) =~= s.drop_last());
        lemma_map_of_contains(s.drop_last(), k);
        assert(forall|j: int| 0 <= j < s.drop_last().len() ==> s.drop_last()[j] == s[j]);
        assert(!map_of(s.drop_last()).contains_key(k));
        assert(map_of(s.drop_last()) =~= map_of(s.drop_last()).insert(k, s[i].1).remove(k));
    } else {
        let t = s.remove(i);
        assert(t.last() == s.last());
        assert(t.drop_last() =~= s.drop_last().remove(i));
        lemma_map_of_remove(s.drop_last(), i);
        assert(s.drop_last()[i] == s[i]);
        assert(s.last().0@ != k);
        assert(map_of(t) == map_of(s.drop_last()).remove(k).insert(s.last().0@, s.last().1));
        assert(map_of(s.drop_last()).remove(k).insert(s.last().0@, s.last().1) =~= map_of(
            s.drop_last(),
        ).insert(s.last().0@, s.last().1).remove(k));
    }
}

/// Appending an entry inserts its key into the denoted mapping.
pub proof fn lemma_map_of_push<V>(s: Seq<(String, V)>, key: String, v: V)
    ensures
        map_of(s.push((key, v))) == map_of(s).insert(key@, v),
{
    assert(s.push((key, v)).drop_last() =~= s);
    assert(s.push((key, v)).last() == (key, v));
}

/// Distinctness of keys survives removing an entry.
pub proof fn lemma_unique_keys_remove<V>(s: Seq<(String, V)>, i: int)
    requires
        unique_keys(s),
        0 <= i < s.len(),
    ensures
        unique_keys(s.remove(i)),
{
    assert forall|p: int, q: int| 0 <= p < q < s.remove(i).len() implies s.remove(i)[p].0@ != s.remove(
        i,
    )[q].0@ by {
        let p0 = if p < i { p } else { p + 1 };
        let q0 = if q < i { q } else { q + 1 };
        assert(s.remove(i)[p] == s[p0]);
        assert(s.remove(i)[q] == s[q0]);
    }
}

/// Distinctness of keys survives appending an entry with a fresh key.
pub proof fn lemma_unique_keys_push<V>(s: Seq<(String, V)>, key: String, v: V)
    requires
        unique_keys(s),
        forall|i: int| 0 <= i < s.len() ==> s[i].0@ != key@,
    ensures
        unique_keys(s.push((key, v))),
{
}

/// Total number of value units the entries of an index address.
pub open spec fn sum_lens(s: Seq<(String, IndexValue)>) -> nat
    decreases s.len(),
{
    if s.len() == 0 {
        0
    } else {
        (sum_lens(s.drop_last()) + s.last().1.bytes_to_read) as nat
    }
}

/// Removing an entry lowers the total by exactly that entry's length.
pub proof fn lemma_sum_lens_remove(s: Seq<(String, IndexValue)>, i: int)
    requires
        0 <= i < s.len(),
    ensures
        sum_lens(s.remove(i)) + s[i].1.bytes_to_read == sum_lens(s),
    decreases s.len(),
{
    if i == s.len() - 1 {
        assert(s.remove(i) =~= s.drop_last());
    } else {
        let t = s.remove(i);
        assert(t.last() == s.last());
        assert(t.drop_last() =~= s.drop_last().remove(i));
        lemma_sum_lens_remove(s.drop_last(), i);
        assert(s.drop_last()[i] == s[i]);
    }
}

/// Appending an entry raises the total by exactly that entry's length.
pub proof fn lemma_sum_lens_push(s: Seq<(String, IndexValue)>, key: String, v: IndexValue)
    ensures
        sum_lens(s.push((key, v))) == sum_lens(s) + v.bytes_to_read,
{
    assert(s.push((key, v)).drop_last() =~= s);
    assert(s.push((key, v)).last() == (key, v));
}

/// Lengthening a prefix by one entry raises its total by that entry's length.
pub proof fn lemma_sum_lens_take_step(s: Seq<(String, IndexValue)>, j: int)
    requires
        0 <= j < s.len(),
    ensures
        sum_lens(s.take(j + 1)) == sum_lens(s.take(j)) + s[j].1.bytes_to_read,
{
    assert(s.take(j + 1).drop_last() =~= s.take(j));
    assert(s.take(j + 1).last() == s[j]);
}

/// A prefix's total never exceeds the whole sequence's total.
pub proof fn lemma_sum_lens_take_le(s: Seq<(String, IndexValue)>, j: int)
    requires
        0 <= j <= s.len(),
    ensures
        sum_lens(s.take(j)) <= sum_lens(s),
    decreases s.len() - j,
{
    if j == s.len() {
        assert(s.take(j) =~= s);
    } else {
        lemma_sum_lens_take_step(s, j);
        lemma_sum_lens_take_le(s, j + 1);
    }
}

/// The in-memory index. Its entries carry pairwise distinct keys; its
/// specification view is the mapping from key to location.
pub struct Index {
    pub entries: Vec<(String, IndexValue)>,
}

impl View for Index {
    type V = Map<Seq<char>, IndexValue>;

    open spec fn view(&self) -> Map<Seq<char>, IndexValue> {
        map_of(self.entries@)
    }
}

impl Index {
    /// Well-formedness: no two entries share a key.
    pub open spec fn wf(&self) -> bool {
        unique_keys(self.entries@)
    }

    /// Total number of value units the index addresses.
    pub open spec fn total_len(&self) -> nat {
        sum_lens(self.entries@)
    }

    /// An empty index.
    pub fn new() -> (index: Index)
        ensures
            index.wf(),
            index@ == Map::<Seq<char>, IndexValue>::empty(),
            index.total_len() == 0,
            index.entries@.len() == 0,
    {
        Index { entries: Vec::new() }
    }

    /// Position of the entry carrying the given key, if any entry does.
    fn find(&self, key: &String) -> (position: Option<usize>)
        ensures
            match position {
                Some(i) => i < self.entries@.len() && self.entries@[i as int].0@ == key@,
                None => forall|i: int|
                    0 <= i < self.entries@.len() ==> self.entries@[i].0@ != key@,
            },
    {
        let mut i: usize = 0;
        while i < self.entries.len()
            invariant
                i <= self.entries@.len(),
                forall|j: int| 0 <= j < i ==> self.entries@[j].0@ != key@,
            decreases self.entries@.len() - i,
        {
            if self.entries[i].0 == *key {
                return Some(i);
            }
            i = i + 1;
        }
        None
    }

    /// Number of entries.
    pub fn len(&self) -> (n: usize)
        ensures
            n == self.entries@.len(),
    {
        self.entries.len()
    }

    /// Key of the entry at the given position.
    pub fn key_at(&self, i: usize) -> (key: &String)
        requires
            i < self.entries@.len(),
        ensures
            key@ == self.entries@[i as int].0@,
    {
        &self.entries[i].0
    }

    /// Location of the entry at the given position.
    pub fn loc_at(&self, i: usize) -> (loc: IndexValue)
        requires
            i < self.entries@.len(),
        ensures
            loc == self.entries@[i as int].1,
    {
        self.entries[i].1
    }

    /// The location the given key maps to, if the key is present.
    pub fn get(&self, key: &str) -> (loc: Option<IndexValue>)
        requires
            self.wf(),
        ensures
            match loc {
                Some(v) => self@.contains_key(key@) && self@[key@] == v,
                None => !self@.contains_key(key@),
            },
    {
        let k = key.to_owned();
        let found = self.find(&k);
        proof {
            lemma_map_of_contains(self.entries@, key@);
        }
        match found {
            Some(i) => {
                proof {
                    lemma_map_of_index(self.entries@, i as int);
                }
                Some(self.entries[i].1)
            },
            None => None,
        }
    }

    /// Insert a location for a key, superseding any earlier one.
    pub fn insert(&mut self, key: &str, value: IndexValue)
        requires
            old(self).wf(),
        ensures
            final(self).wf(),
            final(self)@ == old(self)@.insert(key@, value),
            final(self).total_len() + (if old(self)@.contains_key(key@) {
                old(self)@[key@].bytes_to_read as int
            } else {
                0
            }) == old(self).total_len() + value.bytes_to_read,
    {
        let k = key.to_owned();
        let found = self.find(&k);
        proof {
            lemma_map_of_contains(self.entries@, key@);
        }
        match found {
            Some(i) => {
                proof {
                    lemma_map_of_index(self.entries@, i as int);
                    lemma_map_of_remove(self.entries@, i as int);
                    lemma_sum_lens_remove(self.entries@, i as int);
                    lemma_unique_keys_remove(self.entries@, i as int);
                }
                self.entries.remove(i);
                proof {
                    lemma_map_of_push(self.entries@, k, value);
                    lemma_sum_lens_push(self.entries@, k, value);
                    lemma_unique_keys_push(self.entries@, k, value);
                    assert(old(self)@.remove(key@).insert(key@, value) =~= old(self)@.insert(
                        key@,
                        value,
                    ));
                }
                self.entries.push((k, value));
            },
            None => {
                proof {
                    lemma_map_of_push(self.entries@, k, value);
                    lemma_sum_lens_push(self.entries@, k, value);
                    lemma_unique_keys_push(self.entries@, k, value);
                }
                self.entries.push((k, value));
            },
        }
    }

    /// Remove a key; a no-op if the key is absent.
    pub fn remove(&mut self, key: &str)
        requires
            old(self).wf(),
        ensures
            final(self).wf(),
            final(self)@ == old(self)@.remove(key@),
            final(self).total_len() + (if old(self)@.contains_key(key@) {
                old(self)@[key@].bytes_to_read as int
            } else {
                0
            }) == old(self).total_len(),
    {
        let k = key.to_owned();
        let found = self.find(&k);
        proof {
            lemma_map_of_contains(self.entries@, key@);
        }
        match found {
            Some(i) => {
                proof {
                    lemma_map_of_index(self.entries@, i as int);
                    lemma_map_of_remove(self.entries@, i as int);
                    lemma_sum_lens_remove(self.entries@, i as int);
                    lemma_unique_keys_remove(self.entries@, i as int);
                }
                self.entries.remove(i);
            },
            None => {
                proof {
                    assert(old(self)@ =~= old(self)@.remove(key@));
                }
            },
        }
    }
}

} // verus!
