//! The log-structured engine: an in-memory index over an append-only log
//! file, with synchronous compaction once the log outgrows the backend's
//! threshold.
//!
//! The engine's observable state is the mapping from key to current value;
//! `get`, `set` and `delete` are specified against that mapping, and the
//! inherent `set` and `delete` also pin down the log file: a set within
//! the threshold appends and nothing more, a set beyond it compacts the
//! log to exactly the total length of the live values, and a delete
//! leaves the log file untouched.

use crate::fs::FSHelper;
use crate::index::{
    lemma_map_of_contains, lemma_map_of_index, lemma_sum_lens_take_le, lemma_sum_lens_take_step,
    sum_lens, Index, IndexValue,
};
use vstd::prelude::*;

verus! {

/// Fixed name of the temporary file that compaction writes the live
/// values into; distinct from the current log file's name.
pub open spec fn tmp_log_path() -> Seq<char> {
    "log_tmp"@
}

/// Fixed name the current log file is retired under during compaction.
pub open spec fn old_log_path() -> Seq<char> {
    "log_old"@
}

/// A key-value store: point lookups by exact key, insert/overwrite, and
/// removal. The observable state is a mapping from key to value; absence
/// of a key from that mapping is the only deletion marker.
pub trait Database: Sized {
    /// The observable mapping from key to current value.
    spec fn contents(&self) -> Map<Seq<char>, Seq<char>>;

    /// Well-formedness of the store's internal state.
    spec fn inv(&self) -> bool;

    /// Looks the key up; absence is the only non-fatal miss.
    fn get(&self, key: &str) -> (value: Option<String>)
        requires
            self.inv(),
        ensures
            match value {
                Some(v) => self.contents().contains_key(key@) && v@ == self.contents()[key@],
                None => !self.contents().contains_key(key@),
            },
    ;

    /// Binds the key to the value, superseding any earlier binding.
    fn set(&mut self, key: &str, value: &str)
        requires
            old(self).inv(),
        ensures
            final(self).inv(),
            final(self).contents() == old(self).contents().insert(key@, value@),
    ;

    /// Unbinds the key; a no-op if the key is absent.
    fn delete(&mut self, key: &str)
        requires
            old(self).inv(),
        ensures
            final(self).inv(),
            final(self).contents() == old(self).contents().remove(key@),
    ;
}

/// The log-structured engine over a storage backend.
pub struct SimpleDB<F: FSHelper> {
    index: Index,
    fs_helper: F,
}

impl<F: FSHelper> SimpleDB<F> {
    /// The engine's storage backend.
    pub closed spec fn backend(&self) -> F {
        self.fs_helper
    }

    /// Contents of the current log file.
    pub closed spec fn log_contents(&self) -> Seq<char> {
        self.fs_helper.files()[self.fs_helper.log_path()]
    }

    /// Total length of the live values, the ranges the index addresses;
    /// the rest of the log file is garbage awaiting compaction.
    pub closed spec fn live_len(&self) -> nat {
        self.index.total_len()
    }

    /// The compaction threshold the backend was configured with.
    pub closed spec fn max_bytes(&self) -> usize {
        self.fs_helper.max_bytes()
    }

    /// Well-formedness: the backend and the index are well-formed, the
    /// current log file exists, no temporary file is lying around, the
    /// reserved names are free, every indexed range lies within the log
    /// file, and the live ranges total at most the log file's length.
    pub closed spec fn wf(&self) -> bool {
        &&& self.fs_helper.wf()
        &&& self.index.wf()
        &&& self.fs_helper.files().contains_key(self.fs_helper.log_path())
        &&& !self.fs_helper.files().contains_key(tmp_log_path())
        &&& self.fs_helper.log_path() != tmp_log_path()
        &&& self.fs_helper.log_path() != old_log_path()
        &&& forall|k: Seq<char>| #[trigger]
            self.index@.contains_key(k) ==> self.index@[k].offset + self.index@[k].bytes_to_read
                <= self.log_contents().len()
        &&& self.index.total_len() <= self.log_contents().len()
    }

    /// An engine over the given backend, with an empty index; ensures the
    /// current log file exists, creating an empty one if not. No recovery
    /// scan of a pre-existing log file is performed: a pre-existing log
    /// file's bytes stay in place as unreachable garbage until compaction.
    pub fn new(fs_helper: F) -> (db: SimpleDB<F>)
        requires
            fs_helper.wf(),
            !fs_helper.files().contains_key(tmp_log_path()),
            fs_helper.log_path() != tmp_log_path(),
            fs_helper.log_path() != old_log_path(),
        ensures
            db.wf(),
            db@ == Map::<Seq<char>, Seq<char>>::empty(),
            db.live_len() == 0,
            db.backend().files() == (if fs_helper.files().contains_key(fs_helper.log_path()) {
                fs_helper.files()
            } else {
                fs_helper.files().insert(fs_helper.log_path(), Seq::<char>::empty())
            }),
            db.backend().log_path() == fs_helper.log_path(),
            db.backend().max_bytes() == fs_helper.max_bytes(),
            db.log_contents() == db.backend().files()[db.backend().log_path()],
            db.max_bytes() == fs_helper.max_bytes(),
    {
        let index = Index::new();
        let mut fs_helper = fs_helper;
        let log_path_string = fs_helper.get_log_file_path();
        fs_helper.create_file_if_not_exists(log_path_string.as_str());
        let db = SimpleDB { index, fs_helper };
        proof {
            assert(db@ =~= Map::<Seq<char>, Seq<char>>::empty());
        }
        db
    }

    /// Size of the current log file.
    pub fn log_size(&self) -> (size: u64)
        requires
            self.wf(),
        ensures
            size as nat == self.log_contents().len(),
    {
        self.fs_helper.get_log_file_size()
    }
}

impl<F: FSHelper> SimpleDB<F> {
    /// Rewrites only the live values into a fresh log file and rebuilds
    /// the index against it, purging garbage left by overwrites and
    /// deletions. The observable mapping is unchanged; afterwards the log
    /// file's length is exactly the total length of the live values, so
    /// at most what it was before.
    fn run_compaction(&mut self)
        requires
            old(self).wf(),
        ensures
            final(self).wf(),
            final(self)@ == old(self)@,
            final(self).index.total_len() == old(self).index.total_len(),
            final(self).log_contents().len() == old(self).index.total_len(),
            final(self).log_contents().len() <= old(self).log_contents().len(),
            final(self).fs_helper.log_path() == old(self).fs_helper.log_path(),
            final(self).fs_helper.max_bytes() == old(self).fs_helper.max_bytes(),
    {
        let ghost pre = *self;
        let ghost entries0 = self.index.entries@;
        let ghost contents0 = self.log_contents();
        let ghost lp = self.fs_helper.log_path();
        // the size query bounds the log file's length by the return type's
        // range, which caps the running total written below
        let _size_before: u64 = self.fs_helper.get_log_file_size();
        let ghost cap = contents0.len();
        let mut new_index = Index::new();
        self.fs_helper.create_file_if_not_exists("log_tmp");
        let ghost files_c = self.fs_helper.files();
        proof {
            assert(entries0.take(0).len() == 0);
            assert(sum_lens(entries0.take(0)) == 0);
            assert(self.fs_helper.files() =~= files_c.insert(
                tmp_log_path(),
                self.fs_helper.files()[tmp_log_path()],
            ));
        }
        let mut total_written_bytes: u64 = 0;
        let n = self.index.len();
        let mut j: usize = 0;
        while j < n
            invariant
                j <= n,
                n == entries0.len(),
                pre.wf(),
                entries0 == pre.index.entries@,
                lp == pre.fs_helper.log_path(),
                contents0 == pre.log_contents(),
                cap == contents0.len(),
                cap <= u64::MAX,
                sum_lens(entries0) <= cap,
                files_c == pre.fs_helper.files().insert(tmp_log_path(), Seq::<char>::empty()),
                self.index.entries@ == entries0,
                self.index.wf(),
                self.fs_helper.wf(),
                self.fs_helper.log_path() == lp,
                self.fs_helper.max_bytes() == pre.fs_helper.max_bytes(),
                self.fs_helper.files().contains_key(lp),
                self.fs_helper.files()[lp] == contents0,
                self.fs_helper.files().contains_key(tmp_log_path()),
                self.fs_helper.files() == files_c.insert(
                    tmp_log_path(),
                    self.fs_helper.files()[tmp_log_path()],
                ),
                total_written_bytes as nat == sum_lens(entries0.take(j as int)),
                self.fs_helper.files()[tmp_log_path()].len() == total_written_bytes as nat,
                new_index.wf(),
                new_index.total_len() == total_written_bytes as nat,
                forall|i: int|
                    0 <= i < j ==> #[trigger] new_index@.contains_key(entries0[i].0@),
                forall|k: Seq<char>| #[trigger]
                    new_index@.contains_key(k) ==> exists|i: int|
                        0 <= i < j && entries0[i].0@ == k,
                forall|i: int|
                    #![trigger entries0[i]]
                    0 <= i < j ==> {
                        &&& new_index@[entries0[i].0@].bytes_to_read
                            == entries0[i].1.bytes_to_read
                        &&& new_index@[entries0[i].0@].offset
                            + new_index@[entries0[i].0@].bytes_to_read <= self.fs_helper.files()[
                            tmp_log_path()
                        ].len()
                        &&& self.fs_helper.files()[tmp_log_path()].subrange(
                            new_index@[entries0[i].0@].offset as int,
                            new_index@[entries0[i].0@].offset
                                + new_index@[entries0[i].0@].bytes_to_read,
                        ) == contents0.subrange(
                            entries0[i].1.offset as int,
                            entries0[i].1.offset + entries0[i].1.bytes_to_read,
                        )
                    },
            decreases n - j,
        {
            let index_value = self.index.loc_at(j);
            proof {
                lemma_map_of_index(entries0, j as int);
                assert(pre.index@[entries0[j as int].0@] == entries0[j as int].1);
                assert(index_value.offset + index_value.bytes_to_read <= contents0.len());
            }
            let value = self.fs_helper.read_from_log_file(
                index_value.offset,
                index_value.bytes_to_read,
            );
            let ghost tmp_before = self.fs_helper.files()[tmp_log_path()];
            let written_bytes = self.fs_helper.write_to_log_file(value.as_str(), "log_tmp");
            let key_string = self.index.key_at(j);
            new_index.insert(
                key_string.as_str(),
                IndexValue { offset: total_written_bytes, bytes_to_read: written_bytes },
            );
            proof {
                lemma_sum_lens_take_step(entries0, j as int);
                lemma_sum_lens_take_le(entries0, j as int + 1);
                let tmp_now = self.fs_helper.files()[tmp_log_path()];
                assert(tmp_now == tmp_before + value@);
                assert(self.fs_helper.files() =~= files_c.insert(tmp_log_path(), tmp_now));
                assert(total_written_bytes + written_bytes <= cap);
                assert(tmp_now.subrange(
                    total_written_bytes as int,
                    total_written_bytes + written_bytes,
                ) =~= value@);
                assert forall|i: int| #![trigger entries0[i]] 0 <= i < j implies {
                    &&& new_index@[entries0[i].0@].bytes_to_read == entries0[i].1.bytes_to_read
                    &&& new_index@[entries0[i].0@].offset
                        + new_index@[entries0[i].0@].bytes_to_read <= tmp_now.len()
                    &&& tmp_now.subrange(
                        new_index@[entries0[i].0@].offset as int,
                        new_index@[entries0[i].0@].offset
                            + new_index@[entries0[i].0@].bytes_to_read,
                    ) == contents0.subrange(
                        entries0[i].1.offset as int,
                        entries0[i].1.offset + entries0[i].1.bytes_to_read,
                    )
                } by {
                    assert(entries0[i].0@ != entries0[j as int].0@);
                    let nv = new_index@[entries0[i].0@];
                    assert(tmp_now.subrange(nv.offset as int, nv.offset + nv.bytes_to_read)
                        =~= tmp_before.subrange(nv.offset as int, nv.offset + nv.bytes_to_read));
                }
                assert forall|k: Seq<char>| #[trigger]
                    new_index@.contains_key(k) implies exists|i: int|
                    0 <= i < j + 1 && entries0[i].0@ == k by {
                    if k == entries0[j as int].0@ {
                        assert(0 <= j < j + 1 && entries0[j as int].0@ == k);
                    }
                }
            }
            total_written_bytes = total_written_bytes + written_bytes as u64;
            j = j + 1;
        }
        proof {
            assert(entries0.take(n as int) =~= entries0);
            assert forall|k: Seq<char>| #[trigger]
                new_index@.contains_key(k) <==> pre.index@.contains_key(k) by {
                lemma_map_of_contains(entries0, k);
                if new_index@.contains_key(k) {
                    let i = choose|i: int| 0 <= i < n && entries0[i].0@ == k;
                    lemma_map_of_index(entries0, i);
                }
                if pre.index@.contains_key(k) {
                    let i = choose|i: int| 0 <= i < entries0.len() && entries0[i].0@ == k;
                    assert(new_index@.contains_key(entries0[i].0@));
                }
            }
        }
        let ghost tmp_full = self.fs_helper.files()[tmp_log_path()];
        let ghost new_index_snapshot = new_index;
        let log_path_string = self.fs_helper.get_log_file_path();
        proof {
            reveal_strlit("log_tmp");
            reveal_strlit("log_old");
            assert(tmp_log_path()[4] == 't');
            assert(old_log_path()[4] == 'o');
            assert(tmp_log_path() != old_log_path());
        }
        self.fs_helper.rename_file(log_path_string.as_str(), "log_old");
        self.fs_helper.rename_file("log_tmp", log_path_string.as_str());
        self.index = new_index;
        self.fs_helper.delete_file("log_old");
        self.fs_helper.delete_file("log_tmp");
        proof {
            assert(self.index == new_index_snapshot);
            assert(self.log_contents() == tmp_full);
            assert(!self.fs_helper.files().contains_key(tmp_log_path()));
            assert forall|k: Seq<char>| #[trigger]
                self.index@.contains_key(k) implies self.index@[k].offset
                + self.index@[k].bytes_to_read <= tmp_full.len() && self@[k] == pre@[k] by {
                let i = choose|i: int| 0 <= i < n && entries0[i].0@ == k;
                lemma_map_of_index(entries0, i);
                assert(pre.index@[k] == entries0[i].1);
            }
            assert(self@ =~= pre@);
        }
    }
}

impl<F: FSHelper> View for SimpleDB<F> {
    type V = Map<Seq<char>, Seq<char>>;

    /// The observable mapping: each indexed key, bound to the units its
    /// recorded range addresses in the current log file.
    closed spec fn view(&self) -> Map<Seq<char>, Seq<char>> {
        Map::new(
            |k: Seq<char>| self.index@.contains_key(k),
            |k: Seq<char>|
                self.log_contents().subrange(
                    self.index@[k].offset as int,
                    self.index@[k].offset + self.index@[k].bytes_to_read,
                ),
        )
    }
}

impl<F: FSHelper> Database for SimpleDB<F> {
    open spec fn contents(&self) -> Map<Seq<char>, Seq<char>> {
        self.view()
    }

    open spec fn inv(&self) -> bool {
        self.wf()
    }

    fn get(&self, key: &str) -> (value: Option<String>) {
        match self.index.get(key) {
            None => None,
            Some(index_value) => {
                let value = self.fs_helper.read_from_log_file(
                    index_value.offset,
                    index_value.bytes_to_read,
                );
                Some(value)
            },
        }
    }

    fn set(&mut self, key: &str, value: &str) {
        self.set(key, value)
    }

    fn delete(&mut self, key: &str) {
        self.delete(key)
    }
}

impl<F: FSHelper> SimpleDB<F> {
    /// Binds the key to the value: appends the value to the end of the
    /// current log file and records its range in the index, superseding
    /// any earlier binding (whose bytes stay behind as garbage). When the
    /// new record's end strictly exceeds the threshold, compaction runs
    /// before the call returns, leaving the log file's length exactly the
    /// total length of the live values; at the threshold itself nothing
    /// is triggered and the log file is the old one with the value
    /// appended.
    pub fn set(&mut self, key: &str, value: &str)
        requires
            old(self).wf(),
        ensures
            final(self).wf(),
            final(self)@ == old(self)@.insert(key@, value@),
            final(self).max_bytes() == old(self).max_bytes(),
            final(self).live_len() + (if old(self)@.contains_key(key@) {
                old(self)@[key@].len() as int
            } else {
                0
            }) == old(self).live_len() + value@.len(),
            old(self).log_contents().len() + value@.len() <= old(self).max_bytes()
                ==> final(self).log_contents() == old(self).log_contents() + value@,
            old(self).log_contents().len() + value@.len() > old(self).max_bytes()
                ==> final(self).log_contents().len() == final(self).live_len(),
    {
        let ghost pre = *self;
        let offset = self.fs_helper.get_log_file_size();
        let log_path_string = self.fs_helper.get_log_file_path();
        let written_bytes = self.fs_helper.write_to_log_file(value, log_path_string.as_str());
        proof {
            if pre@.contains_key(key@) {
                assert(pre@[key@].len() == pre.index@[key@].bytes_to_read);
            }
        }
        self.index.insert(key, IndexValue { offset, bytes_to_read: written_bytes });
        proof {
            assert forall|k: Seq<char>| pre@.contains_key(k) && k != key@ implies self@[k]
                == pre@[k] by {
                assert(self@[k] =~= pre@[k]);
            }
            assert(self@[key@] =~= value@);
            assert(self@ =~= pre@.insert(key@, value@));
        }
        let threshold = self.fs_helper.get_max_bytes_per_file();
        if (offset as u128) + (written_bytes as u128) > (threshold as u128) {
            self.run_compaction();
        }
    }

    /// Unbinds the key; a no-op if the key is absent. No backend call is
    /// made: the log file is untouched, and the unbound value's bytes
    /// remain in it as garbage until the next compaction.
    pub fn delete(&mut self, key: &str)
        requires
            old(self).wf(),
        ensures
            final(self).wf(),
            final(self)@ == old(self)@.remove(key@),
            final(self).backend() == old(self).backend(),
            final(self).log_contents() == old(self).log_contents(),
            final(self).max_bytes() == old(self).max_bytes(),
            final(self).live_len() + (if old(self)@.contains_key(key@) {
                old(self)@[key@].len() as int
            } else {
                0
            }) == old(self).live_len(),
    {
        let ghost pre = *self;
        proof {
            if pre@.contains_key(key@) {
                assert(pre@[key@].len() == pre.index@[key@].bytes_to_read);
            }
        }
        self.index.remove(key);
        proof {
            assert forall|k: Seq<char>| pre@.contains_key(k) && k != key@ implies self@[k]
                == pre@[k] by {
                assert(self@[k] =~= pre@[k]);
            }
            assert(self@ =~= pre@.remove(key@));
        }
    }
}

/// In a well-formed engine the live total never exceeds the log file's
/// length, so a log rewritten to exactly the live total — what `set`
/// guarantees when it compacts — is never longer than it was.
pub proof fn lemma_live_len_bounded<F: FSHelper>(db: &SimpleDB<F>)
    requires
        db.wf(),
    ensures
        db.live_len() <= db.log_contents().len(),
{
}

/// A set of a key followed immediately by a lookup of the same key, with
/// no intervening delete or overwrite of it, yields exactly the value
/// that was set.
pub proof fn lemma_set_then_get(
    contents: Map<Seq<char>, Seq<char>>,
    key: Seq<char>,
    value: Seq<char>,
)
    ensures
        contents.insert(key, value).contains_key(key),
        contents.insert(key, value)[key] == value,
{
}

/// After a delete of a key, a lookup of it reports absence, regardless of
/// the prior set history.
pub proof fn lemma_delete_then_get(contents: Map<Seq<char>, Seq<char>>, key: Seq<char>)
    ensures
        !contents.remove(key).contains_key(key),
{
}

/// A deleted key stays absent under sets and deletes of other keys; only
/// a subsequent set of the key itself can bind it again.
pub proof fn lemma_deleted_key_stays_absent(
    contents: Map<Seq<char>, Seq<char>>,
    key: Seq<char>,
    other: Seq<char>,
    value: Seq<char>,
)
    requires
        other != key,
    ensures
        !contents.remove(key).insert(other, value).contains_key(key),
        !contents.remove(key).remove(other).contains_key(key),
{
}

/// Overwrite semantics: after two sets of the same key in a row, only the
/// second value remains to be looked up.
pub proof fn lemma_overwrite(
    contents: Map<Seq<char>, Seq<char>>,
    key: Seq<char>,
    first: Seq<char>,
    second: Seq<char>,
)
    ensures
        contents.insert(key, first).insert(key, second) == contents.insert(key, second),
        contents.insert(key, first).insert(key, second)[key] == second,
{
    assert(contents.insert(key, first).insert(key, second) =~= contents.insert(key, second));
}

/// Deleting a key twice in a row has the same observable effect as
/// deleting it once: the second delete leaves the contents unchanged.
pub proof fn lemma_delete_idempotent(contents: Map<Seq<char>, Seq<char>>, key: Seq<char>)
    ensures
        contents.remove(key).remove(key) == contents.remove(key),
{
    assert(contents.remove(key).remove(key) =~= contents.remove(key));
}

} // verus!
