//! The storage backend: an abstract file-access capability providing
//! append-only writes, random-offset reads, size queries, and file
//! lifecycle operations (create, delete, rename).
//!
//! The backend's abstract state is a map from file path to file contents,
//! together with the path of the current log file and the compaction
//! threshold. The engine is verified against the contracts stated here;
//! [`MemFSHelper`] is an in-memory implementation proved to meet them.

use crate::index::{
    lemma_map_of_contains, lemma_map_of_index, lemma_map_of_push, lemma_map_of_remove,
    lemma_unique_keys_push, lemma_unique_keys_remove, map_of, unique_keys,
};
use vstd::prelude::*;
use vstd::string::{StrSliceExecFns, StringExecFns};

verus! {

/// File-access capability the engine requires. Each operation is assumed
/// to succeed or to raise a fatal fault, never a soft error.
///
/// The four specification functions describe the backend's abstract
/// state; every verified implementation overrides them, and the default
/// bodies only spare an implementation written outside `verus!` from
/// having to provide ghost state.
pub trait FSHelper: Sized {
    /// The files the backend holds, as path to contents.
    open spec fn files(&self) -> Map<Seq<char>, Seq<char>> {
        vstd::pervasive::arbitrary()
    }

    /// Path of the current log file.
    open spec fn log_path(&self) -> Seq<char> {
        vstd::pervasive::arbitrary()
    }

    /// Compaction threshold, fixed at construction.
    open spec fn max_bytes(&self) -> usize {
        vstd::pervasive::arbitrary()
    }

    /// Well-formedness of the backend's own state.
    open spec fn wf(&self) -> bool {
        vstd::pervasive::arbitrary()
    }

    fn get_log_file_path(&self) -> (path: String)
        ensures
            path@ == self.log_path(),
    ;

    fn get_log_file_size(&self) -> (size: u64)
        requires
            self.wf(),
            self.files().contains_key(self.log_path()),
        ensures
            size as nat == self.files()[self.log_path()].len(),
    ;

    fn get_max_bytes_per_file(&self) -> (max: usize)
        ensures
            max == self.max_bytes(),
    ;

    fn create_file_if_not_exists(&mut self, path: &str)
        requires
            old(self).wf(),
        ensures
            final(self).wf(),
            final(self).files() == (if old(self).files().contains_key(path@) {
                old(self).files()
            } else {
                old(self).files().insert(path@, Seq::<char>::empty())
            }),
            final(self).log_path() == old(self).log_path(),
            final(self).max_bytes() == old(self).max_bytes(),
    ;

    /// Appends the value to the named file and returns the exact count of
    /// units written; the engine treats that count as the record length.
    fn write_to_log_file(&mut self, value: &str, path: &str) -> (written: usize)
        requires
            old(self).wf(),
            old(self).files().contains_key(path@),
        ensures
            final(self).wf(),
            written as nat == value@.len(),
            final(self).files() == old(self).files().insert(
                path@,
                old(self).files()[path@] + value@,
            ),
            final(self).log_path() == old(self).log_path(),
            final(self).max_bytes() == old(self).max_bytes(),
    ;

    /// Reads exactly `bytes_to_read` units starting at `offset` from the
    /// current log file; a short read is a fault, so the range must lie
    /// within the file.
    fn read_from_log_file(&self, offset: u64, bytes_to_read: usize) -> (value: String)
        requires
            self.wf(),
            self.files().contains_key(self.log_path()),
            offset + bytes_to_read <= self.files()[self.log_path()].len(),
        ensures
            value@ == self.files()[self.log_path()].subrange(
                offset as int,
                offset + bytes_to_read,
            ),
    ;

    /// Deletes the named file; a no-op if it does not exist.
    fn delete_file(&mut self, path: &str)
        requires
            old(self).wf(),
        ensures
            final(self).wf(),
            final(self).files() == old(self).files().remove(path@),
            final(self).log_path() == old(self).log_path(),
            final(self).max_bytes() == old(self).max_bytes(),
    ;

    /// Renames a file, replacing any file already under the new name; a
    /// no-op if the old name does not exist.
    fn rename_file(&mut self, old_path: &str, new_path: &str)
        requires
            old(self).wf(),
        ensures
            final(self).wf(),
            final(self).files() == (if old(self).files().contains_key(old_path@) {
                old(self).files().remove(old_path@).insert(
                    new_path@,
                    old(self).files()[old_path@],
                )
            } else {
                old(self).files()
            }),
            final(self).log_path() == old(self).log_path(),
            final(self).max_bytes() == old(self).max_bytes(),
    ;
}

/// An in-memory storage backend: files live in a vector of name/contents
/// pairs with pairwise distinct names. It is proved to meet every
/// [`FSHelper`] contract, and serves wherever no on-disk log is wanted.
pub struct MemFSHelper {
    files_vec: Vec<(String, String)>,
    log_file_path: String,
    max_bytes_per_file: usize,
}

impl MemFSHelper {
    /// A backend with no files yet.
    ///
    /// The threshold must be strictly positive; a non-positive threshold
    /// is a configuration fault.
    pub fn new(log_file_path: &str, max_bytes_per_file: usize) -> (backend: MemFSHelper)
        requires
            max_bytes_per_file > 0,
        ensures
            backend.wf(),
            backend.files() == Map::<Seq<char>, Seq<char>>::empty(),
            backend.log_path() == log_file_path@,
            backend.max_bytes() == max_bytes_per_file,
    {
        let backend = MemFSHelper {
            files_vec: Vec::new(),
            log_file_path: log_file_path.to_owned(),
            max_bytes_per_file,
        };
        proof {
            assert(backend.files() =~= Map::<Seq<char>, Seq<char>>::empty());
        }
        backend
    }

    /// Position of the file carrying the given name, if any does.
    fn find(&self, path: &String) -> (position: Option<usize>)
        ensures
            match position {
                Some(i) => i < self.files_vec@.len() && self.files_vec@[i as int].0@ == path@,
                None => forall|i: int|
                    0 <= i < self.files_vec@.len() ==> self.files_vec@[i].0@ != path@,
            },
    {
        let mut i: usize = 0;
        while i < self.files_vec.len()
            invariant
                i <= self.files_vec@.len(),
                forall|j: int| 0 <= j < i ==> self.files_vec@[j].0@ != path@,
            decreases self.files_vec@.len() - i,
        {
            if self.files_vec[i].0 == *path {
                return Some(i);
            }
            i = i + 1;
        }
        None
    }
}

impl FSHelper for MemFSHelper {
    closed spec fn files(&self) -> Map<Seq<char>, Seq<char>> {
        map_of(self.files_vec@).map_values(|contents: String| contents@)
    }

    closed spec fn log_path(&self) -> Seq<char> {
        self.log_file_path@
    }

    closed spec fn max_bytes(&self) -> usize {
        self.max_bytes_per_file
    }

    closed spec fn wf(&self) -> bool {
        unique_keys(self.files_vec@)
    }

    fn get_log_file_path(&self) -> (path: String) {
        self.log_file_path.clone()
    }

    fn get_log_file_size(&self) -> (size: u64) {
        let p = self.log_file_path.clone();
        let found = self.find(&p);
        proof {
            lemma_map_of_contains(self.files_vec@, self.log_path());
        }
        match found {
            Some(i) => {
                proof {
                    lemma_map_of_index(self.files_vec@, i as int);
                }
                self.files_vec[i].1.as_str().unicode_len() as u64
            },
            None => {
                // the requires rules this branch out
                proof {
                    assert(false);
                }
                0
            },
        }
    }

    fn get_max_bytes_per_file(&self) -> (max: usize) {
        self.max_bytes_per_file
    }

    fn create_file_if_not_exists(&mut self, path: &str) {
        let p = path.to_owned();
        let found = self.find(&p);
        proof {
            lemma_map_of_contains(self.files_vec@, path@);
        }
        match found {
            Some(_) => {},
            None => {
                let empty = String::new();
                proof {
                    lemma_map_of_push(self.files_vec@, p, empty);
                    lemma_unique_keys_push(self.files_vec@, p, empty);
                }
                let ghost pre = self.files();
                self.files_vec.push((p, empty));
                proof {
                    assert(self.files() =~= pre.insert(path@, Seq::<char>::empty()));
                }
            },
        }
    }

    fn write_to_log_file(&mut self, value: &str, path: &str) -> (written: usize) {
        let p = path.to_owned();
        let found = self.find(&p);
        proof {
            lemma_map_of_contains(self.files_vec@, path@);
        }
        match found {
            Some(i) => {
                proof {
                    lemma_map_of_index(self.files_vec@, i as int);
                    lemma_map_of_remove(self.files_vec@, i as int);
                    lemma_unique_keys_remove(self.files_vec@, i as int);
                }
                let ghost pre_vec = self.files_vec@;
                let ghost pre = self.files();
                let (name, mut contents) = self.files_vec.remove(i);
                contents.append(value);
                proof {
                    assert forall|j: int|
                        0 <= j < self.files_vec@.len() implies self.files_vec@[j].0@
                        != name@ by {
                        let j0: int = if j < i { j } else { j + 1 };
                        assert(self.files_vec@[j] == pre_vec[j0]);
                    }
                    lemma_map_of_push(self.files_vec@, name, contents);
                    lemma_unique_keys_push(self.files_vec@, name, contents);
                }
                self.files_vec.push((name, contents));
                proof {
                    assert(self.files() =~= pre.insert(path@, pre[path@] + value@));
                }
                value.unicode_len()
            },
            None => {
                // the requires rules this branch out
                proof {
                    assert(false);
                }
                0
            },
        }
    }

    fn read_from_log_file(&self, offset: u64, bytes_to_read: usize) -> (value: String) {
        let p = self.log_file_path.clone();
        let found = self.find(&p);
        proof {
            lemma_map_of_contains(self.files_vec@, self.log_path());
        }
        match found {
            Some(i) => {
                proof {
                    lemma_map_of_index(self.files_vec@, i as int);
                }
                let contents = self.files_vec[i].1.as_str();
                // the length query bounds the contents' length by the
                // return type's range, which justifies the casts below
                let _total: usize = contents.unicode_len();
                let from = offset as usize;
                let sub = contents.substring_char(from, from + bytes_to_read);
                sub.to_owned()
            },
            None => {
                // the requires rules this branch out
                proof {
                    assert(false);
                }
                String::new()
            },
        }
    }

    fn delete_file(&mut self, path: &str) {
        let p = path.to_owned();
        let found = self.find(&p);
        proof {
            lemma_map_of_contains(self.files_vec@, path@);
        }
        let ghost pre = self.files();
        match found {
            Some(i) => {
                proof {
                    lemma_map_of_remove(self.files_vec@, i as int);
                    lemma_unique_keys_remove(self.files_vec@, i as int);
                }
                self.files_vec.remove(i);
                proof {
                    assert(self.files() =~= pre.remove(path@));
                }
            },
            None => {
                proof {
                    assert(self.files() =~= pre.remove(path@));
                }
            },
        }
    }

    fn rename_file(&mut self, old_path: &str, new_path: &str) {
        let po = old_path.to_owned();
        let found = self.find(&po);
        proof {
            lemma_map_of_contains(self.files_vec@, old_path@);
        }
        match found {
            Some(i) => {
                proof {
                    lemma_map_of_index(self.files_vec@, i as int);
                    lemma_map_of_remove(self.files_vec@, i as int);
                    lemma_unique_keys_remove(self.files_vec@, i as int);
                }
                let ghost pre = self.files();
                let (_, contents) = self.files_vec.remove(i);
                let pn = new_path.to_owned();
                let found_new = self.find(&pn);
                proof {
                    lemma_map_of_contains(self.files_vec@, new_path@);
                }
                let ghost mid = self.files();
                match found_new {
                    Some(j) => {
                        proof {
                            lemma_map_of_remove(self.files_vec@, j as int);
                            lemma_unique_keys_remove(self.files_vec@, j as int);
                        }
                        self.files_vec.remove(j);
                        proof {
                            assert(self.files() =~= mid.remove(new_path@));
                        }
                    },
                    None => {
                        proof {
                            assert(self.files() =~= mid.remove(new_path@));
                        }
                    },
                }
                proof {
                    lemma_map_of_contains(self.files_vec@, new_path@);
                    lemma_map_of_push(self.files_vec@, pn, contents);
                    lemma_unique_keys_push(self.files_vec@, pn, contents);
                }
                self.files_vec.push((pn, contents));
                proof {
                    assert(self.files() =~= pre.remove(old_path@).insert(
                        new_path@,
                        pre[old_path@],
                    ));
                }
            },
            None => {},
        }
    }
}

} // verus!
