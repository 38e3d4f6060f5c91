use simple_db::db::{Database, SimpleDB};
use simple_db::fs::{FSHelper, MemFSHelper};
use std::cell::RefCell;
use std::rc::Rc;

/// Record of every backend call a [`CountingFSHelper`] receives.
#[derive(Default)]
struct BackendCalls {
    creates: Vec<String>,
    writes: Vec<(String, String)>,
    reads: Vec<(u64, usize)>,
    renames: usize,
    deletes: usize,
}

/// A stub backend with canned answers that records the calls made to it:
/// path "log", size 0, threshold 100, writes report 5 units written,
/// reads answer "value".
struct CountingFSHelper {
    calls: Rc<RefCell<BackendCalls>>,
}

impl FSHelper for CountingFSHelper {
    fn get_log_file_path(&self) -> String {
        "log".to_string()
    }

    fn get_log_file_size(&self) -> u64 {
        0
    }

    fn get_max_bytes_per_file(&self) -> usize {
        100
    }

    fn create_file_if_not_exists(&mut self, path: &str) {
        self.calls.borrow_mut().creates.push(path.to_string());
    }

    fn write_to_log_file(&mut self, value: &str, path: &str) -> usize {
        self.calls
            .borrow_mut()
            .writes
            .push((value.to_string(), path.to_string()));
        5
    }

    fn read_from_log_file(&self, offset: u64, bytes_to_read: usize) -> String {
        self.calls.borrow_mut().reads.push((offset, bytes_to_read));
        "value".to_string()
    }

    fn delete_file(&mut self, _path: &str) {
        self.calls.borrow_mut().deletes += 1;
    }

    fn rename_file(&mut self, _old_path: &str, _new_path: &str) {
        self.calls.borrow_mut().renames += 1;
    }
}

#[test]
fn test_set_get_delete() {
    let fs_helper = MemFSHelper::new("log_test", 10 * 1024 * 1024);
    let mut db = SimpleDB::new(fs_helper);

    db.set("key", "value");
    assert_eq!(db.get("key"), Some("value".to_string()));
    assert_eq!(db.get("key2"), None);

    db.set("key", "value2");
    assert_eq!(db.get("key"), Some("value2".to_string()));

    db.delete("key");
    assert_eq!(db.get("key"), None);
}

#[test]
fn test_fs_interaction() {
    let calls = Rc::new(RefCell::new(BackendCalls::default()));
    let fs_helper = CountingFSHelper { calls: Rc::clone(&calls) };
    let mut db = SimpleDB::new(fs_helper);
    db.set("key", "value");
    db.get("key");
    db.delete("key");

    let calls = calls.borrow();
    assert_eq!(calls.creates, vec!["log".to_string()]);
    assert_eq!(calls.writes, vec![("value".to_string(), "log".to_string())]);
    assert_eq!(calls.reads, vec![(0, 5)]);
    assert_eq!(calls.renames, 0);
    assert_eq!(calls.deletes, 0);
}

#[test]
fn set_get_missing_delete_sequence() {
    let fs_helper = MemFSHelper::new("log", 1024);
    let mut db = SimpleDB::new(fs_helper);

    db.set("k", "value");
    assert_eq!(db.get("missing"), None);
    assert_eq!(db.get("k"), Some("value".to_string()));
    db.delete("k");
    assert_eq!(db.get("k"), None);
}

#[test]
fn overwrite_returns_latest_only() {
    let fs_helper = MemFSHelper::new("log", 1024);
    let mut db = SimpleDB::new(fs_helper);

    db.set("k", "v1");
    db.set("k", "v2");
    assert_eq!(db.get("k"), Some("v2".to_string()));
}

#[test]
fn delete_twice_is_idempotent() {
    let fs_helper = MemFSHelper::new("log", 1024);
    let mut db = SimpleDB::new(fs_helper);

    db.set("k", "value");
    db.set("other", "kept");
    db.delete("k");
    let size_after_first = db.log_size();
    db.delete("k");
    assert_eq!(db.log_size(), size_after_first);
    assert_eq!(db.get("k"), None);
    assert_eq!(db.get("other"), Some("kept".to_string()));
}

#[test]
fn deleted_key_stays_absent_until_set_again() {
    let fs_helper = MemFSHelper::new("log", 1024);
    let mut db = SimpleDB::new(fs_helper);

    db.set("k", "one");
    db.delete("k");
    db.set("other", "two");
    db.delete("unrelated");
    assert_eq!(db.get("k"), None);
    db.set("k", "three");
    assert_eq!(db.get("k"), Some("three".to_string()));
}

#[test]
fn compaction_scenario_at_threshold() {
    let fs_helper = MemFSHelper::new("log", 10);
    let mut db = SimpleDB::new(fs_helper);

    db.set("a", "hello");
    assert_eq!(db.log_size(), 5);
    db.set("b", "world");
    assert_eq!(db.log_size(), 10);
    db.set("c", "x");
    assert_eq!(db.log_size(), 11);
    assert_eq!(db.get("a"), Some("hello".to_string()));
    assert_eq!(db.get("b"), Some("world".to_string()));
    assert_eq!(db.get("c"), Some("x".to_string()));
}

#[test]
fn compaction_drops_overwritten_values() {
    let fs_helper = MemFSHelper::new("log", 10);
    let mut db = SimpleDB::new(fs_helper);

    db.set("a", "hello");
    db.set("a", "world!!");
    assert_eq!(db.log_size(), 7);
    assert_eq!(db.get("a"), Some("world!!".to_string()));
}

#[test]
fn compaction_drops_deleted_values() {
    let fs_helper = MemFSHelper::new("log", 10);
    let mut db = SimpleDB::new(fs_helper);

    db.set("a", "hello");
    db.set("b", "world");
    db.delete("a");
    assert_eq!(db.log_size(), 10);
    db.set("c", "xyzzy");
    assert_eq!(db.log_size(), 10);
    assert_eq!(db.get("a"), None);
    assert_eq!(db.get("b"), Some("world".to_string()));
    assert_eq!(db.get("c"), Some("xyzzy".to_string()));
}

#[test]
fn empty_value_round_trip() {
    let fs_helper = MemFSHelper::new("log", 1024);
    let mut db = SimpleDB::new(fs_helper);

    db.set("e", "");
    assert_eq!(db.get("e"), Some(String::new()));
    assert_eq!(db.log_size(), 0);
}

#[test]
fn many_keys_survive_repeated_compaction() {
    let fs_helper = MemFSHelper::new("log", 8);
    let mut db = SimpleDB::new(fs_helper);

    db.set("k1", "aaaa");
    db.set("k2", "bbbb");
    db.set("k3", "cccc");
    db.set("k1", "dddd");
    assert_eq!(db.get("k1"), Some("dddd".to_string()));
    assert_eq!(db.get("k2"), Some("bbbb".to_string()));
    assert_eq!(db.get("k3"), Some("cccc".to_string()));
    assert_eq!(db.log_size(), 12);
}
