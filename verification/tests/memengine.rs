use bytes::Bytes;
use kepler::storage::engine::{Batch, Cursor, Engine, Snapshot};
use kepler::storage::memengine::MemEngine;
use kepler::types::KeyRange;

fn b(s: &str) -> Bytes {
    Bytes::copy_from_slice(s.as_bytes())
}

#[test]
fn put_get_roundtrip() {
    let mut e = MemEngine::new();
    e.put(b("k"), b("v")).unwrap();
    assert_eq!(e.get(b"k").unwrap(), Some(b("v")));
}

#[test]
fn delete_removes_key() {
    let mut e = MemEngine::new();
    e.put(b("k"), b("v")).unwrap();
    e.delete(b"k").unwrap();
    assert_eq!(e.get(b"k").unwrap(), None);
}

#[test]
fn batch_writes_atomically_in_order() {
    let mut e = MemEngine::new();
    let mut batch = Batch::new();
    batch.put(b("a"), b("1")).put(b("b"), b("2")).delete(b("a"));
    e.write_batch(batch).unwrap();
    assert_eq!(e.get(b"a").unwrap(), None);
    assert_eq!(e.get(b"b").unwrap(), Some(b("2")));
}

#[test]
fn memengine_snapshot_is_isolated_from_later_writes() {
    let mut e = MemEngine::new();
    e.put(b("k"), b("v1")).unwrap();
    let snap = e.snapshot();
    e.put(b("k"), b("v2")).unwrap();
    assert_eq!(snap.get(b"k").unwrap(), Some(b("v1")));
    assert_eq!(e.get(b"k").unwrap(), Some(b("v2")));
}

#[test]
fn scan_returns_keys_in_range() {
    let mut e = MemEngine::new();
    for k in ["a", "b", "c", "d"] {
        e.put(b(k), b("x")).unwrap();
    }
    let mut cur = e.scan(KeyRange::new(b("b"), b("d")));
    let mut keys = Vec::new();
    while let Some((k, _)) = cur.next() {
        keys.push(k);
    }
    assert_eq!(keys, vec![b("b"), b("c")]);
}

#[test]
fn a_cursor_seeks_and_ends() {
    let mut e = MemEngine::new();
    for k in ["a", "c", "e"] {
        e.put(b(k), b(k)).unwrap();
    }
    let mut cur = e.scan(KeyRange::new(b("a"), b("z")));
    assert!(cur.valid());
    cur.seek(b"b");
    assert_eq!(cur.next(), Some((b("c"), b("c"))));
    cur.seek(b"f");
    assert!(!cur.valid());
    assert_eq!(cur.next(), None);
    cur.seek(b"a");
    assert_eq!(cur.next(), Some((b("a"), b("a"))));
}

#[test]
fn a_batch_counts_its_writes() {
    let mut batch = Batch::default();
    assert!(batch.is_empty());
    batch.put(b("a"), b("1"));
    batch.delete(b("b"));
    assert_eq!(batch.len(), 2);
    assert!(!batch.is_empty());
}

#[test]
fn flushing_memory_changes_nothing() {
    let mut e = MemEngine::new();
    e.put(b("k"), b("v")).unwrap();
    e.flush().unwrap();
    assert_eq!(e.get(b"k").unwrap(), Some(b("v")));
    assert_eq!(e.get(b"").unwrap(), None);
}

#[test]
fn the_last_of_several_writes_counts() {
    let mut e = MemEngine::new();
    let mut batch = Batch::new();
    batch.put(b("k"), b("1")).delete(b("k")).put(b("k"), b("3")).put(b("other"), b("x"));
    e.write_batch(batch).unwrap();
    assert_eq!(e.get(b"k").unwrap(), Some(b("3")));
    assert_eq!(e.get(b"other").unwrap(), Some(b("x")));
}

#[test]
fn a_scan_that_ends_before_it_starts_is_empty() {
    let mut engine = MemEngine::new();
    engine.put(b("b"), b("1")).unwrap();
    engine.put(b("c"), b("2")).unwrap();
    assert!(engine.scan(KeyRange::new(b("d"), b("b"))).next().is_none());
}
