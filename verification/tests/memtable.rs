use bytes::Bytes;
use kepler::storage::lsm::memtable::MemTable;

fn b(s: &str) -> Bytes {
    Bytes::copy_from_slice(s.as_bytes())
}

#[test]
fn insert_and_get() {
    let mut mt = MemTable::new();
    mt.insert(1, b("k"), Some(b("v")));
    assert_eq!(mt.get(b"k"), Some(Some(b("v"))));
    assert_eq!(mt.get(b"missing"), None);
}

#[test]
fn newer_seq_overwrites_older() {
    let mut mt = MemTable::new();
    mt.insert(1, b("k"), Some(b("v1")));
    mt.insert(5, b("k"), Some(b("v2")));
    assert_eq!(mt.get(b"k"), Some(Some(b("v2"))));
    assert_eq!(mt.max_seq(), Some(5));
}

#[test]
fn older_seq_is_ignored() {
    let mut mt = MemTable::new();
    mt.insert(5, b("k"), Some(b("v2")));
    mt.insert(1, b("k"), Some(b("v1")));
    assert_eq!(mt.get(b"k"), Some(Some(b("v2"))));
}

#[test]
fn tombstone_overrides_value() {
    let mut mt = MemTable::new();
    mt.insert(1, b("k"), Some(b("v")));
    mt.insert(2, b("k"), None);
    assert_eq!(mt.get(b"k"), Some(None));
}

#[test]
fn iter_is_sorted() {
    let mut mt = MemTable::new();
    for (i, k) in ["c", "a", "b"].iter().enumerate() {
        mt.insert(i as u64 + 1, b(k), Some(b("v")));
    }
    let keys: Vec<_> = mt.iter().into_iter().map(|(k, _)| k).collect();
    assert_eq!(keys, vec![b("a"), b("b"), b("c")]);
}

#[test]
fn range_returns_inclusive_start_exclusive_end() {
    let mut mt = MemTable::new();
    for (i, k) in ["a", "b", "c", "d"].iter().enumerate() {
        mt.insert(i as u64 + 1, b(k), Some(b("x")));
    }
    let r = mt.range(b"b", b"d");
    let keys: Vec<_> = r.into_iter().map(|(k, _)| k).collect();
    assert_eq!(keys, vec![b("b"), b("c")]);
}

#[test]
fn a_write_counts_its_bytes() {
    let mut mt = MemTable::new();
    assert!(mt.is_empty());
    assert_eq!(mt.size(), 0);
    assert_eq!(mt.max_seq(), None);
    mt.insert(1, b("key"), Some(b("value")));
    assert_eq!(mt.size(), 3 + 5 + 16);
    mt.insert(2, b("key"), Some(b("v")));
    assert_eq!(mt.size(), 3 + 1 + 16);
    mt.insert(3, b("other"), None);
    assert_eq!(mt.size(), 3 + 1 + 16 + 5 + 16);
    assert_eq!(mt.len(), 2);
    assert!(!mt.is_empty());
}

#[test]
fn order_of_arrival_does_not_matter() {
    let mut one = MemTable::default();
    let mut two = MemTable::default();
    one.insert(1, b("k"), Some(b("old")));
    one.insert(2, b("k"), Some(b("new")));
    two.insert(2, b("k"), Some(b("new")));
    two.insert(1, b("k"), Some(b("old")));
    assert_eq!(one.get(b"k"), two.get(b"k"));
    assert_eq!(one.size(), two.size());
    // taking it in again changes nothing
    two.insert(2, b("k"), Some(b("new")));
    assert_eq!(one.size(), two.size());
}

#[test]
fn a_copy_stays_as_it_was() {
    let mut mt = MemTable::new();
    mt.insert(1, b("k"), Some(b("v1")));
    let copy = mt.dup();
    mt.insert(2, b("k"), Some(b("v2")));
    assert_eq!(copy.get(b"k"), Some(Some(b("v1"))));
    assert_eq!(copy.max_seq(), Some(1));
    assert_eq!(copy.size(), 1 + 2 + 16);
}

#[test]
fn a_range_that_ends_before_it_starts_is_empty() {
    let mut mt = MemTable::new();
    mt.insert(1, b("b"), Some(b("1")));
    mt.insert(2, b("c"), Some(b("2")));
    assert_eq!(mt.range(b"d", b"b"), vec![]);
    assert_eq!(mt.range(b"c", b"c"), vec![]);
}

#[test]
fn writes_come_to_the_same_in_any_order() {
    let writes = [
        (1, b("a"), Some(b("1"))),
        (2, b("b"), Some(b("22"))),
        (3, b("a"), None),
        (4, b("c"), Some(b("3"))),
        (5, b("b"), Some(b("4"))),
    ];
    let mut ahead = MemTable::new();
    for (seq, key, value) in writes.iter() {
        ahead.insert(*seq, key.clone(), value.clone());
    }
    for turn in 0..writes.len() {
        let mut other = MemTable::new();
        for i in 0..writes.len() {
            let (seq, key, value) = &writes[(i * 3 + turn) % writes.len()];
            other.insert(*seq, key.clone(), value.clone());
            other.insert(*seq, key.clone(), value.clone());
        }
        assert_eq!(other.iter(), ahead.iter());
        assert_eq!(other.len(), 3);
        assert_eq!(other.size(), ahead.size());
        assert_eq!(other.max_seq(), Some(5));
        assert_eq!(other.get(b"a"), Some(None));
        assert_eq!(other.get(b"b"), Some(Some(b("4"))));
    }
}
