use std::time::{SystemTime, UNIX_EPOCH};

use bytes::Bytes;
use kepler::client::Client;
use kepler::mvcc::clock::LOGICAL_SPAN;
use kepler::mvcc::store::MvccStore;
use kepler::mvcc::txn::{KeySet, Txn};
use kepler::order::{is_before, is_same};
use kepler::ordered::OrderedMap;
use kepler::proto::{DeleteResponse, NotLeaderHint, PutResponse};
use kepler::server::transport::{route, send_failed, unknown_peer, Delivery, Partitions};
use kepler::storage::engine::Engine;
use kepler::storage::memengine::MemEngine;
use kepler::text::{
    decimal_text, hexadecimal_text, join_text, numbered_text, padded_text, parse_numbered,
};
use kepler::types::{Error, KeyRange};

fn b(s: &str) -> Bytes {
    Bytes::copy_from_slice(s.as_bytes())
}

#[test]
fn numbers_are_written_as_text() {
    assert_eq!(decimal_text(0), "0");
    assert_eq!(decimal_text(u64::MAX), "18446744073709551615");
    assert_eq!(hexadecimal_text(0), "0");
    assert_eq!(hexadecimal_text(0xCAFE_F00D), "cafef00d");
    assert_eq!(padded_text(42, 5), "00042");
    assert_eq!(numbered_text("a-", 7, ".b"), "a-00000000000000000007.b");
}

#[test]
fn numbers_are_read_from_names() {
    assert_eq!(parse_numbered("a-", "a-18446744073709551615.b", ".b"), Some(u64::MAX));
    assert_eq!(parse_numbered("a-", "a-18446744073709551616.b", ".b"), None);
    assert_eq!(parse_numbered("a-", "a-+5.b", ".b"), Some(5));
    assert_eq!(parse_numbered("a-", "a--5.b", ".b"), None);
    assert_eq!(parse_numbered("a-", "a-5.c", ".b"), None);
    assert_eq!(parse_numbered("a-", "a", ".b"), None);
}

#[test]
fn paths_are_joined() {
    assert_eq!(join_text("dir", "file"), "dir/file");
    assert_eq!(join_text("dir/", "file"), "dir/file");
    assert_eq!(join_text("", "file"), "file");
}

#[test]
fn errors_have_their_text() {
    assert_eq!(Error::NotLeader(Some(3)).message(), "not leader (hint: Some(3))");
    assert_eq!(Error::NotLeader(None).message(), "not leader (hint: None)");
    assert_eq!(Error::NotFound.message(), "key not found");
    assert_eq!(Error::TxnConflict.message(), "transaction conflict");
    assert_eq!(Error::Storage("s".to_string()).message(), "storage: s");
    assert_eq!(Error::Raft("r".to_string()).message(), "raft: r");
    assert_eq!(Error::Network("n".to_string()).message(), "network: n");
    assert_eq!(Error::InvalidArgument("i".to_string()).message(), "invalid argument: i");
    assert_eq!(Error::Internal("x".to_string()).message(), "internal: x");
    let io = Error::from(std::io::Error::new(std::io::ErrorKind::Other, "boom"));
    assert_eq!(io.message(), "io: boom");
    assert!(matches!(Error::eof(), Error::Io(e) if e.kind() == std::io::ErrorKind::UnexpectedEof));
}

#[test]
fn a_range_has_its_start_and_not_its_end() {
    let r = KeyRange::new(b("b"), b("d"));
    assert!(r.contains(b"b"));
    assert!(r.contains(b"cz"));
    assert!(!r.contains(b"d"));
    assert!(!r.contains(b"a"));
    assert!(!KeyRange::new(b("d"), b("b")).contains(b"c"));
}

#[test]
fn keys_are_ordered_byte_by_byte() {
    assert!(is_before(b"a", b"b"));
    assert!(is_before(b"a", b"aa"));
    assert!(is_before(b"", b"a"));
    assert!(!is_before(b"b", b"a"));
    assert!(!is_before(b"a", b"a"));
    assert!(is_before(&[0x7F], &[0x80]));
    assert!(is_same(b"xy", b"xy"));
    assert!(!is_same(b"xy", b"x"));
}

#[test]
fn an_ordered_map_keeps_its_keys_in_order() {
    let mut m: OrderedMap<u32> = OrderedMap::new();
    m.insert(b("b"), 2);
    m.insert(b("a"), 1);
    m.insert(b("c"), 3);
    m.insert(b("b"), 20);
    m.insert_if_absent(b("a"), 10);
    m.insert_if_absent(b("d"), 4);
    m.remove(b"c");
    m.remove(b"nothing");
    assert_eq!(m.len(), 3);
    assert_eq!(m.get(b"b"), Some(&20));
    assert_eq!(m.get(b"c"), None);
    assert_eq!(m.lower_bound(b"b"), 1);
    assert_eq!(m.into_list(), vec![(b("a"), 1), (b("b"), 20), (b("d"), 4)]);
}

#[test]
fn a_cut_has_no_direction() {
    let mut p = Partitions::new();
    assert!(!p.is_partitioned(1, 2));
    p.cut(1, 2);
    assert!(p.is_partitioned(1, 2));
    assert!(p.is_partitioned(2, 1));
    assert!(p.is_cut(1, 2));
    assert!(!p.is_cut(2, 1));
    assert_eq!(route(&p, 2, 1, true), Delivery::Drop);
    assert_eq!(route(&p, 2, 1, false), Delivery::Drop);
    assert_eq!(route(&p, 2, 3, true), Delivery::Deliver);
    assert_eq!(route(&p, 2, 3, false), Delivery::UnknownPeer);
    p.heal();
    assert_eq!(route(&p, 2, 1, true), Delivery::Deliver);
}

#[test]
fn messages_that_cannot_be_sent_say_why() {
    assert_eq!(unknown_peer(7).message(), "network: unknown peer 7");
    assert_eq!(send_failed(7, "channel closed").message(), "network: send to 7: channel closed");
}

#[test]
fn a_transaction_is_applied_on_commit() {
    let mut store = MvccStore::new(MemEngine::new());
    store.write(b("old"), b("1"), 0).unwrap();
    let mut txn = store.begin_txn();
    assert_eq!(txn.id, 1);
    assert!(txn.read_ts > LOGICAL_SPAN);
    txn.writes.push((b("k"), Some(b("v"))));
    txn.writes.push((b("old"), None));
    assert_eq!(store.read_at(b"k", txn.read_ts).unwrap(), None);
    let read_ts = txn.read_ts;
    let commit_ts = store.commit(txn).unwrap();
    assert!(commit_ts > read_ts);
    assert_eq!(store.read_at(b"k", commit_ts).unwrap(), Some(b("v")));
    assert_eq!(store.read_at(b"old", commit_ts).unwrap(), None);
    assert_eq!(store.engine().get(b"k").unwrap(), Some(b("v")));
    assert_eq!(store.begin_txn().id, 2);
}

#[test]
fn a_store_starts_at_the_time_of_the_clock() {
    let before = SystemTime::now().duration_since(UNIX_EPOCH).unwrap().as_millis() as u64;
    let mut store = MvccStore::new(MemEngine::new());
    let after = SystemTime::now().duration_since(UNIX_EPOCH).unwrap().as_millis() as u64;
    let start = store.last_timestamp();
    assert_eq!(start % LOGICAL_SPAN, 0);
    assert!(before <= start / LOGICAL_SPAN && start / LOGICAL_SPAN <= after);
    let txn = store.begin_txn();
    assert!(txn.read_ts > start);
    assert_eq!(store.last_timestamp(), txn.read_ts);
    let committed = store.commit(txn).unwrap();
    assert_eq!(store.last_timestamp(), committed);
}

#[test]
fn an_aborted_transaction_leaves_nothing() {
    let mut store = MvccStore::new(MemEngine::new());
    let mut txn = store.begin_txn();
    txn.writes.push((b("k"), Some(b("v"))));
    store.abort(txn);
    assert_eq!(store.read_at(b"k", u64::MAX).unwrap(), None);
    assert!(matches!(MvccStore::<MemEngine>::conflict(), Error::TxnConflict));
}

#[test]
fn a_transaction_knows_what_it_read() {
    let mut txn = Txn::new(5, 9);
    assert_eq!((txn.id, txn.read_ts, txn.writes.len(), txn.reads.len()), (5, 9, 0, 0));
    txn.reads.insert(b("a"));
    txn.reads.insert(b("a"));
    assert!(txn.reads.contains(b"a"));
    assert!(!txn.reads.contains(b"b"));
    assert_eq!(txn.reads.len(), 1);
    assert_eq!(KeySet::new().len(), 0);
}

#[test]
fn a_client_has_asked_nobody_yet() {
    let c = Client::new(vec!["a:1".to_string(), "b:2".to_string()]);
    assert_eq!(c.endpoints(), &["a:1".to_string(), "b:2".to_string()][..]);
    assert_eq!(c.cached_leader(), None);
}

#[test]
fn answers_start_empty() {
    assert!(PutResponse::default().not_leader.is_none());
    assert!(DeleteResponse::default().not_leader.is_none());
    assert_eq!(NotLeaderHint::default().leader_id, 0);
}
