use bytes::Bytes;
use kepler::raft::state_machine::StateMachine;
use kepler::raft::types::{Entry, EntryKind};
use kepler::server::state_machine::{encode_delete, encode_put, Command, KvStateMachine};
use kepler::storage::engine::Engine;
use kepler::storage::memengine::MemEngine;

fn make_sm() -> KvStateMachine<MemEngine> {
    KvStateMachine::new(MemEngine::new())
}

fn entry(index: u64, data: Bytes) -> Entry {
    Entry { index, term: 1, kind: EntryKind::Normal, data }
}

#[test]
fn command_put_roundtrip() {
    let encoded = encode_put(b"k", b"v");
    match Command::decode(&encoded).unwrap() {
        Command::Put { key, value } => {
            assert_eq!(key.as_ref(), b"k");
            assert_eq!(value.as_ref(), b"v");
        }
        other => panic!("expected Put, got {:?}", other),
    }
}

#[test]
fn command_delete_roundtrip() {
    let encoded = encode_delete(b"k");
    match Command::decode(&encoded).unwrap() {
        Command::Delete { key } => assert_eq!(key.as_ref(), b"k"),
        other => panic!("expected Delete, got {:?}", other),
    }
}

#[test]
fn apply_put_writes_to_engine() {
    let mut sm = make_sm();
    sm.apply(&entry(1, encode_put(b"k", b"v"))).unwrap();
    assert_eq!(sm.engine().get(b"k").unwrap().as_deref(), Some(&b"v"[..]));
    assert_eq!(sm.applied_index(), 1);
}

#[test]
fn apply_delete_removes_from_engine() {
    let mut sm = make_sm();
    sm.apply(&entry(1, encode_put(b"k", b"v"))).unwrap();
    sm.apply(&entry(2, encode_delete(b"k"))).unwrap();
    assert!(sm.engine().get(b"k").unwrap().is_none());
    assert_eq!(sm.applied_index(), 2);
}

#[test]
fn empty_data_is_a_noop_but_advances_applied() {
    let mut sm = make_sm();
    sm.apply(&entry(7, Bytes::new())).unwrap();
    assert_eq!(sm.applied_index(), 7);
}

#[test]
fn applied_index_is_monotonic() {
    let mut sm = make_sm();
    sm.apply(&entry(5, encode_put(b"a", b"x"))).unwrap();
    sm.apply(&entry(3, encode_put(b"b", b"y"))).unwrap(); // out-of-order
    assert_eq!(sm.applied_index(), 5);
}

#[test]
fn rejects_malformed_command() {
    let mut sm = make_sm();
    let bad = Bytes::from_static(&[42u8]); // unknown op + truncated
    assert!(sm.apply(&entry(1, bad)).is_err());
}

#[test]
fn each_bad_command_is_named() {
    let why = |data: &[u8]| Command::decode(data).unwrap_err().message();
    assert_eq!(why(&[]), "invalid argument: empty kv command");
    assert_eq!(why(&[0, 1, 0, 0]), "invalid argument: kv command: truncated keylen");
    assert_eq!(why(&[0, 2, 0, 0, 0, b'k']), "invalid argument: kv command: truncated key");
    assert_eq!(why(&[42, 0, 0, 0, 0]), "invalid argument: unknown kv op 42");
}

#[test]
fn commands_have_the_stated_bytes() {
    let put = Command::Put { key: Bytes::from_static(b"k"), value: Bytes::from_static(b"vw") };
    assert_eq!(put.encode().to_vec(), vec![0, 1, 0, 0, 0, b'k', b'v', b'w']);
    let delete = Command::Delete { key: Bytes::from_static(b"k") };
    assert_eq!(delete.encode().to_vec(), vec![1, 1, 0, 0, 0, b'k']);
}

#[test]
fn a_change_of_configuration_only_advances() {
    let mut sm = make_sm();
    let change = Entry {
        index: 4,
        term: 1,
        kind: EntryKind::ConfChange,
        data: Bytes::from_static(b"whatever"),
    };
    assert_eq!(sm.apply(&change).unwrap().len(), 0);
    assert_eq!(sm.applied_index(), 4);
}

#[test]
fn a_bad_command_does_not_advance() {
    let mut sm = make_sm();
    assert!(sm.apply(&entry(9, Bytes::from_static(&[0]))).is_err());
    assert_eq!(sm.applied_index(), 0);
}

#[test]
fn snapshots_of_the_machine_are_refused() {
    let mut sm = make_sm();
    assert_eq!(
        sm.snapshot().unwrap_err().message(),
        "storage: KvStateMachine snapshot not implemented"
    );
    assert_eq!(
        sm.restore(Bytes::new()).unwrap_err().message(),
        "storage: KvStateMachine restore not implemented"
    );
}
