use std::time::Duration;

use bytes::Bytes;
use kepler::raft::mem_storage::MemRaftStorage;
use kepler::raft::node::{Config, Node};
use kepler::raft::state::Role;
use kepler::raft::state_machine::{Recorder, StateMachine};
use kepler::raft::storage::RaftStorage;
use kepler::raft::types::{ConfState, Entry, EntryKind, HardState, Message, MessageBody, Snapshot};
use kepler::server::state_machine::{encode_put, KvStateMachine};
use kepler::storage::engine::Engine;
use kepler::storage::memengine::MemEngine;
use kepler::types::{Error, LogIndex, NodeId, Term};

fn entry(index: LogIndex, term: Term, data: &[u8]) -> Entry {
    Entry { index, term, kind: EntryKind::Normal, data: Bytes::copy_from_slice(data) }
}

#[test]
fn append_and_read_back() {
    let mut s = MemRaftStorage::new();
    s.append(&[entry(1, 1, b"a"), entry(2, 1, b"b")]).unwrap();
    let got = s.entries(1, 3).unwrap();
    assert_eq!(got.len(), 2);
    assert_eq!(got[0].data.as_ref(), b"a");
    assert_eq!(s.last_index().unwrap(), 2);
    assert_eq!(s.term(2).unwrap(), 1);
}

#[test]
fn append_truncates_conflicting_tail() {
    let mut s = MemRaftStorage::new();
    s.append(&[entry(1, 1, b"a"), entry(2, 1, b"b"), entry(3, 1, b"c")]).unwrap();
    s.append(&[entry(2, 2, b"B")]).unwrap();
    assert_eq!(s.last_index().unwrap(), 2);
    assert_eq!(s.term(2).unwrap(), 2);
    assert_eq!(s.entries(1, 3).unwrap()[1].data.as_ref(), b"B");
}

#[test]
fn append_rejects_gaps() {
    let mut s = MemRaftStorage::new();
    s.append(&[entry(1, 1, b"a")]).unwrap();
    let err = s.append(&[entry(3, 1, b"c")]);
    assert!(err.is_err());
}

#[test]
fn hard_state_roundtrip() {
    let mut s = MemRaftStorage::new();
    let hs = HardState { term: 5, vote: Some(2), commit: 3 };
    s.save_hard_state(&hs).unwrap();
    let (restored, _) = s.initial_state().unwrap();
    assert_eq!(restored.term, 5);
    assert_eq!(restored.vote, Some(2));
    assert_eq!(restored.commit, 3);
}

#[test]
fn storage_errors_are_named() {
    let mut s = MemRaftStorage::default();
    s.append(&[]).unwrap();
    assert_eq!(s.first_index().unwrap(), 1);
    assert_eq!(s.term(0).unwrap(), 0);
    assert_eq!(s.entries(0, 3).unwrap_err().message(), "raft: entries: low index 0 is invalid");
    assert_eq!(s.term(4).unwrap_err().message(), "raft: term: index 4 out of range");
    assert_eq!(
        s.append(&[entry(0, 1, b"")]).unwrap_err().message(),
        "raft: append: index 0 is invalid"
    );
    assert_eq!(
        s.append(&[entry(3, 1, b"")]).unwrap_err().message(),
        "raft: append: gap (current last 0, appending first 3)"
    );
    assert_eq!(
        s.snapshot().unwrap_err().message(),
        "raft: snapshots not implemented in MemRaftStorage"
    );
    let snap = Snapshot {
        index: 1,
        term: 1,
        conf_state: ConfState::default(),
        data: Bytes::new(),
    };
    assert!(s.apply_snapshot(snap).is_err());
    s.compact(3).unwrap();
    assert_eq!(s.entries(1, 0).unwrap().len(), 0);
    assert_eq!(s.entries(5, u64::MAX).unwrap().len(), 0);
}

#[test]
fn a_storage_knows_its_members() {
    let conf = ConfState { voters: vec![1, 2], learners: vec![3] };
    let s = MemRaftStorage::with_conf(conf);
    let (_, cs) = s.initial_state().unwrap();
    assert_eq!(cs.voters, vec![1, 2]);
    assert_eq!(cs.learners, vec![3]);
}

fn single_node_config(id: NodeId) -> Config {
    Config {
        id,
        peers: Vec::new(),
        heartbeat_interval: 1,
        election_timeout: 5,
        max_entries_per_msg: 64,
        leader_lease: Duration::from_secs(1),
    }
}

fn make_node(id: NodeId) -> Node<MemRaftStorage> {
    Node::new(single_node_config(id), MemRaftStorage::new()).unwrap()
}

fn tick_n(node: &mut Node<MemRaftStorage>, n: u32) {
    for _ in 0..n {
        node.tick();
    }
}

#[test]
fn fresh_node_starts_as_follower_at_term_0() {
    let node = make_node(1);
    assert_eq!(node.role(), Role::Follower);
    assert_eq!(node.term(), 0);
    assert_eq!(node.commit_index(), 0);
    assert!(node.leader_id().is_none());
}

#[test]
fn election_timeout_promotes_single_node_to_leader() {
    let mut node = make_node(1);
    tick_n(&mut node, 5);
    assert_eq!(node.role(), Role::Leader);
    assert_eq!(node.term(), 1);
    assert_eq!(node.leader_id(), Some(1));
}

#[test]
fn follower_propose_returns_not_leader() {
    let mut node = make_node(1);
    let err = node.propose(Bytes::from_static(b"x"));
    match err {
        Err(Error::NotLeader(_)) => {}
        other => panic!("expected NotLeader, got {:?}", other),
    }
}

#[test]
fn leader_propose_commits_immediately_on_single_node() {
    let mut node = make_node(1);
    tick_n(&mut node, 5);
    node.propose(Bytes::from_static(b"hello")).unwrap();
    assert_eq!(node.commit_index(), 1);
}

#[test]
fn ready_returns_committed_entries() {
    let mut node = make_node(1);
    tick_n(&mut node, 5);
    node.propose(Bytes::from_static(b"a")).unwrap();
    node.propose(Bytes::from_static(b"b")).unwrap();

    let ready = node.ready();
    assert_eq!(ready.committed.len(), 2);
    assert_eq!(ready.committed[0].data.as_ref(), b"a");
    assert_eq!(ready.committed[1].data.as_ref(), b"b");
    assert!(ready.hard_state.is_some());
}

#[test]
fn advance_marks_committed_entries_as_applied() {
    let mut node = make_node(1);
    tick_n(&mut node, 5);
    node.propose(Bytes::from_static(b"a")).unwrap();

    assert_eq!(node.last_applied(), 0);
    let ready = node.ready();
    node.advance(ready);
    assert_eq!(node.last_applied(), 1);

    let ready2 = node.ready();
    assert!(ready2.committed.is_empty());
}

#[test]
fn apply_to_drives_state_machine() {
    let mut node = make_node(1);
    tick_n(&mut node, 5);
    node.propose(Bytes::from_static(b"x")).unwrap();
    node.propose(Bytes::from_static(b"y")).unwrap();

    let mut sm = Recorder::new();
    let ready = node.ready();
    node.apply_to(&mut sm, &ready.committed).unwrap();

    let applied = sm.entries();
    assert_eq!(applied.len(), 2);
    assert_eq!(applied[0].data.as_ref(), b"x");
    assert_eq!(applied[0].index, 1);
    assert_eq!(applied[1].data.as_ref(), b"y");
    assert_eq!(applied[1].index, 2);
    assert_eq!(node.last_applied(), 2);
}

#[test]
fn term_and_commit_persist_across_recreate() {
    let storage = {
        let mut node = Node::new(single_node_config(1), MemRaftStorage::new()).unwrap();
        tick_n(&mut node, 5);
        node.propose(Bytes::from_static(b"data")).unwrap();
        assert!(node.is_leader());
        assert_eq!(node.term(), 1);
        assert_eq!(node.commit_index(), 1);
        node.into_storage()
    };

    let node = Node::new(single_node_config(1), storage).unwrap();
    assert_eq!(node.term(), 1);
    assert_eq!(node.commit_index(), 1);
    assert_eq!(node.role(), Role::Follower);
    let entries = node.storage_ref().entries(1, 2).unwrap();
    assert_eq!(entries.len(), 1);
    assert_eq!(entries[0].data.as_ref(), b"data");
}

#[test]
fn re_elects_after_restart_and_keeps_existing_log() {
    let storage = {
        let mut node = Node::new(single_node_config(1), MemRaftStorage::new()).unwrap();
        tick_n(&mut node, 5);
        node.propose(Bytes::from_static(b"old")).unwrap();
        node.into_storage()
    };

    let mut node = Node::new(single_node_config(1), storage).unwrap();
    assert_eq!(node.term(), 1);
    tick_n(&mut node, 5);
    assert!(node.is_leader());
    assert_eq!(node.term(), 2);
    assert_eq!(node.storage_ref().entries(1, 2).unwrap()[0].data.as_ref(), b"old");

    node.propose(Bytes::from_static(b"new")).unwrap();
    assert_eq!(node.storage_ref().last_index().unwrap(), 2);
    assert_eq!(node.commit_index(), 2);
}

#[test]
fn higher_term_message_forces_step_down() {
    let mut node = make_node(1);
    tick_n(&mut node, 5);
    assert!(node.is_leader());
    assert_eq!(node.term(), 1);

    node.step(Message {
        from: 2,
        to: 1,
        term: 99,
        body: MessageBody::AppendEntries {
            prev_log_index: 0,
            prev_log_term: 0,
            entries: Vec::new(),
            leader_commit: 0,
        },
    })
    .unwrap();

    assert_eq!(node.role(), Role::Follower);
    assert_eq!(node.term(), 99);
    assert_eq!(node.leader_id(), Some(2));
}

fn three_node_config() -> Config {
    let mut c = single_node_config(1);
    c.peers = vec![2, 3];
    c
}

fn message(from: NodeId, term: Term, body: MessageBody) -> Message {
    Message { from, to: 1, term, body }
}

fn leader_of_three() -> Node<MemRaftStorage> {
    let mut node = Node::new(three_node_config(), MemRaftStorage::new()).unwrap();
    tick_n(&mut node, 5);
    assert_eq!(node.role(), Role::Candidate);
    node.step(message(2, 1, MessageBody::VoteResponse { granted: true })).unwrap();
    assert!(node.is_leader());
    node.ready();
    node
}

#[test]
fn a_candidate_asks_every_peer() {
    let mut node = Node::new(three_node_config(), MemRaftStorage::new()).unwrap();
    tick_n(&mut node, 5);
    let ready = node.ready();
    let to: Vec<NodeId> = ready.messages.iter().map(|m| m.to).collect();
    assert_eq!(to, vec![2, 3]);
    assert!(ready.messages.iter().all(|m| m.term == 1
        && matches!(m.body, MessageBody::RequestVote { last_log_index: 0, last_log_term: 0 })));
    let hs = ready.hard_state.unwrap();
    assert_eq!((hs.term, hs.vote, hs.commit), (1, Some(1), 0));
}

#[test]
fn a_refused_vote_does_not_count() {
    let mut node = Node::new(three_node_config(), MemRaftStorage::new()).unwrap();
    tick_n(&mut node, 5);
    node.step(message(2, 1, MessageBody::VoteResponse { granted: false })).unwrap();
    assert_eq!(node.role(), Role::Candidate);
    node.step(message(3, 1, MessageBody::VoteResponse { granted: true })).unwrap();
    assert_eq!(node.role(), Role::Leader);
}

#[test]
fn a_leader_of_three_commits_only_with_another() {
    let mut node = leader_of_three();
    node.propose(Bytes::from_static(b"x")).unwrap();
    assert_eq!(node.commit_index(), 0);
    node.step(message(2, 1, MessageBody::AppendResponse { success: true, match_index: 1 })).unwrap();
    assert_eq!(node.commit_index(), 1);
    let ready = node.ready();
    assert_eq!(ready.committed.len(), 1);
}

#[test]
fn an_entry_of_an_older_term_is_not_counted() {
    let mut storage = MemRaftStorage::new();
    storage.append(&[entry(1, 1, b"old")]).unwrap();
    storage.save_hard_state(&HardState { term: 1, vote: None, commit: 0 }).unwrap();
    let mut node = Node::new(three_node_config(), storage).unwrap();
    tick_n(&mut node, 5);
    node.step(message(2, 2, MessageBody::VoteResponse { granted: true })).unwrap();
    assert!(node.is_leader());
    node.step(message(2, 2, MessageBody::AppendResponse { success: true, match_index: 1 })).unwrap();
    assert_eq!(node.commit_index(), 0);
    // an entry of its own term takes the older one along
    node.propose(Bytes::from_static(b"new")).unwrap();
    node.step(message(2, 2, MessageBody::AppendResponse { success: true, match_index: 2 })).unwrap();
    assert_eq!(node.commit_index(), 2);
}

#[test]
fn a_node_votes_once_in_a_term() {
    let mut node = Node::new(three_node_config(), MemRaftStorage::new()).unwrap();
    let ask = MessageBody::RequestVote { last_log_index: 0, last_log_term: 0 };
    node.step(message(2, 1, ask.clone())).unwrap();
    node.step(message(3, 1, ask.clone())).unwrap();
    node.step(message(2, 1, ask)).unwrap();
    let granted: Vec<(NodeId, bool)> = node
        .ready()
        .messages
        .iter()
        .map(|m| match m.body {
            MessageBody::VoteResponse { granted } => (m.to, granted),
            _ => panic!("not an answer to a request for a vote"),
        })
        .collect();
    assert_eq!(granted, vec![(2, true), (3, false), (2, true)]);
}

#[test]
fn a_candidate_with_an_older_log_gets_no_vote() {
    let mut storage = MemRaftStorage::new();
    storage.append(&[entry(1, 3, b"a"), entry(2, 3, b"b")]).unwrap();
    let mut node = Node::new(three_node_config(), storage).unwrap();
    let asks = [(9, 2, false), (1, 3, false), (2, 3, true), (1, 4, true)];
    for (i, (last_log_index, last_log_term, want)) in asks.into_iter().enumerate() {
        let term = i as u64 + 4;
        node.step(message(2, term, MessageBody::RequestVote { last_log_index, last_log_term }))
            .unwrap();
        let ready = node.ready();
        assert!(matches!(ready.messages[0].body,
            MessageBody::VoteResponse { granted } if granted == want));
    }
}

#[test]
fn a_message_of_an_older_term_is_dropped() {
    let mut node = leader_of_three();
    node.step(message(2, 0, MessageBody::RequestVote { last_log_index: 9, last_log_term: 9 }))
        .unwrap();
    assert!(node.is_leader());
    assert_eq!(node.ready().messages.len(), 0);
}

#[test]
fn a_follower_takes_entries_behind_a_known_one() {
    let mut node = Node::new(three_node_config(), MemRaftStorage::new()).unwrap();
    let send = |prev: u64, prev_term: u64, entries: Vec<Entry>, commit: u64| {
        message(
            2,
            1,
            MessageBody::AppendEntries {
                prev_log_index: prev,
                prev_log_term: prev_term,
                entries,
                leader_commit: commit,
            },
        )
    };
    node.step(send(0, 0, vec![entry(1, 1, b"a"), entry(2, 1, b"b")], 1)).unwrap();
    assert_eq!(node.leader_id(), Some(2));
    assert_eq!(node.commit_index(), 1);
    // behind an entry that is not there
    node.step(send(5, 1, vec![entry(6, 1, b"f")], 9)).unwrap();
    // behind an entry of another term
    node.step(send(2, 7, vec![entry(3, 1, b"c")], 9)).unwrap();
    // a heartbeat that knows more than the log has
    node.step(send(2, 1, Vec::new(), 9)).unwrap();
    assert_eq!(node.commit_index(), 2);
    let answers: Vec<(bool, u64)> = node
        .ready()
        .messages
        .iter()
        .map(|m| match m.body {
            MessageBody::AppendResponse { success, match_index } => (success, match_index),
            _ => panic!("not an answer to entries"),
        })
        .collect();
    assert_eq!(answers, vec![(true, 2), (false, 0), (false, 0), (true, 2)]);
    // entries that leave a gap are an error of the storage
    let err = node.step(send(2, 1, vec![entry(9, 1, b"x")], 2)).unwrap_err();
    assert_eq!(err.message(), "raft: append: gap (current last 2, appending first 9)");
}

#[test]
fn a_leader_steps_back_for_a_peer_that_lags() {
    let mut node = leader_of_three();
    for data in [b"a", b"b", b"c"] {
        node.propose(Bytes::copy_from_slice(data)).unwrap();
    }
    node.ready();
    node.step(message(2, 1, MessageBody::AppendResponse { success: true, match_index: 3 })).unwrap();
    node.step(message(2, 1, MessageBody::AppendResponse { success: false, match_index: 0 }))
        .unwrap();
    let ready = node.ready();
    assert!(matches!(&ready.messages[0].body,
        MessageBody::AppendEntries { prev_log_index: 2, prev_log_term: 1, entries, leader_commit: 3 }
        if entries.len() == 1 && entries[0].data.as_ref() == b"c"));
}

#[test]
fn a_message_has_no_more_entries_than_it_may() {
    let mut config = three_node_config();
    config.max_entries_per_msg = 2;
    let mut node = Node::new(config, MemRaftStorage::new()).unwrap();
    tick_n(&mut node, 5);
    node.step(message(2, 1, MessageBody::VoteResponse { granted: true })).unwrap();
    for _ in 0..5 {
        node.propose(Bytes::from_static(b"x")).unwrap();
    }
    node.ready();
    node.tick();
    let ready = node.ready();
    assert!(matches!(&ready.messages[0].body,
        MessageBody::AppendEntries { prev_log_index: 0, entries, .. } if entries.len() == 2));
}

#[test]
fn a_heartbeat_abandons_a_candidacy() {
    let mut node = Node::new(three_node_config(), MemRaftStorage::new()).unwrap();
    tick_n(&mut node, 5);
    node.step(message(
        3,
        1,
        MessageBody::AppendEntries {
            prev_log_index: 0,
            prev_log_term: 0,
            entries: Vec::new(),
            leader_commit: 0,
        },
    ))
    .unwrap();
    assert_eq!(node.role(), Role::Follower);
    assert_eq!(node.leader_id(), Some(3));
    assert_eq!(node.term(), 1);
}

#[test]
fn a_refused_entry_stops_the_application() {
    let mut node = make_node(1);
    let mut sm = KvStateMachine::new(MemEngine::new());
    let put = encode_put(b"k", b"v");
    let list = [entry(1, 1, &put), entry(2, 1, b"no command"), entry(3, 1, &put)];
    let refused = sm_error(b"no command");
    assert_eq!(node.apply_to(&mut sm, &list).unwrap_err().message(), refused);
    assert_eq!(sm.applied_index(), 1);
    assert_eq!(node.last_applied(), 1);
    assert_eq!((node.term(), node.commit_index()), (0, 0));
    assert_eq!(sm.engine().get(b"k").unwrap(), Some(Bytes::from_static(b"v")));
    node.apply_to(&mut sm, &list[2..]).unwrap();
    assert_eq!(node.last_applied(), 3);
    node.apply_to(&mut sm, &[]).unwrap();
    assert_eq!(node.last_applied(), 3);
}

/// What a fresh machine says to these bytes.
fn sm_error(data: &[u8]) -> String {
    let mut sm = KvStateMachine::new(MemEngine::new());
    sm.apply(&entry(1, 1, data)).unwrap_err().message()
}

fn vote_request(from: NodeId, term: Term) -> Message {
    Message {
        from,
        to: 1,
        term,
        body: MessageBody::RequestVote { last_log_index: 0, last_log_term: 0 },
    }
}

/// Whom the node has voted for in each message it wants to send.
fn votes_in(node: &mut Node<MemRaftStorage>) -> Vec<(NodeId, Term, bool)> {
    node.ready()
        .messages
        .iter()
        .filter_map(|m| match m.body {
            MessageBody::VoteResponse { granted } => Some((m.to, m.term, granted)),
            _ => None,
        })
        .collect()
}

#[test]
fn one_vote_a_term_through_restarts() {
    let config = || Config { peers: vec![2, 3], ..single_node_config(1) };
    let mut node = Node::new(config(), MemRaftStorage::new()).unwrap();
    node.step(vote_request(2, 5)).unwrap();
    assert_eq!(votes_in(&mut node), vec![(2, 5, true)]);
    let mut node = Node::new(config(), node.into_storage()).unwrap();
    node.step(vote_request(3, 5)).unwrap();
    node.step(vote_request(2, 5)).unwrap();
    assert_eq!(votes_in(&mut node), vec![(3, 5, false), (2, 5, true)]);
    let mut node = Node::new(config(), node.into_storage()).unwrap();
    node.step(vote_request(3, 6)).unwrap();
    assert_eq!(votes_in(&mut node), vec![(3, 6, true)]);
}

#[test]
fn a_candidate_votes_for_no_other_in_its_term_not_even_after_a_restart() {
    let config = || Config { peers: vec![2, 3], ..single_node_config(1) };
    let mut node = Node::new(config(), MemRaftStorage::new()).unwrap();
    tick_n(&mut node, 5);
    assert_eq!((node.role(), node.term()), (Role::Candidate, 1));
    let mut node = Node::new(config(), node.into_storage()).unwrap();
    assert_eq!(node.role(), Role::Follower);
    node.step(vote_request(2, 1)).unwrap();
    assert_eq!(votes_in(&mut node), vec![(2, 1, false)]);
}

#[test]
fn a_message_with_entries_has_a_stretch_of_the_log() {
    let config = Config { peers: vec![2], max_entries_per_msg: 2, ..single_node_config(1) };
    let mut node = Node::new(config, MemRaftStorage::new()).unwrap();
    tick_n(&mut node, 5);
    node.step(Message {
        from: 2,
        to: 1,
        term: 1,
        body: MessageBody::VoteResponse { granted: true },
    })
    .unwrap();
    assert!(node.is_leader());
    for data in [b"a", b"b", b"c"] {
        node.propose(Bytes::copy_from_slice(data)).unwrap();
    }
    let ready = node.ready();
    match &ready.messages.last().unwrap().body {
        MessageBody::AppendEntries { prev_log_index, prev_log_term, entries, leader_commit } => {
            assert_eq!((*prev_log_index, *prev_log_term, *leader_commit), (0, 0, 0));
            assert_eq!(entries.iter().map(|e| e.index).collect::<Vec<_>>(), vec![1, 2]);
        }
        other => panic!("expected entries, got {:?}", other),
    }
}

#[test]
fn committed_entries_are_handed_out_once() {
    let mut node = make_node(1);
    tick_n(&mut node, 5);
    let mut seen = Vec::new();
    for data in [b"a", b"b", b"c"] {
        node.propose(Bytes::copy_from_slice(data)).unwrap();
        let ready = node.ready();
        seen.extend(ready.committed.iter().map(|e| e.index));
        node.advance(ready);
        assert!(node.ready().committed.is_empty());
    }
    assert_eq!(seen, vec![1, 2, 3]);
}

#[test]
fn a_recorder_keeps_what_it_is_given() {
    let mut sm = Recorder::new();
    sm.apply(&entry(4, 1, b"a")).unwrap();
    sm.apply(&entry(2, 1, b"b")).unwrap();
    assert_eq!(sm.applied_index(), 4);
    assert_eq!(sm.entries().len(), 2);
    assert_eq!(sm.snapshot().unwrap().len(), 0);
    sm.restore(Bytes::new()).unwrap();
    assert_eq!(sm.entries()[1].data.as_ref(), b"b");
}

#[test]
fn the_default_configuration_stands_alone() {
    let c = Config::default();
    assert_eq!(c.id, 1);
    assert!(c.peers.is_empty());
    assert_eq!(c.heartbeat_interval, 1);
    assert_eq!(c.election_timeout, 10);
    assert_eq!(c.max_entries_per_msg, 64);
    assert_eq!(c.leader_lease, Duration::from_secs(1));
    let d = c.clone();
    assert_eq!(d.leader_lease, Duration::from_secs(1));
    let node = Node::new(d, MemRaftStorage::new()).unwrap();
    assert_eq!(node.id(), 1);
}

#[test]
fn snapshots_are_passed_over() {
    let mut node = make_node(1);
    node.step(message(2, 0, MessageBody::InstallSnapshotResponse)).unwrap();
    let snapshot = Snapshot {
        index: 5,
        term: 1,
        conf_state: ConfState::default(),
        data: Bytes::new(),
    };
    node.step(message(2, 3, MessageBody::InstallSnapshot { snapshot })).unwrap();
    assert_eq!(node.term(), 3);
    assert_eq!(node.commit_index(), 0);
    assert!(node.ready().snapshot.is_none());
}

fn append(
    from: NodeId,
    term: Term,
    prev: (LogIndex, Term),
    entries: Vec<Entry>,
    leader_commit: LogIndex,
) -> Message {
    message(
        from,
        term,
        MessageBody::AppendEntries {
            prev_log_index: prev.0,
            prev_log_term: prev.1,
            entries,
            leader_commit,
        },
    )
}

fn last_answer(node: &mut Node<MemRaftStorage>) -> (bool, LogIndex) {
    match node.ready().messages.last().unwrap().body {
        MessageBody::AppendResponse { success, match_index } => (success, match_index),
        _ => panic!("not an answer to entries"),
    }
}

fn follower_with(entries: Vec<Entry>) -> Node<MemRaftStorage> {
    let mut storage = MemRaftStorage::new();
    storage.append(&entries).unwrap();
    storage.save_hard_state(&HardState { term: 1, vote: None, commit: 0 }).unwrap();
    Node::new(three_node_config(), storage).unwrap()
}

#[test]
fn a_follower_answers_with_what_was_checked() {
    let old = vec![entry(1, 1, b"a"), entry(2, 1, b"b"), entry(3, 1, b"c")];
    let mut node = follower_with(old);
    // the leader of a later term knows nothing of the three entries
    node.step(append(2, 2, (0, 0), Vec::new(), 0)).unwrap();
    assert_eq!(last_answer(&mut node), (true, 0));
    node.step(append(2, 2, (2, 1), Vec::new(), 0)).unwrap();
    assert_eq!(last_answer(&mut node), (true, 2));
    node.step(append(2, 2, (0, 0), vec![entry(1, 2, b"x")], 0)).unwrap();
    assert_eq!(last_answer(&mut node), (true, 1));
    // what came behind the entry that is gone is gone too
    node.step(append(2, 2, (2, 1), Vec::new(), 0)).unwrap();
    assert_eq!(last_answer(&mut node), (false, 0));
}

#[test]
fn a_follower_keeps_what_comes_behind_entries_that_it_has() {
    let log = vec![entry(1, 1, b"a"), entry(2, 1, b"b"), entry(3, 1, b"c")];
    let mut node = follower_with(log);
    node.step(append(2, 1, (0, 0), vec![entry(1, 1, b"a"), entry(2, 1, b"b")], 0)).unwrap();
    assert_eq!(last_answer(&mut node), (true, 2));
    node.step(append(2, 1, (3, 1), Vec::new(), 3)).unwrap();
    assert_eq!(last_answer(&mut node), (true, 3));
    assert_eq!(node.commit_index(), 3);
    let committed = node.ready().committed;
    let data: Vec<&[u8]> = committed.iter().map(|e| e.data.as_ref()).collect();
    assert_eq!(data, vec![&b"a"[..], &b"b"[..], &b"c"[..]]);
}

#[test]
fn a_follower_takes_on_what_follows_the_entries_that_it_has() {
    let mut node = follower_with(vec![entry(1, 1, b"a"), entry(2, 1, b"b")]);
    let sent = vec![entry(1, 1, b"a"), entry(2, 2, b"B"), entry(3, 2, b"C")];
    node.step(append(2, 2, (0, 0), sent, 3)).unwrap();
    assert_eq!(last_answer(&mut node), (true, 3));
    let committed = node.ready().committed;
    let data: Vec<&[u8]> = committed.iter().map(|e| e.data.as_ref()).collect();
    assert_eq!(data, vec![&b"a"[..], &b"B"[..], &b"C"[..]]);
}

#[test]
fn a_follower_commits_no_further_than_was_checked() {
    let mut node = follower_with(vec![entry(1, 1, b"a"), entry(2, 1, b"b"), entry(3, 1, b"c")]);
    node.step(append(2, 2, (1, 1), Vec::new(), 3)).unwrap();
    assert_eq!(node.commit_index(), 1);
    node.step(append(2, 2, (1, 1), vec![entry(2, 1, b"b")], 3)).unwrap();
    assert_eq!(node.commit_index(), 2);
}

#[test]
fn a_leader_counts_only_what_was_checked() {
    // a peer with entries of its own says that it has none of the leader's
    let mut node = leader_of_three();
    node.step(message(2, 1, MessageBody::AppendResponse { success: true, match_index: 0 })).unwrap();
    node.propose(Bytes::from_static(b"x")).unwrap();
    assert_eq!(node.commit_index(), 0);
    assert!(node.ready().committed.is_empty());
}

#[test]
fn a_misplaced_entry_is_refused_by_the_storage() {
    let mut node = follower_with(vec![entry(1, 1, b"a")]);
    let e = node.step(append(2, 1, (1, 1), vec![entry(0, 1, b"z")], 0)).unwrap_err();
    assert_eq!(e.message(), "raft: append: index 0 is invalid");
    let e = node
        .step(append(2, 1, (0, 0), vec![entry(1, 1, b"a"), entry(7, 1, b"z")], 0))
        .unwrap_err();
    assert_eq!(e.message(), "raft: append: gap (current last 1, appending first 7)");
}
