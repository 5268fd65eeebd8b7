//! A node.
//!
//! The driver loop: feed in ticks, messages and proposals, then take what is
//! [`Node::ready`], send the messages, apply the committed entries, and
//! acknowledge with [`Node::advance`]. Entries go to the storage inside
//! [`Node::propose`] and [`Node::step`], not by way of the driver.

use std::time::Duration;

use bytes::Bytes;
use vstd::prelude::*;
use vstd::slice::slice_subrange;

use crate::buffer::octets;
use crate::raft::laws::lemma_sent_apart;
use crate::raft::peers::PeerMap;
use crate::raft::state::{
    answered, append_body, asked, asked_for_vote, broadcast, committed_more, consistent, counted,
    done_with, drained, following, heard_leader, heard_vote, highest_commit, leading, misplaced,
    news_in, persisted, posted, proposed, proposed_entry, received, same_for_all, sent_to, standing,
    stepped, ticked, to_apply, applied_through, ConfigView, NodeView, Role,
};
use crate::raft::state_machine::StateMachine;
use crate::raft::storage::{attaches, has_entry, lacking, lemma_lacking_on, RaftStorage};
use crate::raft::types::{
    self, entry_views, message_views, BodyView, Entry, EntryKind, EntryView, HardState, Message,
    MessageBody, MessageView, Snapshot,
};
use crate::types::{Error, LogIndex, NodeId, Term};

verus! {

/// What `std::time::Duration::from_secs` makes of a number.
pub uninterp spec fn seconds(n: u64) -> Duration;

/// `std::time::Duration::from_secs`.
#[verifier::external_body]
fn duration_of_secs(n: u64) -> (d: Duration)
    ensures
        d == seconds(n),
{
    Duration::from_secs(n)
}

#[derive(Debug)]
pub struct Config {
    pub id: NodeId,
    /// The other nodes. Without any, the node is a cluster by itself.
    pub peers: Vec<NodeId>,
    /// Send a heartbeat after this many ticks.
    pub heartbeat_interval: u32,
    /// Stand for election after this many ticks without a heartbeat.
    pub election_timeout: u32,
    /// How many entries a message may have.
    pub max_entries_per_msg: usize,
    /// How long a leader may go without making sure of its lead.
    pub leader_lease: Duration,
}

impl Config {
    pub open spec fn view(&self) -> ConfigView {
        ConfigView {
            peers: self.peers@,
            heartbeat_interval: self.heartbeat_interval,
            election_timeout: self.election_timeout,
            max_entries_per_msg: self.max_entries_per_msg,
        }
    }
}

impl Clone for Config {
    fn clone(&self) -> (c: Self)
        ensures
            c.id == self.id,
            c@ == self@,
            c.leader_lease == self.leader_lease,
    {
        Config {
            id: self.id,
            peers: types::dup_ids(&self.peers),
            heartbeat_interval: self.heartbeat_interval,
            election_timeout: self.election_timeout,
            max_entries_per_msg: self.max_entries_per_msg,
            leader_lease: self.leader_lease,
        }
    }
}

impl Default for Config {
    fn default() -> (c: Self)
        ensures
            c.id == 1,
            c@ == (ConfigView {
                peers: seq![],
                heartbeat_interval: 1,
                election_timeout: 10,
                max_entries_per_msg: 64,
            }),
            c.leader_lease == seconds(1),
    {
        let c = Config {
            id: 1,
            peers: Vec::new(),
            heartbeat_interval: 1,
            election_timeout: 10,
            max_entries_per_msg: 64,
            leader_lease: duration_of_secs(1),
        };
        assert(c@ =~= (ConfigView {
            peers: seq![],
            heartbeat_interval: 1,
            election_timeout: 10,
            max_entries_per_msg: 64,
        }));
        c
    }
}

pub struct Node<S: RaftStorage> {
    id: NodeId,
    role: Role,
    // Saved in the storage whenever they change.
    current_term: Term,
    voted_for: Option<NodeId>,
    commit_index: LogIndex,
    last_applied: LogIndex,
    leader_id: Option<NodeId>,
    // For a leader: what each peer gets next, and what it is known to have.
    next_index: PeerMap<LogIndex>,
    match_index: PeerMap<LogIndex>,
    // For a candidate: the answers in this term.
    votes_received: PeerMap<bool>,
    // Ticks since something happened; what that is depends on the role.
    elapsed_ticks: u32,
    storage: S,
    pending_messages: Vec<Message>,
    pending_hard_state: Option<HardState>,
    config: Config,
}

/// What the driver has to do before it calls [`Node::advance`].
#[derive(Debug)]
pub struct Ready {
    pub messages: Vec<Message>,
    /// Always empty: the node gives entries to the storage itself.
    pub entries: Vec<Entry>,
    pub hard_state: Option<HardState>,
    pub committed: Vec<Entry>,
    /// Always `None`: there are no snapshots yet.
    pub snapshot: Option<Snapshot>,
}

impl Default for Ready {
    fn default() -> (r: Self)
        ensures
            r.messages@ == Seq::<Message>::empty(),
            r.entries@ == Seq::<Entry>::empty(),
            r.hard_state is None,
            r.committed@ == Seq::<Entry>::empty(),
            r.snapshot is None,
    {
        Ready {
            messages: Vec::new(),
            entries: Vec::new(),
            hard_state: None,
            committed: Vec::new(),
            snapshot: None,
        }
    }
}

impl<S: RaftStorage> Node<S> {
    /// What the node is.
    pub closed spec fn view(&self) -> NodeView {
        NodeView {
            id: self.id,
            role: self.role,
            term: self.current_term,
            vote: self.voted_for,
            commit: self.commit_index,
            applied: self.last_applied,
            leader: self.leader_id,
            next: self.next_index@,
            matched: self.match_index@,
            votes: self.votes_received@,
            elapsed: self.elapsed_ticks,
            log: self.storage.log(),
            saved: self.storage.hard(),
            outbox: message_views(self.pending_messages@),
            news: self.pending_hard_state,
            config: self.config@,
        }
    }

    /// Each map has a node once, and the count of ticks has not run over.
    pub closed spec fn wf(&self) -> bool {
        &&& self.next_index.wf()
        &&& self.match_index.wf()
        &&& self.votes_received.wf()
        &&& self.elapsed_ticks == 0 || self.elapsed_ticks < self@.patience()
        &&& self.config.peers.len() < usize::MAX
    }

    /// The storage does not fail.
    pub closed spec fn reliable(&self) -> bool {
        self.storage.reliable()
    }

    pub closed spec fn storage(&self) -> S {
        self.storage
    }

    /// Every entry has an index.
    pub proof fn lemma_log_fits(&self)
        ensures
            self@.log.len() <= u64::MAX,
    {
        self.storage.lemma_log_fits();
    }

    /// A node that takes up from what the storage saved, as a follower.
    pub fn new(config: Config, storage: S) -> (r: Result<Self, Error>)
        requires
            config.peers.len() < usize::MAX,
        ensures
            storage.reliable() ==> r is Ok,
            r matches Ok(n) ==> n.wf() && n.storage() == storage && n.reliable()
                == storage.reliable() && n@ == (NodeView {
                id: config.id,
                role: Role::Follower,
                term: storage.hard().term,
                vote: storage.hard().vote,
                commit: storage.hard().commit,
                applied: storage.hard().commit,
                leader: None,
                next: Map::empty(),
                matched: Map::empty(),
                votes: Map::empty(),
                elapsed: 0,
                log: storage.log(),
                saved: storage.hard(),
                outbox: seq![],
                news: None,
                config: config@,
            }),
    {
        let hs = match storage.initial_state() {
            Ok((hs, _)) => hs,
            Err(e) => {
                return Err(e);
            },
        };
        let n = Node {
            id: config.id,
            role: Role::Follower,
            current_term: hs.term,
            voted_for: hs.vote,
            commit_index: hs.commit,
            last_applied: hs.commit,
            leader_id: None,
            next_index: PeerMap::new(),
            match_index: PeerMap::new(),
            votes_received: PeerMap::new(),
            elapsed_ticks: 0,
            storage,
            pending_messages: Vec::new(),
            pending_hard_state: None,
            config,
        };
        assert(message_views(n.pending_messages@) =~= Seq::<MessageView>::empty());
        Ok(n)
    }

    /// Gives the storage back.
    pub fn into_storage(self) -> (s: S)
        ensures
            s == self.storage(),
            s.log() == self@.log,
            s.hard() == self@.saved,
    {
        self.storage
    }

    /// The storage.
    pub fn storage_ref(&self) -> (s: &S)
        ensures
            *s == self.storage(),
            s.log() == self@.log,
            s.hard() == self@.saved,
    {
        &self.storage
    }

    // ---- getters --------------------------------------------------------------------

    pub fn id(&self) -> (r: NodeId)
        ensures
            r == self@.id,
    {
        self.id
    }

    pub fn term(&self) -> (r: Term)
        ensures
            r == self@.term,
    {
        self.current_term
    }

    pub fn role(&self) -> (r: Role)
        ensures
            r == self@.role,
    {
        self.role
    }

    pub fn is_leader(&self) -> (r: bool)
        ensures
            r == (self@.role == Role::Leader),
    {
        self.role == Role::Leader
    }

    pub fn leader_id(&self) -> (r: Option<NodeId>)
        ensures
            r == self@.leader,
    {
        self.leader_id
    }

    pub fn commit_index(&self) -> (r: LogIndex)
        ensures
            r == self@.commit,
    {
        self.commit_index
    }

    pub fn last_applied(&self) -> (r: LogIndex)
        ensures
            r == self@.applied,
    {
        self.last_applied
    }

    // ---- steps ----------------------------------------------------------------------

    fn post(&mut self, to: NodeId, body: MessageBody)
        ensures
            final(self)@ == posted(old(self)@, to, body@),
            final(self).wf() == old(self).wf(),
            final(self).reliable() == old(self).reliable(),
    {
        let ghost prior = message_views(self.pending_messages@);
        let m = Message { from: self.id, to, term: self.current_term, body };
        self.pending_messages.push(m);
        assert(message_views(self.pending_messages@) =~= prior.push(m@));
    }

    /// Saves what has to survive a crash. An error of the storage is passed over
    /// here.
    fn persist_hard_state(&mut self)
        ensures
            final(self).wf() == old(self).wf(),
            old(self).reliable() ==> final(self).reliable() && final(self)@ == persisted(
                old(self)@,
            ),
            final(self)@ == (NodeView {
                saved: final(self)@.saved,
                news: Some(old(self)@.hard()),
                ..old(self)@
            }),
    {
        let hs = HardState {
            term: self.current_term,
            vote: self.voted_for,
            commit: self.commit_index,
        };
        let _ = self.storage.save_hard_state(&hs);
        self.pending_hard_state = Some(hs);
    }

    /// The index of the last entry.
    fn last_or_zero(&self) -> (n: u64)
        ensures
            self.reliable() ==> n == self@.log.len(),
    {
        match self.storage.last_index() {
            Ok(n) => n,
            Err(_) => 0,
        }
    }

    /// The term of an entry.
    fn term_or_zero(&self, index: LogIndex) -> (t: Term)
        ensures
            self.reliable() ==> t == self@.term_at(index as int),
    {
        if index == 0 {
            return 0;
        }
        match self.storage.term(index) {
            Ok(t) => t,
            Err(_) => 0,
        }
    }

    /// Sends `peer` the entries it needs next. If it has all of them, the
    /// message is a heartbeat.
    fn send_append_entries(&mut self, peer: NodeId)
        requires
            old(self).wf(),
        ensures
            final(self).wf(),
            final(self).reliable() == old(self).reliable(),
            old(self).reliable() ==> final(self)@ == posted(
                old(self)@,
                peer,
                append_body(old(self)@, peer),
            ),
            final(self)@ == (NodeView { outbox: final(self)@.outbox, ..old(self)@ }),
    {
        let next = match self.next_index.get(peer) {
            Some(n) => n,
            None => 1,
        };
        let prev_log_index = if next == 0 {
            0
        } else {
            next - 1
        };
        let prev_log_term = self.term_or_zero(prev_log_index);
        let last_idx = self.last_or_zero();
        let entries: Vec<Entry> = if next > last_idx {
            Vec::new()
        } else {
            let upto = next.saturating_add(self.config.max_entries_per_msg as u64);
            let end = last_idx.saturating_add(1);
            let high = if upto <= end {
                upto
            } else {
                end
            };
            match self.storage.entries(next, high) {
                Ok(v) => v,
                Err(_) => Vec::new(),
            }
        };
        let body = MessageBody::AppendEntries {
            prev_log_index,
            prev_log_term,
            entries,
            leader_commit: self.commit_index,
        };
        proof {
            if self.reliable() {
                match append_body(self@, peer) {
                    BodyView::AppendEntries { entries: want, .. } => {
                        assert(entry_views(entries@) =~= want);
                    },
                    _ => {},
                }
            }
        }
        self.post(peer, body);
    }

    /// Sends every peer what it needs.
    fn broadcast_heartbeat(&mut self)
        requires
            old(self).wf(),
        ensures
            final(self).wf(),
            final(self).reliable() == old(self).reliable(),
            old(self).reliable() ==> final(self)@ == broadcast(old(self)@),
            final(self)@ == (NodeView { outbox: final(self)@.outbox, ..old(self)@ }),
    {
        let ghost a = self@;
        let n = self.config.peers.len();
        for i in 0..n
            invariant
                n == a.config.peers.len(),
                a == old(self)@,
                self.wf(),
                self.reliable() == old(self).reliable(),
                self.reliable() ==> self@ == sent_to(a, i as int),
                self@ == (NodeView { outbox: self@.outbox, ..a }),
        {
            let peer = self.config.peers[i];
            self.send_append_entries(peer);
        }
    }

    /// Commits what may be committed. Only an entry of the leader's own term
    /// counts; the ones before it are committed with it.
    fn maybe_advance_commit(&mut self) -> (r: Result<(), Error>)
        requires
            old(self).wf(),
        ensures
            final(self).wf(),
            old(self).reliable() ==> r is Ok && final(self).reliable() && final(self)@
                == committed_more(old(self)@),
            final(self)@.commit >= old(self)@.commit,
            final(self)@ == (NodeView {
                commit: final(self)@.commit,
                saved: final(self)@.saved,
                news: final(self)@.news,
                ..old(self)@
            }),
    {
        if self.role != Role::Leader {
            return Ok(());
        }
        let ghost a = self@;
        let old_commit = self.commit_index;
        let last_idx = match self.storage.last_index() {
            Ok(n) => n,
            Err(e) => {
                return Err(e);
            },
        };
        let cluster_size = self.config.peers.len() + 1;
        let majority = cluster_size / 2 + 1;
        let mut n = old_commit;
        while n < last_idx
            invariant
                a == old(self)@,
                self.wf(),
                self.reliable() == old(self).reliable(),
                old_commit == a.commit,
                majority == a.config.majority(),
                self.reliable() ==> last_idx == a.log.len(),
                n >= old_commit,
                n <= last_idx || n == old_commit,
                self@ == (NodeView { commit: self@.commit, ..a }),
                self@.commit >= old_commit,
                self.reliable() ==> self@.commit == highest_commit(a, n as int),
            decreases last_idx - n,
        {
            n += 1;
            match self.storage.term(n) {
                Ok(t) => {
                    if t == self.current_term {
                        let others = self.match_index.count_up_to(self.id, n);
                        if others >= majority - 1 {
                            self.commit_index = n;
                        }
                    }
                },
                Err(_) => {},
            }
        }
        proof {
            if self.reliable() && n == old_commit {
                lemma_nothing_to_commit(a, a.log.len() as int);
            }
        }
        if self.commit_index > old_commit {
            self.persist_hard_state();
        }
        Ok(())
    }

    fn become_follower(&mut self, term: Term, leader: Option<NodeId>)
        requires
            old(self).wf(),
        ensures
            final(self).wf(),
            old(self).reliable() ==> final(self).reliable() && final(self)@ == following(
                old(self)@,
                term,
                leader,
            ),
            final(self)@ == (NodeView {
                saved: final(self)@.saved,
                ..following(old(self)@, term, leader)
            }),
    {
        let term_changed = term > self.current_term;
        self.role = Role::Follower;
        if term_changed {
            self.current_term = term;
            self.voted_for = None;
        }
        self.leader_id = leader;
        self.elapsed_ticks = 0;
        self.persist_hard_state();
    }

    fn become_leader(&mut self)
        requires
            old(self).wf(),
        ensures
            final(self).wf(),
            old(self).reliable() ==> final(self).reliable() && final(self)@ == leading(old(self)@),
            final(self)@.role == Role::Leader,
            final(self)@.id == old(self)@.id,
            final(self)@.term == old(self)@.term,
            final(self)@.vote == old(self)@.vote,
            final(self)@.log == old(self)@.log,
            final(self)@.config == old(self)@.config,
            final(self)@.commit >= old(self)@.commit,
    {
        let ghost a = self@;
        self.role = Role::Leader;
        self.leader_id = Some(self.id);
        self.elapsed_ticks = 0;
        let last_idx = self.last_or_zero();
        let next = last_idx.saturating_add(1);
        self.next_index.clear();
        self.match_index.clear();
        let ghost peers = self.config.peers@;
        let n = self.config.peers.len();
        proof {
            assert(self.next_index@ =~= same_for_all(peers.take(0), next));
            assert(self.match_index@ =~= same_for_all(peers.take(0), 0));
        }
        for i in 0..n
            invariant
                n == peers.len(),
                peers == self.config.peers@,
                self.wf(),
                self.reliable() == old(self).reliable(),
                self@ == (NodeView {
                    role: Role::Leader,
                    leader: Some(a.id),
                    elapsed: 0,
                    next: same_for_all(peers.take(i as int), next),
                    matched: same_for_all(peers.take(i as int), 0),
                    ..a
                }),
        {
            let peer = self.config.peers[i];
            self.next_index.insert(peer, next);
            self.match_index.insert(peer, 0);
            proof {
                lemma_one_more_peer(peers, i as int, next);
                lemma_one_more_peer(peers, i as int, 0);
            }
        }
        assert(peers.take(n as int) =~= peers);
        self.broadcast_heartbeat();
        let _ = self.maybe_advance_commit();
    }

    /// A candidate with enough votes leads.
    fn maybe_become_leader(&mut self)
        requires
            old(self).wf(),
        ensures
            final(self).wf(),
            old(self).reliable() ==> final(self).reliable() && final(self)@ == counted(old(self)@),
            final(self)@.id == old(self)@.id,
            final(self)@.term == old(self)@.term,
            final(self)@.vote == old(self)@.vote,
            final(self)@.log == old(self)@.log,
            final(self)@.config == old(self)@.config,
            final(self)@.commit >= old(self)@.commit,
    {
        if self.role != Role::Candidate {
            return ;
        }
        let granted = self.votes_received.count_given();
        let cluster_size = self.config.peers.len() + 1;
        let majority = cluster_size / 2 + 1;
        if granted >= majority {
            self.become_leader();
        }
    }

    /// Asks every peer for its vote in a new term.
    fn start_election(&mut self)
        requires
            old(self).wf(),
            old(self)@.term < u64::MAX,
        ensures
            final(self).wf(),
            old(self).reliable() ==> final(self).reliable() && final(self)@ == standing(old(self)@),
            final(self)@.id == old(self)@.id,
            final(self)@.term == old(self)@.term + 1,
            final(self)@.vote == Some(old(self)@.id),
            final(self)@.log == old(self)@.log,
            final(self)@.config == old(self)@.config,
            final(self)@.commit >= old(self)@.commit,
    {
        let ghost a = self@;
        self.role = Role::Candidate;
        self.current_term = self.current_term + 1;
        self.voted_for = Some(self.id);
        self.votes_received.clear();
        self.votes_received.insert(self.id, true);
        self.elapsed_ticks = 0;
        self.leader_id = None;
        self.persist_hard_state();
        let ghost fresh = self@;
        let last_log_index = self.last_or_zero();
        let last_log_term = self.term_or_zero(last_log_index);
        let n = self.config.peers.len();
        for i in 0..n
            invariant
                n == self.config.peers.len(),
                fresh.config == self.config@,
                self.wf(),
                old(self).reliable() ==> self.reliable() && self@ == asked(fresh, i as int)
                    && last_log_index == fresh.log.len() && last_log_term == fresh.term_at(
                    fresh.log.len() as int,
                ),
                self@ == (NodeView { outbox: self@.outbox, ..fresh }),
        {
            let peer = self.config.peers[i];
            self.post(peer, MessageBody::RequestVote { last_log_index, last_log_term });
        }
        self.maybe_become_leader();
    }

    /// One tick of the clock. A leader sends heartbeats from time to time; any
    /// other node stands for election when it has not heard from a leader for
    /// long enough.
    pub fn tick(&mut self)
        requires
            old(self).wf(),
            old(self)@.term < u64::MAX,
        ensures
            final(self).wf(),
            old(self).reliable() ==> final(self).reliable() && final(self)@ == ticked(old(self)@),
            final(self)@.id == old(self)@.id,
            final(self)@.term >= old(self)@.term,
            final(self)@.log == old(self)@.log,
            final(self)@.config == old(self)@.config,
            final(self)@.commit >= old(self)@.commit,
    {
        let ticks = self.elapsed_ticks + 1;
        match self.role {
            Role::Leader => {
                if ticks >= self.config.heartbeat_interval {
                    self.elapsed_ticks = 0;
                    self.broadcast_heartbeat();
                    proof {
                        let t = NodeView { elapsed: ticks, ..old(self)@ };
                        let z = NodeView { elapsed: 0, ..old(self)@ };
                        lemma_sent_apart(t, z, old(self)@.config.peers.len() as int);
                    }
                } else {
                    self.elapsed_ticks = ticks;
                }
            },
            _ => {
                if ticks >= self.config.election_timeout {
                    self.elapsed_ticks = 0;
                    self.start_election();
                } else {
                    self.elapsed_ticks = ticks;
                }
            },
        }
    }

    /// Takes a command from a client. Only a leader can.
    pub fn propose(&mut self, data: Bytes) -> (r: Result<(), Error>)
        requires
            old(self).wf(),
            old(self)@.log.len() < u64::MAX,
        ensures
            final(self).wf(),
            old(self)@.role != Role::Leader ==> r == Err::<(), Error>(
                Error::NotLeader(old(self)@.leader),
            ) && *final(self) == *old(self),
            old(self)@.role == Role::Leader && old(self).reliable() ==> r is Ok
                && final(self).reliable() && final(self)@ == proposed(old(self)@, octets(data)),
            final(self)@.id == old(self)@.id,
            final(self)@.term == old(self)@.term,
            final(self)@.config == old(self)@.config,
            final(self)@.commit >= old(self)@.commit,
    {
        if self.role != Role::Leader {
            return Err(Error::NotLeader(self.leader_id));
        }
        let ghost a = self@;
        let last_idx = match self.storage.last_index() {
            Ok(n) => n,
            Err(e) => {
                return Err(e);
            },
        };
        let entry = Entry {
            index: last_idx + 1,
            term: self.current_term,
            kind: EntryKind::Normal,
            data,
        };
        let mut one: Vec<Entry> = Vec::new();
        one.push(entry);
        proof {
            let es = entry_views(one@);
            assert(es =~= seq![proposed_entry(a, octets(data))]);
            assert(a.log.take(es[0].index - 1) =~= a.log);
            assert(a.log + es =~= a.log.push(proposed_entry(a, octets(data))));
        }
        match self.storage.append(one.as_slice()) {
            Ok(_) => {},
            Err(e) => {
                return Err(e);
            },
        }
        self.broadcast_heartbeat();
        self.maybe_advance_commit()
    }

    /// Takes a message from a peer. A higher term makes the node a follower in
    /// it; a message of an older term is dropped.
    pub fn step(&mut self, msg: Message) -> (r: Result<(), Error>)
        requires
            old(self).wf(),
        ensures
            final(self).wf(),
            old(self).reliable() ==> final(self).reliable() && final(self)@ == stepped(
                old(self)@,
                msg@,
            ) && (r is Err <==> msg.term >= old(self)@.term && misplaced(old(self)@, msg@)) && (
            r matches Err(e) ==> S::refuses(old(self)@.log, news_in(old(self)@.log, msg@), e)),
            msg.term < old(self)@.term ==> r is Ok && *final(self) == *old(self),
            final(self)@.id == old(self)@.id,
            final(self)@.config == old(self)@.config,
            final(self)@.term == (if msg.term > old(self)@.term {
                msg.term
            } else {
                old(self)@.term
            }),
            final(self)@.commit >= old(self)@.commit,
            msg.term > old(self)@.term ==> final(self)@.role == Role::Follower,
    {
        let ghost v = msg@;
        if msg.term > self.current_term {
            let leader = match &msg.body {
                MessageBody::AppendEntries { .. } => Some(msg.from),
                _ => None,
            };
            self.become_follower(msg.term, leader);
        } else if msg.term < self.current_term {
            return Ok(());
        }
        let from = msg.from;
        match msg.body {
            MessageBody::AppendEntries { prev_log_index, prev_log_term, entries, leader_commit } => {
                self.handle_append_entries(
                    from,
                    prev_log_index,
                    prev_log_term,
                    entries,
                    leader_commit,
                )
            },
            MessageBody::AppendResponse { success, match_index } => {
                if self.role == Role::Leader {
                    self.handle_append_response(from, success, match_index)
                } else {
                    Ok(())
                }
            },
            MessageBody::RequestVote { last_log_index, last_log_term } => {
                self.handle_request_vote(from, last_log_index, last_log_term)
            },
            MessageBody::VoteResponse { granted } => {
                if self.role == Role::Candidate {
                    self.handle_vote_response(from, granted);
                }
                Ok(())
            },
            MessageBody::InstallSnapshot { .. } => Ok(()),
            MessageBody::InstallSnapshotResponse => Ok(()),
        }
    }

    fn handle_append_entries(
        &mut self,
        leader: NodeId,
        prev_log_index: LogIndex,
        prev_log_term: Term,
        entries: Vec<Entry>,
        leader_commit: LogIndex,
    ) -> (r: Result<(), Error>)
        requires
            old(self).wf(),
        ensures
            final(self).wf(),
            old(self).reliable() ==> final(self).reliable() && final(self)@ == received(
                old(self)@,
                leader,
                prev_log_index,
                prev_log_term,
                entry_views(entries@),
                leader_commit,
            ) && (r is Err <==> consistent(old(self)@, prev_log_index, prev_log_term) && !attaches(
                old(self)@.log,
                lacking(old(self)@.log, entry_views(entries@)),
            )) && (r matches Err(e) ==> S::refuses(
                old(self)@.log,
                lacking(old(self)@.log, entry_views(entries@)),
                e,
            )),
            final(self)@.id == old(self)@.id,
            final(self)@.config == old(self)@.config,
            final(self)@.term == old(self)@.term,
            old(self)@.role == Role::Follower ==> final(self)@.role == Role::Follower,
            final(self)@.commit >= old(self)@.commit,
    {
        self.elapsed_ticks = 0;
        self.leader_id = Some(leader);
        if self.role == Role::Candidate {
            self.become_follower(self.current_term, Some(leader));
        }
        let ghost h = self@;
        assert(old(self).reliable() ==> h == heard_leader(old(self)@, leader));
        let last_idx = match self.storage.last_index() {
            Ok(n) => n,
            Err(e) => {
                return Err(e);
            },
        };
        let matches_log = if prev_log_index == 0 {
            true
        } else if prev_log_index > last_idx {
            false
        } else {
            match self.storage.term(prev_log_index) {
                Ok(t) => t == prev_log_term,
                Err(e) => {
                    return Err(e);
                },
            }
        };
        if !matches_log {
            self.post(leader, MessageBody::AppendResponse { success: false, match_index: 0 });
            return Ok(());
        }
        let ghost es = entry_views(entries@);
        let mut known: usize = 0;
        while known < entries.len() && 1 <= entries[known].index && entries[known].index <= last_idx
            invariant
                self@ == h,
                self.wf(),
                old(self).reliable() ==> self.reliable(),
                last_idx == h.log.len(),
                es == entry_views(entries@),
                known <= entries.len(),
                forall|j: int| 0 <= j < known ==> has_entry(h.log, #[trigger] es[j]),
                h.id == old(self)@.id,
                h.config == old(self)@.config,
                h.term == old(self)@.term,
                old(self)@.role == Role::Follower ==> h.role == Role::Follower,
                h.commit >= old(self)@.commit,
            ensures
                known < entries.len() ==> !has_entry(h.log, es[known as int]),
            decreases entries.len() - known,
        {
            assert(es[known as int] == entries@[known as int]@);
            let term = match self.storage.term(entries[known].index) {
                Ok(t) => t,
                Err(e) => {
                    return Err(e);
                },
            };
            if term != entries[known].term {
                break;
            }
            known = known + 1;
        }
        let lacks = slice_subrange(entries.as_slice(), known, entries.len());
        proof {
            lemma_lacking_on(h.log, es, known as int);
            assert(entry_views(lacks@) =~= es.skip(known as int));
        }
        if lacks.len() > 0 {
            match self.storage.append(lacks) {
                Ok(_) => {},
                Err(e) => {
                    return Err(e);
                },
            }
        }
        let new_last_idx = match self.storage.last_index() {
            Ok(n) => n,
            Err(e) => {
                return Err(e);
            },
        };
        let checked = prev_log_index.saturating_add(entries.len() as u64);
        let upto = if checked <= new_last_idx {
            checked
        } else {
            new_last_idx
        };
        if leader_commit > self.commit_index {
            let new_commit = if leader_commit <= upto {
                leader_commit
            } else {
                upto
            };
            if new_commit > self.commit_index {
                self.commit_index = new_commit;
                self.persist_hard_state();
            }
        }
        self.post(
            leader,
            MessageBody::AppendResponse { success: true, match_index: upto },
        );
        Ok(())
    }

    fn handle_append_response(
        &mut self,
        peer: NodeId,
        success: bool,
        match_index: LogIndex,
    ) -> (r: Result<(), Error>)
        requires
            old(self).wf(),
            old(self)@.role == Role::Leader,
        ensures
            final(self).wf(),
            old(self).reliable() ==> r is Ok && final(self).reliable() && final(self)@ == answered(
                old(self)@,
                peer,
                success,
                match_index,
            ),
            final(self)@.id == old(self)@.id,
            final(self)@.config == old(self)@.config,
            final(self)@.term == old(self)@.term,
            final(self)@.commit >= old(self)@.commit,
    {
        if success {
            self.match_index.insert(peer, match_index);
            self.next_index.insert(peer, match_index.saturating_add(1));
            self.maybe_advance_commit()
        } else {
            match self.next_index.get(peer) {
                Some(ni) => {
                    let back = if ni <= 2 {
                        1
                    } else {
                        ni - 1
                    };
                    self.next_index.insert(peer, back);
                },
                None => {},
            }
            self.send_append_entries(peer);
            Ok(())
        }
    }

    fn handle_request_vote(
        &mut self,
        candidate: NodeId,
        last_log_index: LogIndex,
        last_log_term: Term,
    ) -> (r: Result<(), Error>)
        requires
            old(self).wf(),
        ensures
            final(self).wf(),
            old(self).reliable() ==> r is Ok && final(self).reliable() && final(self)@
                == asked_for_vote(old(self)@, candidate, last_log_index, last_log_term),
            final(self)@.id == old(self)@.id,
            final(self)@.config == old(self)@.config,
            final(self)@.term == old(self)@.term,
            final(self)@.role == old(self)@.role,
            final(self)@.commit >= old(self)@.commit,
    {
        let our_last_idx = match self.storage.last_index() {
            Ok(n) => n,
            Err(e) => {
                return Err(e);
            },
        };
        let our_last_term = if our_last_idx == 0 {
            0
        } else {
            match self.storage.term(our_last_idx) {
                Ok(t) => t,
                Err(e) => {
                    return Err(e);
                },
            }
        };
        let log_ok = last_log_term > our_last_term || (last_log_term == our_last_term
            && last_log_index >= our_last_idx);
        let can_vote = match self.voted_for {
            None => true,
            Some(v) => v == candidate,
        };
        let granted = log_ok && can_vote;
        if granted {
            self.voted_for = Some(candidate);
            self.elapsed_ticks = 0;
            self.persist_hard_state();
        }
        self.post(candidate, MessageBody::VoteResponse { granted });
        Ok(())
    }

    fn handle_vote_response(&mut self, peer: NodeId, granted: bool)
        requires
            old(self).wf(),
        ensures
            final(self).wf(),
            old(self).reliable() ==> final(self).reliable() && final(self)@ == heard_vote(
                old(self)@,
                peer,
                granted,
            ),
            final(self)@.id == old(self)@.id,
            final(self)@.config == old(self)@.config,
            final(self)@.term == old(self)@.term,
            final(self)@.commit >= old(self)@.commit,
    {
        self.votes_received.insert(peer, granted);
        self.maybe_become_leader();
    }

    /// What the driver has to do now. It does all of it, and then calls
    /// [`Node::advance`].
    pub fn ready(&mut self) -> (r: Ready)
        requires
            old(self).wf(),
        ensures
            final(self).wf(),
            final(self)@ == drained(old(self)@),
            final(self).reliable() == old(self).reliable(),
            final(self).storage() == old(self).storage(),
            message_views(r.messages@) == old(self)@.outbox,
            r.entries@ == Seq::<Entry>::empty(),
            r.hard_state == old(self)@.news,
            r.snapshot is None,
            old(self).reliable() ==> entry_views(r.committed@) == to_apply(old(self)@),
            old(self)@.commit <= old(self)@.applied ==> r.committed@ == Seq::<Entry>::empty(),
    {
        let mut committed: Vec<Entry> = Vec::new();
        assert(entry_views(committed@) =~= Seq::<EntryView>::empty());
        if self.commit_index > self.last_applied {
            match self.storage.entries(
                self.last_applied + 1,
                self.commit_index.saturating_add(1),
            ) {
                Ok(v) => {
                    committed = v;
                },
                Err(_) => {},
            }
        }
        let mut messages: Vec<Message> = Vec::new();
        std::mem::swap(&mut messages, &mut self.pending_messages);
        assert(message_views(self.pending_messages@) =~= Seq::<MessageView>::empty());
        let hard_state = self.pending_hard_state;
        self.pending_hard_state = None;
        Ready { messages, entries: Vec::new(), hard_state, committed, snapshot: None }
    }

    /// The driver has done what was ready.
    pub fn advance(&mut self, ready: Ready)
        requires
            old(self).wf(),
        ensures
            final(self).wf(),
            final(self)@ == done_with(old(self)@, entry_views(ready.committed@)),
            final(self).reliable() == old(self).reliable(),
            final(self).storage() == old(self).storage(),
    {
        let n = ready.committed.len();
        if n > 0 {
            let index = ready.committed[n - 1].index;
            if index > self.last_applied {
                self.last_applied = index;
            }
        }
    }

    /// Applies entries to the state machine, in order, up to the first that it
    /// refuses, whose error comes back. The entries before that one are applied.
    pub fn apply_to<M: StateMachine>(&mut self, sm: &mut M, entries: &[Entry]) -> (r: Result<
        (),
        Error,
    >)
        requires
            old(self).wf(),
            old(sm).wf(),
            old(sm).has_room(entry_views(entries@)),
        ensures
            final(self).wf(),
            final(self).reliable() == old(self).reliable(),
            final(self).storage() == old(self).storage(),
            final(sm).wf(),
            final(sm).applied() >= old(sm).applied(),
            r is Ok ==> old(sm).leads_to(entry_views(entries@), final(sm)) && final(self)@ == (
            NodeView {
                applied: applied_through(old(self)@.applied, entry_views(entries@)),
                ..old(self)@
            }),
            r matches Err(e) ==> exists|n: int, mid: M|
                0 <= n < entries.len() && #[trigger] old(sm).leads_to(
                    entry_views(entries@).take(n),
                    &mid,
                ) && mid.refuses(entry_views(entries@)[n], e, final(sm)) && final(self)@ == (
                NodeView {
                    applied: applied_through(old(self)@.applied, entry_views(entries@).take(n)),
                    ..old(self)@
                }),
    {
        let ghost all = entry_views(entries@);
        let ghost a = self@;
        proof {
            old(sm).lemma_start();
            assert(all.take(0) =~= Seq::<EntryView>::empty());
            assert(all.skip(0) =~= all);
        }
        let n = entries.len();
        for i in 0..n
            invariant
                n == entries.len(),
                all == entry_views(entries@),
                a == old(self)@,
                self.wf(),
                self.reliable() == old(self).reliable(),
                self.storage() == old(self).storage(),
                sm.wf(),
                sm.applied() >= old(sm).applied(),
                sm.has_room(all.skip(i as int)),
                old(sm).leads_to(all.take(i as int), sm),
                self@ == (NodeView {
                    applied: applied_through(a.applied, all.take(i as int)),
                    ..a
                }),
        {
            let ghost here = *sm;
            proof {
                assert(seq![all[i as int]] + all.skip(i + 1) =~= all.skip(i as int));
                assert(all.take(i + 1).drop_last() =~= all.take(i as int));
                assert(all.take(i as int).push(all[i as int]) =~= all.take(i + 1));
                here.lemma_room_first(all[i as int], all.skip(i + 1));
            }
            match sm.apply(&entries[i]) {
                Ok(_) => {},
                Err(e) => {
                    assert(here.refuses(all[i as int], e, sm));
                    assert(old(sm).leads_to(all.take(i as int), &here));
                    return Err(e);
                },
            }
            let index = entries[i].index;
            if index > self.last_applied {
                self.last_applied = index;
            }
            assert(all.take(i + 1).last() == all[i as int]);
        }
        assert(all.take(n as int) =~= all);
        Ok(())
    }
}

/// One more peer in the map of a fresh leader.
proof fn lemma_one_more_peer(peers: Seq<NodeId>, i: int, v: u64)
    requires
        0 <= i < peers.len(),
    ensures
        same_for_all(peers.take(i + 1), v) == same_for_all(peers.take(i), v).insert(peers[i], v),
{
    let a = peers.take(i);
    let b = peers.take(i + 1);
    assert forall|id: NodeId| b.contains(id) <==> a.contains(id) || id == peers[i] by {
        if a.contains(id) {
            let j = a.index_of(id);
            assert(b[j] == id);
        }
        if b.contains(id) {
            let j = b.index_of(id);
            if j < i {
                assert(a[j] == id);
            }
        }
        if id == peers[i] {
            assert(b[i] == id);
        }
    }
    assert(same_for_all(b, v) =~= same_for_all(a, v).insert(peers[i], v));
}

/// At or below what is committed there is nothing to commit.
proof fn lemma_nothing_to_commit(s: NodeView, n: int)
    requires
        n <= s.commit,
    ensures
        highest_commit(s, n) == s.commit,
{
}

} // verus!
