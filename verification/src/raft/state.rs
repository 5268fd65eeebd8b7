//! What a node is, as a value, and what each event makes of it.

use vstd::prelude::*;

use crate::raft::peers::{given, nodes_with, up_to};
use crate::raft::storage::{attaches, lacking, log_range, spliced};
use crate::raft::types::{BodyView, EntryKind, EntryView, HardState, MessageView};
use crate::types::{LogIndex, NodeId, Term};

verus! {

#[derive(Debug, Clone, Copy, PartialEq, Eq, Structural)]
pub enum Role {
    Follower,
    Candidate,
    Leader,
}

/// What a node is set up with.
#[verifier::ext_equal]
pub struct ConfigView {
    pub peers: Seq<NodeId>,
    pub heartbeat_interval: u32,
    pub election_timeout: u32,
    pub max_entries_per_msg: usize,
}

impl ConfigView {
    /// How many nodes are more than half of the cluster.
    pub open spec fn majority(self) -> int {
        (self.peers.len() as int + 1) / 2 + 1
    }
}

/// What a node is.
#[verifier::ext_equal]
pub struct NodeView {
    pub id: NodeId,
    pub role: Role,
    pub term: Term,
    pub vote: Option<NodeId>,
    pub commit: LogIndex,
    pub applied: LogIndex,
    pub leader: Option<NodeId>,
    pub next: Map<NodeId, LogIndex>,
    pub matched: Map<NodeId, LogIndex>,
    pub votes: Map<NodeId, bool>,
    pub elapsed: u32,
    /// The log in the storage.
    pub log: Seq<EntryView>,
    /// What the storage has saved.
    pub saved: HardState,
    /// The messages that wait to be sent.
    pub outbox: Seq<MessageView>,
    /// What was saved since the last time the driver asked.
    pub news: Option<HardState>,
    pub config: ConfigView,
}

impl NodeView {
    /// What has to survive a crash.
    pub open spec fn hard(self) -> HardState {
        HardState { term: self.term, vote: self.vote, commit: self.commit }
    }

    /// The term of the entry at `index`; outside the log zero.
    pub open spec fn term_at(self, index: int) -> Term {
        if 1 <= index <= self.log.len() {
            self.log[index - 1].term
        } else {
            0
        }
    }

    /// After how many ticks something happens.
    pub open spec fn patience(self) -> u32 {
        match self.role {
            Role::Leader => self.config.heartbeat_interval,
            _ => self.config.election_timeout,
        }
    }

    /// What is saved is what the node knows, and the count of ticks has not run
    /// over.
    pub open spec fn wf(self) -> bool {
        &&& self.saved == self.hard()
        &&& self.elapsed == 0 || self.elapsed < self.patience()
        &&& forall|i: int|
            0 <= i < self.outbox.len() ==> (#[trigger] self.outbox[i]).term <= self.term
                && self.outbox[i].from == self.id
    }
}

/// The node with one more message to send.
pub open spec fn posted(s: NodeView, to: NodeId, body: BodyView) -> NodeView {
    NodeView { outbox: s.outbox.push(MessageView { from: s.id, to, term: s.term, body }), ..s }
}

/// The node after it saved what has to survive a crash.
pub open spec fn persisted(s: NodeView) -> NodeView {
    NodeView { saved: s.hard(), news: Some(s.hard()), ..s }
}

// ---- leading ------------------------------------------------------------------------

/// Where the next entry for `peer` stands.
pub open spec fn next_for(s: NodeView, peer: NodeId) -> LogIndex {
    if s.next.contains_key(peer) {
        s.next[peer]
    } else {
        1
    }
}

/// The message that brings `peer` on: what it should have last, and the entries
/// that follow, as many as a message may have.
pub open spec fn append_body(s: NodeView, peer: NodeId) -> BodyView {
    let next = next_for(s, peer);
    let prev = if next == 0 {
        0
    } else {
        (next - 1) as u64
    };
    let limit = if next + s.config.max_entries_per_msg <= u64::MAX {
        next + s.config.max_entries_per_msg
    } else {
        u64::MAX as int
    };
    BodyView::AppendEntries {
        prev_log_index: prev,
        prev_log_term: s.term_at(prev as int),
        entries: if next == 0 {
            seq![]
        } else {
            log_range(s.log, next as int, limit)
        },
        leader_commit: s.commit,
    }
}

/// The node after it sent the first `n` peers what they need.
pub open spec fn sent_to(s: NodeView, n: int) -> NodeView
    decreases n,
{
    if n <= 0 {
        s
    } else {
        let prior = sent_to(s, n - 1);
        let peer = s.config.peers[n - 1];
        posted(prior, peer, append_body(prior, peer))
    }
}

/// The node after it sent every peer what it needs.
pub open spec fn broadcast(s: NodeView) -> NodeView {
    sent_to(s, s.config.peers.len() as int)
}

/// How many nodes have the leader's entries up to `n`: the leader, and the others
/// that said so.
pub open spec fn replicas(s: NodeView, n: u64) -> int {
    1 + nodes_with(s.matched, up_to(s.id, n)).len() as int
}

/// A leader may commit up to `n`: the entry there is of its own term, and more
/// than half of the cluster has it.
pub open spec fn may_commit(s: NodeView, n: int) -> bool {
    &&& 1 <= n <= s.log.len()
    &&& s.log[n - 1].term == s.term
    &&& replicas(s, n as u64) >= s.config.majority()
}

/// The highest index up to `n` that the leader may commit, or what is committed
/// already.
pub open spec fn highest_commit(s: NodeView, n: int) -> LogIndex
    decreases n,
{
    if n <= s.commit {
        s.commit
    } else if may_commit(s, n) {
        n as u64
    } else {
        highest_commit(s, n - 1)
    }
}

/// The node after it committed what it may.
pub open spec fn committed_more(s: NodeView) -> NodeView {
    let c = highest_commit(s, s.log.len() as int);
    if s.role != Role::Leader || c == s.commit {
        s
    } else {
        persisted(NodeView { commit: c, ..s })
    }
}

/// What a fresh leader assumes of each peer.
pub open spec fn same_for_all(peers: Seq<NodeId>, v: u64) -> Map<NodeId, u64> {
    Map::new(|id: NodeId| peers.contains(id), |id: NodeId| v)
}

/// The index behind the log.
pub open spec fn behind(log: Seq<EntryView>) -> LogIndex {
    if log.len() < u64::MAX {
        (log.len() + 1) as u64
    } else {
        u64::MAX
    }
}

/// The node as leader.
pub open spec fn leading(s: NodeView) -> NodeView {
    let fresh = NodeView {
        role: Role::Leader,
        leader: Some(s.id),
        elapsed: 0,
        next: same_for_all(s.config.peers, behind(s.log)),
        matched: same_for_all(s.config.peers, 0),
        ..s
    };
    committed_more(broadcast(fresh))
}

// ---- elections ----------------------------------------------------------------------

/// The candidate has more than half of the votes.
pub open spec fn has_majority(s: NodeView) -> bool {
    nodes_with(s.votes, given()).len() >= s.config.majority()
}

/// A candidate with enough votes leads.
pub open spec fn counted(s: NodeView) -> NodeView {
    if s.role == Role::Candidate && has_majority(s) {
        leading(s)
    } else {
        s
    }
}

/// The node after it asked the first `n` peers for their votes.
pub open spec fn asked(s: NodeView, n: int) -> NodeView
    decreases n,
{
    if n <= 0 {
        s
    } else {
        posted(
            asked(s, n - 1),
            s.config.peers[n - 1],
            BodyView::RequestVote {
                last_log_index: s.log.len() as u64,
                last_log_term: s.term_at(s.log.len() as int),
            },
        )
    }
}

/// The node after it stood for election.
pub open spec fn standing(s: NodeView) -> NodeView {
    let fresh = persisted(
        NodeView {
            role: Role::Candidate,
            term: (s.term + 1) as u64,
            vote: Some(s.id),
            votes: Map::<NodeId, bool>::empty().insert(s.id, true),
            elapsed: 0,
            leader: None,
            ..s
        },
    );
    counted(asked(fresh, s.config.peers.len() as int))
}

/// The node after a tick.
pub open spec fn ticked(s: NodeView) -> NodeView {
    let t = NodeView { elapsed: (s.elapsed + 1) as u32, ..s };
    if t.elapsed < t.patience() {
        t
    } else if s.role == Role::Leader {
        NodeView { elapsed: 0, ..broadcast(t) }
    } else {
        standing(t)
    }
}

/// The node as follower in `term`.
pub open spec fn following(s: NodeView, term: Term, leader: Option<NodeId>) -> NodeView {
    let t = if term > s.term {
        NodeView { term, vote: None, ..s }
    } else {
        s
    };
    persisted(NodeView { role: Role::Follower, leader, elapsed: 0, ..t })
}

// ---- proposals ----------------------------------------------------------------------

/// The entry that a leader makes of a proposal.
pub open spec fn proposed_entry(s: NodeView, data: Seq<u8>) -> EntryView {
    EntryView { index: (s.log.len() + 1) as u64, term: s.term, kind: EntryKind::Normal, data }
}

/// The leader after a proposal.
pub open spec fn proposed(s: NodeView, data: Seq<u8>) -> NodeView {
    committed_more(broadcast(NodeView { log: s.log.push(proposed_entry(s, data)), ..s }))
}

// ---- messages -----------------------------------------------------------------------

/// The node after it was asked for its vote. It votes once in a term, and only
/// for a candidate whose log is at least as new as its own.
pub open spec fn asked_for_vote(
    s: NodeView,
    candidate: NodeId,
    last_log_index: LogIndex,
    last_log_term: Term,
) -> NodeView {
    let granted = grants(s, candidate, last_log_index, last_log_term);
    let t = if granted {
        persisted(NodeView { vote: Some(candidate), elapsed: 0, ..s })
    } else {
        s
    };
    posted(t, candidate, BodyView::VoteResponse { granted })
}

/// Whether the node votes for the candidate.
pub open spec fn grants(
    s: NodeView,
    candidate: NodeId,
    last_log_index: LogIndex,
    last_log_term: Term,
) -> bool {
    let ours = s.term_at(s.log.len() as int);
    &&& last_log_term > ours || (last_log_term == ours && last_log_index >= s.log.len())
    &&& s.vote is None || s.vote == Some(candidate)
}

/// The candidate after an answer.
pub open spec fn heard_vote(s: NodeView, peer: NodeId, granted: bool) -> NodeView {
    counted(NodeView { votes: s.votes.insert(peer, granted), ..s })
}

/// The log has the entry that the leader takes to be there.
pub open spec fn consistent(s: NodeView, prev_log_index: LogIndex, prev_log_term: Term) -> bool {
    prev_log_index == 0 || (prev_log_index <= s.log.len() && s.term_at(prev_log_index as int)
        == prev_log_term)
}

/// The node after it heard from a leader of its term, before it looks at the
/// entries.
pub open spec fn heard_leader(s: NodeView, leader: NodeId) -> NodeView {
    let t = NodeView { elapsed: 0, leader: Some(leader), ..s };
    if s.role == Role::Candidate {
        following(t, t.term, Some(leader))
    } else {
        t
    }
}

/// Up to where the log is the leader's, as far as a message shows: the place of
/// its last entry. Nothing is known of what the log has behind it.
pub open spec fn checked_through(
    log: Seq<EntryView>,
    prev_log_index: LogIndex,
    es: Seq<EntryView>,
) -> LogIndex {
    if prev_log_index + es.len() <= log.len() {
        (prev_log_index + es.len()) as u64
    } else {
        log.len() as u64
    }
}

/// The node after it learned how far the leader has committed, when its log is
/// the leader's up to `upto`.
pub open spec fn learned_commit(s: NodeView, leader_commit: LogIndex, upto: LogIndex) -> NodeView {
    let c = if leader_commit <= upto {
        leader_commit
    } else {
        upto
    };
    if c > s.commit {
        persisted(NodeView { commit: c, ..s })
    } else {
        s
    }
}

/// The node after entries from a leader of its term. It takes on what it lacks,
/// and answers with what was checked.
pub open spec fn received(
    s: NodeView,
    leader: NodeId,
    prev_log_index: LogIndex,
    prev_log_term: Term,
    es: Seq<EntryView>,
    leader_commit: LogIndex,
) -> NodeView {
    let h = heard_leader(s, leader);
    if !consistent(h, prev_log_index, prev_log_term) {
        posted(h, leader, BodyView::AppendResponse { success: false, match_index: 0 })
    } else if !attaches(h.log, lacking(h.log, es)) {
        h
    } else {
        let log = spliced(h.log, lacking(h.log, es));
        let upto = checked_through(log, prev_log_index, es);
        posted(
            learned_commit(NodeView { log, ..h }, leader_commit, upto),
            leader,
            BodyView::AppendResponse { success: true, match_index: upto },
        )
    }
}

/// What a message brings that the log does not have.
pub open spec fn news_in(log: Seq<EntryView>, msg: MessageView) -> Seq<EntryView> {
    match msg.body {
        BodyView::AppendEntries { entries, .. } => lacking(log, entries),
        _ => seq![],
    }
}

/// The entries of a message cannot go where they say.
pub open spec fn misplaced(s: NodeView, msg: MessageView) -> bool {
    msg.body matches BodyView::AppendEntries { prev_log_index, prev_log_term, entries, .. }
        && consistent(s, prev_log_index, prev_log_term) && !attaches(s.log, news_in(s.log, msg))
}

/// One more, at most the highest number.
pub open spec fn one_more(n: u64) -> u64 {
    if n < u64::MAX {
        (n + 1) as u64
    } else {
        u64::MAX
    }
}

/// One less, at least one.
pub open spec fn one_less(n: u64) -> u64 {
    if n <= 2 {
        1
    } else {
        (n - 1) as u64
    }
}

/// The leader after an answer to entries.
pub open spec fn answered(
    s: NodeView,
    peer: NodeId,
    success: bool,
    match_index: LogIndex,
) -> NodeView {
    if success {
        committed_more(
            NodeView {
                matched: s.matched.insert(peer, match_index),
                next: s.next.insert(peer, one_more(match_index)),
                ..s
            },
        )
    } else {
        let t = if s.next.contains_key(peer) {
            NodeView { next: s.next.insert(peer, one_less(s.next[peer])), ..s }
        } else {
            s
        };
        posted(t, peer, append_body(t, peer))
    }
}

/// The leader that a message tells of.
pub open spec fn told_leader(msg: MessageView) -> Option<NodeId> {
    if msg.body is AppendEntries {
        Some(msg.from)
    } else {
        None
    }
}

/// The node after it took the term of a message on, if that is higher.
pub open spec fn caught_up(s: NodeView, msg: MessageView) -> NodeView {
    if msg.term > s.term {
        following(s, msg.term, told_leader(msg))
    } else {
        s
    }
}

/// What a message of the node's own term makes of it.
pub open spec fn handled(s: NodeView, msg: MessageView) -> NodeView {
    match msg.body {
        BodyView::AppendEntries { prev_log_index, prev_log_term, entries, leader_commit } => received(
            s,
            msg.from,
            prev_log_index,
            prev_log_term,
            entries,
            leader_commit,
        ),
        BodyView::AppendResponse { success, match_index } => if s.role == Role::Leader {
            answered(s, msg.from, success, match_index)
        } else {
            s
        },
        BodyView::RequestVote { last_log_index, last_log_term } => asked_for_vote(
            s,
            msg.from,
            last_log_index,
            last_log_term,
        ),
        BodyView::VoteResponse { granted } => if s.role == Role::Candidate {
            heard_vote(s, msg.from, granted)
        } else {
            s
        },
        BodyView::InstallSnapshot { .. } => s,
        BodyView::InstallSnapshotResponse => s,
    }
}

/// The node after a message: one of an older term is dropped.
pub open spec fn stepped(s: NodeView, msg: MessageView) -> NodeView {
    if msg.term < s.term {
        s
    } else {
        handled(caught_up(s, msg), msg)
    }
}

/// The entries that are committed and not applied yet.
pub open spec fn to_apply(s: NodeView) -> Seq<EntryView> {
    if s.commit > s.applied {
        log_range(s.log, s.applied + 1, one_more(s.commit) as int)
    } else {
        seq![]
    }
}

/// The node after the driver took its messages and its news.
pub open spec fn drained(s: NodeView) -> NodeView {
    NodeView { outbox: seq![], news: None, ..s }
}

/// The later of two indices.
pub open spec fn later_index(a: LogIndex, b: LogIndex) -> LogIndex {
    if a >= b {
        a
    } else {
        b
    }
}

/// The node after the driver applied entries.
pub open spec fn done_with(s: NodeView, es: Seq<EntryView>) -> NodeView {
    if es.len() == 0 {
        s
    } else {
        NodeView { applied: later_index(s.applied, es.last().index), ..s }
    }
}

/// The highest index that was applied, after these entries too.
pub open spec fn applied_through(applied: LogIndex, es: Seq<EntryView>) -> LogIndex
    decreases es.len(),
{
    if es.len() == 0 {
        applied
    } else {
        later_index(applied_through(applied, es.drop_last()), es.last().index)
    }
}

} // verus!
