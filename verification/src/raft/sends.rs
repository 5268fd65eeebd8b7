//! What a node sends.

use vstd::prelude::*;

use crate::raft::laws;
use crate::raft::state::{
    append_body, asked, behind, caught_up, committed_more, counted, handled, has_majority, leading,
    next_for, one_less, one_more, persisted, proposed, proposed_entry, same_for_all, sent_to,
    stepped, ticked, NodeView, Role,
};
use crate::raft::types::{BodyView, EntryView, MessageView};
use crate::types::{LogIndex, NodeId};

verus! {

// ---- votes -----------------------------------------------------------------------------

/// Of the messages that `t` has beyond those of `s`, a vote is the one that `t`
/// has saved.
pub open spec fn honest(s: NodeView, t: NodeView) -> bool {
    &&& s.outbox.is_prefix_of(t.outbox)
    &&& forall|i: int|
        s.outbox.len() <= i < t.outbox.len() && (#[trigger] t.outbox[i]).body == (
        BodyView::VoteResponse { granted: true }) ==> t.outbox[i].from == t.id && t.outbox[i].term
            == t.term && t.vote == Some(t.outbox[i].to)
}

pub proof fn lemma_honest_on(a: NodeView, b: NodeView, c: NodeView)
    requires
        honest(a, b),
        honest(b, c),
        c.id == b.id,
        c.term == b.term,
        c.vote == b.vote,
    ensures
        honest(a, c),
{
    assert forall|i: int|
        a.outbox.len() <= i < c.outbox.len() && (#[trigger] c.outbox[i]).body == (
        BodyView::VoteResponse { granted: true }) implies c.outbox[i].from == c.id
        && c.outbox[i].term == c.term && c.vote == Some(c.outbox[i].to) by {
        if i < b.outbox.len() {
            assert(c.outbox[i] == b.outbox[i]);
        }
    }
    assert forall|i: int| 0 <= i < a.outbox.len() implies a.outbox[i] == c.outbox[i] by {
        assert(a.outbox[i] == b.outbox[i]);
    }
}

pub proof fn lemma_sent_honest(s: NodeView, n: int)
    requires
        n <= s.config.peers.len(),
    ensures
        honest(s, sent_to(s, n)),
        sent_to(s, n) == (NodeView { outbox: sent_to(s, n).outbox, ..s }),
    decreases n,
{
    if n > 0 {
        lemma_sent_honest(s, n - 1);
    }
}

pub proof fn lemma_asked_honest(s: NodeView, n: int)
    requires
        n <= s.config.peers.len(),
    ensures
        honest(s, asked(s, n)),
        asked(s, n) == (NodeView { outbox: asked(s, n).outbox, ..s }),
    decreases n,
{
    if n > 0 {
        lemma_asked_honest(s, n - 1);
    }
}

pub proof fn lemma_leading_honest(s: NodeView)
    ensures
        honest(s, leading(s)),
        leading(s).id == s.id,
        leading(s).votes == s.votes,
        leading(s).term == s.term,
        leading(s).vote == s.vote,
        leading(s).config == s.config,
        leading(s).role == Role::Leader,
{
    let f = NodeView {
        role: Role::Leader,
        leader: Some(s.id),
        elapsed: 0,
        next: same_for_all(s.config.peers, behind(s.log)),
        matched: same_for_all(s.config.peers, 0),
        ..s
    };
    lemma_sent_honest(f, f.config.peers.len() as int);
}

/// A tick sends no vote.
pub proof fn lemma_tick_honest(s: NodeView)
    ensures
        honest(s, ticked(s)),
{
    let t = NodeView { elapsed: (s.elapsed + 1) as u32, ..s };
    if t.elapsed >= t.patience() {
        if s.role == Role::Leader {
            lemma_sent_honest(t, t.config.peers.len() as int);
        } else {
            let fresh = persisted(
                NodeView {
                    role: Role::Candidate,
                    term: (t.term + 1) as u64,
                    vote: Some(t.id),
                    votes: Map::<NodeId, bool>::empty().insert(t.id, true),
                    elapsed: 0,
                    leader: None,
                    ..t
                },
            );
            let p = fresh.config.peers.len() as int;
            lemma_asked_honest(fresh, p);
            lemma_leading_honest(asked(fresh, p));
            assert(honest(s, fresh));
            lemma_honest_on(s, fresh, asked(fresh, p));
            if has_majority(asked(fresh, p)) {
                lemma_honest_on(s, asked(fresh, p), leading(asked(fresh, p)));
            }
        }
    }
}

/// A vote that a message brings about is the one that is saved.
pub proof fn lemma_step_honest(s: NodeView, msg: MessageView)
    ensures
        honest(s, stepped(s, msg)),
{
    if msg.term >= s.term {
        let c = caught_up(s, msg);
        assert(honest(s, c));
        match msg.body {
            BodyView::AppendResponse { success, match_index } => {
                if c.role == Role::Leader {
                    assert(honest(c, handled(c, msg)));
                    lemma_honest_on(s, c, handled(c, msg));
                }
            },
            BodyView::VoteResponse { granted } => {
                if c.role == Role::Candidate {
                    let v = NodeView { votes: c.votes.insert(msg.from, granted), ..c };
                    if has_majority(v) {
                        lemma_leading_honest(v);
                    }
                }
            },
            _ => {},
        }
    }
}

/// A proposal sends no vote.
pub proof fn lemma_propose_honest(s: NodeView, data: Seq<u8>)
    ensures
        honest(s, proposed(s, data)),
{
    let t = NodeView { log: s.log.push(proposed_entry(s, data)), ..s };
    lemma_sent_honest(t, t.config.peers.len() as int);
}

// ---- roles -----------------------------------------------------------------------------

/// A node that a tick makes a candidate has voted for itself; otherwise it
/// keeps its role.
pub proof fn lemma_tick_role(s: NodeView)
    requires
        s.term < u64::MAX,
    ensures
        ticked(s).role == s.role && ticked(s).term == s.term || (ticked(s).role != Role::Follower
            && ticked(s).vote == Some(s.id)),
{
    let t = NodeView { elapsed: (s.elapsed + 1) as u32, ..s };
    if t.elapsed >= t.patience() {
        if s.role == Role::Leader {
            lemma_sent_honest(t, t.config.peers.len() as int);
        } else {
            let fresh = persisted(
                NodeView {
                    role: Role::Candidate,
                    term: (t.term + 1) as u64,
                    vote: Some(t.id),
                    votes: Map::<NodeId, bool>::empty().insert(t.id, true),
                    elapsed: 0,
                    leader: None,
                    ..t
                },
            );
            let p = fresh.config.peers.len() as int;
            lemma_asked_honest(fresh, p);
            lemma_leading_honest(asked(fresh, p));
        }
    }
}

/// After a message a node follows, or it is in the term it was in and was no
/// follower before.
pub proof fn lemma_step_role(s: NodeView, msg: MessageView)
    ensures
        stepped(s, msg).role == Role::Follower || (stepped(s, msg).term == s.term && s.role
            != Role::Follower),
{
    if msg.term >= s.term {
        let c = caught_up(s, msg);
        if let BodyView::VoteResponse { granted } = msg.body {
            if c.role == Role::Candidate {
                let v = NodeView { votes: c.votes.insert(msg.from, granted), ..c };
                if has_majority(v) {
                    lemma_leading_honest(v);
                }
            }
        }
    }
}

/// A proposal changes neither the role nor the term.
pub proof fn lemma_propose_role(s: NodeView, data: Seq<u8>)
    ensures
        proposed(s, data).role == s.role,
        proposed(s, data).term == s.term,
{
    let t = NodeView { log: s.log.push(proposed_entry(s, data)), ..s };
    lemma_sent_honest(t, t.config.peers.len() as int);
}

// ---- entries ---------------------------------------------------------------------------

/// A leader counts the entries for each peer from one on.
pub open spec fn numbered(s: NodeView) -> bool {
    forall|p: NodeId| #[trigger] s.next.contains_key(p) ==> s.next[p] >= 1
}

/// The entries behind the first `prev`, `most` at most, and as many as there are.
pub open spec fn next_entries(log: Seq<EntryView>, prev: int, most: int) -> Seq<EntryView> {
    if log.len() <= prev {
        seq![]
    } else if prev + most <= log.len() {
        log.subrange(prev, prev + most)
    } else {
        log.skip(prev)
    }
}

/// A message with entries is shaped as it should be: it comes from a leader in
/// its term; the entries are those of its log behind the entry that the message
/// names by index and term, as many as a message may have; and the leader has
/// committed, when it sends the message, what the message says.
pub open spec fn shaped(commit: LogIndex, t: NodeView, m: MessageView) -> bool {
    m.body matches BodyView::AppendEntries {
        prev_log_index,
        prev_log_term,
        entries,
        leader_commit,
    } ==> {
        &&& t.role == Role::Leader
        &&& m.from == t.id
        &&& m.term == t.term
        &&& prev_log_term == t.term_at(prev_log_index as int)
        &&& entries.len() <= t.config.max_entries_per_msg
        &&& entries.len() > 0 ==> prev_log_index + entries.len() <= t.log.len() && entries
            == t.log.subrange(prev_log_index as int, prev_log_index + entries.len())
        &&& prev_log_index + 1 + t.config.max_entries_per_msg <= u64::MAX ==> entries
            == next_entries(t.log, prev_log_index as int, t.config.max_entries_per_msg as int)
        &&& leader_commit == commit
    }
}

/// What `t` has to send beyond what `s` had is shaped as it should be.
pub open spec fn sends_shaped(s: NodeView, t: NodeView) -> bool {
    &&& s.outbox.is_prefix_of(t.outbox)
    &&& forall|i: int|
        s.outbox.len() <= i < t.outbox.len() ==> shaped(s.commit, t, #[trigger] t.outbox[i])
}

proof fn lemma_append_shaped(s: NodeView, to: NodeId)
    requires
        s.role == Role::Leader,
        numbered(s),
    ensures
        shaped(
            s.commit,
            s,
            MessageView { from: s.id, to, term: s.term, body: append_body(s, to) },
        ),
{
    match append_body(s, to) {
        BodyView::AppendEntries { prev_log_index, entries, .. } => {
            let next = next_for(s, to);
            let most = s.config.max_entries_per_msg as int;
            assert(next == prev_log_index + 1);
            if next + most <= u64::MAX {
                assert(entries =~= next_entries(s.log, prev_log_index as int, most));
            }
        },
        _ => {},
    }
}

proof fn lemma_sent_shaped(s: NodeView, n: int)
    requires
        s.role == Role::Leader,
        numbered(s),
        n <= s.config.peers.len(),
    ensures
        sends_shaped(s, sent_to(s, n)),
        sent_to(s, n) == (NodeView { outbox: sent_to(s, n).outbox, ..s }),
    decreases n,
{
    if n > 0 {
        lemma_sent_shaped(s, n - 1);
        let a = sent_to(s, n - 1);
        let b = sent_to(s, n);
        lemma_append_shaped(a, s.config.peers[n - 1]);
        assert forall|i: int| s.outbox.len() <= i < b.outbox.len() implies shaped(
            s.commit,
            b,
            #[trigger] b.outbox[i],
        ) by {
            if i < a.outbox.len() {
                assert(shaped(s.commit, a, a.outbox[i]));
            }
        }
    }
}

/// Committing more does not change what was sent, nor its shape.
proof fn lemma_commit_shaped(s: NodeView, t: NodeView)
    requires
        sends_shaped(s, t),
        t.log.len() <= u64::MAX,
    ensures
        sends_shaped(s, committed_more(t)),
{
    let c = committed_more(t);
    laws::lemma_commit_rule(t, t.log.len() as int);
    assert forall|i: int| s.outbox.len() <= i < c.outbox.len() implies shaped(
        s.commit,
        c,
        #[trigger] c.outbox[i],
    ) by {
        assert(shaped(s.commit, t, t.outbox[i]));
    }
}

proof fn lemma_leading_shaped(s: NodeView)
    requires
        s.log.len() <= u64::MAX,
    ensures
        sends_shaped(s, leading(s)),
        numbered(leading(s)),
{
    let f = NodeView {
        role: Role::Leader,
        leader: Some(s.id),
        elapsed: 0,
        next: same_for_all(s.config.peers, behind(s.log)),
        matched: same_for_all(s.config.peers, 0),
        ..s
    };
    let n = f.config.peers.len() as int;
    lemma_sent_shaped(f, n);
    lemma_commit_shaped(f, sent_to(f, n));
}

/// Requests for votes are no messages with entries.
proof fn lemma_asked_no_entries(s: NodeView, n: int)
    requires
        n <= s.config.peers.len(),
    ensures
        s.outbox.is_prefix_of(asked(s, n).outbox),
        asked(s, n) == (NodeView { outbox: asked(s, n).outbox, ..s }),
        forall|i: int|
            s.outbox.len() <= i < asked(s, n).outbox.len() ==> !((#[trigger] asked(
                s,
                n,
            ).outbox[i]).body is AppendEntries),
    decreases n,
{
    if n > 0 {
        lemma_asked_no_entries(s, n - 1);
    }
}

/// Every message with entries that a tick sends is shaped as it should be.
pub proof fn lemma_tick_shaped(s: NodeView)
    requires
        s.log.len() <= u64::MAX,
        numbered(s),
    ensures
        sends_shaped(s, ticked(s)),
        numbered(ticked(s)),
{
    let t = NodeView { elapsed: (s.elapsed + 1) as u32, ..s };
    if t.elapsed >= t.patience() {
        let p = s.config.peers.len() as int;
        if s.role == Role::Leader {
            lemma_sent_shaped(t, p);
            let a = sent_to(t, p);
            let b = ticked(s);
            assert forall|i: int| s.outbox.len() <= i < b.outbox.len() implies shaped(
                s.commit,
                b,
                #[trigger] b.outbox[i],
            ) by {
                assert(shaped(s.commit, a, a.outbox[i]));
            }
        } else {
            let fresh = persisted(
                NodeView {
                    role: Role::Candidate,
                    term: (t.term + 1) as u64,
                    vote: Some(t.id),
                    votes: Map::<NodeId, bool>::empty().insert(t.id, true),
                    elapsed: 0,
                    leader: None,
                    ..t
                },
            );
            let a = asked(fresh, p);
            lemma_asked_no_entries(fresh, p);
            lemma_leading_shaped(a);
            let b = counted(a);
            assert(b == ticked(s));
            assert forall|i: int| s.outbox.len() <= i < b.outbox.len() implies shaped(
                s.commit,
                b,
                #[trigger] b.outbox[i],
            ) by {
                if i < a.outbox.len() {
                    assert(b.outbox[i] == a.outbox[i]);
                }
            }
            assert forall|i: int| 0 <= i < s.outbox.len() implies s.outbox[i] == b.outbox[i] by {
                assert(fresh.outbox[i] == a.outbox[i]);
            }
        }
    }
}

/// Every message with entries that a message brings about is shaped as it
/// should be.
pub proof fn lemma_step_shaped(s: NodeView, msg: MessageView)
    requires
        s.log.len() <= u64::MAX,
        numbered(s),
    ensures
        sends_shaped(s, stepped(s, msg)),
        numbered(stepped(s, msg)),
{
    if msg.term >= s.term {
        let c = caught_up(s, msg);
        let b = stepped(s, msg);
        match msg.body {
            BodyView::AppendResponse { success, match_index } => {
                if c.role == Role::Leader {
                    if success {
                        let t = NodeView {
                            matched: c.matched.insert(msg.from, match_index),
                            next: c.next.insert(msg.from, one_more(match_index)),
                            ..c
                        };
                        assert(sends_shaped(c, t));
                        lemma_commit_shaped(c, t);
                        assert(b == committed_more(t));
                    } else {
                        let t = if c.next.contains_key(msg.from) {
                            NodeView {
                                next: c.next.insert(msg.from, one_less(c.next[msg.from])),
                                ..c
                            }
                        } else {
                            c
                        };
                        lemma_append_shaped(t, msg.from);
                    }
                }
            },
            BodyView::VoteResponse { granted } => {
                if c.role == Role::Candidate {
                    let v = NodeView { votes: c.votes.insert(msg.from, granted), ..c };
                    if has_majority(v) {
                        lemma_leading_shaped(v);
                    }
                }
            },
            _ => {},
        }
    }
}

/// Every message with entries that a proposal sends is shaped as it should be.
pub proof fn lemma_propose_shaped(s: NodeView, data: Seq<u8>)
    requires
        s.role == Role::Leader,
        s.log.len() < u64::MAX,
        numbered(s),
    ensures
        sends_shaped(s, proposed(s, data)),
        numbered(proposed(s, data)),
{
    let t = NodeView { log: s.log.push(proposed_entry(s, data)), ..s };
    let n = t.config.peers.len() as int;
    lemma_sent_shaped(t, n);
    lemma_commit_shaped(t, sent_to(t, n));
}

} // verus!
