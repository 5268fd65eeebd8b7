//! What a node is for, event by event.
//!
//! Each law says what an event leads to in terms of what the node was and of what
//! it was told: when it stands for election and when it sends, what it takes on and
//! answers, what it commits and what it hands out.

use vstd::prelude::*;

use crate::raft::laws;
use crate::raft::peers::{given, nodes_with, up_to};
use crate::raft::sends;
use crate::raft::state::{
    asked, behind, broadcast, committed_more, counted, drained, has_majority, leading, may_commit, next_for,
    persisted, proposed, proposed_entry, replicas, same_for_all, sent_to, stepped, ticked, to_apply,
    NodeView, Role,
};
use crate::raft::storage::{attaches, log_range, spliced, has_entry, lemma_lacking};
use crate::raft::types::{BodyView, EntryKind, EntryView, HardState, MessageView};
use crate::types::{LogIndex, NodeId, Term};

verus! {

// ---- ticks -----------------------------------------------------------------------------------

/// The node after ticks.
pub open spec fn ticks_on(s: NodeView, n: nat) -> NodeView
    decreases n,
{
    if n == 0 {
        s
    } else {
        ticked(ticks_on(s, (n - 1) as nat))
    }
}

/// As long as its patience lasts a node that does not lead only counts the ticks.
pub proof fn lemma_waits(s: NodeView, n: nat)
    requires
        s.role != Role::Leader,
        s.elapsed + n < s.config.election_timeout,
    ensures
        ticks_on(s, n) == (NodeView { elapsed: (s.elapsed + n) as u32, ..s }),
    decreases n,
{
    if n > 0 {
        lemma_waits(s, (n - 1) as nat);
    }
}

/// When it ends, the node stands for election in the next term: it votes for itself,
/// which is saved, and keeps its log.
pub proof fn lemma_patience_ends(s: NodeView, n: nat)
    requires
        s.role != Role::Leader,
        s.elapsed < s.config.election_timeout,
        n == s.config.election_timeout - s.elapsed,
        s.term < u64::MAX,
    ensures
        ({
            let t = ticks_on(s, n);
            &&& t.term == s.term + 1
            &&& t.vote == Some(s.id)
            &&& t.saved.term == t.term && t.saved.vote == t.vote
            &&& t.role != Role::Follower
            &&& t.elapsed == 0
            &&& t.log == s.log
            &&& t.role == Role::Candidate ==> t.leader is None && t.commit == s.commit
            &&& s.config.peers.len() > 0 ==> t.role == Role::Candidate
            &&& s.config.peers.len() == 0 ==> t.role == Role::Leader
        }),
{
    lemma_waits(s, (n - 1) as nat);
    let u = NodeView { elapsed: s.config.election_timeout, ..s };
    let f = persisted(
        NodeView {
            role: Role::Candidate,
            term: (u.term + 1) as u64,
            vote: Some(u.id),
            votes: Map::<NodeId, bool>::empty().insert(u.id, true),
            elapsed: 0,
            leader: None,
            ..u
        },
    );
    let p = f.config.peers.len() as int;
    sends::lemma_asked_honest(f, p);
    let a = asked(f, p);
    assert(ticks_on(s, n) == counted(a));
    let w = nodes_with(a.votes, given());
    assert(w =~= Set::<NodeId>::empty().insert(s.id));
    assert(w.len() == 1);
    if has_majority(a) {
        lemma_new_leader(a, 0);
    }
}

/// A message to each of the first `n` peers, in order, that brings it entries.
pub open spec fn calls(s: NodeView, msgs: Seq<MessageView>, n: int) -> bool {
    &&& msgs.len() == n
    &&& forall|x: int|
        0 <= x < n ==> (#[trigger] msgs[x]).to == s.config.peers[x] && msgs[x].from == s.id
            && msgs[x].term == s.term && msgs[x].body is AppendEntries
}

proof fn lemma_calls(s: NodeView, n: int)
    requires
        0 <= n <= s.config.peers.len(),
    ensures
        s.outbox.is_prefix_of(sent_to(s, n).outbox),
        calls(s, sent_to(s, n).outbox.skip(s.outbox.len() as int), n),
        sent_to(s, n) == (NodeView { outbox: sent_to(s, n).outbox, ..s }),
    decreases n,
{
    let new = sent_to(s, n).outbox.skip(s.outbox.len() as int);
    if n > 0 {
        lemma_calls(s, n - 1);
        let was = sent_to(s, n - 1).outbox.skip(s.outbox.len() as int);
        assert(new.drop_last() =~= was);
        assert forall|x: int| 0 <= x < n implies (#[trigger] new[x]).to == s.config.peers[x]
            && new[x].from == s.id && new[x].term == s.term && new[x].body is AppendEntries by {
            if x < n - 1 {
                assert(new[x] == was[x]);
            }
        }
    } else {
        assert(new =~= seq![]);
    }
}

/// A leader sends to every peer each time so many ticks have gone by, and otherwise
/// only counts them.
pub proof fn lemma_beats(s: NodeView)
    requires
        s.role == Role::Leader,
        s.elapsed < u32::MAX,
    ensures
        ({
            let t = ticked(s);
            &&& t.role == Role::Leader && t.term == s.term && t.log == s.log && t.commit == s.commit
            &&& t.next == s.next && t.matched == s.matched && t.vote == s.vote
            &&& s.elapsed + 1 < s.config.heartbeat_interval ==> t.outbox == s.outbox && t.elapsed
                == s.elapsed + 1
            &&& s.elapsed + 1 >= s.config.heartbeat_interval ==> t.elapsed == 0
                && s.outbox.is_prefix_of(t.outbox) && calls(
                s,
                t.outbox.skip(s.outbox.len() as int),
                s.config.peers.len() as int,
            )
        }),
{
    let t = NodeView { elapsed: (s.elapsed + 1) as u32, ..s };
    lemma_calls(t, t.config.peers.len() as int);
}

// ---- leading ---------------------------------------------------------------------------------

/// A fresh leader takes every peer to have its whole log and to have said nothing,
/// names itself as the leader, and sends to every peer at once.
pub proof fn lemma_new_leader(s: NodeView, x: int)
    ensures
        ({
            let t = leading(s);
            &&& t.role == Role::Leader && t.term == s.term && t.log == s.log && t.vote == s.vote
            &&& t.leader == Some(s.id) && t.elapsed == 0 && t.id == s.id
            &&& t.saved.term == s.saved.term || t.saved.term == s.term
            &&& t.saved.vote == s.saved.vote || t.saved.vote == s.vote
            &&& 0 <= x < s.config.peers.len() && s.log.len() < u64::MAX ==> next_for(
                t,
                s.config.peers[x],
            ) == s.log.len() + 1 && t.matched.contains_key(s.config.peers[x])
                && t.matched[s.config.peers[x]] == 0
            &&& s.outbox.is_prefix_of(t.outbox)
            &&& calls(s, t.outbox.skip(s.outbox.len() as int), s.config.peers.len() as int)
        }),
{
    let f = NodeView {
        role: Role::Leader,
        leader: Some(s.id),
        elapsed: 0,
        next: same_for_all(s.config.peers, behind(s.log)),
        matched: same_for_all(s.config.peers, 0),
        ..s
    };
    lemma_calls(f, f.config.peers.len() as int);
}

/// More than half: two such groups have a node in common, and one node less would not
/// do.
pub proof fn lemma_majority(s: NodeView)
    ensures
        2 * s.config.majority() > s.config.peers.len() + 1,
        2 * (s.config.majority() - 1) <= s.config.peers.len() + 1,
{
}

/// A leader commits a place of its own term as soon as it has heard that others have
/// it which are, with it, more than half of the cluster.
pub proof fn lemma_commits_by_majority(s: NodeView, q: Set<NodeId>, n: int)
    requires
        s.role == Role::Leader,
        s.log.len() <= u64::MAX,
        1 <= n <= s.log.len(),
        s.log[n - 1].term == s.term,
        s.matched.dom().finite(),
        q.finite(),
        forall|p: NodeId| #[trigger]
            q.contains(p) ==> p != s.id && s.matched.contains_key(p) && s.matched[p] >= n,
        2 * (q.len() + 1) > s.config.peers.len() + 1,
    ensures
        committed_more(s).commit >= n,
        committed_more(s).saved.commit == committed_more(s).commit || committed_more(s) == s,
{
    let have = nodes_with(s.matched, up_to(s.id, n as u64));
    assert(q.subset_of(have));
    assert(have.subset_of(s.matched.dom()));
    vstd::set_lib::lemma_len_subset(q, have);
    laws::lemma_commit_rule(s, s.log.len() as int);
    assert(replicas(s, n as u64) >= s.config.majority());
    assert(may_commit(s, n));
}

/// A leader that is told how far a peer has come takes note of it, and sends it from
/// there on.
pub proof fn lemma_takes_note(s: NodeView, from: NodeId, match_index: LogIndex)
    requires
        s.role == Role::Leader,
        match_index < u64::MAX,
    ensures
        ({
            let t = stepped(
                s,
                MessageView {
                    from,
                    to: s.id,
                    term: s.term,
                    body: BodyView::AppendResponse { success: true, match_index },
                },
            );
            &&& t.role == Role::Leader && t.log == s.log && t.term == s.term
            &&& t.matched == s.matched.insert(from, match_index)
            &&& next_for(t, from) == match_index + 1
            &&& t.outbox == s.outbox
            &&& forall|p: NodeId| p != from ==> #[trigger] next_for(t, p) == next_for(s, p)
        }),
{
}

/// A leader puts a proposal behind its log, as an entry of its term, and sends to
/// every peer at once.
pub proof fn lemma_puts_behind(s: NodeView, data: Seq<u8>)
    requires
        s.role == Role::Leader,
        s.log.len() < u64::MAX,
    ensures
        ({
            let t = proposed(s, data);
            let e = EntryView {
                index: (s.log.len() + 1) as u64,
                term: s.term,
                kind: EntryKind::Normal,
                data,
            };
            &&& t.log == s.log.push(e)
            &&& t.role == Role::Leader && t.term == s.term
            &&& t.commit >= s.commit
            &&& s.outbox.is_prefix_of(t.outbox)
            &&& calls(s, t.outbox.skip(s.outbox.len() as int), s.config.peers.len() as int)
            &&& s.config.peers.len() == 0 && s.matched.dom().finite() ==> t.commit >= t.log.len()
        }),
{
    let p = NodeView { log: s.log.push(proposed_entry(s, data)), ..s };
    lemma_calls(p, p.config.peers.len() as int);
    let b = broadcast(p);
    laws::lemma_commit_rule(b, b.log.len() as int);
    if s.config.peers.len() == 0 && s.matched.dom().finite() {
        lemma_commits_by_majority(b, Set::empty(), b.log.len() as int);
    }
}

// ---- following -------------------------------------------------------------------------------

/// A message of a later term makes a node follow in that term, whatever it was, and
/// wait anew; it has no vote in it yet but the one that it may give to the sender,
/// knows of a leader only if the sender is one, and has this on record. What it has
/// committed it keeps.
pub proof fn lemma_steps_down(s: NodeView, msg: MessageView)
    requires
        s.wf(),
        s.log.len() <= u64::MAX,
        msg.term > s.term,
    ensures
        ({
            let t = stepped(s, msg);
            &&& t.role == Role::Follower && t.term == msg.term && t.elapsed == 0
            &&& t.saved.term == msg.term && t.saved.vote == t.vote
            &&& t.vote is None || t.vote == Some(msg.from) && msg.body is RequestVote
            &&& msg.body is AppendEntries ==> t.leader == Some(msg.from)
            &&& !(msg.body is AppendEntries) ==> t.leader is None && t.log == s.log && t.commit
                == s.commit
            &&& t.commit >= s.commit && t.applied == s.applied
            &&& !(msg.body is AppendEntries || msg.body is RequestVote) ==> t.outbox == s.outbox
        }),
{
    laws::lemma_step_keeps(s, msg);
}

/// A message of the node's term that is not for its role changes nothing: answers to
/// entries are for leaders, and votes for candidates.
pub proof fn lemma_not_concerned(s: NodeView, msg: MessageView)
    requires
        msg.term == s.term,
        (msg.body is AppendResponse && s.role != Role::Leader) || (msg.body is VoteResponse
            && s.role != Role::Candidate) || msg.body is InstallSnapshot
            || msg.body is InstallSnapshotResponse,
    ensures
        stepped(s, msg) == s,
{
}

/// A candidate keeps count of its answers, and leads as soon as those that gave it
/// their votes are more than half of the cluster; until then nothing else changes.
pub proof fn lemma_counts_votes(s: NodeView, msg: MessageView, q: Set<NodeId>)
    requires
        s.role == Role::Candidate,
        msg.term == s.term,
        msg.body is VoteResponse,
        s.votes.dom().finite(),
        forall|p: NodeId|
            q.contains(p) <==> if p == msg.from {
                msg.body == (BodyView::VoteResponse { granted: true })
            } else {
                s.votes.contains_key(p) && s.votes[p]
            },
    ensures
        ({
            let t = stepped(s, msg);
            let all = s.config.peers.len() + 1;
            &&& t.role == Role::Leader <==> 2 * q.len() > all
            &&& 2 * q.len() <= all ==> t == (NodeView {
                votes: s.votes.insert(msg.from, msg.body == (BodyView::VoteResponse { granted: true })),
                ..s
            })
            &&& t.term == s.term && t.log == s.log && t.vote == s.vote
        }),
{
    let granted = msg.body == (BodyView::VoteResponse { granted: true });
    let v = NodeView { votes: s.votes.insert(msg.from, granted), ..s };
    assert(nodes_with(v.votes, given()) =~= q);
    if has_majority(v) {
        lemma_new_leader(v, 0);
    }
}

/// A message with entries of the node's term or a later one makes a node that does
/// not lead in that term follow its sender, and wait anew.
pub proof fn lemma_hears_leader(s: NodeView, msg: MessageView)
    requires
        msg.body is AppendEntries,
        msg.term >= s.term,
        s.role != Role::Leader || msg.term > s.term,
    ensures
        stepped(s, msg).role == Role::Follower,
        stepped(s, msg).term == msg.term,
        stepped(s, msg).leader == Some(msg.from),
        stepped(s, msg).elapsed == 0,
        msg.term > s.term ==> stepped(s, msg).vote is None,
        msg.term == s.term ==> stepped(s, msg).vote == s.vote,
{
}

/// The log has the entry that the sender takes to be there.
pub open spec fn fits_behind(log: Seq<EntryView>, prev: LogIndex, term: Term) -> bool {
    prev == 0 || (prev <= log.len() && log[prev - 1].term == term)
}

/// Up to where the entries and the log are of the same terms.
pub open spec fn no_conflict(log: Seq<EntryView>, prev: LogIndex, es: Seq<EntryView>) -> bool {
    forall|i: int|
        0 <= i < es.len() && prev + i < log.len() ==> log[prev + i].term == (#[trigger] es[i]).term
}

/// Entries from a leader are taken on exactly if the log has the entry before them,
/// and refused otherwise. Then the log has each of them in its place, what came
/// before them is untouched, what comes behind them is lost only if one of them took
/// the place of another, and the answer names the place of the last one. The node has
/// then committed what the leader has, as far as that place.
pub proof fn lemma_takes_entries(
    s: NodeView,
    from: NodeId,
    term: Term,
    prev: LogIndex,
    prev_term: Term,
    es: Seq<EntryView>,
    leader_commit: LogIndex,
)
    requires
        term >= s.term,
        s.role != Role::Leader || term > s.term,
        s.log.len() <= u64::MAX,
        prev + es.len() <= u64::MAX,
        forall|i: int| 0 <= i < es.len() ==> (#[trigger] es[i]).index == prev + 1 + i,
    ensures
        ({
            let msg = MessageView {
                from,
                to: s.id,
                term,
                body: BodyView::AppendEntries {
                    prev_log_index: prev,
                    prev_log_term: prev_term,
                    entries: es,
                    leader_commit,
                },
            };
            let t = stepped(s, msg);
            let ok = fits_behind(s.log, prev, prev_term);
            let end = prev + es.len();
            let upto = if leader_commit <= end {
                leader_commit as int
            } else {
                end
            };
            &&& t.outbox == s.outbox.push(
                MessageView {
                    from: s.id,
                    to: from,
                    term,
                    body: BodyView::AppendResponse {
                        success: ok,
                        match_index: if ok {
                            end as u64
                        } else {
                            0
                        },
                    },
                },
            )
            &&& !ok ==> t.log == s.log && t.commit == s.commit
            &&& ok ==> {
                &&& t.log.len() >= end
                &&& t.log.take(prev as int) == s.log.take(prev as int)
                &&& forall|i: int|
                    0 <= i < es.len() ==> t.log[prev + i].term == (#[trigger] es[i]).term
                &&& forall|i: int|
                    0 <= i < es.len() && !(prev + i < s.log.len() && s.log[prev + i].term
                        == es[i].term) ==> t.log[prev + i] == #[trigger] es[i]
                &&& no_conflict(s.log, prev, es) ==> t.log.len() >= s.log.len() && t.log.take(
                    s.log.len() as int,
                ) == s.log
                &&& !no_conflict(s.log, prev, es) ==> t.log.len() == end
                &&& t.commit == (if upto > s.commit {
                    upto
                } else {
                    s.commit as int
                })
                &&& t.commit > s.commit ==> t.saved.commit == t.commit
            }
        }),
{
    let msg = MessageView {
        from,
        to: s.id,
        term,
        body: BodyView::AppendEntries {
            prev_log_index: prev,
            prev_log_term: prev_term,
            entries: es,
            leader_commit,
        },
    };
    let t = stepped(s, msg);
    if fits_behind(s.log, prev, prev_term) {
        let k = lemma_lacking(s.log, es);
        let r = es.skip(k);
        if k > 0 {
            assert(has_entry(s.log, es[k - 1]));
        }
        if k < es.len() {
            assert(r[0] == es[k]);
            assert(t.log == s.log.take(prev + k) + r);
        } else {
            assert(t.log == s.log);
        }
        assert forall|i: int| 0 <= i < es.len() implies t.log[prev + i].term == (
        #[trigger] es[i]).term && (!(prev + i < s.log.len() && s.log[prev + i].term == es[i].term)
            ==> t.log[prev + i] == es[i]) by {
            if i < k {
                assert(has_entry(s.log, es[i]));
            } else {
                assert(t.log[prev + i] == r[i - k]);
            }
        }
        assert(t.log.take(prev as int) =~= s.log.take(prev as int));
        if no_conflict(s.log, prev, es) {
            if k < es.len() {
                assert(!has_entry(s.log, es[k]));
                assert(prev + k >= s.log.len());
            }
            assert(t.log.take(s.log.len() as int) =~= s.log);
        } else {
            let i = choose|i: int|
                0 <= i < es.len() && prev + i < s.log.len() && s.log[prev + i].term != (
                #[trigger] es[i]).term;
            if i < k {
                assert(has_entry(s.log, es[i]));
            }
        }
    }
}

// ---- handing out -----------------------------------------------------------------------------

/// What is ready to be applied is what is committed and not applied, no more and no
/// less.
pub proof fn lemma_ready(s: NodeView)
    requires
        s.applied <= s.commit <= s.log.len(),
        s.commit < u64::MAX,
    ensures
        to_apply(s) == s.log.subrange(s.applied as int, s.commit as int),
        drained(s).outbox.len() == 0,
        drained(s).log == s.log && drained(s).commit == s.commit && drained(s).applied == s.applied,
{
    assert(to_apply(s) =~= s.log.subrange(s.applied as int, s.commit as int));
}

// ---- the log in the storage ------------------------------------------------------------------

/// What is read of a log are the entries from one place up to another, as far as there
/// are any.
pub proof fn lemma_reads_range(log: Seq<EntryView>, low: int, high: int, i: int)
    requires
        1 <= low,
    ensures
        log_range(log, low, high).len() == (if high <= low || log.len() < low {
            0
        } else if high <= log.len() + 1 {
            high - low
        } else {
            log.len() - low + 1
        }),
        0 <= i < log_range(log, low, high).len() ==> log_range(log, low, high)[i] == log[low - 1
            + i],
{
}

/// Entries that are taken in are read back, what stands before them is untouched, and
/// nothing stands behind them; entries that would leave a gap, or have no place, are
/// not taken in.
pub proof fn lemma_appended_read_back(log: Seq<EntryView>, es: Seq<EntryView>)
    requires
        es.len() > 0,
    ensures
        attaches(log, es) <==> 1 <= es[0].index <= log.len() + 1,
        attaches(log, es) ==> {
            let n = spliced(log, es);
            &&& n.len() == es[0].index - 1 + es.len()
            &&& log_range(n, es[0].index as int, es[0].index + es.len()) == es
            &&& n.take(es[0].index - 1) == log.take(es[0].index - 1)
        },
        spliced(log, seq![]) == log,
{
    let n = spliced(log, es);
    if attaches(log, es) {
        assert(log_range(n, es[0].index as int, es[0].index + es.len()) =~= es);
        assert(n.take(es[0].index - 1) =~= log.take(es[0].index - 1));
    }
}

// ---- what is put on record ---------------------------------------------------------------

/// Whatever the node has put on record since it was `s` it will hand out.
pub open spec fn tells(s: NodeView, t: NodeView) -> bool {
    t.news == Some(t.saved) || t.news == s.news && t.saved == s.saved
}

proof fn lemma_asked_frame(s: NodeView, n: int)
    ensures
        asked(s, n) == (NodeView { outbox: asked(s, n).outbox, ..s }),
    decreases n,
{
    if n > 0 {
        lemma_asked_frame(s, n - 1);
    }
}

proof fn lemma_leading_tells(s: NodeView)
    ensures
        tells(s, leading(s)),
{
    let f = NodeView {
        role: Role::Leader,
        leader: Some(s.id),
        elapsed: 0,
        next: same_for_all(s.config.peers, behind(s.log)),
        matched: same_for_all(s.config.peers, 0),
        ..s
    };
    lemma_calls(f, f.config.peers.len() as int);
}

/// Term, vote and commit are on record before anything is sent that rests on them:
/// what is on record is what the node goes by, and if it changed since the node was
/// last asked, it is handed out.
pub proof fn lemma_puts_on_record(s: NodeView, msg: MessageView, data: Seq<u8>)
    requires
        s.wf(),
        s.log.len() < u64::MAX,
        s.term < u64::MAX,
    ensures
        tells(s, ticked(s)),
        tells(s, stepped(s, msg)),
        s.role == Role::Leader ==> tells(s, proposed(s, data)),
        ticked(s).saved == (HardState {
            term: ticked(s).term,
            vote: ticked(s).vote,
            commit: ticked(s).commit,
        }),
        stepped(s, msg).saved == (HardState {
            term: stepped(s, msg).term,
            vote: stepped(s, msg).vote,
            commit: stepped(s, msg).commit,
        }),
        s.role == Role::Leader ==> proposed(s, data).saved == (HardState {
            term: s.term,
            vote: s.vote,
            commit: proposed(s, data).commit,
        }),
        drained(s).news is None,
        drained(s).saved == s.saved,
{
    let n = s.config.peers.len() as int;
    let t = NodeView { elapsed: (s.elapsed + 1) as u32, ..s };
    lemma_calls(t, n);
    let f = persisted(
        NodeView {
            role: Role::Candidate,
            term: (t.term + 1) as u64,
            vote: Some(t.id),
            votes: Map::<NodeId, bool>::empty().insert(t.id, true),
            elapsed: 0,
            leader: None,
            ..t
        },
    );
    lemma_asked_frame(f, n);
    lemma_leading_tells(asked(f, n));
    laws::lemma_tick_keeps(s);
    laws::lemma_step_keeps(s, msg);
    if let BodyView::VoteResponse { granted } = msg.body {
        lemma_leading_tells(NodeView { votes: s.votes.insert(msg.from, granted), ..s });
    }
    if s.role == Role::Leader {
        laws::lemma_propose_keeps(s, data);
        lemma_calls(NodeView { log: s.log.push(proposed_entry(s, data)), ..s }, n);
    }
}

} // verus!
