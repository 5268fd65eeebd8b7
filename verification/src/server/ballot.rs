//! Who can win an election.
//!
//! A vote is owed to every candidate whose log is at least as up to date. Of any
//! nodes one is at least as up to date as all others; if they are more than half of
//! the cluster, that one wins with their votes.

use vstd::prelude::*;

use crate::raft::peers::{given, nodes_with};
use crate::raft::sends;
use crate::raft::state::{
    asked, behind, counted, has_majority, leading, persisted, same_for_all, stepped, ticked,
    NodeView, Role,
};
use crate::raft::types::{BodyView, EntryView, MessageView};
use crate::server::cluster_state::stepped_all;
use crate::types::{NodeId, Term};

verus! {

/// The term of the last entry; of an empty log zero.
pub open spec fn last_term(log: Seq<EntryView>) -> Term {
    if log.len() == 0 {
        0
    } else {
        log.last().term
    }
}

/// The first log is at least as up to date as the second: its last entry is of a
/// later term, or of the same one and not at an earlier place.
pub open spec fn as_recent(a: Seq<EntryView>, b: Seq<EntryView>) -> bool {
    last_term(a) > last_term(b) || (last_term(a) == last_term(b) && a.len() >= b.len())
}

/// Of two logs one is at least as up to date as the other, and what is at least as
/// up to date as a log is so too as whatever that log is.
pub proof fn lemma_recent_order(a: Seq<EntryView>, b: Seq<EntryView>, c: Seq<EntryView>)
    ensures
        as_recent(a, b) || as_recent(b, a),
        as_recent(a, b) && as_recent(b, c) ==> as_recent(a, c),
        as_recent(a, a),
{
}

/// The request of a candidate with this log.
pub open spec fn request(from: NodeId, to: NodeId, term: Term, log: Seq<EntryView>) -> MessageView {
    MessageView {
        from,
        to,
        term,
        body: BodyView::RequestVote {
            last_log_index: log.len() as u64,
            last_log_term: last_term(log),
        },
    }
}

/// The answer to a request.
pub open spec fn reply(from: NodeId, to: NodeId, term: Term, granted: bool) -> MessageView {
    MessageView { from, to, term, body: BodyView::VoteResponse { granted } }
}

/// A request of the node's term, or of a later one, is always answered. The vote is
/// given exactly if the candidate's log is at least as up to date as the node's, and
/// the node has not voted for another one in that term; and then it is kept, and
/// the node waits anew.
pub proof fn lemma_vote_owed(s: NodeView, from: NodeId, term: Term, log: Seq<EntryView>)
    requires
        s.log.len() <= u64::MAX,
        log.len() <= u64::MAX,
        term >= s.term,
    ensures
        ({
            let t = stepped(s, request(from, s.id, term, log));
            let free = term > s.term || s.vote is None || s.vote == Some(from);
            &&& t.outbox == s.outbox.push(reply(s.id, from, term, free && as_recent(log, s.log)))
            &&& t.term == term
            &&& t.log == s.log
            &&& free && as_recent(log, s.log) ==> t.vote == Some(from) && t.saved.vote == Some(from)
                && t.elapsed == 0
            &&& term == s.term ==> t.role == s.role && t.leader == s.leader
            &&& term == s.term && !(free && as_recent(log, s.log)) ==> t.vote == s.vote
                && t.elapsed == s.elapsed && t.saved == s.saved
            &&& t.commit == s.commit && t.applied == s.applied
            &&& term > s.term && !as_recent(log, s.log) ==> t.vote is None
        }),
{
}

/// The answers of voters to a candidate.
pub open spec fn replies(voters: Seq<NodeView>, c: NodeView) -> Seq<MessageView> {
    Seq::new(
        voters.len(),
        |i: int| stepped(voters[i], request(c.id, voters[i].id, c.term, c.log)).outbox.last(),
    )
}

/// A node whose patience has ended asks every peer with its log.
pub proof fn lemma_asks_all(s: NodeView, p: int)
    requires
        s.role != Role::Leader,
        s.elapsed + 1 >= s.config.election_timeout,
        s.elapsed < u32::MAX,
        s.term < u64::MAX,
        0 <= p < s.config.peers.len(),
    ensures
        ticked(s).term == s.term + 1,
        ticked(s).vote == Some(s.id),
        ticked(s).log == s.log,
        ticked(s).role != Role::Follower,
        ticked(s).outbox.contains(
            request(s.id, s.config.peers[p], (s.term + 1) as u64, s.log),
        ),
{
    let t = NodeView { elapsed: (s.elapsed + 1) as u32, ..s };
    let f = fresh(t);
    let n = s.config.peers.len() as int;
    lemma_asked_each(f, n, p);
    let a = asked(f, n);
    assert(ticked(s) == counted(a));
    sends::lemma_leading_honest(a);
    let r = request(s.id, s.config.peers[p], (s.term + 1) as u64, s.log);
    let k = a.outbox.index_of(r);
    if has_majority(a) {
        lemma_leading_log(a);
        assert(leading(a).outbox[k] == r);
    }
}

spec fn fresh(t: NodeView) -> NodeView {
    persisted(
        NodeView {
            role: Role::Candidate,
            term: (t.term + 1) as u64,
            vote: Some(t.id),
            votes: Map::<NodeId, bool>::empty().insert(t.id, true),
            elapsed: 0,
            leader: None,
            ..t
        },
    )
}

proof fn lemma_leading_log(s: NodeView)
    ensures
        leading(s).log == s.log,
        leading(s).term == s.term,
        leading(s).id == s.id,
{
    let f = NodeView {
        role: Role::Leader,
        leader: Some(s.id),
        elapsed: 0,
        next: same_for_all(s.config.peers, behind(s.log)),
        matched: same_for_all(s.config.peers, 0),
        ..s
    };
    sends::lemma_sent_honest(f, f.config.peers.len() as int);
}

proof fn lemma_asked_each(s: NodeView, n: int, p: int)
    requires
        0 <= p < n <= s.config.peers.len(),
    ensures
        asked(s, n).outbox.contains(request(s.id, s.config.peers[p], s.term, s.log)),
        asked(s, n) == (NodeView { outbox: asked(s, n).outbox, ..s }),
    decreases n,
{
    let r = request(s.id, s.config.peers[p], s.term, s.log);
    sends::lemma_asked_honest(s, n);
    sends::lemma_asked_honest(s, n - 1);
    let o = asked(s, n).outbox;
    if p < n - 1 {
        lemma_asked_each(s, n - 1, p);
        let k = asked(s, n - 1).outbox.index_of(r);
        assert(o[k] == r);
    } else {
        assert(o.last() == r);
        assert(o[o.len() - 1] == r);
    }
}

/// A node that stands for election wins as soon as it has the answers of nodes that
/// are more than half of the cluster together with it, have not come to its term,
/// and have logs that are not more up to date.
pub proof fn lemma_can_win(s: NodeView, voters: Seq<NodeView>)
    requires
        s.role != Role::Leader,
        s.elapsed + 1 >= s.config.election_timeout,
        s.elapsed < u32::MAX,
        s.term < u64::MAX,
        s.log.len() <= u64::MAX,
        2 * (voters.len() + 1) > s.config.peers.len() + 1,
        forall|i: int|
            0 <= i < voters.len() ==> (#[trigger] voters[i]).id != s.id && voters[i].term <= s.term
                && voters[i].log.len() <= u64::MAX && as_recent(s.log, voters[i].log),
        forall|i: int, j: int|
            0 <= i < j < voters.len() ==> (#[trigger] voters[i]).id != (#[trigger] voters[j]).id,
    ensures
        stepped_all(ticked(s), replies(voters, ticked(s))).role == Role::Leader,
        stepped_all(ticked(s), replies(voters, ticked(s))).term == s.term + 1,
        stepped_all(ticked(s), replies(voters, ticked(s))).log == s.log,
{
    let t = ticked(s);
    let n = voters.len() as int;
    let u = NodeView { elapsed: (s.elapsed + 1) as u32, ..s };
    let f = fresh(u);
    let p = s.config.peers.len() as int;
    sends::lemma_asked_honest(f, p);
    let a = asked(f, p);
    assert(t == counted(a));
    if has_majority(a) {
        lemma_leading_log(a);
        sends::lemma_leading_honest(a);
    }
    let w = nodes_with(a.votes, given());
    assert(w =~= Set::<NodeId>::empty().insert(s.id));
    let all = replies(voters, t);
    assert(all.take(n) =~= all);
    lemma_votes_come(s, voters, n);
    let r = stepped_all(t, all);
    if r.role == Role::Candidate {
        assert(has_majority(r));
    }
}

/// The nodes that have answered, and the candidate.
spec fn answered_by(s: NodeView, voters: Seq<NodeView>, k: int) -> Set<NodeId>
    decreases k,
{
    if k <= 0 {
        Set::empty().insert(s.id)
    } else {
        answered_by(s, voters, k - 1).insert(voters[k - 1].id)
    }
}

proof fn lemma_answered_by(s: NodeView, voters: Seq<NodeView>, k: int)
    requires
        0 <= k <= voters.len(),
        forall|i: int| 0 <= i < voters.len() ==> (#[trigger] voters[i]).id != s.id,
        forall|i: int, j: int|
            0 <= i < j < voters.len() ==> (#[trigger] voters[i]).id != (#[trigger] voters[j]).id,
    ensures
        answered_by(s, voters, k).finite(),
        answered_by(s, voters, k).len() == k + 1,
        forall|v: NodeId| #[trigger]
            answered_by(s, voters, k).contains(v) ==> v == s.id || exists|i: int|
                0 <= i < k && (#[trigger] voters[i]).id == v,
    decreases k,
{
    if k > 0 {
        lemma_answered_by(s, voters, k - 1);
        let d = answered_by(s, voters, k - 1);
        let x = voters[k - 1].id;
        assert(!d.contains(x)) by {
            if d.contains(x) {
                let i = choose|i: int| 0 <= i < k - 1 && (#[trigger] voters[i]).id == x;
                assert(voters[i].id != voters[k - 1].id);
            }
        }
        assert forall|v: NodeId| #[trigger] answered_by(s, voters, k).contains(v) implies v == s.id
            || exists|i: int| 0 <= i < k && (#[trigger] voters[i]).id == v by {
            if v == x {
                assert(voters[k - 1].id == v);
            } else if v != s.id {
                let i = choose|i: int| 0 <= i < k - 1 && (#[trigger] voters[i]).id == v;
                assert(voters[i].id == v);
            }
        }
    }
}

/// After so many answers the node leads, or it has as many votes and not enough.
proof fn lemma_votes_come(s: NodeView, voters: Seq<NodeView>, k: int)
    requires
        s.role != Role::Leader,
        s.elapsed + 1 >= s.config.election_timeout,
        s.elapsed < u32::MAX,
        s.term < u64::MAX,
        s.log.len() <= u64::MAX,
        0 <= k <= voters.len(),
        forall|i: int|
            0 <= i < voters.len() ==> (#[trigger] voters[i]).id != s.id && voters[i].term <= s.term
                && voters[i].log.len() <= u64::MAX && as_recent(s.log, voters[i].log),
        forall|i: int, j: int|
            0 <= i < j < voters.len() ==> (#[trigger] voters[i]).id != (#[trigger] voters[j]).id,
    ensures
        ({
            let r = stepped_all(ticked(s), replies(voters, ticked(s)).take(k));
            &&& r.term == s.term + 1
            &&& r.id == s.id
            &&& r.log == s.log
            &&& r.config == s.config
            &&& r.role == Role::Leader || (r.role == Role::Candidate && !has_majority(r)
                && nodes_with(r.votes, given()) == answered_by(s, voters, k))
            &&& nodes_with(r.votes, given()).len() >= r.config.majority() || r.role
                == Role::Candidate
            &&& r.role == Role::Candidate ==> k + 1 < r.config.majority()
        }),
    decreases k,
{
    let t = ticked(s);
    let all = replies(voters, t);
    let u = NodeView { elapsed: (s.elapsed + 1) as u32, ..s };
    let f = fresh(u);
    let p = s.config.peers.len() as int;
    sends::lemma_asked_honest(f, p);
    let a = asked(f, p);
    assert(t == counted(a));
    if has_majority(a) {
        lemma_leading_log(a);
        sends::lemma_leading_honest(a);
    }
    assert(t.term == s.term + 1 && t.id == s.id && t.log == s.log && t.config == s.config);
    lemma_answered_by(s, voters, k);
    if k == 0 {
        assert(all.take(0) =~= Seq::<MessageView>::empty());
        assert(nodes_with(a.votes, given()) =~= answered_by(s, voters, 0));
    } else {
        lemma_votes_come(s, voters, k - 1);
        let m = all[k - 1];
        let v = voters[k - 1];
        let b = stepped_all(t, all.take(k - 1));
        let r = stepped_all(t, all.take(k));
        assert(all.take(k).drop_last() =~= all.take(k - 1));
        assert(all.take(k).last() == m);
        lemma_vote_owed(v, s.id, t.term, s.log);
        assert(m == reply(v.id, s.id, t.term, true));
        assert(r == stepped(b, m));
        if b.role == Role::Candidate {
            let w = NodeView { votes: b.votes.insert(v.id, true), ..b };
            assert(nodes_with(w.votes, given()) =~= answered_by(s, voters, k)) by {
                assert forall|x: NodeId|
                    nodes_with(w.votes, given()).contains(x) <==> answered_by(s, voters, k).contains(
                        x,
                    ) by {
                    assert(nodes_with(b.votes, given()).contains(x) <==> answered_by(
                        s,
                        voters,
                        k - 1,
                    ).contains(x));
                }
            }
            if has_majority(w) {
                lemma_leading_log(w);
                sends::lemma_leading_honest(w);
            }
        }
    }
}

/// Of any nodes one has a log that is at least as up to date as those of all
/// others.
pub proof fn lemma_most_recent(nodes: Seq<NodeView>) -> (i: int)
    requires
        nodes.len() > 0,
    ensures
        0 <= i < nodes.len(),
        forall|j: int| 0 <= j < nodes.len() ==> as_recent(nodes[i].log, (#[trigger] nodes[j]).log),
    decreases nodes.len(),
{
    if nodes.len() == 1 {
        0
    } else {
        let d = nodes.drop_last();
        let k = lemma_most_recent(d);
        let n = nodes.len() - 1;
        let i = if as_recent(nodes[k].log, nodes[n].log) {
            k
        } else {
            n
        };
        assert forall|j: int| 0 <= j < nodes.len() implies as_recent(
            nodes[i].log,
            (#[trigger] nodes[j]).log,
        ) by {
            if j < n {
                assert(as_recent(d[k].log, d[j].log));
                lemma_recent_order(nodes[n].log, nodes[k].log, nodes[j].log);
            }
        }
        i
    }
}

} // verus!
