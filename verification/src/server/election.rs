//! In a cluster no term has two leaders.
//!
//! What is followed are votes: a vote shows in the tally of a candidate, or in
//! an answer that is still on its way. A node gives one vote in a term, so no
//! two candidates can both show the vote of one node in one term; and a leader
//! shows the votes of more than half of the cluster.

use vstd::prelude::*;

use crate::raft::laws;
use crate::raft::peers::{given, nodes_with};
use crate::raft::sends::{
    honest, lemma_asked_honest, lemma_honest_on, lemma_leading_honest, lemma_sent_honest,
    lemma_step_honest,
};
use crate::raft::state::{
    asked, caught_up, has_majority, leading, persisted, proposed, proposed_entry, stepped, NodeView,
    Role,
};
use crate::raft::types::{BodyView, MessageView};
use crate::server::cluster_state::{
    self, after_round, all_delivered, all_sent, all_settled, all_ticked, all_worked, fresh_cluster,
    fresh_member, others, sends, stepped_all, ticked_member, worked, ClusterView, MemberView,
};
use crate::types::{NodeId, Term};

verus! {

/// The message is an answer by which `voter` gives `candidate` its vote in `term`.
pub open spec fn carries(m: MessageView, voter: NodeId, term: Term, candidate: NodeId) -> bool {
    m.from == voter && m.to == candidate && m.term == term && m.body == (BodyView::VoteResponse {
        granted: true,
    })
}

/// Some message of the list carries the vote.
pub open spec fn carried(
    msgs: Seq<MessageView>,
    voter: NodeId,
    term: Term,
    candidate: NodeId,
) -> bool {
    exists|i: int| 0 <= i < msgs.len() && carries(#[trigger] msgs[i], voter, term, candidate)
}

/// The node shows the vote of `voter` in its own tally.
pub open spec fn tallied(s: NodeView, voter: NodeId, term: Term) -> bool {
    s.role != Role::Follower && s.term == term && s.votes.contains_key(voter) && s.votes[voter]
}

/// The vote shows at this member: in its tally, in its inbox or in its outbox.
pub open spec fn shown_at(m: MemberView, voter: NodeId, term: Term, candidate: NodeId) -> bool {
    ||| m.id == candidate && tallied(m.node, voter, term)
    ||| carried(m.inbox, voter, term, candidate)
    ||| carried(m.node.outbox, voter, term, candidate)
}

/// The vote shows at some member, or on its way.
pub open spec fn shown(
    ms: Seq<MemberView>,
    flight: Seq<MessageView>,
    voter: NodeId,
    term: Term,
    candidate: NodeId,
) -> bool {
    ||| exists|i: int| 0 <= i < ms.len() && shown_at(#[trigger] ms[i], voter, term, candidate)
    ||| carried(flight, voter, term, candidate)
}

/// The node stands by its vote: it is in a later term, or it has saved it.
pub open spec fn stands_by(s: NodeView, term: Term, candidate: NodeId) -> bool {
    s.term > term || (s.term == term && s.vote == Some(candidate))
}

/// Some member is `voter` and stands by its vote.
pub open spec fn given_by(
    ms: Seq<MemberView>,
    voter: NodeId,
    term: Term,
    candidate: NodeId,
) -> bool {
    exists|i: int|
        0 <= i < ms.len() && (#[trigger] ms[i]).id == voter && stands_by(
            ms[i].node,
            term,
            candidate,
        )
}

/// The member is sound; what is in its inbox is for it; its configuration has
/// everybody else; and if it leads, its tally has more than half of the votes.
pub open spec fn member_ok(m: MemberView, n: int) -> bool {
    &&& m.node.wf()
    &&& m.node.id == m.id
    &&& m.node.log.len() <= u64::MAX
    &&& m.node.config.peers.len() + 1 == n
    &&& forall|i: int| 0 <= i < m.inbox.len() ==> (#[trigger] m.inbox[i]).to == m.id
    &&& m.node.role == Role::Leader ==> has_majority(m.node)
}

/// Every member has a number of its own.
pub open spec fn ids_apart(ms: Seq<MemberView>) -> bool {
    forall|i: int, j: int| 0 <= i < j < ms.len() ==> (#[trigger] ms[i]).id != (#[trigger] ms[j]).id
}

/// Every vote that shows was given, and no node shows to have given two votes
/// in one term.
pub open spec fn votes_agree(ms: Seq<MemberView>, flight: Seq<MessageView>) -> bool {
    &&& ids_apart(ms)
    &&& forall|i: int| 0 <= i < ms.len() ==> member_ok(#[trigger] ms[i], ms.len() as int)
    &&& forall|v: NodeId, t: Term, c: NodeId| #[trigger]
        shown(ms, flight, v, t, c) ==> given_by(ms, v, t, c)
    &&& forall|v: NodeId, t: Term, c: NodeId, d: NodeId|
        #[trigger] shown(ms, flight, v, t, c) && #[trigger] shown(ms, flight, v, t, d) ==> c == d
}

/// Votes agree everywhere in the cluster.
pub open spec fn fair(c: ClusterView) -> bool {
    votes_agree(c.members, seq![])
}

/// If the votes agree, no term has two leaders.
pub proof fn lemma_one_leader(c: ClusterView, i: int, j: int)
    requires
        fair(c),
        0 <= i < c.members.len(),
        0 <= j < c.members.len(),
        c.members[i].node.role == Role::Leader,
        c.members[j].node.role == Role::Leader,
        c.members[i].node.term == c.members[j].node.term,
    ensures
        i == j,
{
    let ms = c.members;
    let none = Seq::<MessageView>::empty();
    let n = ms.len();
    let ids = Seq::new(n, |k: int| ms[k].id);
    let cluster = ids.to_set();
    assert(member_ok(ms[i], n as int));
    assert(member_ok(ms[j], n as int));
    assert(ids.no_duplicates()) by {
        assert forall|a: int, b: int| 0 <= a < b < n implies ids[a] != ids[b] by {
            assert(ms[a].id != ms[b].id);
        }
    }
    ids.unique_seq_to_set();
    let t = ms[i].node.term;
    let a = nodes_with(ms[i].node.votes, given());
    let b = nodes_with(ms[j].node.votes, given());
    assert forall|v: NodeId| a.contains(v) implies cluster.contains(v) by {
        assert(shown_at(ms[i], v, t, ms[i].id));
        assert(shown(ms, none, v, t, ms[i].id));
        let k = choose|k: int|
            0 <= k < ms.len() && (#[trigger] ms[k]).id == v && stands_by(ms[k].node, t, ms[i].id);
        assert(ids[k] == v);
    }
    assert forall|v: NodeId| b.contains(v) implies cluster.contains(v) by {
        assert(shown_at(ms[j], v, t, ms[j].id));
        assert(shown(ms, none, v, t, ms[j].id));
        let k = choose|k: int|
            0 <= k < ms.len() && (#[trigger] ms[k]).id == v && stands_by(ms[k].node, t, ms[j].id);
        assert(ids[k] == v);
    }
    // both configurations have as many peers, so the majorities are the same
    laws::lemma_majorities_meet(cluster, a, b, ms[i].node.config);
    let v = choose|v: NodeId| a.contains(v) && b.contains(v);
    assert(shown_at(ms[i], v, t, ms[i].id));
    assert(shown_at(ms[j], v, t, ms[j].id));
    assert(shown(ms, none, v, t, ms[i].id));
    assert(shown(ms, none, v, t, ms[j].id));
    if i < j {
        assert(ms[i].id != ms[j].id);
    } else if j < i {
        assert(ms[j].id != ms[i].id);
    }
}

// ---- one member at a time ------------------------------------------------------------

/// From `m` to `n`: the member is who it was, keeps what a step keeps, and shows
/// no vote that did not show before, unless it is its own, which it then stands by.
pub open spec fn moves(
    ms: Seq<MemberView>,
    flight: Seq<MessageView>,
    m: MemberView,
    n: MemberView,
) -> bool {
    &&& n.id == m.id
    &&& member_ok(n, ms.len() as int)
    &&& n.node.term >= m.node.term
    &&& n.node.term == m.node.term && m.node.vote is Some ==> n.node.vote == m.node.vote
    &&& forall|v: NodeId, t: Term, c: NodeId| #[trigger]
        shown_at(n, v, t, c) ==> shown(ms, flight, v, t, c) || (v == m.id && t == n.node.term
            && n.node.vote == Some(c))
}

proof fn lemma_member_moves(
    ms: Seq<MemberView>,
    flight: Seq<MessageView>,
    i: int,
    n: MemberView,
)
    requires
        votes_agree(ms, flight),
        0 <= i < ms.len(),
        moves(ms, flight, ms[i], n),
    ensures
        votes_agree(ms.update(i, n), flight),
{
    let m = ms[i];
    let ns = ms.update(i, n);
    assert(ids_apart(ns)) by {
        assert forall|a: int, b: int| 0 <= a < b < ns.len() implies (#[trigger] ns[a]).id != (
        #[trigger] ns[b]).id by {
            assert(ms[a].id != ms[b].id);
        }
    }
    assert forall|k: int| 0 <= k < ns.len() implies member_ok(
        #[trigger] ns[k],
        ns.len() as int,
    ) by {
        assert(member_ok(ms[k], ms.len() as int));
    }
    // what shows now showed before, or is the member's own vote
    assert forall|v: NodeId, t: Term, c: NodeId| #[trigger] shown(ns, flight, v, t, c) implies shown(
        ms,
        flight,
        v,
        t,
        c,
    ) || (v == m.id && t == n.node.term && n.node.vote == Some(c)) by {
        if !carried(flight, v, t, c) {
            let k = choose|k: int| 0 <= k < ns.len() && shown_at(#[trigger] ns[k], v, t, c);
            if k == i {
                assert(shown_at(n, v, t, c));
            } else {
                assert(shown_at(ms[k], v, t, c));
            }
        }
    }
    // a vote that showed before is still stood by
    assert forall|v: NodeId, t: Term, c: NodeId| shown(ms, flight, v, t, c) implies
        #[trigger] given_by(ns, v, t, c) by {
        assert(given_by(ms, v, t, c));
        let k = choose|k: int|
            0 <= k < ms.len() && (#[trigger] ms[k]).id == v && stands_by(ms[k].node, t, c);
        assert(ns[k].id == v);
        assert(stands_by(ns[k].node, t, c));
    }
    assert forall|v: NodeId, t: Term, c: NodeId| #[trigger] shown(ns, flight, v, t, c) implies
        given_by(ns, v, t, c) by {
        if !shown(ms, flight, v, t, c) {
            assert(ns[i].id == v);
            assert(stands_by(ns[i].node, t, c));
        }
    }
    assert forall|v: NodeId, t: Term, c: NodeId, d: NodeId|
        #[trigger] shown(ns, flight, v, t, c) && #[trigger] shown(ns, flight, v, t, d) implies c
        == d by {
        lemma_own_vote(ms, flight, i, n, v, t, c, d);
        lemma_own_vote(ms, flight, i, n, v, t, d, c);
    }
}

/// A vote that showed before is the member's own one, if that is of the same
/// term.
proof fn lemma_own_vote(
    ms: Seq<MemberView>,
    flight: Seq<MessageView>,
    i: int,
    n: MemberView,
    v: NodeId,
    t: Term,
    c: NodeId,
    d: NodeId,
)
    requires
        votes_agree(ms, flight),
        0 <= i < ms.len(),
        moves(ms, flight, ms[i], n),
    ensures
        shown(ms, flight, v, t, c) && v == ms[i].id && t == n.node.term && n.node.vote == Some(d)
            ==> c == d,
{
    if shown(ms, flight, v, t, c) && v == ms[i].id && t == n.node.term && n.node.vote == Some(d) {
        assert(given_by(ms, v, t, c));
        let k = choose|k: int|
            0 <= k < ms.len() && (#[trigger] ms[k]).id == v && stands_by(ms[k].node, t, c);
        if k < i {
            assert(ms[k].id != ms[i].id);
        } else if i < k {
            assert(ms[i].id != ms[k].id);
        }
    }
}

/// If nobody's vote changes and less shows, the votes still agree.
proof fn lemma_less_shown(
    ms: Seq<MemberView>,
    flight: Seq<MessageView>,
    ns: Seq<MemberView>,
    rest: Seq<MessageView>,
)
    requires
        votes_agree(ms, flight),
        ns.len() == ms.len(),
        forall|i: int|
            0 <= i < ms.len() ==> (#[trigger] ns[i]).id == ms[i].id && ns[i].node.term
                == ms[i].node.term && ns[i].node.vote == ms[i].node.vote,
        forall|i: int| 0 <= i < ns.len() ==> member_ok(#[trigger] ns[i], ns.len() as int),
        forall|v: NodeId, t: Term, c: NodeId| #[trigger]
            shown(ns, rest, v, t, c) ==> shown(ms, flight, v, t, c),
    ensures
        votes_agree(ns, rest),
{
    assert forall|a: int, b: int| 0 <= a < b < ns.len() implies (#[trigger] ns[a]).id != (
    #[trigger] ns[b]).id by {
        assert(ms[a].id != ms[b].id);
    }
    assert forall|v: NodeId, t: Term, c: NodeId| #[trigger] shown(ns, rest, v, t, c) implies given_by(
        ns,
        v,
        t,
        c,
    ) by {
        assert(given_by(ms, v, t, c));
        let k = choose|k: int|
            0 <= k < ms.len() && (#[trigger] ms[k]).id == v && stands_by(ms[k].node, t, c);
        assert(ns[k].id == v);
        assert(stands_by(ns[k].node, t, c));
    }
}

// ---- what a node does ------------------------------------------------------------------

/// What shows of a node that keeps its tally and is honest showed before, or is
/// its own vote.
proof fn lemma_shows(
    ms: Seq<MemberView>,
    flight: Seq<MessageView>,
    i: int,
    n: MemberView,
)
    requires
        0 <= i < ms.len(),
        n.id == ms[i].id,
        n.node.id == n.id,
        honest(ms[i].node, n.node),
        forall|v: NodeId, t: Term|
            tallied(n.node, v, t) ==> #[trigger] tallied(ms[i].node, v, t) || (v == n.id && t
                == n.node.term && n.node.vote == Some(n.id)) || carried(ms[i].inbox, v, t, n.id),
        forall|v: NodeId, t: Term, c: NodeId| #[trigger]
            carried(n.inbox, v, t, c) ==> carried(ms[i].inbox, v, t, c),
    ensures
        forall|v: NodeId, t: Term, c: NodeId| #[trigger]
            shown_at(n, v, t, c) ==> shown(ms, flight, v, t, c) || (v == ms[i].id && t
                == n.node.term && n.node.vote == Some(c)),
{
    let m = ms[i];
    assert forall|v: NodeId, t: Term, c: NodeId| #[trigger] shown_at(n, v, t, c) implies shown(
        ms,
        flight,
        v,
        t,
        c,
    ) || (v == m.id && t == n.node.term && n.node.vote == Some(c)) by {
        if n.id == c && tallied(n.node, v, t) {
            if tallied(m.node, v, t) || carried(m.inbox, v, t, n.id) {
                assert(shown_at(m, v, t, c));
            }
        } else if carried(n.inbox, v, t, c) {
            assert(shown_at(m, v, t, c));
        } else {
            let k = choose|k: int|
                0 <= k < n.node.outbox.len() && carries(#[trigger] n.node.outbox[k], v, t, c);
            if k < m.node.outbox.len() {
                assert(m.node.outbox[k] == n.node.outbox[k]);
                assert(carried(m.node.outbox, v, t, c));
                assert(shown_at(m, v, t, c));
            }
        }
    }
}

// ---- ticks -----------------------------------------------------------------------------

pub proof fn lemma_tick_moves(ms: Seq<MemberView>, i: int)
    requires
        votes_agree(ms, seq![]),
        0 <= i < ms.len(),
        ms[i].alive ==> ms[i].node.term < u64::MAX,
    ensures
        moves(ms, seq![], ms[i], ticked_member(ms[i])),
        votes_agree(ms.update(i, ticked_member(ms[i])), seq![]),
{
    let none = Seq::<MessageView>::empty();
    let m = ms[i];
    let n = ticked_member(m);
    assert(member_ok(m, ms.len() as int));
    if m.alive {
        let s = m.node;
        laws::lemma_tick_keeps(s);
        let t = NodeView { elapsed: (s.elapsed + 1) as u32, ..s };
        if t.elapsed >= t.patience() {
            if s.role == Role::Leader {
                lemma_sent_honest(t, t.config.peers.len() as int);
            } else {
                let fresh = persisted(
                    NodeView {
                        role: Role::Candidate,
                        term: (t.term + 1) as u64,
                        vote: Some(t.id),
                        votes: Map::<NodeId, bool>::empty().insert(t.id, true),
                        elapsed: 0,
                        leader: None,
                        ..t
                    },
                );
                let p = fresh.config.peers.len() as int;
                lemma_asked_honest(fresh, p);
                lemma_leading_honest(asked(fresh, p));
                assert(honest(s, fresh));
                lemma_honest_on(s, fresh, asked(fresh, p));
                if has_majority(asked(fresh, p)) {
                    lemma_honest_on(s, asked(fresh, p), leading(asked(fresh, p)));
                }
            }
        }
        assert(honest(s, n.node));
        lemma_shows(ms, none, i, n);
    } else {
        lemma_stays(ms, none, i);
    }
    assert(moves(ms, none, m, n));
    lemma_member_moves(ms, none, i, n);
}

proof fn lemma_stays(ms: Seq<MemberView>, flight: Seq<MessageView>, i: int)
    requires
        votes_agree(ms, flight),
        0 <= i < ms.len(),
    ensures
        moves(ms, flight, ms[i], ms[i]),
{
    assert(member_ok(ms[i], ms.len() as int));
    assert forall|v: NodeId, t: Term, c: NodeId| #[trigger]
        shown_at(ms[i], v, t, c) implies shown(ms, flight, v, t, c) by {}
}

/// The members, of which the first `n` had a tick.
pub open spec fn partly_ticked(ms: Seq<MemberView>, n: int) -> Seq<MemberView> {
    Seq::new(
        ms.len(),
        |i: int|
            if i < n {
                ticked_member(ms[i])
            } else {
                ms[i]
            },
    )
}

pub proof fn lemma_ticks_fair(ms: Seq<MemberView>, n: int)
    requires
        votes_agree(ms, seq![]),
        0 <= n <= ms.len(),
        forall|i: int|
            0 <= i < ms.len() && (#[trigger] ms[i]).alive ==> ms[i].node.term < u64::MAX,
    ensures
        votes_agree(partly_ticked(ms, n), seq![]),
    decreases n,
{
    if n == 0 {
        assert(partly_ticked(ms, 0) =~= ms);
    } else {
        lemma_ticks_fair(ms, n - 1);
        let prior = partly_ticked(ms, n - 1);
        assert(prior[n - 1] == ms[n - 1]);
        lemma_tick_moves(prior, n - 1);
        assert(prior.update(n - 1, ticked_member(ms[n - 1])) =~= partly_ticked(ms, n));
    }
}

/// Ticks keep the votes in agreement.
pub proof fn lemma_ticked_fair(c: ClusterView)
    requires
        fair(c),
        forall|i: int|
            0 <= i < c.members.len() && (#[trigger] c.members[i]).alive
                ==> c.members[i].node.term < u64::MAX,
    ensures
        fair(all_ticked(c)),
{
    let n = c.members.len() as int;
    lemma_ticks_fair(c.members, n);
    assert(partly_ticked(c.members, n) =~= all_ticked(c).members);
}

// ---- messages --------------------------------------------------------------------------

/// What a message makes of a tally: a vote that it has more than before is what
/// the message says.
proof fn lemma_step_tally(s: NodeView, msg: MessageView)
    requires
        s.role == Role::Leader ==> has_majority(s),
    ensures
        stepped(s, msg).role == Role::Leader ==> has_majority(stepped(s, msg)),
        forall|v: NodeId, t: Term| #[trigger]
            tallied(stepped(s, msg), v, t) ==> tallied(s, v, t) || (msg.from == v && msg.term == t
                && msg.body == (BodyView::VoteResponse { granted: true })),
{
    if msg.term >= s.term {
        let c = caught_up(s, msg);
        if let BodyView::VoteResponse { granted } = msg.body {
            if c.role == Role::Candidate {
                let v = NodeView { votes: c.votes.insert(msg.from, granted), ..c };
                if has_majority(v) {
                    lemma_leading_honest(v);
                }
            }
        }
    }
}

pub proof fn lemma_step_moves(ms: Seq<MemberView>, i: int, k: int)
    requires
        votes_agree(ms, seq![]),
        0 <= i < ms.len(),
        0 <= k < ms[i].inbox.len(),
        stepped(ms[i].node, ms[i].inbox[k]).log.len() <= u64::MAX,
    ensures
        moves(
            ms,
            seq![],
            ms[i],
            MemberView { node: stepped(ms[i].node, ms[i].inbox[k]), ..ms[i] },
        ),
        votes_agree(
            ms.update(i, MemberView { node: stepped(ms[i].node, ms[i].inbox[k]), ..ms[i] }),
            seq![],
        ),
{
    let none = Seq::<MessageView>::empty();
    let m = ms[i];
    let msg = m.inbox[k];
    let n = MemberView { node: stepped(m.node, msg), ..m };
    assert(member_ok(m, ms.len() as int));
    laws::lemma_step_keeps(m.node, msg);
    lemma_step_honest(m.node, msg);
    lemma_step_tally(m.node, msg);
    assert forall|v: NodeId, t: Term|
        tallied(n.node, v, t) implies #[trigger] tallied(m.node, v, t) || (v == n.id && t
        == n.node.term && n.node.vote == Some(n.id)) || carried(m.inbox, v, t, n.id) by {
        if !tallied(m.node, v, t) {
            assert(carries(m.inbox[k], v, t, n.id));
        }
    }
    lemma_shows(ms, none, i, n);
    assert(moves(ms, none, m, n));
    lemma_member_moves(ms, none, i, n);
}

pub proof fn lemma_steps_fair(ms: Seq<MemberView>, i: int, k: int)
    requires
        votes_agree(ms, seq![]),
        0 <= i < ms.len(),
        0 <= k <= ms[i].inbox.len(),
        logs_fit(ms[i]),
    ensures
        votes_agree(
            ms.update(
                i,
                MemberView { node: stepped_all(ms[i].node, ms[i].inbox.take(k)), ..ms[i] },
            ),
            seq![],
        ),
    decreases k,
{
    let m = ms[i];
    if k == 0 {
        assert(m.inbox.take(0) =~= Seq::<MessageView>::empty());
        assert(ms.update(i, MemberView { node: stepped_all(m.node, m.inbox.take(0)), ..m }) =~= ms);
    } else {
        lemma_steps_fair(ms, i, k - 1);
        let p = MemberView { node: stepped_all(m.node, m.inbox.take(k - 1)), ..m };
        let prior = ms.update(i, p);
        assert(m.inbox.take(k).drop_last() =~= m.inbox.take(k - 1));
        assert(m.inbox.take(k).last() == m.inbox[k - 1]);
        assert(stepped_all(m.node, m.inbox.take(k)).log.len() <= u64::MAX);
        lemma_step_moves(prior, i, k - 1);
        assert(prior.update(
            i,
            MemberView { node: stepped(p.node, p.inbox[k - 1]), ..p },
        ) =~= ms.update(i, MemberView { node: stepped_all(m.node, m.inbox.take(k)), ..m }));
    }
}

/// While the member deals with its inbox, its log has an index for every entry.
pub open spec fn logs_fit(m: MemberView) -> bool {
    forall|k: int|
        0 <= k <= m.inbox.len() ==> (#[trigger] stepped_all(m.node, m.inbox.take(k))).log.len()
            <= u64::MAX
}

/// Dropping mail, and stopping a member or letting it go on, keeps the votes in
/// agreement.
pub proof fn lemma_mail_dropped(ms: Seq<MemberView>, i: int, alive: bool, inbox: Seq<MessageView>)
    requires
        votes_agree(ms, seq![]),
        0 <= i < ms.len(),
        inbox == ms[i].inbox || inbox.len() == 0,
    ensures
        moves(ms, seq![], ms[i], MemberView { alive, inbox, ..ms[i] }),
        votes_agree(ms.update(i, MemberView { alive, inbox, ..ms[i] }), seq![]),
{
    let none = Seq::<MessageView>::empty();
    let n = MemberView { alive, inbox, ..ms[i] };
    assert(member_ok(ms[i], ms.len() as int));
    lemma_shows(ms, none, i, n);
    assert(moves(ms, none, ms[i], n));
    lemma_member_moves(ms, none, i, n);
}

pub proof fn lemma_work_fair(ms: Seq<MemberView>, i: int)
    requires
        votes_agree(ms, seq![]),
        0 <= i < ms.len(),
        ms[i].alive ==> logs_fit(ms[i]),
    ensures
        votes_agree(ms.update(i, worked(ms[i])), seq![]),
{
    let m = ms[i];
    if m.alive {
        let k = m.inbox.len() as int;
        lemma_steps_fair(ms, i, k);
        assert(m.inbox.take(k) =~= m.inbox);
        let p = MemberView { node: stepped_all(m.node, m.inbox), ..m };
        let prior = ms.update(i, p);
        let n = worked(m);
        lemma_mail_dropped(prior, i, m.alive, seq![]);
        assert(n == (MemberView { alive: m.alive, inbox: seq![], ..p }));
        assert(prior.update(i, n) =~= ms.update(i, n));
    } else {
        assert(ms.update(i, worked(m)) =~= ms);
    }
}

/// The members, of which the first `n` dealt with their inboxes.
pub open spec fn partly_worked(ms: Seq<MemberView>, n: int) -> Seq<MemberView> {
    Seq::new(
        ms.len(),
        |i: int|
            if i < n {
                worked(ms[i])
            } else {
                ms[i]
            },
    )
}

pub proof fn lemma_all_work_fair(ms: Seq<MemberView>, n: int)
    requires
        votes_agree(ms, seq![]),
        0 <= n <= ms.len(),
        forall|i: int| 0 <= i < ms.len() && (#[trigger] ms[i]).alive ==> logs_fit(ms[i]),
    ensures
        votes_agree(partly_worked(ms, n), seq![]),
    decreases n,
{
    if n == 0 {
        assert(partly_worked(ms, 0) =~= ms);
    } else {
        lemma_all_work_fair(ms, n - 1);
        let prior = partly_worked(ms, n - 1);
        assert(prior[n - 1] == ms[n - 1]);
        assert(ms[n - 1].alive ==> logs_fit(ms[n - 1]));
        lemma_work_fair(prior, n - 1);
        assert(prior.update(n - 1, worked(ms[n - 1])) =~= partly_worked(ms, n));
    }
}

// ---- delivery --------------------------------------------------------------------------

/// What is sent was in an outbox.
proof fn lemma_sent_from(ms: Seq<MemberView>, v: NodeId, t: Term, c: NodeId)
    requires
        carried(all_sent(ms), v, t, c),
    ensures
        exists|i: int| 0 <= i < ms.len() && carried((#[trigger] ms[i]).node.outbox, v, t, c),
    decreases ms.len(),
{
    let sent = all_sent(ms);
    let k = choose|k: int| 0 <= k < sent.len() && carries(#[trigger] sent[k], v, t, c);
    let d = ms.drop_last();
    let a = all_sent(d);
    if k < a.len() {
        assert(a[k] == sent[k]);
        lemma_sent_from(d, v, t, c);
        let i = choose|i: int| 0 <= i < d.len() && carried((#[trigger] d[i]).node.outbox, v, t, c);
        assert(ms[i] == d[i]);
    } else {
        let b = sends(ms.last());
        assert(b[k - a.len()] == sent[k]);
        assert(carried(ms.last().node.outbox, v, t, c));
        assert(ms[ms.len() - 1] == ms.last());
    }
}

pub proof fn lemma_settle_fair(ms: Seq<MemberView>)
    requires
        votes_agree(ms, seq![]),
    ensures
        forall|v: NodeId, t: Term, c: NodeId| #[trigger]
            shown(all_settled(ms), all_sent(ms), v, t, c) ==> shown(ms, seq![], v, t, c),
        votes_agree(all_settled(ms), all_sent(ms)),
{
    let none = Seq::<MessageView>::empty();
    let ns = all_settled(ms);
    let sent = all_sent(ms);
    assert forall|i: int| 0 <= i < ns.len() implies member_ok(
        #[trigger] ns[i],
        ns.len() as int,
    ) by {
        assert(member_ok(ms[i], ms.len() as int));
    }
    assert forall|v: NodeId, t: Term, c: NodeId| #[trigger] shown(ns, sent, v, t, c) implies shown(
        ms,
        none,
        v,
        t,
        c,
    ) by {
        if carried(sent, v, t, c) {
            lemma_sent_from(ms, v, t, c);
            let i = choose|i: int|
                0 <= i < ms.len() && carried((#[trigger] ms[i]).node.outbox, v, t, c);
            assert(shown_at(ms[i], v, t, c));
        } else {
            let i = choose|i: int| 0 <= i < ns.len() && shown_at(#[trigger] ns[i], v, t, c);
            assert(shown_at(ms[i], v, t, c));
        }
    }
    lemma_less_shown(ms, none, ns, sent);
}

/// Where a delivered message stands.
proof fn lemma_delivery_shows(
    ms: Seq<MemberView>,
    cut: Set<(NodeId, NodeId)>,
    msgs: Seq<MessageView>,
    n: int,
)
    requires
        forall|i: int| 0 <= i < ms.len() ==> member_ok(#[trigger] ms[i], n),
    ensures
        all_delivered(ms, cut, msgs).len() == ms.len(),
        forall|i: int|
            0 <= i < ms.len() ==> (#[trigger] all_delivered(ms, cut, msgs)[i]) == (MemberView {
                inbox: all_delivered(ms, cut, msgs)[i].inbox,
                ..ms[i]
            }),
        forall|i: int| 0 <= i < ms.len() ==> member_ok(#[trigger] all_delivered(ms, cut, msgs)[i], n),
        forall|i: int, v: NodeId, t: Term, c: NodeId|
            0 <= i < ms.len() && #[trigger] carried(
                all_delivered(ms, cut, msgs)[i].inbox,
                v,
                t,
                c,
            ) ==> carried(ms[i].inbox, v, t, c) || carried(msgs, v, t, c),
    decreases msgs.len(),
{
    if msgs.len() > 0 {
        let d = msgs.drop_last();
        let msg = msgs.last();
        lemma_delivery_shows(ms, cut, d, n);
        let a = all_delivered(ms, cut, d);
        let b = all_delivered(ms, cut, msgs);
        cluster_state::lemma_place_of_id(a, msg.to);
        assert forall|i: int, v: NodeId, t: Term, c: NodeId|
            0 <= i < ms.len() && #[trigger] carried(b[i].inbox, v, t, c) implies carried(
            ms[i].inbox,
            v,
            t,
            c,
        ) || carried(msgs, v, t, c) by {
            let k = choose|k: int|
                0 <= k < b[i].inbox.len() && carries(#[trigger] b[i].inbox[k], v, t, c);
            if k < a[i].inbox.len() {
                assert(a[i].inbox[k] == b[i].inbox[k]);
                assert(carried(a[i].inbox, v, t, c));
                if carried(d, v, t, c) {
                    let l = choose|l: int| 0 <= l < d.len() && carries(#[trigger] d[l], v, t, c);
                    assert(msgs[l] == d[l]);
                }
            } else {
                assert(msgs[msgs.len() - 1] == b[i].inbox[k]);
            }
        }
        assert forall|i: int| 0 <= i < ms.len() implies member_ok(#[trigger] b[i], n) by {
            assert(member_ok(a[i], n));
            assert(a[i].id == ms[i].id);
            assert forall|k: int| 0 <= k < b[i].inbox.len() implies (#[trigger] b[i].inbox[k]).to
                == b[i].id by {
                if k < a[i].inbox.len() {
                    assert(b[i].inbox[k] == a[i].inbox[k]);
                }
            }
        }
    }
}

pub proof fn lemma_delivery_fair(
    ms: Seq<MemberView>,
    cut: Set<(NodeId, NodeId)>,
    msgs: Seq<MessageView>,
)
    requires
        votes_agree(ms, msgs),
    ensures
        forall|v: NodeId, t: Term, c: NodeId| #[trigger]
            shown(all_delivered(ms, cut, msgs), seq![], v, t, c) ==> shown(ms, msgs, v, t, c),
        votes_agree(all_delivered(ms, cut, msgs), seq![]),
{
    let none = Seq::<MessageView>::empty();
    let ns = all_delivered(ms, cut, msgs);
    lemma_delivery_shows(ms, cut, msgs, ms.len() as int);
    assert forall|v: NodeId, t: Term, c: NodeId| #[trigger] shown(ns, none, v, t, c) implies shown(
        ms,
        msgs,
        v,
        t,
        c,
    ) by {
        let i = choose|i: int| 0 <= i < ns.len() && shown_at(#[trigger] ns[i], v, t, c);
        if carried(ns[i].inbox, v, t, c) {
            if carried(ms[i].inbox, v, t, c) {
                assert(shown_at(ms[i], v, t, c));
            }
        } else {
            assert(shown_at(ms[i], v, t, c));
        }
    }
    lemma_less_shown(ms, msgs, ns, none);
}

/// A round keeps the votes in agreement.
pub proof fn lemma_round_fair(c: ClusterView)
    requires
        fair(c),
        forall|i: int|
            0 <= i < c.members.len() && (#[trigger] c.members[i]).alive ==> logs_fit(c.members[i]),
    ensures
        fair(after_round(c)),
{
    let n = c.members.len() as int;
    lemma_all_work_fair(c.members, n);
    let w = all_worked(c.members);
    assert(partly_worked(c.members, n) =~= w);
    lemma_settle_fair(w);
    lemma_delivery_fair(all_settled(w), c.cut, all_sent(w));
}

// ---- the rest --------------------------------------------------------------------------

/// A proposal keeps the votes in agreement.
pub proof fn lemma_proposal_fair(c: ClusterView, i: int, data: Seq<u8>)
    requires
        fair(c),
        0 <= i < c.members.len(),
        c.members[i].node.log.len() < u64::MAX,
    ensures
        moves(
            c.members,
            seq![],
            c.members[i],
            MemberView { node: proposed(c.members[i].node, data), ..c.members[i] },
        ),
        fair(
            ClusterView {
                members: c.members.update(
                    i,
                    MemberView { node: proposed(c.members[i].node, data), ..c.members[i] },
                ),
                ..c
            },
        ),
{
    let none = Seq::<MessageView>::empty();
    let ms = c.members;
    let m = ms[i];
    let n = MemberView { node: proposed(m.node, data), ..m };
    assert(member_ok(m, ms.len() as int));
    laws::lemma_propose_keeps(m.node, data);
    let s = NodeView { log: m.node.log.push(proposed_entry(m.node, data)), ..m.node };
    lemma_sent_honest(s, s.config.peers.len() as int);
    assert(honest(m.node, n.node));
    lemma_shows(ms, none, i, n);
    assert(moves(ms, none, m, n));
    lemma_member_moves(ms, none, i, n);
}

/// Stopping a member, or letting it go on, keeps the votes in agreement, and so
/// does any change of the cuts.
pub proof fn lemma_fault_fair(
    c: ClusterView,
    i: int,
    alive: bool,
    inbox: Seq<MessageView>,
    cut: Set<(NodeId, NodeId)>,
)
    requires
        fair(c),
        0 <= i < c.members.len(),
        inbox == c.members[i].inbox || inbox.len() == 0,
    ensures
        fair(
            ClusterView {
                members: c.members.update(i, MemberView { alive, inbox, ..c.members[i] }),
                cut,
            },
        ),
        fair(ClusterView { members: c.members, cut }),
{
    lemma_mail_dropped(c.members, i, alive, inbox);
}

/// In a fresh cluster of distinct nodes the votes agree: there are none.
pub proof fn lemma_fresh_fair(ids: Seq<NodeId>)
    requires
        ids.no_duplicates(),
    ensures
        fair(fresh_cluster(ids)),
{
    let none = Seq::<MessageView>::empty();
    let ms = fresh_cluster(ids).members;
    assert forall|i: int, j: int| 0 <= i < j < ms.len() implies (#[trigger] ms[i]).id != (
    #[trigger] ms[j]).id by {
        assert(ids[i] != ids[j]);
    }
    assert forall|i: int| 0 <= i < ms.len() implies member_ok(
        #[trigger] ms[i],
        ms.len() as int,
    ) by {
        lemma_others_len(ids, ids[i]);
        assert(ids.contains(ids[i]));
    }
    assert forall|v: NodeId, t: Term, c: NodeId| !(#[trigger] shown(ms, none, v, t, c)) by {
        if shown(ms, none, v, t, c) {
            let i = choose|i: int| 0 <= i < ms.len() && shown_at(#[trigger] ms[i], v, t, c);
            assert(ms[i] == fresh_member(ids, i));
        }
    }
}

proof fn lemma_others_len(ids: Seq<NodeId>, id: NodeId)
    requires
        ids.no_duplicates(),
    ensures
        others(ids, id).len() == ids.len() - (if ids.contains(id) {
            1int
        } else {
            0
        }),
    decreases ids.len(),
{
    if ids.len() > 0 {
        let d = ids.drop_last();
        let l = ids.len() - 1;
        assert(d.no_duplicates());
        lemma_others_len(d, id);
        if ids.last() == id {
            assert(ids[l] == id);
            assert(!d.contains(id)) by {
                if d.contains(id) {
                    let j = d.index_of(id);
                    assert(ids[j] == ids[l]);
                }
            }
        } else {
            assert(d.contains(id) <==> ids.contains(id)) by {
                if ids.contains(id) {
                    let j = ids.index_of(id);
                    assert(d[j] == id);
                }
                if d.contains(id) {
                    let j = d.index_of(id);
                    assert(ids[j] == id);
                }
            }
        }
    }
}

} // verus!
