//! From a cold start the node with the lowest id wins.
//!
//! Its patience ends first, the others hear of it before theirs does, and what
//! it sends from then on keeps them waiting. What is followed are the stages of
//! this: asked, answered, elected.

use vstd::prelude::*;

use crate::raft::peers::{given, nodes_with};
use crate::raft::state::{
    append_body, asked, behind, broadcast, caught_up, committed_more, counted, drained, handled,
    has_majority, leading, persisted, same_for_all, sent_to, standing, stepped, ticked, to_apply,
    NodeView, Role,
};
use crate::raft::types::{BodyView, MessageView};
use crate::server::cluster_state::{
    self, after_round, after_rounds, after_ticks, all_delivered, all_sent, all_settled, all_ticked,
    all_worked, fresh_cluster, fresh_member, has_mail, has_work, is_active, leader_place, others,
    sends, settled_member, stepped_all, ticked_member, worked, ClusterView, MemberView,
};
use crate::server::replication::{self, served, Standing};
use crate::server::rounds;
use crate::server::state_machine::writes_of;
use crate::storage::engine::{written_all, Contents};
use crate::types::NodeId;

verus! {

// ---- who waits how long ----------------------------------------------------------------

/// The ids are distinct, the lowest stands at place `l`, and the timeouts fit.
spec fn lowest_at(ids: Seq<NodeId>, l: int) -> bool {
    &&& ids.no_duplicates()
    &&& 10 + 5 * ids.len() <= u32::MAX
    &&& 0 <= l < ids.len()
    &&& forall|j: int| 0 <= j < ids.len() ==> ids[l] <= #[trigger] ids[j]
}

proof fn lemma_patience(ids: Seq<NodeId>, l: int, i: int)
    requires
        lowest_at(ids, l),
        0 <= i < ids.len(),
    ensures
        i == l ==> fresh_member(ids, i).node.config.election_timeout == 10,
        i != l ==> fresh_member(ids, i).node.config.election_timeout >= 15,
{
    assert(ids.contains(ids[i]));
    cluster_state::lemma_rank(ids, ids[i]);
    if i != l {
        assert(ids[l] < ids[i]);
    }
}

// ---- what is sent ----------------------------------------------------------------------

spec fn asking(from: NodeId, to: NodeId) -> MessageView {
    MessageView {
        from,
        to,
        term: 1,
        body: BodyView::RequestVote { last_log_index: 0, last_log_term: 0 },
    }
}

spec fn beating(from: NodeId, to: NodeId) -> MessageView {
    MessageView {
        from,
        to,
        term: 1,
        body: BodyView::AppendEntries {
            prev_log_index: 0,
            prev_log_term: 0,
            entries: seq![],
            leader_commit: 0,
        },
    }
}

spec fn voting(from: NodeId, to: NodeId) -> MessageView {
    MessageView { from, to, term: 1, body: BodyView::VoteResponse { granted: true } }
}

spec fn agreeing(from: NodeId, to: NodeId) -> MessageView {
    MessageView {
        from,
        to,
        term: 1,
        body: BodyView::AppendResponse { success: true, match_index: 0 },
    }
}

/// The message is one that `lid` sends.
spec fn called(m: MessageView, lid: NodeId) -> bool {
    m.to != lid && (m == asking(lid, m.to) || m == beating(lid, m.to))
}

/// The message is an answer to `lid`.
spec fn answers(m: MessageView, lid: NodeId) -> bool {
    m == voting(m.from, lid) || m == agreeing(m.from, lid)
}

/// What a follower answers.
spec fn reply(m: MessageView, id: NodeId) -> MessageView {
    if m.body is RequestVote {
        voting(id, m.from)
    } else {
        agreeing(id, m.from)
    }
}

// ---- the nodes -------------------------------------------------------------------------

/// The node has nothing in its log, and is set up as it was in the beginning.
spec fn empty_handed(s: NodeView, ids: Seq<NodeId>, i: int) -> bool {
    &&& s.id == ids[i]
    &&& s.log.len() == 0
    &&& s.commit == 0
    &&& s.applied == 0
    &&& s.config == fresh_member(ids, i).node.config
}

/// The node follows, and has voted for nobody but `lid`.
spec fn follows(s: NodeView, lid: NodeId) -> bool {
    &&& s.role == Role::Follower
    &&& s.term <= 1
    &&& s.vote is None || s.vote == Some(lid)
    &&& s.term == 0 ==> s.vote is None
}

proof fn lemma_follower_steps(
    s: NodeView,
    msgs: Seq<MessageView>,
    ids: Seq<NodeId>,
    i: int,
    lid: NodeId,
)
    requires
        empty_handed(s, ids, i),
        follows(s, lid),
        s.outbox.len() == 0,
        forall|k: int| 0 <= k < msgs.len() ==> called(#[trigger] msgs[k], lid),
    ensures
        empty_handed(stepped_all(s, msgs), ids, i),
        follows(stepped_all(s, msgs), lid),
        stepped_all(s, msgs).term == (if msgs.len() > 0 {
            1
        } else {
            s.term
        }),
        stepped_all(s, msgs).elapsed == (if msgs.len() > 0 {
            0
        } else {
            s.elapsed
        }),
        stepped_all(s, msgs).outbox == Seq::new(msgs.len(), |k: int| reply(msgs[k], ids[i])),
    decreases msgs.len(),
{
    if msgs.len() == 0 {
        assert(s.outbox =~= Seq::new(msgs.len(), |k: int| reply(msgs[k], ids[i])));
    } else {
        let d = msgs.drop_last();
        let m = msgs.last();
        assert forall|k: int| 0 <= k < d.len() implies called(#[trigger] d[k], lid) by {
            assert(d[k] == msgs[k]);
        }
        lemma_follower_steps(s, d, ids, i, lid);
        let a = stepped_all(s, d);
        let b = stepped_all(s, msgs);
        assert(b == stepped(a, m));
        assert(called(msgs[msgs.len() - 1], lid));
        let c = caught_up(a, m);
        assert(c.term == 1);
        assert(b.outbox == a.outbox.push(reply(m, ids[i])));
        assert(b.outbox =~= Seq::new(msgs.len(), |k: int| reply(msgs[k], ids[i])));
    }
}

/// The node bids for the lead in the first term, or has it.
spec fn bids(s: NodeView) -> bool {
    &&& s.term == 1
    &&& s.role != Role::Follower
    &&& s.votes.dom().finite()
    &&& s.role == Role::Candidate ==> s.votes.contains_key(s.id) && s.votes[s.id] && !has_majority(s)
    &&& s.role == Role::Leader ==> s.elapsed == 0 && s.matched.dom().finite() && forall|
        p: NodeId,
    | #[trigger] s.next.contains_key(p) ==> s.next[p] == 1
}

/// What a leader sends round.
spec fn beats(s: NodeView) -> Seq<MessageView> {
    Seq::new(s.config.peers.len(), |k: int| beating(s.id, s.config.peers[k]))
}

proof fn lemma_sent(s: NodeView, n: int)
    requires
        s.term == 1,
        s.log.len() == 0,
        s.commit == 0,
        forall|p: NodeId| #[trigger] s.next.contains_key(p) ==> s.next[p] == 1,
        0 <= n <= s.config.peers.len(),
    ensures
        sent_to(s, n) == (NodeView { outbox: s.outbox + beats(s).take(n), ..s }),
    decreases n,
{
    if n > 0 {
        lemma_sent(s, n - 1);
        let a = sent_to(s, n - 1);
        let peer = s.config.peers[n - 1];
        assert(append_body(a, peer) == beating(s.id, peer).body);
        assert(sent_to(s, n).outbox =~= s.outbox + beats(s).take(n));
    } else {
        assert(s.outbox =~= s.outbox + beats(s).take(n));
    }
}

proof fn lemma_broadcast(s: NodeView)
    requires
        s.term == 1,
        s.log.len() == 0,
        s.commit == 0,
        forall|p: NodeId| #[trigger] s.next.contains_key(p) ==> s.next[p] == 1,
    ensures
        broadcast(s) == (NodeView { outbox: s.outbox + beats(s), ..s }),
{
    lemma_sent(s, s.config.peers.len() as int);
    assert(beats(s).take(s.config.peers.len() as int) =~= beats(s));
}

proof fn lemma_leading(s: NodeView)
    requires
        s.term == 1,
        s.log.len() == 0,
        s.commit == 0,
        s.votes.dom().finite(),
    ensures
        bids(leading(s)),
        leading(s).role == Role::Leader,
        leading(s) == (NodeView {
            role: Role::Leader,
            leader: leading(s).leader,
            next: leading(s).next,
            matched: leading(s).matched,
            elapsed: 0,
            outbox: s.outbox + beats(s),
            ..s
        }),
{
    let fresh = NodeView {
        role: Role::Leader,
        leader: Some(s.id),
        elapsed: 0,
        next: same_for_all(s.config.peers, behind(s.log)),
        matched: same_for_all(s.config.peers, 0),
        ..s
    };
    lemma_broadcast(fresh);
    assert(beats(fresh) =~= beats(s));
    vstd::seq_lib::seq_to_set_is_finite(s.config.peers);
    assert(fresh.matched.dom() =~= s.config.peers.to_set());
    assert(committed_more(broadcast(fresh)) == broadcast(fresh));
}

/// What answers make of the bidder: it has them all in its tally, or it leads.
spec fn tallies(s: NodeView, t: NodeView, msgs: Seq<MessageView>) -> bool {
    &&& t.outbox == s.outbox
    &&& t.elapsed == s.elapsed
    &&& forall|v: NodeId|
        s.votes.contains_key(v) && s.votes[v] ==> #[trigger] t.votes.contains_key(v) && t.votes[v]
    &&& forall|k: int|
        0 <= k < msgs.len() && (#[trigger] msgs[k]).body is VoteResponse ==> t.votes.contains_key(
            msgs[k].from,
        ) && t.votes[msgs[k].from]
}

proof fn lemma_bidder_steps(
    s: NodeView,
    msgs: Seq<MessageView>,
    ids: Seq<NodeId>,
    i: int,
)
    requires
        empty_handed(s, ids, i),
        bids(s),
        forall|k: int| 0 <= k < msgs.len() ==> answers(#[trigger] msgs[k], ids[i]),
    ensures
        empty_handed(stepped_all(s, msgs), ids, i),
        bids(stepped_all(s, msgs)),
        s.role == Role::Leader ==> stepped_all(s, msgs).role == Role::Leader && stepped_all(
            s,
            msgs,
        ).outbox == s.outbox,
        s.role == Role::Candidate && stepped_all(s, msgs).role == Role::Leader ==> stepped_all(
            s,
            msgs,
        ).outbox == s.outbox + beats(s),
        s.role == Role::Candidate && stepped_all(s, msgs).role == Role::Candidate ==> tallies(
            s,
            stepped_all(s, msgs),
            msgs,
        ),
    decreases msgs.len(),
{
    if msgs.len() > 0 {
        let d = msgs.drop_last();
        let m = msgs.last();
        assert forall|k: int| 0 <= k < d.len() implies answers(#[trigger] d[k], ids[i]) by {
            assert(d[k] == msgs[k]);
        }
        lemma_bidder_steps(s, d, ids, i);
        let a = stepped_all(s, d);
        let b = stepped_all(s, msgs);
        assert(answers(msgs[msgs.len() - 1], ids[i]));
        assert(b == handled(a, m));
        assert(beats(a) =~= beats(s));
        if a.role == Role::Leader {
            if m.body is AppendResponse {
                let t = NodeView {
                    matched: a.matched.insert(m.from, 0),
                    next: a.next.insert(m.from, 1),
                    ..a
                };
                assert(b == committed_more(t));
                assert(b == t);
            }
        } else if m.body is VoteResponse {
            let t = NodeView { votes: a.votes.insert(m.from, true), ..a };
            assert(b == counted(t));
            if has_majority(t) {
                lemma_leading(t);
                assert(beats(t) =~= beats(s));
            } else {
                assert forall|k: int|
                    0 <= k < msgs.len() && (#[trigger] msgs[k]).body is VoteResponse implies
                    b.votes.contains_key(msgs[k].from) && b.votes[msgs[k].from] by {
                    if k < d.len() {
                        assert(d[k] == msgs[k]);
                    }
                }
            }
        } else {
            assert forall|k: int|
                0 <= k < msgs.len() && (#[trigger] msgs[k]).body is VoteResponse implies
                b.votes.contains_key(msgs[k].from) && b.votes[msgs[k].from] by {
                if k < d.len() {
                    assert(d[k] == msgs[k]);
                }
            }
        }
    }
}

/// With the votes of all a bidder leads.
proof fn lemma_all_votes(s: NodeView, ids: Seq<NodeId>, i: int)
    requires
        ids.no_duplicates(),
        0 <= i < ids.len(),
        empty_handed(s, ids, i),
        bids(s),
        forall|j: int|
            0 <= j < ids.len() ==> s.votes.contains_key(#[trigger] ids[j]) && s.votes[ids[j]],
    ensures
        s.role == Role::Leader,
{
    let all = ids.to_set();
    let w = nodes_with(s.votes, given());
    ids.unique_seq_to_set();
    assert(all.subset_of(w)) by {
        assert forall|x: NodeId| #[trigger] all.contains(x) implies w.contains(x) by {
            let j = ids.index_of(x);
            assert(ids[j] == x);
        }
    }
    vstd::set_lib::lemma_len_subset(all, w);
    cluster_state::lemma_others_count(ids, ids[i]);
    assert(s.config.peers.len() + 1 <= ids.len()) by {
        assert(ids.contains(ids[i]));
    }
}

// ---- the stages ------------------------------------------------------------------------

/// Nothing was written and nothing applied.
spec fn untouched(m: MemberView) -> bool {
    m.store == Contents::empty() && m.applied == 0
}

/// The member with the lowest id at stage `k`: it has stood (0), has asked (1),
/// has the answers (2), leads (3). With `t` a tick has just gone by.
spec fn bidder_at(m: MemberView, ids: Seq<NodeId>, l: int, k: int, t: int) -> bool {
    &&& m.id == ids[l]
    &&& m.alive
    &&& empty_handed(m.node, ids, l)
    &&& untouched(m)
    &&& bids(m.node)
    &&& forall|x: int| 0 <= x < m.inbox.len() ==> answers(#[trigger] m.inbox[x], ids[l])
    &&& forall|x: int| 0 <= x < m.node.outbox.len() ==> called(#[trigger] m.node.outbox[x], ids[l])
    &&& t == 0 ==> m.node.outbox.len() == 0
    &&& k <= 1 ==> m.inbox.len() == 0
    &&& k <= 2 ==> (m.node.role == Role::Candidate && m.node.elapsed <= k + t && ids.len() > 1) || (
    m.node.role == Role::Leader && ids.len() == 1)
    &&& 1 <= k <= 2 ==> m.node.outbox.len() == 0
    &&& k == 0 ==> forall|j: int|
        0 <= j < ids.len() && j != l ==> m.node.outbox.contains(asking(ids[l], #[trigger] ids[j]))
    &&& k == 2 ==> forall|j: int|
        0 <= j < ids.len() && j != l ==> m.inbox.contains(voting(#[trigger] ids[j], ids[l]))
    &&& k == 3 ==> m.node.role == Role::Leader
    &&& k == 3 ==> forall|x: int|
        0 <= x < m.inbox.len() ==> (#[trigger] m.inbox[x]) == agreeing(m.inbox[x].from, ids[l])
    &&& k == 3 ==> forall|x: int|
        0 <= x < m.node.outbox.len() ==> (#[trigger] m.node.outbox[x]) == beating(
            ids[l],
            m.node.outbox[x].to,
        )
    &&& k == 3 && t == 1 ==> forall|j: int|
        0 <= j < ids.len() && j != l ==> m.node.outbox.contains(beating(ids[l], #[trigger] ids[j]))
}

/// Another member at stage `k`.
spec fn waiter_at(m: MemberView, ids: Seq<NodeId>, i: int, l: int, k: int, t: int) -> bool {
    &&& m.id == ids[i]
    &&& m.alive
    &&& empty_handed(m.node, ids, i)
    &&& untouched(m)
    &&& follows(m.node, ids[l])
    &&& k >= 2 ==> m.node.term == 1
    &&& m.node.outbox.len() == 0
    &&& forall|x: int| 0 <= x < m.inbox.len() ==> called(#[trigger] m.inbox[x], ids[l])
    &&& k == 0 ==> m.inbox.len() == 0 && m.node.elapsed <= 10
    &&& k == 1 ==> m.inbox.contains(asking(ids[l], ids[i])) && m.node.elapsed <= 10 + t
    &&& k == 2 ==> m.inbox.len() == 0 && m.node.elapsed <= t
    &&& k == 3 ==> forall|x: int|
        0 <= x < m.inbox.len() ==> (#[trigger] m.inbox[x]) == beating(ids[l], ids[i])
    &&& k == 3 ==> m.node.elapsed <= t || (m.inbox.len() > 0 && m.node.elapsed <= 1 + t)
}

spec fn stage(c: ClusterView, ids: Seq<NodeId>, l: int, k: int, t: int) -> bool {
    &&& c.cut == Set::<(NodeId, NodeId)>::empty()
    &&& c.members.len() == ids.len()
    &&& bidder_at(c.members[l], ids, l, k, t)
    &&& forall|i: int|
        0 <= i < ids.len() && i != l ==> waiter_at(#[trigger] c.members[i], ids, i, l, k, t)
}

spec fn later(k: int) -> int {
    if k < 3 {
        k + 1
    } else {
        3
    }
}

/// What a member is after a round, but for its inbox.
proof fn lemma_round_member(c: ClusterView, ids: Seq<NodeId>, i: int)
    requires
        0 <= i < c.members.len(),
        c.members[i].alive,
        empty_handed(stepped_all(c.members[i].node, c.members[i].inbox), ids, i),
    ensures
        after_round(c).members.len() == c.members.len(),
        after_round(c).members[i].id == c.members[i].id,
        after_round(c).members[i].alive,
        after_round(c).members[i].store == c.members[i].store,
        after_round(c).members[i].applied == c.members[i].applied,
        after_round(c).members[i].node == drained(
            stepped_all(c.members[i].node, c.members[i].inbox),
        ),
        sends(all_worked(c.members)[i]) == stepped_all(
            c.members[i].node,
            c.members[i].inbox,
        ).outbox,
{
    let w = all_worked(c.members);
    rounds::lemma_delivered(all_settled(w), c.cut, all_sent(w));
    assert(w[i] == worked(c.members[i]));
    assert(all_settled(w)[i] == settled_member(w[i]));
    assert(to_apply(w[i].node) =~= seq![]);
    assert(writes_of(to_apply(w[i].node)) =~= seq![]);
}

/// What the members send in a round at stage `k`.
proof fn lemma_stage_sends(
    c: ClusterView,
    ids: Seq<NodeId>,
    l: int,
    k: int,
    t: int,
    j: int,
)
    requires
        lowest_at(ids, l),
        stage(c, ids, l, k, t),
        0 <= k <= 3,
        0 <= t <= 1,
        0 <= j < ids.len(),
    ensures
        ({
            let s = stepped_all(c.members[j].node, c.members[j].inbox);
            &&& empty_handed(s, ids, j)
            &&& sends(all_worked(c.members)[j]) == s.outbox
            &&& after_round(c).members.len() == ids.len()
            &&& after_round(c).members[j].id == ids[j]
            &&& after_round(c).members[j].alive
            &&& after_round(c).members[j].node == drained(s)
            &&& untouched(after_round(c).members[j])
            &&& j != l ==> follows(s, ids[l]) && (forall|x: int|
                0 <= x < s.outbox.len() ==> answers(#[trigger] s.outbox[x], ids[l]))
            &&& j != l ==> s.elapsed == (if c.members[j].inbox.len() > 0 {
                0
            } else {
                c.members[j].node.elapsed
            })
            &&& j != l ==> s.term == (if c.members[j].inbox.len() > 0 {
                1
            } else {
                c.members[j].node.term
            })
            &&& j != l && k == 1 ==> s.outbox.contains(voting(ids[j], ids[l]))
            &&& j != l && k >= 2 ==> forall|x: int|
                0 <= x < s.outbox.len() ==> (#[trigger] s.outbox[x]) == agreeing(ids[j], ids[l])
            &&& j == l && k >= 2 ==> forall|x: int|
                0 <= x < s.outbox.len() ==> (#[trigger] s.outbox[x]) == beating(
                    ids[l],
                    s.outbox[x].to,
                )
            &&& j == l ==> bids(s) && (forall|x: int|
                0 <= x < s.outbox.len() ==> called(#[trigger] s.outbox[x], ids[l]))
        }),
{
    let m = c.members[j];
    let s = stepped_all(m.node, m.inbox);
    if j == l {
        lemma_bidder_steps(m.node, m.inbox, ids, l);
        assert forall|x: int| 0 <= x < s.outbox.len() implies called(
            #[trigger] s.outbox[x],
            ids[l],
        ) by {
            if x < m.node.outbox.len() {
                assert(called(m.node.outbox[x], ids[l]));
            } else {
                let peers = m.node.config.peers;
                cluster_state::lemma_others(ids, ids[l], ids[l]);
                assert(peers.contains(peers[x - m.node.outbox.len()]));
            }
        }
    } else {
        assert(waiter_at(c.members[j], ids, j, l, k, t));
        lemma_follower_steps(m.node, m.inbox, ids, j, ids[l]);
        assert forall|x: int| 0 <= x < s.outbox.len() implies answers(
            #[trigger] s.outbox[x],
            ids[l],
        ) by {
            assert(called(m.inbox[x], ids[l]));
        }
        if k == 1 {
            let x = m.inbox.index_of(asking(ids[l], ids[j]));
            assert(s.outbox[x] == voting(ids[j], ids[l]));
        }
    }
    lemma_round_member(c, ids, j);
}

/// The lead after a round in which all answers came in.
proof fn lemma_elected(c: ClusterView, ids: Seq<NodeId>, l: int, t: int)
    requires
        lowest_at(ids, l),
        stage(c, ids, l, 2, t),
        0 <= t <= 1,
    ensures
        stepped_all(c.members[l].node, c.members[l].inbox).role == Role::Leader,
        forall|j: int|
            0 <= j < ids.len() && j != l ==> stepped_all(
                c.members[l].node,
                c.members[l].inbox,
            ).outbox.contains(beating(ids[l], #[trigger] ids[j])),
{
    let m = c.members[l];
    let s = stepped_all(m.node, m.inbox);
    lemma_bidder_steps(m.node, m.inbox, ids, l);
    if m.node.role == Role::Candidate {
        if s.role == Role::Candidate {
            assert forall|j: int| 0 <= j < ids.len() implies s.votes.contains_key(
                #[trigger] ids[j],
            ) && s.votes[ids[j]] by {
                if j != l {
                    let x = m.inbox.index_of(voting(ids[j], ids[l]));
                    assert(m.inbox[x].body is VoteResponse);
                }
            }
            lemma_all_votes(s, ids, l);
        }
        assert(s.outbox =~= beats(m.node));
        assert forall|j: int| 0 <= j < ids.len() && j != l implies s.outbox.contains(
            beating(ids[l], #[trigger] ids[j]),
        ) by {
            cluster_state::lemma_others(ids, ids[l], ids[j]);
            assert(ids.contains(ids[j]));
            let k = m.node.config.peers.index_of(ids[j]);
            assert(beats(m.node)[k] == beating(ids[l], ids[j]));
        }
    }
}

proof fn lemma_round_bidder(c: ClusterView, ids: Seq<NodeId>, l: int, k: int, t: int)
    requires
        lowest_at(ids, l),
        stage(c, ids, l, k, t),
        0 <= k <= 3,
        0 <= t <= 1,
    ensures
        bidder_at(after_round(c).members[l], ids, l, later(k), 0),
{
    let d = after_round(c);
    let w = all_worked(c.members);
    let m = c.members[l];
    let s = stepped_all(m.node, m.inbox);
    lemma_stage_sends(c, ids, l, k, t, l);
    lemma_bidder_steps(m.node, m.inbox, ids, l);
    assert(c.members[l].id == ids[l]);
    assert forall|j: int| 0 <= j < c.members.len() && j != l implies (#[trigger] c.members[j]).id
        != c.members[l].id by {
        assert(waiter_at(c.members[j], ids, j, l, k, t));
    }
    rounds::lemma_round_mail(c, l);
    assert forall|x: int| 0 <= x < d.members[l].inbox.len() implies answers(
        #[trigger] d.members[l].inbox[x],
        ids[l],
    ) && k >= 1 by {
        let msg = d.members[l].inbox[x];
        let j = choose|j: int| 0 <= j < c.members.len() && sends(#[trigger] w[j]).contains(msg);
        lemma_stage_sends(c, ids, l, k, t, j);
        let o = sends(w[j]);
        let y = o.index_of(msg);
        if j == l {
            assert(called(o[y], ids[l]));
        } else {
            assert(waiter_at(c.members[j], ids, j, l, k, t));
            if k == 0 {
                lemma_follower_steps(c.members[j].node, c.members[j].inbox, ids, j, ids[l]);
            }
        }
    }
    if k == 0 {
        assert(d.members[l].inbox.len() == 0) by {
            if d.members[l].inbox.len() > 0 {
                let msg = d.members[l].inbox[0];
                assert(k >= 1);
            }
        }
    }
    if k == 1 {
        assert forall|j: int| 0 <= j < ids.len() && j != l implies d.members[l].inbox.contains(
            voting(#[trigger] ids[j], ids[l]),
        ) by {
            lemma_stage_sends(c, ids, l, k, t, j);
            assert(sends(w[j]).contains(voting(ids[j], ids[l])));
        }
    }
    if k == 2 {
        lemma_elected(c, ids, l, t);
    }
    if k >= 2 {
        assert forall|x: int| 0 <= x < d.members[l].inbox.len() implies (
        #[trigger] d.members[l].inbox[x]) == agreeing(d.members[l].inbox[x].from, ids[l]) by {
            let msg = d.members[l].inbox[x];
            let j = choose|j: int| 0 <= j < c.members.len() && sends(#[trigger] w[j]).contains(msg);
            lemma_stage_sends(c, ids, l, k, t, j);
            let o = sends(w[j]);
            let y = o.index_of(msg);
            if j == l {
                assert(called(o[y], ids[l]));
            } else {
                assert(o[y] == agreeing(ids[j], ids[l]));
            }
        }
    }
    assert(drained(s).outbox.len() == 0);
    assert(bids(drained(s)));
    if k <= 1 {
        assert(stepped_all(m.node, m.inbox) == m.node);
    }
}

proof fn lemma_round_waiter(c: ClusterView, ids: Seq<NodeId>, l: int, k: int, t: int, i: int)
    requires
        lowest_at(ids, l),
        stage(c, ids, l, k, t),
        0 <= k <= 3,
        0 <= t <= 1,
        0 <= i < ids.len(),
        i != l,
    ensures
        waiter_at(after_round(c).members[i], ids, i, l, later(k), 0),
{
    let d = after_round(c);
    let w = all_worked(c.members);
    let m = c.members[i];
    let s = stepped_all(m.node, m.inbox);
    assert(waiter_at(m, ids, i, l, k, t));
    lemma_stage_sends(c, ids, l, k, t, i);
    lemma_stage_sends(c, ids, l, k, t, l);
    lemma_bidder_steps(c.members[l].node, c.members[l].inbox, ids, l);
    assert forall|j: int| 0 <= j < c.members.len() && j != i implies (#[trigger] c.members[j]).id
        != c.members[i].id by {
        if j != l {
            assert(waiter_at(c.members[j], ids, j, l, k, t));
        }
    }
    rounds::lemma_round_mail(c, i);
    assert forall|x: int| 0 <= x < d.members[i].inbox.len() implies called(
        #[trigger] d.members[i].inbox[x],
        ids[l],
    ) by {
        let msg = d.members[i].inbox[x];
        let j = choose|j: int| 0 <= j < c.members.len() && sends(#[trigger] w[j]).contains(msg);
        lemma_stage_sends(c, ids, l, k, t, j);
        let o = sends(w[j]);
        let y = o.index_of(msg);
        if j != l {
            assert(answers(o[y], ids[l]));
        }
    }
    let sent = sends(w[l]);
    assert forall|x: int| 0 <= x < d.members[i].inbox.len() implies sent.contains(
        #[trigger] d.members[i].inbox[x],
    ) && d.members[i].inbox[x].to == ids[i] by {
        let msg = d.members[i].inbox[x];
        let j = choose|j: int| 0 <= j < c.members.len() && sends(#[trigger] w[j]).contains(msg);
        lemma_stage_sends(c, ids, l, k, t, j);
        let o = sends(w[j]);
        let y = o.index_of(msg);
        if j != l {
            assert(answers(o[y], ids[l]));
        }
    }
    if k == 1 {
        assert(stepped_all(c.members[l].node, c.members[l].inbox) == c.members[l].node);
        assert(d.members[i].inbox.len() == 0) by {
            if d.members[i].inbox.len() > 0 {
                assert(sent.contains(d.members[i].inbox[0]));
            }
        }
    }
    if k >= 2 {
        assert forall|x: int| 0 <= x < d.members[i].inbox.len() implies (
        #[trigger] d.members[i].inbox[x]) == beating(ids[l], ids[i]) by {
            let y = sent.index_of(d.members[i].inbox[x]);
            assert(sent[y] == beating(ids[l], sent[y].to));
        }
    }
    if k == 0 {
        assert(stepped_all(c.members[l].node, c.members[l].inbox) == c.members[l].node);
        assert(sent.contains(asking(ids[l], ids[i])));
    }
    if k == 2 {
        lemma_elected(c, ids, l, t);
        assert(sent.contains(beating(ids[l], ids[i])));
        assert(d.members[i].inbox.contains(beating(ids[l], ids[i])));
    }
    if k == 3 && t == 1 {
        assert(sent.contains(beating(ids[l], ids[i])));
        assert(d.members[i].inbox.contains(beating(ids[l], ids[i])));
    }
}

/// A round brings the cluster a stage on.
proof fn lemma_round_stage(c: ClusterView, ids: Seq<NodeId>, l: int, k: int, t: int)
    requires
        lowest_at(ids, l),
        stage(c, ids, l, k, t),
        0 <= k <= 3,
        0 <= t <= 1,
    ensures
        stage(after_round(c), ids, l, later(k), 0),
{
    let d = after_round(c);
    lemma_stage_sends(c, ids, l, k, t, l);
    lemma_round_bidder(c, ids, l, k, t);
    assert forall|i: int| 0 <= i < ids.len() && i != l implies waiter_at(
        #[trigger] d.members[i],
        ids,
        i,
        l,
        later(k),
        0,
    ) by {
        lemma_round_waiter(c, ids, l, k, t, i);
    }
}

/// The cluster has come to stage `k`, or further.
spec fn come_to(c: ClusterView, ids: Seq<NodeId>, l: int, k: int) -> bool {
    exists|n: int| k <= n <= 3 && #[trigger] stage(c, ids, l, n, 0)
}

/// How far rounds bring the cluster from stage `k`. A node by itself leads at
/// once.
spec fn further(ids: Seq<NodeId>, k: int, rounds: int) -> int {
    if ids.len() == 1 || k + rounds >= 3 {
        3
    } else {
        k + rounds
    }
}

/// Before the last stage there is always something on its way.
proof fn lemma_stage_active(c: ClusterView, ids: Seq<NodeId>, l: int, k: int, t: int)
    requires
        lowest_at(ids, l),
        stage(c, ids, l, k, t),
        0 <= k <= 2,
        ids.len() > 1,
    ensures
        is_active(c),
{
    let w = all_worked(c.members);
    let m = c.members[l];
    let j: int = if l == 0 {
        1
    } else {
        0
    };
    assert(waiter_at(c.members[j], ids, j, l, k, t));
    if k == 0 {
        assert(m.node.outbox.contains(asking(ids[l], ids[j])));
        assert(stepped_all(m.node, m.inbox) == m.node);
        assert(w[l] == worked(m));
        assert(has_work(w[l]));
    } else if k == 1 {
        assert(c.members[j].inbox.contains(asking(ids[l], ids[j])));
        assert(has_mail(c.members[j]));
    } else {
        assert(m.inbox.contains(voting(ids[j], ids[l])));
        assert(has_mail(c.members[l]));
    }
}

proof fn lemma_rounds_stage(
    c: ClusterView,
    ids: Seq<NodeId>,
    l: int,
    k: int,
    t: int,
    rounds: nat,
)
    requires
        lowest_at(ids, l),
        stage(c, ids, l, k, t),
        0 <= k <= 3,
        0 <= t <= 1,
        rounds >= 1,
        ids.len() == 1 ==> k == 0 || k == 3,
    ensures
        come_to(after_rounds(c, rounds), ids, l, further(ids, k, rounds as int)),
    decreases rounds,
{
    lemma_round_stage(c, ids, l, k, t);
    let d = after_round(c);
    let n = if ids.len() == 1 {
        3
    } else {
        later(k)
    };
    assert(stage(d, ids, l, n, 0));
    if k <= 2 && ids.len() > 1 {
        lemma_stage_active(c, ids, l, k, t);
    }
    if is_active(c) {
        if rounds == 1 {
            assert(after_rounds(d, 0) == d);
        } else {
            lemma_rounds_stage(d, ids, l, n, 0, (rounds - 1) as nat);
            let r = after_rounds(c, rounds);
            let x = choose|x: int|
                further(ids, n, rounds - 1) <= x <= 3 && #[trigger] stage(r, ids, l, x, 0);
            assert(stage(r, ids, l, x, 0));
        }
    }
}

/// A tick disturbs no stage.
proof fn lemma_tick_stage(c: ClusterView, ids: Seq<NodeId>, l: int, k: int)
    requires
        lowest_at(ids, l),
        stage(c, ids, l, k, 0),
        1 <= k <= 3,
    ensures
        stage(all_ticked(c), ids, l, k, 1),
{
    let d = all_ticked(c);
    let m = c.members[l];
    assert(d.members[l] == ticked_member(m));
    lemma_patience(ids, l, l);
    if m.node.role == Role::Leader {
        let t = NodeView { elapsed: 1, ..m.node };
        lemma_broadcast(t);
        let s = ticked(m.node);
        assert(s == (NodeView { elapsed: 0, ..broadcast(t) }));
        assert(s.outbox =~= beats(m.node));
        assert forall|x: int| 0 <= x < s.outbox.len() implies called(
            #[trigger] s.outbox[x],
            ids[l],
        ) by {
            cluster_state::lemma_others(ids, ids[l], ids[l]);
            assert(m.node.config.peers.contains(m.node.config.peers[x]));
        }
        assert forall|j: int| 0 <= j < ids.len() && j != l implies s.outbox.contains(
            beating(ids[l], #[trigger] ids[j]),
        ) by {
            cluster_state::lemma_others(ids, ids[l], ids[j]);
            assert(ids.contains(ids[j]));
            let x = m.node.config.peers.index_of(ids[j]);
            assert(beats(m.node)[x] == beating(ids[l], ids[j]));
        }
        if ids.len() == 1 {
            cluster_state::lemma_others_count(ids, ids[l]);
            assert(ids.contains(ids[l]));
        }
        assert(bids(s));
        assert(empty_handed(s, ids, l));
    } else {
        let s = ticked(m.node);
        assert(s == (NodeView { elapsed: (m.node.elapsed + 1) as u32, ..m.node }));
        assert(bids(s));
        assert(empty_handed(s, ids, l));
    }
    assert(bidder_at(d.members[l], ids, l, k, 1));
    assert forall|i: int| 0 <= i < ids.len() && i != l implies waiter_at(
        #[trigger] d.members[i],
        ids,
        i,
        l,
        k,
        1,
    ) by {
        assert(waiter_at(c.members[i], ids, i, l, k, 0));
        lemma_patience(ids, l, i);
        assert(d.members[i] == ticked_member(c.members[i]));
    }
}

// ---- before the first election -----------------------------------------------------------

/// Nothing has happened yet but ticks.
spec fn idle(ids: Seq<NodeId>, e: int) -> ClusterView {
    ClusterView {
        members: Seq::new(
            ids.len(),
            |i: int|
                MemberView {
                    node: NodeView { elapsed: e as u32, ..fresh_member(ids, i).node },
                    ..fresh_member(ids, i)
                },
        ),
        cut: Set::empty(),
    }
}

proof fn lemma_nothing_sent(ms: Seq<MemberView>)
    requires
        forall|i: int| 0 <= i < ms.len() ==> (#[trigger] ms[i]).node.outbox.len() == 0,
    ensures
        all_sent(ms).len() == 0,
    decreases ms.len(),
{
    if ms.len() > 0 {
        let d = ms.drop_last();
        assert forall|i: int| 0 <= i < d.len() implies (#[trigger] d[i]).node.outbox.len()
            == 0 by {
            assert(d[i] == ms[i]);
        }
        lemma_nothing_sent(d);
        assert(ms[ms.len() - 1].node.outbox.len() == 0);
    }
}

proof fn lemma_idle_round(ids: Seq<NodeId>, e: int)
    ensures
        after_round(idle(ids, e)) == idle(ids, e),
{
    let c = idle(ids, e);
    let w = all_worked(c.members);
    assert forall|i: int| 0 <= i < ids.len() implies #[trigger] w[i] == c.members[i] by {
        let m = c.members[i];
        assert(stepped_all(m.node, m.inbox) == m.node);
        assert(m.inbox =~= seq![]);
    }
    assert(w =~= c.members);
    lemma_nothing_sent(w);
    let s = all_settled(w);
    assert forall|i: int| 0 <= i < ids.len() implies #[trigger] s[i] == c.members[i] by {
        let m = c.members[i];
        assert(m.node == drained(m.node));
        rounds::lemma_quiet_settled(m);
        assert(s[i] == settled_member(w[i]));
    }
    assert(s =~= c.members);
    assert(all_delivered(s, c.cut, all_sent(w)) == s);
}

proof fn lemma_idle_rounds(ids: Seq<NodeId>, e: int, rounds: nat)
    ensures
        after_rounds(idle(ids, e), rounds) == idle(ids, e),
    decreases rounds,
{
    lemma_idle_round(ids, e);
    if rounds > 0 && is_active(idle(ids, e)) {
        lemma_idle_rounds(ids, e, (rounds - 1) as nat);
    }
}

proof fn lemma_idle_ticks(ids: Seq<NodeId>, l: int, ticks: nat, rounds: nat)
    requires
        lowest_at(ids, l),
        ticks < 10,
    ensures
        after_ticks(fresh_cluster(ids), ticks, rounds) == idle(ids, ticks as int),
    decreases ticks,
{
    if ticks == 0 {
        assert(fresh_cluster(ids) =~= idle(ids, 0)) by {
            assert forall|i: int| 0 <= i < ids.len() implies #[trigger] idle(ids, 0).members[i]
                == fresh_member(ids, i) by {}
            assert(fresh_cluster(ids).members =~= idle(ids, 0).members);
        }
    } else {
        let e = ticks - 1;
        lemma_idle_ticks(ids, l, e as nat, rounds);
        let c = idle(ids, e);
        let d = idle(ids, ticks as int);
        assert forall|i: int| 0 <= i < ids.len() implies #[trigger] all_ticked(c).members[i]
            == d.members[i] by {
            lemma_patience(ids, l, i);
            assert(all_ticked(c).members[i] == ticked_member(c.members[i]));
        }
        assert(all_ticked(c).members =~= d.members);
        assert(all_ticked(c) == d);
        lemma_idle_rounds(ids, ticks as int, rounds);
    }
}

proof fn lemma_asked(s: NodeView, n: int)
    requires
        s.term == 1,
        s.log.len() == 0,
        0 <= n <= s.config.peers.len(),
    ensures
        asked(s, n) == (NodeView {
            outbox: s.outbox + Seq::new(n as nat, |x: int| asking(s.id, s.config.peers[x])),
            ..s
        }),
    decreases n,
{
    let all = Seq::new(n as nat, |x: int| asking(s.id, s.config.peers[x]));
    if n > 0 {
        lemma_asked(s, n - 1);
        assert(asked(s, n).outbox =~= s.outbox + all);
    } else {
        assert(s.outbox =~= s.outbox + all);
    }
}

/// The tick that ends the patience of the lowest id.
proof fn lemma_stands(ids: Seq<NodeId>, l: int)
    requires
        lowest_at(ids, l),
    ensures
        stage(all_ticked(idle(ids, 9)), ids, l, 0, 1),
{
    let c = idle(ids, 9);
    let d = all_ticked(c);
    let m = c.members[l];
    let peers = m.node.config.peers;
    assert(d.members[l] == ticked_member(m));
    lemma_patience(ids, l, l);
    cluster_state::lemma_others_count(ids, ids[l]);
    assert(ids.contains(ids[l]));
    let t = NodeView { elapsed: 10, ..m.node };
    assert(ticked(m.node) == standing(t));
    let fresh = persisted(
        NodeView {
            role: Role::Candidate,
            term: 1,
            vote: Some(t.id),
            votes: Map::<NodeId, bool>::empty().insert(t.id, true),
            elapsed: 0,
            leader: None,
            ..t
        },
    );
    lemma_asked(fresh, peers.len() as int);
    let a = asked(fresh, peers.len() as int);
    let s = ticked(m.node);
    assert(s == counted(a));
    let w = nodes_with(a.votes, given());
    assert(w =~= Set::<NodeId>::empty().insert(ids[l]));
    assert(w.len() == 1);
    if ids.len() == 1 {
        lemma_leading(a);
        assert(s == leading(a));
        assert(s.outbox.len() == 0);
    } else {
        lemma_peers_some(ids, l);
        assert(s == a);
    }
    assert forall|x: int| 0 <= x < s.outbox.len() implies called(#[trigger] s.outbox[x], ids[l]) by {
        cluster_state::lemma_others(ids, ids[l], ids[l]);
        assert(peers.contains(peers[x]));
        assert(s.outbox[x] == asking(ids[l], peers[x]));
    }
    assert forall|j: int| 0 <= j < ids.len() && j != l implies s.outbox.contains(
        asking(ids[l], #[trigger] ids[j]),
    ) by {
        cluster_state::lemma_others(ids, ids[l], ids[j]);
        assert(ids.contains(ids[j]));
        let x = peers.index_of(ids[j]);
        assert(s.outbox[x] == asking(ids[l], ids[j]));
    }
    assert forall|i: int| 0 <= i < ids.len() && i != l implies waiter_at(
        #[trigger] d.members[i],
        ids,
        i,
        l,
        0,
        1,
    ) by {
        lemma_patience(ids, l, i);
        assert(d.members[i] == ticked_member(c.members[i]));
    }
}

proof fn lemma_peers_some(ids: Seq<NodeId>, l: int)
    requires
        lowest_at(ids, l),
        ids.len() > 1,
    ensures
        others(ids, ids[l]).len() > 0,
{
    let j = if l == 0 {
        1
    } else {
        0
    };
    cluster_state::lemma_others(ids, ids[l], ids[j]);
    assert(ids.contains(ids[j]));
}

/// There were enough rounds since the patience of the lowest id ended: the votes
/// are asked for, given and counted.
pub open spec fn enough(ticks: nat, rounds: nat) -> bool {
    ticks >= 10 && rounds >= 1 && (ticks - 9) * rounds >= 3
}

proof fn lemma_comes_to(ids: Seq<NodeId>, l: int, ticks: nat, rounds: nat)
    requires
        lowest_at(ids, l),
        ticks >= 10,
        rounds >= 1,
    ensures
        come_to(
            after_ticks(fresh_cluster(ids), ticks, rounds),
            ids,
            l,
            further(ids, 0, (ticks - 9) * rounds),
        ),
    decreases ticks,
{
    let c = after_ticks(fresh_cluster(ids), (ticks - 1) as nat, rounds);
    let r = after_ticks(fresh_cluster(ids), ticks, rounds);
    let all = (ticks - 9) * rounds;
    if ticks == 10 {
        lemma_idle_ticks(ids, l, 9, rounds);
        lemma_stands(ids, l);
        lemma_rounds_stage(all_ticked(c), ids, l, 0, 1, rounds);
        assert(all == rounds) by (nonlinear_arith)
            requires
                all == (ticks - 9) * rounds,
                ticks == 10,
        ;
    } else {
        lemma_comes_to(ids, l, (ticks - 1) as nat, rounds);
        let prior = (ticks - 10) * rounds;
        assert(all == prior + rounds && prior >= 1) by (nonlinear_arith)
            requires
                all == (ticks - 9) * rounds,
                prior == (ticks - 10) * rounds,
                ticks >= 11,
                rounds >= 1,
        ;
        let n = choose|n: int|
            further(ids, 0, prior) <= n <= 3 && #[trigger] stage(c, ids, l, n, 0);
        lemma_tick_stage(c, ids, l, n);
        lemma_rounds_stage(all_ticked(c), ids, l, n, 1, rounds);
        let x = choose|x: int|
            further(ids, n, rounds as int) <= x <= 3 && #[trigger] stage(r, ids, l, x, 0);
        assert(stage(r, ids, l, x, 0));
    }
}

/// From a cold start the node with the lowest id wins and keeps the lead, in
/// whatever order the ids are given, as long as each tick has at least one round
/// for what was sent, and nothing else happens: from the tenth tick on it is the
/// leader, and the only one, once there were three rounds.
pub proof fn lemma_cold_start(ids: Seq<NodeId>, l: int, ticks: nat, rounds: nat)
    requires
        ids.no_duplicates(),
        10 + 5 * ids.len() <= u32::MAX,
        0 <= l < ids.len(),
        forall|j: int| 0 <= j < ids.len() ==> ids[l] <= #[trigger] ids[j],
        enough(ticks, rounds),
    ensures
        leader_place(after_ticks(fresh_cluster(ids), ticks, rounds).members) == Some(l),
        after_ticks(fresh_cluster(ids), ticks, rounds).members[l].id == ids[l],
        forall|i: int|
            0 <= i < ids.len() && i != l ==> (#[trigger] after_ticks(
                fresh_cluster(ids),
                ticks,
                rounds,
            ).members[i]).node.role == Role::Follower,
{
    lemma_comes_to(ids, l, ticks, rounds);
    let r = after_ticks(fresh_cluster(ids), ticks, rounds);
    assert(stage(r, ids, l, 3, 0));
    assert forall|i: int| 0 <= i < ids.len() && i != l implies (#[trigger] r.members[i]).node.role
        == Role::Follower by {
        assert(waiter_at(r.members[i], ids, i, l, 3, 0));
    }
    cluster_state::lemma_leader_place(r.members);
    assert(r.members[l].alive && r.members[l].node.role == Role::Leader);
}

/// The standing of a cluster in which nothing was proposed yet, led by the one
/// at place `l`.
pub open spec fn at_rest(ids: Seq<NodeId>, l: int) -> Standing {
    Standing {
        ids,
        living: ids.to_set(),
        lead: l,
        term: 1,
        log: seq![],
        store: Contents::empty(),
        applied: 0,
    }
}

/// After a cold start the cluster has settled: it is ready for commands.
pub proof fn lemma_cold_start_settles(ids: Seq<NodeId>, l: int, ticks: nat, rounds: nat)
    requires
        ids.no_duplicates(),
        10 + 5 * ids.len() <= u32::MAX,
        0 <= l < ids.len(),
        forall|j: int| 0 <= j < ids.len() ==> ids[l] <= #[trigger] ids[j],
        enough(ticks, rounds),
    ensures
        at_rest(ids, l).wf(),
        replication::settled(after_ticks(fresh_cluster(ids), ticks, rounds), at_rest(ids, l)),
        at_rest(ids, l).store == written_all(
            Contents::empty(),
            writes_of(at_rest(ids, l).log),
        ),
{
    lemma_comes_to(ids, l, ticks, rounds);
    let z = at_rest(ids, l);
    let r = after_ticks(fresh_cluster(ids), ticks, rounds);
    ids.unique_seq_to_set();
    assert(ids.contains(ids[l]));
    assert forall|i: int| 0 <= i < ids.len() implies #[trigger] z.lives(i) by {
        assert(ids.contains(ids[i]));
    }
    assert(stage(r, ids, l, 3, 0));
    let m = r.members[l];
    assert(m.node.log =~= z.log);
    assert forall|x: int| 0 <= x < m.inbox.len() implies (#[trigger] m.inbox[x])
        == replication::answer(z, m.inbox[x].from) by {
        assert(m.inbox[x] == agreeing(m.inbox[x].from, ids[l]));
    }
    assert(replication::leads_quietly(m, z));
    assert forall|i: int| z.other(i) implies replication::keeps_up(
        #[trigger] r.members[i],
        z,
        i,
    ) by {
        let w = r.members[i];
        assert(waiter_at(w, ids, i, l, 3, 0));
        assert(w.node.log =~= z.log);
        assert forall|x: int| 0 <= x < w.inbox.len() implies (#[trigger] w.inbox[x])
            == replication::heartbeat(z, ids[i]) by {
            assert(w.inbox[x] == beating(ids[l], ids[i]));
        }
    }
}

/// From a cold start on, without faults, every member ends up with the same log
/// and the same store, whatever commands the leader is given one after another:
/// the log has the commands in order, and the store what they write.
pub proof fn lemma_commands_from_cold_start(
    ids: Seq<NodeId>,
    l: int,
    start: nat,
    commands: Seq<Seq<u8>>,
    ticks: nat,
    rounds: nat,
    i: int,
)
    requires
        ids.no_duplicates(),
        10 + 5 * ids.len() <= u32::MAX,
        0 <= l < ids.len(),
        forall|j: int| 0 <= j < ids.len() ==> ids[l] <= #[trigger] ids[j],
        enough(start, rounds),
        commands.len() + 1 < u64::MAX,
        ticks >= 5,
        rounds >= 1,
        0 <= i < ids.len(),
    ensures
        ({
            let c = after_ticks(fresh_cluster(ids), start, rounds);
            let m = served(c, l, commands, ticks, rounds).members[i];
            &&& m.id == ids[i]
            &&& m.node.log.len() == commands.len()
            &&& forall|k: int|
                0 <= k < commands.len() ==> (#[trigger] m.node.log[k]).data == commands[k]
            &&& m.node.commit == commands.len()
            &&& m.store == written_all(Contents::empty(), writes_of(m.node.log))
        }),
{
    let c = after_ticks(fresh_cluster(ids), start, rounds);
    let z = at_rest(ids, l);
    lemma_cold_start_settles(ids, l, start, rounds);
    assert(ids.contains(ids[i]));
    replication::lemma_commands_reach_all(c, z, commands, ticks, rounds, i);
    let m = served(c, l, commands, ticks, rounds).members[i];
    assert forall|k: int| 0 <= k < commands.len() implies (#[trigger] m.node.log[k]).data
        == commands[k] by {
        assert(m.node.log[z.log.len() + k].data == commands[k]);
    }
}

} // verus!
