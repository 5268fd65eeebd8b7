//! A leader that is cut off commits nothing.

use vstd::prelude::*;

use crate::raft::commits::{self, prompt};
use crate::raft::laws;
use crate::raft::peers::{nodes_with, up_to};
use crate::raft::sends;
use crate::raft::state::{
    behind, broadcast, caught_up, done_with, drained, has_majority, highest_commit, may_commit,
    proposed, proposed_entry, replicas, same_for_all, sent_to, stepped, ticked, to_apply, NodeView,
    Role,
};
use crate::raft::types::{BodyView, MessageView};
use crate::server::chronicle::{chronicled, member_kept, Chronicle};
use crate::server::cluster_state::{
    after_round, all_sent, all_settled, all_worked, sends, settled_member, stepped_all,
    ticked_member, worked, ClusterView,
};
use crate::server::election::member_ok;
use crate::server::rounds;
use crate::server::safety::{self, is_course, makes, regular, Deed};
use crate::types::NodeId;

verus! {

/// No way leads to the member at a place, which is alive.
pub open spec fn unreachable(c: ClusterView, i: int) -> bool {
    &&& 0 <= i < c.members.len()
    &&& c.members[i].alive
    &&& forall|j: int|
        0 <= j < c.members.len() && j != i ==> c.cut.contains(
            ((#[trigger] c.members[j]).id, c.members[i].id),
        )
}

/// No way leads to the member, no mail is left for it, and it has none for itself.
pub open spec fn cut_off(c: ClusterView, i: int) -> bool {
    &&& unreachable(c, i)
    &&& c.members[i].inbox.len() == 0
    &&& forall|x: int|
        0 <= x < c.members[i].node.outbox.len() ==> (#[trigger] c.members[i].node.outbox[x]).to
            != c.members[i].id
}

/// What a leader is that waits for others: nobody has said to have more than its
/// log, and there is nothing left to commit.
spec fn waits(s: NodeView) -> bool {
    &&& s.role == Role::Leader
    &&& prompt(s)
    &&& forall|p: NodeId| #[trigger]
        s.matched.contains_key(p) && p != s.id ==> s.matched[p] <= s.log.len()
    &&& s.config.peers.len() > 0
    &&& !s.config.peers.contains(s.id)
    &&& s.log.len() <= u64::MAX
}

/// From one to the other the leader waits on, and commits nothing.
spec fn waits_on(s: NodeView, t: NodeView) -> bool {
    &&& waits(t)
    &&& t.commit == s.commit
    &&& t.id == s.id
    &&& forall|x: int|
        s.outbox.len() <= x < t.outbox.len() ==> (#[trigger] t.outbox[x]).to != t.id
    &&& s.outbox.is_prefix_of(t.outbox)
}

proof fn lemma_sent_elsewhere(s: NodeView, n: int)
    requires
        !s.config.peers.contains(s.id),
        0 <= n <= s.config.peers.len(),
    ensures
        forall|x: int|
            s.outbox.len() <= x < sent_to(s, n).outbox.len() ==> (#[trigger] sent_to(
                s,
                n,
            ).outbox[x]).to != s.id,
        s.outbox.is_prefix_of(sent_to(s, n).outbox),
        sent_to(s, n) == (NodeView { outbox: sent_to(s, n).outbox, ..s }),
    decreases n,
{
    if n > 0 {
        lemma_sent_elsewhere(s, n - 1);
        assert(s.config.peers.contains(s.config.peers[n - 1]));
    }
}

proof fn lemma_tick_waits(s: NodeView)
    requires
        waits(s),
    ensures
        waits_on(s, ticked(s)),
        ticked(s).log == s.log,
{
    let t = NodeView { elapsed: (s.elapsed + 1) as u32, ..s };
    commits::lemma_tick_prompt(s);
    lemma_sent_elsewhere(t, t.config.peers.len() as int);
}

/// Nobody but the leader has an entry that is new.
proof fn lemma_propose_waits(s: NodeView, data: Seq<u8>)
    requires
        waits(s),
        s.log.len() < u64::MAX,
    ensures
        waits_on(s, proposed(s, data)),
        proposed(s, data).log.len() == s.log.len() + 1,
{
    let p = NodeView { log: s.log.push(proposed_entry(s, data)), ..s };
    let n = p.config.peers.len() as int;
    lemma_sent_elsewhere(p, n);
    let b = broadcast(p);
    let t = proposed(s, data);
    laws::lemma_commit_rule(b, b.log.len() as int);
    let c = highest_commit(b, b.log.len() as int);
    if c > b.commit {
        if c == b.log.len() {
            let have = nodes_with(b.matched, up_to(b.id, c));
            assert forall|q: NodeId| !have.contains(q) by {
                if have.contains(q) {
                    assert(s.matched.contains_key(q));
                }
            }
            assert(have =~= Set::empty());
            assert(replicas(b, c) == 1);
        } else {
            assert(!may_commit(s, c as int));
            assert(b.log[c - 1] == s.log[c - 1]);
            assert(replicas(b, c) == replicas(s, c));
        }
    }
    assert(t.commit == s.commit);
    commits::lemma_propose_prompt(s, data);
    assert forall|q: NodeId| #[trigger] t.matched.contains_key(q) && q != t.id implies t.matched[q]
        <= t.log.len() by {
        assert(s.matched.contains_key(q));
    }
}

/// A round brings a member nothing that is cut off.
proof fn lemma_round_waits(c: ClusterView, i: int)
    requires
        regular(c),
        regular(after_round(c)),
        cut_off(c, i),
        waits(c.members[i].node),
    ensures
        cut_off(after_round(c), i),
        waits(after_round(c).members[i].node),
        after_round(c).members[i].node.commit == c.members[i].node.commit,
        after_round(c).members[i].node.log == c.members[i].node.log,
{
    let ms = c.members;
    let w = all_worked(ms);
    let d = after_round(c).members;
    let m = ms[i];
    assert forall|j: int| 0 <= j < ms.len() implies (#[trigger] w[j]).id == ms[j].id by {}
    assert forall|j: int| 0 <= j < ms.len() && j != i implies (#[trigger] ms[j]).id != m.id by {
        if j < i {
            assert(ms[j].id != ms[i].id);
        } else {
            assert(ms[i].id != ms[j].id);
        }
    }
    rounds::lemma_round_mail(c, i);
    rounds::lemma_delivered(all_settled(w), c.cut, all_sent(w));
    assert(w[i] == worked(m));
    assert(stepped_all(m.node, m.inbox) == m.node);
    assert(all_settled(w)[i] == settled_member(w[i]));
    let s = d[i].node;
    assert(s == done_with(drained(m.node), to_apply(m.node)));
    assert(prompt(s)) by {
        assert forall|n: int| s.commit < n <= s.log.len() implies !#[trigger] may_commit(s, n) by {
            assert(!may_commit(m.node, n));
        }
    }
    assert forall|p: NodeId| #[trigger] s.matched.contains_key(p) && p != s.id implies s.matched[p]
        <= s.log.len() by {
        assert(m.node.matched.contains_key(p));
    }
    assert(d[i].inbox.len() == 0) by {
        if d[i].inbox.len() > 0 {
            let msg = d[i].inbox[0];
            let j = choose|j: int| 0 <= j < ms.len() && sends(#[trigger] w[j]).contains(msg);
            let x = sends(w[j]).index_of(msg);
            assert(w[j] == worked(ms[j]));
            lemma_sender(c, j, msg);
            if j == i {
                assert(m.node.outbox[x] == msg);
            } else {
                assert(c.cut.contains((ms[j].id, m.id)));
            }
        }
    }
    assert forall|j: int| 0 <= j < d.len() && j != i implies c.cut.contains(
        ((#[trigger] d[j]).id, d[i].id),
    ) by {
        rounds::lemma_round_leaves(c, j);
        assert(c.cut.contains((ms[j].id, ms[i].id)));
    }
    rounds::lemma_round_leaves(c, i);
}

/// What a member sends in a round comes from it.
pub proof fn lemma_sender(c: ClusterView, j: int, msg: MessageView)
    requires
        regular(c),
        0 <= j < c.members.len(),
        sends(all_worked(c.members)[j]).contains(msg),
    ensures
        msg.from == c.members[j].id,
{
    let m = c.members[j];
    assert(member_ok(m, c.members.len() as int));
    assert(all_worked(c.members)[j] == worked(m));
    let x = sends(worked(m)).index_of(msg);
    lemma_outbox_from(m.node, m.inbox);
    assert(worked(m).node.outbox[x] == msg);
}

/// All messages come from the node.
spec fn own_mail(s: NodeView) -> bool {
    forall|x: int| 0 <= x < s.outbox.len() ==> (#[trigger] s.outbox[x]).from == s.id
}

proof fn lemma_sent_own(s: NodeView, n: int)
    requires
        own_mail(s),
        n <= s.config.peers.len(),
    ensures
        own_mail(sent_to(s, n)),
        sent_to(s, n) == (NodeView { outbox: sent_to(s, n).outbox, ..s }),
    decreases n,
{
    if n > 0 {
        lemma_sent_own(s, n - 1);
    }
}

proof fn lemma_step_own(s: NodeView, msg: MessageView)
    requires
        own_mail(s),
    ensures
        own_mail(stepped(s, msg)),
        stepped(s, msg).id == s.id,
{
    if msg.term >= s.term {
        let c = caught_up(s, msg);
        if let BodyView::VoteResponse { granted } = msg.body {
            let v = NodeView { votes: c.votes.insert(msg.from, granted), ..c };
            if c.role == Role::Candidate && has_majority(v) {
                let f = NodeView {
                    role: Role::Leader,
                    leader: Some(v.id),
                    elapsed: 0,
                    next: same_for_all(v.config.peers, behind(v.log)),
                    matched: same_for_all(v.config.peers, 0),
                    ..v
                };
                lemma_sent_own(f, f.config.peers.len() as int);
            }
        }
    }
}

proof fn lemma_outbox_from(s: NodeView, msgs: Seq<MessageView>)
    requires
        own_mail(s),
    ensures
        own_mail(stepped_all(s, msgs)),
        stepped_all(s, msgs).id == s.id,
    decreases msgs.len(),
{
    if msgs.len() > 0 {
        lemma_outbox_from(s, msgs.drop_last());
        lemma_step_own(stepped_all(s, msgs.drop_last()), msgs.last());
    }
}

/// In a regular cluster of more than one a leader waits for others.
proof fn lemma_leader_waits(c: ClusterView, i: int)
    requires
        regular(c),
        0 <= i < c.members.len(),
        c.members.len() >= 2,
        c.members[i].node.role == Role::Leader,
    ensures
        waits(c.members[i].node),
{
    reveal(chronicled);
    let ms = c.members;
    let none = Seq::<MessageView>::empty();
    let h = choose|h: Chronicle| #[trigger] chronicled(ms, none, h);
    let s = ms[i].node;
    assert(member_kept(ms, h, ms[i]));
    assert(prompt(c.members[i].node));
    assert forall|p: NodeId| #[trigger] s.matched.contains_key(p) && p != s.id implies s.matched[p]
        <= s.log.len() by {
        if h.ack(p, s.term) != 0 {
            let k = choose|k: int| 0 <= k < ms.len() && (#[trigger] ms[k]).id == p;
            assert(member_kept(ms, h, ms[k]));
            assert(h.ack(ms[k].node.id, s.term) <= h.log(s.term).len());
        }
    }
}

/// A leader that is cut off from all others commits nothing, whatever happens and
/// whatever is proposed to it, for as long as it is cut off; and it goes on to lead.
pub proof fn lemma_cut_off(states: Seq<ClusterView>, deeds: Seq<Deed>, i: int, b: int)
    requires
        is_course(states, deeds),
        regular(states[0]),
        states[0].members.len() >= 2,
        states[0].members[i].node.role == Role::Leader,
        cut_off(states[0], i),
        forall|k: int| 0 <= k < states.len() ==> unreachable(#[trigger] states[k], i),
        0 <= b < states.len(),
    ensures
        cut_off(states[b], i),
        states[b].members.len() == states[0].members.len(),
        states[b].members[i].node.role == Role::Leader,
        states[b].members[i].node.commit == states[0].members[i].node.commit,
    decreases b,
{
    assert(unreachable(states[b], i));
    if b > 0 {
        lemma_cut_off(states, deeds, i, b - 1);
        let p = states[b - 1];
        let d = states[b];
        let deed = deeds[b - 1];
        safety::lemma_stays_regular(states, deeds, b - 1);
        safety::lemma_stays_regular(states, deeds, b);
        assert(makes(states[b - 1], deeds[b - 1], states[b - 1 + 1]));
        lemma_leader_waits(p, i);
        let s = p.members[i].node;
        assert(member_ok(p.members[i], p.members.len() as int));
        match deed {
            Deed::Tick => {
                lemma_tick_waits(s);
                assert(d.members[i] == ticked_member(p.members[i]));
                lemma_outbox_elsewhere(p, d, i);
            },
            Deed::Round => {
                lemma_round_waits(p, i);
                rounds::lemma_round_leaves(p, i);
            },
            Deed::Propose { place, data } => {
                if place == i {
                    lemma_propose_waits(s, data);
                    lemma_outbox_elsewhere(p, d, i);
                } else {
                    assert(d.members[i] == p.members[i]);
                }
            },
            Deed::Fault { place, .. } => {
                assert(d.members[i].node == p.members[i].node);
            },
        }
    }
}

/// What is sent goes elsewhere as before.
proof fn lemma_outbox_elsewhere(p: ClusterView, d: ClusterView, i: int)
    requires
        cut_off(p, i),
        0 <= i < d.members.len(),
        d.members[i].id == p.members[i].id,
        p.members[i].node.id == p.members[i].id,
        waits_on(p.members[i].node, d.members[i].node),
    ensures
        forall|x: int|
            0 <= x < d.members[i].node.outbox.len() ==> (
            #[trigger] d.members[i].node.outbox[x]).to != d.members[i].id,
{
    let a = p.members[i].node.outbox;
    let b = d.members[i].node.outbox;
    assert forall|x: int| 0 <= x < b.len() implies (#[trigger] b[x]).to != d.members[i].id by {
        if x < a.len() {
            assert(a[x] == b[x]);
        }
    }
}

} // verus!
