//! What a round of deliveries changes, and what it leaves alone.

use vstd::prelude::*;

use crate::raft::laws::indexed;
use crate::raft::state::{drained, ticked, to_apply, NodeView};
use crate::raft::types::MessageView;
use crate::server::cluster_state::{
    self, after_round, after_rounds, after_ticks, all_delivered, all_sent, all_settled, all_ticked, all_worked, delivered,
    has_mail, has_work, is_active, sends, settled_member, stepped_all, worked, ClusterView,
    MemberView,
};
use crate::server::state_machine::writes_of;
use crate::storage::engine::written_all;
use crate::types::NodeId;

verus! {

/// Delivery changes nothing but inboxes, and adds to them at the end. What it
/// adds is for that member, which is alive, and came on a way that is not cut.
pub proof fn lemma_delivered(
    ms: Seq<MemberView>,
    cut: Set<(NodeId, NodeId)>,
    msgs: Seq<MessageView>,
)
    ensures
        all_delivered(ms, cut, msgs).len() == ms.len(),
        forall|i: int|
            0 <= i < ms.len() ==> (#[trigger] all_delivered(ms, cut, msgs)[i]) == (MemberView {
                inbox: all_delivered(ms, cut, msgs)[i].inbox,
                ..ms[i]
            }) && ms[i].inbox.is_prefix_of(all_delivered(ms, cut, msgs)[i].inbox),
        forall|i: int, k: int|
            0 <= i < ms.len() && ms[i].inbox.len() <= k < all_delivered(ms, cut, msgs)[i].inbox.len()
                ==> {
                let m = #[trigger] all_delivered(ms, cut, msgs)[i].inbox[k];
                msgs.contains(m) && m.to == ms[i].id && ms[i].alive && !cut.contains(
                    (m.from, m.to),
                )
            },
    decreases msgs.len(),
{
    if msgs.len() > 0 {
        let rest = msgs.drop_last();
        let msg = msgs.last();
        lemma_delivered(ms, cut, rest);
        let a = all_delivered(ms, cut, rest);
        let b = all_delivered(ms, cut, msgs);
        cluster_state::lemma_place_of_id(a, msg.to);
        assert(b == delivered(a, cut, msg));
        assert(msgs.contains(msg)) by {
            assert(msgs[msgs.len() - 1] == msg);
        }
        assert forall|i: int| 0 <= i < ms.len() implies (#[trigger] b[i]) == (MemberView {
            inbox: b[i].inbox,
            ..ms[i]
        }) && ms[i].inbox.is_prefix_of(b[i].inbox) by {
            assert(a[i] == (MemberView { inbox: a[i].inbox, ..ms[i] }));
        }
        assert forall|i: int, k: int|
            0 <= i < ms.len() && ms[i].inbox.len() <= k < b[i].inbox.len() implies {
            let m = #[trigger] b[i].inbox[k];
            msgs.contains(m) && m.to == ms[i].id && ms[i].alive && !cut.contains((m.from, m.to))
        } by {
            assert(a[i] == (MemberView { inbox: a[i].inbox, ..ms[i] }));
            if k < a[i].inbox.len() {
                let m = a[i].inbox[k];
                assert(b[i].inbox[k] == m);
                assert(rest.contains(m));
                let j = rest.index_of(m);
                assert(msgs[j] == m);
            }
        }
    }
}

/// A message to a member that is alive arrives, if its way is not cut and the
/// members have numbers of their own.
pub proof fn lemma_arrives(
    ms: Seq<MemberView>,
    cut: Set<(NodeId, NodeId)>,
    msgs: Seq<MessageView>,
    i: int,
    msg: MessageView,
)
    requires
        0 <= i < ms.len(),
        ms[i].alive,
        msg.to == ms[i].id,
        msgs.contains(msg),
        !cut.contains((msg.from, msg.to)),
        forall|j: int| 0 <= j < ms.len() && j != i ==> (#[trigger] ms[j]).id != ms[i].id,
    ensures
        all_delivered(ms, cut, msgs)[i].inbox.contains(msg),
    decreases msgs.len(),
{
    let rest = msgs.drop_last();
    let last = msgs.last();
    let a = all_delivered(ms, cut, rest);
    let b = all_delivered(ms, cut, msgs);
    lemma_delivered(ms, cut, rest);
    lemma_delivered(ms, cut, msgs);
    cluster_state::lemma_place_of_id(a, last.to);
    assert(b == delivered(a, cut, last));
    assert(a[i] == (MemberView { inbox: a[i].inbox, ..ms[i] }));
    if rest.contains(msg) {
        lemma_arrives(ms, cut, rest, i, msg);
        let k = a[i].inbox.index_of(msg);
        assert(b[i].inbox[k] == msg);
    } else {
        let k = msgs.index_of(msg);
        if k < rest.len() {
            assert(rest[k] == msg);
        }
        assert(last == msg);
        match cluster_state::place_of_id(a, msg.to) {
            Some(p) => {
                assert(a[p] == (MemberView { inbox: a[p].inbox, ..ms[p] }));
                assert(p == i);
                assert(b[i].inbox[a[i].inbox.len() as int] == msg);
            },
            None => {},
        }
    }
}

/// What the members send is what each of them sends.
pub proof fn lemma_all_sent(ms: Seq<MemberView>, msg: MessageView)
    ensures
        all_sent(ms).contains(msg) <==> exists|i: int|
            0 <= i < ms.len() && sends(#[trigger] ms[i]).contains(msg),
    decreases ms.len(),
{
    if ms.len() > 0 {
        let d = ms.drop_last();
        let s = sends(ms.last());
        let a = all_sent(d);
        lemma_all_sent(d, msg);
        if a.contains(msg) {
            let k = a.index_of(msg);
            assert(all_sent(ms)[k] == msg);
            let i = choose|i: int| 0 <= i < d.len() && sends(#[trigger] d[i]).contains(msg);
            assert(sends(ms[i]).contains(msg));
        }
        if s.contains(msg) {
            let k = s.index_of(msg);
            assert(all_sent(ms)[a.len() + k] == msg);
            assert(sends(ms[ms.len() - 1]).contains(msg));
        }
        if all_sent(ms).contains(msg) {
            let k = all_sent(ms).index_of(msg);
            if k < a.len() {
                assert(a[k] == msg);
            } else {
                assert(s[k - a.len()] == msg);
            }
        }
        if exists|i: int| 0 <= i < ms.len() && sends(#[trigger] ms[i]).contains(msg) {
            let i = choose|i: int| 0 <= i < ms.len() && sends(#[trigger] ms[i]).contains(msg);
            if i < d.len() {
                assert(sends(d[i]).contains(msg));
            }
        }
    }
}

/// The mail of a living member after a round: what was sent to it, on a way that is
/// not cut.
pub proof fn lemma_round_mail(c: ClusterView, i: int)
    requires
        0 <= i < c.members.len(),
        c.members[i].alive,
        forall|j: int|
            0 <= j < c.members.len() && j != i ==> (#[trigger] c.members[j]).id
                != c.members[i].id,
    ensures
        forall|x: int|
            0 <= x < after_round(c).members[i].inbox.len() ==> {
                let m = #[trigger] after_round(c).members[i].inbox[x];
                m.to == c.members[i].id && !c.cut.contains((m.from, m.to)) && exists|j: int|
                    0 <= j < c.members.len() && sends(
                        #[trigger] all_worked(c.members)[j],
                    ).contains(m)
            },
        forall|j: int, m: MessageView|
            0 <= j < c.members.len() && m.to == c.members[i].id && !c.cut.contains((m.from, m.to))
                && #[trigger] sends(all_worked(c.members)[j]).contains(m) ==> after_round(c).members[i].inbox.contains(m),
{
    let w = all_worked(c.members);
    let s = all_settled(w);
    let msgs = all_sent(w);
    lemma_delivered(s, c.cut, msgs);
    assert(w[i] == worked(c.members[i]));
    assert(s[i] == settled_member(w[i]));
    assert(s[i].inbox.len() == 0);
    let d = after_round(c).members;
    assert forall|x: int| 0 <= x < d[i].inbox.len() implies {
        let m = #[trigger] d[i].inbox[x];
        m.to == c.members[i].id && !c.cut.contains((m.from, m.to)) && exists|j: int|
            0 <= j < c.members.len() && sends(#[trigger] w[j]).contains(m)
    } by {
        let m = d[i].inbox[x];
        lemma_all_sent(w, m);
    }
    assert forall|j: int| 0 <= j < s.len() && j != i implies (#[trigger] s[j]).id != s[i].id by {
        assert(s[j] == settled_member(worked(c.members[j])));
        assert(s[j].id == c.members[j].id);
    }
    assert forall|j: int, m: MessageView|
        0 <= j < c.members.len() && m.to == c.members[i].id && !c.cut.contains((m.from, m.to))
            && #[trigger] sends(w[j]).contains(m) implies d[i].inbox.contains(m) by {
        lemma_all_sent(w, m);
        lemma_arrives(s, c.cut, msgs, i, m);
    }
}

/// A round in which nothing happens changes nothing, except that it takes note of
/// what was saved.
pub proof fn lemma_idle_round(c: ClusterView)
    requires
        !is_active(c),
    ensures
        after_round(c).cut == c.cut,
        after_round(c).members.len() == c.members.len(),
        forall|i: int|
            0 <= i < c.members.len() ==> (#[trigger] after_round(c).members[i]) == (
            if c.members[i].alive {
                MemberView { node: NodeView { news: None, ..c.members[i].node }, ..c.members[i] }
            } else {
                c.members[i]
            }),
{
    let w = all_worked(c.members);
    let s = all_settled(w);
    let sent = all_sent(w);
    let d = after_round(c).members;
    lemma_delivered(s, c.cut, sent);
    assert forall|m: MessageView| !(#[trigger] sent.contains(m)) by {
        lemma_all_sent(w, m);
        if sent.contains(m) {
            let i = choose|i: int| 0 <= i < w.len() && sends(#[trigger] w[i]).contains(m);
            assert(!has_work(w[i]));
        }
    }
    assert forall|i: int| 0 <= i < c.members.len() implies (#[trigger] d[i]) == (
    if c.members[i].alive {
        MemberView { node: NodeView { news: None, ..c.members[i].node }, ..c.members[i] }
    } else {
        c.members[i]
    }) by {
        let m = c.members[i];
        assert(w[i] == worked(m));
        assert(s[i] == settled_member(w[i]));
        assert(!has_mail(c.members[i]));
        assert(!has_work(w[i]));
        if d[i].inbox.len() > s[i].inbox.len() {
            assert(sent.contains(d[i].inbox[s[i].inbox.len() as int]));
        }
        assert(d[i].inbox =~= s[i].inbox);
        if m.alive {
            assert(m.inbox =~= seq![]);
            assert(w[i] == m);
            assert(m.node.outbox =~= seq![]);
            let es = to_apply(m.node);
            assert(es =~= seq![]);
            assert(writes_of(es) =~= seq![]);
        }
    }
}

/// A round leaves the cuts alone, who the members are and which of them are
/// alive; a member that is down is left as it is; and so is one that has no
/// mail, nothing to send and nothing to apply, but for new mail.
pub proof fn lemma_round_leaves(c: ClusterView, i: int)
    requires
        0 <= i < c.members.len(),
    ensures
        after_round(c).cut == c.cut,
        after_round(c).members.len() == c.members.len(),
        after_round(c).members[i].id == c.members[i].id,
        after_round(c).members[i].alive == c.members[i].alive,
        !c.members[i].alive ==> after_round(c).members[i] == c.members[i],
        c.members[i].alive && c.members[i].inbox.len() == 0 && c.members[i].node == drained(
            c.members[i].node,
        ) && to_apply(c.members[i].node).len() == 0 ==> after_round(c).members[i] == (MemberView {
            inbox: after_round(c).members[i].inbox,
            ..c.members[i]
        }),
{
    let w = all_worked(c.members);
    let s = all_settled(w);
    let m = c.members[i];
    lemma_delivered(s, c.cut, all_sent(w));
    assert(w[i] == worked(m));
    assert(s[i] == settled_member(worked(m)));
    let d = all_delivered(s, c.cut, all_sent(w));
    assert(d[i] == (MemberView { inbox: d[i].inbox, ..s[i] }));
    if m.alive {
        if m.inbox.len() == 0 && m.node == drained(m.node) && to_apply(m.node).len() == 0 {
            assert(stepped_all(m.node, m.inbox) == m.node);
            lemma_quiet_settled(MemberView { inbox: seq![], ..m });
        }
    } else {
        assert(d[i].inbox =~= m.inbox) by {
            if d[i].inbox.len() > m.inbox.len() {
                assert(s[i].inbox.len() <= m.inbox.len());
                let x = d[i].inbox[m.inbox.len() as int];
                assert(s[i].alive);
            }
        }
    }
}

/// A member with nothing to send and nothing to apply stays what it is.
pub proof fn lemma_quiet_settled(m: MemberView)
    requires
        m.node == drained(m.node),
        to_apply(m.node).len() == 0,
    ensures
        settled_member(m) == m,
{
    let es = to_apply(m.node);
    assert(writes_of(es) =~= seq![]);
}

/// Rounds leave alone what a round does.
pub proof fn lemma_rounds_leave(c: ClusterView, rounds: nat, i: int)
    requires
        0 <= i < c.members.len(),
    ensures
        after_rounds(c, rounds).cut == c.cut,
        after_rounds(c, rounds).members.len() == c.members.len(),
        after_rounds(c, rounds).members[i].id == c.members[i].id,
        after_rounds(c, rounds).members[i].alive == c.members[i].alive,
        !c.members[i].alive ==> after_rounds(c, rounds).members[i] == c.members[i],
    decreases rounds,
{
    lemma_round_leaves(c, i);
    if rounds > 0 && is_active(c) {
        lemma_rounds_leave(after_round(c), (rounds - 1) as nat, i);
    }
}

/// The cluster after exactly so many rounds.
pub open spec fn rounds_on(c: ClusterView, n: nat) -> ClusterView
    decreases n,
{
    if n == 0 {
        c
    } else {
        rounds_on(after_round(c), (n - 1) as nat)
    }
}

/// Rounds go on until nothing happens in one, or until there were as many as there may
/// be.
pub proof fn lemma_rounds_exact(c: ClusterView, rounds: nat) -> (n: nat)
    ensures
        n <= rounds,
        after_rounds(c, rounds) == rounds_on(c, n),
        n < rounds ==> n >= 1 && !is_active(rounds_on(c, (n - 1) as nat)),
        forall|k: nat| 0 < k < n ==> is_active(#[trigger] rounds_on(c, (k - 1) as nat)),
    decreases rounds,
{
    if rounds == 0 {
        0
    } else if is_active(c) {
        let d = after_round(c);
        let m = lemma_rounds_exact(d, (rounds - 1) as nat);
        let n = (m + 1) as nat;
        assert(rounds_on(c, n) == rounds_on(d, m));
        assert forall|k: nat| 0 < k < n implies is_active(#[trigger] rounds_on(c, (k - 1) as nat)) by {
            if k > 1 {
                assert(rounds_on(c, (k - 1) as nat) == rounds_on(d, (k - 2) as nat));
                let j = (k - 1) as nat;
                assert(0 < j < m);
                assert(is_active(rounds_on(d, (j - 1) as nat)));
            }
        }
        if n < rounds {
            assert(rounds_on(c, (n - 1) as nat) == rounds_on(d, (m - 1) as nat));
        }
        n
    } else {
        assert(rounds_on(c, 1) == rounds_on(after_round(c), 0));
        1
    }
}

/// Ticks and then more ticks are ticks; one is a tick of every living member and its
/// rounds.
pub proof fn lemma_ticks_add(c: ClusterView, a: nat, b: nat, rounds: nat)
    ensures
        after_ticks(c, a + b, rounds) == after_ticks(after_ticks(c, a, rounds), b, rounds),
        after_ticks(c, 1, rounds) == after_rounds(all_ticked(c), rounds),
        after_ticks(c, 0, rounds) == c,
    decreases b,
{
    assert(after_ticks(c, 0, rounds) == c);
    if b > 0 {
        lemma_ticks_add(c, a, (b - 1) as nat, rounds);
    }
}

/// A tick reaches every member that is alive, and no other.
pub proof fn lemma_ticks_all(c: ClusterView, i: int)
    requires
        0 <= i < c.members.len(),
    ensures
        all_ticked(c).cut == c.cut,
        all_ticked(c).members.len() == c.members.len(),
        !c.members[i].alive ==> all_ticked(c).members[i] == c.members[i],
        c.members[i].alive ==> all_ticked(c).members[i] == (MemberView {
            node: ticked(c.members[i].node),
            ..c.members[i]
        }),
{
}

/// In a round a living member deals with its whole inbox, in order, and has then
/// applied what is committed and sent what it had to send.
pub proof fn lemma_round_works(c: ClusterView, i: int)
    requires
        0 <= i < c.members.len(),
        c.members[i].alive,
    ensures
        ({
            let m = c.members[i];
            let r = stepped_all(m.node, m.inbox);
            let n = after_round(c).members[i];
            &&& n.node.outbox.len() == 0
            &&& n.node.log == r.log && n.node.term == r.term && n.node.role == r.role
            &&& n.node.commit == r.commit && n.node.vote == r.vote
            &&& n.store == written_all(m.store, writes_of(to_apply(r)))
            &&& r.applied <= r.commit <= r.log.len() && indexed(r.log) && r.commit < u64::MAX
                ==> n.node.applied == r.commit
        }),
{
    let w = all_worked(c.members);
    let m = c.members[i];
    let r = stepped_all(m.node, m.inbox);
    lemma_delivered(all_settled(w), c.cut, all_sent(w));
    assert(w[i] == worked(m));
    assert(all_settled(w)[i] == settled_member(w[i]));
    if r.applied < r.commit <= r.log.len() && r.commit < u64::MAX {
        let es = to_apply(r);
        assert(es.last() == r.log[r.commit - 1]);
    }
}

} // verus!
