//! What a cluster is, as a value, and what each event makes of it.

use vstd::prelude::*;

use crate::raft::laws;
use crate::raft::state::{
    done_with, drained, later_index, stepped, ticked, to_apply, ConfigView, NodeView, Role,
};
use crate::raft::types::{EntryView, HardState, MessageView};
use crate::server::state_machine::{wanted, writes_of};
use crate::storage::engine::{written_all, Contents};
use crate::types::{LogIndex, NodeId};

verus! {

/// What a member of the cluster is.
#[verifier::ext_equal]
pub struct MemberView {
    pub id: NodeId,
    pub node: NodeView,
    /// What its store holds.
    pub store: Contents,
    /// How far its state machine has come.
    pub applied: LogIndex,
    pub inbox: Seq<MessageView>,
    pub alive: bool,
}

/// What a cluster is.
#[verifier::ext_equal]
pub struct ClusterView {
    pub members: Seq<MemberView>,
    /// The ways that are cut.
    pub cut: Set<(NodeId, NodeId)>,
}

/// The others, in order.
pub open spec fn others(ids: Seq<NodeId>, id: NodeId) -> Seq<NodeId>
    decreases ids.len(),
{
    if ids.len() == 0 {
        seq![]
    } else {
        let rest = others(ids.drop_last(), id);
        if ids.last() == id {
            rest
        } else {
            rest.push(ids.last())
        }
    }
}

/// How many of the ids are below `id`.
pub open spec fn rank(ids: Seq<NodeId>, id: NodeId) -> nat
    decreases ids.len(),
{
    if ids.len() == 0 {
        0
    } else if ids.last() < id {
        rank(ids.drop_last(), id) + 1
    } else {
        rank(ids.drop_last(), id)
    }
}

/// The member at place `i` of a fresh cluster. The election timeouts are
/// staggered by id, so that from a cold start the lowest id wins.
pub open spec fn fresh_member(ids: Seq<NodeId>, i: int) -> MemberView {
    let none = HardState { term: 0, vote: None, commit: 0 };
    MemberView {
        id: ids[i],
        node: NodeView {
            id: ids[i],
            role: Role::Follower,
            term: 0,
            vote: None,
            commit: 0,
            applied: 0,
            leader: None,
            next: Map::empty(),
            matched: Map::empty(),
            votes: Map::empty(),
            elapsed: 0,
            log: seq![],
            saved: none,
            outbox: seq![],
            news: None,
            config: ConfigView {
                peers: others(ids, ids[i]),
                heartbeat_interval: 1,
                election_timeout: (10 + 5 * rank(ids, ids[i])) as u32,
                max_entries_per_msg: 64,
            },
        },
        store: Map::empty(),
        applied: 0,
        inbox: seq![],
        alive: true,
    }
}

/// A fresh cluster.
pub open spec fn fresh_cluster(ids: Seq<NodeId>) -> ClusterView {
    ClusterView {
        members: Seq::new(ids.len(), |i: int| fresh_member(ids, i)),
        cut: Set::empty(),
    }
}

/// A member after a tick.
pub open spec fn ticked_member(m: MemberView) -> MemberView {
    if m.alive {
        MemberView { node: ticked(m.node), ..m }
    } else {
        m
    }
}

/// The cluster after a tick of every member that is alive.
pub open spec fn all_ticked(c: ClusterView) -> ClusterView {
    ClusterView { members: c.members.map_values(|m: MemberView| ticked_member(m)), ..c }
}

/// A node after a list of messages, in order.
pub open spec fn stepped_all(s: NodeView, msgs: Seq<MessageView>) -> NodeView
    decreases msgs.len(),
{
    if msgs.len() == 0 {
        s
    } else {
        stepped(stepped_all(s, msgs.drop_last()), msgs.last())
    }
}

/// A member after it dealt with its inbox.
pub open spec fn worked(m: MemberView) -> MemberView {
    if m.alive {
        MemberView { node: stepped_all(m.node, m.inbox), inbox: seq![], ..m }
    } else {
        m
    }
}

/// How far a state machine comes with these entries: one that is no command
/// does not count.
pub open spec fn applied_commands(applied: LogIndex, es: Seq<EntryView>) -> LogIndex
    decreases es.len(),
{
    if es.len() == 0 {
        applied
    } else {
        let prior = applied_commands(applied, es.drop_last());
        if wanted(es.last()) is Ok {
            later_index(prior, es.last().index)
        } else {
            prior
        }
    }
}

/// A member after it did what was ready: its state machine has the committed
/// entries, and its messages are on their way.
pub open spec fn settled_member(m: MemberView) -> MemberView {
    if m.alive {
        let es = to_apply(m.node);
        MemberView {
            node: done_with(drained(m.node), es),
            store: written_all(m.store, writes_of(es)),
            applied: applied_commands(m.applied, es),
            ..m
        }
    } else {
        m
    }
}

/// What a member sends.
pub open spec fn sends(m: MemberView) -> Seq<MessageView> {
    if m.alive {
        m.node.outbox
    } else {
        seq![]
    }
}

/// What the members send, one after another.
pub open spec fn all_sent(ms: Seq<MemberView>) -> Seq<MessageView>
    decreases ms.len(),
{
    if ms.len() == 0 {
        seq![]
    } else {
        all_sent(ms.drop_last()) + sends(ms.last())
    }
}

/// The place of the first member with this number.
pub open spec fn place_of_id(ms: Seq<MemberView>, id: NodeId) -> Option<int>
    decreases ms.len(),
{
    if ms.len() == 0 {
        None
    } else {
        match place_of_id(ms.drop_last(), id) {
            Some(i) => Some(i),
            None => if ms.last().id == id {
                Some(ms.len() - 1)
            } else {
                None
            },
        }
    }
}

/// The members after a message was delivered, if nothing is in its way.
pub open spec fn delivered(
    ms: Seq<MemberView>,
    cut: Set<(NodeId, NodeId)>,
    msg: MessageView,
) -> Seq<MemberView> {
    match place_of_id(ms, msg.to) {
        Some(i) => if !cut.contains((msg.from, msg.to)) && ms[i].alive {
            ms.update(i, MemberView { inbox: ms[i].inbox.push(msg), ..ms[i] })
        } else {
            ms
        },
        None => ms,
    }
}

/// The members after a list of messages was delivered, in order.
pub open spec fn all_delivered(
    ms: Seq<MemberView>,
    cut: Set<(NodeId, NodeId)>,
    msgs: Seq<MessageView>,
) -> Seq<MemberView>
    decreases msgs.len(),
{
    if msgs.len() == 0 {
        ms
    } else {
        delivered(all_delivered(ms, cut, msgs.drop_last()), cut, msgs.last())
    }
}

/// The members after each dealt with its inbox.
pub open spec fn all_worked(ms: Seq<MemberView>) -> Seq<MemberView> {
    ms.map_values(|m: MemberView| worked(m))
}

/// The members after each did what was ready.
pub open spec fn all_settled(ms: Seq<MemberView>) -> Seq<MemberView> {
    ms.map_values(|m: MemberView| settled_member(m))
}

/// The cluster after a round: inboxes are dealt with, what is ready is done, and
/// the messages are delivered.
pub open spec fn after_round(c: ClusterView) -> ClusterView {
    let w = all_worked(c.members);
    ClusterView { members: all_delivered(all_settled(w), c.cut, all_sent(w)), ..c }
}

/// A member had mail.
pub open spec fn has_mail(m: MemberView) -> bool {
    m.alive && m.inbox.len() > 0
}

/// A member has something to apply or to send.
pub open spec fn has_work(m: MemberView) -> bool {
    m.alive && (to_apply(m.node).len() > 0 || m.node.outbox.len() > 0)
}

/// Something happens in a round.
pub open spec fn is_active(c: ClusterView) -> bool {
    let w = all_worked(c.members);
    ||| exists|i: int| 0 <= i < c.members.len() && has_mail(#[trigger] c.members[i])
    ||| exists|i: int| 0 <= i < w.len() && has_work(#[trigger] w[i])
}

/// The cluster after rounds until nothing happens any more, at most `rounds`.
pub open spec fn after_rounds(c: ClusterView, rounds: nat) -> ClusterView
    decreases rounds,
{
    if rounds == 0 {
        c
    } else if is_active(c) {
        after_rounds(after_round(c), (rounds - 1) as nat)
    } else {
        after_round(c)
    }
}

/// The cluster after ticks, each with its rounds.
pub open spec fn after_ticks(c: ClusterView, ticks: nat, rounds: nat) -> ClusterView
    decreases ticks,
{
    if ticks == 0 {
        c
    } else {
        after_rounds(all_ticked(after_ticks(c, (ticks - 1) as nat, rounds)), rounds)
    }
}

/// The place of the leader with the highest term, of several the last one.
pub open spec fn leader_place(ms: Seq<MemberView>) -> Option<int>
    decreases ms.len(),
{
    if ms.len() == 0 {
        None
    } else {
        let prior = leader_place(ms.drop_last());
        let m = ms.last();
        if m.alive && m.node.role == Role::Leader && (prior matches Some(i) ==> m.node.term
            >= ms[i].node.term) {
            Some(ms.len() - 1)
        } else {
            prior
        }
    }
}

/// Each member is sound, and counts its ticks.
pub open spec fn members_wf(ms: Seq<MemberView>) -> bool {
    forall|i: int| 0 <= i < ms.len() ==> (#[trigger] ms[i]).node.wf() && ms[i].node.id == ms[i].id
}

/// No term is above `t`, neither of a node nor of a message on its way.
pub open spec fn terms_up_to(ms: Seq<MemberView>, t: int) -> bool {
    forall|i: int| 0 <= i < ms.len() ==> member_up_to(#[trigger] ms[i], t)
}

/// No term at this member is above `t`.
pub open spec fn member_up_to(m: MemberView, t: int) -> bool {
    m.node.term <= t && mail_up_to(m.inbox, t)
}

/// No message has a term above `t`.
pub open spec fn mail_up_to(msgs: Seq<MessageView>, t: int) -> bool {
    forall|i: int| 0 <= i < msgs.len() ==> (#[trigger] msgs[i]).term <= t
}

// ---- facts -----------------------------------------------------------------------------

/// The first place of a number is a place of it.
pub proof fn lemma_place_of_id(ms: Seq<MemberView>, id: NodeId)
    ensures
        match place_of_id(ms, id) {
            Some(i) => 0 <= i < ms.len() && ms[i].id == id && forall|j: int|
                0 <= j < i ==> (#[trigger] ms[j]).id != id,
            None => forall|j: int| 0 <= j < ms.len() ==> (#[trigger] ms[j]).id != id,
        },
    decreases ms.len(),
{
    if ms.len() > 0 {
        let d = ms.drop_last();
        lemma_place_of_id(d, id);
        match place_of_id(d, id) {
            Some(i) => {
                assert forall|j: int| 0 <= j < i implies (#[trigger] ms[j]).id != id by {
                    assert(d[j].id != id);
                }
            },
            None => {
                assert forall|j: int| 0 <= j < ms.len() - 1 implies (#[trigger] ms[j]).id
                    != id by {
                    assert(d[j].id != id);
                }
            },
        }
    }
}

/// What the rank says.
pub proof fn lemma_rank(ids: Seq<NodeId>, id: NodeId)
    ensures
        rank(ids, id) <= ids.len(),
        ids.contains(id) ==> rank(ids, id) < ids.len(),
        (forall|j: int| 0 <= j < ids.len() ==> id <= #[trigger] ids[j]) ==> rank(ids, id) == 0,
        (exists|j: int| 0 <= j < ids.len() && #[trigger] ids[j] < id) ==> rank(ids, id) > 0,
    decreases ids.len(),
{
    if ids.len() > 0 {
        let d = ids.drop_last();
        lemma_rank(d, id);
        if ids.contains(id) && ids.last() != id {
            let k = ids.index_of(id);
            assert(d[k] == id);
        }
        if forall|j: int| 0 <= j < ids.len() ==> id <= #[trigger] ids[j] {
            assert forall|j: int| 0 <= j < d.len() implies id <= #[trigger] d[j] by {
                assert(d[j] == ids[j]);
            }
            assert(id <= ids[ids.len() - 1]);
        }
        if exists|j: int| 0 <= j < ids.len() && #[trigger] ids[j] < id {
            let j = choose|j: int| 0 <= j < ids.len() && #[trigger] ids[j] < id;
            if j < d.len() {
                assert(d[j] < id);
            }
        }
    }
}

/// A higher id has a higher rank.
pub proof fn lemma_rank_orders(ids: Seq<NodeId>, a: NodeId, b: NodeId)
    requires
        a < b,
    ensures
        rank(ids, a) <= rank(ids, b),
        ids.contains(a) ==> rank(ids, a) < rank(ids, b),
    decreases ids.len(),
{
    if ids.len() > 0 {
        let d = ids.drop_last();
        lemma_rank_orders(d, a, b);
        if ids.contains(a) && ids.last() != a {
            let k = ids.index_of(a);
            assert(d[k] == a);
        }
    }
}

/// How the members of a fresh cluster are set up: each has all others as peers, sends
/// with every tick and up to sixty-four entries at once, and waits ten ticks and five
/// more for each lower id.
pub proof fn lemma_set_up(ids: Seq<NodeId>, i: int, x: NodeId)
    requires
        ids.no_duplicates(),
        10 + 5 * ids.len() <= u32::MAX,
        0 <= i < ids.len(),
    ensures
        ({
            let m = fresh_cluster(ids).members[i];
            &&& m.id == ids[i] && m.node.id == ids[i] && m.alive
            &&& m.node.config.heartbeat_interval == 1
            &&& m.node.config.max_entries_per_msg == 64
            &&& m.node.config.election_timeout == 10 + 5 * rank(ids, ids[i])
            &&& rank(ids, ids[i]) < ids.len()
            &&& m.node.config.peers.contains(x) <==> ids.contains(x) && x != ids[i]
            &&& m.node.role == Role::Follower && m.node.term == 0 && m.node.vote is None
            &&& m.node.log.len() == 0 && m.store == Map::<Seq<u8>, Seq<u8>>::empty()
        }),
{
    assert(ids.contains(ids[i]));
    lemma_rank(ids, ids[i]);
    lemma_others(ids, ids[i], x);
}

/// The others are all but one.
pub proof fn lemma_others(ids: Seq<NodeId>, id: NodeId, x: NodeId)
    ensures
        others(ids, id).contains(x) <==> ids.contains(x) && x != id,
    decreases ids.len(),
{
    if ids.len() > 0 {
        let d = ids.drop_last();
        let rest = others(d, id);
        lemma_others(d, id, x);
        assert(ids.contains(x) <==> d.contains(x) || x == ids.last()) by {
            if ids.contains(x) {
                let k = ids.index_of(x);
                if k < d.len() {
                    assert(d[k] == x);
                }
            }
            if d.contains(x) {
                let k = d.index_of(x);
                assert(ids[k] == x);
            }
            if x == ids.last() {
                assert(ids[ids.len() - 1] == x);
            }
        }
        if ids.last() != id {
            let all = others(ids, id);
            assert(all.contains(x) <==> rest.contains(x) || x == ids.last()) by {
                if all.contains(x) {
                    let k = all.index_of(x);
                    if k < rest.len() {
                        assert(rest[k] == x);
                    }
                }
                if rest.contains(x) {
                    let k = rest.index_of(x);
                    assert(all[k] == x);
                }
                if x == ids.last() {
                    assert(all[rest.len() as int] == x);
                }
            }
        }
    }
}

/// The others are fewer.
pub proof fn lemma_others_count(ids: Seq<NodeId>, id: NodeId)
    ensures
        others(ids, id).len() <= ids.len(),
        ids.contains(id) ==> others(ids, id).len() < ids.len(),
    decreases ids.len(),
{
    if ids.len() > 0 {
        let d = ids.drop_last();
        lemma_others_count(d, id);
        if ids.contains(id) && ids.last() != id {
            let k = ids.index_of(id);
            assert(d[k] == id);
        }
    }
}

/// The place of the leader is that of a living leader, and no living leader has
/// a higher term.
pub proof fn lemma_leader_place(ms: Seq<MemberView>)
    ensures
        leader_place(ms) matches Some(i) ==> 0 <= i < ms.len() && ms[i].alive && ms[i].node.role
            == Role::Leader,
        forall|j: int|
            0 <= j < ms.len() && (#[trigger] ms[j]).alive && ms[j].node.role == Role::Leader
                ==> leader_place(ms) is Some && ms[j].node.term
                <= ms[leader_place(ms).unwrap()].node.term && (j > leader_place(ms).unwrap()
                ==> ms[j].node.term < ms[leader_place(ms).unwrap()].node.term),
    decreases ms.len(),
{
    if ms.len() > 0 {
        let d = ms.drop_last();
        lemma_leader_place(d);
        assert forall|j: int|
            0 <= j < ms.len() && (#[trigger] ms[j]).alive && ms[j].node.role
                == Role::Leader implies leader_place(ms) is Some && ms[j].node.term
            <= ms[leader_place(ms).unwrap()].node.term && (j > leader_place(ms).unwrap()
            ==> ms[j].node.term < ms[leader_place(ms).unwrap()].node.term) by {
            if j < ms.len() - 1 {
                assert(d[j] == ms[j]);
            }
        }
    }
}

/// Doing what is ready keeps terms below a bound, and what is sent too.
pub proof fn lemma_settled_terms(ms: Seq<MemberView>, t: int)
    requires
        terms_up_to(ms, t),
        members_wf(ms),
    ensures
        terms_up_to(all_settled(ms), t),
        mail_up_to(all_sent(ms), t),
{
    let s = all_settled(ms);
    assert forall|i: int| 0 <= i < s.len() implies member_up_to(#[trigger] s[i], t) by {
        assert(member_up_to(ms[i], t));
    }
    lemma_sent_terms(ms, t);
}

proof fn lemma_sent_terms(ms: Seq<MemberView>, t: int)
    requires
        terms_up_to(ms, t),
        members_wf(ms),
    ensures
        mail_up_to(all_sent(ms), t),
    decreases ms.len(),
{
    if ms.len() > 0 {
        let d = ms.drop_last();
        let l = ms.len() - 1;
        assert forall|i: int| 0 <= i < d.len() implies member_up_to(#[trigger] d[i], t) by {
            assert(member_up_to(ms[i], t));
        }
        assert forall|i: int| 0 <= i < d.len() implies (#[trigger] d[i]).node.wf() && d[i].node.id
            == d[i].id by {
            assert(ms[i].node.wf());
        }
        lemma_sent_terms(d, t);
        assert(ms[l].node.wf());
        assert(member_up_to(ms[l], t));
        let a = all_sent(d);
        let b = sends(ms.last());
        assert forall|i: int| 0 <= i < (a + b).len() implies (#[trigger] (a + b)[i]).term <= t by {
            if i < a.len() {
                assert((a + b)[i] == a[i]);
            } else {
                assert((a + b)[i] == b[i - a.len()]);
            }
        }
    }
}

/// Delivery keeps terms below a bound.
pub proof fn lemma_delivered_terms(
    ms: Seq<MemberView>,
    cut: Set<(NodeId, NodeId)>,
    msgs: Seq<MessageView>,
    t: int,
)
    requires
        terms_up_to(ms, t),
        mail_up_to(msgs, t),
    ensures
        terms_up_to(all_delivered(ms, cut, msgs), t),
    decreases msgs.len(),
{
    if msgs.len() > 0 {
        let d = msgs.drop_last();
        assert forall|i: int| 0 <= i < d.len() implies (#[trigger] d[i]).term <= t by {
            assert(msgs[i].term <= t);
        }
        lemma_delivered_terms(ms, cut, d, t);
        let a = all_delivered(ms, cut, d);
        let msg = msgs.last();
        assert(msgs[msgs.len() - 1].term <= t);
        let b = delivered(a, cut, msg);
        lemma_place_of_id(a, msg.to);
        assert forall|i: int| 0 <= i < b.len() implies member_up_to(#[trigger] b[i], t) by {
            assert(member_up_to(a[i], t));
            if b[i] != a[i] {
                assert forall|k: int| 0 <= k < b[i].inbox.len() implies (
                #[trigger] b[i].inbox[k]).term <= t by {
                    if k < a[i].inbox.len() {
                        assert(b[i].inbox[k] == a[i].inbox[k]);
                    }
                }
            }
        }
    }
}

/// A tick raises terms by one at most.
pub proof fn lemma_ticked_terms(c: ClusterView, t: int)
    requires
        terms_up_to(c.members, t),
        members_wf(c.members),
        t < u64::MAX,
        forall|i: int|
            0 <= i < c.members.len() ==> (#[trigger] c.members[i]).node.log.len() <= u64::MAX,
    ensures
        terms_up_to(all_ticked(c).members, t + 1),
{
    let ms = c.members;
    let n = all_ticked(c).members;
    assert forall|i: int| 0 <= i < n.len() implies member_up_to(#[trigger] n[i], t + 1) by {
        assert(member_up_to(ms[i], t));
        assert(ms[i].node.wf());
        assert(ms[i].node.log.len() <= u64::MAX);
        if ms[i].alive {
            laws::lemma_tick_keeps(ms[i].node);
        }
        assert forall|k: int| 0 <= k < n[i].inbox.len() implies (#[trigger] n[i].inbox[k]).term <= t
            + 1 by {
            assert(ms[i].inbox[k].term <= t);
        }
    }
}

} // verus!
