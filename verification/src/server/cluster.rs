//! A deterministic cluster in one place, for tests.
//!
//! The nodes keep everything in memory, and messages go straight from one to
//! the other. The driver moves time on with [`Cluster::tick_all`],
//! [`Cluster::step`] and [`Cluster::run_for`], and makes faults with
//! [`Cluster::partition`], [`Cluster::isolate`] and [`Cluster::kill`].
//!
//! Election timeouts are staggered by id and not random, so that from a cold start
//! the node with the lowest id always wins.

use bytes::Bytes;
use vstd::prelude::*;
use vstd::string::StringExecFns;

use crate::buffer::{octets, opt_octets};
use crate::raft::laws;
use crate::raft::mem_storage::MemRaftStorage;
use crate::raft::node::{Config, Node};
use crate::raft::state::{proposed, to_apply, Role};
use crate::raft::state_machine::StateMachine;
use crate::raft::storage::RaftStorage;
use crate::raft::types::{entry_views, message_views, EntryView, Message, MessageView};
use crate::server::cluster_state::{
    self, after_round, after_rounds, after_ticks, all_delivered, all_sent, all_settled, all_ticked,
    all_worked, applied_commands, delivered, fresh_cluster, fresh_member, has_mail, has_work,
    is_active, leader_place, mail_up_to, member_up_to, members_wf, others, place_of_id, rank, sends,
    settled_member, stepped_all, terms_up_to, ticked_member, worked, ClusterView, MemberView,
};
use crate::server::election::logs_fit;
use crate::server::safety::{self, regular};
use crate::server::state_machine::{
    command_bytes, encode_delete, encode_put, wanted, wanted_or_none, writes_of, KvStateMachine,
};
use crate::server::transport::Partitions;
use crate::storage::engine::{held, lemma_written_more, written_all, Engine, Op};
use crate::storage::memengine::MemEngine;
use crate::text::{self, decimal};
use crate::types::{Error, LogIndex, NodeId, Term};

verus! {

struct ClusterNode {
    id: NodeId,
    node: Node<MemRaftStorage>,
    sm: KvStateMachine<MemEngine>,
    inbox: Vec<Message>,
    alive: bool,
}

impl ClusterNode {
    spec fn view(&self) -> MemberView {
        MemberView {
            id: self.id,
            node: self.node@,
            store: self.sm.store().contents(),
            applied: self.sm.applied(),
            inbox: message_views(self.inbox@),
            alive: self.alive,
        }
    }

    spec fn wf(&self) -> bool {
        self.node.wf() && self.node.reliable() && self.sm.wf() && self.node@.wf()
            && self.node@.id == self.id
    }

    /// The member at place `idx` of a fresh cluster.
    fn fresh(ids: &Vec<NodeId>, idx: usize) -> (m: Self)
        requires
            idx < ids.len(),
            10 + 5 * ids.len() <= u32::MAX,
        ensures
            m.wf(),
            m@ == fresh_member(ids@, idx as int),
    {
        let id = ids[idx];
        let mut peers: Vec<NodeId> = Vec::new();
        let mut below: u32 = 0;
        assert(ids@.take(0) =~= Seq::<NodeId>::empty());
        for i in 0..ids.len()
            invariant
                peers@ == others(ids@.take(i as int), id),
                below == rank(ids@.take(i as int), id),
                below <= i,
                10 + 5 * ids.len() <= u32::MAX,
                peers.len() <= i,
                i > idx ==> peers.len() < i,
                idx < ids.len(),
                id == ids@[idx as int],
        {
            assert(ids@.take(i + 1).drop_last() =~= ids@.take(i as int));
            if ids[i] != id {
                peers.push(ids[i]);
            }
            if ids[i] < id {
                below += 1;
            }
        }
        assert(ids@.take(ids@.len() as int) =~= ids@);
        let mut config = Config::default();
        config.id = id;
        config.peers = peers;
        config.election_timeout = 10 + below * 5;
        let storage = MemRaftStorage::new();
        let node = Node::new(config, storage).unwrap();
        let m = ClusterNode {
            id,
            node,
            sm: KvStateMachine::new(MemEngine::new()),
            inbox: Vec::new(),
            alive: true,
        };
        proof {
            assert(message_views(m.inbox@) =~= Seq::<MessageView>::empty());
            assert(m@.node =~= fresh_member(ids@, idx as int).node);
            assert(m@ =~= fresh_member(ids@, idx as int));
        }
        m
    }

    fn tick(&mut self)
        requires
            old(self).wf(),
            old(self)@.alive ==> old(self)@.node.term < u64::MAX,
        ensures
            final(self).wf(),
            final(self)@ == ticked_member(old(self)@),
    {
        if self.alive {
            proof {
                self.node.lemma_log_fits();
                laws::lemma_tick_keeps(self.node@);
            }
            self.node.tick();
        }
    }

    /// Deals with the inbox, and says whether there was anything in it.
    fn work(&mut self) -> (active: bool)
        requires
            old(self).wf(),
        ensures
            final(self).wf(),
            final(self)@ == worked(old(self)@),
            active == has_mail(old(self)@),
            old(self)@.alive ==> logs_fit(old(self)@),
            old(self)@.alive ==> laws::keeps(old(self)@.node, final(self)@.node),
            forall|t: int|
                member_up_to(old(self)@, t) ==> #[trigger] member_up_to(final(self)@, t),
    {
        if !self.alive {
            return false;
        }
        let mut inbox: Vec<Message> = Vec::new();
        std::mem::swap(&mut inbox, &mut self.inbox);
        assert(message_views(self.inbox@) =~= Seq::<MessageView>::empty());
        let active = inbox.len() > 0;
        let ghost all = message_views(inbox@);
        let ghost start = self.node@;
        assert(all.take(0) =~= Seq::<MessageView>::empty());
        for msg in it: inbox
            invariant
                all == message_views(it.seq()),
                self.wf(),
                self.alive,
                self.id == old(self).id,
                self.sm == old(self).sm,
                self.inbox@.len() == 0,
                self.node@ == stepped_all(start, all.take(it.index())),
                laws::keeps(start, self.node@),
                forall|j: int|
                    0 <= j < it.index() ==> (#[trigger] stepped_all(start, all.take(j))).log.len()
                        <= u64::MAX,
                forall|t: int|
                    start.term <= t && mail_up_to(all, t) ==> self.node@.term <= t,
        {
            let ghost k = it.index();
            let ghost s = self.node@;
            proof {
                assert(all.take(k + 1).drop_last() =~= all.take(k));
                assert(all.take(k + 1).last() == msg@);
                assert(all[k] == msg@);
                self.node.lemma_log_fits();
                laws::lemma_step_keeps(s, msg@);
            }
            let _ = self.node.step(msg);
        }
        proof {
            assert(all.take(all.len() as int) =~= all);
            self.node.lemma_log_fits();
        }
        assert(message_views(self.inbox@) =~= Seq::<MessageView>::empty());
        active
    }

    /// Does what is ready, and hands out the messages.
    fn drain(&mut self) -> (r: (Vec<Message>, bool))
        requires
            old(self).wf(),
        ensures
            final(self).wf(),
            final(self)@ == settled_member(old(self)@),
            message_views(r.0@) == sends(old(self)@),
            r.1 == has_work(old(self)@),
    {
        if !self.alive {
            let none: Vec<Message> = Vec::new();
            assert(message_views(none@) =~= Seq::<MessageView>::empty());
            return (none, false);
        }
        let ghost es = to_apply(self.node@);
        let mut ready = self.node.ready();
        let n = ready.committed.len();
        let active = n > 0 || ready.messages.len() > 0;
        let ghost store = self.sm.store().contents();
        let ghost applied = self.sm.applied();
        let ghost node = self.node@;
        assert(es.take(0) =~= Seq::<EntryView>::empty());
        for i in 0..n
            invariant
                n == ready.committed.len(),
                es == entry_views(ready.committed@),
                self.wf(),
                self.alive,
                self.id == old(self).id,
                self.inbox == old(self).inbox,
                self.node@ == node,
                self.sm.store().contents() == written_all(store, writes_of(es.take(i as int))),
                self.sm.applied() == applied_commands(applied, es.take(i as int)),
        {
            proof {
                let e = es[i as int];
                assert(es.take(i + 1).drop_last() =~= es.take(i as int));
                assert(es.take(i + 1).last() == e);
                lemma_written_more(
                    store,
                    writes_of(es.take(i as int)),
                    wanted_or_none(e),
                );
                if wanted(e) is Err {
                    assert(writes_of(es.take(i as int)) + wanted_or_none(e) =~= writes_of(
                        es.take(i as int),
                    ));
                }
            }
            let _ = self.sm.apply(&ready.committed[i]);
        }
        assert(es.take(n as int) =~= es);
        let mut messages: Vec<Message> = Vec::new();
        std::mem::swap(&mut messages, &mut ready.messages);
        self.node.advance(ready);
        (messages, active)
    }
}

/// What each member of a list is.
spec fn member_views(ms: Seq<ClusterNode>) -> Seq<MemberView> {
    Seq::new(ms.len(), |i: int| ms[i]@)
}

pub struct Cluster {
    nodes: Vec<ClusterNode>,
    partitions: Partitions,
}

impl Cluster {
    /// What the cluster is.
    pub closed spec fn view(&self) -> ClusterView {
        ClusterView { members: member_views(self.nodes@), cut: self.partitions@ }
    }

    /// Every member is sound.
    pub closed spec fn wf(&self) -> bool {
        forall|i: int| 0 <= i < self.nodes@.len() ==> (#[trigger] self.nodes@[i]).wf()
    }

    /// A fresh cluster of these nodes.
    pub fn new(ids: Vec<NodeId>) -> (c: Self)
        requires
            10 + 5 * ids.len() <= u32::MAX,
        ensures
            c.wf(),
            c@ == fresh_cluster(ids@),
            ids@.no_duplicates() ==> regular(c@),
    {
        let mut nodes: Vec<ClusterNode> = Vec::new();
        for i in 0..ids.len()
            invariant
                10 + 5 * ids.len() <= u32::MAX,
                nodes.len() == i,
                forall|j: int| 0 <= j < i ==> (#[trigger] nodes@[j]).wf(),
                forall|j: int| 0 <= j < i ==> (#[trigger] nodes@[j])@ == fresh_member(ids@, j),
        {
            nodes.push(ClusterNode::fresh(&ids, i));
        }
        let c = Cluster { nodes, partitions: Partitions::new() };
        proof {
            assert(c@.members =~= fresh_cluster(ids@).members);
            if ids@.no_duplicates() {
                safety::lemma_fresh_regular(ids@);
            }
        }
        c
    }

    /// One tick of every node that is alive.
    pub fn tick_all(&mut self)
        requires
            old(self).wf(),
            forall|i: int|
                0 <= i < old(self)@.members.len() && (#[trigger] old(self)@.members[i]).alive
                    ==> old(self)@.members[i].node.term < u64::MAX,
        ensures
            final(self).wf(),
            final(self)@ == all_ticked(old(self)@),
            regular(old(self)@) ==> regular(final(self)@),
    {
        let ghost ms = self@.members;
        let n = self.nodes.len();
        for i in 0..n
            invariant
                n == ms.len(),
                n == self.nodes.len(),
                self.wf(),
                self.partitions == old(self).partitions,
                forall|j: int| 0 <= j < i ==> self@.members[j] == ticked_member(#[trigger] ms[j]),
                forall|j: int| i <= j < n ==> self@.members[j] == #[trigger] ms[j],
                forall|j: int|
                    0 <= j < n && (#[trigger] ms[j]).alive ==> ms[j].node.term < u64::MAX,
        {
            assert(self@.members[i as int] == ms[i as int]);
            self.nodes[i].tick();
        }
        proof {
            assert(self@.members =~= all_ticked(old(self)@).members);
            if regular(old(self)@) {
                safety::lemma_ticked_regular(old(self)@);
            }
        }
    }

    /// Every node that is alive deals with its inbox; says whether any had mail.
    fn work_all(&mut self) -> (active: bool)
        requires
            old(self).wf(),
        ensures
            final(self).wf(),
            final(self)@.cut == old(self)@.cut,
            final(self)@.members == all_worked(old(self)@.members),
            active == exists|i: int|
                0 <= i < old(self)@.members.len() && has_mail(#[trigger] old(self)@.members[i]),
            forall|i: int|
                0 <= i < old(self)@.members.len() && (#[trigger] old(self)@.members[i]).alive
                    ==> logs_fit(old(self)@.members[i]),
            forall|t: int|
                terms_up_to(old(self)@.members, t) ==> #[trigger] terms_up_to(
                    final(self)@.members,
                    t,
                ),
    {
        let ghost ms = self@.members;
        let mut active = false;
        let n = self.nodes.len();
        for i in 0..n
            invariant
                n == ms.len(),
                n == self.nodes.len(),
                self.wf(),
                self.partitions == old(self).partitions,
                forall|j: int| 0 <= j < i ==> self@.members[j] == worked(#[trigger] ms[j]),
                forall|j: int| i <= j < n ==> self@.members[j] == #[trigger] ms[j],
                active == exists|j: int| 0 <= j < i && has_mail(#[trigger] ms[j]),
                forall|j: int| 0 <= j < i && (#[trigger] ms[j]).alive ==> logs_fit(ms[j]),
                forall|j: int, t: int|
                    0 <= j < n && #[trigger] member_up_to(ms[j], t) ==> member_up_to(
                        self@.members[j],
                        t,
                    ),
        {
            let ghost prior = self@.members;
            assert(prior[i as int] == ms[i as int]);
            let mail = self.nodes[i].work();
            proof {
                assert forall|j: int, t: int| 0 <= j < n && #[trigger] member_up_to(ms[j], t)
                    implies member_up_to(self@.members[j], t) by {
                    if j == i {
                        assert(member_up_to(prior[j], t));
                    } else {
                        assert(self@.members[j] == prior[j]);
                    }
                }
                if mail {
                    assert(has_mail(ms[i as int]));
                }
            }
            active = active || mail;
        }
        proof {
            assert(self@.members =~= all_worked(ms));
            assert forall|t: int| terms_up_to(ms, t) implies #[trigger] terms_up_to(
                self@.members,
                t,
            ) by {
                assert forall|j: int| 0 <= j < n implies member_up_to(
                    #[trigger] self@.members[j],
                    t,
                ) by {
                    assert(member_up_to(ms[j], t));
                }
            }
        }
        active
    }

    /// Every node that is alive does what is ready; collects the messages, and
    /// says whether any had something to do.
    fn drain_all(&mut self) -> (r: (Vec<Message>, bool))
        requires
            old(self).wf(),
        ensures
            final(self).wf(),
            final(self)@.cut == old(self)@.cut,
            final(self)@.members == all_settled(old(self)@.members),
            message_views(r.0@) == all_sent(old(self)@.members),
            r.1 == exists|i: int|
                0 <= i < old(self)@.members.len() && has_work(#[trigger] old(self)@.members[i]),
    {
        let ghost ms = self@.members;
        let mut active = false;
        let mut outbox: Vec<Message> = Vec::new();
        let n = self.nodes.len();
        assert(ms.take(0) =~= Seq::<MemberView>::empty());
        assert(message_views(outbox@) =~= Seq::<MessageView>::empty());
        for i in 0..n
            invariant
                n == ms.len(),
                n == self.nodes.len(),
                self.wf(),
                self.partitions == old(self).partitions,
                forall|j: int| 0 <= j < i ==> self@.members[j] == settled_member(#[trigger] ms[j]),
                forall|j: int| i <= j < n ==> self@.members[j] == #[trigger] ms[j],
                active == exists|j: int| 0 <= j < i && has_work(#[trigger] ms[j]),
                message_views(outbox@) == all_sent(ms.take(i as int)),
        {
            assert(self@.members[i as int] == ms[i as int]);
            let (messages, busy) = self.nodes[i].drain();
            let ghost prior = outbox@;
            let ghost added = messages@;
            let mut messages = messages;
            outbox.append(&mut messages);
            proof {
                assert(message_views(outbox@) =~= message_views(prior) + message_views(added));
                assert(ms.take(i + 1).drop_last() =~= ms.take(i as int));
                assert(ms.take(i + 1).last() == ms[i as int]);
                if busy {
                    assert(has_work(ms[i as int]));
                }
            }
            active = active || busy;
        }
        assert(ms.take(n as int) =~= ms);
        assert(self@.members =~= all_settled(ms));
        (outbox, active)
    }

    /// The place of the first node with this number.
    fn place(&self, id: NodeId) -> (r: Option<usize>)
        ensures
            match r {
                Some(i) => place_of_id(self@.members, id) == Some(i as int) && i < self.nodes.len(),
                None => place_of_id(self@.members, id) is None,
            },
    {
        let ghost ms = self@.members;
        proof {
            cluster_state::lemma_place_of_id(ms, id);
        }
        for i in 0..self.nodes.len()
            invariant
                ms == self@.members,
                forall|j: int| 0 <= j < i ==> (#[trigger] ms[j]).id != id,
                match place_of_id(ms, id) {
                    Some(k) => 0 <= k < ms.len() && ms[k].id == id && forall|j: int|
                        0 <= j < k ==> (#[trigger] ms[j]).id != id,
                    None => forall|j: int| 0 <= j < ms.len() ==> (#[trigger] ms[j]).id != id,
                },
        {
            if self.nodes[i].id == id {
                assert(ms[i as int].id == id);
                return Some(i);
            }
        }
        None
    }

    /// Delivers a message, unless its way is cut or its receiver is dead or
    /// unknown.
    fn deliver(&mut self, msg: Message)
        requires
            old(self).wf(),
        ensures
            final(self).wf(),
            final(self)@.cut == old(self)@.cut,
            final(self)@.members == delivered(old(self)@.members, old(self)@.cut, msg@),
    {
        let ghost ms = self@.members;
        if self.is_partitioned(msg.from, msg.to) {
            return ;
        }
        match self.place(msg.to) {
            Some(i) => {
                assert(ms[i as int] == self.nodes@[i as int]@);
                if self.nodes[i].alive {
                    let ghost prior = message_views(self.nodes@[i as int].inbox@);
                    self.nodes[i].inbox.push(msg);
                    proof {
                        assert(message_views(self.nodes@[i as int].inbox@) =~= prior.push(msg@));
                        assert(self@.members =~= delivered(ms, self@.cut, msg@));
                    }
                }
            },
            None => {},
        }
    }

    /// One round: inboxes, then what is ready, then delivery. Says whether
    /// anything happened.
    fn deliver_round(&mut self) -> (active: bool)
        requires
            old(self).wf(),
        ensures
            final(self).wf(),
            final(self)@ == after_round(old(self)@),
            active == is_active(old(self)@),
            regular(old(self)@) ==> regular(final(self)@),
            forall|t: int|
                terms_up_to(old(self)@.members, t) ==> #[trigger] terms_up_to(
                    final(self)@.members,
                    t,
                ),
    {
        let ghost c = self@;
        let mail = self.work_all();
        let ghost w = self@.members;
        proof {
            self.lemma_members_wf();
        }
        let (outbox, busy) = self.drain_all();
        let ghost s = self@.members;
        let ghost all = message_views(outbox@);
        assert(all.take(0) =~= Seq::<MessageView>::empty());
        for msg in it: outbox
            invariant
                all == message_views(it.seq()),
                self.wf(),
                self@.cut == c.cut,
                self@.members == all_delivered(s, c.cut, all.take(it.index())),
        {
            let ghost k = it.index();
            proof {
                assert(all.take(k + 1).drop_last() =~= all.take(k));
                assert(all.take(k + 1).last() == msg@);
            }
            self.deliver(msg);
        }
        proof {
            assert(all.take(all.len() as int) =~= all);
            assert forall|t: int| terms_up_to(c.members, t) implies #[trigger] terms_up_to(
                self@.members,
                t,
            ) by {
                assert(terms_up_to(w, t));
                cluster_state::lemma_settled_terms(w, t);
                cluster_state::lemma_delivered_terms(s, c.cut, all, t);
            }
            if regular(c) {
                safety::lemma_round_regular(c);
            }
        }
        mail || busy
    }

    proof fn lemma_members_wf(&self)
        requires
            self.wf(),
        ensures
            members_wf(self@.members),
    {
        assert forall|i: int| 0 <= i < self@.members.len() implies (
        #[trigger] self@.members[i]).node.wf() && self@.members[i].node.id
            == self@.members[i].id by {
            assert(self.nodes@[i].wf());
        }
    }

    /// Rounds until nothing happens any more, at most `max_rounds`.
    pub fn step(&mut self, max_rounds: usize)
        requires
            old(self).wf(),
        ensures
            final(self).wf(),
            final(self)@ == after_rounds(old(self)@, max_rounds as nat),
            regular(old(self)@) ==> regular(final(self)@),
            forall|t: int|
                terms_up_to(old(self)@.members, t) ==> #[trigger] terms_up_to(
                    final(self)@.members,
                    t,
                ),
    {
        let ghost c = self@;
        let mut left = max_rounds;
        while left > 0
            invariant
                c == old(self)@,
                self.wf(),
                after_rounds(c, max_rounds as nat) == after_rounds(self@, left as nat),
                regular(c) ==> regular(self@),
                forall|t: int|
                    terms_up_to(c.members, t) ==> #[trigger] terms_up_to(self@.members, t),
            decreases left,
        {
            let ghost here = self@;
            left -= 1;
            let active = self.deliver_round();
            if !active {
                proof {
                    assert(after_rounds(here, (left + 1) as nat) == self@);
                    assert forall|t: int| terms_up_to(c.members, t) implies #[trigger] terms_up_to(
                        self@.members,
                        t,
                    ) by {
                        assert(terms_up_to(here.members, t));
                    }
                }
                return ;
            }
            proof {
                assert forall|t: int| terms_up_to(c.members, t) implies #[trigger] terms_up_to(
                    self@.members,
                    t,
                ) by {
                    assert(terms_up_to(here.members, t));
                }
            }
        }
    }

    /// Ticks, each followed by rounds.
    pub fn run_for(&mut self, ticks: u32, settle_per_tick: usize)
        requires
            old(self).wf(),
            terms_up_to(old(self)@.members, u64::MAX - ticks),
        ensures
            final(self).wf(),
            final(self)@ == after_ticks(old(self)@, ticks as nat, settle_per_tick as nat),
            regular(old(self)@) ==> regular(final(self)@),
    {
        let ghost c = self@;
        for i in 0..ticks
            invariant
                self.wf(),
                terms_up_to(self@.members, u64::MAX - ticks + i),
                self@ == after_ticks(c, i as nat, settle_per_tick as nat),
                regular(c) ==> regular(self@),
        {
            let ghost ms = self@.members;
            let ghost t = u64::MAX - ticks + i;
            proof {
                assert forall|j: int| 0 <= j < ms.len() && (#[trigger] ms[j]).alive implies
                    ms[j].node.term < u64::MAX by {
                    assert(member_up_to(ms[j], t));
                }
                self.lemma_members_wf();
                self.lemma_logs_fit();
                cluster_state::lemma_ticked_terms(self@, t);
            }
            self.tick_all();
            self.step(settle_per_tick);
            assert(terms_up_to(self@.members, t + 1));
        }
    }

    proof fn lemma_logs_fit(&self)
        ensures
            forall|i: int|
                0 <= i < self@.members.len() ==> (#[trigger] self@.members[i]).node.log.len()
                    <= u64::MAX,
    {
        assert forall|i: int| 0 <= i < self@.members.len() implies (
        #[trigger] self@.members[i]).node.log.len() <= u64::MAX by {
            self.nodes@[i].node.lemma_log_fits();
        }
    }

    // ---- clients -------------------------------------------------------------------------

    /// The leader with the highest term. Cut off from the others, an old leader
    /// may go on thinking that it leads in its old term.
    pub fn find_leader(&self) -> (r: Option<NodeId>)
        ensures
            match leader_place(self@.members) {
                Some(i) => r == Some(self@.members[i].id),
                None => r is None,
            },
    {
        let ghost ms = self@.members;
        let mut best: Option<usize> = None;
        assert(ms.take(0) =~= Seq::<MemberView>::empty());
        for i in 0..self.nodes.len()
            invariant
                ms == self@.members,
                best matches Some(k) ==> k < i,
                match best {
                    Some(k) => leader_place(ms.take(i as int)) == Some(k as int),
                    None => leader_place(ms.take(i as int)) is None,
                },
        {
            proof {
                assert(ms.take(i + 1).drop_last() =~= ms.take(i as int));
                assert(ms.take(i + 1).last() == ms[i as int]);
            }
            let cn = &self.nodes[i];
            assert(cn@ == ms[i as int]);
            if cn.alive && cn.node.is_leader() {
                match best {
                    Some(k) => {
                        assert(self.nodes@[k as int]@ == ms[k as int]);
                        if cn.node.term() >= self.nodes[k].node.term() {
                            best = Some(i);
                        }
                    },
                    None => {
                        best = Some(i);
                    },
                }
            }
        }
        assert(ms.take(ms.len() as int) =~= ms);
        match best {
            Some(k) => {
                assert(self.nodes@[k as int]@ == ms[k as int]);
                Some(self.nodes[k].id)
            },
            None => None,
        }
    }

    /// Proposes a command to a node.
    pub fn propose_to(&mut self, id: NodeId, cmd: Bytes) -> (r: Result<(), Error>)
        requires
            old(self).wf(),
            place_of_id(old(self)@.members, id) matches Some(i)
                ==> old(self)@.members[i].node.log.len() < u64::MAX,
        ensures
            final(self).wf(),
            proposed_at(old(self)@, id, octets(cmd), final(self)@, r),
            regular(old(self)@) ==> regular(final(self)@),
    {
        let ghost ms = self@.members;
        match self.place(id) {
            Some(i) => {
                assert(self.nodes@[i as int]@ == ms[i as int]);
                if !self.nodes[i].alive {
                    let mut text = String::from_str("node ");
                    text.append(text::decimal_text(id).as_str());
                    text.append(" is dead");
                    return Err(Error::Internal(text));
                }
                proof {
                    laws::lemma_propose_keeps(ms[i as int].node, octets(cmd));
                }
                let r = self.nodes[i].node.propose(cmd);
                proof {
                    assert(self@.members =~= ms.update(
                        i as int,
                        MemberView { node: self.nodes@[i as int].node@, ..ms[i as int] },
                    ));
                    if ms[i as int].node.role != Role::Leader {
                        assert(self@.members =~= ms);
                    } else if regular(old(self)@) {
                        safety::lemma_proposal_regular(old(self)@, i as int, octets(cmd));
                    }
                }
                r
            },
            None => {
                let mut text = String::from_str("no such node ");
                text.append(text::decimal_text(id).as_str());
                Err(Error::InvalidArgument(text))
            },
        }
    }

    /// Proposes a put to the leader, and says who that is.
    pub fn put_at_leader(&mut self, key: &[u8], value: &[u8]) -> (r: Result<NodeId, Error>)
        requires
            old(self).wf(),
            leader_has_room(old(self)@),
        ensures
            final(self).wf(),
            proposed_at_leader(
                old(self)@,
                command_bytes(Op::Put { key: key@, value: value@ }),
                final(self)@,
                r,
            ),
            regular(old(self)@) ==> regular(final(self)@),
    {
        self.propose_at_leader(encode_put(key, value))
    }

    /// Proposes a delete to the leader, and says who that is.
    pub fn delete_at_leader(&mut self, key: &[u8]) -> (r: Result<NodeId, Error>)
        requires
            old(self).wf(),
            leader_has_room(old(self)@),
        ensures
            final(self).wf(),
            proposed_at_leader(
                old(self)@,
                command_bytes(Op::Delete { key: key@ }),
                final(self)@,
                r,
            ),
            regular(old(self)@) ==> regular(final(self)@),
    {
        self.propose_at_leader(encode_delete(key))
    }

    fn propose_at_leader(&mut self, cmd: Bytes) -> (r: Result<NodeId, Error>)
        requires
            old(self).wf(),
            leader_has_room(old(self)@),
        ensures
            final(self).wf(),
            proposed_at_leader(old(self)@, octets(cmd), final(self)@, r),
            regular(old(self)@) ==> regular(final(self)@),
    {
        proof {
            cluster_state::lemma_leader_place(self@.members);
        }
        match self.find_leader() {
            Some(leader) => match self.propose_to(leader, cmd) {
                Ok(_) => Ok(leader),
                Err(e) => Err(e),
            },
            None => Err(Error::Internal(String::from_str("no leader"))),
        }
    }

    // ---- faults --------------------------------------------------------------------------

    /// Cuts `a` and `b` off from each other.
    pub fn partition(&mut self, a: NodeId, b: NodeId)
        requires
            old(self).wf(),
        ensures
            final(self).wf(),
            final(self)@ == (ClusterView {
                cut: old(self)@.cut.insert((a, b)).insert((b, a)),
                ..old(self)@
            }),
            regular(old(self)@) ==> regular(final(self)@),
    {
        self.partitions.cut(a, b);
        self.partitions.cut(b, a);
    }

    /// Cuts `id` off from every other node.
    pub fn isolate(&mut self, id: NodeId)
        requires
            old(self).wf(),
        ensures
            final(self).wf(),
            final(self)@.members == old(self)@.members,
            forall|x: NodeId, y: NodeId| #[trigger]
                final(self)@.cut.contains((x, y)) <==> old(self)@.cut.contains((x, y)) || (x == id
                    && y != id && place_of_id(old(self)@.members, y) is Some) || (y == id && x != id
                    && place_of_id(old(self)@.members, x) is Some),
            regular(old(self)@) ==> regular(final(self)@),
    {
        let ghost c = self@;
        let ghost ms = c.members;
        let n = self.nodes.len();
        for i in 0..n
            invariant
                n == ms.len(),
                n == self.nodes.len(),
                self.wf(),
                self@.members == ms,
                forall|x: NodeId, y: NodeId| #[trigger]
                    self@.cut.contains((x, y)) <==> c.cut.contains((x, y)) || (x == id && y != id
                        && exists|j: int| 0 <= j < i && (#[trigger] ms[j]).id == y) || (y == id && x
                        != id && exists|j: int| 0 <= j < i && (#[trigger] ms[j]).id == x),
        {
            let ghost prior = self@.cut;
            assert(ms[i as int] == self.nodes@[i as int]@);
            let other = self.nodes[i].id;
            if other != id {
                self.partition(id, other);
            }
            proof {
                assert(ms[i as int].id == other);
                assert forall|x: NodeId, y: NodeId| #[trigger]
                    self@.cut.contains((x, y)) <==> c.cut.contains((x, y)) || (x == id && y != id
                        && exists|j: int| 0 <= j < i + 1 && (#[trigger] ms[j]).id == y) || (y == id
                        && x != id && exists|j: int|
                        0 <= j < i + 1 && (#[trigger] ms[j]).id == x) by {
                    assert(prior.contains((x, y)) <==> c.cut.contains((x, y)) || (x == id && y != id
                        && exists|j: int| 0 <= j < i && (#[trigger] ms[j]).id == y) || (y == id && x
                        != id && exists|j: int| 0 <= j < i && (#[trigger] ms[j]).id == x));
                }
            }
        }
        proof {
            assert forall|x: NodeId, y: NodeId| #[trigger]
                self@.cut.contains((x, y)) <==> c.cut.contains((x, y)) || (x == id && y != id
                    && place_of_id(ms, y) is Some) || (y == id && x != id && place_of_id(ms, x)
                    is Some) by {
                cluster_state::lemma_place_of_id(ms, x);
                cluster_state::lemma_place_of_id(ms, y);
            }
        }
    }

    /// Heals every cut.
    pub fn heal(&mut self)
        requires
            old(self).wf(),
        ensures
            final(self).wf(),
            final(self)@ == (ClusterView { cut: Set::empty(), ..old(self)@ }),
            regular(old(self)@) ==> regular(final(self)@),
    {
        self.partitions.heal();
    }

    /// Whether the way from `a` to `b` is cut.
    pub fn is_partitioned(&self, a: NodeId, b: NodeId) -> (r: bool)
        ensures
            r == self@.cut.contains((a, b)),
    {
        self.partitions.is_cut(a, b)
    }

    /// Stops a node. What was in its inbox is lost.
    pub fn kill(&mut self, id: NodeId)
        requires
            old(self).wf(),
        ensures
            final(self).wf(),
            final(self)@.cut == old(self)@.cut,
            final(self)@.members == (match place_of_id(old(self)@.members, id) {
                Some(i) => old(self)@.members.update(
                    i,
                    MemberView { alive: false, inbox: seq![], ..old(self)@.members[i] },
                ),
                None => old(self)@.members,
            }),
            regular(old(self)@) ==> regular(final(self)@),
    {
        let ghost ms = self@.members;
        match self.place(id) {
            Some(i) => {
                assert(ms[i as int] == self.nodes@[i as int]@);
                self.nodes[i].alive = false;
                self.nodes[i].inbox = Vec::new();
                proof {
                    assert(message_views(self.nodes@[i as int].inbox@) =~= Seq::<
                        MessageView,
                    >::empty());
                    assert(self@.members =~= ms.update(
                        i as int,
                        MemberView { alive: false, inbox: seq![], ..ms[i as int] },
                    ));
                    if regular(old(self)@) {
                        safety::lemma_fault_regular(
                            old(self)@,
                            i as int,
                            false,
                            seq![],
                            old(self)@.cut,
                        );
                    }
                }
            },
            None => {},
        }
    }

    /// Lets a node go on.
    pub fn revive(&mut self, id: NodeId)
        requires
            old(self).wf(),
        ensures
            final(self).wf(),
            final(self)@.cut == old(self)@.cut,
            final(self)@.members == (match place_of_id(old(self)@.members, id) {
                Some(i) => old(self)@.members.update(
                    i,
                    MemberView { alive: true, ..old(self)@.members[i] },
                ),
                None => old(self)@.members,
            }),
            regular(old(self)@) ==> regular(final(self)@),
    {
        let ghost ms = self@.members;
        match self.place(id) {
            Some(i) => {
                assert(ms[i as int] == self.nodes@[i as int]@);
                self.nodes[i].alive = true;
                proof {
                    assert(self@.members =~= ms.update(
                        i as int,
                        MemberView { alive: true, ..ms[i as int] },
                    ));
                    if regular(old(self)@) {
                        safety::lemma_fault_regular(
                            old(self)@,
                            i as int,
                            true,
                            ms[i as int].inbox,
                            old(self)@.cut,
                        );
                    }
                }
            },
            None => {},
        }
    }

    // ---- inspection ------------------------------------------------------------------------

    /// What a node's store has under `key`.
    pub fn engine_get(&self, id: NodeId, key: &[u8]) -> (r: Option<Bytes>)
        requires
            self.wf(),
        ensures
            match place_of_id(self@.members, id) {
                Some(i) => opt_octets(r) == held(self@.members[i].store, key@),
                None => r is None,
            },
    {
        match self.place(id) {
            Some(i) => {
                assert(self.nodes@[i as int].wf());
                assert(self@.members[i as int] == self.nodes@[i as int]@);
                match self.nodes[i].sm.engine().get(key) {
                    Ok(v) => v,
                    Err(_) => None,
                }
            },
            None => None,
        }
    }

    /// How far a node's state machine has come.
    pub fn applied_index(&self, id: NodeId) -> (r: Option<LogIndex>)
        requires
            self.wf(),
        ensures
            r == (match place_of_id(self@.members, id) {
                Some(i) => Some(self@.members[i].applied),
                None => None,
            }),
    {
        match self.place(id) {
            Some(i) => {
                assert(self.nodes@[i as int].wf());
                Some(self.nodes[i].sm.applied_index())
            },
            None => None,
        }
    }

    pub fn role(&self, id: NodeId) -> (r: Option<Role>)
        ensures
            r == (match place_of_id(self@.members, id) {
                Some(i) => Some(self@.members[i].node.role),
                None => None,
            }),
    {
        match self.place(id) {
            Some(i) => Some(self.nodes[i].node.role()),
            None => None,
        }
    }

    pub fn term(&self, id: NodeId) -> (r: Option<Term>)
        ensures
            r == (match place_of_id(self@.members, id) {
                Some(i) => Some(self@.members[i].node.term),
                None => None,
            }),
    {
        match self.place(id) {
            Some(i) => Some(self.nodes[i].node.term()),
            None => None,
        }
    }

    /// The numbers of the nodes, in order.
    pub fn ids(&self) -> (r: Vec<NodeId>)
        ensures
            r@ == member_ids(self@.members),
    {
        let mut out: Vec<NodeId> = Vec::new();
        for i in 0..self.nodes.len()
            invariant
                out@.len() == i,
                forall|j: int| 0 <= j < i ==> out@[j] == (#[trigger] self@.members[j]).id,
        {
            out.push(self.nodes[i].id);
        }
        assert(out@ =~= member_ids(self@.members));
        out
    }

    /// The numbers of the nodes that are alive, in order.
    pub fn alive_ids(&self) -> (r: Vec<NodeId>)
        ensures
            r@ == living_ids(self@.members),
    {
        let ghost ms = self@.members;
        let mut out: Vec<NodeId> = Vec::new();
        assert(ms.take(0) =~= Seq::<MemberView>::empty());
        for i in 0..self.nodes.len()
            invariant
                ms == self@.members,
                out@ == living_ids(ms.take(i as int)),
        {
            proof {
                assert(ms.take(i + 1).drop_last() =~= ms.take(i as int));
                assert(ms.take(i + 1).last() == self.nodes@[i as int]@);
            }
            if self.nodes[i].alive {
                out.push(self.nodes[i].id);
            }
        }
        assert(ms.take(ms.len() as int) =~= ms);
        out
    }
}

/// What proposing to a node comes to.
pub open spec fn proposed_at(
    c: ClusterView,
    id: NodeId,
    data: Seq<u8>,
    d: ClusterView,
    r: Result<(), Error>,
) -> bool {
    match place_of_id(c.members, id) {
        None => (r matches Err(e) && e.is_invalid("no such node "@ + decimal(id as nat))) && d == c,
        Some(i) => {
            let m = c.members[i];
            if !m.alive {
                (r matches Err(e) && e.is_internal(
                    "node "@ + decimal(id as nat) + " is dead"@,
                )) && d == c
            } else if m.node.role != Role::Leader {
                r == Err::<(), Error>(Error::NotLeader(m.node.leader)) && d == c
            } else {
                r is Ok && d == (ClusterView {
                    members: c.members.update(
                        i,
                        MemberView { node: proposed(m.node, data), ..m },
                    ),
                    ..c
                })
            }
        },
    }
}

/// The leader has an index for one more entry.
pub open spec fn leader_has_room(c: ClusterView) -> bool {
    leader_place(c.members) matches Some(i) ==> place_of_id(
        c.members,
        c.members[i].id,
    ) matches Some(j) ==> c.members[j].node.log.len() < u64::MAX
}

/// What proposing to the leader comes to.
pub open spec fn proposed_at_leader(
    c: ClusterView,
    data: Seq<u8>,
    d: ClusterView,
    r: Result<NodeId, Error>,
) -> bool {
    match leader_place(c.members) {
        None => (r matches Err(e) && e.is_internal("no leader"@)) && d == c,
        Some(i) => {
            let id = c.members[i].id;
            match r {
                Ok(n) => n == id && proposed_at(c, id, data, d, Ok(())),
                Err(e) => proposed_at(c, id, data, d, Err(e)),
            }
        },
    }
}

/// The numbers of the members.
pub open spec fn member_ids(ms: Seq<MemberView>) -> Seq<NodeId> {
    Seq::new(ms.len(), |i: int| ms[i].id)
}

/// The numbers of the members that are alive.
pub open spec fn living_ids(ms: Seq<MemberView>) -> Seq<NodeId>
    decreases ms.len(),
{
    if ms.len() == 0 {
        seq![]
    } else if ms.last().alive {
        living_ids(ms.drop_last()).push(ms.last().id)
    } else {
        living_ids(ms.drop_last())
    }
}

} // verus!
