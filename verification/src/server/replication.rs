//! What is proposed to the leader reaches every living member.
//!
//! As long as nothing is cut and more than half of the members are alive, the
//! leader among them, an entry is sent, taken on, acknowledged, committed, and
//! told to be committed. What is followed are the stages of this, each of which
//! takes a round, and one of which a tick.

use vstd::prelude::*;

use crate::raft::laws;
use crate::raft::peers::{nodes_with, up_to};
use crate::raft::state::{
    append_body, broadcast, committed_more, done_with, drained, handled, may_commit, next_for,
    proposed, proposed_entry, replicas, sent_to, ticked, to_apply, NodeView, Role,
};
use crate::raft::storage::{has_entry, lemma_lacking_on};
use crate::raft::types::{BodyView, EntryKind, EntryView, MessageView};
use crate::server::cluster_state::{
    self, after_round, after_rounds, after_ticks, all_settled, all_ticked, all_worked,
    applied_commands, fresh_member, is_active, sends, settled_member, stepped_all, ticked_member,
    worked, ClusterView, MemberView,
};
use crate::server::rounds;
use crate::server::state_machine::{self, writes_of};
use crate::storage::engine::{lemma_written_more, written_all, Contents};
use crate::types::{LogIndex, NodeId, Term};

verus! {

/// What the living members of a cluster have come to: who they are, who leads in
/// which term, the log, what the stores hold and how far the machines have come.
pub struct Standing {
    pub ids: Seq<NodeId>,
    /// Those that are alive.
    pub living: Set<NodeId>,
    /// The place of the leader.
    pub lead: int,
    pub term: Term,
    pub log: Seq<EntryView>,
    pub store: Contents,
    pub applied: LogIndex,
}

impl Standing {
    /// The ids are distinct, more than half of them are alive, the leader is one of
    /// those, and there is an index for another entry.
    pub open spec fn wf(self) -> bool {
        &&& self.ids.no_duplicates()
        &&& 10 + 5 * self.ids.len() <= u32::MAX
        &&& 0 <= self.lead < self.ids.len()
        &&& self.living.finite()
        &&& self.living.subset_of(self.ids.to_set())
        &&& self.living.contains(self.leader())
        &&& 2 * self.living.len() > self.ids.len()
        &&& self.log.len() + 1 < u64::MAX
    }

    /// The member at the place is alive.
    pub open spec fn lives(self, i: int) -> bool {
        0 <= i < self.ids.len() && self.living.contains(self.ids[i])
    }

    /// The member at the place is alive, and does not lead.
    pub open spec fn other(self, i: int) -> bool {
        self.lives(i) && i != self.lead
    }

    /// The id of the leader.
    pub open spec fn leader(self) -> NodeId {
        self.ids[self.lead]
    }

    /// How long the log is.
    pub open spec fn end(self) -> LogIndex {
        self.log.len() as u64
    }

    /// The term of the last entry.
    pub open spec fn last_term(self) -> Term {
        if self.log.len() == 0 {
            0
        } else {
            self.log.last().term
        }
    }

    /// The entry that the leader makes of a proposal.
    pub open spec fn entry(self, data: Seq<u8>) -> EntryView {
        EntryView {
            index: (self.log.len() + 1) as u64,
            term: self.term,
            kind: EntryKind::Normal,
            data,
        }
    }

    /// What all have come to with one more entry.
    pub open spec fn with(self, data: Seq<u8>) -> Standing {
        let e = self.entry(data);
        Standing {
            log: self.log.push(e),
            store: written_all(self.store, writes_of(seq![e])),
            applied: applied_commands(self.applied, seq![e]),
            ..self
        }
    }
}

/// A heartbeat of the leader: nobody lacks anything.
pub open spec fn heartbeat(z: Standing, to: NodeId) -> MessageView {
    MessageView {
        from: z.leader(),
        to,
        term: z.term,
        body: BodyView::AppendEntries {
            prev_log_index: z.end(),
            prev_log_term: z.last_term(),
            entries: seq![],
            leader_commit: z.end(),
        },
    }
}

/// The answer to a leader from a member that has the whole log.
pub open spec fn answer(z: Standing, from: NodeId) -> MessageView {
    MessageView {
        from,
        to: z.leader(),
        term: z.term,
        body: BodyView::AppendResponse { success: true, match_index: z.end() },
    }
}

/// The member at place `i` is alive, set up as it was in the beginning, and in the
/// term.
pub open spec fn stands(m: MemberView, z: Standing, i: int) -> bool {
    &&& m.id == z.ids[i]
    &&& m.alive
    &&& m.node.id == z.ids[i]
    &&& m.node.config == fresh_member(z.ids, i).node.config
    &&& m.node.term == z.term
    &&& m.node.role == (if i == z.lead {
        Role::Leader
    } else {
        Role::Follower
    })
}

/// The leader with nothing left to do: nothing is on its way but heartbeats and
/// the answers to them.
pub open spec fn leads_quietly(m: MemberView, z: Standing) -> bool {
    &&& stands(m, z, z.lead)
    &&& m.node.elapsed == 0
    &&& m.node.log == z.log
    &&& m.node.commit == z.end()
    &&& m.node.applied == z.end()
    &&& m.node.matched.dom().finite()
    &&& m.node.outbox.len() == 0
    &&& forall|j: int|
        z.other(j) ==> next_for(m.node, #[trigger] z.ids[j]) == z.end() + 1
    &&& m.store == z.store
    &&& m.applied == z.applied
    &&& forall|x: int| 0 <= x < m.inbox.len() ==> (#[trigger] m.inbox[x]) == answer(z, m.inbox[x].from)
}

/// A follower that lacks nothing.
pub open spec fn keeps_up(m: MemberView, z: Standing, i: int) -> bool {
    &&& stands(m, z, i)
    &&& m.node.log == z.log
    &&& m.node.commit == z.end()
    &&& m.node.applied == z.end()
    &&& m.node.outbox.len() == 0
    &&& m.store == z.store
    &&& m.applied == z.applied
    &&& forall|x: int| 0 <= x < m.inbox.len() ==> (#[trigger] m.inbox[x]) == heartbeat(z, z.ids[i])
    &&& m.node.elapsed == 0 || (m.inbox.len() > 0 && m.node.elapsed <= 1)
}

/// The member at place `i` is down.
pub open spec fn down(m: MemberView, z: Standing, i: int) -> bool {
    m.id == z.ids[i] && !m.alive
}

/// Nothing is cut, and all who are alive have come to the same.
pub open spec fn settled(c: ClusterView, z: Standing) -> bool {
    &&& c.cut == Set::<(NodeId, NodeId)>::empty()
    &&& c.members.len() == z.ids.len()
    &&& leads_quietly(c.members[z.lead], z)
    &&& forall|i: int|
        z.other(i) ==> keeps_up(#[trigger] c.members[i], z, i)
    &&& forall|i: int|
        0 <= i < z.ids.len() && !z.lives(i) ==> down(#[trigger] c.members[i], z, i)
}

/// The cluster after a proposal to the member at place `i`, which leads.
pub open spec fn with_proposal(c: ClusterView, i: int, data: Seq<u8>) -> ClusterView {
    ClusterView {
        members: c.members.update(
            i,
            MemberView { node: proposed(c.members[i].node, data), ..c.members[i] },
        ),
        ..c
    }
}

// ---- on the way ------------------------------------------------------------------------

/// The message that carries the new entry, with a commit index.
spec fn carrying(z: Standing, data: Seq<u8>, to: NodeId, commit: LogIndex) -> MessageView {
    MessageView {
        from: z.leader(),
        to,
        term: z.term,
        body: BodyView::AppendEntries {
            prev_log_index: z.end(),
            prev_log_term: z.last_term(),
            entries: seq![z.entry(data)],
            leader_commit: commit,
        },
    }
}

/// The commit index is the old or the new one.
spec fn about(z: Standing, commit: LogIndex) -> bool {
    z.end() <= commit <= z.end() + 1
}

/// The message carries the new entry.
spec fn carries(z: Standing, data: Seq<u8>, m: MessageView, to: NodeId) -> bool {
    exists|c: LogIndex| #[trigger] about(z, c) && m == carrying(z, data, to, c)
}

/// Some message of the list carries the new entry.
spec fn some_carries(z: Standing, data: Seq<u8>, msgs: Seq<MessageView>, to: NodeId) -> bool {
    exists|x: int| 0 <= x < msgs.len() && carries(z, data, #[trigger] msgs[x], to)
}

/// The store and the machine are where the node has applied to.
spec fn applied_to(m: MemberView, z: Standing, data: Seq<u8>) -> bool {
    ||| m.node.applied == z.end() && m.store == z.store && m.applied == z.applied
    ||| m.node.applied == z.end() + 1 && m.store == z.with(data).store && m.applied == z.with(
        data,
    ).applied
}

/// The leader at stage `k`: it has the entry (0), it has sent it (1), the others
/// have it (2), it is committed (3), that is told (4), and everybody knows (5).
/// With `t` a tick has just gone by.
spec fn leader_at(m: MemberView, z: Standing, data: Seq<u8>, k: int, t: int) -> bool {
    let y = z.with(data);
    &&& stands(m, z, z.lead)
    &&& m.node.elapsed == 0
    &&& m.node.log == y.log
    &&& about(z, m.node.commit)
    &&& m.node.matched.dom().finite()
    &&& applied_to(m, z, data)
    &&& m.node.applied <= m.node.commit
    &&& k >= 1 ==> m.node.applied == m.node.commit
    &&& k >= 3 || z.ids.len() == 1 ==> m.node.commit == y.end()
    &&& forall|j: int|
        z.other(j) ==> next_for(m.node, #[trigger] z.ids[j]) == (if k
            >= 3 {
            y.end()
        } else {
            z.end()
        }) + 1
    &&& forall|x: int|
        0 <= x < m.inbox.len() ==> (#[trigger] m.inbox[x]) == answer(
            if k >= 2 {
                y
            } else {
                z
            },
            m.inbox[x].from,
        )
    &&& k == 2 ==> forall|j: int|
        z.other(j) ==> m.inbox.contains(answer(y, #[trigger] z.ids[j]))
    &&& forall|x: int|
        0 <= x < m.node.outbox.len() ==> (#[trigger] m.node.outbox[x]).to != z.leader() && (
        z.living.contains(m.node.outbox[x].to) ==> (if k >= 3 {
            m.node.outbox[x] == heartbeat(y, m.node.outbox[x].to)
        } else {
            carries(z, data, m.node.outbox[x], m.node.outbox[x].to)
        }))
    &&& k == 0 || (k <= 2 && t == 1) ==> forall|j: int|
        z.other(j) ==> some_carries(
            z,
            data,
            m.node.outbox,
            #[trigger] z.ids[j],
        )
    &&& k >= 1 && t == 0 ==> m.node.outbox.len() == 0
    &&& k >= 3 && t == 1 ==> forall|j: int|
        z.other(j) ==> m.node.outbox.contains(
            heartbeat(y, #[trigger] z.ids[j]),
        )
}

/// Another member at stage `k`.
spec fn other_at(m: MemberView, z: Standing, data: Seq<u8>, i: int, k: int, t: int) -> bool {
    let y = z.with(data);
    &&& stands(m, z, i)
    &&& m.node.outbox.len() == 0
    &&& m.node.log == (if k >= 2 {
        y.log
    } else {
        z.log
    })
    &&& about(z, m.node.commit)
    &&& m.node.commit <= m.node.log.len()
    &&& m.node.applied == m.node.commit
    &&& applied_to(m, z, data)
    &&& k == 0 ==> forall|x: int|
        0 <= x < m.inbox.len() ==> (#[trigger] m.inbox[x]) == heartbeat(z, z.ids[i])
    &&& 1 <= k <= 3 ==> forall|x: int|
        0 <= x < m.inbox.len() ==> carries(z, data, #[trigger] m.inbox[x], z.ids[i])
    &&& k >= 4 ==> forall|x: int|
        0 <= x < m.inbox.len() ==> (#[trigger] m.inbox[x]) == heartbeat(y, z.ids[i])
    &&& k == 1 || k == 4 ==> m.inbox.len() > 0
    &&& k == 5 ==> m.node.commit == y.end()
    &&& m.node.elapsed <= t || (m.inbox.len() > 0 && m.node.elapsed <= 1 + t)
}

spec fn stage(c: ClusterView, z: Standing, data: Seq<u8>, k: int, t: int) -> bool {
    &&& c.cut == Set::<(NodeId, NodeId)>::empty()
    &&& c.members.len() == z.ids.len()
    &&& leader_at(c.members[z.lead], z, data, k, t)
    &&& forall|i: int|
        z.other(i) ==> other_at(#[trigger] c.members[i], z, data, i, k, t)
    &&& forall|i: int|
        0 <= i < z.ids.len() && !z.lives(i) ==> down(#[trigger] c.members[i], z, i)
}

/// The stage after a round: from the third it takes a tick to go on.
spec fn later(k: int, t: int) -> int {
    if k == 5 || (k == 3 && t == 0) {
        k
    } else {
        k + 1
    }
}

// ---- what the members do ---------------------------------------------------------------

/// What a follower is that has the whole log, after heartbeats.
proof fn lemma_follows_heartbeats(s: NodeView, msgs: Seq<MessageView>, z: Standing, i: int)
    requires
        z.wf(),
        0 <= i < z.ids.len(),
        s.id == z.ids[i],
        s.role == Role::Follower,
        s.term == z.term,
        s.log == z.log,
        s.commit <= z.end(),
        s.outbox.len() == 0,
        forall|x: int| 0 <= x < msgs.len() ==> (#[trigger] msgs[x]) == heartbeat(z, z.ids[i]),
    ensures
        ({
            let r = stepped_all(s, msgs);
            &&& r == (NodeView {
                elapsed: r.elapsed,
                leader: r.leader,
                commit: r.commit,
                saved: r.saved,
                news: r.news,
                outbox: r.outbox,
                ..s
            })
            &&& r.elapsed == (if msgs.len() > 0 {
                0
            } else {
                s.elapsed
            })
            &&& r.commit == (if msgs.len() > 0 {
                z.end()
            } else {
                s.commit
            })
            &&& r.outbox == Seq::new(msgs.len(), |x: int| answer(z, z.ids[i]))
        }),
    decreases msgs.len(),
{
    if msgs.len() == 0 {
        assert(s.outbox =~= Seq::new(msgs.len(), |x: int| answer(z, z.ids[i])));
    } else {
        let d = msgs.drop_last();
        let m = msgs.last();
        assert forall|x: int| 0 <= x < d.len() implies (#[trigger] d[x]) == heartbeat(
            z,
            z.ids[i],
        ) by {
            assert(d[x] == msgs[x]);
        }
        lemma_follows_heartbeats(s, d, z, i);
        let a = stepped_all(s, d);
        let b = stepped_all(s, msgs);
        assert(msgs[msgs.len() - 1] == m);
        assert(b == handled(a, m));
        assert(b.outbox == a.outbox.push(answer(z, z.ids[i])));
        assert(b.outbox =~= Seq::new(msgs.len(), |x: int| answer(z, z.ids[i])));
    }
}

/// What a follower is after messages that carry the new entry.
proof fn lemma_follows_carriers(
    s: NodeView,
    msgs: Seq<MessageView>,
    z: Standing,
    data: Seq<u8>,
    i: int,
)
    requires
        z.wf(),
        0 <= i < z.ids.len(),
        s.id == z.ids[i],
        s.role == Role::Follower,
        s.term == z.term,
        s.log == z.log || s.log == z.with(data).log,
        about(z, s.commit),
        s.commit <= s.log.len(),
        s.outbox.len() == 0,
        forall|x: int| 0 <= x < msgs.len() ==> carries(z, data, #[trigger] msgs[x], z.ids[i]),
    ensures
        ({
            let r = stepped_all(s, msgs);
            let y = z.with(data);
            &&& r == (NodeView {
                elapsed: r.elapsed,
                leader: r.leader,
                commit: r.commit,
                saved: r.saved,
                news: r.news,
                outbox: r.outbox,
                log: r.log,
                ..s
            })
            &&& r.elapsed == (if msgs.len() > 0 {
                0
            } else {
                s.elapsed
            })
            &&& r.log == (if msgs.len() > 0 {
                y.log
            } else {
                s.log
            })
            &&& about(z, r.commit)
            &&& s.commit <= r.commit <= r.log.len()
            &&& r.outbox == Seq::new(msgs.len(), |x: int| answer(y, z.ids[i]))
        }),
    decreases msgs.len(),
{
    let y = z.with(data);
    if msgs.len() == 0 {
        assert(s.outbox =~= Seq::new(msgs.len(), |x: int| answer(y, z.ids[i])));
    } else {
        let d = msgs.drop_last();
        let m = msgs.last();
        assert forall|x: int| 0 <= x < d.len() implies carries(
            z,
            data,
            #[trigger] d[x],
            z.ids[i],
        ) by {
            assert(d[x] == msgs[x]);
        }
        lemma_follows_carriers(s, d, z, data, i);
        let a = stepped_all(s, d);
        let b = stepped_all(s, msgs);
        assert(carries(z, data, msgs[msgs.len() - 1], z.ids[i]));
        let c = choose|c: LogIndex| #[trigger] about(z, c) && m == carrying(z, data, z.ids[i], c);
        let e = z.entry(data);
        assert(b == handled(a, m));
        assert(a.term_at(z.end() as int) == z.last_term());
        let es = seq![e];
        assert(es[0] == e);
        assert(a.log == z.log || a.log == y.log);
        if a.log == y.log {
            assert(has_entry(a.log, es[0]));
            lemma_lacking_on(a.log, es, 1);
            assert(es.skip(1) =~= Seq::<EntryView>::empty());
        } else {
            lemma_lacking_on(a.log, es, 0);
            assert(es.skip(0) =~= es);
            assert(a.log.take(e.index - 1) + es =~= y.log);
        }
        assert(b.log == y.log);
        assert(b.outbox == a.outbox.push(answer(y, z.ids[i])));
        assert(b.outbox =~= Seq::new(msgs.len(), |x: int| answer(y, z.ids[i])));
    }
}

/// What the leader is after answers: it notes how far each one has come, and
/// commits what it may.
proof fn lemma_leads_answers(s: NodeView, msgs: Seq<MessageView>, z: Standing)
    requires
        z.wf(),
        s.id == z.leader(),
        s.role == Role::Leader,
        s.term == z.term,
        s.log.len() <= z.log.len() + 1,
        s.log.len() < u64::MAX,
        s.commit <= s.log.len(),
        s.matched.dom().finite(),
        forall|x: int|
            0 <= x < msgs.len() ==> (#[trigger] msgs[x]) == answer(z, msgs[x].from),
    ensures
        ({
            let r = stepped_all(s, msgs);
            &&& r == (NodeView {
                commit: r.commit,
                saved: r.saved,
                news: r.news,
                next: r.next,
                matched: r.matched,
                ..s
            })
            &&& s.commit <= r.commit <= r.log.len()
            &&& r.matched.dom().finite()
            &&& forall|p: NodeId| #[trigger] next_for(r, p) == next_for(s, p) || next_for(r, p)
                == z.end() + 1
            &&& forall|x: int|
                0 <= x < msgs.len() ==> next_for(r, (#[trigger] msgs[x]).from) == z.end() + 1
                    && r.matched.contains_key(msgs[x].from) && r.matched[msgs[x].from] == z.end()
            &&& msgs.len() > 0 && may_commit(r, r.log.len() as int) ==> r.commit == r.log.len()
        }),
    decreases msgs.len(),
{
    if msgs.len() > 0 {
        let d = msgs.drop_last();
        let m = msgs.last();
        assert forall|x: int| 0 <= x < d.len() implies (#[trigger] d[x]) == answer(
            z,
            d[x].from,
        ) by {
            assert(d[x] == msgs[x]);
        }
        lemma_leads_answers(s, d, z);
        let a = stepped_all(s, d);
        let b = stepped_all(s, msgs);
        assert(msgs[msgs.len() - 1] == m);
        assert(m == answer(z, m.from));
        assert(b == handled(a, m));
        let t = NodeView {
            matched: a.matched.insert(m.from, z.end()),
            next: a.next.insert(m.from, (z.end() + 1) as u64),
            ..a
        };
        assert(b == committed_more(t));
        laws::lemma_commit_rule(t, t.log.len() as int);
        assert forall|x: int| 0 <= x < msgs.len() implies next_for(b, (#[trigger] msgs[x]).from)
            == z.end() + 1 && b.matched.contains_key(msgs[x].from) && b.matched[msgs[x].from]
            == z.end() by {
            if x < d.len() {
                assert(d[x] == msgs[x]);
            }
        }
        assert forall|p: NodeId| #[trigger] next_for(b, p) == next_for(s, p) || next_for(b, p)
            == z.end() + 1 by {
            assert(next_for(a, p) == next_for(s, p) || next_for(a, p) == z.end() + 1);
        }
        if may_commit(b, b.log.len() as int) {
            assert(replicas(t, b.log.len() as u64) == replicas(b, b.log.len() as u64));
            assert(may_commit(t, b.log.len() as int));
        }
    }
}

/// What is ready at a member is the new entry, if it is committed and not
/// applied yet.
proof fn lemma_settles(m: MemberView, z: Standing, data: Seq<u8>)
    requires
        z.wf(),
        m.alive,
        m.node.log == z.log || m.node.log == z.with(data).log,
        about(z, m.node.commit),
        m.node.commit <= m.node.log.len(),
        m.node.applied <= m.node.commit,
        applied_to(m, z, data),
    ensures
        ({
            let r = settled_member(m);
            &&& r.node == (NodeView { applied: m.node.commit, ..drained(m.node) })
            &&& applied_to(r, z, data)
            &&& r == (MemberView { node: r.node, store: r.store, applied: r.applied, ..m })
        }),
{
    let es = to_apply(m.node);
    let e = z.entry(data);
    let y = z.with(data);
    if m.node.applied < m.node.commit {
        assert(m.node.log == y.log);
        assert(es =~= seq![e]);
        assert(es.last() == e);
        assert(done_with(drained(m.node), es).applied == m.node.commit);
    } else {
        assert(es =~= seq![]);
        assert(writes_of(es) =~= seq![]);
    }
}

// ---- a round ---------------------------------------------------------------------------

/// What a member is after a round, but for its inbox, and what it sent.
proof fn lemma_round_member(c: ClusterView, z: Standing, data: Seq<u8>, i: int)
    requires
        z.wf(),
        0 <= i < c.members.len(),
        ({
            let w = worked(c.members[i]);
            &&& c.members[i].alive
            &&& w.node.log == z.log || w.node.log == z.with(data).log
            &&& about(z, w.node.commit)
            &&& w.node.commit <= w.node.log.len()
            &&& w.node.applied <= w.node.commit
            &&& applied_to(w, z, data)
        }),
    ensures
        after_round(c).members.len() == c.members.len(),
        ({
            let w = worked(c.members[i]);
            let r = after_round(c).members[i];
            &&& r.id == c.members[i].id
            &&& r.alive
            &&& r.node == (NodeView { applied: w.node.commit, ..drained(w.node) })
            &&& applied_to(r, z, data)
            &&& sends(all_worked(c.members)[i]) == w.node.outbox
        }),
{
    let w = all_worked(c.members);
    rounds::lemma_delivered(all_settled(w), c.cut, cluster_state::all_sent(w));
    assert(w[i] == worked(c.members[i]));
    assert(all_settled(w)[i] == settled_member(w[i]));
    lemma_settles(w[i], z, data);
}

/// What a follower makes of its inbox at stage `k`.
proof fn lemma_other_works(c: ClusterView, z: Standing, data: Seq<u8>, k: int, t: int, i: int)
    requires
        z.wf(),
        z.with(data).wf(),
        stage(c, z, data, k, t),
        0 <= k <= 5,
        0 <= t <= 1,
        z.other(i),
    ensures
        ({
            let m = c.members[i];
            let w = worked(m).node;
            let r = after_round(c).members[i];
            let y = z.with(data);
            &&& after_round(c).members.len() == z.ids.len()
            &&& stands(r, z, i)
            &&& r.node.outbox.len() == 0
            &&& r.node.log == (if k >= 1 {
                y.log
            } else {
                z.log
            })
            &&& about(z, r.node.commit)
            &&& r.node.commit <= r.node.log.len()
            &&& r.node.applied == r.node.commit
            &&& applied_to(r, z, data)
            &&& r.node.elapsed == (if m.inbox.len() > 0 {
                0
            } else {
                m.node.elapsed
            })
            &&& k >= 4 ==> r.node.commit == y.end()
            &&& sends(all_worked(c.members)[i]) == Seq::new(
                m.inbox.len(),
                |x: int|
                    answer(
                        if k >= 1 {
                            y
                        } else {
                            z
                        },
                        z.ids[i],
                    ),
            )
        }),
{
    let m = c.members[i];
    let y = z.with(data);
    assert(other_at(m, z, data, i, k, t));
    if k == 0 {
        lemma_follows_heartbeats(m.node, m.inbox, z, i);
    } else if k <= 3 {
        lemma_follows_carriers(m.node, m.inbox, z, data, i);
    } else {
        assert(y.wf());
        lemma_follows_heartbeats(m.node, m.inbox, y, i);
    }
    let w = worked(m);
    assert(applied_to(w, z, data));
    lemma_round_member(c, z, data, i);
}

/// What the leader makes of its inbox at stage `k`.
proof fn lemma_leader_works(c: ClusterView, z: Standing, data: Seq<u8>, k: int, t: int)
    requires
        z.wf(),
        z.with(data).wf(),
        stage(c, z, data, k, t),
        0 <= k <= 5,
        0 <= t <= 1,
    ensures
        ({
            let m = c.members[z.lead];
            let r = after_round(c).members[z.lead];
            let y = z.with(data);
            &&& after_round(c).members.len() == z.ids.len()
            &&& stands(r, z, z.lead)
            &&& r.node.elapsed == 0
            &&& r.node.outbox.len() == 0
            &&& r.node.log == y.log
            &&& about(z, r.node.commit)
            &&& r.node.applied == r.node.commit
            &&& r.node.matched.dom().finite()
            &&& applied_to(r, z, data)
            &&& k >= 2 || z.ids.len() == 1 ==> r.node.commit == y.end()
            &&& forall|j: int|
                z.other(j) ==> next_for(r.node, #[trigger] z.ids[j]) == (
                if k >= 2 {
                    y.end()
                } else {
                    z.end()
                }) + 1
            &&& sends(all_worked(c.members)[z.lead]) == m.node.outbox
        }),
{
    let m = c.members[z.lead];
    let y = z.with(data);
    let w = worked(m);
    if k >= 2 {
        lemma_leads_answers(m.node, m.inbox, y);
        if k == 2 && z.ids.len() > 1 {
            lemma_all_have(w.node, m.inbox, z, data);
            let j = lemma_some_other(z);
            assert(m.inbox.contains(answer(y, z.ids[j])));
        }
        assert forall|j: int| z.other(j) implies next_for(
            w.node,
            #[trigger] z.ids[j],
        ) == y.end() + 1 by {
            if k == 2 {
                let x = m.inbox.index_of(answer(y, z.ids[j]));
                assert(m.inbox[x].from == z.ids[j]);
            }
        }
    } else {
        lemma_leads_answers(m.node, m.inbox, z);
    }
    assert(applied_to(w, z, data));
    lemma_round_member(c, z, data, z.lead);
    let r = after_round(c).members[z.lead];
    assert forall|j: int| z.other(j) implies next_for(
        r.node,
        #[trigger] z.ids[j],
    ) == next_for(w.node, z.ids[j]) by {}
}

/// A leader that is not by itself has somebody alive with it.
proof fn lemma_some_other(z: Standing) -> (j: int)
    requires
        z.wf(),
        z.ids.len() > 1,
    ensures
        z.other(j),
{
    let rest = z.living.remove(z.leader());
    assert(rest.len() > 0);
    let v = rest.choose();
    assert(z.ids.to_set().contains(v));
    z.ids.index_of(v)
}

/// With the answers of all the others the new entry can be committed.
proof fn lemma_all_have(s: NodeView, msgs: Seq<MessageView>, z: Standing, data: Seq<u8>)
    requires
        z.wf(),
        s.id == z.leader(),
        s.term == z.term,
        s.config == fresh_member(z.ids, z.lead).node.config,
        s.log == z.with(data).log,
        s.matched.dom().finite(),
        forall|j: int|
            z.other(j) ==> msgs.contains(
                answer(z.with(data), #[trigger] z.ids[j]),
            ),
        forall|x: int|
            0 <= x < msgs.len() ==> s.matched.contains_key((#[trigger] msgs[x]).from)
                && s.matched[msgs[x].from] == z.with(data).end(),
    ensures
        may_commit(s, s.log.len() as int),
{
    let y = z.with(data);
    let n = y.end();
    let all = z.living.remove(z.leader());
    let have = nodes_with(s.matched, up_to(s.id, n));
    assert(z.ids.contains(z.leader()));
    assert(all.subset_of(have)) by {
        assert forall|p: NodeId| #[trigger] all.contains(p) implies have.contains(p) by {
            assert(z.ids.to_set().contains(p));
            let j = z.ids.index_of(p);
            assert(z.ids[j] == p);
            assert(z.other(j));
            let x = msgs.index_of(answer(y, z.ids[j]));
            assert(msgs[x].from == p);
        }
    }
    vstd::set_lib::lemma_len_subset(all, have);
    cluster_state::lemma_others_count(z.ids, z.leader());
    assert(s.log[n - 1] == z.entry(data));
}

/// Ids differ from place to place.
proof fn lemma_places_apart(c: ClusterView, z: Standing, data: Seq<u8>, k: int, t: int, i: int)
    requires
        z.wf(),
        stage(c, z, data, k, t),
        z.lives(i),
    ensures
        c.members[i].id == z.ids[i],
        c.members[i].alive,
        forall|j: int|
            0 <= j < c.members.len() && j != i ==> (#[trigger] c.members[j]).id
                != c.members[i].id,
{
    assert forall|j: int| 0 <= j < c.members.len() implies (#[trigger] c.members[j]).id == z.ids[j]
        && c.members[j].alive == z.lives(j) by {
        if !z.lives(j) {
            assert(down(c.members[j], z, j));
        } else if j != z.lead {
            assert(other_at(c.members[j], z, data, j, k, t));
        }
    }
}

proof fn lemma_round_leader(c: ClusterView, z: Standing, data: Seq<u8>, k: int, t: int)
    requires
        z.wf(),
        z.with(data).wf(),
        stage(c, z, data, k, t),
        0 <= k <= 5,
        0 <= t <= 1,
    ensures
        leader_at(after_round(c).members[z.lead], z, data, later(k, t), 0),
{
    let d = after_round(c);
    let w = all_worked(c.members);
    let y = z.with(data);
    let n = later(k, t);
    let r = d.members[z.lead];
    let zz = if k >= 1 {
        y
    } else {
        z
    };
    lemma_leader_works(c, z, data, k, t);
    lemma_places_apart(c, z, data, k, t, z.lead);
    rounds::lemma_round_mail(c, z.lead);
    assert forall|x: int| 0 <= x < r.inbox.len() implies (#[trigger] r.inbox[x]) == answer(
        zz,
        r.inbox[x].from,
    ) by {
        let msg = r.inbox[x];
        let j = choose|j: int| 0 <= j < c.members.len() && sends(#[trigger] w[j]).contains(msg);
        let o = sends(w[j]);
        let q = o.index_of(msg);
        if !z.lives(j) {
            assert(down(c.members[j], z, j));
            assert(w[j] == worked(c.members[j]));
        } else if j == z.lead {
            assert(c.members[j].node.outbox[q].to != z.leader());
        } else {
            lemma_other_works(c, z, data, k, t, j);
            assert(o[q] == answer(zz, z.ids[j]));
        }
    }
    if k == 1 {
        assert forall|j: int| z.other(j) implies r.inbox.contains(
            answer(y, #[trigger] z.ids[j]),
        ) by {
            lemma_other_works(c, z, data, k, t, j);
            assert(other_at(c.members[j], z, data, j, k, t));
            let o = sends(w[j]);
            assert(o[0] == answer(y, z.ids[j]));
            assert(o.contains(answer(y, z.ids[j])));
        }
    }
}

proof fn lemma_round_other(c: ClusterView, z: Standing, data: Seq<u8>, k: int, t: int, i: int)
    requires
        z.wf(),
        z.with(data).wf(),
        stage(c, z, data, k, t),
        0 <= k <= 5,
        0 <= t <= 1,
        z.other(i),
    ensures
        other_at(after_round(c).members[i], z, data, i, later(k, t), 0),
{
    let d = after_round(c);
    let w = all_worked(c.members);
    let y = z.with(data);
    let r = d.members[i];
    let m = c.members[i];
    let out = c.members[z.lead].node.outbox;
    assert(other_at(m, z, data, i, k, t));
    lemma_other_works(c, z, data, k, t, i);
    lemma_leader_works(c, z, data, k, t);
    lemma_places_apart(c, z, data, k, t, i);
    rounds::lemma_round_mail(c, i);
    assert forall|x: int| 0 <= x < r.inbox.len() implies out.contains(#[trigger] r.inbox[x])
        && r.inbox[x].to == z.ids[i] by {
        let msg = r.inbox[x];
        let j = choose|j: int| 0 <= j < c.members.len() && sends(#[trigger] w[j]).contains(msg);
        if !z.lives(j) {
            assert(down(c.members[j], z, j));
            assert(w[j] == worked(c.members[j]));
        } else if j != z.lead {
            lemma_other_works(c, z, data, k, t, j);
            let q = sends(w[j]).index_of(msg);
            assert(sends(w[j])[q].to == z.leader());
        }
    }
    if k <= 2 {
        assert forall|x: int| 0 <= x < r.inbox.len() implies carries(
            z,
            data,
            #[trigger] r.inbox[x],
            z.ids[i],
        ) by {
            let q = out.index_of(r.inbox[x]);
            assert(carries(z, data, out[q], out[q].to));
        }
        if k == 0 || t == 1 {
            assert(some_carries(z, data, out, z.ids[i]));
            let q = choose|q: int| 0 <= q < out.len() && carries(z, data, #[trigger] out[q], z.ids[i]);
            assert(out[q].to == z.ids[i]);
            assert(sends(w[z.lead]).contains(out[q]));
            assert(r.inbox.contains(out[q]));
        }
    } else {
        assert forall|x: int| 0 <= x < r.inbox.len() implies (#[trigger] r.inbox[x]) == heartbeat(
            y,
            z.ids[i],
        ) by {
            let q = out.index_of(r.inbox[x]);
            assert(out[q] == heartbeat(y, out[q].to));
        }
        if t == 1 {
            let h = heartbeat(y, z.ids[i]);
            assert(out.contains(h));
            assert(sends(w[z.lead]).contains(h));
            assert(r.inbox.contains(h));
        }
    }
}

/// A round brings the cluster a stage on.
proof fn lemma_round_stage(c: ClusterView, z: Standing, data: Seq<u8>, k: int, t: int)
    requires
        z.wf(),
        z.with(data).wf(),
        stage(c, z, data, k, t),
        0 <= k <= 5,
        0 <= t <= 1,
    ensures
        stage(after_round(c), z, data, later(k, t), 0),
{
    let d = after_round(c);
    lemma_leader_works(c, z, data, k, t);
    lemma_round_leader(c, z, data, k, t);
    assert forall|i: int| z.other(i) implies other_at(
        #[trigger] d.members[i],
        z,
        data,
        i,
        later(k, t),
        0,
    ) by {
        lemma_round_other(c, z, data, k, t, i);
    }
    assert forall|i: int| 0 <= i < z.ids.len() && !z.lives(i) implies down(
        #[trigger] d.members[i],
        z,
        i,
    ) by {
        assert(down(c.members[i], z, i));
        rounds::lemma_round_leaves(c, i);
    }
}

/// The cluster has come to stage `k`, or further.
spec fn come_to(c: ClusterView, z: Standing, data: Seq<u8>, k: int) -> bool {
    exists|n: int| k <= n <= 5 && #[trigger] stage(c, z, data, n, 0)
}

proof fn lemma_rounds_stage(
    c: ClusterView,
    z: Standing,
    data: Seq<u8>,
    k: int,
    t: int,
    rounds: nat,
)
    requires
        z.wf(),
        z.with(data).wf(),
        stage(c, z, data, k, t),
        0 <= k <= 5,
        0 <= t <= 1,
        rounds >= 1,
    ensures
        come_to(after_rounds(c, rounds), z, data, later(k, t)),
    decreases rounds,
{
    lemma_round_stage(c, z, data, k, t);
    let d = after_round(c);
    let n = later(k, t);
    if is_active(c) {
        if rounds == 1 {
            assert(after_rounds(d, 0) == d);
        } else {
            lemma_rounds_stage(d, z, data, n, 0, (rounds - 1) as nat);
            let r = after_rounds(c, rounds);
            let x = choose|x: int| later(n, 0) <= x <= 5 && #[trigger] stage(r, z, data, x, 0);
            assert(stage(r, z, data, x, 0));
        }
    }
}

// ---- a tick, and a proposal ------------------------------------------------------------

/// What the leader sends round.
spec fn call(z: Standing, data: Seq<u8>, far: bool, commit: LogIndex, to: NodeId) -> MessageView {
    if far {
        heartbeat(z.with(data), to)
    } else {
        carrying(z, data, to, commit)
    }
}

/// What a leader sends a peer.
spec fn calls_for(s: NodeView, peer: NodeId) -> MessageView {
    MessageView { from: s.id, to: peer, term: s.term, body: append_body(s, peer) }
}

/// What a leader sends its peers.
proof fn lemma_calls(s: NodeView, n: int)
    requires
        0 <= n <= s.config.peers.len(),
    ensures
        sent_to(s, n) == (NodeView {
            outbox: s.outbox + Seq::new(n as nat, |x: int| calls_for(s, s.config.peers[x])),
            ..s
        }),
    decreases n,
{
    let all = Seq::new(n as nat, |x: int| calls_for(s, s.config.peers[x]));
    if n == 0 {
        assert(s.outbox =~= s.outbox + all);
    } else {
        lemma_calls(s, n - 1);
        let a = sent_to(s, n - 1);
        let peer = s.config.peers[n - 1];
        assert(append_body(a, peer) == append_body(s, peer));
        assert(sent_to(s, n).outbox =~= s.outbox + all);
    }
}

/// Every other member that is alive is sent what a leader sends that has the new
/// entry, and nothing is sent to the leader.
proof fn lemma_calls_all(s: NodeView, z: Standing, data: Seq<u8>, far: bool)
    requires
        z.wf(),
        z.with(data).wf(),
        s.id == z.leader(),
        s.term == z.term,
        s.config == fresh_member(z.ids, z.lead).node.config,
        s.log == z.with(data).log,
        far ==> s.commit == z.with(data).end(),
        forall|j: int|
            z.other(j) ==> next_for(s, #[trigger] z.ids[j]) == (if far {
                z.with(data).end()
            } else {
                z.end()
            }) + 1,
    ensures
        ({
            let peers = s.config.peers;
            let all = Seq::new(peers.len(), |x: int| calls_for(s, peers[x]));
            &&& forall|x: int|
                0 <= x < all.len() ==> (#[trigger] all[x]).to != z.leader() && (z.living.contains(
                    all[x].to,
                ) ==> all[x] == call(z, data, far, s.commit, all[x].to))
            &&& forall|j: int|
                z.other(j) ==> all.contains(call(z, data, far, s.commit, #[trigger] z.ids[j]))
        }),
{
    let peers = s.config.peers;
    let all = Seq::new(peers.len(), |x: int| calls_for(s, peers[x]));
    let y = z.with(data);
    let e = z.entry(data);
    assert(y.log.subrange(z.log.len() as int, z.log.len() as int + 1) =~= seq![e]);
    assert forall|j: int| #[trigger] z.other(j) implies calls_for(s, z.ids[j]) == call(
        z,
        data,
        far,
        s.commit,
        z.ids[j],
    ) by {
        assert(append_body(s, z.ids[j]) == call(z, data, far, s.commit, z.ids[j]).body);
    }
    assert forall|x: int| 0 <= x < all.len() implies (#[trigger] all[x]).to != z.leader() && (
    z.living.contains(all[x].to) ==> all[x] == call(z, data, far, s.commit, all[x].to)) by {
        assert(peers.contains(peers[x]));
        cluster_state::lemma_others(z.ids, z.leader(), peers[x]);
        if z.living.contains(peers[x]) {
            let j = z.ids.index_of(peers[x]);
            assert(z.ids[j] == peers[x]);
            assert(z.other(j));
        }
    }
    assert forall|j: int| z.other(j) implies all.contains(
        call(z, data, far, s.commit, #[trigger] z.ids[j]),
    ) by {
        assert(z.ids.contains(z.ids[j]));
        assert(z.ids[j] != z.leader());
        cluster_state::lemma_others(z.ids, z.leader(), z.ids[j]);
        let x = peers.index_of(z.ids[j]);
        assert(all[x] == calls_for(s, z.ids[j]));
    }
}

/// The patience of a follower is ten ticks at the least.
proof fn lemma_patience(z: Standing, i: int)
    requires
        z.wf(),
        0 <= i < z.ids.len(),
    ensures
        fresh_member(z.ids, i).node.config.election_timeout >= 10,
{
    assert(z.ids.contains(z.ids[i]));
    cluster_state::lemma_rank(z.ids, z.ids[i]);
}

proof fn lemma_tick_leader(m: MemberView, z: Standing, data: Seq<u8>, k: int)
    requires
        z.wf(),
        z.with(data).wf(),
        leader_at(m, z, data, k, 0),
        0 <= k <= 5,
    ensures
        leader_at(ticked_member(m), z, data, k, 1),
{
    let far = k >= 3;
    let t = NodeView { elapsed: 1, ..m.node };
    let n = t.config.peers.len() as int;
    let all = Seq::new(n as nat, |x: int| calls_for(t, t.config.peers[x]));
    assert forall|j: int| z.other(j) implies next_for(
        t,
        #[trigger] z.ids[j],
    ) == next_for(m.node, z.ids[j]) by {}
    lemma_calls(t, n);
    lemma_calls_all(t, z, data, far);
    let s = ticked(m.node);
    assert(s == (NodeView { elapsed: 0, ..broadcast(t) }));
    assert(s.outbox == m.node.outbox + all);
    assert forall|j: int| z.other(j) implies next_for(
        s,
        #[trigger] z.ids[j],
    ) == next_for(m.node, z.ids[j]) by {}
    assert forall|x: int| 0 <= x < s.outbox.len() implies (#[trigger] s.outbox[x]).to != z.leader()
        && (z.living.contains(s.outbox[x].to) ==> (if k >= 3 {
        s.outbox[x] == heartbeat(z.with(data), s.outbox[x].to)
    } else {
        carries(z, data, s.outbox[x], s.outbox[x].to)
    })) by {
        if x < m.node.outbox.len() {
            assert(s.outbox[x] == m.node.outbox[x]);
        } else {
            let q = x - m.node.outbox.len();
            assert(s.outbox[x] == all[q]);
            assert(about(z, t.commit));
        }
    }
    assert forall|j: int| z.other(j) implies s.outbox.contains(
        call(z, data, far, t.commit, #[trigger] z.ids[j]),
    ) && (k <= 2 ==> some_carries(z, data, s.outbox, z.ids[j])) by {
        let msg = call(z, data, far, t.commit, z.ids[j]);
        let q = all.index_of(msg);
        let x = m.node.outbox.len() + q;
        assert(s.outbox[x] == msg);
        if k <= 2 {
            assert(about(z, t.commit));
            assert(carries(z, data, s.outbox[x], z.ids[j]));
        }
    }
    if far {
        assert forall|j: int| z.other(j) implies s.outbox.contains(
            heartbeat(z.with(data), #[trigger] z.ids[j]),
        ) by {
            assert(s.outbox.contains(call(z, data, far, t.commit, z.ids[j])));
        }
    }
}

/// A tick disturbs no stage.
proof fn lemma_tick_stage(c: ClusterView, z: Standing, data: Seq<u8>, k: int)
    requires
        z.wf(),
        z.with(data).wf(),
        stage(c, z, data, k, 0),
        0 <= k <= 5,
    ensures
        stage(all_ticked(c), z, data, k, 1),
{
    let d = all_ticked(c);
    assert(d.members[z.lead] == ticked_member(c.members[z.lead]));
    lemma_tick_leader(c.members[z.lead], z, data, k);
    assert forall|i: int| z.other(i) implies other_at(
        #[trigger] d.members[i],
        z,
        data,
        i,
        k,
        1,
    ) by {
        assert(other_at(c.members[i], z, data, i, k, 0));
        lemma_patience(z, i);
        assert(d.members[i] == ticked_member(c.members[i]));
    }
    assert forall|i: int| 0 <= i < z.ids.len() && !z.lives(i) implies down(
        #[trigger] d.members[i],
        z,
        i,
    ) by {
        assert(down(c.members[i], z, i));
        assert(d.members[i] == ticked_member(c.members[i]));
    }
}

/// A proposal is the first stage.
proof fn lemma_proposal_stage(c: ClusterView, z: Standing, data: Seq<u8>)
    requires
        z.wf(),
        z.with(data).wf(),
        settled(c, z),
    ensures
        stage(with_proposal(c, z.lead, data), z, data, 0, 0),
{
    let d = with_proposal(c, z.lead, data);
    let m = c.members[z.lead];
    let y = z.with(data);
    let t = NodeView { log: y.log, ..m.node };
    let n = t.config.peers.len() as int;
    let all = Seq::new(n as nat, |x: int| calls_for(t, t.config.peers[x]));
    assert(proposed_entry(m.node, data) == z.entry(data));
    assert forall|j: int| z.other(j) implies next_for(
        t,
        #[trigger] z.ids[j],
    ) == next_for(m.node, z.ids[j]) by {}
    lemma_calls(t, n);
    lemma_calls_all(t, z, data, false);
    let b = broadcast(t);
    let s = proposed(m.node, data);
    assert(s == committed_more(b));
    laws::lemma_commit_rule(b, b.log.len() as int);
    assert(b.outbox =~= all);
    assert(s.outbox == all);
    assert(about(z, t.commit));
    assert forall|j: int| z.other(j) implies next_for(
        s,
        #[trigger] z.ids[j],
    ) == next_for(m.node, z.ids[j]) by {}
    assert forall|x: int| 0 <= x < s.outbox.len() implies (#[trigger] s.outbox[x]).to != z.leader()
        && (z.living.contains(s.outbox[x].to) ==> carries(
        z,
        data,
        s.outbox[x],
        s.outbox[x].to,
    )) by {
        assert(s.outbox[x] == all[x]);
    }
    assert forall|j: int| z.other(j) implies some_carries(
        z,
        data,
        s.outbox,
        #[trigger] z.ids[j],
    ) by {
        let q = all.index_of(call(z, data, false, t.commit, z.ids[j]));
        assert(carries(z, data, s.outbox[q], z.ids[j]));
    }
    if z.ids.len() == 1 {
        cluster_state::lemma_others_count(z.ids, z.leader());
        assert(z.ids.contains(z.leader()));
        assert(b.log[y.end() - 1] == z.entry(data));
        assert(may_commit(b, y.end() as int));
    }
    assert(leader_at(d.members[z.lead], z, data, 0, 0));
    assert forall|i: int| z.other(i) implies other_at(
        #[trigger] d.members[i],
        z,
        data,
        i,
        0,
        0,
    ) by {
        assert(keeps_up(c.members[i], z, i));
        assert(d.members[i] == c.members[i]);
    }
    assert forall|i: int| 0 <= i < z.ids.len() && !z.lives(i) implies down(
        #[trigger] d.members[i],
        z,
        i,
    ) by {
        assert(down(c.members[i], z, i));
        assert(d.members[i] == c.members[i]);
    }
}

/// At the last stage all have come to the same.
proof fn lemma_last_stage(c: ClusterView, z: Standing, data: Seq<u8>)
    requires
        z.wf(),
        z.with(data).wf(),
        stage(c, z, data, 5, 0),
    ensures
        settled(c, z.with(data)),
{
    let y = z.with(data);
    assert(leads_quietly(c.members[y.lead], y));
    assert forall|i: int| y.other(i) implies keeps_up(
        #[trigger] c.members[i],
        y,
        i,
    ) by {
        assert(other_at(c.members[i], z, data, i, 5, 0));
    }
    assert forall|i: int| 0 <= i < y.ids.len() && !y.lives(i) implies down(
        #[trigger] c.members[i],
        y,
        i,
    ) by {
        assert(down(c.members[i], z, i));
    }
}

proof fn lemma_comes_to(c: ClusterView, z: Standing, data: Seq<u8>, ticks: nat, rounds: nat)
    requires
        z.wf(),
        z.with(data).wf(),
        stage(c, z, data, 0, 0),
        ticks >= 1,
        rounds >= 1,
    ensures
        come_to(
            after_ticks(c, ticks, rounds),
            z,
            data,
            if ticks >= 5 {
                5
            } else {
                ticks as int
            },
        ),
    decreases ticks,
{
    let p = after_ticks(c, (ticks - 1) as nat, rounds);
    let r = after_ticks(c, ticks, rounds);
    if ticks == 1 {
        assert(p == c);
        lemma_tick_stage(c, z, data, 0);
        lemma_rounds_stage(all_ticked(c), z, data, 0, 1, rounds);
    } else {
        lemma_comes_to(c, z, data, (ticks - 1) as nat, rounds);
        let was: int = if ticks >= 6 {
            5
        } else {
            ticks - 1
        };
        let n = choose|n: int| was <= n <= 5 && #[trigger] stage(p, z, data, n, 0);
        lemma_tick_stage(p, z, data, n);
        lemma_rounds_stage(all_ticked(p), z, data, n, 1, rounds);
        let x = choose|x: int| later(n, 1) <= x <= 5 && #[trigger] stage(r, z, data, x, 0);
        assert(stage(r, z, data, x, 0));
    }
}

// ---- the law ---------------------------------------------------------------------------

/// In a cluster that has settled, what is proposed to the leader is five ticks
/// later in the log of every living member, committed, and carried out on its
/// store, if each tick has at least one round for what was sent and nothing else
/// goes wrong; and the cluster has settled again. Less than half of the members
/// may be down.
pub proof fn lemma_replicated(c: ClusterView, z: Standing, data: Seq<u8>, ticks: nat, rounds: nat)
    requires
        z.wf(),
        z.with(data).wf(),
        settled(c, z),
        ticks >= 5,
        rounds >= 1,
    ensures
        settled(after_ticks(with_proposal(c, z.lead, data), ticks, rounds), z.with(data)),
{
    let d = with_proposal(c, z.lead, data);
    lemma_proposal_stage(c, z, data);
    lemma_comes_to(d, z, data, ticks, rounds);
    let r = after_ticks(d, ticks, rounds);
    assert(stage(r, z, data, 5, 0));
    lemma_last_stage(r, z, data);
}

/// A cluster that has settled stays settled when a follower goes down, as long as
/// more than half of the members are alive.
pub proof fn lemma_falls_out(c: ClusterView, z: Standing, i: int, inbox: Seq<MessageView>)
    requires
        z.wf(),
        settled(c, z),
        z.other(i),
        2 * (z.living.len() - 1) > z.ids.len(),
    ensures
        ({
            let y = Standing { living: z.living.remove(z.ids[i]), ..z };
            let d = ClusterView {
                members: c.members.update(
                    i,
                    MemberView { alive: false, inbox, ..c.members[i] },
                ),
                ..c
            };
            y.wf() && settled(d, y)
        }),
{
    let y = Standing { living: z.living.remove(z.ids[i]), ..z };
    let d = ClusterView {
        members: c.members.update(i, MemberView { alive: false, inbox, ..c.members[i] }),
        ..c
    };
    assert(keeps_up(c.members[i], z, i));
    assert(z.ids[i] != z.leader());
    assert forall|j: int| y.other(j) implies z.other(j) && j != i by {}
    let m = d.members[y.lead];
    assert(m == c.members[z.lead]);
    assert(leads_quietly(m, y)) by {
        assert forall|x: int| 0 <= x < m.inbox.len() implies (#[trigger] m.inbox[x]) == answer(
            y,
            m.inbox[x].from,
        ) by {
            assert(m.inbox[x] == answer(z, m.inbox[x].from));
        }
        assert forall|j: int| y.other(j) implies next_for(m.node, #[trigger] y.ids[j]) == y.end()
            + 1 by {
            assert(z.other(j));
            assert(next_for(m.node, z.ids[j]) == z.end() + 1);
        }
    }
    assert forall|j: int| y.other(j) implies keeps_up(#[trigger] d.members[j], y, j) by {
        assert(z.other(j));
        let w = d.members[j];
        assert(w == c.members[j]);
        assert(keeps_up(w, z, j));
        assert forall|x: int| 0 <= x < w.inbox.len() implies (#[trigger] w.inbox[x]) == heartbeat(
            y,
            y.ids[j],
        ) by {
            assert(w.inbox[x] == heartbeat(z, z.ids[j]));
        }
    }
    assert forall|j: int| 0 <= j < y.ids.len() && !y.lives(j) implies down(
        #[trigger] d.members[j],
        y,
        j,
    ) by {
        if j != i {
            assert(y.ids[j] != y.ids[i]);
            assert(!z.lives(j));
            assert(down(c.members[j], z, j));
        }
    }
}

/// The cluster after commands to the leader, each with its ticks.
pub open spec fn served(
    c: ClusterView,
    lead: int,
    commands: Seq<Seq<u8>>,
    ticks: nat,
    rounds: nat,
) -> ClusterView
    decreases commands.len(),
{
    if commands.len() == 0 {
        c
    } else {
        let prior = served(c, lead, commands.drop_last(), ticks, rounds);
        after_ticks(with_proposal(prior, lead, commands.last()), ticks, rounds)
    }
}

/// What all have come to after commands.
pub open spec fn with_all(z: Standing, commands: Seq<Seq<u8>>) -> Standing
    decreases commands.len(),
{
    if commands.len() == 0 {
        z
    } else {
        with_all(z, commands.drop_last()).with(commands.last())
    }
}

#[verifier::spinoff_prover]
#[verifier::rlimit(30)]
proof fn lemma_served(
    c: ClusterView,
    z: Standing,
    commands: Seq<Seq<u8>>,
    ticks: nat,
    rounds: nat,
)
    requires
        z.wf(),
        settled(c, z),
        z.log.len() + commands.len() + 1 < u64::MAX,
        z.store == written_all(Map::empty(), writes_of(z.log)),
        ticks >= 5,
        rounds >= 1,
    ensures
        ({
            let y = with_all(z, commands);
            &&& y.wf()
            &&& y.ids == z.ids
            &&& y.living == z.living
            &&& y.lead == z.lead
            &&& y.term == z.term
            &&& y.log.len() == z.log.len() + commands.len()
            &&& y.log.take(z.log.len() as int) == z.log
            &&& forall|i: int|
                0 <= i < commands.len() ==> (#[trigger] y.log[z.log.len() + i]).data == commands[i]
            &&& y.store == written_all(Map::empty(), writes_of(y.log))
            &&& settled(served(c, z.lead, commands, ticks, rounds), y)
        }),
    decreases commands.len(),
{
    if commands.len() == 0 {
        assert(z.log.take(z.log.len() as int) =~= z.log);
    } else {
        let d = commands.drop_last();
        let data = commands.last();
        lemma_served(c, z, d, ticks, rounds);
        let p = with_all(z, d);
        let y = with_all(z, commands);
        let e = p.entry(data);
        lemma_replicated(served(c, z.lead, d, ticks, rounds), p, data, ticks, rounds);
        assert(y.log.take(z.log.len() as int) =~= p.log.take(z.log.len() as int));
        assert forall|i: int| 0 <= i < commands.len() implies (
        #[trigger] y.log[z.log.len() + i]).data == commands[i] by {
            if i < d.len() {
                assert(y.log[z.log.len() + i] == p.log[z.log.len() + i]);
                assert(d[i] == commands[i]);
            }
        }
        assert(y.log.drop_last() =~= p.log);
        assert(y.log.last() == e);
        state_machine::lemma_writes_one(e);
        lemma_written_more(Map::empty(), writes_of(p.log), writes_of(seq![e]));
    }
}

/// In a cluster that has settled every living member ends up with the same log and
/// the same store, whatever commands the leader is given one after another, as
/// long as nothing else goes wrong: the log has the commands in order, and the
/// store what they write. Less than half of the members may be down.
pub proof fn lemma_commands_reach_all(
    c: ClusterView,
    z: Standing,
    commands: Seq<Seq<u8>>,
    ticks: nat,
    rounds: nat,
    i: int,
)
    requires
        z.wf(),
        settled(c, z),
        z.log.len() + commands.len() + 1 < u64::MAX,
        z.store == written_all(Map::empty(), writes_of(z.log)),
        ticks >= 5,
        rounds >= 1,
        z.lives(i),
    ensures
        ({
            let m = served(c, z.lead, commands, ticks, rounds).members[i];
            &&& m.id == z.ids[i]
            &&& m.node.log == with_all(z, commands).log
            &&& m.node.log.len() == z.log.len() + commands.len()
            &&& m.node.log.take(z.log.len() as int) == z.log
            &&& forall|k: int|
                0 <= k < commands.len() ==> (#[trigger] m.node.log[z.log.len() + k]).data
                    == commands[k]
            &&& m.node.commit == m.node.log.len()
            &&& m.store == written_all(Map::empty(), writes_of(m.node.log))
        }),
{
    lemma_served(c, z, commands, ticks, rounds);
    let d = served(c, z.lead, commands, ticks, rounds);
    let y = with_all(z, commands);
    if i != z.lead {
        assert(keeps_up(d.members[i], y, i));
    }
}

} // verus!
