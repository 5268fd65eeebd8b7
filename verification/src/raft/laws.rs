//! What holds of a node whatever happens to it.

use vstd::prelude::*;

use crate::raft::peers::{given, nodes_with, up_to};
use crate::raft::state::{
    asked, behind, broadcast, caught_up, committed_more, done_with, handled, has_majority,
    highest_commit, leading, may_commit, news_in, one_more, persisted, proposed, proposed_entry,
    received, same_for_all, sent_to, stepped, ticked, to_apply, ConfigView, NodeView, Role,
};
use crate::raft::storage::{attaches, has_entry, lacking, lemma_lacking, spliced};
use crate::raft::types::{BodyView, EntryView, MessageView};
use crate::types::{LogIndex, NodeId, Term};

verus! {

/// What a step keeps: a node stays who it is; its term and its commit index do
/// not go back; within a term it does not change its vote; what it has to send
/// stays to be sent; and what has to survive a crash is saved.
pub open spec fn keeps(s: NodeView, t: NodeView) -> bool {
    &&& t.wf()
    &&& t.id == s.id
    &&& t.config == s.config
    &&& t.term >= s.term
    &&& t.commit >= s.commit
    &&& t.applied == s.applied
    &&& t.term == s.term && s.vote is Some ==> t.vote == s.vote
    &&& s.outbox.is_prefix_of(t.outbox)
}

proof fn lemma_sent_keeps(s: NodeView, n: int)
    requires
        s.wf(),
        n <= s.config.peers.len(),
    ensures
        sent_to(s, n) == (NodeView { outbox: sent_to(s, n).outbox, ..s }),
        sent_to(s, n).wf(),
        s.outbox.is_prefix_of(sent_to(s, n).outbox),
        forall|i: int|
            s.outbox.len() <= i < sent_to(s, n).outbox.len() ==> (#[trigger] sent_to(
                s,
                n,
            ).outbox[i]).term == s.term,
    decreases n,
{
    if n > 0 {
        lemma_sent_keeps(s, n - 1);
    }
}

proof fn lemma_asked_keeps(s: NodeView, n: int)
    requires
        s.wf(),
        n <= s.config.peers.len(),
    ensures
        asked(s, n) == (NodeView { outbox: asked(s, n).outbox, ..s }),
        asked(s, n).wf(),
        s.outbox.is_prefix_of(asked(s, n).outbox),
    decreases n,
{
    if n > 0 {
        lemma_asked_keeps(s, n - 1);
    }
}

/// A leader commits up to an entry of its own term that more than half of the
/// cluster has, and otherwise nothing.
pub proof fn lemma_commit_rule(s: NodeView, n: int)
    requires
        n <= u64::MAX,
    ensures
        highest_commit(s, n) >= s.commit,
        highest_commit(s, n) > s.commit ==> may_commit(s, highest_commit(s, n) as int)
            && highest_commit(s, n) <= n,
        forall|i: int|
            s.commit < i <= n && #[trigger] may_commit(s, i) ==> highest_commit(s, n) >= i,
    decreases n,
{
    if n > s.commit && !may_commit(s, n) {
        lemma_commit_rule(s, n - 1);
    }
}

proof fn lemma_committed_keeps(s: NodeView)
    requires
        s.wf(),
        s.log.len() <= u64::MAX,
    ensures
        keeps(s, committed_more(s)),
        committed_more(s) == (NodeView {
            commit: committed_more(s).commit,
            saved: committed_more(s).saved,
            news: committed_more(s).news,
            ..s
        }),
{
    lemma_commit_rule(s, s.log.len() as int);
}

proof fn lemma_leading_keeps(s: NodeView)
    requires
        s.wf(),
        s.log.len() <= u64::MAX,
    ensures
        keeps(s, leading(s)),
        leading(s).role == Role::Leader,
        leading(s).term == s.term,
        leading(s).vote == s.vote,
        leading(s).log == s.log,
{
    let f = NodeView {
        role: Role::Leader,
        leader: Some(s.id),
        elapsed: 0,
        next: same_for_all(s.config.peers, behind(s.log)),
        matched: same_for_all(s.config.peers, 0),
        ..s
    };
    lemma_sent_keeps(f, f.config.peers.len() as int);
    lemma_committed_keeps(broadcast(f));
}

/// A tick keeps what a step keeps, and the log.
pub proof fn lemma_tick_keeps(s: NodeView)
    requires
        s.wf(),
        s.term < u64::MAX,
        s.log.len() <= u64::MAX,
    ensures
        keeps(s, ticked(s)),
        ticked(s).log == s.log,
        ticked(s).term <= s.term + 1,
{
    let t = NodeView { elapsed: (s.elapsed + 1) as u32, ..s };
    if t.elapsed >= t.patience() {
        if s.role == Role::Leader {
            let z = NodeView { elapsed: 0, ..s };
            lemma_sent_keeps(z, s.config.peers.len() as int);
            lemma_sent_apart(t, z, s.config.peers.len() as int);
        } else {
            let fresh = persisted(
                NodeView {
                    role: Role::Candidate,
                    term: (t.term + 1) as u64,
                    vote: Some(t.id),
                    votes: Map::<NodeId, bool>::empty().insert(t.id, true),
                    elapsed: 0,
                    leader: None,
                    ..t
                },
            );
            assert forall|i: int| 0 <= i < fresh.outbox.len() implies (
            #[trigger] fresh.outbox[i]).term <= fresh.term && fresh.outbox[i].from == fresh.id by {
                assert(s.outbox[i].term <= s.term);
            }
            lemma_asked_keeps(fresh, fresh.config.peers.len() as int);
            lemma_leading_keeps(asked(fresh, fresh.config.peers.len() as int));
        }
    }
}

/// What is sent does not depend on the count of ticks.
pub proof fn lemma_sent_apart(s: NodeView, t: NodeView, n: int)
    requires
        t == (NodeView { elapsed: t.elapsed, ..s }),
    ensures
        sent_to(t, n) == (NodeView { elapsed: t.elapsed, ..sent_to(s, n) }),
    decreases n,
{
    if n > 0 {
        lemma_sent_apart(s, t, n - 1);
    }
}

/// A proposal keeps what a step keeps, and adds one entry to the log.
pub proof fn lemma_propose_keeps(s: NodeView, data: Seq<u8>)
    requires
        s.wf(),
        s.log.len() < u64::MAX,
    ensures
        keeps(s, proposed(s, data)),
        proposed(s, data).log == s.log.push(proposed_entry(s, data)),
        proposed(s, data).term == s.term,
{
    let t = NodeView { log: s.log.push(proposed_entry(s, data)), ..s };
    lemma_sent_keeps(t, t.config.peers.len() as int);
    lemma_committed_keeps(broadcast(t));
}

proof fn lemma_caught_up(s: NodeView, msg: MessageView)
    requires
        s.wf(),
        msg.term >= s.term,
    ensures
        keeps(s, caught_up(s, msg)),
        caught_up(s, msg).term == msg.term,
        caught_up(s, msg).log == s.log,
        msg.term > s.term ==> caught_up(s, msg).role == Role::Follower,
{
    let t = caught_up(s, msg);
    assert forall|i: int| 0 <= i < t.outbox.len() implies (#[trigger] t.outbox[i]).term <= t.term
        && t.outbox[i].from == t.id by {
        assert(s.outbox[i].term <= s.term);
    }
}

proof fn lemma_handled_keeps(s: NodeView, msg: MessageView)
    requires
        s.wf(),
        msg.term == s.term,
        s.log.len() <= u64::MAX,
    ensures
        keeps(s, handled(s, msg)),
        handled(s, msg).term == s.term,
        s.role == Role::Follower ==> handled(s, msg).role == Role::Follower,
        !(msg.body is AppendEntries) ==> handled(s, msg).log == s.log,
{
    match msg.body {
        BodyView::AppendResponse { success, match_index } => {
            if s.role == Role::Leader && success {
                let t = NodeView {
                    matched: s.matched.insert(msg.from, match_index),
                    next: s.next.insert(msg.from, one_more(match_index)),
                    ..s
                };
                lemma_committed_keeps(t);
            }
        },
        BodyView::VoteResponse { granted } => {
            if s.role == Role::Candidate {
                lemma_leading_keeps(NodeView { votes: s.votes.insert(msg.from, granted), ..s });
            }
        },
        _ => {},
    }
}

/// A message keeps what a step keeps. The term is then the higher of the two,
/// and only a message with entries changes the log.
pub proof fn lemma_step_keeps(s: NodeView, msg: MessageView)
    requires
        s.wf(),
        s.log.len() <= u64::MAX,
    ensures
        keeps(s, stepped(s, msg)),
        stepped(s, msg).term == (if msg.term > s.term {
            msg.term
        } else {
            s.term
        }),
        !(msg.body is AppendEntries) ==> stepped(s, msg).log == s.log,
{
    if msg.term >= s.term {
        lemma_caught_up(s, msg);
        lemma_handled_keeps(caught_up(s, msg), msg);
    }
}

/// A message of an older term changes nothing.
pub proof fn lemma_stale_dropped(s: NodeView, msg: MessageView)
    requires
        msg.term < s.term,
    ensures
        stepped(s, msg) == s,
{
}

/// A message of a higher term makes any node a follower in that term; if it
/// comes with entries, of the node that sent it.
pub proof fn lemma_higher_term(s: NodeView, msg: MessageView)
    requires
        s.wf(),
        s.log.len() <= u64::MAX,
        msg.term > s.term,
    ensures
        stepped(s, msg).role == Role::Follower,
        stepped(s, msg).term == msg.term,
        msg.body is AppendEntries ==> stepped(s, msg).leader == Some(msg.from),
{
    lemma_caught_up(s, msg);
    lemma_handled_keeps(caught_up(s, msg), msg);
}

/// A candidate that leads has the votes of more than half of the cluster.
pub proof fn lemma_leads_by_majority(s: NodeView, msg: MessageView)
    requires
        s.wf(),
        s.log.len() <= u64::MAX,
        s.role != Role::Leader,
        stepped(s, msg).role == Role::Leader,
    ensures
        msg.body matches BodyView::VoteResponse { granted } && nodes_with(
            s.votes.insert(msg.from, granted),
            given(),
        ).len() >= s.config.majority(),
{
    lemma_caught_up(s, msg);
    lemma_handled_keeps(caught_up(s, msg), msg);
}

/// In a cluster of more than one node a leader commits nothing that no other
/// node said it has: cut off from the others it cannot commit.
pub proof fn lemma_not_alone(s: NodeView, n: int)
    requires
        may_commit(s, n),
        s.config.peers.len() > 0,
        n <= u64::MAX,
    ensures
        exists|id: NodeId|
            id != s.id && #[trigger] s.matched.contains_key(id) && s.matched[id] >= n,
{
    let group = nodes_with(s.matched, up_to(s.id, n as u64));
    assert(group.len() > 0);
    if group.finite() {
        let id = group.choose();
        assert(group.contains(id));
        assert(s.matched.contains_key(id));
    } else {
        let id = choose|id: NodeId| group.contains(id);
        if forall|x: NodeId| !group.contains(x) {
            assert(group =~= Set::empty());
        }
        assert(group.contains(id));
        assert(s.matched.contains_key(id));
    }
}

/// Two groups that are each more than half of a cluster share a node.
pub proof fn lemma_majorities_meet(
    cluster: Set<NodeId>,
    a: Set<NodeId>,
    b: Set<NodeId>,
    config: ConfigView,
)
    requires
        cluster.finite(),
        cluster.len() == config.peers.len() + 1,
        a.subset_of(cluster),
        b.subset_of(cluster),
        a.len() >= config.majority(),
        b.len() >= config.majority(),
    ensures
        exists|id: NodeId| a.contains(id) && b.contains(id),
{
    vstd::set_lib::lemma_len_subset(a, cluster);
    vstd::set_lib::lemma_len_subset(b, cluster);
    if forall|id: NodeId| !(a.contains(id) && b.contains(id)) {
        assert(a.disjoint(b));
        vstd::set_lib::lemma_set_disjoint_lens(a, b);
        assert((a + b).subset_of(cluster));
        vstd::set_lib::lemma_len_subset(a + b, cluster);
    }
}

/// A node that takes up from what another has saved.
pub open spec fn restarted(s: NodeView) -> NodeView {
    NodeView {
        id: s.id,
        role: Role::Follower,
        term: s.saved.term,
        vote: s.saved.vote,
        commit: s.saved.commit,
        applied: s.saved.commit,
        leader: None,
        next: Map::empty(),
        matched: Map::empty(),
        votes: Map::empty(),
        elapsed: 0,
        log: s.log,
        saved: s.saved,
        outbox: seq![],
        news: None,
        config: s.config,
    }
}

/// A restart loses neither the term, nor the vote, nor the commit index, nor
/// the log, and ends every lead.
pub proof fn lemma_restart(s: NodeView)
    requires
        s.wf(),
    ensures
        restarted(s).wf(),
        restarted(s).term == s.term,
        restarted(s).vote == s.vote,
        restarted(s).commit == s.commit,
        restarted(s).log == s.log,
        restarted(s).role == Role::Follower,
{
}

// ---- the log -------------------------------------------------------------------------

/// Every entry says where it stands.
pub open spec fn indexed(log: Seq<EntryView>) -> bool {
    forall|i: int| 0 <= i < log.len() ==> (#[trigger] log[i]).index == i + 1
}

/// The entries follow one another.
pub open spec fn consecutive(es: Seq<EntryView>) -> bool {
    forall|i: int| 0 <= i < es.len() ==> (#[trigger] es[i]).index == es[0].index + i
}

/// Entries that follow one another keep every entry where it says.
pub proof fn lemma_spliced_indexed(log: Seq<EntryView>, es: Seq<EntryView>)
    requires
        indexed(log),
        consecutive(es),
        attaches(log, es),
    ensures
        indexed(spliced(log, es)),
        es.len() > 0 ==> spliced(log, es).len() == es[0].index - 1 + es.len(),
{
    let n = spliced(log, es);
    if es.len() > 0 {
        let k = es[0].index - 1;
        assert forall|i: int| 0 <= i < n.len() implies (#[trigger] n[i]).index == i + 1 by {
            if i < k {
                assert(n[i] == log[i]);
            } else {
                assert(n[i] == es[i - k]);
            }
        }
    }
}

/// What is lacking of entries that follow one another follows one another.
pub proof fn lemma_lacking_consecutive(log: Seq<EntryView>, es: Seq<EntryView>)
    requires
        consecutive(es),
    ensures
        consecutive(lacking(log, es)),
{
    let k = lemma_lacking(log, es);
    let r = es.skip(k);
    assert forall|i: int| 0 <= i < r.len() implies (#[trigger] r[i]).index == r[0].index + i by {
        assert(r[i] == es[k + i]);
        assert(r[0] == es[k]);
    }
}

/// A follower that accepts entries has each of them, of the leader's term, where
/// the leader has it, behind the entry that the leader named. If it had them
/// all, its log stays as it is; else nothing follows them. It answers with the
/// place of the last one.
pub proof fn lemma_accepted(
    s: NodeView,
    leader: NodeId,
    prev_log_index: LogIndex,
    prev_log_term: Term,
    es: Seq<EntryView>,
    leader_commit: LogIndex,
)
    requires
        es.len() > 0,
        es[0].index == prev_log_index + 1,
        consecutive(es),
        s.log.len() <= u64::MAX,
        received(s, leader, prev_log_index, prev_log_term, es, leader_commit).outbox.len() > 0,
        received(
            s,
            leader,
            prev_log_index,
            prev_log_term,
            es,
            leader_commit,
        ).outbox.last().body matches BodyView::AppendResponse { success, .. } && success,
        received(s, leader, prev_log_index, prev_log_term, es, leader_commit).outbox.len()
            > s.outbox.len(),
    ensures
        ({
            let t = received(s, leader, prev_log_index, prev_log_term, es, leader_commit);
            let log = t.log;
            &&& log == s.log || log.len() == prev_log_index + es.len()
            &&& forall|i: int| 0 <= i < es.len() ==> has_entry(log, #[trigger] es[i])
            &&& log.take(prev_log_index as int) == s.log.take(prev_log_index as int)
            &&& prev_log_index > 0 ==> log[prev_log_index - 1].term == prev_log_term
            &&& prev_log_index + es.len() <= u64::MAX ==> t.outbox.last().body == (
            BodyView::AppendResponse {
                success: true,
                match_index: (prev_log_index + es.len()) as u64,
            })
        }),
{
    let log = received(s, leader, prev_log_index, prev_log_term, es, leader_commit).log;
    let k = lemma_lacking(s.log, es);
    assert(log == spliced(s.log, es.skip(k)));
    if k < es.len() {
        assert(es.skip(k)[0] == es[k]);
        assert(log == s.log.take(prev_log_index + k) + es.skip(k));
    } else {
        assert(has_entry(s.log, es[k - 1]));
    }
    assert forall|i: int| 0 <= i < es.len() implies has_entry(log, #[trigger] es[i]) by {
        if i < k {
            assert(has_entry(s.log, es[i]));
        } else {
            assert(log[prev_log_index + i] == es[i]);
        }
    }
    assert(log.take(prev_log_index as int) =~= s.log.take(prev_log_index as int));
}

/// What is applied is committed, what is committed is in the log, and every
/// entry says where it stands.
pub open spec fn sound(s: NodeView) -> bool {
    s.applied <= s.commit <= s.log.len() && indexed(s.log) && s.log.len() <= u64::MAX
}

/// Each committed entry is handed out once, in order: what is ready are the
/// entries from behind the last applied one up to the commit index, and once
/// they are applied nothing is left.
pub proof fn lemma_applied_once(s: NodeView)
    requires
        sound(s),
        s.commit < u64::MAX,
    ensures
        to_apply(s).len() == s.commit - s.applied,
        forall|i: int|
            0 <= i < to_apply(s).len() ==> (#[trigger] to_apply(s)[i]).index == s.applied + 1 + i,
        done_with(s, to_apply(s)).applied == s.commit,
        to_apply(done_with(s, to_apply(s))) == Seq::<EntryView>::empty(),
        sound(done_with(s, to_apply(s))),
{
}

/// A tick keeps a node sound.
pub proof fn lemma_tick_sound(s: NodeView)
    requires
        s.wf(),
        sound(s),
        s.term < u64::MAX,
    ensures
        sound(ticked(s)),
{
    lemma_tick_keeps(s);
    let t = NodeView { elapsed: (s.elapsed + 1) as u32, ..s };
    if t.elapsed >= t.patience() {
        if s.role == Role::Leader {
            let z = NodeView { elapsed: 0, ..s };
            lemma_sent_keeps(z, s.config.peers.len() as int);
            lemma_sent_apart(t, z, s.config.peers.len() as int);
        } else {
            let fresh = persisted(
                NodeView {
                    role: Role::Candidate,
                    term: (t.term + 1) as u64,
                    vote: Some(t.id),
                    votes: Map::<NodeId, bool>::empty().insert(t.id, true),
                    elapsed: 0,
                    leader: None,
                    ..t
                },
            );
            assert forall|i: int| 0 <= i < fresh.outbox.len() implies (
            #[trigger] fresh.outbox[i]).term <= fresh.term && fresh.outbox[i].from == fresh.id by {
                assert(s.outbox[i].term <= s.term);
            }
            lemma_asked_keeps(fresh, fresh.config.peers.len() as int);
            lemma_leading_sound(asked(fresh, fresh.config.peers.len() as int));
        }
    }
}

proof fn lemma_leading_sound(s: NodeView)
    requires
        s.wf(),
        sound(s),
    ensures
        sound(leading(s)),
{
    lemma_leading_keeps(s);
    let f = NodeView {
        role: Role::Leader,
        leader: Some(s.id),
        elapsed: 0,
        next: same_for_all(s.config.peers, behind(s.log)),
        matched: same_for_all(s.config.peers, 0),
        ..s
    };
    lemma_sent_keeps(f, f.config.peers.len() as int);
    lemma_commit_rule(broadcast(f), f.log.len() as int);
}

/// A proposal keeps a leader sound.
pub proof fn lemma_propose_sound(s: NodeView, data: Seq<u8>)
    requires
        s.wf(),
        sound(s),
        s.log.len() < u64::MAX,
    ensures
        sound(proposed(s, data)),
{
    lemma_propose_keeps(s, data);
    let t = NodeView { log: s.log.push(proposed_entry(s, data)), ..s };
    lemma_sent_keeps(t, t.config.peers.len() as int);
    lemma_commit_rule(broadcast(t), t.log.len() as int);
}

/// The entries of a message follow one another, and do not cut the log down
/// below what is committed.
pub open spec fn safe_entries(s: NodeView, msg: MessageView) -> bool {
    msg.body matches BodyView::AppendEntries { entries, .. } ==> consecutive(entries) && (attaches(
        s.log,
        news_in(s.log, msg),
    ) ==> s.commit <= spliced(s.log, news_in(s.log, msg)).len() <= u64::MAX)
}

/// A message keeps a node sound, if its entries are in order and leave alone
/// how far the log is committed.
pub proof fn lemma_step_sound(s: NodeView, msg: MessageView)
    requires
        s.wf(),
        sound(s),
        safe_entries(s, msg),
    ensures
        sound(stepped(s, msg)),
{
    if msg.term >= s.term {
        lemma_caught_up(s, msg);
        let c = caught_up(s, msg);
        lemma_handled_keeps(c, msg);
        match msg.body {
            BodyView::AppendEntries { entries, .. } => {
                let rest = lacking(c.log, entries);
                lemma_lacking_consecutive(c.log, entries);
                if attaches(c.log, rest) {
                    lemma_spliced_indexed(c.log, rest);
                }
            },
            BodyView::AppendResponse { success, match_index } => {
                if c.role == Role::Leader && success {
                    let t = NodeView {
                        matched: c.matched.insert(msg.from, match_index),
                        next: c.next.insert(msg.from, one_more(match_index)),
                        ..c
                    };
                    lemma_commit_rule(t, t.log.len() as int);
                }
            },
            BodyView::VoteResponse { granted } => {
                if c.role == Role::Candidate {
                    let v = NodeView { votes: c.votes.insert(msg.from, granted), ..c };
                    if has_majority(v) {
                        lemma_leading_sound(v);
                    }
                }
            },
            _ => {},
        }
    }
}

} // verus!
