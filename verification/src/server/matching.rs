//! In a cluster, logs match: two logs that have an entry of one term at one
//! place are the same up to that place.
//!
//! What is followed are stretches of logs: the logs themselves, and what the
//! messages of leaders carry. An entry of a term is made by the one leader of
//! that term, who puts it behind all others of that term.

use vstd::prelude::*;

use crate::raft::peers::{given, nodes_with};
use crate::raft::state::{
    append_body, asked, behind, broadcast, caught_up, consistent, has_majority, heard_leader,
    leading, next_for, one_less, persisted, proposed, proposed_entry, same_for_all, sent_to,
    stepped, ticked, NodeView, Role,
};
use crate::raft::storage::{attaches, has_entry, lacking, lemma_lacking};
use crate::raft::types::{BodyView, EntryView, MessageView};
use crate::server::cluster_state::{
    self, after_round, all_delivered, all_sent, all_settled, all_ticked, all_worked, fresh_cluster,
    fresh_member, others, sends, stepped_all, ticked_member, worked, ClusterView, MemberView,
};
use crate::server::election::{
    self, fair, given_by, ids_apart, logs_fit, member_ok, moves, partly_ticked, partly_worked,
    shown, shown_at, stands_by, tallied, votes_agree,
};
use crate::types::{NodeId, Term};

verus! {

// ---- stretches -------------------------------------------------------------------------

/// A stretch of a log: the entries behind the place `base`, and the term of the
/// entry at that place.
#[verifier::ext_equal]
pub struct Stretch {
    pub base: int,
    pub term: Term,
    pub entries: Seq<EntryView>,
}

impl Stretch {
    pub open spec fn has(self, i: int) -> bool {
        self.base < i <= self.base + self.entries.len()
    }

    pub open spec fn at(self, i: int) -> EntryView {
        self.entries[i - self.base - 1]
    }

    /// The term of the entry at a place, or at the base.
    pub open spec fn term_at(self, i: int) -> Term {
        if i <= self.base {
            self.term
        } else {
            self.at(i).term
        }
    }

    /// Each entry has the number of its place, and nothing stands at place zero.
    pub open spec fn formed(self) -> bool {
        &&& self.base >= 0
        &&& self.base == 0 ==> self.term == 0
        &&& forall|i: int| self.has(i) ==> (#[trigger] self.at(i)).index == i
    }
}

/// A log from its first entry on.
pub open spec fn whole(log: Seq<EntryView>) -> Stretch {
    Stretch { base: 0, term: 0, entries: log }
}

/// What a message of a leader carries.
pub open spec fn stretch_of(msg: MessageView) -> Stretch {
    match msg.body {
        BodyView::AppendEntries { prev_log_index, prev_log_term, entries, .. } => Stretch {
            base: prev_log_index as int,
            term: prev_log_term,
            entries,
        },
        _ => Stretch { base: 0, term: 0, entries: seq![] },
    }
}

/// The stretch is taken out of the log.
pub open spec fn cut_of(f: Stretch, log: Seq<EntryView>) -> bool {
    ||| f.entries.len() == 0 && f.base >= 0 && (f.base == 0 ==> f.term == 0)
    ||| {
        &&& 0 <= f.base
        &&& f.base + f.entries.len() <= log.len()
        &&& f.entries == log.subrange(f.base, f.base + f.entries.len())
        &&& f.term == (if f.base == 0 {
            0
        } else {
            log[f.base - 1].term
        })
    }
}

/// The later of the two bases.
pub open spec fn top(f: Stretch, g: Stretch) -> int {
    if f.base >= g.base {
        f.base
    } else {
        g.base
    }
}

/// Both have the same from the later base up to place `i`.
pub open spec fn same_up_to(f: Stretch, g: Stretch, i: int) -> bool {
    &&& f.term_at(top(f, g)) == g.term_at(top(f, g))
    &&& forall|j: int| top(f, g) < j <= i ==> #[trigger] f.at(j) == g.at(j)
}

/// Wherever both have an entry of one term, they are the same up to there.
pub open spec fn agree(f: Stretch, g: Stretch) -> bool {
    forall|i: int|
        f.has(i) && g.has(i) && (#[trigger] f.at(i)).term == g.at(i).term ==> same_up_to(f, g, i)
}

proof fn lemma_agree_back(f: Stretch, g: Stretch)
    requires
        agree(f, g),
    ensures
        agree(g, f),
{
    assert forall|i: int|
        g.has(i) && f.has(i) && (#[trigger] g.at(i)).term == f.at(i).term implies same_up_to(
        g,
        f,
        i,
    ) by {
        assert(f.at(i).term == g.at(i).term);
        assert forall|j: int| top(g, f) < j <= i implies #[trigger] g.at(j) == f.at(j) by {
            assert(f.at(j) == g.at(j));
        }
    }
}

/// What is taken out of a log agrees with whatever the log agrees with.
proof fn lemma_cut_agrees(log: Seq<EntryView>, f: Stretch, g: Stretch)
    requires
        cut_of(f, log),
        agree(whole(log), g),
        g.formed(),
    ensures
        agree(f, g),
{
    let w = whole(log);
    assert forall|i: int|
        f.has(i) && g.has(i) && (#[trigger] f.at(i)).term == g.at(i).term implies same_up_to(
        f,
        g,
        i,
    ) by {
        assert(f.at(i) == w.at(i));
        assert(same_up_to(w, g, i));
        let p = top(f, g);
        assert forall|j: int| p < j <= i implies #[trigger] f.at(j) == g.at(j) by {
            assert(f.at(j) == w.at(j));
            assert(w.at(j) == g.at(j));
        }
        if f.base > g.base {
            assert(w.at(p) == g.at(p));
        } else if f.base < g.base {
            assert(f.at(p) == w.at(p));
        }
    }
}

/// A log that took a stretch on where it fits agrees with whatever both agree
/// with.
proof fn lemma_spliced_agrees(log: Seq<EntryView>, f: Stretch, g: Stretch)
    requires
        agree(whole(log), f),
        agree(whole(log), g),
        agree(f, g),
        f.formed(),
        g.formed(),
        f.base <= log.len(),
        f.base > 0 ==> log[f.base - 1].term == f.term,
    ensures
        agree(whole(log.take(f.base) + f.entries), g),
{
    let w = whole(log);
    let n = whole(log.take(f.base) + f.entries);
    assert forall|j: int| 0 < j <= f.base implies #[trigger] n.at(j) == w.at(j) by {}
    assert forall|j: int| f.has(j) implies #[trigger] n.at(j) == f.at(j) by {}
    assert forall|i: int|
        n.has(i) && g.has(i) && (#[trigger] n.at(i)).term == g.at(i).term implies same_up_to(
        n,
        g,
        i,
    ) by {
        let p = g.base;
        if i <= f.base {
            assert(n.at(i) == w.at(i));
            assert(same_up_to(w, g, i));
            assert forall|j: int| p < j <= i implies #[trigger] n.at(j) == g.at(j) by {
                assert(w.at(j) == g.at(j));
            }
            if p > 0 {
                assert(n.at(p) == w.at(p));
            }
        } else {
            assert(n.at(i) == f.at(i));
            assert(same_up_to(f, g, i));
            if g.base >= f.base {
                assert forall|j: int| p < j <= i implies #[trigger] n.at(j) == g.at(j) by {
                    assert(f.at(j) == g.at(j));
                }
                if p > f.base {
                    assert(n.at(p) == f.at(p));
                } else if p > 0 {
                    assert(n.at(p) == w.at(p));
                }
            } else {
                let b = f.base;
                assert(w.has(b) && g.has(b));
                assert(w.at(b).term == g.at(b).term);
                assert(same_up_to(w, g, b));
                assert forall|j: int| p < j <= i implies #[trigger] n.at(j) == g.at(j) by {
                    if j <= b {
                        assert(w.at(j) == g.at(j));
                    } else {
                        assert(f.at(j) == g.at(j));
                    }
                }
                if p > 0 {
                    assert(n.at(p) == w.at(p));
                }
            }
        }
    }
}

// ---- a cluster and the mail on its way ---------------------------------------------------

/// The message lies at this member.
pub open spec fn mail_at(m: MemberView, msg: MessageView) -> bool {
    m.inbox.contains(msg) || m.node.outbox.contains(msg)
}

/// The message lies at some member, or is on its way.
pub open spec fn mailed(
    ms: Seq<MemberView>,
    flight: Seq<MessageView>,
    msg: MessageView,
) -> bool {
    ||| exists|i: int| 0 <= i < ms.len() && mail_at(#[trigger] ms[i], msg)
    ||| flight.contains(msg)
}

/// The stretch is the log of this member.
pub open spec fn kept_at(m: MemberView, f: Stretch) -> bool {
    f == whole(m.node.log)
}

/// The message is of a leader and carries the stretch.
pub open spec fn brings(msg: MessageView, f: Stretch) -> bool {
    msg.body is AppendEntries && f == stretch_of(msg)
}

/// The stretch is the log of some member, or some message carries it.
pub open spec fn present(ms: Seq<MemberView>, flight: Seq<MessageView>, f: Stretch) -> bool {
    ||| exists|i: int| 0 <= i < ms.len() && kept_at(#[trigger] ms[i], f)
    ||| exists|msg: MessageView| #[trigger] mailed(ms, flight, msg) && brings(msg, f)
}

/// The vote of this node in this term went to `leader`, if it went to anybody
/// whom it can still help.
pub open spec fn closed_to(
    ms: Seq<MemberView>,
    flight: Seq<MessageView>,
    v: NodeId,
    term: Term,
    leader: NodeId,
) -> bool {
    &&& given_by(ms, v, term, leader)
    &&& forall|c: NodeId| #[trigger] shown(ms, flight, v, term, c) ==> c == leader
}

/// These nodes are more than half of the cluster, and nobody but `leader` can
/// have their votes in this term.
pub open spec fn won_by(
    ms: Seq<MemberView>,
    flight: Seq<MessageView>,
    q: Set<NodeId>,
    term: Term,
    leader: NodeId,
) -> bool {
    &&& q.finite()
    &&& 2 * q.len() > ms.len()
    &&& forall|v: NodeId| q.contains(v) ==> #[trigger] closed_to(ms, flight, v, term, leader)
}

/// Nobody but `leader` can lead in this term.
pub open spec fn won(
    ms: Seq<MemberView>,
    flight: Seq<MessageView>,
    term: Term,
    leader: NodeId,
) -> bool {
    exists|q: Set<NodeId>| #[trigger] won_by(ms, flight, q, term, leader)
}

/// The member has left the term behind, or leads in it and has an entry at `i`.
pub open spec fn backs(m: MemberView, term: Term, i: int) -> bool {
    m.node.term > term || (m.node.term == term && m.node.role == Role::Leader && i
        <= m.node.log.len())
}

/// An entry of this term at place `i` was made by the one leader of the term.
pub open spec fn backed(
    ms: Seq<MemberView>,
    flight: Seq<MessageView>,
    term: Term,
    i: int,
) -> bool {
    exists|k: int|
        0 <= k < ms.len() && backs(#[trigger] ms[k], term, i) && won(ms, flight, term, ms[k].id)
}

/// The message comes from the one leader of its term.
pub open spec fn sent_right(
    ms: Seq<MemberView>,
    flight: Seq<MessageView>,
    msg: MessageView,
) -> bool {
    &&& exists|k: int|
        0 <= k < ms.len() && (#[trigger] ms[k]).id == msg.from && backs(ms[k], msg.term, 0)
    &&& won(ms, flight, msg.term, msg.from)
}

/// The logs of the members and what the messages carry agree; each entry was
/// made by the one leader of its term, and each message with entries was sent
/// by one.
pub open spec fn tied(ms: Seq<MemberView>, flight: Seq<MessageView>) -> bool {
    &&& forall|f: Stretch| #[trigger] present(ms, flight, f) ==> f.formed()
    &&& forall|f: Stretch, g: Stretch| #[trigger]
        present(ms, flight, f) && #[trigger] present(ms, flight, g) ==> agree(f, g)
    &&& forall|f: Stretch, i: int| #[trigger]
        present(ms, flight, f) && f.has(i) ==> backed(ms, flight, (#[trigger] f.at(i)).term, i)
    &&& forall|msg: MessageView| #[trigger]
        mailed(ms, flight, msg) && msg.body is AppendEntries ==> sent_right(ms, flight, msg)
    &&& forall|msg: MessageView| #[trigger]
        mailed(ms, flight, msg) && about_entries(msg) ==> msg.to != msg.from
    &&& forall|i: int|
        0 <= i < ms.len() ==> !(#[trigger] ms[i]).node.config.peers.contains(ms[i].id)
}

// ---- who leads ---------------------------------------------------------------------------

/// The members by number.
pub open spec fn ids_of(ms: Seq<MemberView>) -> Set<NodeId> {
    Seq::new(ms.len(), |k: int| ms[k].id).to_set()
}

pub proof fn lemma_ids(ms: Seq<MemberView>)
    requires
        ids_apart(ms),
    ensures
        ids_of(ms).finite(),
        ids_of(ms).len() == ms.len(),
        forall|k: int| 0 <= k < ms.len() ==> ids_of(ms).contains((#[trigger] ms[k]).id),
{
    let ids = Seq::new(ms.len(), |k: int| ms[k].id);
    assert(ids.no_duplicates()) by {
        assert forall|a: int, b: int| 0 <= a < b < ids.len() implies ids[a] != ids[b] by {
            assert(ms[a].id != ms[b].id);
        }
    }
    ids.unique_seq_to_set();
    assert forall|k: int| 0 <= k < ms.len() implies ids_of(ms).contains((#[trigger] ms[k]).id) by {
        assert(ids[k] == ms[k].id);
    }
}

/// The votes that a leader shows, all of the cluster and more than half of it.
proof fn lemma_leader_votes(ms: Seq<MemberView>, flight: Seq<MessageView>, i: int) -> (q: Set<
    NodeId,
>)
    requires
        votes_agree(ms, flight),
        0 <= i < ms.len(),
        ms[i].node.role == Role::Leader,
    ensures
        q.finite(),
        q.subset_of(ids_of(ms)),
        2 * q.len() > ms.len(),
        forall|v: NodeId| #[trigger]
            q.contains(v) ==> shown(ms, flight, v, ms[i].node.term, ms[i].id),
{
    let m = ms[i];
    let q = nodes_with(m.node.votes, given());
    let t = m.node.term;
    assert(member_ok(m, ms.len() as int));
    lemma_ids(ms);
    assert forall|v: NodeId| #[trigger] q.contains(v) implies shown(ms, flight, v, t, m.id)
        && ids_of(ms).contains(v) by {
        assert(tallied(m.node, v, t));
        assert(shown_at(ms[i], v, t, m.id));
        assert(shown(ms, flight, v, t, m.id));
        assert(given_by(ms, v, t, m.id));
        let k = choose|k: int|
            0 <= k < ms.len() && (#[trigger] ms[k]).id == v && stands_by(ms[k].node, t, m.id);
        assert(ids_of(ms).contains(ms[k].id));
    }
    assert(q.subset_of(ids_of(ms)));
    vstd::set_lib::lemma_len_subset(q, ids_of(ms));
    q
}

/// A leader has won its term.
proof fn lemma_leader_won(ms: Seq<MemberView>, flight: Seq<MessageView>, i: int)
    requires
        votes_agree(ms, flight),
        0 <= i < ms.len(),
        ms[i].node.role == Role::Leader,
    ensures
        won(ms, flight, ms[i].node.term, ms[i].id),
{
    let t = ms[i].node.term;
    let l = ms[i].id;
    let q = lemma_leader_votes(ms, flight, i);
    assert forall|v: NodeId| q.contains(v) implies #[trigger] closed_to(ms, flight, v, t, l) by {
        assert(shown(ms, flight, v, t, l));
    }
    assert(won_by(ms, flight, q, t, l));
}

/// The leader of a term is the one who has won it.
proof fn lemma_leader_is(ms: Seq<MemberView>, flight: Seq<MessageView>, i: int, leader: NodeId)
    requires
        votes_agree(ms, flight),
        0 <= i < ms.len(),
        ms[i].node.role == Role::Leader,
        won(ms, flight, ms[i].node.term, leader),
    ensures
        ms[i].id == leader,
{
    let t = ms[i].node.term;
    let a = lemma_leader_votes(ms, flight, i);
    let b = choose|q: Set<NodeId>| #[trigger] won_by(ms, flight, q, t, leader);
    let all = ids_of(ms);
    lemma_ids(ms);
    assert forall|v: NodeId| b.contains(v) implies all.contains(v) by {
        assert(closed_to(ms, flight, v, t, leader));
        let k = choose|k: int|
            0 <= k < ms.len() && (#[trigger] ms[k]).id == v && stands_by(ms[k].node, t, leader);
        assert(all.contains(ms[k].id));
    }
    if forall|v: NodeId| !(a.contains(v) && b.contains(v)) {
        assert(a.disjoint(b));
        vstd::set_lib::lemma_set_disjoint_lens(a, b);
        assert((a + b).subset_of(all));
        vstd::set_lib::lemma_len_subset(a + b, all);
    }
    let v = choose|v: NodeId| a.contains(v) && b.contains(v);
    assert(closed_to(ms, flight, v, t, leader));
    assert(shown(ms, flight, v, t, ms[i].id));
}

// ---- one member at a time ------------------------------------------------------------------

/// The message has to do with the entries of a leader.
pub open spec fn about_entries(msg: MessageView) -> bool {
    msg.body is AppendEntries || msg.body is AppendResponse
}

/// The node may send the message: entries only as a leader and out of its own
/// log, and nothing about them to itself.
pub open spec fn proper(t: NodeView, msg: MessageView) -> bool {
    &&& msg.body is AppendEntries ==> t.role == Role::Leader && msg.term == t.term && cut_of(
        stretch_of(msg),
        t.log,
    )
    &&& about_entries(msg) ==> msg.from == t.id && msg.to != t.id
}

/// What a node does: it sends what it may, and as a leader it leads on, without
/// losing an entry, until it leaves its term.
pub open spec fn orderly(s: NodeView, t: NodeView) -> bool {
    &&& s.outbox.is_prefix_of(t.outbox)
    &&& forall|k: int|
        s.outbox.len() <= k < t.outbox.len() ==> proper(t, #[trigger] t.outbox[k])
    &&& s.role == Role::Leader && t.term == s.term ==> t.role == Role::Leader && t.log.len()
        >= s.log.len()
    &&& t.config == s.config
    &&& t.id == s.id
    &&& t.term >= s.term
}

/// The log has one more entry, which its leader made.
pub open spec fn grew(s: NodeView, t: NodeView) -> bool {
    &&& s.role == Role::Leader
    &&& t.role == Role::Leader
    &&& t.term == s.term
    &&& t.log.len() == s.log.len() + 1
    &&& t.log.drop_last() == s.log
    &&& t.log.last().term == s.term
    &&& t.log.last().index == t.log.len()
}

/// The log took on what the message carries.
pub open spec fn took(s: NodeView, t: NodeView, msg: MessageView) -> bool {
    let f = stretch_of(msg);
    &&& msg.body is AppendEntries
    &&& f.base <= s.log.len()
    &&& f.base > 0 ==> s.log[f.base - 1].term == f.term
    &&& exists|k: int| #[trigger] took_from(s.log, t.log, f, k)
}

/// The log has the first `k` entries of the stretch, and took on the others.
pub open spec fn took_from(a: Seq<EntryView>, b: Seq<EntryView>, f: Stretch, k: int) -> bool {
    &&& 0 <= k <= f.entries.len()
    &&& f.base + k <= a.len()
    &&& forall|i: int|
        f.base < i <= f.base + k ==> (#[trigger] whole(a).at(i)).term == f.at(i).term
    &&& b == a.take(f.base + k) + f.entries.skip(k)
}

/// From `m` to `n` a member does what it may.
pub open spec fn goes(m: MemberView, n: MemberView) -> bool {
    &&& forall|msg: MessageView| #[trigger] n.inbox.contains(msg) ==> m.inbox.contains(msg)
    &&& orderly(m.node, n.node)
    &&& n.node.log == m.node.log || grew(m.node, n.node) || exists|msg: MessageView|
        m.inbox.contains(msg) && #[trigger] took(m.node, n.node, msg)
}

/// Who has won a term has won it for good.
proof fn lemma_won_on(
    ms: Seq<MemberView>,
    flight: Seq<MessageView>,
    i: int,
    n: MemberView,
    term: Term,
    leader: NodeId,
)
    requires
        votes_agree(ms, flight),
        0 <= i < ms.len(),
        moves(ms, flight, ms[i], n),
        won(ms, flight, term, leader),
    ensures
        won(ms.update(i, n), flight, term, leader),
{
    let ns = ms.update(i, n);
    let q = choose|q: Set<NodeId>| #[trigger] won_by(ms, flight, q, term, leader);
    assert forall|v: NodeId| q.contains(v) implies #[trigger] closed_to(
        ns,
        flight,
        v,
        term,
        leader,
    ) by {
        assert(closed_to(ms, flight, v, term, leader));
        let k = choose|k: int|
            0 <= k < ms.len() && (#[trigger] ms[k]).id == v && stands_by(ms[k].node, term, leader);
        assert(ns[k].id == v && stands_by(ns[k].node, term, leader));
        assert forall|c: NodeId| #[trigger] shown(ns, flight, v, term, c) implies c == leader by {
            if !shown(ms, flight, v, term, c) {
                let j = choose|j: int| 0 <= j < ns.len() && shown_at(#[trigger] ns[j], v, term, c);
                if j != i {
                    assert(shown_at(ms[j], v, term, c));
                }
                assert(shown_at(n, v, term, c));
                if k < i {
                    assert(ms[k].id != ms[i].id);
                } else if i < k {
                    assert(ms[i].id != ms[k].id);
                }
            }
        }
    }
    assert(won_by(ns, flight, q, term, leader));
}

/// What is backed stays backed.
proof fn lemma_backed_on(
    ms: Seq<MemberView>,
    flight: Seq<MessageView>,
    i: int,
    n: MemberView,
    term: Term,
    at: int,
)
    requires
        votes_agree(ms, flight),
        0 <= i < ms.len(),
        moves(ms, flight, ms[i], n),
        orderly(ms[i].node, n.node),
        backed(ms, flight, term, at),
    ensures
        backed(ms.update(i, n), flight, term, at),
{
    let ns = ms.update(i, n);
    let k = choose|k: int|
        0 <= k < ms.len() && backs(#[trigger] ms[k], term, at) && won(ms, flight, term, ms[k].id);
    lemma_won_on(ms, flight, i, n, term, ms[k].id);
    assert(backs(ns[k], term, at));
}

/// The log of a member after a step agrees with all that was there.
proof fn lemma_log_on(ms: Seq<MemberView>, flight: Seq<MessageView>, i: int, n: MemberView)
    requires
        votes_agree(ms, flight),
        tied(ms, flight),
        0 <= i < ms.len(),
        goes(ms[i], n),
    ensures
        whole(n.node.log).formed(),
        forall|g: Stretch| #[trigger] present(ms, flight, g) ==> agree(whole(n.node.log), g),
        forall|k: int|
            1 <= k <= n.node.log.len() ==> backed(
                ms,
                flight,
                (#[trigger] whole(n.node.log).at(k)).term,
                k,
            ) || (grew(ms[i].node, n.node) && k == n.node.log.len()),
{
    let m = ms[i];
    let a = m.node.log;
    let b = n.node.log;
    let w = whole(a);
    let x = whole(b);
    assert(kept_at(ms[i], w));
    assert(present(ms, flight, w));
    if b == a {
    } else if grew(m.node, n.node) {
        let last = b.len() as int;
        assert forall|k: int| 1 <= k < last implies #[trigger] x.at(k) == w.at(k) by {
            assert(b.drop_last()[k - 1] == b[k - 1]);
        }
        assert forall|g: Stretch| #[trigger] present(ms, flight, g) implies agree(x, g) by {
            assert(g.formed());
            assert(agree(w, g));
            assert forall|k: int|
                x.has(k) && g.has(k) && (#[trigger] x.at(k)).term == g.at(k).term implies same_up_to(
                x,
                g,
                k,
            ) by {
                if k == last {
                    let t = m.node.term;
                    assert(backed(ms, flight, g.at(k).term, k));
                    let l = choose|l: int|
                        0 <= l < ms.len() && backs(#[trigger] ms[l], t, k) && won(
                            ms,
                            flight,
                            t,
                            ms[l].id,
                        );
                    lemma_leader_is(ms, flight, i, ms[l].id);
                    if l < i {
                        assert(ms[l].id != ms[i].id);
                    } else if i < l {
                        assert(ms[i].id != ms[l].id);
                    }
                } else {
                    assert(x.at(k) == w.at(k));
                    assert(same_up_to(w, g, k));
                    assert forall|j: int| g.base < j <= k implies #[trigger] x.at(j) == g.at(j) by {
                        assert(w.at(j) == g.at(j));
                    }
                    if g.base > 0 {
                        assert(x.at(g.base) == w.at(g.base));
                    }
                }
            }
        }
        assert forall|k: int| x.has(k) implies (#[trigger] x.at(k)).index == k by {
            if k < last {
                assert(x.at(k) == w.at(k));
            }
        }
        assert forall|k: int| 1 <= k < last implies backed(
            ms,
            flight,
            (#[trigger] x.at(k)).term,
            k,
        ) by {
            assert(x.at(k) == w.at(k));
            assert(w.has(k));
        }
    } else {
        let msg = choose|msg: MessageView|
            m.inbox.contains(msg) && #[trigger] took(m.node, n.node, msg);
        let f = stretch_of(msg);
        assert(mail_at(ms[i], msg));
        assert(mailed(ms, flight, msg));
        assert(brings(msg, f));
        assert(present(ms, flight, f));
        assert(b == a.take(f.base) + f.entries) by {
            let k = choose|k: int| #[trigger] took_from(a, b, f, k);
            assert(agree(w, f));
            if k > 0 {
                assert(w.at(f.base + k).term == f.at(f.base + k).term);
                assert(same_up_to(w, f, f.base + k));
            }
            assert forall|i: int| f.base <= i < f.base + k implies a[i] == f.entries[i - f.base] by {
                assert(w.at(i + 1) == f.at(i + 1));
            }
            assert(b =~= a.take(f.base) + f.entries);
        }
        assert forall|g: Stretch| #[trigger] present(ms, flight, g) implies agree(x, g) by {
            assert(agree(w, f) && agree(w, g) && agree(f, g));
            lemma_spliced_agrees(a, f, g);
        }
        assert forall|k: int| x.has(k) implies (#[trigger] x.at(k)).index == k && backed(
            ms,
            flight,
            x.at(k).term,
            k,
        ) by {
            if k <= f.base {
                assert(x.at(k) == w.at(k));
                assert(w.has(k));
            } else {
                assert(x.at(k) == f.at(k));
                assert(f.has(k));
            }
        }
    }
}

/// The stretch comes with the step: the new log, or a part of it that the
/// member sends as a leader.
spec fn comes(n: MemberView, f: Stretch) -> bool {
    f == whole(n.node.log) || (n.node.role == Role::Leader && cut_of(f, n.node.log))
}

proof fn lemma_mail_on(
    ms: Seq<MemberView>,
    flight: Seq<MessageView>,
    i: int,
    n: MemberView,
    msg: MessageView,
)
    requires
        0 <= i < ms.len(),
        goes(ms[i], n),
        mailed(ms.update(i, n), flight, msg),
    ensures
        mailed(ms, flight, msg) || proper(n.node, msg),
{
    let ns = ms.update(i, n);
    if !flight.contains(msg) {
        let k = choose|k: int| 0 <= k < ns.len() && mail_at(#[trigger] ns[k], msg);
        if k != i {
            assert(mail_at(ms[k], msg));
        } else if n.inbox.contains(msg) {
            assert(mail_at(ms[i], msg));
        } else {
            let j = n.node.outbox.index_of(msg);
            assert(n.node.outbox[j] == msg);
            if j < ms[i].node.outbox.len() {
                assert(ms[i].node.outbox[j] == msg);
                assert(mail_at(ms[i], msg));
            }
        }
    }
}

proof fn lemma_present_on(
    ms: Seq<MemberView>,
    flight: Seq<MessageView>,
    i: int,
    n: MemberView,
    f: Stretch,
)
    requires
        0 <= i < ms.len(),
        goes(ms[i], n),
        present(ms.update(i, n), flight, f),
    ensures
        present(ms, flight, f) || comes(n, f),
{
    let ns = ms.update(i, n);
    if exists|k: int| 0 <= k < ns.len() && kept_at(#[trigger] ns[k], f) {
        let k = choose|k: int| 0 <= k < ns.len() && kept_at(#[trigger] ns[k], f);
        if k != i {
            assert(kept_at(ms[k], f));
        }
    } else {
        let msg = choose|msg: MessageView| #[trigger] mailed(ns, flight, msg) && brings(msg, f);
        lemma_mail_on(ms, flight, i, n, msg);
    }
}

/// A stretch that comes with a step is well formed, agrees with all that was
/// there, and is backed.
proof fn lemma_coming(ms: Seq<MemberView>, flight: Seq<MessageView>, i: int, n: MemberView, f: Stretch)
    requires
        votes_agree(ms, flight),
        tied(ms, flight),
        0 <= i < ms.len(),
        goes(ms[i], n),
        moves(ms, flight, ms[i], n),
        votes_agree(ms.update(i, n), flight),
        comes(n, f),
    ensures
        f.formed(),
        agree(f, whole(n.node.log)),
        forall|g: Stretch| #[trigger] present(ms, flight, g) ==> agree(f, g),
        forall|k: int|
            f.has(k) ==> backed(ms.update(i, n), flight, (#[trigger] f.at(k)).term, k),
{
    let ns = ms.update(i, n);
    let x = whole(n.node.log);
    lemma_log_on(ms, flight, i, n);
    assert(agree(x, x));
    if f != x {
        lemma_cut_agrees(n.node.log, f, x);
        assert forall|g: Stretch| #[trigger] present(ms, flight, g) implies agree(f, g) by {
            lemma_cut_agrees(n.node.log, f, g);
        }
        assert forall|k: int| f.has(k) implies (#[trigger] f.at(k)).index == k by {
            assert(f.at(k) == x.at(k));
            assert(x.has(k));
        }
    }
    assert forall|k: int| f.has(k) implies backed(ns, flight, (#[trigger] f.at(k)).term, k) by {
        assert(f.at(k) == x.at(k));
        if backed(ms, flight, x.at(k).term, k) {
            lemma_backed_on(ms, flight, i, n, x.at(k).term, k);
        } else {
            assert(ns[i] == n);
            lemma_leader_won(ns, flight, i);
            assert(backs(ns[i], x.at(k).term, k));
        }
    }
}

/// A member that does what it may leaves the logs matching.
pub proof fn lemma_member_tied(
    ms: Seq<MemberView>,
    flight: Seq<MessageView>,
    i: int,
    n: MemberView,
)
    requires
        votes_agree(ms, flight),
        tied(ms, flight),
        0 <= i < ms.len(),
        goes(ms[i], n),
        moves(ms, flight, ms[i], n),
        votes_agree(ms.update(i, n), flight),
    ensures
        tied(ms.update(i, n), flight),
{
    let ns = ms.update(i, n);
    assert(member_ok(ms[i], ms.len() as int));
    assert(member_ok(ns[i], ns.len() as int));
    assert forall|f: Stretch| #[trigger] present(ns, flight, f) implies f.formed() by {
        lemma_present_on(ms, flight, i, n, f);
        if !present(ms, flight, f) {
            lemma_coming(ms, flight, i, n, f);
        }
    }
    assert forall|f: Stretch, g: Stretch| #[trigger]
        present(ns, flight, f) && #[trigger] present(ns, flight, g) implies agree(f, g) by {
        lemma_present_on(ms, flight, i, n, f);
        lemma_present_on(ms, flight, i, n, g);
        if !present(ms, flight, f) {
            lemma_coming(ms, flight, i, n, f);
            if !present(ms, flight, g) {
                lemma_coming(ms, flight, i, n, g);
                lemma_agree_back(g, whole(n.node.log));
                if f != whole(n.node.log) {
                    lemma_cut_agrees(n.node.log, f, g);
                }
            }
        } else if !present(ms, flight, g) {
            lemma_coming(ms, flight, i, n, g);
            lemma_agree_back(g, f);
        }
    }
    assert forall|f: Stretch, k: int| #[trigger]
        present(ns, flight, f) && f.has(k) implies backed(
        ns,
        flight,
        (#[trigger] f.at(k)).term,
        k,
    ) by {
        lemma_present_on(ms, flight, i, n, f);
        if present(ms, flight, f) {
            lemma_backed_on(ms, flight, i, n, f.at(k).term, k);
        } else {
            lemma_coming(ms, flight, i, n, f);
        }
    }
    assert forall|msg: MessageView| #[trigger]
        mailed(ns, flight, msg) && msg.body is AppendEntries implies sent_right(
        ns,
        flight,
        msg,
    ) by {
        lemma_mail_on(ms, flight, i, n, msg);
        if mailed(ms, flight, msg) {
            assert(sent_right(ms, flight, msg));
            let k = choose|k: int|
                0 <= k < ms.len() && (#[trigger] ms[k]).id == msg.from && backs(
                    ms[k],
                    msg.term,
                    0,
                );
            lemma_won_on(ms, flight, i, n, msg.term, msg.from);
            assert(ns[k].id == msg.from && backs(ns[k], msg.term, 0));
        } else {
            lemma_leader_won(ns, flight, i);
            assert(ns[i].id == msg.from && backs(ns[i], msg.term, 0));
        }
    }
    assert forall|msg: MessageView| #[trigger]
        mailed(ns, flight, msg) && about_entries(msg) implies msg.to != msg.from by {
        lemma_mail_on(ms, flight, i, n, msg);
    }
    assert forall|k: int| 0 <= k < ns.len() implies !(
    #[trigger] ns[k]).node.config.peers.contains(ns[k].id) by {
        assert(!ms[k].node.config.peers.contains(ms[k].id));
    }
}

// ---- what a node does --------------------------------------------------------------------

/// What a leader sends a peer is taken out of its log.
proof fn lemma_body_cut(s: NodeView, peer: NodeId)
    requires
        s.log.len() <= u64::MAX,
    ensures
        cut_of(
            stretch_of(
                MessageView { from: s.id, to: peer, term: s.term, body: append_body(s, peer) },
            ),
            s.log,
        ),
{
    let msg = MessageView { from: s.id, to: peer, term: s.term, body: append_body(s, peer) };
    let f = stretch_of(msg);
    let next = next_for(s, peer);
    if f.entries.len() > 0 {
        assert(f.entries =~= s.log.subrange(f.base, f.base + f.entries.len()));
    }
}

proof fn lemma_sent_orderly(s: NodeView, n: int)
    requires
        s.role == Role::Leader,
        !s.config.peers.contains(s.id),
        s.log.len() <= u64::MAX,
        n <= s.config.peers.len(),
    ensures
        orderly(s, sent_to(s, n)),
        sent_to(s, n) == (NodeView { outbox: sent_to(s, n).outbox, ..s }),
    decreases n,
{
    if n > 0 {
        lemma_sent_orderly(s, n - 1);
        let p = sent_to(s, n - 1);
        let peer = s.config.peers[n - 1];
        lemma_body_cut(p, peer);
        let t = sent_to(s, n);
        assert forall|k: int|
            s.outbox.len() <= k < t.outbox.len() implies proper(t, #[trigger] t.outbox[k]) by {
            if k < p.outbox.len() {
                assert(t.outbox[k] == p.outbox[k]);
            }
        }
    }
}

proof fn lemma_asked_orderly(s: NodeView, n: int)
    requires
        n <= s.config.peers.len(),
    ensures
        orderly(s, asked(s, n)),
        forall|k: int|
            s.outbox.len() <= k < asked(s, n).outbox.len() ==> (#[trigger] asked(
                s,
                n,
            ).outbox[k]).body !is AppendEntries,
        asked(s, n) == (NodeView { outbox: asked(s, n).outbox, ..s }),
    decreases n,
{
    if n > 0 {
        lemma_asked_orderly(s, n - 1);
        let p = asked(s, n - 1);
        let t = asked(s, n);
        assert forall|k: int|
            s.outbox.len() <= k < t.outbox.len() implies (
            #[trigger] t.outbox[k]).body !is AppendEntries && proper(t, t.outbox[k]) by {
            if k < p.outbox.len() {
                assert(t.outbox[k] == p.outbox[k]);
            }
        }
    }
}

/// One orderly step after another, of which the first sends no entries or the
/// second leaves role, term and log alone.
proof fn lemma_orderly_on(a: NodeView, b: NodeView, c: NodeView)
    requires
        orderly(a, b),
        orderly(b, c),
        (forall|k: int|
            a.outbox.len() <= k < b.outbox.len() ==> (#[trigger] b.outbox[k]).body !is AppendEntries)
            || (c.role == b.role && c.term == b.term && c.log == b.log),
    ensures
        orderly(a, c),
{
    assert forall|k: int|
        a.outbox.len() <= k < c.outbox.len() implies proper(c, #[trigger] c.outbox[k]) by {
        if k < b.outbox.len() {
            assert(c.outbox[k] == b.outbox[k]);
        }
    }
    assert forall|k: int| 0 <= k < a.outbox.len() implies a.outbox[k] == c.outbox[k] by {
        assert(a.outbox[k] == b.outbox[k]);
    }
}

proof fn lemma_leading_orderly(s: NodeView)
    requires
        s.role == Role::Candidate,
        !s.config.peers.contains(s.id),
        s.log.len() <= u64::MAX,
    ensures
        orderly(s, leading(s)),
        leading(s).log == s.log,
        leading(s).term == s.term,
{
    let f = NodeView {
        role: Role::Leader,
        leader: Some(s.id),
        elapsed: 0,
        next: same_for_all(s.config.peers, behind(s.log)),
        matched: same_for_all(s.config.peers, 0),
        ..s
    };
    lemma_sent_orderly(f, f.config.peers.len() as int);
}

proof fn lemma_tick_orderly(s: NodeView)
    requires
        !s.config.peers.contains(s.id),
        s.log.len() <= u64::MAX,
        s.term < u64::MAX,
    ensures
        orderly(s, ticked(s)),
        ticked(s).log == s.log,
{
    let t = NodeView { elapsed: (s.elapsed + 1) as u32, ..s };
    if t.elapsed >= t.patience() {
        if s.role == Role::Leader {
            lemma_sent_orderly(t, t.config.peers.len() as int);
        } else {
            let fresh = persisted(
                NodeView {
                    role: Role::Candidate,
                    term: (t.term + 1) as u64,
                    vote: Some(t.id),
                    votes: Map::<NodeId, bool>::empty().insert(t.id, true),
                    elapsed: 0,
                    leader: None,
                    ..t
                },
            );
            let p = fresh.config.peers.len() as int;
            let a = asked(fresh, p);
            lemma_asked_orderly(fresh, p);
            assert(orderly(s, fresh));
            lemma_orderly_on(s, fresh, a);
            if has_majority(a) {
                lemma_leading_orderly(a);
                lemma_orderly_on(s, a, leading(a));
            }
        }
    }
}

proof fn lemma_propose_orderly(s: NodeView, data: Seq<u8>)
    requires
        s.role == Role::Leader,
        !s.config.peers.contains(s.id),
        s.log.len() < u64::MAX,
    ensures
        orderly(s, proposed(s, data)),
        grew(s, proposed(s, data)),
{
    let p = NodeView { log: s.log.push(proposed_entry(s, data)), ..s };
    lemma_sent_orderly(p, p.config.peers.len() as int);
    assert(p.log.drop_last() =~= s.log);
    let b = broadcast(p);
    let t = proposed(s, data);
    assert(t.outbox == b.outbox && t.log == p.log);
    assert forall|k: int|
        s.outbox.len() <= k < t.outbox.len() implies proper(t, #[trigger] t.outbox[k]) by {
        assert(b.outbox[k] == t.outbox[k]);
    }
}

/// A message that is well formed, and not of a leader of the same term to
/// itself, makes an orderly change.
proof fn lemma_step_orderly(s: NodeView, msg: MessageView)
    requires
        s.log.len() <= u64::MAX,
        msg.body is AppendEntries ==> stretch_of(msg).formed() && !(s.role == Role::Leader && s.term
            == msg.term),
        about_entries(msg) ==> msg.from != s.id,
        !s.config.peers.contains(s.id),
    ensures
        orderly(s, stepped(s, msg)),
        stepped(s, msg).log == s.log || took(s, stepped(s, msg), msg),
{
    if msg.term >= s.term {
        let c = caught_up(s, msg);
        assert(orderly(s, c));
        match msg.body {
            BodyView::AppendEntries { prev_log_index, prev_log_term, entries, leader_commit } => {
                let f = stretch_of(msg);
                let t = stepped(s, msg);
                let h = heard_leader(c, msg.from);
                if consistent(h, prev_log_index, prev_log_term) && attaches(
                    h.log,
                    lacking(h.log, entries),
                ) {
                    let k = lemma_lacking(h.log, entries);
                    if k < entries.len() {
                        assert(f.at(f.base + k + 1) == entries[k]);
                        assert(entries.skip(k)[0] == entries[k]);
                        assert forall|i: int| f.base < i <= f.base + k implies (
                        #[trigger] whole(s.log).at(i)).term == f.at(i).term by {
                            assert(f.has(i));
                            assert(has_entry(h.log, entries[i - f.base - 1]));
                            assert(f.at(i).index == i);
                        }
                        assert(took_from(s.log, t.log, f, k));
                        assert(took(s, t, msg));
                    }
                }
            },
            BodyView::AppendResponse { success, match_index } => {
                if c.role == Role::Leader && !success {
                    let t = if c.next.contains_key(msg.from) {
                        NodeView {
                            next: c.next.insert(msg.from, one_less(c.next[msg.from])),
                            ..c
                        }
                    } else {
                        c
                    };
                    lemma_body_cut(t, msg.from);
                    assert(orderly(c, stepped(s, msg)));
                    lemma_orderly_on(s, c, stepped(s, msg));
                }
            },
            BodyView::VoteResponse { granted } => {
                if c.role == Role::Candidate {
                    let v = NodeView { votes: c.votes.insert(msg.from, granted), ..c };
                    if has_majority(v) {
                        lemma_leading_orderly(v);
                    }
                    lemma_orderly_on(s, v, stepped(s, msg));
                }
            },
            _ => {},
        }
    }
}

// ---- the cluster ---------------------------------------------------------------------------

/// Votes agree and logs match everywhere in the cluster.
pub open spec fn in_line(c: ClusterView) -> bool {
    fair(c) && tied(c.members, seq![])
}

/// In a cluster in line two logs that have an entry of one term at one place are
/// the same up to that place.
pub proof fn lemma_logs_match(c: ClusterView, i: int, j: int, at: int)
    requires
        in_line(c),
        0 <= i < c.members.len(),
        0 <= j < c.members.len(),
        1 <= at <= c.members[i].node.log.len(),
        1 <= at <= c.members[j].node.log.len(),
        c.members[i].node.log[at - 1].term == c.members[j].node.log[at - 1].term,
    ensures
        c.members[i].node.log.take(at) == c.members[j].node.log.take(at),
{
    let ms = c.members;
    let none = Seq::<MessageView>::empty();
    let a = ms[i].node.log;
    let b = ms[j].node.log;
    let f = whole(a);
    let g = whole(b);
    assert(kept_at(ms[i], f));
    assert(kept_at(ms[j], g));
    assert(present(ms, none, f) && present(ms, none, g));
    assert(agree(f, g));
    assert(f.at(at).term == g.at(at).term);
    assert forall|k: int| 0 <= k < at implies a[k] == b[k] by {
        assert(f.at(k + 1) == g.at(k + 1));
    }
    assert(a.take(at) =~= b.take(at));
}

/// In a cluster in line the leader of a term has every entry of that term, at
/// the place where anybody has it.
pub proof fn lemma_leader_has(c: ClusterView, i: int, j: int, at: int)
    requires
        in_line(c),
        0 <= i < c.members.len(),
        0 <= j < c.members.len(),
        c.members[i].node.role == Role::Leader,
        1 <= at <= c.members[j].node.log.len(),
        c.members[j].node.log[at - 1].term == c.members[i].node.term,
    ensures
        at <= c.members[i].node.log.len(),
{
    let ms = c.members;
    let none = Seq::<MessageView>::empty();
    let g = whole(ms[j].node.log);
    let t = ms[i].node.term;
    assert(kept_at(ms[j], g));
    assert(present(ms, none, g));
    assert(g.has(at) && g.at(at).term == t);
    assert(backed(ms, none, t, at));
    let k = choose|k: int|
        0 <= k < ms.len() && backs(#[trigger] ms[k], t, at) && won(ms, none, t, ms[k].id);
    lemma_leader_is(ms, none, i, ms[k].id);
    if k < i {
        assert(ms[k].id != ms[i].id);
    } else if i < k {
        assert(ms[i].id != ms[k].id);
    }
}

/// As long as all entries are of one term, the logs of a cluster in line are
/// beginnings of one another.
pub proof fn lemma_one_term(c: ClusterView, i: int, j: int, term: Term)
    requires
        in_line(c),
        0 <= i < c.members.len(),
        0 <= j < c.members.len(),
        forall|k: int|
            0 <= k < c.members[i].node.log.len() ==> (#[trigger] c.members[i].node.log[k]).term
                == term,
        forall|k: int|
            0 <= k < c.members[j].node.log.len() ==> (#[trigger] c.members[j].node.log[k]).term
                == term,
        c.members[i].node.log.len() <= c.members[j].node.log.len(),
    ensures
        c.members[i].node.log.is_prefix_of(c.members[j].node.log),
{
    let a = c.members[i].node.log;
    let b = c.members[j].node.log;
    let n = a.len() as int;
    if n > 0 {
        assert(a[n - 1].term == b[n - 1].term);
        lemma_logs_match(c, i, j, n);
        assert(a.take(n) =~= a);
    }
    assert(a =~= b.subrange(0, n)) by {
        assert forall|k: int| 0 <= k < n implies a[k] == b[k] by {
            assert(a.take(n)[k] == b.take(n)[k]);
        }
    }
}

proof fn lemma_tick_tied(ms: Seq<MemberView>, i: int)
    requires
        votes_agree(ms, seq![]),
        tied(ms, seq![]),
        0 <= i < ms.len(),
        ms[i].alive ==> ms[i].node.term < u64::MAX,
    ensures
        tied(ms.update(i, ticked_member(ms[i])), seq![]),
{
    let none = Seq::<MessageView>::empty();
    let m = ms[i];
    let n = ticked_member(m);
    assert(member_ok(m, ms.len() as int));
    if m.alive {
        lemma_tick_orderly(m.node);
        election::lemma_tick_moves(ms, i);
        assert(goes(m, n));
        lemma_member_tied(ms, none, i, n);
    } else {
        assert(ms.update(i, n) =~= ms);
    }
}

proof fn lemma_ticks_tied(ms: Seq<MemberView>, n: int)
    requires
        votes_agree(ms, seq![]),
        tied(ms, seq![]),
        0 <= n <= ms.len(),
        forall|i: int|
            0 <= i < ms.len() && (#[trigger] ms[i]).alive ==> ms[i].node.term < u64::MAX,
    ensures
        tied(partly_ticked(ms, n), seq![]),
    decreases n,
{
    if n == 0 {
        assert(partly_ticked(ms, 0) =~= ms);
    } else {
        lemma_ticks_tied(ms, n - 1);
        election::lemma_ticks_fair(ms, n - 1);
        let prior = partly_ticked(ms, n - 1);
        assert(prior[n - 1] == ms[n - 1]);
        lemma_tick_tied(prior, n - 1);
        assert(prior.update(n - 1, ticked_member(ms[n - 1])) =~= partly_ticked(ms, n));
    }
}

/// Ticks keep a cluster in line.
pub proof fn lemma_ticked_in_line(c: ClusterView)
    requires
        in_line(c),
        forall|i: int|
            0 <= i < c.members.len() && (#[trigger] c.members[i]).alive
                ==> c.members[i].node.term < u64::MAX,
    ensures
        in_line(all_ticked(c)),
{
    let n = c.members.len() as int;
    lemma_ticks_tied(c.members, n);
    election::lemma_ticked_fair(c);
    assert(partly_ticked(c.members, n) =~= all_ticked(c).members);
}

proof fn lemma_step_tied(ms: Seq<MemberView>, i: int, k: int)
    requires
        votes_agree(ms, seq![]),
        tied(ms, seq![]),
        0 <= i < ms.len(),
        0 <= k < ms[i].inbox.len(),
        stepped(ms[i].node, ms[i].inbox[k]).log.len() <= u64::MAX,
    ensures
        tied(
            ms.update(i, MemberView { node: stepped(ms[i].node, ms[i].inbox[k]), ..ms[i] }),
            seq![],
        ),
{
    let none = Seq::<MessageView>::empty();
    let m = ms[i];
    let msg = m.inbox[k];
    let n = MemberView { node: stepped(m.node, msg), ..m };
    assert(member_ok(m, ms.len() as int));
    assert(mail_at(ms[i], msg));
    assert(mailed(ms, none, msg));
    if msg.body is AppendEntries {
        assert(brings(msg, stretch_of(msg)));
        assert(present(ms, none, stretch_of(msg)));
        assert(sent_right(ms, none, msg));
        assert(about_entries(msg));
        if m.node.role == Role::Leader && m.node.term == msg.term {
            lemma_leader_is(ms, none, i, msg.from);
        }
    }
    lemma_step_orderly(m.node, msg);
    election::lemma_step_moves(ms, i, k);
    assert(goes(m, n));
    lemma_member_tied(ms, none, i, n);
}

proof fn lemma_steps_tied(ms: Seq<MemberView>, i: int, k: int)
    requires
        votes_agree(ms, seq![]),
        tied(ms, seq![]),
        0 <= i < ms.len(),
        0 <= k <= ms[i].inbox.len(),
        logs_fit(ms[i]),
    ensures
        tied(
            ms.update(
                i,
                MemberView { node: stepped_all(ms[i].node, ms[i].inbox.take(k)), ..ms[i] },
            ),
            seq![],
        ),
    decreases k,
{
    let m = ms[i];
    if k == 0 {
        assert(m.inbox.take(0) =~= Seq::<MessageView>::empty());
        assert(ms.update(i, MemberView { node: stepped_all(m.node, m.inbox.take(0)), ..m }) =~= ms);
    } else {
        lemma_steps_tied(ms, i, k - 1);
        election::lemma_steps_fair(ms, i, k - 1);
        let p = MemberView { node: stepped_all(m.node, m.inbox.take(k - 1)), ..m };
        let prior = ms.update(i, p);
        assert(m.inbox.take(k).drop_last() =~= m.inbox.take(k - 1));
        assert(m.inbox.take(k).last() == m.inbox[k - 1]);
        assert(stepped_all(m.node, m.inbox.take(k)).log.len() <= u64::MAX);
        lemma_step_tied(prior, i, k - 1);
        assert(prior.update(
            i,
            MemberView { node: stepped(p.node, p.inbox[k - 1]), ..p },
        ) =~= ms.update(i, MemberView { node: stepped_all(m.node, m.inbox.take(k)), ..m }));
    }
}

proof fn lemma_dropped_tied(ms: Seq<MemberView>, i: int, alive: bool, inbox: Seq<MessageView>)
    requires
        votes_agree(ms, seq![]),
        tied(ms, seq![]),
        0 <= i < ms.len(),
        inbox == ms[i].inbox || inbox.len() == 0,
    ensures
        tied(ms.update(i, MemberView { alive, inbox, ..ms[i] }), seq![]),
{
    let none = Seq::<MessageView>::empty();
    let n = MemberView { alive, inbox, ..ms[i] };
    election::lemma_mail_dropped(ms, i, alive, inbox);
    assert(goes(ms[i], n));
    lemma_member_tied(ms, none, i, n);
}

proof fn lemma_work_tied(ms: Seq<MemberView>, i: int)
    requires
        votes_agree(ms, seq![]),
        tied(ms, seq![]),
        0 <= i < ms.len(),
        ms[i].alive ==> logs_fit(ms[i]),
    ensures
        tied(ms.update(i, worked(ms[i])), seq![]),
{
    let m = ms[i];
    if m.alive {
        let k = m.inbox.len() as int;
        lemma_steps_tied(ms, i, k);
        election::lemma_steps_fair(ms, i, k);
        assert(m.inbox.take(k) =~= m.inbox);
        let p = MemberView { node: stepped_all(m.node, m.inbox), ..m };
        let prior = ms.update(i, p);
        let n = worked(m);
        lemma_dropped_tied(prior, i, m.alive, seq![]);
        assert(n == (MemberView { alive: m.alive, inbox: seq![], ..p }));
        assert(prior.update(i, n) =~= ms.update(i, n));
    } else {
        assert(ms.update(i, worked(m)) =~= ms);
    }
}

proof fn lemma_all_work_tied(ms: Seq<MemberView>, n: int)
    requires
        votes_agree(ms, seq![]),
        tied(ms, seq![]),
        0 <= n <= ms.len(),
        forall|i: int| 0 <= i < ms.len() && (#[trigger] ms[i]).alive ==> logs_fit(ms[i]),
    ensures
        tied(partly_worked(ms, n), seq![]),
    decreases n,
{
    if n == 0 {
        assert(partly_worked(ms, 0) =~= ms);
    } else {
        lemma_all_work_tied(ms, n - 1);
        election::lemma_all_work_fair(ms, n - 1);
        let prior = partly_worked(ms, n - 1);
        assert(prior[n - 1] == ms[n - 1]);
        assert(ms[n - 1].alive ==> logs_fit(ms[n - 1]));
        lemma_work_tied(prior, n - 1);
        assert(prior.update(n - 1, worked(ms[n - 1])) =~= partly_worked(ms, n));
    }
}

/// If nothing changes but that there is less mail, the logs still match.
proof fn lemma_less_tied(
    ms: Seq<MemberView>,
    flight: Seq<MessageView>,
    ns: Seq<MemberView>,
    rest: Seq<MessageView>,
)
    requires
        tied(ms, flight),
        ns.len() == ms.len(),
        forall|i: int|
            0 <= i < ms.len() ==> (#[trigger] ns[i]).id == ms[i].id && ns[i].node.term
                == ms[i].node.term && ns[i].node.vote == ms[i].node.vote && ns[i].node.role
                == ms[i].node.role && ns[i].node.log == ms[i].node.log && ns[i].node.config
                == ms[i].node.config,
        forall|v: NodeId, t: Term, c: NodeId| #[trigger]
            shown(ns, rest, v, t, c) ==> shown(ms, flight, v, t, c),
        forall|msg: MessageView| #[trigger] mailed(ns, rest, msg) ==> mailed(ms, flight, msg),
    ensures
        tied(ns, rest),
{
    assert forall|t: Term, l: NodeId| won(ms, flight, t, l) implies #[trigger] won(
        ns,
        rest,
        t,
        l,
    ) by {
        let q = choose|q: Set<NodeId>| #[trigger] won_by(ms, flight, q, t, l);
        assert forall|v: NodeId| q.contains(v) implies #[trigger] closed_to(ns, rest, v, t, l) by {
            assert(closed_to(ms, flight, v, t, l));
            let k = choose|k: int|
                0 <= k < ms.len() && (#[trigger] ms[k]).id == v && stands_by(ms[k].node, t, l);
            assert(ns[k].id == v && stands_by(ns[k].node, t, l));
        }
        assert(won_by(ns, rest, q, t, l));
    }
    assert forall|t: Term, i: int| backed(ms, flight, t, i) implies #[trigger] backed(
        ns,
        rest,
        t,
        i,
    ) by {
        let k = choose|k: int|
            0 <= k < ms.len() && backs(#[trigger] ms[k], t, i) && won(ms, flight, t, ms[k].id);
        assert(ns[k].id == ms[k].id);
        assert(won(ns, rest, t, ns[k].id));
        assert(backs(ns[k], t, i));
    }
    assert forall|f: Stretch| #[trigger] present(ns, rest, f) implies present(ms, flight, f) by {
        if exists|k: int| 0 <= k < ns.len() && kept_at(#[trigger] ns[k], f) {
            let k = choose|k: int| 0 <= k < ns.len() && kept_at(#[trigger] ns[k], f);
            assert(kept_at(ms[k], f));
        } else {
            let msg = choose|msg: MessageView| #[trigger] mailed(ns, rest, msg) && brings(msg, f);
            assert(mailed(ms, flight, msg));
        }
    }
    assert forall|f: Stretch, i: int| #[trigger]
        present(ns, rest, f) && f.has(i) implies backed(ns, rest, (#[trigger] f.at(i)).term, i) by {
        assert(present(ms, flight, f));
        assert(backed(ms, flight, f.at(i).term, i));
    }
    assert forall|msg: MessageView| #[trigger]
        mailed(ns, rest, msg) && msg.body is AppendEntries implies sent_right(ns, rest, msg) by {
        assert(sent_right(ms, flight, msg));
        let k = choose|k: int|
            0 <= k < ms.len() && (#[trigger] ms[k]).id == msg.from && backs(ms[k], msg.term, 0);
        assert(ns[k].id == msg.from && backs(ns[k], msg.term, 0));
        assert(won(ns, rest, msg.term, msg.from));
    }
    assert forall|i: int| 0 <= i < ns.len() implies !(
    #[trigger] ns[i]).node.config.peers.contains(ns[i].id) by {
        assert(!ms[i].node.config.peers.contains(ms[i].id));
    }
}

/// What is sent was in an outbox.
pub proof fn lemma_sent_mail(ms: Seq<MemberView>, msg: MessageView)
    requires
        all_sent(ms).contains(msg),
    ensures
        exists|i: int| 0 <= i < ms.len() && (#[trigger] ms[i]).node.outbox.contains(msg),
    decreases ms.len(),
{
    let sent = all_sent(ms);
    let k = sent.index_of(msg);
    let d = ms.drop_last();
    let a = all_sent(d);
    if k < a.len() {
        assert(a[k] == msg);
        lemma_sent_mail(d, msg);
        let i = choose|i: int| 0 <= i < d.len() && (#[trigger] d[i]).node.outbox.contains(msg);
        assert(ms[i] == d[i]);
    } else {
        assert(sends(ms.last())[k - a.len()] == msg);
        assert(ms[ms.len() - 1].node.outbox.contains(msg));
    }
}

proof fn lemma_settle_tied(ms: Seq<MemberView>)
    requires
        votes_agree(ms, seq![]),
        tied(ms, seq![]),
    ensures
        tied(all_settled(ms), all_sent(ms)),
{
    let none = Seq::<MessageView>::empty();
    let ns = all_settled(ms);
    let sent = all_sent(ms);
    election::lemma_settle_fair(ms);
    assert forall|msg: MessageView| #[trigger] mailed(ns, sent, msg) implies mailed(
        ms,
        none,
        msg,
    ) by {
        if sent.contains(msg) {
            lemma_sent_mail(ms, msg);
            let i = choose|i: int|
                0 <= i < ms.len() && (#[trigger] ms[i]).node.outbox.contains(msg);
            assert(mail_at(ms[i], msg));
        } else {
            let i = choose|i: int| 0 <= i < ns.len() && mail_at(#[trigger] ns[i], msg);
            assert(mail_at(ms[i], msg));
        }
    }
    lemma_less_tied(ms, none, ns, sent);
}

pub proof fn lemma_delivered_mail(
    ms: Seq<MemberView>,
    cut: Set<(NodeId, NodeId)>,
    msgs: Seq<MessageView>,
)
    ensures
        all_delivered(ms, cut, msgs).len() == ms.len(),
        forall|i: int|
            0 <= i < ms.len() ==> (#[trigger] all_delivered(ms, cut, msgs)[i]) == (MemberView {
                inbox: all_delivered(ms, cut, msgs)[i].inbox,
                ..ms[i]
            }),
        forall|i: int, msg: MessageView|
            0 <= i < ms.len() && #[trigger] all_delivered(ms, cut, msgs)[i].inbox.contains(msg)
                ==> ms[i].inbox.contains(msg) || msgs.contains(msg),
    decreases msgs.len(),
{
    if msgs.len() > 0 {
        let d = msgs.drop_last();
        let l = msgs.last();
        lemma_delivered_mail(ms, cut, d);
        let a = all_delivered(ms, cut, d);
        let b = all_delivered(ms, cut, msgs);
        cluster_state::lemma_place_of_id(a, l.to);
        assert forall|i: int, msg: MessageView|
            0 <= i < ms.len() && #[trigger] b[i].inbox.contains(msg) implies ms[i].inbox.contains(
            msg,
        ) || msgs.contains(msg) by {
            let k = b[i].inbox.index_of(msg);
            if k < a[i].inbox.len() {
                assert(a[i].inbox[k] == msg);
                assert(a[i].inbox.contains(msg));
                if d.contains(msg) {
                    assert(msgs[d.index_of(msg)] == msg);
                }
            } else {
                assert(msgs[msgs.len() - 1] == msg);
            }
        }
    }
}

proof fn lemma_delivery_tied(
    ms: Seq<MemberView>,
    cut: Set<(NodeId, NodeId)>,
    msgs: Seq<MessageView>,
)
    requires
        votes_agree(ms, msgs),
        tied(ms, msgs),
    ensures
        tied(all_delivered(ms, cut, msgs), seq![]),
{
    let none = Seq::<MessageView>::empty();
    let ns = all_delivered(ms, cut, msgs);
    election::lemma_delivery_fair(ms, cut, msgs);
    lemma_delivered_mail(ms, cut, msgs);
    assert forall|msg: MessageView| #[trigger] mailed(ns, none, msg) implies mailed(
        ms,
        msgs,
        msg,
    ) by {
        let i = choose|i: int| 0 <= i < ns.len() && mail_at(#[trigger] ns[i], msg);
        if ns[i].inbox.contains(msg) {
            if ms[i].inbox.contains(msg) {
                assert(mail_at(ms[i], msg));
            }
        } else {
            assert(mail_at(ms[i], msg));
        }
    }
    lemma_less_tied(ms, msgs, ns, none);
}

/// A round keeps a cluster in line.
pub proof fn lemma_round_in_line(c: ClusterView)
    requires
        in_line(c),
        forall|i: int|
            0 <= i < c.members.len() && (#[trigger] c.members[i]).alive ==> logs_fit(c.members[i]),
    ensures
        in_line(after_round(c)),
{
    let n = c.members.len() as int;
    lemma_all_work_tied(c.members, n);
    election::lemma_all_work_fair(c.members, n);
    let w = all_worked(c.members);
    assert(partly_worked(c.members, n) =~= w);
    lemma_settle_tied(w);
    election::lemma_settle_fair(w);
    lemma_delivery_tied(all_settled(w), c.cut, all_sent(w));
    election::lemma_round_fair(c);
}

/// A proposal to a leader keeps a cluster in line.
pub proof fn lemma_proposal_in_line(c: ClusterView, i: int, data: Seq<u8>)
    requires
        in_line(c),
        0 <= i < c.members.len(),
        c.members[i].node.role == Role::Leader,
        c.members[i].node.log.len() < u64::MAX,
    ensures
        in_line(
            ClusterView {
                members: c.members.update(
                    i,
                    MemberView { node: proposed(c.members[i].node, data), ..c.members[i] },
                ),
                ..c
            },
        ),
{
    let none = Seq::<MessageView>::empty();
    let ms = c.members;
    let n = MemberView { node: proposed(ms[i].node, data), ..ms[i] };
    assert(member_ok(ms[i], ms.len() as int));
    election::lemma_proposal_fair(c, i, data);
    lemma_propose_orderly(ms[i].node, data);
    assert(goes(ms[i], n));
    lemma_member_tied(ms, none, i, n);
}

/// Stopping a member, or letting it go on, keeps a cluster in line, and so does
/// any change of the cuts.
pub proof fn lemma_fault_in_line(
    c: ClusterView,
    i: int,
    alive: bool,
    inbox: Seq<MessageView>,
    cut: Set<(NodeId, NodeId)>,
)
    requires
        in_line(c),
        0 <= i < c.members.len(),
        inbox == c.members[i].inbox || inbox.len() == 0,
    ensures
        in_line(
            ClusterView {
                members: c.members.update(i, MemberView { alive, inbox, ..c.members[i] }),
                cut,
            },
        ),
        in_line(ClusterView { members: c.members, cut }),
{
    election::lemma_fault_fair(c, i, alive, inbox, cut);
    lemma_dropped_tied(c.members, i, alive, inbox);
}

/// A fresh cluster of distinct nodes is in line.
pub proof fn lemma_fresh_in_line(ids: Seq<NodeId>)
    requires
        ids.no_duplicates(),
    ensures
        in_line(fresh_cluster(ids)),
{
    let none = Seq::<MessageView>::empty();
    let ms = fresh_cluster(ids).members;
    election::lemma_fresh_fair(ids);
    assert forall|msg: MessageView| !(#[trigger] mailed(ms, none, msg)) by {
        if mailed(ms, none, msg) {
            let i = choose|i: int| 0 <= i < ms.len() && mail_at(#[trigger] ms[i], msg);
            assert(ms[i] == fresh_member(ids, i));
        }
    }
    assert forall|f: Stretch| #[trigger] present(ms, none, f) implies f == whole(seq![]) by {
        let i = choose|i: int| 0 <= i < ms.len() && kept_at(#[trigger] ms[i], f);
        assert(ms[i] == fresh_member(ids, i));
    }
    assert forall|i: int| 0 <= i < ms.len() implies !(
    #[trigger] ms[i]).node.config.peers.contains(ms[i].id) by {
        lemma_others_lack(ids, ids[i]);
    }
}

proof fn lemma_others_lack(ids: Seq<NodeId>, id: NodeId)
    ensures
        !others(ids, id).contains(id),
    decreases ids.len(),
{
    if ids.len() > 0 {
        lemma_others_lack(ids.drop_last(), id);
        let o = others(ids, id);
        let d = others(ids.drop_last(), id);
        if o.contains(id) {
            let k = o.index_of(id);
            if k < d.len() {
                assert(d[k] == id);
            }
        }
    }
}

} // verus!
