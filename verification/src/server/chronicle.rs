//! What the leaders of a cluster have done so far, and how the members and their
//! mail agree with it.
//!
//! A chronicle has the log of each leader, each vote, and how far each node has
//! said that it has the log of a leader. A place of a leader's log is chosen once
//! more than half of the cluster has said so. It is out once more than half of
//! the cluster is in later terms and has not said so, and never will. A later
//! leader has whatever is not out.

use vstd::prelude::*;

use crate::raft::state::{NodeView, Role};
use crate::raft::types::{BodyView, EntryView, MessageView};
use crate::server::cluster_state::MemberView;
use crate::server::election::ids_apart;
use crate::server::matching::{self, ids_of, mail_at, mailed, stretch_of, Stretch};
use crate::server::state_machine::writes_of;
use crate::storage::engine::written_all;
use crate::types::{NodeId, Term};

verus! {

/// Who led in a term, and with which log.
#[verifier::ext_equal]
pub struct Reign {
    pub leader: NodeId,
    pub log: Seq<EntryView>,
}

/// What has happened.
#[verifier::ext_equal]
pub struct Chronicle {
    pub reigns: Map<Term, Reign>,
    /// How far a node has said in a term that it has the log of the leader.
    pub acks: Map<(NodeId, Term), int>,
    /// Whom a node voted for in a term.
    pub votes: Map<(NodeId, Term), NodeId>,
}

impl Chronicle {
    pub open spec fn log(self, t: Term) -> Seq<EntryView> {
        self.reigns[t].log
    }

    pub open spec fn ack(self, v: NodeId, t: Term) -> int {
        if self.acks.contains_key((v, t)) {
            self.acks[(v, t)]
        } else {
            0
        }
    }

    pub open spec fn voted(self, v: NodeId, t: Term, c: NodeId) -> bool {
        self.votes.contains_key((v, t)) && self.votes[(v, t)] == c
    }
}

// ---- logs ------------------------------------------------------------------------------

/// Both logs begin with the same `k` entries.
pub open spec fn shares(a: Seq<EntryView>, b: Seq<EntryView>, k: int) -> bool {
    0 <= k <= a.len() && k <= b.len() && a.take(k) == b.take(k)
}

pub proof fn lemma_shares_less(a: Seq<EntryView>, b: Seq<EntryView>, k: int, j: int)
    requires
        shares(a, b, k),
        0 <= j <= k,
    ensures
        shares(a, b, j),
        j > 0 ==> a[j - 1] == b[j - 1],
{
    assert(a.take(j) =~= a.take(k).take(j));
    assert(b.take(j) =~= b.take(k).take(j));
    if j > 0 {
        assert(a.take(k)[j - 1] == a[j - 1]);
        assert(b.take(k)[j - 1] == b[j - 1]);
    }
}

/// A log that begins with all of another one begins as that one does.
pub proof fn lemma_shares_longer(a: Seq<EntryView>, b: Seq<EntryView>, c: Seq<EntryView>, k: int)
    requires
        shares(a, b, k),
        shares(b, c, b.len() as int),
    ensures
        shares(a, c, k),
{
    lemma_shares_less(b, c, b.len() as int, k);
}

/// Each entry has the number of its place, and none is of a later term.
pub open spec fn bounded(log: Seq<EntryView>, t: Term) -> bool {
    &&& log.len() <= u64::MAX
    &&& forall|i: int|
        0 <= i < log.len() ==> (#[trigger] log[i]).term <= t && log[i].index == i + 1
}

/// Up to each of its entries the log is that of the leader of the entry's term.
pub open spec fn anchored(h: Chronicle, log: Seq<EntryView>) -> bool {
    forall|i: int|
        0 <= i < log.len() ==> h.reigns.contains_key((#[trigger] log[i]).term) && shares(
            log,
            h.log(log[i].term),
            i + 1,
        )
}

/// Two logs with an entry of one term at one place are the same up to there.
pub proof fn lemma_match(h: Chronicle, a: Seq<EntryView>, b: Seq<EntryView>, k: int)
    requires
        anchored(h, a),
        anchored(h, b),
        1 <= k <= a.len(),
        k <= b.len(),
        a[k - 1].term == b[k - 1].term,
    ensures
        shares(a, b, k),
{
    assert(shares(a, h.log(a[k - 1].term), k));
    assert(shares(b, h.log(b[k - 1].term), k));
}

/// The beginning of a log is as good as the log.
pub proof fn lemma_take_anchored(h: Chronicle, log: Seq<EntryView>, e: int)
    requires
        anchored(h, log),
        0 <= e <= log.len(),
    ensures
        anchored(h, log.take(e)),
        shares(log.take(e), log, e),
{
    let a = log.take(e);
    assert(a.take(e) =~= a);
    assert forall|i: int| 0 <= i < a.len() implies h.reigns.contains_key((#[trigger] a[i]).term)
        && shares(a, h.log(a[i].term), i + 1) by {
        assert(a[i] == log[i]);
        assert(a.take(i + 1) =~= log.take(i + 1));
    }
}

// ---- places ----------------------------------------------------------------------------

/// The log of the leader of the term has an entry of that term at the place.
pub open spec fn own(h: Chronicle, t: Term, n: int) -> bool {
    h.reigns.contains_key(t) && 1 <= n <= h.log(t).len() && h.log(t)[n - 1].term == t
}

/// Some member has this number.
pub open spec fn is_member(ms: Seq<MemberView>, v: NodeId) -> bool {
    exists|k: int| 0 <= k < ms.len() && (#[trigger] ms[k]).id == v
}

/// The node is in a later term, or in this one.
pub open spec fn reached(ms: Seq<MemberView>, v: NodeId, t: int) -> bool {
    exists|k: int| 0 <= k < ms.len() && (#[trigger] ms[k]).id == v && ms[k].node.term >= t
}

/// The node is in a later term, and has not said that it has the place.
pub open spec fn without(ms: Seq<MemberView>, h: Chronicle, v: NodeId, t: Term, n: int) -> bool {
    reached(ms, v, t + 1) && h.ack(v, t) < n
}

pub open spec fn most_without(
    ms: Seq<MemberView>,
    h: Chronicle,
    q: Set<NodeId>,
    t: Term,
    n: int,
) -> bool {
    &&& q.finite()
    &&& 2 * q.len() > ms.len()
    &&& forall|v: NodeId| q.contains(v) ==> #[trigger] without(ms, h, v, t, n)
}

/// The place is out: it cannot be chosen any more.
pub open spec fn out(ms: Seq<MemberView>, h: Chronicle, t: Term, n: int) -> bool {
    exists|q: Set<NodeId>| #[trigger] most_without(ms, h, q, t, n)
}

/// The node has said that it has the place.
pub open spec fn vouched(ms: Seq<MemberView>, h: Chronicle, v: NodeId, t: Term, n: int) -> bool {
    is_member(ms, v) && h.ack(v, t) >= n
}

pub open spec fn most_vouch(
    ms: Seq<MemberView>,
    h: Chronicle,
    q: Set<NodeId>,
    t: Term,
    n: int,
) -> bool {
    &&& q.finite()
    &&& 2 * q.len() > ms.len()
    &&& forall|v: NodeId| q.contains(v) ==> #[trigger] vouched(ms, h, v, t, n)
}

/// The place is chosen: the leader made the entry, and more than half of the
/// cluster has said that it has it.
pub open spec fn chosen(ms: Seq<MemberView>, h: Chronicle, t: Term, n: int) -> bool {
    own(h, t, n) && exists|q: Set<NodeId>| #[trigger] most_vouch(ms, h, q, t, n)
}

/// As many ids as members, and all of them.
pub proof fn lemma_ids(ms: Seq<MemberView>)
    requires
        ids_apart(ms),
    ensures
        ids_of(ms).finite(),
        ids_of(ms).len() == ms.len(),
        forall|v: NodeId| is_member(ms, v) ==> #[trigger] ids_of(ms).contains(v),
{
    matching::lemma_ids(ms);
    assert forall|v: NodeId| is_member(ms, v) implies #[trigger] ids_of(ms).contains(v) by {
        let k = choose|k: int| 0 <= k < ms.len() && (#[trigger] ms[k]).id == v;
        assert(ids_of(ms).contains(ms[k].id));
    }
}

/// Two majorities have a node in common.
pub proof fn lemma_meet(ms: Seq<MemberView>, a: Set<NodeId>, b: Set<NodeId>) -> (v: NodeId)
    requires
        ids_apart(ms),
        a.finite(),
        b.finite(),
        2 * a.len() > ms.len(),
        2 * b.len() > ms.len(),
        forall|v: NodeId| #[trigger] a.contains(v) ==> is_member(ms, v),
        forall|v: NodeId| #[trigger] b.contains(v) ==> is_member(ms, v),
    ensures
        a.contains(v),
        b.contains(v),
{
    let all = ids_of(ms);
    lemma_ids(ms);
    if forall|v: NodeId| !(a.contains(v) && b.contains(v)) {
        assert(a.disjoint(b));
        vstd::set_lib::lemma_set_disjoint_lens(a, b);
        assert((a + b).subset_of(all));
        vstd::set_lib::lemma_len_subset(a + b, all);
    }
    choose|v: NodeId| a.contains(v) && b.contains(v)
}

pub proof fn lemma_reached_member(ms: Seq<MemberView>, v: NodeId, t: int)
    requires
        reached(ms, v, t),
    ensures
        is_member(ms, v),
{
    let k = choose|k: int|
        0 <= k < ms.len() && (#[trigger] ms[k]).id == v && ms[k].node.term >= t;
    assert(ms[k].id == v);
}

/// What is chosen is not out.
pub proof fn lemma_chosen_in(ms: Seq<MemberView>, h: Chronicle, t: Term, n: int)
    requires
        ids_apart(ms),
        chosen(ms, h, t, n),
    ensures
        !out(ms, h, t, n),
{
    if out(ms, h, t, n) {
        let a = choose|q: Set<NodeId>| #[trigger] most_vouch(ms, h, q, t, n);
        let b = choose|q: Set<NodeId>| #[trigger] most_without(ms, h, q, t, n);
        assert forall|v: NodeId| #[trigger] a.contains(v) implies is_member(ms, v) by {
            assert(vouched(ms, h, v, t, n));
        }
        assert forall|v: NodeId| #[trigger] b.contains(v) implies is_member(ms, v) by {
            assert(without(ms, h, v, t, n));
            lemma_reached_member(ms, v, t + 1);
        }
        let v = lemma_meet(ms, a, b);
        assert(vouched(ms, h, v, t, n));
        assert(without(ms, h, v, t, n));
    }
}

// ---- agreement with the chronicle ------------------------------------------------------

/// The log has the place, or the place is out.
pub open spec fn has_unless_out(
    ms: Seq<MemberView>,
    h: Chronicle,
    log: Seq<EntryView>,
    t: Term,
    n: int,
) -> bool {
    shares(log, h.log(t), n) || out(ms, h, t, n)
}

/// A log that ends in a later term, or in this one behind the place.
pub open spec fn ahead(log: Seq<EntryView>, t: Term, n: int) -> bool {
    log.len() > 0 && (log.last().term > t || (log.last().term == t && log.len() >= n))
}

/// Whatever the voter said it has of earlier terms, the log is ahead of, or it is
/// out.
pub open spec fn endorsed(
    ms: Seq<MemberView>,
    h: Chronicle,
    v: NodeId,
    term: Term,
    log: Seq<EntryView>,
) -> bool {
    forall|t: Term, n: int| #[trigger]
        own(h, t, n) && t < term && n <= h.ack(v, t) ==> out(ms, h, t, n) || ahead(log, t, n)
}

pub open spec fn certain_by(
    ms: Seq<MemberView>,
    h: Chronicle,
    log: Seq<EntryView>,
    k: int,
    term: Term,
    t: Term,
    n: int,
) -> bool {
    t <= term && k <= n && chosen(ms, h, t, n) && shares(log, h.log(t), k)
}

/// The first `k` entries of the log are part of what was chosen, in this term or
/// before.
pub open spec fn certain(
    ms: Seq<MemberView>,
    h: Chronicle,
    log: Seq<EntryView>,
    k: int,
    term: Term,
) -> bool {
    k == 0 || exists|t: Term, n: int| #[trigger] certain_by(ms, h, log, k, term, t, n)
}

/// What the node said it has, it has.
pub open spec fn acks_kept(ms: Seq<MemberView>, h: Chronicle, s: NodeView) -> bool {
    &&& forall|t: Term|
        0 <= #[trigger] h.ack(s.id, t) && (h.ack(s.id, t) > 0 ==> t <= s.term
            && h.reigns.contains_key(t) && h.ack(s.id, t) <= h.log(t).len())
    &&& forall|t: Term, n: int| #[trigger]
        own(h, t, n) && n <= h.ack(s.id, t) ==> has_unless_out(ms, h, s.log, t, n)
    &&& h.reigns.contains_key(s.term) ==> shares(s.log, h.log(s.term), h.ack(s.id, s.term))
}

/// The node stands by its votes.
pub open spec fn votes_kept(h: Chronicle, s: NodeView) -> bool {
    &&& forall|t: Term| #[trigger]
        h.votes.contains_key((s.id, t)) ==> t <= s.term && (t == s.term ==> s.vote == Some(
            h.votes[(s.id, t)],
        ))
    &&& s.vote matches Some(c) ==> h.voted(s.id, s.term, c)
}

/// A leader is on record with its log, and counts on no more than was said.
pub open spec fn lead_kept(h: Chronicle, s: NodeView) -> bool {
    s.role == Role::Leader ==> {
        &&& h.reigns.contains_key(s.term)
        &&& h.reigns[s.term] == (Reign { leader: s.id, log: s.log })
        &&& h.ack(s.id, s.term) == s.log.len()
        &&& forall|p: NodeId| #[trigger]
            s.matched.contains_key(p) && p != s.id ==> s.matched[p] <= h.ack(p, s.term)
        &&& forall|p: NodeId| #[trigger]
            s.next.contains_key(p) ==> 1 <= s.next[p] <= s.log.len() + 1
    }
}

/// The voter has voted for the candidate, whose log is ahead of what it has.
pub open spec fn supports(
    ms: Seq<MemberView>,
    h: Chronicle,
    v: NodeId,
    term: Term,
    candidate: NodeId,
    log: Seq<EntryView>,
) -> bool {
    h.voted(v, term, candidate) && endorsed(ms, h, v, term, log)
}

/// The votes that a candidate counts were given to it.
pub open spec fn bid_kept(ms: Seq<MemberView>, h: Chronicle, s: NodeView) -> bool {
    s.role == Role::Candidate ==> forall|v: NodeId| #[trigger]
        s.votes.contains_key(v) && s.votes[v] ==> supports(ms, h, v, s.term, s.id, s.log)
}

/// The store is what the applied part of the log makes of an empty one.
pub open spec fn faithful(m: MemberView) -> bool {
    &&& m.node.applied <= m.node.commit <= m.node.log.len()
    &&& m.store == written_all(Map::empty(), writes_of(m.node.log.take(m.node.applied as int)))
}

/// The member agrees with the chronicle.
pub open spec fn member_kept(ms: Seq<MemberView>, h: Chronicle, m: MemberView) -> bool {
    &&& m.node.id == m.id
    &&& m.node.config.peers.len() + 1 == ms.len()
    &&& !m.node.config.peers.contains(m.id)
    &&& forall|i: int| 0 <= i < m.inbox.len() ==> (#[trigger] m.inbox[i]).to == m.id
    &&& bounded(m.node.log, m.node.term)
    &&& anchored(h, m.node.log)
    &&& acks_kept(ms, h, m.node)
    &&& votes_kept(h, m.node)
    &&& lead_kept(h, m.node)
    &&& bid_kept(ms, h, m.node)
    &&& certain(ms, h, m.node.log, m.node.commit as int, m.node.term)
    &&& faithful(m)
}

/// The member with this number leads in the term with this log, or is past it.
pub open spec fn leads_on(m: MemberView, t: Term, r: Reign) -> bool {
    m.id == r.leader && (m.node.term > t || (m.node.term == t && m.node.role == Role::Leader
        && m.node.log == r.log))
}

pub open spec fn elected_by(
    ms: Seq<MemberView>,
    h: Chronicle,
    q: Set<NodeId>,
    t: Term,
    c: NodeId,
) -> bool {
    &&& q.finite()
    &&& 2 * q.len() > ms.len()
    &&& forall|v: NodeId| q.contains(v) ==> #[trigger] h.voted(v, t, c)
}

/// The leader is or was there, with the votes of more than half of the cluster,
/// and its log has whatever was chosen in earlier terms.
pub open spec fn reign_kept(ms: Seq<MemberView>, h: Chronicle, t: Term) -> bool {
    let r = h.reigns[t];
    &&& bounded(r.log, t)
    &&& anchored(h, r.log)
    &&& exists|k: int| 0 <= k < ms.len() && leads_on(#[trigger] ms[k], t, r)
    &&& exists|q: Set<NodeId>| #[trigger] elected_by(ms, h, q, t, r.leader)
    &&& forall|u: Term, n: int| #[trigger]
        own(h, u, n) && u < t ==> has_unless_out(ms, h, r.log, u, n)
}

/// The stretch is part of the log, or stands right behind it.
pub open spec fn drawn(f: Stretch, log: Seq<EntryView>) -> bool {
    &&& 0 <= f.base
    &&& f.base + f.entries.len() <= log.len()
    &&& f.entries == log.subrange(f.base, f.base + f.entries.len())
    &&& f.base > 0 ==> f.term == log[f.base - 1].term
}

/// The candidate asked with the log that it has, as long as it stands.
pub open spec fn asks_for(m: MemberView, msg: MessageView, index: u64, term: Term) -> bool {
    m.id == msg.from && (m.node.term > msg.term || (m.node.term == msg.term && (m.node.role
        == Role::Candidate ==> index == m.node.log.len() && term == m.node.term_at(
        m.node.log.len() as int,
    ))))
}

/// The vote goes to a candidate that is ahead, as long as it stands.
pub open spec fn goes_to(
    ms: Seq<MemberView>,
    h: Chronicle,
    m: MemberView,
    msg: MessageView,
) -> bool {
    m.id == msg.to && (m.node.term > msg.term || (m.node.term == msg.term && (m.node.role
        == Role::Candidate ==> endorsed(ms, h, msg.from, msg.term, m.node.log))))
}

/// The message agrees with the chronicle.
pub open spec fn message_kept(ms: Seq<MemberView>, h: Chronicle, msg: MessageView) -> bool {
    match msg.body {
        BodyView::AppendEntries { leader_commit, .. } => {
            &&& msg.to != msg.from
            &&& h.reigns.contains_key(msg.term)
            &&& h.reigns[msg.term].leader == msg.from
            &&& drawn(stretch_of(msg), h.log(msg.term))
            &&& certain(ms, h, h.log(msg.term), leader_commit as int, msg.term)
        },
        BodyView::AppendResponse { success, match_index } => {
            &&& msg.to != msg.from
            &&& success ==> match_index <= h.ack(msg.from, msg.term)
        },
        BodyView::RequestVote { last_log_index, last_log_term } => exists|k: int|
            0 <= k < ms.len() && asks_for(#[trigger] ms[k], msg, last_log_index, last_log_term),
        BodyView::VoteResponse { granted } => granted ==> {
            &&& h.voted(msg.from, msg.term, msg.to)
            &&& exists|k: int| 0 <= k < ms.len() && goes_to(ms, h, #[trigger] ms[k], msg)
        },
        _ => true,
    }
}

/// Members and mail agree with the chronicle.
#[verifier::opaque]
pub open spec fn chronicled(ms: Seq<MemberView>, flight: Seq<MessageView>, h: Chronicle) -> bool {
    &&& ids_apart(ms)
    &&& forall|i: int| 0 <= i < ms.len() ==> member_kept(ms, h, #[trigger] ms[i])
    &&& forall|t: Term| #[trigger] h.reigns.contains_key(t) ==> reign_kept(ms, h, t)
    &&& forall|msg: MessageView| #[trigger] mailed(ms, flight, msg) ==> message_kept(ms, h, msg)
    &&& forall|v: NodeId, t: Term| #[trigger] h.ack(v, t) != 0 ==> is_member(ms, v)
    &&& forall|v: NodeId, t: Term| #[trigger] h.votes.contains_key((v, t)) ==> is_member(ms, v)
}

/// From one to the other, what was certain stays certain.
#[verifier::opaque]
pub open spec fn onward(
    ms: Seq<MemberView>,
    h: Chronicle,
    ns: Seq<MemberView>,
    g: Chronicle,
) -> bool {
    forall|log: Seq<EntryView>, k: int, t: Term|
        certain(ms, h, log, k, t) ==> #[trigger] certain(ns, g, log, k, t)
}

pub proof fn lemma_onward_same(ms: Seq<MemberView>, h: Chronicle)
    ensures
        onward(ms, h, ms, h),
{
    reveal(onward);
}

pub proof fn lemma_onward_more(
    ms: Seq<MemberView>,
    h: Chronicle,
    ns: Seq<MemberView>,
    g: Chronicle,
    os: Seq<MemberView>,
    f: Chronicle,
)
    requires
        onward(ms, h, ns, g),
        onward(ns, g, os, f),
    ensures
        onward(ms, h, os, f),
{
    reveal(onward);
    assert forall|log: Seq<EntryView>, k: int, t: Term| certain(ms, h, log, k, t) implies
        #[trigger] certain(os, f, log, k, t) by {
        assert(certain(ns, g, log, k, t));
    }
}

// ---- one member at a time --------------------------------------------------------------

/// The members, of which one has another node.
pub open spec fn with_node(ms: Seq<MemberView>, i: int, s: NodeView) -> Seq<MemberView> {
    ms.update(i, MemberView { node: s, ..ms[i] })
}

/// What a change of one node may add to the chronicle: in the term in which the
/// node comes to be, its vote, what it says it has, its reign or one more entry
/// of it.
pub open spec fn written_on(h: Chronicle, g: Chronicle, s: NodeView, t: NodeView) -> bool {
    &&& forall|u: Term| #[trigger]
        h.reigns.contains_key(u) ==> g.reigns.contains_key(u) && g.reigns[u].leader
            == h.reigns[u].leader && shares(h.log(u), g.log(u), h.log(u).len() as int)
    &&& forall|u: Term| #[trigger]
        g.reigns.contains_key(u) && !h.reigns.contains_key(u) ==> u == t.term && t.role
            == Role::Leader && g.log(u) == s.log
    &&& forall|u: Term| #[trigger]
        h.reigns.contains_key(u) && g.log(u) != h.log(u) ==> u == t.term && u == s.term && s.role
            == Role::Leader
    &&& forall|v: NodeId, u: Term|
        #![trigger g.ack(v, u)]
        #![trigger h.ack(v, u)]
        h.ack(v, u) <= g.ack(v, u) && (g.ack(v, u) != h.ack(v, u) ==> v == s.id && u == t.term)
    &&& forall|v: NodeId, u: Term| #[trigger]
        h.votes.contains_key((v, u)) ==> g.votes.contains_key((v, u)) && g.votes[(v, u)]
            == h.votes[(v, u)]
    &&& forall|v: NodeId, u: Term| #[trigger]
        g.votes.contains_key((v, u)) && !h.votes.contains_key((v, u)) ==> v == s.id && u == t.term
}

/// What a change of one node leaves alone.
pub open spec fn moves_on(s: NodeView, t: NodeView) -> bool {
    &&& t.id == s.id
    &&& t.config == s.config
    &&& t.term >= s.term
    &&& t.role == Role::Candidate && t.term == s.term ==> s.role == Role::Candidate && t.log
        == s.log
    &&& s.role == Role::Leader && t.term == s.term ==> t.role == Role::Leader
}

proof fn lemma_reached_on(ms: Seq<MemberView>, i: int, t: NodeView, v: NodeId, u: int)
    requires
        0 <= i < ms.len(),
        t.term >= ms[i].node.term,
    ensures
        reached(ms, v, u) ==> reached(with_node(ms, i, t), v, u),
        is_member(ms, v) ==> is_member(with_node(ms, i, t), v),
{
    let ns = with_node(ms, i, t);
    if reached(ms, v, u) {
        let k = choose|k: int|
            0 <= k < ms.len() && (#[trigger] ms[k]).id == v && ms[k].node.term >= u;
        assert(ns[k].id == v && ns[k].node.term >= u);
    }
    if is_member(ms, v) {
        let k = choose|k: int| 0 <= k < ms.len() && (#[trigger] ms[k]).id == v;
        assert(ns[k].id == v);
    }
}

/// A node that has gone past a term says no more in it.
proof fn lemma_silent(
    ms: Seq<MemberView>,
    h: Chronicle,
    g: Chronicle,
    i: int,
    t: NodeView,
    v: NodeId,
    u: Term,
)
    requires
        ids_apart(ms),
        0 <= i < ms.len(),
        ms[i].node.id == ms[i].id,
        moves_on(ms[i].node, t),
        written_on(h, g, ms[i].node, t),
        reached(ms, v, u + 1),
    ensures
        g.ack(v, u) == h.ack(v, u),
{
    if g.ack(v, u) != h.ack(v, u) {
        let k = choose|k: int|
            0 <= k < ms.len() && (#[trigger] ms[k]).id == v && ms[k].node.term >= u + 1;
        if k < i {
            assert(ms[k].id != ms[i].id);
        } else if i < k {
            assert(ms[i].id != ms[k].id);
        }
    }
}

/// What is out stays out.
pub proof fn lemma_out_on(
    ms: Seq<MemberView>,
    h: Chronicle,
    g: Chronicle,
    i: int,
    t: NodeView,
    u: Term,
    n: int,
)
    requires
        ids_apart(ms),
        0 <= i < ms.len(),
        ms[i].node.id == ms[i].id,
        moves_on(ms[i].node, t),
        written_on(h, g, ms[i].node, t),
        out(ms, h, u, n),
    ensures
        out(with_node(ms, i, t), g, u, n),
{
    let ns = with_node(ms, i, t);
    let q = choose|q: Set<NodeId>| #[trigger] most_without(ms, h, q, u, n);
    assert forall|v: NodeId| q.contains(v) implies #[trigger] without(ns, g, v, u, n) by {
        assert(without(ms, h, v, u, n));
        lemma_reached_on(ms, i, t, v, u + 1);
        lemma_silent(ms, h, g, i, t, v, u);
    }
    assert(most_without(ns, g, q, u, n));
}

/// What was an own place stays one, and what is one now and was there before was
/// one.
pub proof fn lemma_own_on(h: Chronicle, g: Chronicle, s: NodeView, t: NodeView, u: Term, n: int)
    requires
        written_on(h, g, s, t),
    ensures
        own(h, u, n) ==> own(g, u, n),
        own(g, u, n) && h.reigns.contains_key(u) && n <= h.log(u).len() ==> own(h, u, n),
{
    if h.reigns.contains_key(u) && 1 <= n <= h.log(u).len() {
        lemma_shares_less(h.log(u), g.log(u), h.log(u).len() as int, n);
    }
}

/// What is chosen stays chosen.
pub proof fn lemma_chosen_on(
    ms: Seq<MemberView>,
    h: Chronicle,
    g: Chronicle,
    i: int,
    t: NodeView,
    u: Term,
    n: int,
)
    requires
        0 <= i < ms.len(),
        moves_on(ms[i].node, t),
        written_on(h, g, ms[i].node, t),
        chosen(ms, h, u, n),
    ensures
        chosen(with_node(ms, i, t), g, u, n),
{
    let ns = with_node(ms, i, t);
    let q = choose|q: Set<NodeId>| #[trigger] most_vouch(ms, h, q, u, n);
    lemma_own_on(h, g, ms[i].node, t, u, n);
    assert forall|v: NodeId| q.contains(v) implies #[trigger] vouched(ns, g, v, u, n) by {
        assert(vouched(ms, h, v, u, n));
        lemma_reached_on(ms, i, t, v, 0);
    }
    assert(most_vouch(ns, g, q, u, n));
}

pub proof fn lemma_certain_on(
    ms: Seq<MemberView>,
    h: Chronicle,
    g: Chronicle,
    i: int,
    t: NodeView,
    log: Seq<EntryView>,
    k: int,
    term: Term,
)
    requires
        0 <= i < ms.len(),
        moves_on(ms[i].node, t),
        written_on(h, g, ms[i].node, t),
        certain(ms, h, log, k, term),
    ensures
        certain(with_node(ms, i, t), g, log, k, term),
{
    let ns = with_node(ms, i, t);
    if k != 0 {
        let (u, n) = choose|u: Term, n: int| #[trigger] certain_by(ms, h, log, k, term, u, n);
        lemma_chosen_on(ms, h, g, i, t, u, n);
        lemma_shares_longer(log, h.log(u), g.log(u), k);
        assert(certain_by(ns, g, log, k, term, u, n));
    }
}

pub proof fn lemma_anchored_on(h: Chronicle, g: Chronicle, s: NodeView, t: NodeView, log: Seq<EntryView>)
    requires
        written_on(h, g, s, t),
        anchored(h, log),
    ensures
        anchored(g, log),
{
    assert forall|i: int| 0 <= i < log.len() implies g.reigns.contains_key((#[trigger] log[i]).term)
        && shares(log, g.log(log[i].term), i + 1) by {
        let u = log[i].term;
        assert(h.reigns.contains_key(u));
        lemma_shares_longer(log, h.log(u), g.log(u), i + 1);
    }
}

pub proof fn lemma_has_on(
    ms: Seq<MemberView>,
    h: Chronicle,
    g: Chronicle,
    i: int,
    t: NodeView,
    log: Seq<EntryView>,
    u: Term,
    n: int,
)
    requires
        ids_apart(ms),
        0 <= i < ms.len(),
        ms[i].node.id == ms[i].id,
        moves_on(ms[i].node, t),
        written_on(h, g, ms[i].node, t),
        h.reigns.contains_key(u),
        has_unless_out(ms, h, log, u, n),
    ensures
        has_unless_out(with_node(ms, i, t), g, log, u, n),
{
    if shares(log, h.log(u), n) {
        lemma_shares_longer(log, h.log(u), g.log(u), n);
    } else {
        lemma_out_on(ms, h, g, i, t, u, n);
    }
}

/// A vote that was given stays given, and endorses what it endorsed.
pub proof fn lemma_endorsed_on(
    ms: Seq<MemberView>,
    flight: Seq<MessageView>,
    h: Chronicle,
    g: Chronicle,
    i: int,
    t: NodeView,
    v: NodeId,
    term: Term,
    log: Seq<EntryView>,
)
    requires
        chronicled(ms, flight, h),
        0 <= i < ms.len(),
        moves_on(ms[i].node, t),
        written_on(h, g, ms[i].node, t),
        h.votes.contains_key((v, term)),
        endorsed(ms, h, v, term, log),
    ensures
        endorsed(with_node(ms, i, t), g, v, term, log),
{
    reveal(chronicled);
    let ns = with_node(ms, i, t);
    assert(member_kept(ms, h, ms[i]));
    assert(is_member(ms, v));
    let k = choose|k: int| 0 <= k < ms.len() && (#[trigger] ms[k]).id == v;
    assert(member_kept(ms, h, ms[k]));
    assert(ms[k].node.term >= term);
    assert forall|u: Term, n: int| #[trigger]
        own(g, u, n) && u < term && n <= g.ack(v, u) implies out(ns, g, u, n) || ahead(
        log,
        u,
        n,
    ) by {
        assert(reached(ms, v, u + 1)) by {
            assert(ms[k].node.term >= u + 1);
        }
        lemma_silent(ms, h, g, i, t, v, u);
        assert(h.ack(ms[k].node.id, u) > 0);
        lemma_own_on(h, g, ms[i].node, t, u, n);
        assert(own(h, u, n));
        if out(ms, h, u, n) {
            lemma_out_on(ms, h, g, i, t, u, n);
        }
    }
}

/// The other members agree with the chronicle as it is written on.
proof fn lemma_others_kept(
    ms: Seq<MemberView>,
    flight: Seq<MessageView>,
    h: Chronicle,
    g: Chronicle,
    i: int,
    t: NodeView,
    j: int,
)
    requires
        chronicled(ms, flight, h),
        0 <= i < ms.len(),
        moves_on(ms[i].node, t),
        written_on(h, g, ms[i].node, t),
        0 <= j < ms.len(),
        j != i,
    ensures
        member_kept(with_node(ms, i, t), g, ms[j]),
{
    reveal(chronicled);
    let ns = with_node(ms, i, t);
    let m = ms[j];
    let s = m.node;
    assert(member_kept(ms, h, ms[i]));
    assert(member_kept(ms, h, ms[j]));
    assert(m.id != ms[i].id) by {
        if i < j {
            assert(ms[i].id != ms[j].id);
        } else {
            assert(ms[j].id != ms[i].id);
        }
    }
    lemma_anchored_on(h, g, ms[i].node, t, s.log);
    lemma_certain_on(ms, h, g, i, t, s.log, s.commit as int, s.term);
    assert(acks_kept(ns, g, s)) by {
        assert forall|u: Term|
            0 <= #[trigger] g.ack(s.id, u) && (g.ack(s.id, u) > 0 ==> u <= s.term
                && g.reigns.contains_key(u) && g.ack(s.id, u) <= g.log(u).len()) by {
            assert(h.ack(s.id, u) == g.ack(s.id, u));
            if g.ack(s.id, u) > 0 {
                assert(h.reigns.contains_key(u));
            }
        }
        assert forall|u: Term, n: int| #[trigger]
            own(g, u, n) && n <= g.ack(s.id, u) implies has_unless_out(ns, g, s.log, u, n) by {
            assert(h.ack(s.id, u) == g.ack(s.id, u));
            lemma_own_on(h, g, ms[i].node, t, u, n);
            assert(own(h, u, n));
            lemma_has_on(ms, h, g, i, t, s.log, u, n);
        }
        if g.reigns.contains_key(s.term) {
            assert(h.ack(s.id, s.term) == g.ack(s.id, s.term));
            if h.reigns.contains_key(s.term) {
                lemma_shares_longer(
                    s.log,
                    h.log(s.term),
                    g.log(s.term),
                    h.ack(s.id, s.term),
                );
            } else {
                assert(h.ack(s.id, s.term) == 0);
                assert(s.log.take(0) =~= g.log(s.term).take(0));
            }
        }
    }
    assert(votes_kept(g, s)) by {
        assert forall|u: Term| #[trigger] g.votes.contains_key((s.id, u)) implies u <= s.term && (u
            == s.term ==> s.vote == Some(g.votes[(s.id, u)])) by {
            assert(h.votes.contains_key((s.id, u)));
        }
    }
    assert(lead_kept(g, s)) by {
        if s.role == Role::Leader {
            let u = s.term;
            if g.log(u) != h.log(u) {
                // only the leader itself puts entries behind its log
                assert(lead_kept(h, ms[i].node));
            }
            assert(h.ack(s.id, u) == g.ack(s.id, u));
            assert forall|p: NodeId| #[trigger] s.matched.contains_key(p) && p != s.id implies
                s.matched[p] <= g.ack(p, s.term) by {
                assert(h.ack(p, u) <= g.ack(p, u));
            }
        }
    }
    assert(bid_kept(ns, g, s)) by {
        if s.role == Role::Candidate {
            assert forall|v: NodeId| #[trigger] s.votes.contains_key(v) && s.votes[v] implies supports(
                ns,
                g,
                v,
                s.term,
                s.id,
                s.log,
            ) by {
                assert(supports(ms, h, v, s.term, s.id, s.log));
                lemma_endorsed_on(ms, flight, h, g, i, t, v, s.term, s.log);
            }
        }
    }
}

/// The mail that was there agrees with the chronicle as it is written on.
pub proof fn lemma_mail_kept(
    ms: Seq<MemberView>,
    flight: Seq<MessageView>,
    h: Chronicle,
    g: Chronicle,
    i: int,
    t: NodeView,
    msg: MessageView,
)
    requires
        chronicled(ms, flight, h),
        0 <= i < ms.len(),
        moves_on(ms[i].node, t),
        written_on(h, g, ms[i].node, t),
        message_kept(ms, h, msg),
    ensures
        message_kept(with_node(ms, i, t), g, msg),
{
    reveal(chronicled);
    let ns = with_node(ms, i, t);
    let s = ms[i].node;
    assert(member_kept(ms, h, ms[i]));
    match msg.body {
        BodyView::AppendEntries { leader_commit, .. } => {
            let u = msg.term;
            let f = stretch_of(msg);
            let a = h.log(u);
            let b = g.log(u);
            assert(h.reigns.contains_key(u));
            lemma_shares_less(a, b, a.len() as int, f.base);
            assert(f.entries =~= b.subrange(f.base, f.base + f.entries.len())) by {
                assert forall|k: int| 0 <= k < f.entries.len() implies f.entries[k] == b[f.base
                    + k] by {
                    lemma_shares_less(a, b, a.len() as int, f.base + k + 1);
                }
            }
            lemma_certain_on(ms, h, g, i, t, a, leader_commit as int, u);
            if leader_commit != 0 {
                let (x, n) = choose|x: Term, n: int| #[trigger]
                    certain_by(ns, g, a, leader_commit as int, u, x, n);
                lemma_shares_less(a, b, a.len() as int, leader_commit as int);
                assert(certain_by(ns, g, b, leader_commit as int, u, x, n));
            }
        },
        BodyView::AppendResponse { success, match_index } => {
            assert(h.ack(msg.from, msg.term) <= g.ack(msg.from, msg.term));
        },
        BodyView::RequestVote { last_log_index, last_log_term } => {
            let k = choose|k: int|
                0 <= k < ms.len() && asks_for(#[trigger] ms[k], msg, last_log_index, last_log_term);
            assert(asks_for(ns[k], msg, last_log_index, last_log_term));
        },
        BodyView::VoteResponse { granted } => {
            if granted {
                let k = choose|k: int| 0 <= k < ms.len() && goes_to(ms, h, #[trigger] ms[k], msg);
                if endorsed(ms, h, msg.from, msg.term, ms[k].node.log) {
                    lemma_endorsed_on(
                        ms,
                        flight,
                        h,
                        g,
                        i,
                        t,
                        msg.from,
                        msg.term,
                        ms[k].node.log,
                    );
                }
                assert(goes_to(ns, g, ns[k], msg));
            }
        },
        _ => {},
    }
}

/// A reign that was there agrees with the chronicle as it is written on, if its
/// leader goes on.
proof fn lemma_reigns_kept(
    ms: Seq<MemberView>,
    flight: Seq<MessageView>,
    h: Chronicle,
    g: Chronicle,
    i: int,
    t: NodeView,
    u: Term,
)
    requires
        chronicled(ms, flight, h),
        0 <= i < ms.len(),
        moves_on(ms[i].node, t),
        written_on(h, g, ms[i].node, t),
        h.reigns.contains_key(u),
        bounded(g.log(u), u),
        anchored(g, g.log(u)),
        t.role == Role::Leader && t.term == ms[i].node.term ==> g.log(t.term) == t.log,
    ensures
        reign_kept(with_node(ms, i, t), g, u),
{
    reveal(chronicled);
    let ns = with_node(ms, i, t);
    let s = ms[i].node;
    let r = h.reigns[u];
    let w = g.reigns[u];
    assert(reign_kept(ms, h, u));
    assert(member_kept(ms, h, ms[i]));
    let k = choose|k: int| 0 <= k < ms.len() && leads_on(#[trigger] ms[k], u, r);
    assert(member_kept(ms, h, ms[k]));
    assert(leads_on(ns[k], u, w)) by {
        if k != i && g.log(u) != h.log(u) {
            // two leaders in one term
            assert(lead_kept(h, s));
            if k < i {
                assert(ms[k].id != ms[i].id);
            } else {
                assert(ms[i].id != ms[k].id);
            }
        }
    }
    let q = choose|q: Set<NodeId>| #[trigger] elected_by(ms, h, q, u, r.leader);
    assert forall|v: NodeId| q.contains(v) implies #[trigger] g.voted(v, u, w.leader) by {
        assert(h.voted(v, u, r.leader));
    }
    assert(elected_by(ns, g, q, u, w.leader));
    assert forall|x: Term, n: int| #[trigger] own(g, x, n) && x < u implies has_unless_out(
        ns,
        g,
        w.log,
        x,
        n,
    ) by {
        lemma_own_on(h, g, s, t, x, n);
        if own(h, x, n) {
            lemma_has_on(ms, h, g, i, t, r.log, x, n);
            if shares(r.log, g.log(x), n) {
                lemma_shares_less(r.log, w.log, r.log.len() as int, n);
            }
        } else {
            // the entry is new, and those who voted are past its term
            if !h.reigns.contains_key(x) {
                assert(g.log(x) == s.log);
                assert(anchored(h, s.log));
                assert(h.reigns.contains_key(s.log[n - 1].term));
            }
            assert forall|v: NodeId| q.contains(v) implies #[trigger] without(ns, g, v, x, n) by {
                assert(h.voted(v, u, r.leader));
                assert(is_member(ms, v));
                let l = choose|l: int| 0 <= l < ms.len() && (#[trigger] ms[l]).id == v;
                assert(member_kept(ms, h, ms[l]));
                assert(h.votes.contains_key((ms[l].node.id, u)));
                assert(ms[l].node.term >= x + 1);
                assert(reached(ms, v, x + 1));
                lemma_reached_on(ms, i, t, v, x + 1);
                lemma_silent(ms, h, g, i, t, v, x);
                assert(h.ack(ms[l].node.id, x) <= h.log(x).len());
            }
            assert(most_without(ns, g, q, x, n));
        }
    }
}

/// A change of one node that is written down keeps all in agreement, if the node
/// itself, what it sends and its reign agree.
pub proof fn lemma_change(
    ms: Seq<MemberView>,
    flight: Seq<MessageView>,
    h: Chronicle,
    g: Chronicle,
    i: int,
    t: NodeView,
)
    requires
        chronicled(ms, flight, h),
        0 <= i < ms.len(),
        moves_on(ms[i].node, t),
        written_on(h, g, ms[i].node, t),
        member_kept(with_node(ms, i, t), g, MemberView { node: t, ..ms[i] }),
        forall|u: Term| #[trigger]
            g.reigns.contains_key(u) && !h.reigns.contains_key(u) ==> reign_kept(
                with_node(ms, i, t),
                g,
                u,
            ),
        forall|msg: MessageView| #[trigger]
            t.outbox.contains(msg) && !ms[i].node.outbox.contains(msg) ==> message_kept(
                with_node(ms, i, t),
                g,
                msg,
            ),
    ensures
        chronicled(with_node(ms, i, t), flight, g),
        onward(ms, h, with_node(ms, i, t), g),
{
    reveal(chronicled);
    reveal(onward);
    assert forall|log: Seq<EntryView>, k: int, u: Term| certain(ms, h, log, k, u) implies
        #[trigger] certain(with_node(ms, i, t), g, log, k, u) by {
        lemma_certain_on(ms, h, g, i, t, log, k, u);
    }
    let ns = with_node(ms, i, t);
    let s = ms[i].node;
    assert(member_kept(ms, h, ms[i]));
    assert(ids_apart(ns)) by {
        assert forall|a: int, b: int| 0 <= a < b < ns.len() implies (#[trigger] ns[a]).id != (
        #[trigger] ns[b]).id by {
            assert(ms[a].id != ms[b].id);
        }
    }
    assert forall|j: int| 0 <= j < ns.len() implies member_kept(ns, g, #[trigger] ns[j]) by {
        if j != i {
            lemma_others_kept(ms, flight, h, g, i, t, j);
        }
    }
    assert forall|u: Term| #[trigger] g.reigns.contains_key(u) implies reign_kept(ns, g, u) by {
        if h.reigns.contains_key(u) {
            assert(reign_kept(ms, h, u));
            if g.log(u) != h.log(u) {
                assert(lead_kept(g, t));
            } else {
                lemma_anchored_on(h, g, s, t, h.log(u));
            }
            lemma_reigns_kept(ms, flight, h, g, i, t, u);
        }
    }
    assert forall|msg: MessageView| #[trigger] mailed(ns, flight, msg) implies message_kept(
        ns,
        g,
        msg,
    ) by {
        if !(t.outbox.contains(msg) && !s.outbox.contains(msg)) {
            assert(mailed(ms, flight, msg)) by {
                if !flight.contains(msg) {
                    let k = choose|k: int| 0 <= k < ns.len() && mail_at(#[trigger] ns[k], msg);
                    assert(mail_at(ms[k], msg));
                }
            }
            lemma_mail_kept(ms, flight, h, g, i, t, msg);
        }
    }
    assert forall|v: NodeId, u: Term| #[trigger] g.ack(v, u) != 0 implies is_member(ns, v) by {
        lemma_reached_on(ms, i, t, v, 0);
        if g.ack(v, u) != h.ack(v, u) {
            assert(ns[i].id == v);
        } else {
            assert(h.ack(v, u) != 0);
        }
    }
    assert forall|v: NodeId, u: Term| #[trigger] g.votes.contains_key((v, u)) implies is_member(
        ns,
        v,
    ) by {
        lemma_reached_on(ms, i, t, v, 0);
        if !h.votes.contains_key((v, u)) {
            assert(ns[i].id == v);
        }
    }
}

} // verus!
