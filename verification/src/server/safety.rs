//! What a cluster has committed is committed for good.
//!
//! Two members that have committed the same place have the same entry there; more
//! than half of the cluster has it; and so has every leader of a later term. So
//! the stores of two members that have come equally far are the same. This holds
//! over any course of ticks, rounds, proposals and faults, at whatever times the
//! two are looked at.

use vstd::prelude::*;

use crate::raft::commits::{self, prompt};
use crate::raft::laws::{self, indexed};
use crate::raft::state::{proposed, stepped, ticked, to_apply, NodeView, Role};
use crate::raft::types::{BodyView, EntryView, MessageView};
use crate::server::chronicle::{
    acks_kept, asks_for, bid_kept, certain, certain_by, chosen, chronicled, elected_by, endorsed,
    faithful, goes_to, has_unless_out, is_member, leads_on, lemma_chosen_in, lemma_ids,
    lemma_onward_more, lemma_onward_same, lemma_shares_less, member_kept, message_kept, most_vouch,
    most_without, onward, out, own, reached, reign_kept, shares, supports, vouched, with_node,
    without, Chronicle,
};
use crate::server::cluster_state::{
    after_round, all_sent, all_settled, all_ticked, all_worked, fresh_cluster, fresh_member,
    settled_member, stepped_all, ticked_member, worked, ClusterView, MemberView,
};
use crate::server::election::{ids_apart, logs_fit, member_ok, partly_ticked, partly_worked};
use crate::server::matching::{self, ids_of, in_line, mail_at, mailed};
use crate::server::record;
use crate::server::replication::with_proposal;
use crate::server::state_machine::writes_of;
use crate::storage::engine::{lemma_written_more, written_all};
use crate::types::{NodeId, Term};

verus! {

/// What has happened can be written down.
pub open spec fn recorded(ms: Seq<MemberView>, flight: Seq<MessageView>) -> bool {
    exists|h: Chronicle| #[trigger] chronicled(ms, flight, h)
}

/// No leader has left anything that it may commit.
pub open spec fn all_prompt(ms: Seq<MemberView>) -> bool {
    forall|i: int| 0 <= i < ms.len() ==> prompt((#[trigger] ms[i]).node)
}

/// Votes agree, logs match, what has happened can be written down, and leaders
/// have committed what they may.
pub open spec fn regular(c: ClusterView) -> bool {
    in_line(c) && recorded(c.members, seq![]) && all_prompt(c.members)
}

// ---- laws ------------------------------------------------------------------------------

/// Two logs whose beginnings are certain begin with the same entries.
proof fn lemma_both_certain(
    ms: Seq<MemberView>,
    flight: Seq<MessageView>,
    h: Chronicle,
    a: Seq<EntryView>,
    m: int,
    v: Term,
    b: Seq<EntryView>,
    w: int,
    x: Term,
    at: int,
)
    requires
        chronicled(ms, flight, h),
        certain(ms, h, a, m, v),
        certain(ms, h, b, w, x),
        1 <= at <= m,
        at <= w,
    ensures
        shares(a, b, at),
{
    reveal(chronicled);
    let (t, n) = choose|t: Term, n: int| #[trigger] certain_by(ms, h, a, m, v, t, n);
    let (u, k) = choose|u: Term, k: int| #[trigger] certain_by(ms, h, b, w, x, u, k);
    lemma_chosen_in(ms, h, t, n);
    lemma_chosen_in(ms, h, u, k);
    lemma_shares_less(a, h.log(t), m, at);
    lemma_shares_less(b, h.log(u), w, at);
    if t < u {
        assert(reign_kept(ms, h, u));
        assert(has_unless_out(ms, h, h.log(u), t, n));
        lemma_shares_less(h.log(u), h.log(t), n, at);
    } else if u < t {
        assert(reign_kept(ms, h, t));
        assert(has_unless_out(ms, h, h.log(t), u, k));
        lemma_shares_less(h.log(t), h.log(u), k, at);
    }
}

/// What a member has committed is certain.
proof fn lemma_committed_certain(
    ms: Seq<MemberView>,
    flight: Seq<MessageView>,
    h: Chronicle,
    i: int,
)
    requires
        chronicled(ms, flight, h),
        0 <= i < ms.len(),
    ensures
        certain(ms, h, ms[i].node.log, ms[i].node.commit as int, ms[i].node.term),
        ms[i].node.applied <= ms[i].node.commit <= ms[i].node.log.len(),
{
    reveal(chronicled);
    assert(member_kept(ms, h, ms[i]));
}

/// Two members have the same entries as far as both have committed.
proof fn lemma_certain_agree(
    ms: Seq<MemberView>,
    flight: Seq<MessageView>,
    h: Chronicle,
    i: int,
    j: int,
    at: int,
)
    requires
        chronicled(ms, flight, h),
        0 <= i < ms.len(),
        0 <= j < ms.len(),
        0 <= at <= ms[i].node.commit,
        at <= ms[j].node.commit,
    ensures
        shares(ms[i].node.log, ms[j].node.log, at),
{
    let a = ms[i].node;
    let b = ms[j].node;
    lemma_committed_certain(ms, flight, h, i);
    lemma_committed_certain(ms, flight, h, j);
    if at == 0 {
        assert(a.log.take(0) =~= b.log.take(0));
    } else {
        lemma_both_certain(
            ms,
            flight,
            h,
            a.log,
            a.commit as int,
            a.term,
            b.log,
            b.commit as int,
            b.term,
            at,
        );
    }
}

/// Members that have committed the same place have the same entry there, and
/// before it.
pub proof fn lemma_committed_agree(c: ClusterView, i: int, j: int, at: int)
    requires
        regular(c),
        0 <= i < c.members.len(),
        0 <= j < c.members.len(),
        1 <= at <= c.members[i].node.commit,
        at <= c.members[j].node.commit,
    ensures
        at <= c.members[i].node.log.len(),
        at <= c.members[j].node.log.len(),
        c.members[i].node.log[at - 1] == c.members[j].node.log[at - 1],
        c.members[i].node.log.take(at) == c.members[j].node.log.take(at),
{
    let ms = c.members;
    let none = Seq::<MessageView>::empty();
    let h = choose|h: Chronicle| #[trigger] chronicled(ms, none, h);
    lemma_certain_agree(ms, none, h, i, j, at);
    lemma_shares_less(ms[i].node.log, ms[j].node.log, at, at);
}

/// A leader has what is certain of its term, or of an earlier one.
proof fn lemma_leader_certain(
    ms: Seq<MemberView>,
    flight: Seq<MessageView>,
    h: Chronicle,
    log: Seq<EntryView>,
    k: int,
    term: Term,
    j: int,
    at: int,
)
    requires
        chronicled(ms, flight, h),
        certain(ms, h, log, k, term),
        1 <= at <= k,
        0 <= j < ms.len(),
        ms[j].node.role == Role::Leader,
        term <= ms[j].node.term,
    ensures
        shares(ms[j].node.log, log, at),
{
    reveal(chronicled);
    let b = ms[j].node;
    assert(member_kept(ms, h, ms[j]));
    let (t, n) = choose|t: Term, n: int| #[trigger] certain_by(ms, h, log, k, term, t, n);
    lemma_chosen_in(ms, h, t, n);
    lemma_shares_less(log, h.log(t), k, at);
    assert(shares(b.log, h.log(t), n)) by {
        assert(h.log(b.term) == b.log);
        if t < b.term {
            assert(reign_kept(ms, h, b.term));
            assert(has_unless_out(ms, h, b.log, t, n));
        } else {
            lemma_shares_less(b.log, b.log, b.log.len() as int, n);
        }
    }
    lemma_shares_less(b.log, h.log(t), n, at);
}

/// A leader has every entry that was committed by any member whose term is not
/// later: what is committed is not lost by an election.
pub proof fn lemma_leader_complete(c: ClusterView, i: int, j: int, at: int)
    requires
        regular(c),
        0 <= i < c.members.len(),
        0 <= j < c.members.len(),
        1 <= at <= c.members[i].node.commit,
        c.members[j].node.role == Role::Leader,
        c.members[i].node.term <= c.members[j].node.term,
    ensures
        at <= c.members[j].node.log.len(),
        c.members[j].node.log[at - 1] == c.members[i].node.log[at - 1],
        c.members[j].node.log.take(at) == c.members[i].node.log.take(at),
{
    let ms = c.members;
    let none = Seq::<MessageView>::empty();
    let h = choose|h: Chronicle| #[trigger] chronicled(ms, none, h);
    let a = ms[i].node;
    lemma_committed_certain(ms, none, h, i);
    lemma_leader_certain(ms, none, h, a.log, a.commit as int, a.term, j, at);
    lemma_shares_less(ms[j].node.log, a.log, at, at);
}

/// The members that have the entry of a log at a place.
pub open spec fn holders_of(ms: Seq<MemberView>, log: Seq<EntryView>, at: int) -> Set<NodeId> {
    Set::new(
        |v: NodeId|
            exists|k: int|
                0 <= k < ms.len() && (#[trigger] ms[k]).id == v && shares(ms[k].node.log, log, at),
    )
}

/// What a member has committed more than half of the cluster has, with all that
/// comes before it.
pub proof fn lemma_committed_held(c: ClusterView, i: int, at: int)
    requires
        regular(c),
        0 <= i < c.members.len(),
        1 <= at <= c.members[i].node.commit,
    ensures
        holders_of(c.members, c.members[i].node.log, at).finite(),
        2 * holders_of(c.members, c.members[i].node.log, at).len() > c.members.len(),
{
    reveal(chronicled);
    let ms = c.members;
    let none = Seq::<MessageView>::empty();
    let h = choose|h: Chronicle| #[trigger] chronicled(ms, none, h);
    let a = ms[i].node;
    assert(member_kept(ms, h, ms[i]));
    let (t, n) = choose|t: Term, n: int| #[trigger]
        certain_by(ms, h, a.log, a.commit as int, a.term, t, n);
    lemma_chosen_in(ms, h, t, n);
    lemma_shares_less(a.log, h.log(t), a.commit as int, at);
    let q = choose|q: Set<NodeId>| #[trigger] most_vouch(ms, h, q, t, n);
    let all = holders_of(ms, a.log, at);
    lemma_ids(ms);
    assert(all.subset_of(ids_of(ms)));
    vstd::set_lib::lemma_len_subset(all, ids_of(ms));
    assert(q.subset_of(all)) by {
        assert forall|v: NodeId| q.contains(v) implies all.contains(v) by {
            assert(vouched(ms, h, v, t, n));
            let k = choose|k: int| 0 <= k < ms.len() && (#[trigger] ms[k]).id == v;
            assert(member_kept(ms, h, ms[k]));
            assert(h.ack(ms[k].node.id, t) >= n);
            assert(own(h, t, n));
            assert(has_unless_out(ms, h, ms[k].node.log, t, n));
            lemma_shares_less(ms[k].node.log, h.log(t), n, at);
            assert(ms[k].id == v && shares(ms[k].node.log, a.log, at));
        }
    }
    vstd::set_lib::lemma_len_subset(q, all);
}

/// What at most half of the cluster has is not committed anywhere: a leader that
/// is cut off with a minority commits nothing of what it takes on.
pub proof fn lemma_minority_commits_nothing(c: ClusterView, i: int, at: int)
    requires
        regular(c),
        0 <= i < c.members.len(),
        1 <= at <= c.members[i].node.log.len(),
        2 * holders_of(c.members, c.members[i].node.log, at).len() <= c.members.len(),
    ensures
        c.members[i].node.commit < at,
{
    if at <= c.members[i].node.commit {
        lemma_committed_held(c, i, at);
    }
}

/// What a leader has heard of a member that is in its term, or has not come to it
/// yet, is true: both logs are the same up to there.
pub proof fn lemma_matched_shared(c: ClusterView, i: int, j: int)
    requires
        regular(c),
        0 <= i < c.members.len(),
        0 <= j < c.members.len(),
        i != j,
        c.members[i].node.role == Role::Leader,
        c.members[j].node.term <= c.members[i].node.term,
        c.members[i].node.matched.contains_key(c.members[j].id),
    ensures
        ({
            let k = c.members[i].node.matched[c.members[j].id] as int;
            &&& k <= c.members[i].node.log.len()
            &&& k <= c.members[j].node.log.len()
            &&& c.members[i].node.log.take(k) == c.members[j].node.log.take(k)
        }),
{
    reveal(chronicled);
    let ms = c.members;
    let none = Seq::<MessageView>::empty();
    let h = choose|h: Chronicle| #[trigger] chronicled(ms, none, h);
    let a = ms[i].node;
    let b = ms[j].node;
    let k = a.matched[ms[j].id] as int;
    assert(member_kept(ms, h, ms[i]));
    assert(member_kept(ms, h, ms[j]));
    if i < j {
        assert(ms[i].id != ms[j].id);
    } else {
        assert(ms[j].id != ms[i].id);
    }
    assert(a.matched[b.id] <= h.ack(b.id, a.term));
    if k > 0 {
        assert(h.ack(b.id, a.term) > 0);
        assert(b.term == a.term);
        lemma_shares_less(b.log, a.log, h.ack(b.id, a.term), k);
    } else {
        assert(a.log.take(0) =~= b.log.take(0));
    }
}

/// The stores of two members that have applied equally much are the same, and
/// each is what the committed commands make of an empty one.
pub proof fn lemma_stores_agree(c: ClusterView, i: int, j: int)
    requires
        regular(c),
        0 <= i < c.members.len(),
        0 <= j < c.members.len(),
        c.members[i].node.applied == c.members[j].node.applied,
    ensures
        c.members[i].store == c.members[j].store,
        c.members[i].node.applied <= c.members[i].node.commit,
        c.members[i].store == written_all(
            Map::empty(),
            writes_of(c.members[i].node.log.take(c.members[i].node.applied as int)),
        ),
{
    let ms = c.members;
    let none = Seq::<MessageView>::empty();
    let h = choose|h: Chronicle| #[trigger] chronicled(ms, none, h);
    assert(member_kept(ms, h, ms[i]) && member_kept(ms, h, ms[j])) by {
        reveal(chronicled);
    }
    lemma_certain_agree(ms, none, h, i, j, ms[i].node.applied as int);
}

// ---- mail ------------------------------------------------------------------------------

/// The member is what it was, apart from mail and from what it has applied.
spec fn alike(m: MemberView, n: MemberView) -> bool {
    n.id == m.id && n.node == (NodeView {
        outbox: n.node.outbox,
        news: n.node.news,
        applied: n.node.applied,
        ..m.node
    })
}

/// What is out or certain depends only on who is in which term.
proof fn lemma_alike(ms: Seq<MemberView>, ns: Seq<MemberView>, h: Chronicle)
    requires
        ns.len() == ms.len(),
        forall|i: int| 0 <= i < ms.len() ==> alike(ms[i], #[trigger] ns[i]),
    ensures
        forall|v: NodeId| is_member(ms, v) ==> #[trigger] is_member(ns, v),
        forall|t: Term, n: int| out(ms, h, t, n) ==> #[trigger] out(ns, h, t, n),
        forall|t: Term, n: int| chosen(ms, h, t, n) ==> #[trigger] chosen(ns, h, t, n),
        forall|log: Seq<EntryView>, k: int, t: Term|
            certain(ms, h, log, k, t) ==> #[trigger] certain(ns, h, log, k, t),
        forall|v: NodeId, t: Term, log: Seq<EntryView>|
            endorsed(ms, h, v, t, log) ==> #[trigger] endorsed(ns, h, v, t, log),
{
    assert forall|v: NodeId, t: int| reached(ms, v, t) implies #[trigger] reached(ns, v, t) by {
        let k = choose|k: int|
            0 <= k < ms.len() && (#[trigger] ms[k]).id == v && ms[k].node.term >= t;
        assert(alike(ms[k], ns[k]));
    }
    assert forall|v: NodeId| is_member(ms, v) implies #[trigger] is_member(ns, v) by {
        let k = choose|k: int| 0 <= k < ms.len() && (#[trigger] ms[k]).id == v;
        assert(alike(ms[k], ns[k]));
    }
    assert forall|t: Term, n: int| out(ms, h, t, n) implies #[trigger] out(ns, h, t, n) by {
        let q = choose|q: Set<NodeId>| #[trigger] most_without(ms, h, q, t, n);
        assert forall|v: NodeId| q.contains(v) implies #[trigger] without(ns, h, v, t, n) by {
            assert(without(ms, h, v, t, n));
        }
        assert(most_without(ns, h, q, t, n));
    }
    assert forall|t: Term, n: int| chosen(ms, h, t, n) implies #[trigger] chosen(ns, h, t, n) by {
        let q = choose|q: Set<NodeId>| #[trigger] most_vouch(ms, h, q, t, n);
        assert forall|v: NodeId| q.contains(v) implies #[trigger] vouched(ns, h, v, t, n) by {
            assert(vouched(ms, h, v, t, n));
        }
        assert(most_vouch(ns, h, q, t, n));
    }
    assert forall|log: Seq<EntryView>, k: int, t: Term| certain(ms, h, log, k, t) implies
        #[trigger] certain(ns, h, log, k, t) by {
        if k != 0 {
            let (u, n) = choose|u: Term, n: int| #[trigger] certain_by(ms, h, log, k, t, u, n);
            assert(certain_by(ns, h, log, k, t, u, n));
        }
    }
}

/// If nothing changes but mail, of which there is no more, and what the members
/// have applied, all stays in agreement.
proof fn lemma_less_mail(
    ms: Seq<MemberView>,
    flight: Seq<MessageView>,
    ns: Seq<MemberView>,
    rest: Seq<MessageView>,
    h: Chronicle,
)
    requires
        chronicled(ms, flight, h),
        ns.len() == ms.len(),
        forall|i: int| 0 <= i < ms.len() ==> alike(ms[i], #[trigger] ns[i]),
        forall|i: int| 0 <= i < ns.len() ==> faithful(#[trigger] ns[i]),
        forall|i: int, k: int|
            0 <= i < ns.len() && 0 <= k < ns[i].inbox.len() ==> (#[trigger] ns[i].inbox[k]).to
                == ns[i].id,
        forall|msg: MessageView| #[trigger] mailed(ns, rest, msg) ==> mailed(ms, flight, msg),
    ensures
        chronicled(ns, rest, h),
        onward(ms, h, ns, h),
{
    reveal(chronicled);
    reveal(onward);
    lemma_alike(ms, ns, h);
    assert(ids_apart(ns)) by {
        assert forall|a: int, b: int| 0 <= a < b < ns.len() implies (#[trigger] ns[a]).id != (
        #[trigger] ns[b]).id by {
            assert(ms[a].id != ms[b].id);
            assert(alike(ms[a], ns[a]) && alike(ms[b], ns[b]));
        }
    }
    assert forall|i: int| 0 <= i < ns.len() implies member_kept(ns, h, #[trigger] ns[i]) by {
        assert(member_kept(ms, h, ms[i]));
        assert(alike(ms[i], ns[i]));
        let s = ms[i].node;
        let t = ns[i].node;
        assert(acks_kept(ns, h, t)) by {
            assert forall|u: Term, n: int| #[trigger]
                own(h, u, n) && n <= h.ack(t.id, u) implies has_unless_out(ns, h, t.log, u, n) by {
                assert(has_unless_out(ms, h, s.log, u, n));
            }
        }
        assert(bid_kept(ns, h, t)) by {
            assert forall|v: NodeId| #[trigger] t.votes.contains_key(v) && t.votes[v] && t.role
                == Role::Candidate implies supports(ns, h, v, t.term, t.id, t.log) by {
                assert(supports(ms, h, v, s.term, s.id, s.log));
            }
        }
    }
    assert forall|t: Term| #[trigger] h.reigns.contains_key(t) implies reign_kept(ns, h, t) by {
        assert(reign_kept(ms, h, t));
        let r = h.reigns[t];
        let k = choose|k: int| 0 <= k < ms.len() && leads_on(#[trigger] ms[k], t, r);
        assert(alike(ms[k], ns[k]));
        assert(leads_on(ns[k], t, r));
        let q = choose|q: Set<NodeId>| #[trigger] elected_by(ms, h, q, t, r.leader);
        assert(elected_by(ns, h, q, t, r.leader));
        assert forall|u: Term, n: int| #[trigger] own(h, u, n) && u < t implies has_unless_out(
            ns,
            h,
            r.log,
            u,
            n,
        ) by {
            assert(has_unless_out(ms, h, r.log, u, n));
        }
    }
    assert forall|msg: MessageView| #[trigger] mailed(ns, rest, msg) implies message_kept(
        ns,
        h,
        msg,
    ) by {
        assert(message_kept(ms, h, msg));
        match msg.body {
            BodyView::RequestVote { last_log_index, last_log_term } => {
                let k = choose|k: int|
                    0 <= k < ms.len() && asks_for(
                        #[trigger] ms[k],
                        msg,
                        last_log_index,
                        last_log_term,
                    );
                assert(alike(ms[k], ns[k]));
                assert(asks_for(ns[k], msg, last_log_index, last_log_term));
            },
            BodyView::VoteResponse { granted } => {
                if granted {
                    let k = choose|k: int|
                        0 <= k < ms.len() && goes_to(ms, h, #[trigger] ms[k], msg);
                    assert(alike(ms[k], ns[k]));
                    assert(goes_to(ns, h, ns[k], msg));
                }
            },
            _ => {},
        }
    }
}

/// Dropping mail, and stopping a member or letting it go on.
proof fn lemma_dropped(
    ms: Seq<MemberView>,
    h: Chronicle,
    i: int,
    alive: bool,
    inbox: Seq<MessageView>,
)
    requires
        chronicled(ms, seq![], h),
        0 <= i < ms.len(),
        inbox == ms[i].inbox || inbox.len() == 0,
    ensures
        chronicled(ms.update(i, MemberView { alive, inbox, ..ms[i] }), seq![], h),
        onward(ms, h, ms.update(i, MemberView { alive, inbox, ..ms[i] }), h),
{
    let none = Seq::<MessageView>::empty();
    let ns = ms.update(i, MemberView { alive, inbox, ..ms[i] });
    lemma_members(ms, none, h);
    assert forall|msg: MessageView| #[trigger] mailed(ns, none, msg) implies mailed(
        ms,
        none,
        msg,
    ) by {
        let k = choose|k: int| 0 <= k < ns.len() && mail_at(#[trigger] ns[k], msg);
        assert(mail_at(ms[k], msg));
    }
    assert forall|j: int, k: int|
        0 <= j < ns.len() && 0 <= k < ns[j].inbox.len() implies (#[trigger] ns[j].inbox[k]).to
        == ns[j].id by {
        assert(ms[j].inbox[k].to == ms[j].id);
    }
    assert forall|j: int| 0 <= j < ns.len() implies faithful(#[trigger] ns[j]) by {
        assert(faithful(ms[j]));
    }
    lemma_less_mail(ms, none, ns, none, h);
}

/// What the chronicle says of each member by itself.
proof fn lemma_members(ms: Seq<MemberView>, flight: Seq<MessageView>, h: Chronicle)
    requires
        chronicled(ms, flight, h),
    ensures
        forall|i: int| 0 <= i < ms.len() ==> faithful(#[trigger] ms[i]),
        forall|i: int, k: int|
            0 <= i < ms.len() && 0 <= k < ms[i].inbox.len() ==> (#[trigger] ms[i].inbox[k]).to
                == ms[i].id,
        forall|i: int|
            0 <= i < ms.len() ==> indexed((#[trigger] ms[i]).node.log) && ms[i].node.log.len()
                <= u64::MAX,
        forall|msg: MessageView| #[trigger] mailed(ms, flight, msg) ==> message_kept(ms, h, msg),
{
    reveal(chronicled);
    assert forall|i: int| 0 <= i < ms.len() implies faithful(#[trigger] ms[i]) && indexed(
        ms[i].node.log,
    ) && ms[i].node.log.len() <= u64::MAX by {
        assert(member_kept(ms, h, ms[i]));
    }
    assert forall|i: int, k: int|
        0 <= i < ms.len() && 0 <= k < ms[i].inbox.len() implies (#[trigger] ms[i].inbox[k]).to
        == ms[i].id by {
        assert(member_kept(ms, h, ms[i]));
    }
}

// ---- the cluster -----------------------------------------------------------------------

proof fn lemma_ticks_recorded(ms: Seq<MemberView>, h: Chronicle, n: int) -> (g: Chronicle)
    requires
        chronicled(ms, seq![], h),
        0 <= n <= ms.len(),
        forall|i: int|
            0 <= i < ms.len() && (#[trigger] ms[i]).alive ==> ms[i].node.term < u64::MAX,
    ensures
        chronicled(partly_ticked(ms, n), seq![], g),
        onward(ms, h, partly_ticked(ms, n), g),
    decreases n,
{
    let none = Seq::<MessageView>::empty();
    if n == 0 {
        assert(partly_ticked(ms, 0) =~= ms);
        lemma_onward_same(ms, h);
        h
    } else {
        let f = lemma_ticks_recorded(ms, h, n - 1);
        let prior = partly_ticked(ms, n - 1);
        let m = ms[n - 1];
        assert(prior[n - 1] == m);
        if m.alive {
            let g = record::lemma_ticks(prior, none, f, n - 1);
            assert(with_node(prior, n - 1, ticked(m.node)) =~= partly_ticked(ms, n));
            lemma_onward_more(ms, h, prior, f, partly_ticked(ms, n), g);
            g
        } else {
            assert(prior =~= partly_ticked(ms, n));
            f
        }
    }
}

proof fn lemma_ticked_recorded(c: ClusterView, h: Chronicle) -> (g: Chronicle)
    requires
        chronicled(c.members, seq![], h),
        forall|i: int|
            0 <= i < c.members.len() && (#[trigger] c.members[i]).alive
                ==> c.members[i].node.term < u64::MAX,
    ensures
        chronicled(all_ticked(c).members, seq![], g),
        onward(c.members, h, all_ticked(c).members, g),
{
    let n = c.members.len() as int;
    assert(partly_ticked(c.members, n) =~= all_ticked(c).members);
    lemma_ticks_recorded(c.members, h, n)
}

/// Ticks keep a cluster regular.
pub proof fn lemma_ticked_regular(c: ClusterView)
    requires
        regular(c),
        forall|i: int|
            0 <= i < c.members.len() && (#[trigger] c.members[i]).alive
                ==> c.members[i].node.term < u64::MAX,
    ensures
        regular(all_ticked(c)),
{
    let n = c.members.len() as int;
    matching::lemma_ticked_in_line(c);
    let h = choose|h: Chronicle| #[trigger] chronicled(c.members, seq![], h);
    let g = lemma_ticked_recorded(c, h);
    assert forall|i: int| 0 <= i < n implies prompt((#[trigger] all_ticked(c).members[i]).node) by {
        let m = c.members[i];
        assert(prompt(c.members[i].node));
        assert(member_ok(c.members[i], n));
        assert(all_ticked(c).members[i] == ticked_member(m));
        if m.alive {
            commits::lemma_tick_prompt(m.node);
        }
    }
}

proof fn lemma_steps_recorded(ms: Seq<MemberView>, h: Chronicle, i: int, k: int) -> (g: Chronicle)
    requires
        chronicled(ms, seq![], h),
        0 <= i < ms.len(),
        0 <= k <= ms[i].inbox.len(),
    ensures
        chronicled(
            with_node(ms, i, stepped_all(ms[i].node, ms[i].inbox.take(k))),
            seq![],
            g,
        ),
        onward(ms, h, with_node(ms, i, stepped_all(ms[i].node, ms[i].inbox.take(k))), g),
        prompt(ms[i].node) ==> prompt(stepped_all(ms[i].node, ms[i].inbox.take(k))),
    decreases k,
{
    let none = Seq::<MessageView>::empty();
    let m = ms[i];
    if k == 0 {
        assert(m.inbox.take(0) =~= Seq::<MessageView>::empty());
        assert(with_node(ms, i, m.node) =~= ms);
        lemma_onward_same(ms, h);
        h
    } else {
        let f = lemma_steps_recorded(ms, h, i, k - 1);
        let a = stepped_all(m.node, m.inbox.take(k - 1));
        let prior = with_node(ms, i, a);
        let msg = m.inbox[k - 1];
        lemma_members(prior, none, f);
        assert(prior[i].inbox[k - 1] == msg);
        assert(mail_at(prior[i], msg));
        assert(mailed(prior, none, msg));
        let g = record::lemma_steps(prior, none, f, i, msg);
        if msg.body is AppendEntries && a.role == Role::Leader && a.term == msg.term {
            record::lemma_not_leader(prior, none, f, i, msg);
        }
        assert(prior[i].node.log.len() <= u64::MAX);
        if prompt(m.node) {
            commits::lemma_step_prompt(a, msg);
        }
        assert(m.inbox.take(k).drop_last() =~= m.inbox.take(k - 1));
        let ns = with_node(ms, i, stepped_all(m.node, m.inbox.take(k)));
        assert(with_node(prior, i, stepped(a, msg)) =~= ns);
        lemma_onward_more(ms, h, prior, f, ns, g);
        g
    }
}

proof fn lemma_work_recorded(ms: Seq<MemberView>, h: Chronicle, n: int) -> (g: Chronicle)
    requires
        chronicled(ms, seq![], h),
        0 <= n <= ms.len(),
    ensures
        chronicled(partly_worked(ms, n), seq![], g),
        onward(ms, h, partly_worked(ms, n), g),
        all_prompt(ms) ==> all_prompt(partly_worked(ms, n)),
    decreases n,
{
    let none = Seq::<MessageView>::empty();
    if n == 0 {
        assert(partly_worked(ms, 0) =~= ms);
        lemma_onward_same(ms, h);
        h
    } else {
        let i = n - 1;
        let f = lemma_work_recorded(ms, h, i);
        let prior = partly_worked(ms, i);
        let m = ms[i];
        assert(prior[i] == m);
        if m.alive {
            let k = m.inbox.len() as int;
            let g = lemma_steps_recorded(prior, f, i, k);
            assert(m.inbox.take(k) =~= m.inbox);
            let a = with_node(prior, i, stepped_all(m.node, m.inbox));
            lemma_dropped(a, g, i, m.alive, seq![]);
            let b = a.update(i, MemberView { alive: m.alive, inbox: seq![], ..a[i] });
            assert(b =~= partly_worked(ms, n));
            lemma_onward_more(ms, h, prior, f, a, g);
            lemma_onward_more(ms, h, a, g, b, g);
            if all_prompt(ms) {
                assert(prompt(ms[i].node));
                assert forall|j: int| 0 <= j < b.len() implies prompt((#[trigger] b[j]).node) by {
                    if j != i {
                        assert(prompt(prior[j].node));
                    }
                }
            }
            g
        } else {
            assert(prior =~= partly_worked(ms, n));
            f
        }
    }
}

/// The writes of one list of entries after another.
pub proof fn lemma_writes_more(a: Seq<EntryView>, b: Seq<EntryView>)
    ensures
        writes_of(a + b) == writes_of(a) + writes_of(b),
    decreases b.len(),
{
    if b.len() == 0 {
        assert(a + b =~= a);
        assert(writes_of(a) + writes_of(b) =~= writes_of(a));
    } else {
        lemma_writes_more(a, b.drop_last());
        assert((a + b).drop_last() =~= a + b.drop_last());
        assert(writes_of(a + b) =~= writes_of(a) + writes_of(b));
    }
}

/// A member that applies what is ready has in its store what it has applied.
proof fn lemma_settles(m: MemberView)
    requires
        faithful(m),
        indexed(m.node.log),
        m.node.log.len() <= u64::MAX,
    ensures
        faithful(settled_member(m)),
        alike(m, settled_member(m)),
{
    let s = m.node;
    if m.alive {
        let es = to_apply(s);
        let n = settled_member(m);
        if es.len() > 0 {
            let k = s.applied + es.len();
            assert(es =~= s.log.subrange(s.applied as int, k));
            assert(es.last() == s.log[k - 1]);
            assert(n.node.applied == k);
            let a = s.log.take(s.applied as int);
            assert(s.log.take(k) =~= a + es);
            lemma_writes_more(a, es);
            lemma_written_more(Map::empty(), writes_of(a), writes_of(es));
        } else {
            assert(es =~= seq![]);
            assert(writes_of(es) =~= seq![]);
        }
    }
}

proof fn lemma_round_recorded(c: ClusterView, h: Chronicle) -> (g: Chronicle)
    requires
        chronicled(c.members, seq![], h),
        in_line(after_round(c)),
    ensures
        chronicled(after_round(c).members, seq![], g),
        onward(c.members, h, after_round(c).members, g),
        all_prompt(c.members) ==> all_prompt(after_round(c).members),
{
    let none = Seq::<MessageView>::empty();
    let n = c.members.len() as int;
    let g = lemma_work_recorded(c.members, h, n);
    let w = all_worked(c.members);
    assert(partly_worked(c.members, n) =~= w);
    let a = all_settled(w);
    let sent = all_sent(w);
    let b = after_round(c).members;
    lemma_members(w, none, g);
    matching::lemma_delivered_mail(a, c.cut, sent);
    assert forall|i: int| 0 <= i < b.len() implies alike(w[i], #[trigger] b[i]) && faithful(
        b[i],
    ) by {
        lemma_settles(w[i]);
        assert(a[i] == settled_member(w[i]));
        assert(b[i] == (MemberView { inbox: b[i].inbox, ..a[i] }));
    }
    assert forall|msg: MessageView| #[trigger] mailed(b, none, msg) implies mailed(
        w,
        none,
        msg,
    ) by {
        let i = choose|i: int| 0 <= i < b.len() && mail_at(#[trigger] b[i], msg);
        assert(a[i] == settled_member(w[i]));
        if b[i].inbox.contains(msg) && !a[i].inbox.contains(msg) {
            matching::lemma_sent_mail(w, msg);
            let k = choose|k: int| 0 <= k < w.len() && (#[trigger] w[k]).node.outbox.contains(msg);
            assert(mail_at(w[k], msg));
        } else {
            assert(mail_at(w[i], msg));
        }
    }
    assert forall|i: int, k: int|
        0 <= i < b.len() && 0 <= k < b[i].inbox.len() implies (#[trigger] b[i].inbox[k]).to
        == b[i].id by {
        assert(member_ok(b[i], b.len() as int));
    }
    lemma_less_mail(w, none, b, none, g);
    lemma_onward_more(c.members, h, w, g, b, g);
    if all_prompt(c.members) {
        assert forall|i: int| 0 <= i < b.len() implies prompt((#[trigger] b[i]).node) by {
            assert(alike(w[i], b[i]));
            assert(prompt(w[i].node));
            commits::lemma_prompt_on(w[i].node, b[i].node);
        }
    }
    g
}

/// A round keeps a cluster regular.
pub proof fn lemma_round_regular(c: ClusterView)
    requires
        regular(c),
        forall|i: int|
            0 <= i < c.members.len() && (#[trigger] c.members[i]).alive ==> logs_fit(c.members[i]),
    ensures
        regular(after_round(c)),
{
    matching::lemma_round_in_line(c);
    let h = choose|h: Chronicle| #[trigger] chronicled(c.members, seq![], h);
    let g = lemma_round_recorded(c, h);
}

/// A proposal to a leader keeps a cluster regular.
pub proof fn lemma_proposal_regular(c: ClusterView, i: int, data: Seq<u8>)
    requires
        regular(c),
        0 <= i < c.members.len(),
        c.members[i].node.role == Role::Leader,
        c.members[i].node.log.len() < u64::MAX,
    ensures
        regular(
            ClusterView {
                members: c.members.update(
                    i,
                    MemberView { node: proposed(c.members[i].node, data), ..c.members[i] },
                ),
                ..c
            },
        ),
{
    let none = Seq::<MessageView>::empty();
    matching::lemma_proposal_in_line(c, i, data);
    let h = choose|h: Chronicle| #[trigger] chronicled(c.members, none, h);
    let g = record::lemma_proposes(c.members, none, h, i, data);
    let ns = c.members.update(
        i,
        MemberView { node: proposed(c.members[i].node, data), ..c.members[i] },
    );
    commits::lemma_propose_prompt(c.members[i].node, data);
    assert forall|j: int| 0 <= j < ns.len() implies prompt((#[trigger] ns[j]).node) by {
        if j != i {
            assert(prompt(c.members[j].node));
        }
    }
}

/// Stopping a member, or letting it go on, keeps a cluster regular, and so does
/// any change of the cuts.
pub proof fn lemma_fault_regular(
    c: ClusterView,
    i: int,
    alive: bool,
    inbox: Seq<MessageView>,
    cut: Set<(NodeId, NodeId)>,
)
    requires
        regular(c),
        0 <= i < c.members.len(),
        inbox == c.members[i].inbox || inbox.len() == 0,
    ensures
        regular(
            ClusterView {
                members: c.members.update(i, MemberView { alive, inbox, ..c.members[i] }),
                cut,
            },
        ),
        regular(ClusterView { members: c.members, cut }),
{
    let none = Seq::<MessageView>::empty();
    matching::lemma_fault_in_line(c, i, alive, inbox, cut);
    let h = choose|h: Chronicle| #[trigger] chronicled(c.members, none, h);
    lemma_dropped(c.members, h, i, alive, inbox);
    let ns = c.members.update(i, MemberView { alive, inbox, ..c.members[i] });
    assert forall|j: int| 0 <= j < ns.len() implies prompt((#[trigger] ns[j]).node) by {
        assert(prompt(c.members[j].node));
    }
}

/// A fresh cluster of distinct nodes is regular.
pub proof fn lemma_fresh_regular(ids: Seq<NodeId>)
    requires
        ids.no_duplicates(),
    ensures
        regular(fresh_cluster(ids)),
{
    reveal(chronicled);
    let none = Seq::<MessageView>::empty();
    let ms = fresh_cluster(ids).members;
    let h = Chronicle { reigns: Map::empty(), acks: Map::empty(), votes: Map::empty() };
    matching::lemma_fresh_in_line(ids);
    assert forall|msg: MessageView| !(#[trigger] mailed(ms, none, msg)) by {
        if mailed(ms, none, msg) {
            let i = choose|i: int| 0 <= i < ms.len() && mail_at(#[trigger] ms[i], msg);
            assert(ms[i] == fresh_member(ids, i));
        }
    }
    assert(ids_apart(ms));
    assert forall|i: int| 0 <= i < ms.len() implies member_kept(ms, h, #[trigger] ms[i]) by {
        assert(ms[i] == fresh_member(ids, i));
        assert(member_ok(ms[i], ms.len() as int));
        assert(!ms[i].node.config.peers.contains(ms[i].id));
        assert(ms[i].node.log.take(0) =~= seq![]);
        assert(writes_of(seq![]) =~= seq![]);
    }
    assert(chronicled(ms, none, h));
    assert forall|i: int| 0 <= i < ms.len() implies prompt((#[trigger] ms[i]).node) by {
        assert(ms[i] == fresh_member(ids, i));
    }
}

// ---- over time -------------------------------------------------------------------------

/// What can happen to a cluster.
pub enum Deed {
    Tick,
    Round,
    /// A proposal to the member at a place, which leads.
    Propose { place: int, data: Seq<u8> },
    /// The member at a place stops or goes on, maybe without its mail; and ways are
    /// cut or opened.
    Fault { place: int, alive: bool, inbox: Seq<MessageView>, cut: Set<(NodeId, NodeId)> },
}

/// The deed makes `d` of `c`, within what machines can count.
pub open spec fn makes(c: ClusterView, deed: Deed, d: ClusterView) -> bool {
    match deed {
        Deed::Tick => {
            &&& forall|i: int|
                0 <= i < c.members.len() && (#[trigger] c.members[i]).alive
                    ==> c.members[i].node.term < u64::MAX
            &&& d == all_ticked(c)
        },
        Deed::Round => {
            &&& forall|i: int|
                0 <= i < c.members.len() && (#[trigger] c.members[i]).alive ==> logs_fit(
                    c.members[i],
                )
            &&& d == after_round(c)
        },
        Deed::Propose { place, data } => {
            &&& 0 <= place < c.members.len()
            &&& c.members[place].node.role == Role::Leader
            &&& c.members[place].node.log.len() < u64::MAX
            &&& d == with_proposal(c, place, data)
        },
        Deed::Fault { place, alive, inbox, cut } => {
            &&& 0 <= place < c.members.len()
            &&& inbox == c.members[place].inbox || inbox.len() == 0
            &&& d == (ClusterView {
                members: c.members.update(
                    place,
                    MemberView { alive, inbox, ..c.members[place] },
                ),
                cut,
            })
        },
    }
}

/// The deeds lead from state to state.
pub open spec fn is_course(states: Seq<ClusterView>, deeds: Seq<Deed>) -> bool {
    &&& states.len() == deeds.len() + 1
    &&& forall|k: int| 0 <= k < deeds.len() ==> makes(states[k], #[trigger] deeds[k], states[k + 1])
}

proof fn lemma_deed(c: ClusterView, deed: Deed, d: ClusterView, h: Chronicle) -> (g: Chronicle)
    requires
        regular(c),
        makes(c, deed, d),
        chronicled(c.members, seq![], h),
    ensures
        regular(d),
        chronicled(d.members, seq![], g),
        onward(c.members, h, d.members, g),
{
    let none = Seq::<MessageView>::empty();
    match deed {
        Deed::Tick => {
            lemma_ticked_regular(c);
            lemma_ticked_recorded(c, h)
        },
        Deed::Round => {
            lemma_round_regular(c);
            lemma_round_recorded(c, h)
        },
        Deed::Propose { place, data } => {
            lemma_proposal_regular(c, place, data);
            record::lemma_proposes(c.members, none, h, place, data)
        },
        Deed::Fault { place, alive, inbox, cut } => {
            lemma_fault_regular(c, place, alive, inbox, cut);
            lemma_dropped(c.members, h, place, alive, inbox);
            h
        },
    }
}

proof fn lemma_course(
    states: Seq<ClusterView>,
    deeds: Seq<Deed>,
    a: int,
    b: int,
    h: Chronicle,
) -> (g: Chronicle)
    requires
        is_course(states, deeds),
        0 <= a <= b < states.len(),
        regular(states[a]),
        chronicled(states[a].members, seq![], h),
    ensures
        regular(states[b]),
        chronicled(states[b].members, seq![], g),
        onward(states[a].members, h, states[b].members, g),
    decreases b - a,
{
    if a == b {
        lemma_onward_same(states[a].members, h);
        h
    } else {
        let f = lemma_course(states, deeds, a, b - 1, h);
        assert(makes(states[b - 1], deeds[b - 1], states[b - 1 + 1]));
        let g = lemma_deed(states[b - 1], deeds[b - 1], states[b], f);
        lemma_onward_more(
            states[a].members,
            h,
            states[b - 1].members,
            f,
            states[b].members,
            g,
        );
        g
    }
}

/// A regular cluster stays regular, whatever happens.
pub proof fn lemma_stays_regular(states: Seq<ClusterView>, deeds: Seq<Deed>, k: int)
    requires
        is_course(states, deeds),
        regular(states[0]),
        0 <= k < states.len(),
    ensures
        regular(states[k]),
{
    let h = choose|h: Chronicle| #[trigger] chronicled(states[0].members, seq![], h);
    let g = lemma_course(states, deeds, 0, k, h);
}

/// What is committed is committed for good: what a member has committed at some
/// time, and what it or any other has committed at that place at any later time,
/// is the same, and so is all that comes before it.
pub proof fn lemma_committed_for_good(
    states: Seq<ClusterView>,
    deeds: Seq<Deed>,
    a: int,
    i: int,
    b: int,
    j: int,
    at: int,
)
    requires
        is_course(states, deeds),
        regular(states[0]),
        0 <= a <= b < states.len(),
        0 <= i < states[a].members.len(),
        0 <= j < states[b].members.len(),
        1 <= at <= states[a].members[i].node.commit,
        at <= states[b].members[j].node.commit,
    ensures
        at <= states[a].members[i].node.log.len(),
        at <= states[b].members[j].node.log.len(),
        states[a].members[i].node.log[at - 1] == states[b].members[j].node.log[at - 1],
        states[a].members[i].node.log.take(at) == states[b].members[j].node.log.take(at),
{
    let none = Seq::<MessageView>::empty();
    lemma_stays_regular(states, deeds, a);
    let s = states[a].members[i].node;
    let t = states[b].members[j].node;
    let h = choose|h: Chronicle| #[trigger] chronicled(states[a].members, none, h);
    let g = lemma_course(states, deeds, a, b, h);
    let ms = states[b].members;
    lemma_committed_certain(states[a].members, none, h, i);
    lemma_committed_certain(ms, none, g, j);
    assert(certain(ms, g, s.log, s.commit as int, s.term)) by {
        reveal(onward);
    }
    lemma_both_certain(
        ms,
        none,
        g,
        s.log,
        s.commit as int,
        s.term,
        t.log,
        t.commit as int,
        t.term,
        at,
    );
    lemma_shares_less(s.log, t.log, at, at);
}

/// Once a member has committed an entry, whoever leads in the term that the member
/// was in then, or in a later one, has the entry, now and at any later time.
pub proof fn lemma_later_leaders_have(
    states: Seq<ClusterView>,
    deeds: Seq<Deed>,
    a: int,
    i: int,
    b: int,
    j: int,
    at: int,
)
    requires
        is_course(states, deeds),
        regular(states[0]),
        0 <= a <= b < states.len(),
        0 <= i < states[a].members.len(),
        0 <= j < states[b].members.len(),
        1 <= at <= states[a].members[i].node.commit,
        states[b].members[j].node.role == Role::Leader,
        states[a].members[i].node.term <= states[b].members[j].node.term,
    ensures
        at <= states[b].members[j].node.log.len(),
        states[b].members[j].node.log[at - 1] == states[a].members[i].node.log[at - 1],
        states[b].members[j].node.log.take(at) == states[a].members[i].node.log.take(at),
{
    let none = Seq::<MessageView>::empty();
    lemma_stays_regular(states, deeds, a);
    let s = states[a].members[i].node;
    let h = choose|h: Chronicle| #[trigger] chronicled(states[a].members, none, h);
    let g = lemma_course(states, deeds, a, b, h);
    let ms = states[b].members;
    lemma_committed_certain(states[a].members, none, h, i);
    assert(certain(ms, g, s.log, s.commit as int, s.term)) by {
        reveal(onward);
    }
    lemma_leader_certain(ms, none, g, s.log, s.commit as int, s.term, j, at);
    lemma_shares_less(ms[j].node.log, s.log, at, at);
}

proof fn lemma_steps_commit(m: MemberView, k: int)
    requires
        m.node.wf(),
        logs_fit(m),
        0 <= k <= m.inbox.len(),
    ensures
        stepped_all(m.node, m.inbox.take(k)).wf(),
        stepped_all(m.node, m.inbox.take(k)).commit >= m.node.commit,
    decreases k,
{
    if k > 0 {
        lemma_steps_commit(m, k - 1);
        let a = stepped_all(m.node, m.inbox.take(k - 1));
        assert(a.log.len() <= u64::MAX);
        laws::lemma_step_keeps(a, m.inbox[k - 1]);
        assert(m.inbox.take(k).drop_last() =~= m.inbox.take(k - 1));
    } else {
        assert(m.inbox.take(0) =~= Seq::<MessageView>::empty());
    }
}

proof fn lemma_deed_commit(c: ClusterView, deed: Deed, d: ClusterView, i: int)
    requires
        regular(c),
        makes(c, deed, d),
        0 <= i < c.members.len(),
    ensures
        d.members.len() == c.members.len(),
        d.members[i].id == c.members[i].id,
        d.members[i].node.commit >= c.members[i].node.commit,
{
    let m = c.members[i];
    assert(member_ok(c.members[i], c.members.len() as int));
    match deed {
        Deed::Tick => {
            assert(d.members[i] == ticked_member(m));
            if m.alive {
                laws::lemma_tick_keeps(m.node);
            }
        },
        Deed::Round => {
            let w = all_worked(c.members);
            matching::lemma_delivered_mail(all_settled(w), c.cut, all_sent(w));
            assert(w[i] == worked(m));
            assert(all_settled(w)[i] == settled_member(w[i]));
            if m.alive {
                let k = m.inbox.len() as int;
                lemma_steps_commit(m, k);
                assert(m.inbox.take(k) =~= m.inbox);
            }
        },
        Deed::Propose { place, data } => {
            if i == place {
                laws::lemma_propose_keeps(m.node, data);
            }
        },
        _ => {},
    }
}

/// How far a member has committed does not go back.
pub proof fn lemma_commit_lasts(
    states: Seq<ClusterView>,
    deeds: Seq<Deed>,
    a: int,
    b: int,
    i: int,
)
    requires
        is_course(states, deeds),
        regular(states[0]),
        0 <= a <= b < states.len(),
        0 <= i < states[a].members.len(),
    ensures
        states[b].members.len() == states[a].members.len(),
        states[b].members[i].id == states[a].members[i].id,
        states[b].members[i].node.commit >= states[a].members[i].node.commit,
    decreases b - a,
{
    if a < b {
        lemma_commit_lasts(states, deeds, a, b - 1, i);
        lemma_stays_regular(states, deeds, b - 1);
        assert(makes(states[b - 1], deeds[b - 1], states[b - 1 + 1]));
        lemma_deed_commit(states[b - 1], deeds[b - 1], states[b], i);
    }
}

/// A store that has come as far as another, the same or that of another member, had
/// come at any time is the same as that was then.
pub proof fn lemma_stores_for_good(
    states: Seq<ClusterView>,
    deeds: Seq<Deed>,
    a: int,
    i: int,
    b: int,
    j: int,
)
    requires
        is_course(states, deeds),
        regular(states[0]),
        0 <= a <= b < states.len(),
        0 <= i < states[a].members.len(),
        0 <= j < states[b].members.len(),
        states[a].members[i].node.applied == states[b].members[j].node.applied,
    ensures
        states[a].members[i].store == states[b].members[j].store,
{
    let none = Seq::<MessageView>::empty();
    let m = states[a].members[i];
    let n = states[b].members[j];
    let at = m.node.applied as int;
    lemma_stays_regular(states, deeds, a);
    lemma_stays_regular(states, deeds, b);
    let h = choose|h: Chronicle| #[trigger] chronicled(states[a].members, none, h);
    let g = choose|g: Chronicle| #[trigger] chronicled(states[b].members, none, g);
    lemma_members(states[a].members, none, h);
    lemma_members(states[b].members, none, g);
    assert(faithful(states[a].members[i]) && faithful(states[b].members[j]));
    if at > 0 {
        lemma_committed_for_good(states, deeds, a, i, b, j, at);
    } else {
        assert(m.node.log.take(0) =~= n.node.log.take(0));
    }
}

} // verus!
