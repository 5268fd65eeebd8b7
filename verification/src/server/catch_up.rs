//! A follower that lags catches up.
//!
//! As long as a leader goes on to lead and is heard by a member of its term, and
//! hears it, that member comes to have the whole log of the leader, whatever log it
//! had. What is followed is the place from which the leader sends: a refusal moves
//! it back, until it lies within what both logs share; from then on nothing is
//! refused, and every answer moves it on.

use vstd::prelude::*;

use crate::raft::laws::indexed;
use crate::raft::sends;
use crate::raft::state::{
    append_body, asked, broadcast, caught_up, committed_more, next_for, one_less, one_more, persisted, posted, sent_to, stepped, ticked, NodeView,
    Role,
};
use crate::raft::types::{BodyView, EntryView, MessageView};
use crate::server::chronicle::{
    anchored, chronicled, drawn, lemma_match, lemma_shares_less, lemma_take_anchored, member_kept,
    message_kept, reign_kept, shares, Chronicle,
};
use crate::server::cluster_state::{
    after_round, all_sent, all_settled, all_ticked, all_worked, sends, settled_member, stepped_all,
    ticked_member, worked, ClusterView,
};
use crate::server::election::member_ok;
use crate::server::isolation;
use crate::server::matching::{mail_at, mailed, stretch_of};
use crate::server::record;
use crate::server::rounds;
use crate::server::safety::{self, is_course, makes, regular, Deed};
use crate::types::{NodeId, Term};

verus! {

// ---- what two logs share -----------------------------------------------------------------

spec fn common_within(a: Seq<EntryView>, b: Seq<EntryView>, k: int) -> int
    decreases k,
{
    if k <= 0 {
        0
    } else if shares(a, b, k) {
        k
    } else {
        common_within(a, b, k - 1)
    }
}

/// How many entries both logs begin with.
pub closed spec fn common(a: Seq<EntryView>, b: Seq<EntryView>) -> int {
    common_within(a, b, b.len() as int)
}

proof fn lemma_common_within(a: Seq<EntryView>, b: Seq<EntryView>, k: int)
    requires
        0 <= k <= b.len(),
    ensures
        shares(a, b, common_within(a, b, k)),
        forall|j: int| 0 <= j <= k && #[trigger] shares(a, b, j) ==> j <= common_within(a, b, k),
    decreases k,
{
    if k <= 0 {
        assert(a.take(0) =~= b.take(0));
    } else if !shares(a, b, k) {
        lemma_common_within(a, b, k - 1);
    }
}

/// Both logs begin with so many same entries, and with no more.
pub proof fn lemma_common(a: Seq<EntryView>, b: Seq<EntryView>)
    ensures
        shares(a, b, common(a, b)),
        forall|j: int| #[trigger] shares(a, b, j) ==> j <= common(a, b),
{
    lemma_common_within(a, b, b.len() as int);
}

// ---- a leader and a peer -----------------------------------------------------------------

/// A leader that goes on to lead in a term with a log, and one of its peers; and
/// the places of both in the cluster.
pub struct Pair {
    pub i: int,
    pub j: int,
    pub leader: NodeId,
    pub peer: NodeId,
    pub term: Term,
    pub log: Seq<EntryView>,
}

/// The message brings the peer entries in the term.
pub open spec fn is_append(z: Pair, m: MessageView) -> bool {
    m.body is AppendEntries && m.term == z.term && m.to == z.peer
}

/// The message answers for the peer in the term.
pub open spec fn is_answer(z: Pair, m: MessageView) -> bool {
    m.body is AppendResponse && m.term == z.term && m.from == z.peer
}

/// The place behind which the entries of a message stand.
pub open spec fn prev_of(m: MessageView) -> int {
    stretch_of(m).base
}

/// The place of the last entry of a message.
pub open spec fn end_of(m: MessageView) -> int {
    stretch_of(m).base + stretch_of(m).entries.len()
}

/// The answer is not a refusal.
pub open spec fn is_success(m: MessageView) -> bool {
    m.body matches BodyView::AppendResponse { success, .. } && success
}

/// What an answer says.
pub open spec fn said(m: MessageView) -> int {
    match m.body {
        BodyView::AppendResponse { match_index, .. } => match_index as int,
        _ => 0,
    }
}

/// The message is taken out of the leader's log.
spec fn fits(z: Pair, m: MessageView) -> bool {
    m.from == z.leader && drawn(stretch_of(m), z.log)
}

/// The leader leads in the term, with the log.
spec fn leads(z: Pair, s: NodeView) -> bool {
    s.id == z.leader && s.role == Role::Leader && s.term == z.term && s.log == z.log
        && s.config.max_entries_per_msg >= 1 && z.log.len() + s.config.max_entries_per_msg
        < u64::MAX
}

/// A leader that is refused by a peer steps back by one, down to the first entry,
/// and sends again at once from there.
pub proof fn lemma_refused(s: NodeView, msg: MessageView)
    requires
        s.role == Role::Leader,
        msg.term == s.term,
        msg.body matches BodyView::AppendResponse { success, .. } && !success,
        next_for(s, msg.from) >= 1,
    ensures
        ({
            let n = next_for(s, msg.from);
            let t = stepped(s, msg);
            let again = t.outbox.last();
            &&& t.role == Role::Leader && t.term == s.term && t.log == s.log
            &&& n > 1 ==> next_for(t, msg.from) == n - 1
            &&& n == 1 ==> next_for(t, msg.from) == 1
            &&& forall|p: NodeId| p != msg.from ==> #[trigger] next_for(t, p) == next_for(s, p)
            &&& t.matched == s.matched && t.commit == s.commit && t.applied == s.applied
            &&& t.elapsed == s.elapsed && t.leader == s.leader
            &&& t.vote == s.vote && t.saved == s.saved
            &&& t.outbox.len() == s.outbox.len() + 1 && t.outbox.drop_last() == s.outbox
            &&& again.to == msg.from && again.from == s.id && again.term == s.term
                && again.body is AppendEntries
            &&& prev_of(again) == next_for(t, msg.from) - 1
            &&& n > 1 ==> prev_of(again) < n - 1
        }),
{
    assert(stepped(s, msg).outbox.drop_last() =~= s.outbox);
}

/// What a refusal and another do: after as many refusals as the log has entries the
/// leader sends from the first entry on.
pub open spec fn refused(s: NodeView, msg: MessageView, n: nat) -> NodeView
    decreases n,
{
    if n == 0 {
        s
    } else {
        stepped(refused(s, msg, (n - 1) as nat), msg)
    }
}

pub proof fn lemma_refused_back(s: NodeView, msg: MessageView, n: nat)
    requires
        s.role == Role::Leader,
        msg.term == s.term,
        msg.body matches BodyView::AppendResponse { success, .. } && !success,
        next_for(s, msg.from) >= 1,
    ensures
        refused(s, msg, n).role == Role::Leader,
        refused(s, msg, n).term == s.term,
        refused(s, msg, n).log == s.log,
        next_for(refused(s, msg, n), msg.from) >= 1,
        next_for(refused(s, msg, n), msg.from) <= next_for(s, msg.from),
        n < next_for(s, msg.from) ==> next_for(refused(s, msg, n), msg.from) == next_for(
            s,
            msg.from,
        ) - n,
        n + 1 >= next_for(s, msg.from) ==> next_for(refused(s, msg, n), msg.from) == 1,
    decreases n,
{
    if n > 0 {
        lemma_refused_back(s, msg, (n - 1) as nat);
        lemma_refused(refused(s, msg, (n - 1) as nat), msg);
    }
}

/// What a leader sends a peer: the entries behind the place before the next one, and
/// at least one if there is one.
proof fn lemma_sends_next(z: Pair, s: NodeView)
    requires
        leads(z, s),
        1 <= next_for(s, z.peer) <= z.log.len() + 1,
    ensures
        ({
            let m = MessageView {
                from: s.id,
                to: z.peer,
                term: s.term,
                body: append_body(s, z.peer),
            };
            &&& is_append(z, m)
            &&& prev_of(m) == next_for(s, z.peer) - 1
            &&& prev_of(m) < z.log.len() ==> end_of(m) > prev_of(m)
            &&& fits(z, m)
        }),
{
    let m = MessageView { from: s.id, to: z.peer, term: s.term, body: append_body(s, z.peer) };
    let f = stretch_of(m);
    assert(f.entries =~= z.log.subrange(f.base, f.base + f.entries.len()));
}

/// What a message makes of the leader, as far as the peer is concerned.
proof fn lemma_lead_one(z: Pair, s: NodeView, msg: MessageView)
    requires
        leads(z, s),
        msg.term <= z.term,
        msg.body is AppendEntries ==> msg.term < z.term,
        is_answer(z, msg) && is_success(msg) ==> said(msg) <= z.log.len(),
        1 <= next_for(s, z.peer) <= z.log.len() + 1,
    ensures
        ({
            let t = stepped(s, msg);
            let n = next_for(s, z.peer);
            &&& leads(z, t)
            &&& t.config == s.config
            &&& 1 <= next_for(t, z.peer) <= z.log.len() + 1
            &&& s.outbox.is_prefix_of(t.outbox)
            &&& t.outbox.len() <= s.outbox.len() + 1
            &&& is_answer(z, msg) && is_success(msg) ==> next_for(t, z.peer) == said(msg) + 1
                && t.outbox == s.outbox
            &&& is_answer(z, msg) && !is_success(msg) ==> next_for(t, z.peer) == (if n > 1 {
                n - 1
            } else {
                1
            })
            &&& !is_answer(z, msg) ==> next_for(t, z.peer) == n
            &&& forall|x: int|
                s.outbox.len() <= x < t.outbox.len() && is_append(z, #[trigger] t.outbox[x])
                    ==> is_answer(z, msg) && !is_success(msg) && prev_of(t.outbox[x]) == next_for(
                    t,
                    z.peer,
                ) - 1 && fits(z, t.outbox[x]) && (prev_of(t.outbox[x]) < z.log.len() ==> end_of(
                    t.outbox[x],
                ) > prev_of(t.outbox[x]))
        }),
{
    let t = stepped(s, msg);
    if msg.term == z.term {
        if let BodyView::AppendResponse { success, match_index } = msg.body {
            if !success {
                let u = if s.next.contains_key(msg.from) {
                    NodeView {
                        next: s.next.insert(
                            msg.from,
                            one_less(s.next[msg.from]),
                        ),
                        ..s
                    }
                } else {
                    s
                };
                assert(t == posted(u, msg.from, append_body(u, msg.from)));
                if msg.from == z.peer {
                    lemma_sends_next(z, u);
                }
            } else {
                let u = NodeView {
                    matched: s.matched.insert(msg.from, match_index),
                    next: s.next.insert(msg.from, one_more(match_index)),
                    ..s
                };
                assert(t == committed_more(u));
            }
        }
    }
}

/// What the peer makes of a message.
proof fn lemma_follow_one(h: Chronicle, z: Pair, s: NodeView, msg: MessageView)
    requires
        s.id == z.peer,
        s.role == Role::Follower,
        s.term == z.term,
        s.log.len() <= u64::MAX,
        anchored(h, s.log),
        anchored(h, z.log),
        indexed(z.log),
        z.log.len() <= u64::MAX,
        msg.term <= z.term,
        is_append(z, msg) ==> fits(z, msg),
        msg.to == z.peer,
    ensures
        ({
            let t = stepped(s, msg);
            &&& t.id == z.peer
            &&& t.role == Role::Follower
            &&& t.term == z.term
            &&& t.log.len() <= u64::MAX
            &&& anchored(h, t.log)
            &&& common(t.log, z.log) >= common(s.log, z.log)
            &&& s.outbox.is_prefix_of(t.outbox)
            &&& t.outbox.len() <= s.outbox.len() + 1
            &&& t.commit >= s.commit
            &&& is_append(z, msg) ==> {
                let a = t.outbox.last();
                &&& t.outbox.len() == s.outbox.len() + 1
                &&& is_answer(z, a)
                &&& a.to == z.leader
                &&& is_success(a) <==> prev_of(msg) <= common(s.log, z.log)
                &&& is_success(a) ==> said(a) == end_of(msg) && common(t.log, z.log) >= end_of(msg)
            }
            &&& !is_append(z, msg) ==> t.log == s.log && forall|x: int|
                s.outbox.len() <= x < t.outbox.len() ==> !is_answer(z, #[trigger] t.outbox[x])
        }),
{
    let t = stepped(s, msg);
    lemma_common(s.log, z.log);
    lemma_common(t.log, z.log);
    if is_append(z, msg) {
        let f = stretch_of(msg);
        let c = common(s.log, z.log);
        let p = f.base;
        let e = f.base + f.entries.len();
        if p <= c {
            lemma_shares_less(s.log, z.log, c, p);
        } else if p <= s.log.len() && s.log[p - 1].term == f.term {
            lemma_match(h, s.log, z.log, p);
        }
        if p <= c {
            record::lemma_brings(h, s.log, z.log, p, f.term, f.entries);
            record::lemma_brought(s.log, t.log, z.log, e, c);
            lemma_take_anchored(h, z.log, e);
            assert(shares(t.log, z.log, e));
        }
    }
}

// ---- whole inboxes -----------------------------------------------------------------------

/// Some message answers for the peer.
spec fn some_answer(z: Pair, msgs: Seq<MessageView>) -> bool {
    exists|x: int| 0 <= x < msgs.len() && is_answer(z, #[trigger] msgs[x])
}

/// Some message brings the peer entries.
spec fn some_append(z: Pair, msgs: Seq<MessageView>) -> bool {
    exists|x: int| 0 <= x < msgs.len() && is_append(z, #[trigger] msgs[x])
}

/// Every answer is a success, from `b` on.
spec fn all_success(z: Pair, msgs: Seq<MessageView>, b: int) -> bool {
    forall|x: int|
        0 <= x < msgs.len() && is_answer(z, #[trigger] msgs[x]) ==> is_success(msgs[x]) && said(
            msgs[x],
        ) >= b
}

/// What brings the peer entries is sent from a place up to `top`, and has an entry if
/// there is one.
spec fn all_within(z: Pair, msgs: Seq<MessageView>, top: int) -> bool {
    forall|x: int|
        0 <= x < msgs.len() && is_append(z, #[trigger] msgs[x]) ==> prev_of(msgs[x]) <= top
            && fits(z, msgs[x]) && (prev_of(msgs[x]) < z.log.len() ==> end_of(msgs[x]) > prev_of(
            msgs[x],
        ))
}

/// What brings the peer entries is sent from a place not before `b`.
spec fn all_from(z: Pair, msgs: Seq<MessageView>, b: int) -> bool {
    forall|x: int|
        0 <= x < msgs.len() && is_append(z, #[trigger] msgs[x]) ==> prev_of(msgs[x]) >= b
}

/// What a leader makes of its inbox. What it hears of the peer is true up to `l`; it
/// sends from places below `top`; and what it hears is said of places from `b` on.
proof fn lemma_lead_all(z: Pair, s: NodeView, msgs: Seq<MessageView>, l: int, top: int, b: int)
    requires
        leads(z, s),
        1 <= next_for(s, z.peer) <= z.log.len() + 1,
        0 <= l <= z.log.len(),
        next_for(s, z.peer) <= top,
        l + 1 <= top <= z.log.len() + 1,
        forall|x: int|
            0 <= x < msgs.len() ==> (#[trigger] msgs[x]).term <= z.term && (
            msgs[x].body is AppendEntries ==> msgs[x].term < z.term) && (is_answer(z, msgs[x])
                && is_success(msgs[x]) ==> said(msgs[x]) <= l),
    ensures
        ({
            let r = stepped_all(s, msgs);
            let new = r.outbox.skip(s.outbox.len() as int);
            &&& leads(z, r)
            &&& r.config == s.config
            &&& 1 <= next_for(r, z.peer) <= top
            &&& s.outbox.is_prefix_of(r.outbox)
            &&& all_within(z, new, top - 1)
            &&& top >= l + 2 && some_answer(z, msgs) ==> next_for(r, z.peer) <= top - 1
            &&& !some_answer(z, msgs) ==> next_for(r, z.peer) == next_for(s, z.peer)
            &&& all_success(z, msgs, b) ==> !some_append(z, new) && (some_answer(z, msgs)
                ==> next_for(r, z.peer) - 1 >= b)
        }),
    decreases msgs.len(),
{
    let n0 = s.outbox.len() as int;
    let r = stepped_all(s, msgs);
    let new = r.outbox.skip(n0);
    if msgs.len() > 0 {
        let d = msgs.drop_last();
        let m = msgs.last();
        let last = msgs.len() - 1;
        assert(msgs[last] == m);
        assert forall|x: int| 0 <= x < d.len() implies (#[trigger] d[x]).term <= z.term && (
        d[x].body is AppendEntries ==> d[x].term < z.term) && (is_answer(z, d[x]) && is_success(
            d[x],
        ) ==> said(d[x]) <= l) by {
            assert(d[x] == msgs[x]);
        }
        lemma_lead_all(z, s, d, l, top, b);
        let a = stepped_all(s, d);
        let was = a.outbox.skip(n0);
        lemma_lead_one(z, a, m);
        assert forall|x: int| 0 <= x < new.len() && is_append(z, #[trigger] new[x]) implies prev_of(
            new[x],
        ) <= top - 1 && fits(z, new[x]) && (prev_of(new[x]) < z.log.len() ==> end_of(new[x])
            > prev_of(new[x])) by {
            if x < was.len() {
                assert(new[x] == was[x]);
            } else {
                assert(new[x] == r.outbox[n0 + x]);
            }
        }
        assert(some_answer(z, msgs) <==> some_answer(z, d) || is_answer(z, m)) by {
            if some_answer(z, msgs) {
                let x = choose|x: int| 0 <= x < msgs.len() && is_answer(z, #[trigger] msgs[x]);
                if x < d.len() {
                    assert(is_answer(z, d[x]));
                }
            }
            if some_answer(z, d) {
                let x = choose|x: int| 0 <= x < d.len() && is_answer(z, #[trigger] d[x]);
                assert(is_answer(z, msgs[x]));
            }
            if is_answer(z, m) {
                assert(is_answer(z, msgs[last]));
            }
        }
        if all_success(z, msgs, b) {
            assert(all_success(z, d, b)) by {
                assert forall|x: int|
                    0 <= x < d.len() && is_answer(z, #[trigger] d[x]) implies is_success(d[x])
                    && said(d[x]) >= b by {
                    assert(is_answer(z, msgs[x]));
                }
            }
            if some_append(z, new) {
                let x = choose|x: int| 0 <= x < new.len() && is_append(z, #[trigger] new[x]);
                if x < was.len() {
                    assert(is_append(z, was[x]));
                } else {
                    assert(is_append(z, r.outbox[n0 + x]));
                    assert(is_answer(z, msgs[last]));
                }
            }
            if is_answer(z, m) {
                assert(is_answer(z, msgs[last]));
            }
        }
    } else {
        assert(new =~= seq![]);
    }
}

/// What the peer makes of its inbox. All that is sent to it ends at `b` or behind.
#[verifier::spinoff_prover]
#[verifier::rlimit(40)]
proof fn lemma_follow_all(h: Chronicle, z: Pair, s: NodeView, msgs: Seq<MessageView>, b: int)
    requires
        s.id == z.peer,
        s.role == Role::Follower,
        s.term == z.term,
        s.log.len() <= u64::MAX,
        anchored(h, s.log),
        anchored(h, z.log),
        indexed(z.log),
        z.log.len() <= u64::MAX,
        forall|x: int|
            0 <= x < msgs.len() ==> (#[trigger] msgs[x]).term <= z.term && msgs[x].to == z.peer && (
            is_append(z, msgs[x]) ==> fits(z, msgs[x])),
    ensures
        ({
            let r = stepped_all(s, msgs);
            let new = r.outbox.skip(s.outbox.len() as int);
            &&& r.id == z.peer
            &&& r.role == Role::Follower
            &&& r.term == z.term
            &&& r.log.len() <= u64::MAX
            &&& anchored(h, r.log)
            &&& common(r.log, z.log) >= common(s.log, z.log)
            &&& s.outbox.is_prefix_of(r.outbox)
            &&& some_append(z, msgs) ==> exists|x: int|
                0 <= x < new.len() && is_answer(z, #[trigger] new[x]) && new[x].to == z.leader
            &&& (forall|x: int|
                0 <= x < msgs.len() && is_append(z, #[trigger] msgs[x]) ==> prev_of(msgs[x])
                    <= common(s.log, z.log) && end_of(msgs[x]) >= b) ==> all_success(z, new, b)
        }),
    decreases msgs.len(),
{
    let n0 = s.outbox.len() as int;
    let r = stepped_all(s, msgs);
    let new = r.outbox.skip(n0);
    if msgs.len() > 0 {
        let d = msgs.drop_last();
        let m = msgs.last();
        let last = msgs.len() - 1;
        assert(msgs[last] == m);
        assert forall|x: int| 0 <= x < d.len() implies (#[trigger] d[x]).term <= z.term && d[x].to
            == z.peer && (is_append(z, d[x]) ==> fits(z, d[x])) by {
            assert(d[x] == msgs[x]);
        }
        lemma_follow_all(h, z, s, d, b);
        let a = stepped_all(s, d);
        let was = a.outbox.skip(n0);
        lemma_follow_one(h, z, a, m);
        if some_append(z, msgs) {
            if is_append(z, m) {
                let x = new.len() - 1;
                assert(new[x] == r.outbox.last());
                assert(is_answer(z, new[x]) && new[x].to == z.leader);
            } else {
                let y = choose|y: int| 0 <= y < msgs.len() && is_append(z, #[trigger] msgs[y]);
                assert(is_append(z, d[y]));
                let x = choose|x: int|
                    0 <= x < was.len() && is_answer(z, #[trigger] was[x]) && was[x].to == z.leader;
                assert(new[x] == was[x]);
            }
        }
        if forall|x: int|
            0 <= x < msgs.len() && is_append(z, #[trigger] msgs[x]) ==> prev_of(msgs[x]) <= common(
                s.log,
                z.log,
            ) && end_of(msgs[x]) >= b {
            assert forall|x: int|
                0 <= x < d.len() && is_append(z, #[trigger] d[x]) implies prev_of(d[x]) <= common(
                s.log,
                z.log,
            ) && end_of(d[x]) >= b by {
                assert(is_append(z, msgs[x]));
            }
            assert forall|x: int| 0 <= x < new.len() && is_answer(z, #[trigger] new[x]) implies
                is_success(new[x]) && said(new[x]) >= b by {
                if x < was.len() {
                    assert(new[x] == was[x]);
                    assert(is_answer(z, was[x]));
                } else {
                    assert(new[x] == r.outbox[n0 + x]);
                    assert(is_append(z, msgs[last]));
                }
            }
        }
    } else {
        assert(new =~= seq![]);
    }
}

// ---- the cluster ---------------------------------------------------------------------------

/// The leader leads in the term with the log, and sends with every tick; the peer is
/// alive and follows in the term; and no way between them is cut.
pub open spec fn stable(c: ClusterView, z: Pair) -> bool {
    &&& 0 <= z.i < c.members.len()
    &&& 0 <= z.j < c.members.len()
    &&& z.i != z.j
    &&& ({
        let m = c.members[z.i];
        &&& m.id == z.leader
        &&& m.alive
        &&& m.node.role == Role::Leader
        &&& m.node.term == z.term
        &&& m.node.log == z.log
        &&& m.node.config.peers.contains(z.peer)
        &&& m.node.config.heartbeat_interval <= 1
        &&& m.node.config.max_entries_per_msg >= 1
        &&& z.log.len() + m.node.config.max_entries_per_msg < u64::MAX
    })
    &&& ({
        let w = c.members[z.j];
        &&& w.id == z.peer
        &&& w.alive
        &&& w.node.role == Role::Follower
        &&& w.node.term == z.term
    })
    &&& !c.cut.contains((z.leader, z.peer))
    &&& !c.cut.contains((z.peer, z.leader))
}

/// From where the leader sends next.
pub open spec fn next_at(c: ClusterView, z: Pair) -> int {
    next_for(c.members[z.i].node, z.peer) as int
}

/// How much of the leader's log the peer has.
pub open spec fn has_of(c: ClusterView, z: Pair) -> int {
    common(c.members[z.j].node.log, z.log)
}

spec fn to_send(c: ClusterView, z: Pair) -> Seq<MessageView> {
    c.members[z.i].node.outbox
}

spec fn to_take(c: ClusterView, z: Pair) -> Seq<MessageView> {
    c.members[z.j].inbox
}

spec fn to_answer(c: ClusterView, z: Pair) -> Seq<MessageView> {
    c.members[z.j].node.outbox
}

spec fn to_hear(c: ClusterView, z: Pair) -> Seq<MessageView> {
    c.members[z.i].inbox
}

/// What holds between the two in a regular cluster.
proof fn lemma_facts(c: ClusterView, z: Pair) -> (h: Chronicle)
    requires
        regular(c),
        stable(c, z),
    ensures
        anchored(h, z.log),
        anchored(h, c.members[z.j].node.log),
        indexed(z.log),
        z.log.len() <= u64::MAX,
        c.members[z.j].node.log.len() <= u64::MAX,
        c.members[z.i].node.id == z.leader,
        c.members[z.j].node.id == z.peer,
        z.leader != z.peer,
        !c.members[z.i].node.config.peers.contains(z.leader),
        leads(z, c.members[z.i].node),
        1 <= next_at(c, z) <= z.log.len() + 1,
        0 <= has_of(c, z) <= z.log.len(),
        forall|x: int|
            0 <= x < to_take(c, z).len() ==> (#[trigger] to_take(c, z)[x]).to == z.peer && (
            is_append(z, to_take(c, z)[x]) ==> fits(z, to_take(c, z)[x])),
        forall|x: int|
            0 <= x < to_send(c, z).len() && is_append(z, #[trigger] to_send(c, z)[x]) ==> fits(
                z,
                to_send(c, z)[x],
            ),
        forall|x: int|
            0 <= x < to_hear(c, z).len() ==> ((#[trigger] to_hear(c, z)[x]).body is AppendEntries
                ==> to_hear(c, z)[x].term != z.term) && (is_answer(z, to_hear(c, z)[x])
                && is_success(to_hear(c, z)[x]) ==> said(to_hear(c, z)[x]) <= has_of(c, z)),
{
    reveal(chronicled);
    let ms = c.members;
    let none = Seq::<MessageView>::empty();
    let h = choose|h: Chronicle| #[trigger] chronicled(ms, none, h);
    let m = ms[z.i];
    let w = ms[z.j];
    assert(member_kept(ms, h, ms[z.i]));
    assert(member_kept(ms, h, ms[z.j]));
    assert(reign_kept(ms, h, z.term));
    assert(h.log(z.term) == z.log);
    lemma_common(w.node.log, z.log);
    assert(z.leader != z.peer) by {
        if z.i < z.j {
            assert(ms[z.i].id != ms[z.j].id);
        } else {
            assert(ms[z.j].id != ms[z.i].id);
        }
    }
    assert forall|x: int| 0 <= x < w.inbox.len() implies (#[trigger] w.inbox[x]).to == z.peer && (
    is_append(z, w.inbox[x]) ==> fits(z, w.inbox[x])) by {
        let msg = w.inbox[x];
        assert(mail_at(ms[z.j], msg));
        assert(mailed(ms, none, msg));
        assert(message_kept(ms, h, msg));
    }
    assert forall|x: int| 0 <= x < m.node.outbox.len() && is_append(
        z,
        #[trigger] m.node.outbox[x],
    ) implies fits(z, m.node.outbox[x]) by {
        let msg = m.node.outbox[x];
        assert(mail_at(ms[z.i], msg));
        assert(mailed(ms, none, msg));
        assert(message_kept(ms, h, msg));
    }
    assert forall|x: int| 0 <= x < m.inbox.len() implies ((
    #[trigger] m.inbox[x]).body is AppendEntries ==> m.inbox[x].term != z.term) && (is_answer(
        z,
        m.inbox[x],
    ) && is_success(m.inbox[x]) ==> said(m.inbox[x]) <= has_of(c, z)) by {
        let msg = m.inbox[x];
        assert(mail_at(ms[z.i], msg));
        assert(mailed(ms, none, msg));
        assert(message_kept(ms, h, msg));
        assert(msg.to == z.leader);
        assert(shares(w.node.log, z.log, h.ack(z.peer, z.term)));
    }
    h
}

// ---- ticks -----------------------------------------------------------------------------------

proof fn lemma_sent_next(z: Pair, s: NodeView, n: int)
    requires
        leads(z, s),
        1 <= next_for(s, z.peer) <= z.log.len() + 1,
        0 <= n <= s.config.peers.len(),
    ensures
        ({
            let t = sent_to(s, n);
            let new = t.outbox.skip(s.outbox.len() as int);
            &&& t == (NodeView { outbox: t.outbox, ..s })
            &&& s.outbox.is_prefix_of(t.outbox)
            &&& all_within(z, new, next_for(s, z.peer) - 1)
            &&& all_from(z, new, next_for(s, z.peer) - 1)
            &&& (exists|x: int| 0 <= x < n && s.config.peers[x] == z.peer) ==> some_append(z, new)
        }),
    decreases n,
{
    let n0 = s.outbox.len() as int;
    let t = sent_to(s, n);
    let new = t.outbox.skip(n0);
    if n > 0 {
        lemma_sent_next(z, s, n - 1);
        let a = sent_to(s, n - 1);
        let was = a.outbox.skip(n0);
        let p = s.config.peers[n - 1];
        let m = MessageView { from: s.id, to: p, term: s.term, body: append_body(a, p) };
        assert(new =~= was.push(m));
        assert(next_for(a, z.peer) == next_for(s, z.peer));
        if p == z.peer {
            lemma_sends_next(z, a);
            assert(is_append(z, new[was.len() as int]));
        }
        assert forall|x: int| 0 <= x < new.len() && is_append(z, #[trigger] new[x]) implies prev_of(
            new[x],
        ) == next_for(s, z.peer) - 1 && fits(z, new[x]) && (prev_of(new[x]) < z.log.len()
            ==> end_of(new[x]) > prev_of(new[x])) by {
            if x < was.len() {
                assert(new[x] == was[x]);
            }
        }
        if exists|x: int| 0 <= x < n && s.config.peers[x] == z.peer {
            let x = choose|x: int| 0 <= x < n && s.config.peers[x] == z.peer;
            if x < n - 1 {
                let y = choose|y: int| 0 <= y < was.len() && is_append(z, #[trigger] was[y]);
                assert(is_append(z, new[y]));
            }
        }
    } else {
        assert(new =~= seq![]);
    }
}

/// A tick: the leader sends once more, and nothing else happens between the two.
proof fn lemma_tick(c: ClusterView, z: Pair)
    requires
        regular(c),
        stable(c, z),
        stable(all_ticked(c), z),
    ensures
        ({
            let d = all_ticked(c);
            let new = to_send(d, z).skip(to_send(c, z).len() as int);
            &&& next_at(d, z) == next_at(c, z)
            &&& has_of(d, z) == has_of(c, z)
            &&& to_take(d, z) == to_take(c, z)
            &&& to_hear(d, z) == to_hear(c, z)
            &&& to_answer(d, z) == to_answer(c, z)
            &&& to_send(c, z).is_prefix_of(to_send(d, z))
            &&& all_within(z, new, next_at(c, z) - 1)
            &&& all_from(z, new, next_at(c, z) - 1)
            &&& some_append(z, new)
        }),
{
    let h = lemma_facts(c, z);
    let d = all_ticked(c);
    let m = c.members[z.i];
    let w = c.members[z.j];
    assert(d.members[z.i] == ticked_member(m));
    assert(d.members[z.j] == ticked_member(w));
    let s = m.node;
    let t = NodeView { elapsed: (s.elapsed + 1) as u32, ..s };
    let n = s.config.peers.len() as int;
    assert(member_ok(c.members[z.i], c.members.len() as int));
    assert(s.elapsed == 0 || s.elapsed < s.patience());
    assert(leads(z, t));
    assert(next_for(t, z.peer) == next_for(s, z.peer));
    lemma_sent_next(z, t, n);
    assert(ticked(s) == (NodeView { elapsed: 0, ..broadcast(t) }));
    let x = s.config.peers.index_of(z.peer);
    assert(s.config.peers[x] == z.peer);
    assert(next_for(ticked(s), z.peer) == next_for(s, z.peer));
    // the peer does not stand for election
    let u = NodeView { elapsed: (w.node.elapsed + 1) as u32, ..w.node };
    if u.elapsed >= u.patience() {
        lemma_stands_later(w.node);
    }
}

proof fn lemma_stands_later(s: NodeView)
    requires
        s.role == Role::Follower,
        ({
            let u = NodeView { elapsed: (s.elapsed + 1) as u32, ..s };
            u.elapsed >= u.patience()
        }),
    ensures
        ticked(s).role != Role::Follower,
{
    let u = NodeView { elapsed: (s.elapsed + 1) as u32, ..s };
    let f = persisted(
        NodeView {
            role: Role::Candidate,
            term: (u.term + 1) as u64,
            vote: Some(u.id),
            votes: Map::<NodeId, bool>::empty().insert(u.id, true),
            elapsed: 0,
            leader: None,
            ..u
        },
    );
    let p = f.config.peers.len() as int;
    sends::lemma_asked_honest(f, p);
    sends::lemma_leading_honest(asked(f, p));
}

// ---- rounds ----------------------------------------------------------------------------------

/// Messages do not make a node go back to an earlier term.
proof fn lemma_terms_up(s: NodeView, msgs: Seq<MessageView>)
    ensures
        stepped_all(s, msgs).term >= s.term,
        forall|x: int|
            0 <= x < msgs.len() ==> (#[trigger] msgs[x]).term <= stepped_all(s, msgs).term,
    decreases msgs.len(),
{
    if msgs.len() > 0 {
        let d = msgs.drop_last();
        lemma_terms_up(s, d);
        let a = stepped_all(s, d);
        lemma_term_up(a, msgs.last());
        assert forall|x: int| 0 <= x < msgs.len() implies (#[trigger] msgs[x]).term <= stepped_all(
            s,
            msgs,
        ).term by {
            if x < d.len() {
                assert(d[x] == msgs[x]);
            }
        }
    }
}

proof fn lemma_term_up(s: NodeView, msg: MessageView)
    ensures
        stepped(s, msg).term >= s.term,
        stepped(s, msg).term >= msg.term,
{
    if msg.term >= s.term {
        let c = caught_up(s, msg);
        if let BodyView::VoteResponse { granted } = msg.body {
            let v = NodeView { votes: c.votes.insert(msg.from, granted), ..c };
            sends::lemma_leading_honest(v);
        }
    }
}

/// What a member is after a round, but for its inbox, and what it sent.
proof fn lemma_round_of(c: ClusterView, i: int)
    requires
        0 <= i < c.members.len(),
        c.members[i].alive,
    ensures
        ({
            let r = stepped_all(c.members[i].node, c.members[i].inbox);
            let n = after_round(c).members[i].node;
            &&& n == (NodeView { outbox: seq![], news: None, applied: n.applied, ..r })
            &&& sends(all_worked(c.members)[i]) == r.outbox
            &&& after_round(c).members.len() == c.members.len()
        }),
{
    let w = all_worked(c.members);
    rounds::lemma_delivered(all_settled(w), c.cut, all_sent(w));
    assert(w[i] == worked(c.members[i]));
    assert(all_settled(w)[i] == settled_member(w[i]));
}

/// What the leader is once it dealt with its inbox.
spec fn led(c: ClusterView, z: Pair) -> NodeView {
    stepped_all(c.members[z.i].node, c.members[z.i].inbox)
}

/// What the peer is once it dealt with its inbox.
spec fn followed(c: ClusterView, z: Pair) -> NodeView {
    stepped_all(c.members[z.j].node, c.members[z.j].inbox)
}

/// The mail between the two after a round is what each sent the other.
proof fn lemma_mail_between(c: ClusterView, z: Pair)
    requires
        regular(c),
        regular(after_round(c)),
        stable(c, z),
        stable(after_round(c), z),
    ensures
        ({
            let d = after_round(c);
            &&& forall|x: int|
                0 <= x < to_take(d, z).len() && is_append(z, #[trigger] to_take(d, z)[x])
                    ==> led(c, z).outbox.contains(to_take(d, z)[x])
            &&& forall|x: int|
                0 <= x < to_hear(d, z).len() && is_answer(z, #[trigger] to_hear(d, z)[x])
                    ==> followed(c, z).outbox.contains(to_hear(d, z)[x])
            &&& forall|m: MessageView| #[trigger]
                led(c, z).outbox.contains(m) && is_append(z, m) && m.from == z.leader
                    ==> some_append(z, to_take(d, z))
            &&& forall|m: MessageView| #[trigger]
                followed(c, z).outbox.contains(m) && is_answer(z, m) && m.to == z.leader
                    ==> some_answer(z, to_hear(d, z))
        }),
{
    let d = after_round(c);
    let g = lemma_facts(d, z);
    lemma_round_of(c, z.i);
    lemma_round_of(c, z.j);
    lemma_ids_differ(c, z.i);
    lemma_ids_differ(c, z.j);
    rounds::lemma_round_mail(c, z.i);
    rounds::lemma_round_mail(c, z.j);
    let all = all_worked(c.members);
    assert forall|x: int| 0 <= x < to_take(d, z).len() && is_append(
        z,
        #[trigger] to_take(d, z)[x],
    ) implies led(c, z).outbox.contains(to_take(d, z)[x]) by {
        let msg = to_take(d, z)[x];
        assert(fits(z, msg));
        let k = choose|k: int| 0 <= k < c.members.len() && sends(#[trigger] all[k]).contains(msg);
        isolation::lemma_sender(c, k, msg);
        assert(k == z.i);
    }
    assert forall|x: int| 0 <= x < to_hear(d, z).len() && is_answer(
        z,
        #[trigger] to_hear(d, z)[x],
    ) implies followed(c, z).outbox.contains(to_hear(d, z)[x]) by {
        let msg = to_hear(d, z)[x];
        let k = choose|k: int| 0 <= k < c.members.len() && sends(#[trigger] all[k]).contains(msg);
        isolation::lemma_sender(c, k, msg);
        assert(k == z.j);
    }
    assert forall|m: MessageView| #[trigger] led(c, z).outbox.contains(m) && is_append(z, m)
        && m.from == z.leader implies some_append(z, to_take(d, z)) by {
        assert(sends(all[z.i]).contains(m));
        assert(to_take(d, z).contains(m));
        let y = to_take(d, z).index_of(m);
        assert(is_append(z, to_take(d, z)[y]));
    }
    assert forall|m: MessageView| #[trigger] followed(c, z).outbox.contains(m) && is_answer(z, m)
        && m.to == z.leader implies some_answer(z, to_hear(d, z)) by {
        assert(sends(all[z.j]).contains(m));
        assert(to_hear(d, z).contains(m));
        let y = to_hear(d, z).index_of(m);
        assert(is_answer(z, to_hear(d, z)[y]));
    }
}

/// What a round makes of the leader.
#[verifier::spinoff_prover]
#[verifier::rlimit(40)]
proof fn lemma_round_leader(c: ClusterView, z: Pair, top: int, b: int)
    requires
        regular(c),
        stable(c, z),
        stable(after_round(c), z),
        next_at(c, z) <= top <= z.log.len() + 1,
        has_of(c, z) + 1 <= top,
    ensures
        ({
            let d = after_round(c);
            let new = led(c, z).outbox.skip(to_send(c, z).len() as int);
            &&& 1 <= next_at(d, z) <= top
            &&& to_send(d, z).len() == 0
            &&& top >= has_of(c, z) + 2 && some_answer(z, to_hear(c, z)) ==> next_at(d, z) <= top
                - 1
            &&& !some_answer(z, to_hear(c, z)) ==> next_at(d, z) == next_at(c, z)
            &&& all_success(z, to_hear(c, z), b) && some_answer(z, to_hear(c, z)) ==> next_at(d, z)
                - 1 >= b
            &&& to_send(c, z).is_prefix_of(led(c, z).outbox)
            &&& all_within(z, new, top - 1)
            &&& all_success(z, to_hear(c, z), b) ==> !some_append(z, new)
        }),
{
    let d = after_round(c);
    let h = lemma_facts(c, z);
    let m = c.members[z.i];
    lemma_round_of(c, z.i);
    lemma_terms_up(m.node, m.inbox);
    lemma_lead_all(z, m.node, m.inbox, has_of(c, z), top, b);
    assert(next_for(d.members[z.i].node, z.peer) == next_for(led(c, z), z.peer));
}

/// What a round makes of the peer.
#[verifier::spinoff_prover]
#[verifier::rlimit(40)]
proof fn lemma_round_peer(c: ClusterView, z: Pair, b: int)
    requires
        regular(c),
        stable(c, z),
        stable(after_round(c), z),
    ensures
        ({
            let d = after_round(c);
            let new = followed(c, z).outbox.skip(to_answer(c, z).len() as int);
            &&& has_of(d, z) >= has_of(c, z)
            &&& to_answer(d, z).len() == 0
            &&& to_answer(c, z).is_prefix_of(followed(c, z).outbox)
            &&& some_append(z, to_take(c, z)) ==> exists|x: int|
                0 <= x < new.len() && is_answer(z, #[trigger] new[x]) && new[x].to == z.leader
            &&& (forall|x: int|
                0 <= x < to_take(c, z).len() && is_append(z, #[trigger] to_take(c, z)[x])
                    ==> prev_of(to_take(c, z)[x]) <= has_of(c, z) && end_of(to_take(c, z)[x]) >= b)
                ==> all_success(z, new, b)
        }),
{
    let h = lemma_facts(c, z);
    let w = c.members[z.j];
    lemma_round_of(c, z.j);
    lemma_terms_up(w.node, w.inbox);
    lemma_follow_all(h, z, w.node, w.inbox, b);
    let d = after_round(c);
    let r = followed(c, z);
    assert(to_take(c, z) == w.inbox);
    assert(to_answer(c, z) == w.node.outbox);
    assert(d.members[z.j].node.log == r.log);
    assert(has_of(d, z) == common(r.log, z.log));
    assert(to_answer(d, z).len() == 0);
}

/// What a round does between the two.
proof fn lemma_round(c: ClusterView, z: Pair, top: int, b: int)
    requires
        regular(c),
        regular(after_round(c)),
        stable(c, z),
        stable(after_round(c), z),
        next_at(c, z) <= top <= z.log.len() + 1,
        has_of(c, z) + 1 <= top,
    ensures
        ({
            let d = after_round(c);
            &&& has_of(d, z) >= has_of(c, z)
            &&& 1 <= next_at(d, z) <= top
            &&& to_send(d, z).len() == 0
            &&& to_answer(d, z).len() == 0
            &&& top >= has_of(c, z) + 2 && some_answer(z, to_hear(c, z)) ==> next_at(d, z) <= top
                - 1
            &&& !some_answer(z, to_hear(c, z)) ==> next_at(d, z) == next_at(c, z)
            &&& all_success(z, to_hear(c, z), b) && some_answer(z, to_hear(c, z)) ==> next_at(d, z)
                - 1 >= b
            &&& all_within(z, to_send(c, z), top - 1) ==> all_within(z, to_take(d, z), top - 1)
            &&& some_append(z, to_send(c, z)) ==> some_append(z, to_take(d, z))
            &&& all_success(z, to_hear(c, z), b) && all_from(z, to_send(c, z), b) ==> all_from(
                z,
                to_take(d, z),
                b,
            )
            &&& some_append(z, to_take(c, z)) ==> some_answer(z, to_hear(d, z))
            &&& !some_answer(z, to_answer(c, z)) && (forall|x: int|
                0 <= x < to_take(c, z).len() && is_append(z, #[trigger] to_take(c, z)[x])
                    ==> prev_of(to_take(c, z)[x]) <= has_of(c, z) && end_of(to_take(c, z)[x]) >= b)
                ==> all_success(z, to_hear(d, z), b)
        }),
{
    let d = after_round(c);
    lemma_mail_between(c, z);
    lemma_round_leader(c, z, top, b);
    lemma_round_peer(c, z, b);
    lemma_send_fits(c, z);
    lemma_round_mail(
        z,
        to_send(c, z),
        led(c, z).outbox,
        to_take(d, z),
        to_answer(c, z),
        followed(c, z).outbox,
        to_hear(d, z),
        top - 1,
        b,
    );
    if some_append(z, to_take(c, z)) {
        let new = followed(c, z).outbox.skip(to_answer(c, z).len() as int);
        let x = choose|x: int|
            0 <= x < new.len() && is_answer(z, #[trigger] new[x]) && new[x].to == z.leader;
        assert(followed(c, z).outbox[to_answer(c, z).len() + x] == new[x]);
        assert(followed(c, z).outbox.contains(new[x]));
    }
    if some_append(z, to_send(c, z)) {
        let x = choose|x: int|
            0 <= x < to_send(c, z).len() && is_append(z, #[trigger] to_send(c, z)[x]);
        let m = to_send(c, z)[x];
        assert(led(c, z).outbox[x] == m);
        assert(led(c, z).outbox.contains(m));
        assert(fits(z, m));
    }
}

proof fn lemma_send_fits(c: ClusterView, z: Pair)
    requires
        regular(c),
        stable(c, z),
    ensures
        forall|x: int|
            0 <= x < to_send(c, z).len() && is_append(z, #[trigger] to_send(c, z)[x]) ==> fits(
                z,
                to_send(c, z)[x],
            ),
{
    let h = lemma_facts(c, z);
}

/// What holds of what was to be sent and of what was sent besides holds of what
/// arrives.
proof fn lemma_round_mail(
    z: Pair,
    send: Seq<MessageView>,
    sent: Seq<MessageView>,
    take: Seq<MessageView>,
    answer: Seq<MessageView>,
    answered: Seq<MessageView>,
    hear: Seq<MessageView>,
    top: int,
    b: int,
)
    requires
        send.is_prefix_of(sent),
        answer.is_prefix_of(answered),
        forall|x: int|
            0 <= x < take.len() && is_append(z, #[trigger] take[x]) ==> sent.contains(take[x]),
        forall|x: int|
            0 <= x < hear.len() && is_answer(z, #[trigger] hear[x]) ==> answered.contains(hear[x]),
        all_within(z, sent.skip(send.len() as int), top),
    ensures
        all_within(z, send, top) ==> all_within(z, take, top),
        all_from(z, send, b) && !some_append(z, sent.skip(send.len() as int)) ==> all_from(
            z,
            take,
            b,
        ),
        !some_answer(z, answer) && all_success(z, answered.skip(answer.len() as int), b)
            ==> all_success(z, hear, b),
{
    let newm = sent.skip(send.len() as int);
    let neww = answered.skip(answer.len() as int);
    if all_within(z, send, top) {
        assert forall|x: int| 0 <= x < take.len() && is_append(z, #[trigger] take[x]) implies prev_of(
            take[x],
        ) <= top && fits(z, take[x]) && (prev_of(take[x]) < z.log.len() ==> end_of(take[x])
            > prev_of(take[x])) by {
            let msg = take[x];
            let y = sent.index_of(msg);
            if y < send.len() {
                assert(send[y] == msg);
            } else {
                assert(newm[y - send.len()] == msg);
            }
        }
    }
    if all_from(z, send, b) && !some_append(z, newm) {
        assert forall|x: int| 0 <= x < take.len() && is_append(z, #[trigger] take[x]) implies prev_of(
            take[x],
        ) >= b by {
            let msg = take[x];
            let y = sent.index_of(msg);
            if y < send.len() {
                assert(send[y] == msg);
            } else {
                assert(is_append(z, newm[y - send.len()]));
            }
        }
    }
    if !some_answer(z, answer) && all_success(z, neww, b) {
        assert forall|x: int| 0 <= x < hear.len() && is_answer(z, #[trigger] hear[x]) implies
            is_success(hear[x]) && said(hear[x]) >= b by {
            let msg = hear[x];
            let y = answered.index_of(msg);
            if y < answer.len() {
                assert(is_answer(z, answer[y]));
            } else {
                assert(is_answer(z, neww[y - answer.len()]));
            }
        }
    }
}

proof fn lemma_ids_differ(c: ClusterView, i: int)
    requires
        regular(c),
        0 <= i < c.members.len(),
    ensures
        forall|j: int|
            0 <= j < c.members.len() && j != i ==> (#[trigger] c.members[j]).id
                != c.members[i].id,
{
    assert forall|j: int| 0 <= j < c.members.len() && j != i implies (#[trigger] c.members[j]).id
        != c.members[i].id by {
        if i < j {
            assert(c.members[i].id != c.members[j].id);
        } else {
            assert(c.members[j].id != c.members[i].id);
        }
    }
}

// ---- sweeps ----------------------------------------------------------------------------------

proof fn lemma_more(z: Pair, a: Seq<MessageView>, b: Seq<MessageView>, top: int, low: int)
    requires
        a.is_prefix_of(b),
        all_within(z, b.skip(a.len() as int), top),
        all_from(z, b.skip(a.len() as int), low),
        some_append(z, b.skip(a.len() as int)),
    ensures
        all_within(z, a, top) ==> all_within(z, b, top),
        all_from(z, a, low) ==> all_from(z, b, low),
        some_append(z, b),
{
    let new = b.skip(a.len() as int);
    assert forall|x: int| 0 <= x < b.len() implies (x < a.len() ==> (#[trigger] b[x]) == a[x]) && (x
        >= a.len() ==> b[x] == new[x - a.len()]) by {}
    let x = choose|x: int| 0 <= x < new.len() && is_append(z, #[trigger] new[x]);
    assert(is_append(z, b[a.len() + x]));
}

/// The deed is a tick or a round, or it leaves both as they are.
pub open spec fn concerns(c: ClusterView, deed: Deed, d: ClusterView, z: Pair) -> bool {
    deed is Tick || deed is Round || (d.members[z.i] == c.members[z.i] && d.members[z.j]
        == c.members[z.j])
}

/// How far a sweep has come: a tick begins it, and four rounds behind that end it.
pub open spec fn next_stage(deed: Deed, stage: int) -> int {
    match deed {
        Deed::Tick => if stage == 0 {
            1
        } else {
            stage
        },
        Deed::Round => if stage == 0 || stage == 5 {
            stage
        } else {
            stage + 1
        },
        _ => stage,
    }
}

pub open spec fn stage_after(deeds: Seq<Deed>, a: int, b: int) -> int
    decreases b - a,
{
    if b <= a {
        0
    } else {
        next_stage(deeds[b - 1], stage_after(deeds, a, b - 1))
    }
}

/// Between the two states there is a tick, and behind it there are four rounds.
pub open spec fn is_sweep(deeds: Seq<Deed>, a: int, b: int) -> bool {
    a <= b && stage_after(deeds, a, b) == 5
}

/// One deed of a steady course.
spec fn steady_deed(c: ClusterView, deed: Deed, d: ClusterView, z: Pair) -> bool {
    &&& regular(c)
    &&& regular(d)
    &&& stable(c, z)
    &&& stable(d, z)
    &&& makes(c, deed, d)
    &&& concerns(c, deed, d, z)
}

/// The place from which the leader sends lies at most so far behind what both share.
spec fn near(c: ClusterView, z: Pair, far: int) -> bool {
    next_at(c, z) <= has_of(c, z) + 1 + far
}

spec fn one_nearer(far: int) -> int {
    if far > 0 {
        far - 1
    } else {
        0
    }
}

// ---- first the leader steps back

spec fn back_at(c: ClusterView, z: Pair, far: int, stage: int) -> bool {
    &&& near(c, z, far)
    &&& stage == 1 ==> some_append(z, to_send(c, z))
    &&& stage == 2 ==> some_append(z, to_take(c, z))
    &&& stage == 3 ==> some_answer(z, to_hear(c, z))
    &&& stage >= 4 ==> near(c, z, one_nearer(far))
}

proof fn lemma_back(c: ClusterView, deed: Deed, d: ClusterView, z: Pair, far: int, stage: int)
    requires
        steady_deed(c, deed, d, z),
        back_at(c, z, far, stage),
        far >= 0,
        0 <= stage <= 5,
    ensures
        back_at(d, z, far, next_stage(deed, stage)),
        has_of(d, z) >= has_of(c, z),
{
    let n = z.log.len() as int;
    let h = lemma_facts(c, z);
    match deed {
        Deed::Tick => {
            lemma_tick(c, z);
            lemma_more(z, to_send(c, z), to_send(d, z), next_at(c, z) - 1, next_at(c, z) - 1);
        },
        Deed::Round => {
            let g = if stage >= 4 {
                one_nearer(far)
            } else {
                far
            };
            let all = has_of(c, z) + 1 + g;
            let top = if all <= n + 1 {
                all
            } else {
                n + 1
            };
            lemma_round(c, z, top, 0);
            let h2 = lemma_facts(d, z);
        },
        _ => {},
    }
}

// ---- then nothing is refused any more

spec fn settled_send(c: ClusterView, z: Pair) -> bool {
    all_within(z, to_send(c, z), has_of(c, z)) && !some_answer(z, to_answer(c, z))
}

spec fn settled_take(c: ClusterView, z: Pair) -> bool {
    all_within(z, to_take(c, z), has_of(c, z))
}

spec fn clear_at(c: ClusterView, z: Pair, stage: int) -> bool {
    &&& near(c, z, 0)
    &&& stage >= 2 ==> settled_send(c, z)
    &&& stage >= 3 ==> settled_take(c, z)
    &&& stage >= 4 ==> all_success(z, to_hear(c, z), 0)
}

proof fn lemma_within_up(z: Pair, msgs: Seq<MessageView>, a: int, b: int)
    requires
        all_within(z, msgs, a),
        a <= b,
    ensures
        all_within(z, msgs, b),
{
}

proof fn lemma_clear(c: ClusterView, deed: Deed, d: ClusterView, z: Pair, stage: int)
    requires
        steady_deed(c, deed, d, z),
        clear_at(c, z, stage),
        0 <= stage <= 5,
    ensures
        clear_at(d, z, next_stage(deed, stage)),
        has_of(d, z) >= has_of(c, z),
{
    let h = lemma_facts(c, z);
    match deed {
        Deed::Tick => {
            lemma_tick(c, z);
            let new = to_send(d, z).skip(to_send(c, z).len() as int);
            lemma_within_up(z, new, next_at(c, z) - 1, has_of(c, z));
            lemma_more(z, to_send(c, z), to_send(d, z), has_of(c, z), next_at(c, z) - 1);
        },
        Deed::Round => {
            let top = has_of(c, z) + 1;
            lemma_round(c, z, top, 0);
            if stage >= 2 {
                lemma_within_up(z, to_take(d, z), has_of(c, z), has_of(d, z));
            }
            if stage >= 3 {
                assert forall|x: int|
                    0 <= x < to_take(c, z).len() && is_append(
                        z,
                        #[trigger] to_take(c, z)[x],
                    ) implies prev_of(to_take(c, z)[x]) <= has_of(c, z) && end_of(to_take(c, z)[x])
                    >= 0 by {}
            }
        },
        _ => {},
    }
}

// ---- and every answer moves on

spec fn moving_at(c: ClusterView, z: Pair, b: int, stage: int) -> bool {
    &&& clear_at(c, z, 5)
    &&& next_at(c, z) - 1 >= b
    &&& all_from(z, to_send(c, z), b)
    &&& all_from(z, to_take(c, z), b)
    &&& all_success(z, to_hear(c, z), b)
    &&& stage == 1 ==> some_append(z, to_send(c, z))
    &&& stage >= 2 ==> all_success(z, to_hear(c, z), b + 1)
    &&& stage == 2 ==> some_append(z, to_take(c, z))
    &&& stage == 3 ==> some_answer(z, to_hear(c, z))
    &&& stage >= 4 ==> next_at(c, z) - 1 >= b + 1 && all_from(z, to_send(c, z), b + 1)
    &&& stage >= 5 ==> all_from(z, to_take(c, z), b + 1)
}

proof fn lemma_moving(c: ClusterView, deed: Deed, d: ClusterView, z: Pair, b: int, stage: int)
    requires
        steady_deed(c, deed, d, z),
        moving_at(c, z, b, stage),
        0 <= b < z.log.len(),
        0 <= stage <= 5,
    ensures
        moving_at(d, z, b, next_stage(deed, stage)),
{
    let h = lemma_facts(c, z);
    lemma_clear(c, deed, d, z, 5);
    match deed {
        Deed::Tick => {
            lemma_tick(c, z);
            let new = to_send(d, z).skip(to_send(c, z).len() as int);
            assert(all_from(z, new, b));
            lemma_more(z, to_send(c, z), to_send(d, z), next_at(c, z) - 1, b);
            if stage >= 4 {
                assert(all_from(z, new, b + 1));
                lemma_more(z, to_send(c, z), to_send(d, z), next_at(c, z) - 1, b + 1);
            }
        },
        Deed::Round => {
            let top = has_of(c, z) + 1;
            assert forall|x: int|
                0 <= x < to_take(c, z).len() && is_append(z, #[trigger] to_take(c, z)[x]) implies prev_of(
                to_take(c, z)[x],
            ) <= has_of(c, z) && end_of(to_take(c, z)[x]) >= b + 1 by {}
            lemma_round(c, z, top, b);
            lemma_round(c, z, top, b + 1);
        },
        _ => {},
    }
}

// ---- the law ---------------------------------------------------------------------------------

/// A course in which the leader goes on to lead in the term with the log, and hears
/// and is heard by the peer, which follows in the term; and in which nothing happens
/// to the two but ticks and rounds.
pub open spec fn is_steady(states: Seq<ClusterView>, deeds: Seq<Deed>, z: Pair) -> bool {
    &&& is_course(states, deeds)
    &&& regular(states[0])
    &&& forall|k: int| 0 <= k < states.len() ==> stable(#[trigger] states[k], z)
    &&& forall|k: int|
        0 <= k < deeds.len() ==> concerns(states[k], #[trigger] deeds[k], states[k + 1], z)
}

proof fn lemma_steady(states: Seq<ClusterView>, deeds: Seq<Deed>, z: Pair, k: int)
    requires
        is_steady(states, deeds, z),
        0 <= k < deeds.len(),
    ensures
        steady_deed(states[k], deeds[k], states[k + 1], z),
{
    safety::lemma_stays_regular(states, deeds, k);
    safety::lemma_stays_regular(states, deeds, k + 1);
    assert(stable(states[k], z));
    assert(stable(states[k + 1], z));
    assert(makes(states[k], deeds[k], states[k + 1]));
    assert(concerns(states[k], deeds[k], states[k + 1], z));
}

proof fn lemma_stage_bounds(deeds: Seq<Deed>, a: int, b: int)
    ensures
        0 <= stage_after(deeds, a, b) <= 5,
    decreases b - a,
{
    if a < b {
        lemma_stage_bounds(deeds, a, b - 1);
    }
}

proof fn lemma_sweep_back(
    states: Seq<ClusterView>,
    deeds: Seq<Deed>,
    z: Pair,
    a: int,
    b: int,
    far: int,
)
    requires
        is_steady(states, deeds, z),
        0 <= a <= b < states.len(),
        near(states[a], z, far),
        far >= 0,
    ensures
        back_at(states[b], z, far, stage_after(deeds, a, b)),
    decreases b - a,
{
    if a < b {
        lemma_sweep_back(states, deeds, z, a, b - 1, far);
        lemma_steady(states, deeds, z, b - 1);
        lemma_stage_bounds(deeds, a, b - 1);
        lemma_back(
            states[b - 1],
            deeds[b - 1],
            states[b],
            z,
            far,
            stage_after(deeds, a, b - 1),
        );
    }
}

proof fn lemma_sweep_clear(
    states: Seq<ClusterView>,
    deeds: Seq<Deed>,
    z: Pair,
    a: int,
    b: int,
)
    requires
        is_steady(states, deeds, z),
        0 <= a <= b < states.len(),
        near(states[a], z, 0),
    ensures
        clear_at(states[b], z, stage_after(deeds, a, b)),
    decreases b - a,
{
    if a < b {
        lemma_sweep_clear(states, deeds, z, a, b - 1);
        lemma_steady(states, deeds, z, b - 1);
        lemma_stage_bounds(deeds, a, b - 1);
        lemma_clear(states[b - 1], deeds[b - 1], states[b], z, stage_after(deeds, a, b - 1));
    }
}

proof fn lemma_sweep_moving(
    states: Seq<ClusterView>,
    deeds: Seq<Deed>,
    z: Pair,
    a: int,
    b: int,
    low: int,
)
    requires
        is_steady(states, deeds, z),
        0 <= a <= b < states.len(),
        moving_at(states[a], z, low, 0),
        0 <= low < z.log.len(),
    ensures
        moving_at(states[b], z, low, stage_after(deeds, a, b)),
    decreases b - a,
{
    if a < b {
        lemma_sweep_moving(states, deeds, z, a, b - 1, low);
        lemma_steady(states, deeds, z, b - 1);
        lemma_stage_bounds(deeds, a, b - 1);
        lemma_moving(
            states[b - 1],
            deeds[b - 1],
            states[b],
            z,
            low,
            stage_after(deeds, a, b - 1),
        );
    }
}

/// The states at these places are apart by sweeps.
pub open spec fn are_sweeps(deeds: Seq<Deed>, marks: Seq<int>) -> bool {
    &&& marks.len() > 0 && 0 <= marks[0]
    &&& forall|k: int|
        0 <= k < marks.len() - 1 ==> is_sweep(deeds, #[trigger] marks[k], marks[k + 1])
    &&& forall|k: int| 0 <= k < marks.len() ==> 0 <= #[trigger] marks[k] <= deeds.len()
}

/// Sweep by sweep the leader steps back, until nothing is refused.
proof fn lemma_steps_back(
    states: Seq<ClusterView>,
    deeds: Seq<Deed>,
    z: Pair,
    marks: Seq<int>,
    k: int,
)
    requires
        is_steady(states, deeds, z),
        are_sweeps(deeds, marks),
        0 <= k < marks.len(),
    ensures
        near(
            states[marks[k]],
            z,
            if k <= z.log.len() {
                z.log.len() - k
            } else {
                0
            },
        ),
        k > z.log.len() ==> clear_at(states[marks[k]], z, 5),
    decreases k,
{
    let n = z.log.len() as int;
    if k == 0 {
        assert(0 <= marks[0] <= deeds.len());
        safety::lemma_stays_regular(states, deeds, marks[0]);
        assert(stable(states[marks[0]], z));
        let h = lemma_facts(states[marks[0]], z);
    } else {
        lemma_steps_back(states, deeds, z, marks, k - 1);
        let a = marks[k - 1];
        let b = marks[k - 1 + 1];
        assert(is_sweep(deeds, marks[k - 1], marks[k - 1 + 1]));
        let far = if k - 1 <= n {
            n - (k - 1)
        } else {
            0
        };
        lemma_sweep_back(states, deeds, z, a, b, far);
        if k > n {
            lemma_sweep_clear(states, deeds, z, a, b);
        }
    }
}

/// What a sweep ends with is what the next one starts from.
proof fn lemma_moved(c: ClusterView, z: Pair, b: int)
    requires
        moving_at(c, z, b, 5),
    ensures
        moving_at(c, z, b + 1, 0),
{
}

/// When nothing is refused any more, the leader starts to move on.
proof fn lemma_begins(c: ClusterView, z: Pair)
    requires
        regular(c),
        stable(c, z),
        clear_at(c, z, 5),
    ensures
        moving_at(c, z, 0, 0),
{
    let h = lemma_facts(c, z);
    assert(all_from(z, to_send(c, z), 0));
    assert(all_from(z, to_take(c, z), 0));
}

/// Then sweep by sweep it moves on.
#[verifier::spinoff_prover]
#[verifier::rlimit(40)]
proof fn lemma_moves_on(
    states: Seq<ClusterView>,
    deeds: Seq<Deed>,
    z: Pair,
    marks: Seq<int>,
    k: int,
)
    requires
        is_steady(states, deeds, z),
        are_sweeps(deeds, marks),
        z.log.len() < k < marks.len(),
        k <= 2 * z.log.len() + 1,
    ensures
        moving_at(states[marks[k]], z, k - 1 - z.log.len(), 0),
    decreases k,
{
    let n = z.log.len() as int;
    lemma_steps_back(states, deeds, z, marks, k);
    let c = states[marks[k]];
    if k == n + 1 {
        assert(0 <= marks[k] <= deeds.len());
        safety::lemma_stays_regular(states, deeds, marks[k]);
        assert(stable(states[marks[k]], z));
        lemma_begins(c, z);
    } else {
        lemma_moves_on(states, deeds, z, marks, k - 1);
        let a = marks[k - 1];
        let b = marks[k - 1 + 1];
        assert(is_sweep(deeds, marks[k - 1], marks[k - 1 + 1]));
        assert(0 <= a <= b < states.len());
        lemma_sweep_moving(states, deeds, z, a, b, k - 2 - n);
        assert(stage_after(deeds, a, b) == 5);
        lemma_moved(c, z, k - 2 - n);
    }
}

proof fn lemma_has_grows(states: Seq<ClusterView>, deeds: Seq<Deed>, z: Pair, a: int, b: int)
    requires
        is_steady(states, deeds, z),
        0 <= a <= b < states.len(),
    ensures
        has_of(states[b], z) >= has_of(states[a], z),
    decreases b - a,
{
    if a < b {
        lemma_has_grows(states, deeds, z, a, b - 1);
        lemma_steady(states, deeds, z, b - 1);
        let c = states[b - 1];
        let h = lemma_facts(c, z);
        lemma_back(c, deeds[b - 1], states[b], z, z.log.len() as int, 0);
    }
}

/// A member that follows a leader, hears it and is heard by it comes to have the
/// whole log of the leader, whatever log it had, as long as the leader goes on to
/// lead: after twice as many sweeps as the log has entries, and one more. A sweep is
/// a tick and four rounds behind it, whatever comes between.
pub proof fn lemma_catches_up(
    states: Seq<ClusterView>,
    deeds: Seq<Deed>,
    z: Pair,
    marks: Seq<int>,
    k: int,
)
    requires
        is_steady(states, deeds, z),
        are_sweeps(deeds, marks),
        marks.len() >= 2 * z.log.len() + 2,
        marks[2 * z.log.len() as int + 1] <= k < states.len(),
    ensures
        states[k].members[z.j].node.log.len() >= z.log.len(),
        states[k].members[z.j].node.log.take(z.log.len() as int) == z.log,
        states[k].members[z.i].node.log == z.log,
{
    let n = z.log.len() as int;
    let e = 2 * n + 1;
    assert(0 <= marks[e] <= deeds.len());
    lemma_moves_on(states, deeds, z, marks, e);
    let c = states[marks[e]];
    lemma_has_grows(states, deeds, z, marks[e], k);
    assert(stable(states[k], z));
    let w = states[k].members[z.j].node.log;
    lemma_common(w, z.log);
    lemma_shares_less(w, z.log, common(w, z.log), n);
    assert(z.log.take(n) =~= z.log);
}

} // verus!
