//! Whatever a node does can be written down in the chronicle.

use vstd::prelude::*;

use crate::raft::laws::{self, indexed};
use crate::raft::peers::{given, nodes_with, up_to};
use crate::raft::state::{
    append_body, asked, behind, broadcast, caught_up, checked_through, committed_more, consistent,
    counted, grants, handled, has_majority, heard_leader, highest_commit, leading, learned_commit,
    may_commit, next_for, one_less, one_more, persisted, posted, proposed, proposed_entry,
    same_for_all, sent_to, stepped, ticked, NodeView, Role,
};
use crate::raft::storage::{attaches, has_entry, lacking, lemma_lacking, spliced};
use crate::raft::types::{BodyView, EntryView, MessageView};
use crate::server::chronicle::{
    acks_kept, ahead, anchored, asks_for, bid_kept, bounded, certain, certain_by, chosen,
    chronicled, drawn, elected_by, endorsed, goes_to, has_unless_out, is_member, lead_kept,
    leads_on, lemma_anchored_on, lemma_certain_on, lemma_change, lemma_chosen_in, lemma_endorsed_on,
    lemma_has_on, lemma_ids, lemma_mail_kept, lemma_match, lemma_meet, lemma_onward_more,
    lemma_onward_same, lemma_out_on, lemma_shares_less, lemma_take_anchored, member_kept,
    message_kept, most_vouch, most_without, moves_on, onward, out, own, reign_kept, shares,
    supports, votes_kept, vouched, with_node, without, written_on, Chronicle, Reign,
};
use crate::server::cluster_state::MemberView;
use crate::server::matching::{ids_of, stretch_of, Stretch};
use crate::types::{LogIndex, NodeId, Term};

verus! {

/// A member is its node, none of its peers, and its log has an index for every
/// entry.
proof fn lemma_apart(ms: Seq<MemberView>, flight: Seq<MessageView>, h: Chronicle, i: int)
    requires
        chronicled(ms, flight, h),
        0 <= i < ms.len(),
    ensures
        ms[i].node.id == ms[i].id,
        !ms[i].node.config.peers.contains(ms[i].id),
        ms[i].node.log.len() <= u64::MAX,
{
    reveal(chronicled);
    assert(member_kept(ms, h, ms[i]));
}

/// A log that has a place of a leader of its term is ahead of it.
proof fn lemma_ahead(
    ms: Seq<MemberView>,
    flight: Seq<MessageView>,
    h: Chronicle,
    log: Seq<EntryView>,
    u: Term,
    n: int,
)
    requires
        chronicled(ms, flight, h),
        anchored(h, log),
        own(h, u, n),
        shares(log, h.log(u), n),
    ensures
        ahead(log, u, n),
{
    reveal(chronicled);
    let t = log.last().term;
    let k = log.len() as int;
    assert(log[k - 1].term == t);
    assert(reign_kept(ms, h, t));
    lemma_shares_less(log, h.log(u), n, n);
    lemma_shares_less(log, h.log(t), k, n);
    assert(h.log(t)[n - 1].term <= t);
}

/// A change that leaves the log, and what was said of it, alone.
proof fn lemma_turns(
    ms: Seq<MemberView>,
    flight: Seq<MessageView>,
    h: Chronicle,
    g: Chronicle,
    i: int,
    t: NodeView,
)
    requires
        chronicled(ms, flight, h),
        0 <= i < ms.len(),
        moves_on(ms[i].node, t),
        written_on(h, g, ms[i].node, t),
        g.reigns == h.reigns,
        g.acks == h.acks,
        t.log == ms[i].node.log,
        t.applied == ms[i].node.applied,
        t.commit >= ms[i].node.commit,
        t.commit == ms[i].node.commit || certain(ms, h, t.log, t.commit as int, t.term),
        votes_kept(g, t),
        lead_kept(g, t),
        bid_kept(with_node(ms, i, t), g, t) || (t.term == ms[i].node.term && t.votes
            == ms[i].node.votes),
        forall|msg: MessageView| #[trigger]
            t.outbox.contains(msg) && !ms[i].node.outbox.contains(msg) ==> message_kept(
                with_node(ms, i, t),
                g,
                msg,
            ),
    ensures
        chronicled(with_node(ms, i, t), flight, g),
        onward(ms, h, with_node(ms, i, t), g),
{
    reveal(chronicled);
    let ns = with_node(ms, i, t);
    let s = ms[i].node;
    let m = MemberView { node: t, ..ms[i] };
    assert(member_kept(ms, h, ms[i]));
    lemma_anchored_on(h, g, s, t, t.log);
    assert(certain(ms, h, t.log, t.commit as int, t.term)) by {
        if t.commit == s.commit && t.commit != 0 {
            let (u, n) = choose|u: Term, n: int| #[trigger]
                certain_by(ms, h, s.log, s.commit as int, s.term, u, n);
            assert(certain_by(ms, h, t.log, t.commit as int, t.term, u, n));
        }
    }
    lemma_certain_on(ms, h, g, i, t, t.log, t.commit as int, t.term);
    assert(t.commit <= t.log.len());
    assert forall|u: Term, n: int| #[trigger]
        own(g, u, n) && n <= g.ack(t.id, u) implies has_unless_out(ns, g, t.log, u, n) by {
        assert(own(h, u, n));
        lemma_has_on(ms, h, g, i, t, t.log, u, n);
    }
    assert(g.reigns.contains_key(t.term) ==> shares(t.log, g.log(t.term), g.ack(t.id, t.term))) by {
        if t.term > s.term {
            assert(h.ack(s.id, t.term) == 0);
            assert(t.log.take(0) =~= g.log(t.term).take(0));
        }
    }
    assert forall|u: Term|
        0 <= #[trigger] g.ack(t.id, u) && (g.ack(t.id, u) > 0 ==> u <= t.term
            && g.reigns.contains_key(u) && g.ack(t.id, u) <= g.log(u).len()) by {
        assert(h.ack(s.id, u) == g.ack(t.id, u));
    }
    assert(bid_kept(ns, g, t)) by {
        if t.role == Role::Candidate && t.term == s.term && t.votes == s.votes {
            assert forall|v: NodeId| #[trigger] t.votes.contains_key(v) && t.votes[v] implies supports(
                ns,
                g,
                v,
                t.term,
                t.id,
                t.log,
            ) by {
                assert(supports(ms, h, v, s.term, s.id, s.log));
                lemma_endorsed_on(ms, flight, h, g, i, t, v, s.term, s.log);
            }
        }
    }
    lemma_change(ms, flight, h, g, i, t);
}

/// A change with nothing to write down: the node keeps its role and its term, or
/// follows, and sends nothing.
proof fn lemma_idles(
    ms: Seq<MemberView>,
    flight: Seq<MessageView>,
    h: Chronicle,
    i: int,
    t: NodeView,
)
    requires
        chronicled(ms, flight, h),
        0 <= i < ms.len(),
        t.id == ms[i].node.id,
        t.config == ms[i].node.config,
        t.log == ms[i].node.log,
        t.applied == ms[i].node.applied,
        t.commit == ms[i].node.commit,
        t.outbox == ms[i].node.outbox,
        ({
            let s = ms[i].node;
            ||| t.term == s.term && t.vote == s.vote && t.role == s.role && t.votes == s.votes
                && t.matched == s.matched && t.next == s.next
            ||| t.term == s.term && t.vote == s.vote && s.role != Role::Leader && t.role
                == Role::Follower
            ||| t.term > s.term && t.vote is None && t.role == Role::Follower
        }),
    ensures
        chronicled(with_node(ms, i, t), flight, h),
        onward(ms, h, with_node(ms, i, t), h),
{
    reveal(chronicled);
    let s = ms[i].node;
    assert(member_kept(ms, h, ms[i]));
    assert(votes_kept(h, t)) by {
        assert forall|u: Term| #[trigger] h.votes.contains_key((t.id, u)) implies u <= t.term && (u
            == t.term ==> t.vote == Some(h.votes[(t.id, u)])) by {
            assert(h.votes.contains_key((s.id, u)));
        }
    }
    lemma_turns(ms, flight, h, h, i, t);
}

/// The node sends a message that agrees with the chronicle.
proof fn lemma_posts(
    ms: Seq<MemberView>,
    flight: Seq<MessageView>,
    h: Chronicle,
    i: int,
    to: NodeId,
    body: BodyView,
)
    requires
        chronicled(ms, flight, h),
        0 <= i < ms.len(),
        message_kept(
            ms,
            h,
            MessageView { from: ms[i].node.id, to, term: ms[i].node.term, body },
        ),
    ensures
        chronicled(with_node(ms, i, posted(ms[i].node, to, body)), flight, h),
        onward(ms, h, with_node(ms, i, posted(ms[i].node, to, body)), h),
{
    reveal(chronicled);
    let s = ms[i].node;
    let t = posted(s, to, body);
    let ns = with_node(ms, i, t);
    assert(member_kept(ms, h, ms[i]));
    let new = MessageView { from: s.id, to, term: s.term, body };
    lemma_mail_kept(ms, flight, h, h, i, t, new);
    assert forall|msg: MessageView| #[trigger]
        t.outbox.contains(msg) && !s.outbox.contains(msg) implies message_kept(ns, h, msg) by {
        let k = t.outbox.index_of(msg);
        if k < s.outbox.len() {
            assert(s.outbox[k] == msg);
        }
    }
    lemma_turns(ms, flight, h, h, i, t);
}

// ---- leading ---------------------------------------------------------------------------

/// A leader sends a peer what it needs.
proof fn lemma_serves(
    ms: Seq<MemberView>,
    flight: Seq<MessageView>,
    h: Chronicle,
    i: int,
    peer: NodeId,
)
    requires
        chronicled(ms, flight, h),
        0 <= i < ms.len(),
        ms[i].node.role == Role::Leader,
        peer != ms[i].id,
    ensures
        chronicled(
            with_node(ms, i, posted(ms[i].node, peer, append_body(ms[i].node, peer))),
            flight,
            h,
        ),
        onward(ms, h, with_node(ms, i, posted(ms[i].node, peer, append_body(ms[i].node, peer))), h),
{
    reveal(chronicled);
    let s = ms[i].node;
    assert(member_kept(ms, h, ms[i]));
    assert(lead_kept(h, s));
    let msg = MessageView { from: s.id, to: peer, term: s.term, body: append_body(s, peer) };
    let f = stretch_of(msg);
    let next = next_for(s, peer);
    assert(1 <= next <= s.log.len() + 1);
    assert(f.entries =~= s.log.subrange(f.base, f.base + f.entries.len()));
    assert(drawn(f, h.log(s.term)));
    lemma_posts(ms, flight, h, i, peer, append_body(s, peer));
}

proof fn lemma_sends(ms: Seq<MemberView>, flight: Seq<MessageView>, h: Chronicle, i: int, n: int)
    requires
        chronicled(ms, flight, h),
        0 <= i < ms.len(),
        ms[i].node.role == Role::Leader,
        0 <= n <= ms[i].node.config.peers.len(),
    ensures
        chronicled(with_node(ms, i, sent_to(ms[i].node, n)), flight, h),
        onward(ms, h, with_node(ms, i, sent_to(ms[i].node, n)), h),
        sent_to(ms[i].node, n) == (NodeView {
            outbox: sent_to(ms[i].node, n).outbox,
            ..ms[i].node
        }),
    decreases n,
{
    let s = ms[i].node;
    if n > 0 {
        lemma_sends(ms, flight, h, i, n - 1);
        let p = sent_to(s, n - 1);
        let ps = with_node(ms, i, p);
        let peer = s.config.peers[n - 1];
        lemma_apart(ms, flight, h, i);
        assert(s.config.peers.contains(peer));
        lemma_serves(ps, flight, h, i, peer);
        assert(with_node(ps, i, sent_to(s, n)) =~= with_node(ms, i, sent_to(s, n)));
        lemma_onward_more(ms, h, ps, h, with_node(ms, i, sent_to(s, n)), h);
    } else {
        assert(with_node(ms, i, s) =~= ms);
        lemma_onward_same(ms, h);
    }
}

/// What a leader may commit is chosen.
proof fn lemma_may(ms: Seq<MemberView>, flight: Seq<MessageView>, h: Chronicle, i: int, n: int)
    requires
        chronicled(ms, flight, h),
        0 <= i < ms.len(),
        ms[i].node.role == Role::Leader,
        may_commit(ms[i].node, n),
    ensures
        chosen(ms, h, ms[i].node.term, n),
{
    reveal(chronicled);
    let s = ms[i].node;
    assert(member_kept(ms, h, ms[i]));
    assert(lead_kept(h, s));
    let a = nodes_with(s.matched, up_to(s.id, n as u64));
    lemma_ids(ms);
    assert forall|v: NodeId| #[trigger] a.contains(v) implies vouched(ms, h, v, s.term, n) && v
        != s.id by {
        assert(s.matched.contains_key(v));
        assert(h.ack(v, s.term) > 0);
    }
    let all = ids_of(ms);
    assert(a.subset_of(all)) by {
        assert forall|v: NodeId| a.contains(v) implies all.contains(v) by {
            assert(vouched(ms, h, v, s.term, n));
        }
    }
    vstd::set_lib::lemma_len_subset(a, all);
    let q = a.insert(s.id);
    assert forall|v: NodeId| q.contains(v) implies #[trigger] vouched(ms, h, v, s.term, n) by {
        if v == s.id {
            assert(ms[i].id == v);
            assert(is_member(ms, v));
        } else {
            assert(a.contains(v));
        }
    }
    assert(q.len() == a.len() + 1) by {
        assert(!a.contains(s.id));
    }
    assert(2 * q.len() > ms.len());
    assert(most_vouch(ms, h, q, s.term, n));
}

/// A leader commits what it may.
proof fn lemma_commits(ms: Seq<MemberView>, flight: Seq<MessageView>, h: Chronicle, i: int)
    requires
        chronicled(ms, flight, h),
        0 <= i < ms.len(),
        ms[i].node.role == Role::Leader,
    ensures
        chronicled(with_node(ms, i, committed_more(ms[i].node)), flight, h),
        onward(ms, h, with_node(ms, i, committed_more(ms[i].node)), h),
{
    reveal(chronicled);
    let s = ms[i].node;
    let t = committed_more(s);
    let c = highest_commit(s, s.log.len() as int);
    assert(member_kept(ms, h, ms[i]));
    assert(lead_kept(h, s));
    if c == s.commit {
        assert(with_node(ms, i, t) =~= ms);
        lemma_onward_same(ms, h);
    } else {
        laws::lemma_commit_rule(s, s.log.len() as int);
        lemma_may(ms, flight, h, i, c as int);
        assert(s.log.take(c as int) =~= h.log(s.term).take(c as int));
        assert(certain_by(ms, h, t.log, c as int, s.term, s.term, c as int));
        lemma_turns(ms, flight, h, h, i, t);
    }
}

/// A leader puts one more entry behind its log.
#[verifier::spinoff_prover]
#[verifier::rlimit(30)]
proof fn lemma_grows(
    ms: Seq<MemberView>,
    flight: Seq<MessageView>,
    h: Chronicle,
    i: int,
    e: EntryView,
) -> (g: Chronicle)
    requires
        chronicled(ms, flight, h),
        0 <= i < ms.len(),
        ms[i].node.role == Role::Leader,
        ms[i].node.log.len() < u64::MAX,
        e.term == ms[i].node.term,
        e.index == ms[i].node.log.len() + 1,
    ensures
        chronicled(
            with_node(ms, i, NodeView { log: ms[i].node.log.push(e), ..ms[i].node }),
            flight,
            g,
        ),
        onward(ms, h, with_node(ms, i, NodeView { log: ms[i].node.log.push(e), ..ms[i].node }), g),
{
    reveal(chronicled);
    let s = ms[i].node;
    let a = s.log;
    let b = a.push(e);
    let t = NodeView { log: b, ..s };
    let ns = with_node(ms, i, t);
    let term = s.term;
    let g = Chronicle {
        reigns: h.reigns.insert(term, Reign { leader: s.id, log: b }),
        acks: h.acks.insert((s.id, term), b.len() as int),
        votes: h.votes,
    };
    assert(member_kept(ms, h, ms[i]));
    assert(lead_kept(h, s));
    let k = a.len() as int;
    assert(shares(a, b, k)) by {
        assert(a.take(k) =~= b.take(k));
    }
    assert(written_on(h, g, s, t)) by {
        assert forall|u: Term| #[trigger] h.reigns.contains_key(u) implies g.reigns.contains_key(u)
            && g.reigns[u].leader == h.reigns[u].leader && shares(
            h.log(u),
            g.log(u),
            h.log(u).len() as int,
        ) by {}
    }
    lemma_anchored_on(h, g, s, t, a);
    assert(anchored(g, b)) by {
        assert forall|j: int| 0 <= j < b.len() implies g.reigns.contains_key((#[trigger] b[j]).term)
            && shares(b, g.log(b[j].term), j + 1) by {
            if j < k {
                assert(b[j] == a[j]);
                assert(b.take(j + 1) =~= a.take(j + 1));
            }
        }
    }
    lemma_certain_on(ms, h, g, i, t, a, s.commit as int, term);
    assert(certain(ns, g, b, s.commit as int, term)) by {
        if s.commit != 0 {
            let (u, n) = choose|u: Term, n: int| #[trigger]
                certain_by(ns, g, a, s.commit as int, term, u, n);
            lemma_shares_less(a, b, k, s.commit as int);
            assert(certain_by(ns, g, b, s.commit as int, term, u, n));
        }
    }
    assert(a.take(s.applied as int) =~= b.take(s.applied as int));
    assert(acks_kept(ns, g, t)) by {
        assert forall|u: Term|
            0 <= #[trigger] g.ack(t.id, u) && (g.ack(t.id, u) > 0 ==> u <= t.term
                && g.reigns.contains_key(u) && g.ack(t.id, u) <= g.log(u).len()) by {
            assert(0 <= h.ack(s.id, u));
        }
        assert forall|u: Term, n: int| #[trigger]
            own(g, u, n) && n <= g.ack(t.id, u) implies has_unless_out(ns, g, b, u, n) by {
            if u == term {
                lemma_shares_less(b, b, b.len() as int, n);
            } else {
                assert(h.ack(s.id, u) == g.ack(t.id, u));
                assert(own(h, u, n));
                lemma_has_on(ms, h, g, i, t, a, u, n);
                if shares(a, g.log(u), n) {
                    lemma_shares_less(a, b, k, n);
                }
            }
        }
        assert(shares(b, b, b.len() as int));
    }
    assert(lead_kept(g, t)) by {
        assert forall|p: NodeId| #[trigger] t.matched.contains_key(p) && p != t.id implies
            t.matched[p] <= g.ack(p, t.term) by {
            assert(s.matched[p] <= h.ack(p, s.term));
        }
        assert forall|p: NodeId| #[trigger] t.next.contains_key(p) implies 1 <= t.next[p]
            <= t.log.len() + 1 by {
            assert(s.next.contains_key(p));
        }
    }
    lemma_change(ms, flight, h, g, i, t);
    g
}

/// Those whose votes a candidate counts, all of the cluster.
proof fn lemma_counted(ms: Seq<MemberView>, flight: Seq<MessageView>, h: Chronicle, i: int) -> (q:
    Set<NodeId>)
    requires
        chronicled(ms, flight, h),
        0 <= i < ms.len(),
        ms[i].node.role == Role::Candidate,
        has_majority(ms[i].node),
    ensures
        elected_by(ms, h, q, ms[i].node.term, ms[i].node.id),
        forall|v: NodeId| #[trigger]
            q.contains(v) ==> is_member(ms, v) && supports(
                ms,
                h,
                v,
                ms[i].node.term,
                ms[i].node.id,
                ms[i].node.log,
            ),
{
    reveal(chronicled);
    let s = ms[i].node;
    let q = nodes_with(s.votes, given());
    assert(member_kept(ms, h, ms[i]));
    lemma_ids(ms);
    assert forall|v: NodeId| #[trigger] q.contains(v) implies is_member(ms, v) && supports(
        ms,
        h,
        v,
        s.term,
        s.id,
        s.log,
    ) by {
        assert(s.votes.contains_key(v) && s.votes[v]);
        assert(h.votes.contains_key((v, s.term)));
    }
    let all = ids_of(ms);
    assert(q.subset_of(all));
    vstd::set_lib::lemma_len_subset(q, all);
    assert forall|v: NodeId| q.contains(v) implies #[trigger] h.voted(v, s.term, s.id) by {
        assert(supports(ms, h, v, s.term, s.id, s.log));
    }
    q
}

/// The log of a candidate with enough votes has whatever was chosen in earlier
/// terms.
proof fn lemma_winner_has(
    ms: Seq<MemberView>,
    flight: Seq<MessageView>,
    h: Chronicle,
    i: int,
    u: Term,
    n: int,
)
    requires
        chronicled(ms, flight, h),
        0 <= i < ms.len(),
        ms[i].node.role == Role::Candidate,
        has_majority(ms[i].node),
        own(h, u, n),
        u < ms[i].node.term,
    ensures
        has_unless_out(ms, h, ms[i].node.log, u, n),
{
    reveal(chronicled);
    let s = ms[i].node;
    let log = s.log;
    let q = lemma_counted(ms, flight, h, i);
    assert(member_kept(ms, h, ms[i]));
    if !out(ms, h, u, n) {
        if forall|v: NodeId| #[trigger] q.contains(v) ==> h.ack(v, u) < n {
            assert forall|v: NodeId| q.contains(v) implies #[trigger] without(ms, h, v, u, n) by {
                assert(h.voted(v, s.term, s.id));
                let l = choose|l: int| 0 <= l < ms.len() && (#[trigger] ms[l]).id == v;
                assert(member_kept(ms, h, ms[l]));
                assert(h.votes.contains_key((ms[l].node.id, s.term)));
                assert(ms[l].node.term >= u + 1);
            }
            assert(most_without(ms, h, q, u, n));
        }
        let v = choose|v: NodeId| #[trigger] q.contains(v) && h.ack(v, u) >= n;
        assert(supports(ms, h, v, s.term, s.id, log));
        assert(ahead(log, u, n));
        let t = log.last().term;
        let k = log.len() as int;
        assert(log[k - 1].term == t);
        assert(shares(log, h.log(t), k));
        assert(reign_kept(ms, h, t));
        if t == u {
            lemma_shares_less(log, h.log(u), k, n);
        } else {
            assert(has_unless_out(ms, h, h.log(t), u, n));
            lemma_shares_less(h.log(t), h.log(u), n, n);
            if n >= k {
                // the last entry would stand behind one of an earlier term
                let a = h.log(t);
                assert(a[n - 1].term == u);
                lemma_shares_less(log, a, k, k);
                assert(a[k - 1].term == t);
                assert(anchored(h, a));
                assert(shares(a, h.log(u), n));
                lemma_shares_less(a, h.log(u), n, k);
                assert(reign_kept(ms, h, u));
                assert(h.log(u)[k - 1].term <= u);
            }
            lemma_shares_less(log, h.log(t), k, n);
        }
    }
}

/// A candidate that has won is the first to lead in its term.
proof fn lemma_new_term(
    ms: Seq<MemberView>,
    flight: Seq<MessageView>,
    h: Chronicle,
    i: int,
    q: Set<NodeId>,
)
    requires
        chronicled(ms, flight, h),
        0 <= i < ms.len(),
        ms[i].node.role == Role::Candidate,
        elected_by(ms, h, q, ms[i].node.term, ms[i].node.id),
        forall|v: NodeId| #[trigger] q.contains(v) ==> is_member(ms, v),
    ensures
        !h.reigns.contains_key(ms[i].node.term),
        forall|v: NodeId| #[trigger] h.ack(v, ms[i].node.term) == 0,
{
    reveal(chronicled);
    let s = ms[i].node;
    let term = s.term;
    assert(member_kept(ms, h, ms[i]));
    assert(!h.reigns.contains_key(term)) by {
        if h.reigns.contains_key(term) {
            assert(reign_kept(ms, h, term));
            let r = h.reigns[term];
            let p = choose|p: Set<NodeId>| #[trigger] elected_by(ms, h, p, term, r.leader);
            assert forall|v: NodeId| #[trigger] p.contains(v) implies is_member(ms, v) by {
                assert(h.voted(v, term, r.leader));
                assert(h.votes.contains_key((v, term)));
            }
            let v = lemma_meet(ms, p, q);
            assert(h.voted(v, term, r.leader));
            assert(h.voted(v, term, s.id));
            let l = choose|l: int| 0 <= l < ms.len() && leads_on(#[trigger] ms[l], term, r);
            if l < i {
                assert(ms[l].id != ms[i].id);
            } else if i < l {
                assert(ms[i].id != ms[l].id);
            }
        }
    }
    assert forall|v: NodeId| #[trigger] h.ack(v, term) == 0 by {
        if h.ack(v, term) != 0 {
            let l = choose|l: int| 0 <= l < ms.len() && (#[trigger] ms[l]).id == v;
            assert(member_kept(ms, h, ms[l]));
            assert(0 <= h.ack(ms[l].node.id, term));
        }
    }
}

/// A candidate with enough votes leads.
#[verifier::spinoff_prover]
#[verifier::rlimit(30)]
proof fn lemma_leads(
    ms: Seq<MemberView>,
    flight: Seq<MessageView>,
    h: Chronicle,
    i: int,
    t: NodeView,
) -> (g: Chronicle)
    requires
        chronicled(ms, flight, h),
        0 <= i < ms.len(),
        ms[i].node.role == Role::Candidate,
        has_majority(ms[i].node),
        t == (NodeView {
            role: Role::Leader,
            leader: Some(ms[i].node.id),
            elapsed: 0,
            next: same_for_all(ms[i].node.config.peers, behind(ms[i].node.log)),
            matched: same_for_all(ms[i].node.config.peers, 0),
            ..ms[i].node
        }),
    ensures
        chronicled(with_node(ms, i, t), flight, g),
        onward(ms, h, with_node(ms, i, t), g),
{
    reveal(chronicled);
    let s = ms[i].node;
    let a = s.log;
    let ns = with_node(ms, i, t);
    let term = s.term;
    let k = a.len() as int;
    let g = Chronicle {
        reigns: h.reigns.insert(term, Reign { leader: s.id, log: a }),
        acks: h.acks.insert((s.id, term), k),
        votes: h.votes,
    };
    let q = lemma_counted(ms, flight, h, i);
    assert(member_kept(ms, h, ms[i]));
    lemma_new_term(ms, flight, h, i, q);
    assert(h.ack(s.id, term) == 0);
    assert(written_on(h, g, s, t)) by {
        assert forall|u: Term| #[trigger] h.reigns.contains_key(u) implies g.reigns.contains_key(u)
            && g.reigns[u].leader == h.reigns[u].leader && shares(
            h.log(u),
            g.log(u),
            h.log(u).len() as int,
        ) by {}
    }
    lemma_anchored_on(h, g, s, t, a);
    lemma_certain_on(ms, h, g, i, t, a, s.commit as int, term);
    assert(acks_kept(ns, g, t)) by {
        assert forall|u: Term|
            0 <= #[trigger] g.ack(t.id, u) && (g.ack(t.id, u) > 0 ==> u <= t.term
                && g.reigns.contains_key(u) && g.ack(t.id, u) <= g.log(u).len()) by {
            assert(0 <= h.ack(s.id, u));
        }
        assert forall|u: Term, n: int| #[trigger]
            own(g, u, n) && n <= g.ack(t.id, u) implies has_unless_out(ns, g, a, u, n) by {
            if u == term {
                assert(h.reigns.contains_key(a[n - 1].term));
            } else {
                assert(h.ack(s.id, u) == g.ack(t.id, u));
                assert(own(h, u, n));
                lemma_has_on(ms, h, g, i, t, a, u, n);
            }
        }
        assert(shares(a, a, k));
    }
    assert(lead_kept(g, t)) by {
        assert forall|p: NodeId| #[trigger] t.matched.contains_key(p) && p != t.id implies
            t.matched[p] <= g.ack(p, t.term) by {
            assert(h.ack(p, term) == 0);
        }
    }
    assert(reign_kept(ns, g, term)) by {
        assert(leads_on(ns[i], term, g.reigns[term]));
        assert forall|v: NodeId| q.contains(v) implies #[trigger] g.voted(v, term, s.id) by {
            assert(h.voted(v, term, s.id));
        }
        assert(elected_by(ns, g, q, term, s.id));
        assert forall|u: Term, n: int| #[trigger] own(g, u, n) && u < term implies has_unless_out(
            ns,
            g,
            a,
            u,
            n,
        ) by {
            assert(own(h, u, n));
            lemma_winner_has(ms, flight, h, i, u, n);
            lemma_has_on(ms, h, g, i, t, a, u, n);
        }
    }
    lemma_change(ms, flight, h, g, i, t);
    g
}

/// A candidate that has enough votes leads, tells the others, and commits what it
/// may.
proof fn lemma_counts(ms: Seq<MemberView>, flight: Seq<MessageView>, h: Chronicle, i: int) -> (g:
    Chronicle)
    requires
        chronicled(ms, flight, h),
        0 <= i < ms.len(),
    ensures
        chronicled(with_node(ms, i, counted(ms[i].node)), flight, g),
        onward(ms, h, with_node(ms, i, counted(ms[i].node)), g),
{
    let s = ms[i].node;
    if s.role == Role::Candidate && has_majority(s) {
        let f = NodeView {
            role: Role::Leader,
            leader: Some(s.id),
            elapsed: 0,
            next: same_for_all(s.config.peers, behind(s.log)),
            matched: same_for_all(s.config.peers, 0),
            ..s
        };
        let g = lemma_leads(ms, flight, h, i, f);
        let fs = with_node(ms, i, f);
        lemma_broadcasts(fs, flight, g, i);
        let b = broadcast(f);
        assert(with_node(fs, i, committed_more(b)) =~= with_node(ms, i, leading(s)));
        lemma_onward_more(ms, h, fs, g, with_node(ms, i, leading(s)), g);
        g
    } else {
        assert(with_node(ms, i, s) =~= ms);
        lemma_onward_same(ms, h);
        h
    }
}

/// A leader tells the others, and commits what it may.
proof fn lemma_broadcasts(ms: Seq<MemberView>, flight: Seq<MessageView>, h: Chronicle, i: int)
    requires
        chronicled(ms, flight, h),
        0 <= i < ms.len(),
        ms[i].node.role == Role::Leader,
    ensures
        chronicled(with_node(ms, i, broadcast(ms[i].node)), flight, h),
        onward(ms, h, with_node(ms, i, broadcast(ms[i].node)), h),
        chronicled(with_node(ms, i, committed_more(broadcast(ms[i].node))), flight, h),
        onward(ms, h, with_node(ms, i, committed_more(broadcast(ms[i].node))), h),
{
    let s = ms[i].node;
    lemma_sends(ms, flight, h, i, s.config.peers.len() as int);
    let b = broadcast(s);
    let bs = with_node(ms, i, b);
    lemma_commits(bs, flight, h, i);
    assert(with_node(bs, i, committed_more(b)) =~= with_node(ms, i, committed_more(b)));
    lemma_onward_more(ms, h, bs, h, with_node(ms, i, committed_more(b)), h);
}

/// A proposal is written down.
pub proof fn lemma_proposes(
    ms: Seq<MemberView>,
    flight: Seq<MessageView>,
    h: Chronicle,
    i: int,
    data: Seq<u8>,
) -> (g: Chronicle)
    requires
        chronicled(ms, flight, h),
        0 <= i < ms.len(),
        ms[i].node.role == Role::Leader,
        ms[i].node.log.len() < u64::MAX,
    ensures
        chronicled(with_node(ms, i, proposed(ms[i].node, data)), flight, g),
        onward(ms, h, with_node(ms, i, proposed(ms[i].node, data)), g),
{
    let s = ms[i].node;
    let e = proposed_entry(s, data);
    let p = NodeView { log: s.log.push(e), ..s };
    let g = lemma_grows(ms, flight, h, i, e);
    let ps = with_node(ms, i, p);
    lemma_broadcasts(ps, flight, g, i);
    assert(with_node(ps, i, proposed(s, data)) =~= with_node(ms, i, proposed(s, data)));
    lemma_onward_more(ms, h, ps, g, with_node(ms, i, proposed(s, data)), g);
    g
}

// ---- elections -------------------------------------------------------------------------

/// A node stands for election.
proof fn lemma_stands(
    ms: Seq<MemberView>,
    flight: Seq<MessageView>,
    h: Chronicle,
    i: int,
    t: NodeView,
) -> (g: Chronicle)
    requires
        chronicled(ms, flight, h),
        0 <= i < ms.len(),
        ms[i].node.term < u64::MAX,
        t == persisted(
            NodeView {
                role: Role::Candidate,
                term: (ms[i].node.term + 1) as u64,
                vote: Some(ms[i].node.id),
                votes: Map::<NodeId, bool>::empty().insert(ms[i].node.id, true),
                elapsed: 0,
                leader: None,
                ..ms[i].node
            },
        ),
    ensures
        chronicled(with_node(ms, i, t), flight, g),
        onward(ms, h, with_node(ms, i, t), g),
{
    reveal(chronicled);
    let s = ms[i].node;
    let ns = with_node(ms, i, t);
    let g = Chronicle { votes: h.votes.insert((s.id, t.term), s.id), ..h };
    assert(member_kept(ms, h, ms[i]));
    assert(votes_kept(g, t)) by {
        assert forall|u: Term| #[trigger] g.votes.contains_key((t.id, u)) implies u <= t.term && (u
            == t.term ==> t.vote == Some(g.votes[(t.id, u)])) by {
            if u != t.term {
                assert(h.votes.contains_key((s.id, u)));
            }
        }
    }
    assert(written_on(h, g, s, t)) by {
        assert forall|v: NodeId, u: Term| #[trigger] h.votes.contains_key((v, u)) implies
            g.votes.contains_key((v, u)) && g.votes[(v, u)] == h.votes[(v, u)] by {
            if v == s.id && u == t.term {
                assert(h.votes.contains_key((s.id, t.term)));
            }
        }
        assert forall|u: Term| #[trigger] h.reigns.contains_key(u) implies shares(
            h.log(u),
            g.log(u),
            h.log(u).len() as int,
        ) by {}
    }
    lemma_anchored_on(h, g, s, t, s.log);
    assert(bid_kept(ns, g, t)) by {
        assert forall|u: Term, n: int| #[trigger]
            own(g, u, n) && u < t.term && n <= g.ack(s.id, u) implies out(ns, g, u, n) || ahead(
            t.log,
            u,
            n,
        ) by {
            assert(own(h, u, n));
            assert(h.ack(s.id, u) == g.ack(s.id, u));
            assert(has_unless_out(ms, h, s.log, u, n));
            if shares(s.log, h.log(u), n) {
                lemma_ahead(ms, flight, h, s.log, u, n);
            } else {
                lemma_out_on(ms, h, g, i, t, u, n);
            }
        }
        assert(supports(ns, g, s.id, t.term, t.id, t.log));
    }
    lemma_turns(ms, flight, h, g, i, t);
    g
}

/// A candidate asks for votes.
proof fn lemma_asks(ms: Seq<MemberView>, flight: Seq<MessageView>, h: Chronicle, i: int, n: int)
    requires
        chronicled(ms, flight, h),
        0 <= i < ms.len(),
        0 <= n <= ms[i].node.config.peers.len(),
    ensures
        chronicled(with_node(ms, i, asked(ms[i].node, n)), flight, h),
        onward(ms, h, with_node(ms, i, asked(ms[i].node, n)), h),
        asked(ms[i].node, n) == (NodeView { outbox: asked(ms[i].node, n).outbox, ..ms[i].node }),
    decreases n,
{
    let s = ms[i].node;
    if n > 0 {
        lemma_asks(ms, flight, h, i, n - 1);
        let p = asked(s, n - 1);
        let ps = with_node(ms, i, p);
        let body = BodyView::RequestVote {
            last_log_index: s.log.len() as u64,
            last_log_term: s.term_at(s.log.len() as int),
        };
        let peer = s.config.peers[n - 1];
        let msg = MessageView { from: s.id, to: peer, term: s.term, body };
        lemma_apart(ms, flight, h, i);
        assert(asks_for(ps[i], msg, s.log.len() as u64, s.term_at(s.log.len() as int)));
        lemma_posts(ps, flight, h, i, peer, body);
        assert(with_node(ps, i, asked(s, n)) =~= with_node(ms, i, asked(s, n)));
        lemma_onward_more(ms, h, ps, h, with_node(ms, i, asked(s, n)), h);
    } else {
        assert(with_node(ms, i, s) =~= ms);
        lemma_onward_same(ms, h);
    }
}

/// A tick is written down.
pub proof fn lemma_ticks(ms: Seq<MemberView>, flight: Seq<MessageView>, h: Chronicle, i: int) -> (g:
    Chronicle)
    requires
        chronicled(ms, flight, h),
        0 <= i < ms.len(),
        ms[i].node.term < u64::MAX,
    ensures
        chronicled(with_node(ms, i, ticked(ms[i].node)), flight, g),
        onward(ms, h, with_node(ms, i, ticked(ms[i].node)), g),
{
    let s = ms[i].node;
    let t = NodeView { elapsed: (s.elapsed + 1) as u32, ..s };
    let ts = with_node(ms, i, t);
    lemma_idles(ms, flight, h, i, t);
    if t.elapsed < t.patience() {
        h
    } else if s.role == Role::Leader {
        lemma_broadcasts(ts, flight, h, i);
        let b = broadcast(t);
        let bs = with_node(ts, i, b);
        let n = NodeView { elapsed: 0, ..b };
        lemma_idles(bs, flight, h, i, n);
        assert(with_node(bs, i, n) =~= with_node(ms, i, ticked(s)));
        lemma_onward_more(ms, h, ts, h, bs, h);
        lemma_onward_more(ms, h, bs, h, with_node(ms, i, ticked(s)), h);
        h
    } else {
        let f = persisted(
            NodeView {
                role: Role::Candidate,
                term: (t.term + 1) as u64,
                vote: Some(t.id),
                votes: Map::<NodeId, bool>::empty().insert(t.id, true),
                elapsed: 0,
                leader: None,
                ..t
            },
        );
        let g = lemma_stands(ts, flight, h, i, f);
        let fs = with_node(ts, i, f);
        let p = s.config.peers.len() as int;
        lemma_asks(fs, flight, g, i, p);
        let a = asked(f, p);
        let z = with_node(fs, i, a);
        let e = lemma_counts(z, flight, g, i);
        assert(with_node(z, i, counted(a)) =~= with_node(ms, i, ticked(s)));
        lemma_onward_more(ms, h, ts, h, fs, g);
        lemma_onward_more(ms, h, fs, g, z, g);
        lemma_onward_more(ms, h, z, g, with_node(ms, i, ticked(s)), e);
        e
    }
}

// ---- messages --------------------------------------------------------------------------

/// What a log becomes by what a leader sends: it begins with the first `e`
/// entries of the leader's log, and if it did not before, it is these.
pub open spec fn brought(a: Seq<EntryView>, b: Seq<EntryView>, lead: Seq<EntryView>, e: int) -> bool {
    &&& 0 <= e <= lead.len()
    &&& shares(a, lead, e) ==> b == a
    &&& !shares(a, lead, e) ==> b == lead.take(e)
}

/// Such a log keeps what it shares with the leader's.
pub proof fn lemma_brought(a: Seq<EntryView>, b: Seq<EntryView>, lead: Seq<EntryView>, e: int, k: int)
    requires
        brought(a, b, lead, e),
        shares(a, lead, k),
    ensures
        shares(b, lead, k),
        b.take(k) == a.take(k),
{
    if !shares(a, lead, e) {
        if k >= e {
            lemma_shares_less(a, lead, k, e);
        }
        assert(b.take(k) =~= lead.take(k));
    }
}

/// What a log takes on of what the leader sends.
#[verifier::spinoff_prover]
pub proof fn lemma_brings(
    h: Chronicle,
    a: Seq<EntryView>,
    lead: Seq<EntryView>,
    index: int,
    term: Term,
    es: Seq<EntryView>,
)
    requires
        anchored(h, a),
        anchored(h, lead),
        indexed(lead),
        drawn(Stretch { base: index, term, entries: es }, lead),
        index == 0 || (index <= a.len() && a[index - 1].term == term),
    ensures
        attaches(a, lacking(a, es)),
        brought(a, spliced(a, lacking(a, es)), lead, index + es.len()),
{
    let k = lemma_lacking(a, es);
    let e = index + es.len();
    assert forall|j: int| 0 <= j < es.len() implies #[trigger] es[j] == lead[index + j] by {}
    // the log is the leader's up to the last entry that it has
    assert(shares(a, lead, index + k)) by {
        if index + k == 0 {
            assert(a.take(0) =~= lead.take(0));
        } else {
            if k > 0 {
                assert(has_entry(a, es[k - 1]));
                assert(es[k - 1] == lead[index + k - 1]);
                assert(lead[index + k - 1].index == index + k);
            }
            lemma_match(h, a, lead, index + k);
        }
    }
    if k < es.len() {
        let r = es.skip(k);
        assert(r[0] == es[k]);
        assert(es[k] == lead[index + k]);
        assert(lead[index + k].index == index + k + 1);
        let b = spliced(a, r);
        assert(b == a.take(index + k) + r);
        assert(a.take(index + k) == lead.take(index + k));
        assert(b =~= lead.take(e)) by {
            assert forall|j: int| 0 <= j < e implies b[j] == lead[j] by {
                if j < index + k {
                    assert(a.take(index + k)[j] == lead.take(index + k)[j]);
                } else {
                    assert(b[j] == r[j - index - k]);
                    assert(r[j - index - k] == es[j - index]);
                }
            }
        }
        if shares(a, lead, e) {
            lemma_shares_less(a, lead, e, index + k + 1);
            assert(has_entry(a, es[k]));
        }
    }
}

/// A follower takes entries on, and has said that it has them.
#[verifier::spinoff_prover]
#[verifier::rlimit(30)]
proof fn lemma_takes(
    ms: Seq<MemberView>,
    flight: Seq<MessageView>,
    h: Chronicle,
    i: int,
    b: Seq<EntryView>,
    e: int,
    ns: Seq<MemberView>,
) -> (g: Chronicle)
    requires
        chronicled(ms, flight, h),
        0 <= i < ms.len(),
        ns == with_node(ms, i, NodeView { log: b, ..ms[i].node }),
        ms[i].node.role == Role::Follower,
        h.reigns.contains_key(ms[i].node.term),
        brought(ms[i].node.log, b, h.log(ms[i].node.term), e),
    ensures
        chronicled(ns, flight, g),
        onward(ms, h, ns, g),
        g.reigns == h.reigns,
        g.ack(ms[i].node.id, ms[i].node.term) >= e,
        shares(b, h.log(ms[i].node.term), e),
        forall|log: Seq<EntryView>, k: int, u: Term|
            certain(ms, h, log, k, u) ==> #[trigger] certain(ns, g, log, k, u),
{
    reveal(chronicled);
    let s = ms[i].node;
    let a = s.log;
    let term = s.term;
    let lead = h.log(term);
    let t = NodeView { log: b, ..s };
    let before = h.ack(s.id, term);
    let now = if before >= e {
        before
    } else {
        e
    };
    let g = Chronicle { acks: h.acks.insert((s.id, term), now), ..h };
    assert(member_kept(ms, h, ms[i]));
    assert(reign_kept(ms, h, term));
    assert(written_on(h, g, s, t)) by {
        assert forall|u: Term| #[trigger] h.reigns.contains_key(u) implies shares(
            h.log(u),
            g.log(u),
            h.log(u).len() as int,
        ) by {}
    }
    assert forall|log: Seq<EntryView>, k: int, u: Term| certain(ms, h, log, k, u) implies
        #[trigger] certain(ns, g, log, k, u) by {
        lemma_certain_on(ms, h, g, i, t, log, k, u);
    }
    lemma_take_anchored(h, lead, e);
    assert(shares(b, lead, e));
    assert(anchored(h, b) && bounded(b, term)) by {
        if !shares(a, lead, e) {
            assert forall|j: int| 0 <= j < b.len() implies (#[trigger] b[j]).term <= term
                && b[j].index == j + 1 by {
                assert(b[j] == lead[j]);
            }
        }
    }
    lemma_anchored_on(h, g, s, t, b);
    assert(shares(a, lead, before));
    lemma_brought(a, b, lead, e, before);
    assert(shares(b, lead, now));
    // what was committed is the leader's, and stays
    assert(certain(ms, h, b, s.commit as int, term) && b.take(s.commit as int) == a.take(
        s.commit as int,
    ) && s.commit <= b.len()) by {
        if s.commit != 0 {
            let c = s.commit as int;
            let (u, n) = choose|u: Term, n: int| #[trigger]
                certain_by(ms, h, a, c, term, u, n);
            lemma_chosen_in(ms, h, u, n);
            assert(shares(lead, h.log(u), c)) by {
                if u < term {
                    assert(has_unless_out(ms, h, lead, u, n));
                    lemma_shares_less(lead, h.log(u), n, c);
                }
            }
            lemma_brought(a, b, lead, e, c);
            assert(certain_by(ms, h, b, c, term, u, n));
        } else {
            assert(b.take(0) =~= a.take(0));
        }
    }
    assert(b.take(s.applied as int) =~= a.take(s.applied as int)) by {
        let c = s.commit as int;
        assert(b.take(s.applied as int) =~= b.take(c).take(s.applied as int));
        assert(a.take(s.applied as int) =~= a.take(c).take(s.applied as int));
    }
    assert(acks_kept(ns, g, t)) by {
        assert forall|u: Term|
            0 <= #[trigger] g.ack(t.id, u) && (g.ack(t.id, u) > 0 ==> u <= t.term
                && g.reigns.contains_key(u) && g.ack(t.id, u) <= g.log(u).len()) by {
            assert(0 <= h.ack(s.id, u));
        }
        assert forall|u: Term, n: int| #[trigger]
            own(g, u, n) && n <= g.ack(t.id, u) implies has_unless_out(ns, g, b, u, n) by {
            assert(own(h, u, n));
            if u == term {
                lemma_shares_less(b, lead, now, n);
            } else {
                assert(h.ack(s.id, u) == g.ack(t.id, u));
                assert(u < term);
                assert(has_unless_out(ms, h, a, u, n));
                assert(has_unless_out(ms, h, lead, u, n));
                assert(has_unless_out(ms, h, b, u, n)) by {
                    if !out(ms, h, u, n) {
                        lemma_brought(a, b, lead, e, n);
                    }
                }
                lemma_has_on(ms, h, g, i, t, b, u, n);
            }
        }
    }
    lemma_change(ms, flight, h, g, i, t);
    g
}

/// A follower hears from the leader of its term.
proof fn lemma_receives(
    ms: Seq<MemberView>,
    flight: Seq<MessageView>,
    h: Chronicle,
    i: int,
    msg: MessageView,
) -> (g: Chronicle)
    requires
        chronicled(ms, flight, h),
        0 <= i < ms.len(),
        ms[i].node.role == Role::Follower,
        msg.body is AppendEntries,
        msg.term == ms[i].node.term,
        msg.from != ms[i].node.id,
        message_kept(ms, h, msg),
        ({
            let s = ms[i].node;
            s == heard_leader(s, msg.from)
        }),
    ensures
        chronicled(with_node(ms, i, handled(ms[i].node, msg)), flight, g),
        onward(ms, h, with_node(ms, i, handled(ms[i].node, msg)), g),
{
    let s = ms[i].node;
    lemma_apart(ms, flight, h, i);
    match msg.body {
        BodyView::AppendEntries { prev_log_index, prev_log_term, entries, leader_commit } => {
            let t = handled(s, msg);
            if !consistent(s, prev_log_index, prev_log_term) {
                let body = BodyView::AppendResponse { success: false, match_index: 0 };
                lemma_posts(ms, flight, h, i, msg.from, body);
                h
            } else {
                let e = prev_log_index + entries.len();
                let lead = h.log(msg.term);
                assert(stretch_of(msg) == (Stretch {
                    base: prev_log_index as int,
                    term: prev_log_term,
                    entries,
                }));
                assert(anchored(h, s.log) && anchored(h, lead) && indexed(lead)) by {
                    reveal(chronicled);
                    assert(member_kept(ms, h, ms[i]));
                    assert(reign_kept(ms, h, msg.term));
                }
                lemma_brings(h, s.log, lead, prev_log_index as int, prev_log_term, entries);
                let b = spliced(s.log, lacking(s.log, entries));
                let p = NodeView { log: b, ..s };
                let ps = with_node(ms, i, p);
                let g = lemma_takes(ms, flight, h, i, b, e, ps);
                let upto = checked_through(b, prev_log_index, entries);
                lemma_apart(ps, flight, g, i);
                assert(upto == e);
                let l = learned_commit(p, leader_commit, upto);
                lemma_learns(ps, flight, g, i, leader_commit, upto);
                let ls = with_node(ps, i, l);
                let body = BodyView::AppendResponse { success: true, match_index: upto };
                lemma_posts(ls, flight, g, i, msg.from, body);
                assert(with_node(ls, i, posted(l, msg.from, body)) =~= with_node(ms, i, t));
                lemma_onward_more(ms, h, ps, g, ls, g);
                lemma_onward_more(ms, h, ls, g, with_node(ms, i, t), g);
                g
            }
        },
        _ => h,
    }
}

/// A follower learns how far the leader has committed.
proof fn lemma_learns(
    ms: Seq<MemberView>,
    flight: Seq<MessageView>,
    h: Chronicle,
    i: int,
    leader_commit: LogIndex,
    upto: LogIndex,
)
    requires
        chronicled(ms, flight, h),
        0 <= i < ms.len(),
        ms[i].node.role == Role::Follower,
        h.reigns.contains_key(ms[i].node.term),
        shares(ms[i].node.log, h.log(ms[i].node.term), upto as int),
        certain(ms, h, h.log(ms[i].node.term), leader_commit as int, ms[i].node.term),
    ensures
        chronicled(
            with_node(ms, i, learned_commit(ms[i].node, leader_commit, upto)),
            flight,
            h,
        ),
        onward(ms, h, with_node(ms, i, learned_commit(ms[i].node, leader_commit, upto)), h),
{
    reveal(chronicled);
    let s = ms[i].node;
    let lead = h.log(s.term);
    let t = learned_commit(s, leader_commit, upto);
    assert(member_kept(ms, h, ms[i]));
    if t.commit > s.commit {
        let c = t.commit as int;
        let (u, n) = choose|u: Term, n: int| #[trigger]
            certain_by(ms, h, lead, leader_commit as int, s.term, u, n);
        lemma_shares_less(lead, h.log(u), leader_commit as int, c);
        lemma_shares_less(s.log, lead, upto as int, c);
        assert(certain_by(ms, h, t.log, c, t.term, u, n));
        lemma_turns(ms, flight, h, h, i, t);
    } else {
        assert(with_node(ms, i, t) =~= ms);
        lemma_onward_same(ms, h);
    }
}

/// A node is asked for its vote.
proof fn lemma_asked(
    ms: Seq<MemberView>,
    flight: Seq<MessageView>,
    h: Chronicle,
    i: int,
    msg: MessageView,
    index: LogIndex,
    last: Term,
) -> (g: Chronicle)
    requires
        chronicled(ms, flight, h),
        0 <= i < ms.len(),
        msg.term == ms[i].node.term,
        msg.body == (BodyView::RequestVote { last_log_index: index, last_log_term: last }),
        message_kept(ms, h, msg),
    ensures
        chronicled(with_node(ms, i, handled(ms[i].node, msg)), flight, g),
        onward(ms, h, with_node(ms, i, handled(ms[i].node, msg)), g),
{
    let s = ms[i].node;
    let granted = grants(s, msg.from, index, last);
    let body = BodyView::VoteResponse { granted };
    if granted {
        let v = persisted(NodeView { vote: Some(msg.from), elapsed: 0, ..s });
        let g = lemma_votes(ms, flight, h, i, msg, index, last);
        let vs = with_node(ms, i, v);
        lemma_posts(vs, flight, g, i, msg.from, body);
        assert(with_node(vs, i, posted(v, msg.from, body)) =~= with_node(ms, i, handled(s, msg)));
        lemma_onward_more(ms, h, vs, g, with_node(ms, i, handled(s, msg)), g);
        g
    } else {
        lemma_posts(ms, flight, h, i, msg.from, body);
        h
    }
}

/// A node gives its vote to a candidate that is ahead of it.
#[verifier::spinoff_prover]
proof fn lemma_votes(
    ms: Seq<MemberView>,
    flight: Seq<MessageView>,
    h: Chronicle,
    i: int,
    msg: MessageView,
    index: LogIndex,
    last: Term,
) -> (g: Chronicle)
    requires
        chronicled(ms, flight, h),
        0 <= i < ms.len(),
        msg.term == ms[i].node.term,
        msg.body == (BodyView::RequestVote { last_log_index: index, last_log_term: last }),
        message_kept(ms, h, msg),
        grants(ms[i].node, msg.from, index, last),
    ensures
        ({
            let s = ms[i].node;
            let v = persisted(NodeView { vote: Some(msg.from), elapsed: 0, ..s });
            &&& chronicled(with_node(ms, i, v), flight, g)
            &&& onward(ms, h, with_node(ms, i, v), g)
            &&& message_kept(
                with_node(ms, i, v),
                g,
                MessageView {
                    from: s.id,
                    to: msg.from,
                    term: s.term,
                    body: BodyView::VoteResponse { granted: true },
                },
            )
        }),
{
    reveal(chronicled);
    let s = ms[i].node;
    let c = msg.from;
    let t = persisted(NodeView { vote: Some(c), elapsed: 0, ..s });
    let ns = with_node(ms, i, t);
    let g = Chronicle { votes: h.votes.insert((s.id, s.term), c), ..h };
    assert(member_kept(ms, h, ms[i]));
    assert(votes_kept(g, t)) by {
        assert forall|u: Term| #[trigger] g.votes.contains_key((t.id, u)) implies u <= t.term && (u
            == t.term ==> t.vote == Some(g.votes[(t.id, u)])) by {
            if u != t.term {
                assert(h.votes.contains_key((s.id, u)));
            }
        }
    }
    assert(written_on(h, g, s, t)) by {
        assert forall|v: NodeId, u: Term| #[trigger] h.votes.contains_key((v, u)) implies
            g.votes.contains_key((v, u)) && g.votes[(v, u)] == h.votes[(v, u)] by {
            if v == s.id && u == t.term {
                assert(h.votes.contains_key((s.id, t.term)));
            }
        }
        assert forall|u: Term| #[trigger] h.reigns.contains_key(u) implies shares(
            h.log(u),
            g.log(u),
            h.log(u).len() as int,
        ) by {}
    }
    assert(lead_kept(g, t)) by {
        if t.role == Role::Leader {
            assert(lead_kept(h, s));
            assert forall|p: NodeId| #[trigger] t.matched.contains_key(p) && p != t.id implies
                t.matched[p] <= g.ack(p, t.term) by {
                assert(s.matched[p] <= h.ack(p, s.term));
            }
        }
    }
    lemma_turns(ms, flight, h, g, i, t);
    let k = choose|k: int| 0 <= k < ms.len() && asks_for(#[trigger] ms[k], msg, index, last);
    let m = ms[k];
    assert(member_kept(ms, h, ms[k]));
    let reply = MessageView {
        from: s.id,
        to: c,
        term: s.term,
        body: BodyView::VoteResponse { granted: true },
    };
    assert(endorsed(ns, g, s.id, s.term, m.node.log) || m.node.term > msg.term || m.node.role
        != Role::Candidate) by {
        if m.node.term == msg.term && m.node.role == Role::Candidate {
            assert forall|u: Term, n: int| #[trigger]
                own(g, u, n) && u < s.term && n <= g.ack(s.id, u) implies out(ns, g, u, n) || ahead(
                m.node.log,
                u,
                n,
            ) by {
                assert(own(h, u, n));
                assert(h.ack(s.id, u) == g.ack(s.id, u));
                assert(has_unless_out(ms, h, s.log, u, n));
                if shares(s.log, h.log(u), n) {
                    lemma_ahead(ms, flight, h, s.log, u, n);
                } else {
                    lemma_out_on(ms, h, g, i, t, u, n);
                }
            }
        }
    }
    assert(goes_to(ns, g, ns[k], reply));
    g
}

/// A candidate hears of a vote.
proof fn lemma_hears(
    ms: Seq<MemberView>,
    flight: Seq<MessageView>,
    h: Chronicle,
    i: int,
    msg: MessageView,
    granted: bool,
) -> (g: Chronicle)
    requires
        chronicled(ms, flight, h),
        0 <= i < ms.len(),
        ms[i].node.role == Role::Candidate,
        msg.term == ms[i].node.term,
        msg.to == ms[i].id,
        msg.body == (BodyView::VoteResponse { granted }),
        message_kept(ms, h, msg),
    ensures
        chronicled(with_node(ms, i, handled(ms[i].node, msg)), flight, g),
        onward(ms, h, with_node(ms, i, handled(ms[i].node, msg)), g),
{
    let s = ms[i].node;
    let v = NodeView { votes: s.votes.insert(msg.from, granted), ..s };
    let vs = with_node(ms, i, v);
    lemma_tallies(ms, flight, h, i, msg, granted);
    let g = lemma_counts(vs, flight, h, i);
    assert(with_node(vs, i, counted(v)) =~= with_node(ms, i, handled(s, msg)));
    lemma_onward_more(ms, h, vs, h, with_node(ms, i, handled(s, msg)), g);
    g
}

proof fn lemma_tallies(
    ms: Seq<MemberView>,
    flight: Seq<MessageView>,
    h: Chronicle,
    i: int,
    msg: MessageView,
    granted: bool,
)
    requires
        chronicled(ms, flight, h),
        0 <= i < ms.len(),
        ms[i].node.role == Role::Candidate,
        msg.term == ms[i].node.term,
        msg.to == ms[i].id,
        msg.body == (BodyView::VoteResponse { granted }),
        message_kept(ms, h, msg),
    ensures
        chronicled(
            with_node(
                ms,
                i,
                NodeView { votes: ms[i].node.votes.insert(msg.from, granted), ..ms[i].node },
            ),
            flight,
            h,
        ),
        onward(
            ms,
            h,
            with_node(
                ms,
                i,
                NodeView { votes: ms[i].node.votes.insert(msg.from, granted), ..ms[i].node },
            ),
            h,
        ),
{
    reveal(chronicled);
    let s = ms[i].node;
    let t = NodeView { votes: s.votes.insert(msg.from, granted), ..s };
    let ns = with_node(ms, i, t);
    assert(member_kept(ms, h, ms[i]));
    assert(bid_kept(ns, h, t)) by {
        assert forall|v: NodeId| #[trigger] t.votes.contains_key(v) && t.votes[v] implies supports(
            ns,
            h,
            v,
            t.term,
            t.id,
            t.log,
        ) by {
            if v == msg.from {
                let k = choose|k: int| 0 <= k < ms.len() && goes_to(ms, h, #[trigger] ms[k], msg);
                if k < i {
                    assert(ms[k].id != ms[i].id);
                } else if i < k {
                    assert(ms[i].id != ms[k].id);
                }
            } else {
                assert(s.votes.contains_key(v) && s.votes[v]);
                assert(supports(ms, h, v, s.term, s.id, s.log));
            }
            lemma_endorsed_on(ms, flight, h, h, i, t, v, s.term, s.log);
        }
    }
    lemma_turns(ms, flight, h, h, i, t);
}

/// A leader gets an answer.
proof fn lemma_answers(
    ms: Seq<MemberView>,
    flight: Seq<MessageView>,
    h: Chronicle,
    i: int,
    msg: MessageView,
    success: bool,
    match_index: LogIndex,
)
    requires
        chronicled(ms, flight, h),
        0 <= i < ms.len(),
        ms[i].node.role == Role::Leader,
        msg.term == ms[i].node.term,
        msg.to == ms[i].id,
        msg.body == (BodyView::AppendResponse { success, match_index }),
        message_kept(ms, h, msg),
    ensures
        chronicled(with_node(ms, i, handled(ms[i].node, msg)), flight, h),
        onward(ms, h, with_node(ms, i, handled(ms[i].node, msg)), h),
{
    let s = ms[i].node;
    let p = msg.from;
    let t = if success {
        NodeView {
            matched: s.matched.insert(p, match_index),
            next: s.next.insert(p, one_more(match_index)),
            ..s
        }
    } else if s.next.contains_key(p) {
        NodeView { next: s.next.insert(p, one_less(s.next[p])), ..s }
    } else {
        s
    };
    let ts = with_node(ms, i, t);
    lemma_notes(ms, flight, h, i, msg, success, match_index);
    if success {
        lemma_commits(ts, flight, h, i);
        assert(with_node(ts, i, committed_more(t)) =~= with_node(ms, i, handled(s, msg)));
    } else {
        lemma_serves(ts, flight, h, i, p);
        assert(with_node(ts, i, posted(t, p, append_body(t, p))) =~= with_node(
            ms,
            i,
            handled(s, msg),
        ));
    }
    lemma_onward_more(ms, h, ts, h, with_node(ms, i, handled(s, msg)), h);
}

proof fn lemma_notes(
    ms: Seq<MemberView>,
    flight: Seq<MessageView>,
    h: Chronicle,
    i: int,
    msg: MessageView,
    success: bool,
    match_index: LogIndex,
)
    requires
        chronicled(ms, flight, h),
        0 <= i < ms.len(),
        ms[i].node.role == Role::Leader,
        msg.term == ms[i].node.term,
        msg.body == (BodyView::AppendResponse { success, match_index }),
        message_kept(ms, h, msg),
    ensures
        ({
            let s = ms[i].node;
            let p = msg.from;
            let t = if success {
                NodeView {
                    matched: s.matched.insert(p, match_index),
                    next: s.next.insert(p, one_more(match_index)),
                    ..s
                }
            } else if s.next.contains_key(p) {
                NodeView { next: s.next.insert(p, one_less(s.next[p])), ..s }
            } else {
                s
            };
            chronicled(with_node(ms, i, t), flight, h) && onward(ms, h, with_node(ms, i, t), h)
        }),
{
    reveal(chronicled);
    let s = ms[i].node;
    let p = msg.from;
    let t = if success {
        NodeView {
            matched: s.matched.insert(p, match_index),
            next: s.next.insert(p, one_more(match_index)),
            ..s
        }
    } else if s.next.contains_key(p) {
        NodeView { next: s.next.insert(p, one_less(s.next[p])), ..s }
    } else {
        s
    };
    assert(member_kept(ms, h, ms[i]));
    assert(lead_kept(h, s));
    if success && match_index > 0 {
        assert(h.ack(p, s.term) > 0);
        let k = choose|k: int| 0 <= k < ms.len() && (#[trigger] ms[k]).id == p;
        assert(member_kept(ms, h, ms[k]));
        assert(h.ack(ms[k].node.id, s.term) <= h.log(s.term).len());
    }
    assert(lead_kept(h, t)) by {
        assert forall|x: NodeId| #[trigger] t.matched.contains_key(x) && x != t.id implies
            t.matched[x] <= h.ack(x, t.term) by {
            if x != p {
                assert(s.matched.contains_key(x));
            }
        }
        assert forall|x: NodeId| #[trigger] t.next.contains_key(x) implies 1 <= t.next[x]
            <= t.log.len() + 1 by {
            if x != p || !success {
                assert(s.next.contains_key(x));
            }
        }
    }
    lemma_turns(ms, flight, h, h, i, t);
}

/// Nobody but the leader of the term sends entries, and it sends them to others.
pub proof fn lemma_not_leader(
    ms: Seq<MemberView>,
    flight: Seq<MessageView>,
    h: Chronicle,
    i: int,
    msg: MessageView,
)
    requires
        chronicled(ms, flight, h),
        0 <= i < ms.len(),
        msg.to == ms[i].id,
        msg.body is AppendEntries,
        message_kept(ms, h, msg),
        msg.term == ms[i].node.term,
    ensures
        ms[i].node.role != Role::Leader,
{
    reveal(chronicled);
    assert(member_kept(ms, h, ms[i]));
    assert(lead_kept(h, ms[i].node));
}

/// A message is written down.
pub proof fn lemma_steps(
    ms: Seq<MemberView>,
    flight: Seq<MessageView>,
    h: Chronicle,
    i: int,
    msg: MessageView,
) -> (g: Chronicle)
    requires
        chronicled(ms, flight, h),
        0 <= i < ms.len(),
        msg.to == ms[i].id,
        message_kept(ms, h, msg),
    ensures
        chronicled(with_node(ms, i, stepped(ms[i].node, msg)), flight, g),
        onward(ms, h, with_node(ms, i, stepped(ms[i].node, msg)), g),
{
    let s = ms[i].node;
    lemma_apart(ms, flight, h, i);
    if msg.term < s.term {
        assert(with_node(ms, i, s) =~= ms);
        lemma_onward_same(ms, h);
        h
    } else {
        let c = caught_up(s, msg);
        let cs = with_node(ms, i, c);
        if msg.term > s.term {
            lemma_idles(ms, flight, h, i, c);
            lemma_message_on(ms, flight, h, i, c, msg);
        } else {
            assert(cs =~= ms);
            lemma_onward_same(ms, h);
        }
        let g = lemma_handles(cs, flight, h, i, msg);
        let ns = with_node(ms, i, stepped(s, msg));
        assert(with_node(cs, i, handled(c, msg)) =~= ns);
        lemma_onward_more(ms, h, cs, h, ns, g);
        g
    }
}

/// A message of the node's own term is written down.
proof fn lemma_handles(
    ms: Seq<MemberView>,
    flight: Seq<MessageView>,
    h: Chronicle,
    i: int,
    msg: MessageView,
) -> (g: Chronicle)
    requires
        chronicled(ms, flight, h),
        0 <= i < ms.len(),
        msg.to == ms[i].id,
        msg.term == ms[i].node.term,
        message_kept(ms, h, msg),
    ensures
        chronicled(with_node(ms, i, handled(ms[i].node, msg)), flight, g),
        onward(ms, h, with_node(ms, i, handled(ms[i].node, msg)), g),
{
    let c = ms[i].node;
    let ns = with_node(ms, i, handled(c, msg));
    lemma_apart(ms, flight, h, i);
    lemma_onward_same(ms, h);
    match msg.body {
        BodyView::AppendEntries { .. } => {
            lemma_not_leader(ms, flight, h, i, msg);
            let d = heard_leader(c, msg.from);
            let ds = with_node(ms, i, d);
            lemma_idles(ms, flight, h, i, d);
            lemma_message_on(ms, flight, h, i, d, msg);
            assert(heard_leader(d, msg.from) == d);
            let g = lemma_receives(ds, flight, h, i, msg);
            assert(handled(d, msg) == handled(c, msg));
            assert(with_node(ds, i, handled(d, msg)) =~= ns);
            lemma_onward_more(ms, h, ds, h, ns, g);
            g
        },
        BodyView::AppendResponse { success, match_index } => {
            if c.role == Role::Leader {
                lemma_answers(ms, flight, h, i, msg, success, match_index);
            } else {
                assert(ns =~= ms);
            }
            h
        },
        BodyView::RequestVote { last_log_index, last_log_term } => {
            lemma_asked(ms, flight, h, i, msg, last_log_index, last_log_term)
        },
        BodyView::VoteResponse { granted } => {
            if c.role == Role::Candidate {
                lemma_hears(ms, flight, h, i, msg, granted)
            } else {
                assert(ns =~= ms);
                h
            }
        },
        _ => {
            assert(ns =~= ms);
            h
        },
    }
}

/// A message agrees with the chronicle as before, when the node turns follower or
/// stays what it is.
proof fn lemma_message_on(
    ms: Seq<MemberView>,
    flight: Seq<MessageView>,
    h: Chronicle,
    i: int,
    t: NodeView,
    msg: MessageView,
)
    requires
        chronicled(ms, flight, h),
        0 <= i < ms.len(),
        message_kept(ms, h, msg),
        moves_on(ms[i].node, t),
    ensures
        message_kept(with_node(ms, i, t), h, msg),
{
    lemma_mail_kept(ms, flight, h, h, i, t, msg);
}

} // verus!
