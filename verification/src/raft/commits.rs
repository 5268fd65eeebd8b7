//! A leader has committed whatever it may.

use vstd::prelude::*;

use crate::raft::laws;
use crate::raft::sends;
use crate::raft::state::{
    asked, behind, broadcast, caught_up, committed_more, counted, has_majority, leading, may_commit,
    one_more, persisted, proposed, proposed_entry, same_for_all, stepped, ticked, NodeView, Role,
};
use crate::raft::types::{BodyView, MessageView};
use crate::types::NodeId;

verus! {

/// If the node leads, there is nothing left that it may commit.
pub open spec fn prompt(s: NodeView) -> bool {
    s.role == Role::Leader ==> forall|n: int|
        s.commit < n <= s.log.len() ==> !#[trigger] may_commit(s, n)
}

/// What a leader may commit depends on its log, its term and what it has heard.
pub proof fn lemma_prompt_on(s: NodeView, t: NodeView)
    requires
        prompt(s),
        t.role != Role::Leader || (t.role == s.role && t.id == s.id && t.term == s.term && t.commit
            == s.commit && t.log == s.log && t.matched == s.matched && t.config == s.config),
    ensures
        prompt(t),
{
    if t.role == Role::Leader {
        assert forall|n: int| t.commit < n <= t.log.len() implies !#[trigger] may_commit(t, n) by {
            assert(!may_commit(s, n));
        }
    }
}

proof fn lemma_committed_prompt(s: NodeView)
    requires
        s.log.len() <= u64::MAX,
    ensures
        prompt(committed_more(s)),
{
    let t = committed_more(s);
    laws::lemma_commit_rule(s, s.log.len() as int);
    if t.role == Role::Leader {
        assert forall|n: int| t.commit < n <= t.log.len() implies !#[trigger] may_commit(t, n) by {
            if may_commit(t, n) {
                assert(may_commit(s, n));
            }
        }
    }
}

proof fn lemma_leading_prompt(s: NodeView)
    requires
        s.log.len() <= u64::MAX,
    ensures
        prompt(leading(s)),
{
    let f = NodeView {
        role: Role::Leader,
        leader: Some(s.id),
        elapsed: 0,
        next: same_for_all(s.config.peers, behind(s.log)),
        matched: same_for_all(s.config.peers, 0),
        ..s
    };
    sends::lemma_sent_honest(f, f.config.peers.len() as int);
    lemma_committed_prompt(broadcast(f));
}

/// A tick leaves nothing that a leader may commit.
pub proof fn lemma_tick_prompt(s: NodeView)
    requires
        prompt(s),
        s.log.len() <= u64::MAX,
    ensures
        prompt(ticked(s)),
{
    let t = NodeView { elapsed: (s.elapsed + 1) as u32, ..s };
    if t.elapsed < t.patience() {
        lemma_prompt_on(s, t);
    } else if s.role == Role::Leader {
        sends::lemma_sent_honest(t, t.config.peers.len() as int);
        lemma_prompt_on(s, ticked(s));
    } else {
        let fresh = persisted(
            NodeView {
                role: Role::Candidate,
                term: (t.term + 1) as u64,
                vote: Some(t.id),
                votes: Map::<NodeId, bool>::empty().insert(t.id, true),
                elapsed: 0,
                leader: None,
                ..t
            },
        );
        let p = fresh.config.peers.len() as int;
        sends::lemma_asked_honest(fresh, p);
        let a = asked(fresh, p);
        assert(ticked(s) == counted(a));
        lemma_leading_prompt(a);
    }
}

/// Nor does a message.
pub proof fn lemma_step_prompt(s: NodeView, msg: MessageView)
    requires
        prompt(s),
        s.log.len() <= u64::MAX,
        msg.body is AppendEntries ==> !(s.role == Role::Leader && s.term == msg.term),
    ensures
        prompt(stepped(s, msg)),
{
    if msg.term >= s.term {
        let c = caught_up(s, msg);
        let t = stepped(s, msg);
        lemma_prompt_on(s, c);
        match msg.body {
            BodyView::AppendResponse { success, match_index } => {
                if c.role == Role::Leader && success {
                    lemma_committed_prompt(
                        NodeView {
                            matched: c.matched.insert(msg.from, match_index),
                            next: c.next.insert(msg.from, one_more(match_index)),
                            ..c
                        },
                    );
                } else {
                    lemma_prompt_on(c, t);
                }
            },
            BodyView::VoteResponse { granted } => {
                let v = NodeView { votes: c.votes.insert(msg.from, granted), ..c };
                if c.role == Role::Candidate && has_majority(v) {
                    lemma_leading_prompt(v);
                } else {
                    lemma_prompt_on(c, t);
                }
            },
            _ => {
                lemma_prompt_on(c, t);
            },
        }
    }
}

/// Nor does a proposal.
pub proof fn lemma_propose_prompt(s: NodeView, data: Seq<u8>)
    requires
        s.log.len() < u64::MAX,
    ensures
        prompt(proposed(s, data)),
{
    let t = NodeView { log: s.log.push(proposed_entry(s, data)), ..s };
    sends::lemma_sent_honest(t, t.config.peers.len() as int);
    lemma_committed_prompt(broadcast(t));
}

} // verus!
