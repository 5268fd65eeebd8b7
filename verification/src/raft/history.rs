//! What holds of a node over any sequence of events, restarts among them.

use vstd::prelude::*;

use crate::raft::laws::{self, restarted, sound};
use crate::raft::sends::{self, honest, numbered, shaped};
use crate::raft::state::{done_with, drained, proposed, stepped, ticked, to_apply, NodeView, Role};
use crate::raft::types::{BodyView, EntryView, MessageView};

verus! {

/// What can happen to a node.
pub enum Event {
    Tick,
    Step { msg: MessageView },
    Propose { data: Seq<u8> },
    /// The driver takes the messages, and the entries to apply.
    Ready,
    /// The driver has applied entries.
    Applied { entries: Seq<EntryView> },
    /// The node stops, and another one takes up from its storage.
    Restart,
}

/// The event makes `t` of `s`.
pub open spec fn happens(s: NodeView, e: Event, t: NodeView) -> bool {
    match e {
        Event::Tick => s.term < u64::MAX && t == ticked(s),
        Event::Step { msg } => t == stepped(s, msg),
        Event::Propose { data } => s.role == Role::Leader && s.log.len() < u64::MAX && t
            == proposed(s, data),
        Event::Ready => t == drained(s),
        Event::Applied { entries } => t == done_with(s, entries),
        Event::Restart => t == restarted(s),
    }
}

/// What is put into the outbox by the event.
pub open spec fn sent_by(s: NodeView, e: Event, t: NodeView) -> Seq<MessageView> {
    match e {
        Event::Tick => t.outbox.skip(s.outbox.len() as int),
        Event::Step { .. } => t.outbox.skip(s.outbox.len() as int),
        Event::Propose { .. } => t.outbox.skip(s.outbox.len() as int),
        _ => seq![],
    }
}

/// The events lead from state to state, and no log outgrows its index.
pub open spec fn is_history(states: Seq<NodeView>, events: Seq<Event>) -> bool {
    &&& states.len() == events.len() + 1
    &&& forall|i: int| 0 <= i < states.len() ==> (#[trigger] states[i]).log.len() <= u64::MAX
    &&& forall|i: int|
        0 <= i < events.len() ==> happens(states[i], #[trigger] events[i], states[i + 1])
}

// ---- one event -------------------------------------------------------------------------

/// What an event keeps, a restart too: the term and the commit index do not go
/// back, and within a term the vote does not change.
pub open spec fn lasts(s: NodeView, t: NodeView) -> bool {
    &&& t.wf()
    &&& t.id == s.id
    &&& t.config == s.config
    &&& t.term >= s.term
    &&& t.commit >= s.commit
    &&& t.term == s.term && s.vote is Some ==> t.vote == s.vote
}

proof fn lemma_event_lasts(s: NodeView, e: Event, t: NodeView)
    requires
        s.wf(),
        s.log.len() <= u64::MAX,
        happens(s, e, t),
    ensures
        lasts(s, t),
{
    match e {
        Event::Tick => {
            laws::lemma_tick_keeps(s);
        },
        Event::Step { msg } => {
            laws::lemma_step_keeps(s, msg);
        },
        Event::Propose { data } => {
            laws::lemma_propose_keeps(s, data);
        },
        Event::Restart => {
            laws::lemma_restart(s);
        },
        _ => {},
    }
}

proof fn lemma_event_honest(s: NodeView, e: Event, t: NodeView)
    requires
        happens(s, e, t),
        e is Tick || e is Step || e is Propose,
    ensures
        honest(s, t),
{
    match e {
        Event::Tick => {
            sends::lemma_tick_honest(s);
        },
        Event::Step { msg } => {
            sends::lemma_step_honest(s, msg);
        },
        Event::Propose { data } => {
            sends::lemma_propose_honest(s, data);
        },
        _ => {},
    }
}

/// A node that does not follow has voted for itself.
pub open spec fn own_vote(s: NodeView) -> bool {
    s.role != Role::Follower ==> s.vote == Some(s.id)
}

proof fn lemma_event_own_vote(s: NodeView, e: Event, t: NodeView)
    requires
        s.wf(),
        s.log.len() <= u64::MAX,
        own_vote(s),
        happens(s, e, t),
    ensures
        own_vote(t),
{
    lemma_event_lasts(s, e, t);
    match e {
        Event::Tick => {
            sends::lemma_tick_role(s);
        },
        Event::Step { msg } => {
            sends::lemma_step_role(s, msg);
        },
        Event::Propose { data } => {
            sends::lemma_propose_role(s, data);
        },
        _ => {},
    }
}

// ---- any sequence of events --------------------------------------------------------------

/// Over any sequence of events the term and the commit index never go back, and
/// a vote in a term stays.
pub proof fn lemma_history_lasts(states: Seq<NodeView>, events: Seq<Event>, i: int, j: int)
    requires
        is_history(states, events),
        states[0].wf(),
        0 <= i <= j < states.len(),
    ensures
        states[i].wf(),
        lasts(states[i], states[j]),
    decreases j,
{
    if j > 0 {
        assert(happens(states[j - 1], events[j - 1], states[j - 1 + 1]));
        if i < j {
            lemma_history_lasts(states, events, i, j - 1);
        } else {
            lemma_history_lasts(states, events, j - 1, j - 1);
        }
        assert(states[j - 1].log.len() <= u64::MAX);
        lemma_event_lasts(states[j - 1], events[j - 1], states[j]);
    }
}

/// The message grants a vote.
pub open spec fn is_vote(m: MessageView) -> bool {
    m.body == (BodyView::VoteResponse { granted: true })
}

/// A vote that is sent is the one that the node then has in that term.
proof fn lemma_vote_sent(s: NodeView, e: Event, t: NodeView, m: MessageView)
    requires
        happens(s, e, t),
        sent_by(s, e, t).contains(m),
        is_vote(m),
    ensures
        m.term == t.term,
        t.vote == Some(m.to),
{
    lemma_event_honest(s, e, t);
    let k = sent_by(s, e, t).index_of(m);
    assert(t.outbox[s.outbox.len() + k] == m);
}

/// Over any sequence of events, with however many restarts, a node gives its
/// vote in a term to one candidate: any two votes of one term that it sends go
/// to the same node, and what it votes is saved.
pub proof fn lemma_one_vote(
    states: Seq<NodeView>,
    events: Seq<Event>,
    i: int,
    j: int,
    first: MessageView,
    second: MessageView,
)
    requires
        is_history(states, events),
        states[0].wf(),
        0 <= i <= j < events.len(),
        sent_by(states[i], events[i], states[i + 1]).contains(first),
        sent_by(states[j], events[j], states[j + 1]).contains(second),
        is_vote(first),
        is_vote(second),
        first.term == second.term,
    ensures
        first.to == second.to,
        states[i + 1].saved.vote == Some(first.to),
{
    assert(happens(states[i], events[i], states[i + 1]));
    assert(happens(states[j], events[j], states[j + 1]));
    lemma_vote_sent(states[i], events[i], states[i + 1], first);
    lemma_vote_sent(states[j], events[j], states[j + 1], second);
    lemma_history_lasts(states, events, i + 1, j + 1);
}

proof fn lemma_history_own_vote(states: Seq<NodeView>, events: Seq<Event>, i: int)
    requires
        is_history(states, events),
        states[0].wf(),
        own_vote(states[0]),
        0 <= i < states.len(),
    ensures
        own_vote(states[i]),
    decreases i,
{
    if i > 0 {
        assert(happens(states[i - 1], events[i - 1], states[i - 1 + 1]));
        lemma_history_own_vote(states, events, i - 1);
        lemma_history_lasts(states, events, i - 1, i - 1);
        assert(states[i - 1].log.len() <= u64::MAX);
        lemma_event_own_vote(states[i - 1], events[i - 1], states[i]);
    }
}

/// Over any sequence of events, with however many restarts, a node that is a
/// candidate or leads in a term votes for no other in that term, neither before
/// nor after.
pub proof fn lemma_candidate_votes_for_itself(
    states: Seq<NodeView>,
    events: Seq<Event>,
    i: int,
    j: int,
    m: MessageView,
)
    requires
        is_history(states, events),
        states[0].wf(),
        own_vote(states[0]),
        0 <= i < states.len(),
        0 <= j < events.len(),
        states[i].role != Role::Follower,
        sent_by(states[j], events[j], states[j + 1]).contains(m),
        is_vote(m),
        m.term == states[i].term,
    ensures
        m.to == states[i].id,
{
    assert(happens(states[j], events[j], states[j + 1]));
    lemma_history_own_vote(states, events, i);
    lemma_vote_sent(states[j], events[j], states[j + 1], m);
    if i <= j + 1 {
        lemma_history_lasts(states, events, i, j + 1);
    } else {
        lemma_history_lasts(states, events, j + 1, i);
    }
}

/// A leader keeps counting from one on.
proof fn lemma_history_numbered(states: Seq<NodeView>, events: Seq<Event>, i: int)
    requires
        is_history(states, events),
        numbered(states[0]),
        0 <= i < states.len(),
    ensures
        numbered(states[i]),
    decreases i,
{
    if i > 0 {
        let s = states[i - 1];
        lemma_history_numbered(states, events, i - 1);
        assert(happens(states[i - 1], events[i - 1], states[i - 1 + 1]));
        assert(s.log.len() <= u64::MAX);
        match events[i - 1] {
            Event::Tick => {
                sends::lemma_tick_shaped(s);
            },
            Event::Step { msg } => {
                sends::lemma_step_shaped(s, msg);
            },
            Event::Propose { data } => {
                sends::lemma_propose_shaped(s, data);
            },
            _ => {},
        }
    }
}

/// Over any sequence of events, every message with entries that is sent comes
/// from a leader in its term, has the entries of its log behind the entry that it
/// names by index and term, as many as a message may have, and says what the
/// leader has committed when it sends it.
pub proof fn lemma_appends_shaped(
    states: Seq<NodeView>,
    events: Seq<Event>,
    i: int,
    m: MessageView,
)
    requires
        is_history(states, events),
        numbered(states[0]),
        0 <= i < events.len(),
        sent_by(states[i], events[i], states[i + 1]).contains(m),
    ensures
        shaped(states[i].commit, states[i + 1], m),
{
    lemma_history_numbered(states, events, i);
    let s = states[i];
    let t = states[i + 1];
    let e = events[i];
    assert(happens(s, e, t));
    assert(s.log.len() <= u64::MAX);
    match e {
        Event::Tick => {
            sends::lemma_tick_shaped(s);
        },
        Event::Step { msg } => {
            sends::lemma_step_shaped(s, msg);
        },
        Event::Propose { data } => {
            sends::lemma_propose_shaped(s, data);
        },
        _ => {},
    }
    let k = sent_by(s, e, t).index_of(m);
    assert(t.outbox[s.outbox.len() + k] == m);
}

// ---- what is handed out ------------------------------------------------------------------

/// How far a node has applied never goes back, as long as it stays sound.
proof fn lemma_applied_grows(states: Seq<NodeView>, events: Seq<Event>, i: int, j: int)
    requires
        is_history(states, events),
        states[0].wf(),
        forall|k: int| 0 <= k < states.len() ==> sound(#[trigger] states[k]),
        0 <= i <= j < states.len(),
    ensures
        states[i].applied <= states[j].applied,
    decreases j,
{
    if i < j {
        let s = states[j - 1];
        let t = states[j];
        assert(happens(states[j - 1], events[j - 1], states[j - 1 + 1]));
        lemma_applied_grows(states, events, i, j - 1);
        lemma_history_lasts(states, events, j - 1, j - 1);
        assert(s.log.len() <= u64::MAX);
        assert(sound(s));
        match events[j - 1] {
            Event::Tick => {
                laws::lemma_tick_keeps(s);
            },
            Event::Step { msg } => {
                laws::lemma_step_keeps(s, msg);
            },
            Event::Propose { data } => {
                laws::lemma_propose_keeps(s, data);
            },
            _ => {},
        }
    }
}

/// Each committed entry is handed out once at the most, and in order: over any
/// sequence of events that leave the node sound, what is ready after the driver
/// has applied what was ready before lies behind it in the log.
pub proof fn lemma_handed_out_once(
    states: Seq<NodeView>,
    events: Seq<Event>,
    i: int,
    j: int,
    x: int,
    y: int,
)
    requires
        is_history(states, events),
        states[0].wf(),
        forall|k: int| 0 <= k < states.len() ==> sound(#[trigger] states[k]),
        0 <= i < j < states.len(),
        events[i] == (Event::Applied { entries: to_apply(states[i]) }),
        states[i].commit < u64::MAX,
        states[j].commit < u64::MAX,
        0 <= x < to_apply(states[i]).len(),
        0 <= y < to_apply(states[j]).len(),
    ensures
        to_apply(states[i])[x].index < to_apply(states[j])[y].index,
{
    assert(happens(states[i], events[i], states[i + 1]));
    assert(sound(states[i]));
    assert(sound(states[j]));
    laws::lemma_applied_once(states[i]);
    laws::lemma_applied_once(states[j]);
    lemma_applied_grows(states, events, i + 1, j);
    assert(to_apply(states[i])[x].index == states[i].applied + 1 + x);
    assert(to_apply(states[j])[y].index == states[j].applied + 1 + y);
}

} // verus!
