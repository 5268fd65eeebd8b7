//! What nodes store and send.

use bytes::Bytes;
use vstd::prelude::*;

use crate::buffer::octets;
use crate::types::{LogIndex, NodeId, Term};

verus! {

#[derive(Debug, Clone, Copy, PartialEq, Eq, Structural)]
pub enum EntryKind {
    /// An application command: the state machine decodes `data`.
    Normal,
    /// A change of the configuration.
    ConfChange,
}

/// An entry of the log.
#[derive(Debug, Clone)]
pub struct Entry {
    pub index: LogIndex,
    pub term: Term,
    pub kind: EntryKind,
    pub data: Bytes,
}

/// What an entry says.
pub struct EntryView {
    pub index: LogIndex,
    pub term: Term,
    pub kind: EntryKind,
    pub data: Seq<u8>,
}

impl Entry {
    pub open spec fn view(&self) -> EntryView {
        EntryView { index: self.index, term: self.term, kind: self.kind, data: octets(self.data) }
    }

    /// A copy that shares the data.
    pub fn dup(&self) -> (e: Self)
        ensures
            e@ == self@,
    {
        Entry { index: self.index, term: self.term, kind: self.kind, data: self.data.clone() }
    }
}

/// What each entry of a list says.
pub open spec fn entry_views(es: Seq<Entry>) -> Seq<EntryView> {
    Seq::new(es.len(), |i: int| es[i]@)
}

/// Copies the entries from `lo` up to `hi`.
pub fn dup_entries(es: &[Entry], lo: usize, hi: usize) -> (out: Vec<Entry>)
    requires
        lo <= hi <= es.len(),
    ensures
        entry_views(out@) == entry_views(es@).subrange(lo as int, hi as int),
{
    let mut out: Vec<Entry> = Vec::new();
    let ghost all = entry_views(es@);
    assert(entry_views(out@) =~= all.subrange(lo as int, lo as int));
    for i in lo..hi
        invariant
            lo <= hi <= es.len(),
            all == entry_views(es@),
            entry_views(out@) == all.subrange(lo as int, i as int),
    {
        let ghost prior = entry_views(out@);
        out.push(es[i].dup());
        proof {
            assert(entry_views(out@) =~= prior.push(all[i as int]));
            assert(all.subrange(lo as int, i + 1) =~= prior.push(all[i as int]));
        }
    }
    out
}

/// What has to survive a crash. It is saved before a request is answered.
#[derive(Debug, Clone, Copy)]
pub struct HardState {
    pub term: Term,
    pub vote: Option<NodeId>,
    pub commit: LogIndex,
}

impl Default for HardState {
    fn default() -> (h: Self)
        ensures
            h == (HardState { term: 0, vote: None, commit: 0 }),
    {
        HardState { term: 0, vote: None, commit: 0 }
    }
}

/// Who belongs to the cluster.
#[derive(Debug, Clone)]
pub struct ConfState {
    pub voters: Vec<NodeId>,
    pub learners: Vec<NodeId>,
}

/// Who belongs to the cluster, as values.
#[verifier::ext_equal]
pub struct ConfView {
    pub voters: Seq<NodeId>,
    pub learners: Seq<NodeId>,
}

/// Copies a list of numbers.
pub fn dup_ids(ids: &Vec<NodeId>) -> (out: Vec<NodeId>)
    ensures
        out@ == ids@,
{
    let mut out: Vec<NodeId> = Vec::new();
    for i in 0..ids.len()
        invariant
            out@ == ids@.take(i as int),
    {
        out.push(ids[i]);
        assert(ids@.take(i + 1) =~= ids@.take(i as int).push(ids@[i as int]));
    }
    assert(ids@.take(ids@.len() as int) =~= ids@);
    out
}

impl ConfState {
    pub open spec fn view(&self) -> ConfView {
        ConfView { voters: self.voters@, learners: self.learners@ }
    }

    pub fn dup(&self) -> (c: Self)
        ensures
            c@ == self@,
    {
        ConfState { voters: dup_ids(&self.voters), learners: dup_ids(&self.learners) }
    }
}

impl Default for ConfState {
    fn default() -> (c: Self)
        ensures
            c@ == (ConfView { voters: seq![], learners: seq![] }),
    {
        let c = ConfState { voters: Vec::new(), learners: Vec::new() };
        assert(c@ =~= (ConfView { voters: seq![], learners: seq![] }));
        c
    }
}

#[derive(Debug, Clone)]
pub struct Snapshot {
    pub index: LogIndex,
    pub term: Term,
    pub conf_state: ConfState,
    pub data: Bytes,
}

/// What a snapshot says.
pub struct SnapshotView {
    pub index: LogIndex,
    pub term: Term,
    pub conf: ConfView,
    pub data: Seq<u8>,
}

impl Snapshot {
    pub open spec fn view(&self) -> SnapshotView {
        SnapshotView {
            index: self.index,
            term: self.term,
            conf: self.conf_state@,
            data: octets(self.data),
        }
    }

    /// A copy that shares the data.
    pub fn dup(&self) -> (s: Self)
        ensures
            s@ == self@,
    {
        Snapshot {
            index: self.index,
            term: self.term,
            conf_state: self.conf_state.dup(),
            data: self.data.clone(),
        }
    }
}

#[derive(Debug, Clone)]
pub struct Message {
    pub from: NodeId,
    pub to: NodeId,
    pub term: Term,
    pub body: MessageBody,
}

#[derive(Debug, Clone)]
pub enum MessageBody {
    AppendEntries {
        prev_log_index: LogIndex,
        prev_log_term: Term,
        entries: Vec<Entry>,
        leader_commit: LogIndex,
    },
    AppendResponse { success: bool, match_index: LogIndex },
    RequestVote { last_log_index: LogIndex, last_log_term: Term },
    VoteResponse { granted: bool },
    InstallSnapshot { snapshot: Snapshot },
    InstallSnapshotResponse,
}

/// What a message says.
pub struct MessageView {
    pub from: NodeId,
    pub to: NodeId,
    pub term: Term,
    pub body: BodyView,
}

/// What the body of a message says.
pub enum BodyView {
    AppendEntries {
        prev_log_index: LogIndex,
        prev_log_term: Term,
        entries: Seq<EntryView>,
        leader_commit: LogIndex,
    },
    AppendResponse { success: bool, match_index: LogIndex },
    RequestVote { last_log_index: LogIndex, last_log_term: Term },
    VoteResponse { granted: bool },
    InstallSnapshot { snapshot: SnapshotView },
    InstallSnapshotResponse,
}

impl MessageBody {
    pub open spec fn view(&self) -> BodyView {
        match self {
            MessageBody::AppendEntries { prev_log_index, prev_log_term, entries, leader_commit } =>
            BodyView::AppendEntries {
                prev_log_index: *prev_log_index,
                prev_log_term: *prev_log_term,
                entries: entry_views(entries@),
                leader_commit: *leader_commit,
            },
            MessageBody::AppendResponse { success, match_index } => BodyView::AppendResponse {
                success: *success,
                match_index: *match_index,
            },
            MessageBody::RequestVote { last_log_index, last_log_term } => BodyView::RequestVote {
                last_log_index: *last_log_index,
                last_log_term: *last_log_term,
            },
            MessageBody::VoteResponse { granted } => BodyView::VoteResponse { granted: *granted },
            MessageBody::InstallSnapshot { snapshot } => BodyView::InstallSnapshot {
                snapshot: snapshot@,
            },
            MessageBody::InstallSnapshotResponse => BodyView::InstallSnapshotResponse,
        }
    }
}

impl Message {
    pub open spec fn view(&self) -> MessageView {
        MessageView { from: self.from, to: self.to, term: self.term, body: self.body@ }
    }
}

/// What each message of a list says.
pub open spec fn message_views(ms: Seq<Message>) -> Seq<MessageView> {
    Seq::new(ms.len(), |i: int| ms[i]@)
}

} // verus!
