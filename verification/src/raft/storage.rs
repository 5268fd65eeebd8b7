//! Where a node keeps its log.

use vstd::prelude::*;

use crate::raft::types::{
    entry_views, ConfState, ConfView, Entry, EntryView, HardState, Snapshot,
};
use crate::types::{Error, LogIndex, Term};

verus! {

/// The log after `es` came in: they replace everything from their first index on.
pub open spec fn spliced(log: Seq<EntryView>, es: Seq<EntryView>) -> Seq<EntryView> {
    if es.len() == 0 {
        log
    } else {
        log.take(es[0].index - 1) + es
    }
}

/// The entries can go where they say: behind the log or into it.
pub open spec fn attaches(log: Seq<EntryView>, es: Seq<EntryView>) -> bool {
    es.len() > 0 ==> 1 <= es[0].index <= log.len() + 1
}

/// The log has the entry: one of its term stands at its place.
pub open spec fn has_entry(log: Seq<EntryView>, e: EntryView) -> bool {
    1 <= e.index <= log.len() && log[e.index - 1].term == e.term
}

/// The entries from the first one on that the log does not have. Only a log
/// with another entry in its place loses any to it.
pub open spec fn lacking(log: Seq<EntryView>, es: Seq<EntryView>) -> Seq<EntryView>
    decreases es.len(),
{
    if es.len() > 0 && has_entry(log, es[0]) {
        lacking(log, es.skip(1))
    } else {
        es
    }
}

/// What is lacking is the rest behind the entries that the log has.
pub proof fn lemma_lacking(log: Seq<EntryView>, es: Seq<EntryView>) -> (k: int)
    ensures
        0 <= k <= es.len(),
        lacking(log, es) == es.skip(k),
        forall|j: int| 0 <= j < k ==> has_entry(log, #[trigger] es[j]),
        k < es.len() ==> !has_entry(log, es[k]),
    decreases es.len(),
{
    if es.len() > 0 && has_entry(log, es[0]) {
        let rest = es.skip(1);
        let k = lemma_lacking(log, rest);
        assert forall|j: int| 0 <= j < k + 1 implies has_entry(log, #[trigger] es[j]) by {
            if j > 0 {
                assert(rest[j - 1] == es[j]);
            }
        }
        if k + 1 < es.len() {
            assert(rest[k] == es[k + 1]);
        }
        assert(es.skip(k + 1) =~= rest.skip(k));
        k + 1
    } else {
        assert(es.skip(0) =~= es);
        0
    }
}

/// Behind entries that the log has, as much is lacking as before.
pub proof fn lemma_lacking_on(log: Seq<EntryView>, es: Seq<EntryView>, k: int)
    requires
        0 <= k <= es.len(),
        forall|j: int| 0 <= j < k ==> has_entry(log, #[trigger] es[j]),
        k < es.len() ==> !has_entry(log, es[k]),
    ensures
        lacking(log, es) == es.skip(k),
{
    let n = lemma_lacking(log, es);
    if n < k {
        assert(has_entry(log, es[n]));
    } else if k < n {
        assert(has_entry(log, es[k]));
    }
}

/// The entries with `low <= index < high`.
pub open spec fn log_range(log: Seq<EntryView>, low: int, high: int) -> Seq<EntryView> {
    let hi = if high - 1 < log.len() {
        high - 1
    } else {
        log.len() as int
    };
    if low - 1 < hi {
        log.subrange(low - 1, hi)
    } else {
        seq![]
    }
}

/// Durable storage for the log of a node, apart from the storage of the
/// application. The log has every entry since the first; the entry at place `i`
/// has index `i + 1`.
pub trait RaftStorage: Sized {
    /// The entries.
    spec fn log(&self) -> Seq<EntryView>;

    /// What was saved last.
    spec fn hard(&self) -> HardState;

    /// Who belongs to the cluster.
    spec fn conf(&self) -> ConfView;

    /// Reads and writes do not fail.
    spec fn reliable(&self) -> bool;

    /// The error for entries that do not go where they say, behind this log.
    spec fn refuses(log: Seq<EntryView>, es: Seq<EntryView>, e: Error) -> bool;

    /// Every entry has an index.
    proof fn lemma_log_fits(&self)
        ensures
            self.log().len() <= u64::MAX,
    ;

    fn initial_state(&self) -> (r: Result<(HardState, ConfState), Error>)
        ensures
            r matches Ok(x) ==> x.0 == self.hard() && x.1@ == self.conf(),
            self.reliable() ==> r is Ok,
    ;

    /// The entries with `low <= index < high`.
    fn entries(&self, low: LogIndex, high: LogIndex) -> (r: Result<Vec<Entry>, Error>)
        ensures
            r matches Ok(v) ==> low > 0 && entry_views(v@) == log_range(
                self.log(),
                low as int,
                high as int,
            ),
            self.reliable() && low > 0 ==> r is Ok,
    ;

    /// The term of the entry at `idx`; index zero has term zero.
    fn term(&self, idx: LogIndex) -> (r: Result<Term, Error>)
        ensures
            r matches Ok(t) ==> idx <= self.log().len() && t == (if idx == 0 {
                0
            } else {
                self.log()[idx - 1].term
            }),
            self.reliable() && idx <= self.log().len() ==> r is Ok,
    ;

    fn first_index(&self) -> (r: Result<LogIndex, Error>)
        ensures
            r matches Ok(i) ==> i == 1,
            self.reliable() ==> r is Ok,
    ;

    fn last_index(&self) -> (r: Result<LogIndex, Error>)
        ensures
            r matches Ok(i) ==> i == self.log().len(),
            self.reliable() ==> r is Ok,
    ;

    fn snapshot(&self) -> (r: Result<Snapshot, Error>);

    /// Takes entries in. They replace everything from their first index on, and
    /// leave no gap.
    fn append(&mut self, entries: &[Entry]) -> (r: Result<(), Error>)
        ensures
            final(self).hard() == old(self).hard(),
            final(self).conf() == old(self).conf(),
            r is Ok ==> attaches(old(self).log(), entry_views(entries@)) && final(self).log()
                == spliced(old(self).log(), entry_views(entries@)),
            old(self).reliable() ==> final(self).reliable() && (r is Ok <==> attaches(
                old(self).log(),
                entry_views(entries@),
            )) && (r matches Err(e) ==> final(self).log() == old(self).log() && Self::refuses(
                old(self).log(),
                entry_views(entries@),
                e,
            )),
    ;

    fn save_hard_state(&mut self, hs: &HardState) -> (r: Result<(), Error>)
        ensures
            final(self).log() == old(self).log(),
            final(self).conf() == old(self).conf(),
            r is Ok ==> final(self).hard() == *hs,
            old(self).reliable() ==> final(self).reliable() && r is Ok,
    ;

    fn apply_snapshot(&mut self, snap: Snapshot) -> (r: Result<(), Error>);

    /// Discards log entries strictly before `idx`, if the storage can do without
    /// them.
    fn compact(&mut self, idx: LogIndex) -> (r: Result<(), Error>)
        ensures
            final(self).hard() == old(self).hard(),
            final(self).reliable() ==> final(self).log() == old(self).log(),
    ;
}

} // verus!
