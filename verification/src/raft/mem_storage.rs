//! A log in memory, for tests and for starting out.
//!
//! Snapshots are not there yet: `snapshot` and `apply_snapshot` return an error.

use vstd::prelude::*;
use vstd::string::StringExecFns;

use crate::raft::storage::{log_range, RaftStorage};
use crate::raft::types::{
    dup_entries, entry_views, ConfState, ConfView, Entry, EntryView, HardState, Snapshot,
};
use crate::text::{self, decimal};
use crate::types::{Error, LogIndex, Term};

verus! {

pub struct MemRaftStorage {
    /// The entry at place `i` has index `i + 1`.
    entries: Vec<Entry>,
    hard_state: HardState,
    conf_state: ConfState,
}

impl MemRaftStorage {
    pub fn new() -> (s: Self)
        ensures
            s.log() == Seq::<EntryView>::empty(),
            s.hard() == (HardState { term: 0, vote: None, commit: 0 }),
            s.conf() == (ConfView { voters: seq![], learners: seq![] }),
    {
        Self::with_conf(ConfState::default())
    }

    /// An empty log of a cluster with these members.
    pub fn with_conf(conf: ConfState) -> (s: Self)
        ensures
            s.log() == Seq::<EntryView>::empty(),
            s.hard() == (HardState { term: 0, vote: None, commit: 0 }),
            s.conf() == conf@,
    {
        let s = MemRaftStorage {
            entries: Vec::new(),
            hard_state: HardState::default(),
            conf_state: conf,
        };
        assert(s.log() =~= Seq::<EntryView>::empty());
        s
    }
}

impl Default for MemRaftStorage {
    fn default() -> (s: Self)
        ensures
            s.log() == Seq::<EntryView>::empty(),
            s.hard() == (HardState { term: 0, vote: None, commit: 0 }),
            s.conf() == (ConfView { voters: seq![], learners: seq![] }),
    {
        Self::new()
    }
}

/// The text for an append that would leave a gap.
pub open spec fn gap_text(len: nat, first: u64) -> Seq<char> {
    "append: gap (current last "@ + decimal(len) + ", appending first "@ + decimal(first as nat)
        + ")"@
}

impl RaftStorage for MemRaftStorage {
    closed spec fn log(&self) -> Seq<EntryView> {
        entry_views(self.entries@)
    }

    closed spec fn hard(&self) -> HardState {
        self.hard_state
    }

    closed spec fn conf(&self) -> ConfView {
        self.conf_state@
    }

    open spec fn reliable(&self) -> bool {
        true
    }

    open spec fn refuses(log: Seq<EntryView>, es: Seq<EntryView>, e: Error) -> bool {
        es.len() > 0 && (if es[0].index == 0 {
            e.is_raft("append: index 0 is invalid"@)
        } else {
            e.is_raft(gap_text(log.len(), es[0].index))
        })
    }

    proof fn lemma_log_fits(&self) {
        let n = self.entries.len();
        assert(n == self.entries@.len());
    }

    fn initial_state(&self) -> (r: Result<(HardState, ConfState), Error>) {
        Ok((self.hard_state, self.conf_state.dup()))
    }

    fn entries(&self, low: LogIndex, high: LogIndex) -> (r: Result<Vec<Entry>, Error>)
        ensures
            low == 0 ==> (r matches Err(e) && e.is_raft("entries: low index 0 is invalid"@)),
    {
        if low == 0 {
            return Err(Error::Raft(String::from_str("entries: low index 0 is invalid")));
        }
        let len = self.entries.len();
        let below = low - 1;
        let lo: usize = if below < len as u64 {
            below as usize
        } else {
            len
        };
        let upto: u64 = if high == 0 {
            0
        } else {
            high - 1
        };
        let hi: usize = if upto < len as u64 {
            upto as usize
        } else {
            len
        };
        if lo >= hi {
            let none: Vec<Entry> = Vec::new();
            assert(entry_views(none@) =~= log_range(self.log(), low as int, high as int));
            return Ok(none);
        }
        Ok(dup_entries(self.entries.as_slice(), lo, hi))
    }

    fn term(&self, idx: LogIndex) -> (r: Result<Term, Error>)
        ensures
            idx > self.log().len() ==> (r matches Err(e) && e.is_raft(
                "term: index "@ + decimal(idx as nat) + " out of range"@,
            )),
    {
        if idx == 0 {
            return Ok(0);
        }
        let offset = idx - 1;
        if offset >= self.entries.len() as u64 {
            let mut text = String::from_str("term: index ");
            text.append(text::decimal_text(idx).as_str());
            text.append(" out of range");
            return Err(Error::Raft(text));
        }
        Ok(self.entries[offset as usize].term)
    }

    fn first_index(&self) -> (r: Result<LogIndex, Error>) {
        Ok(1)
    }

    fn last_index(&self) -> (r: Result<LogIndex, Error>) {
        Ok(self.entries.len() as u64)
    }

    fn snapshot(&self) -> (r: Result<Snapshot, Error>)
        ensures
            r matches Err(e) && e.is_raft("snapshots not implemented in MemRaftStorage"@),
    {
        Err(Error::Raft(String::from_str("snapshots not implemented in MemRaftStorage")))
    }

    fn append(&mut self, entries: &[Entry]) -> (r: Result<(), Error>) {
        let ghost es = entry_views(entries@);
        let ghost log = self.log();
        if entries.len() == 0 {
            return Ok(());
        }
        let first_idx = entries[0].index;
        assert(es[0].index == first_idx);
        if first_idx == 0 {
            return Err(Error::Raft(String::from_str("append: index 0 is invalid")));
        }
        let offset = first_idx - 1;
        if offset > self.entries.len() as u64 {
            let mut text = String::from_str("append: gap (current last ");
            text.append(text::decimal_text(self.entries.len() as u64).as_str());
            text.append(", appending first ");
            text.append(text::decimal_text(first_idx).as_str());
            text.append(")");
            return Err(Error::Raft(text));
        }
        self.entries.truncate(offset as usize);
        let mut more = dup_entries(entries, 0, entries.len());
        let ghost kept = self.entries@;
        let ghost added = more@;
        self.entries.append(&mut more);
        proof {
            assert(entry_views(kept) =~= log.take(offset as int));
            assert(es.subrange(0, es.len() as int) =~= es);
            assert(entry_views(self.entries@) =~= entry_views(kept) + entry_views(added));
        }
        Ok(())
    }

    fn save_hard_state(&mut self, hs: &HardState) -> (r: Result<(), Error>) {
        self.hard_state = *hs;
        Ok(())
    }

    fn apply_snapshot(&mut self, snap: Snapshot) -> (r: Result<(), Error>)
        ensures
            r matches Err(e) && e.is_raft("snapshots not implemented in MemRaftStorage"@),
            *final(self) == *old(self),
    {
        Err(Error::Raft(String::from_str("snapshots not implemented in MemRaftStorage")))
    }

    /// Nothing is discarded while there are no snapshots.
    fn compact(&mut self, idx: LogIndex) -> (r: Result<(), Error>)
        ensures
            r is Ok,
            *final(self) == *old(self),
    {
        Ok(())
    }
}

} // verus!
