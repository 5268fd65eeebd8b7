//! What the log is for.

use bytes::Bytes;
use vstd::prelude::*;

use crate::buffer::octets;
use crate::raft::state::{applied_through, later_index};
use crate::raft::types::{entry_views, Entry, EntryView};
use crate::types::{Error, LogIndex};

verus! {

/// The application that the log drives.
///
/// An implementation decodes the data of an entry into a command of its own and
/// carries it out. The bytes it returns go back to the client that proposed the
/// command.
pub trait StateMachine: Sized {
    /// What the machine relies on.
    spec fn wf(&self) -> bool;

    /// There is room for what the entries ask for.
    spec fn has_room(&self, entries: Seq<EntryView>) -> bool;

    /// The highest index that was applied.
    spec fn applied(&self) -> LogIndex;

    /// `now` is what `self` becomes by these entries, one after another.
    spec fn leads_to(&self, entries: Seq<EntryView>, now: &Self) -> bool;

    /// The machine may refuse the entry with this error, and is then `now`.
    spec fn refuses(&self, entry: EntryView, e: Error, now: &Self) -> bool;

    /// Without entries nothing changes.
    proof fn lemma_start(&self)
        ensures
            self.leads_to(Seq::empty(), self),
    ;

    /// Room for entries is room for the first of them.
    proof fn lemma_room_first(&self, first: EntryView, rest: Seq<EntryView>)
        requires
            self.has_room(seq![first] + rest),
        ensures
            self.has_room(seq![first]),
    ;

    /// Carries an entry out, or refuses it. The applied index never goes back.
    fn apply(&mut self, entry: &Entry) -> (r: Result<Bytes, Error>)
        requires
            old(self).wf(),
            old(self).has_room(seq![entry@]),
        ensures
            final(self).wf(),
            final(self).applied() >= old(self).applied(),
            r is Ok ==> forall|start: Self, entries: Seq<EntryView>|
                start.leads_to(entries, old(self)) ==> #[trigger] start.leads_to(
                    entries.push(entry@),
                    final(self),
                ),
            r matches Err(e) ==> old(self).refuses(entry@, e, final(self)),
            forall|rest: Seq<EntryView>|
                old(self).has_room(seq![entry@] + rest) ==> #[trigger] final(self).has_room(rest),
    ;

    /// The state as bytes, so that the log can be shortened.
    fn snapshot(&self) -> (r: Result<Bytes, Error>)
        requires
            self.wf(),
    ;

    /// Takes the state from a snapshot.
    fn restore(&mut self, snapshot: Bytes) -> (r: Result<(), Error>)
        requires
            old(self).wf(),
        ensures
            final(self).wf(),
    ;

    /// The highest index that was applied: up to there the log may be shortened.
    fn applied_index(&self) -> (i: LogIndex)
        requires
            self.wf(),
        ensures
            i == self.applied(),
    ;
}

/// A machine that keeps every entry it is given, and does nothing else.
pub struct Recorder {
    entries: Vec<Entry>,
    applied: LogIndex,
}

impl Recorder {
    /// The entries, in the order in which they came.
    pub closed spec fn recorded(&self) -> Seq<EntryView> {
        entry_views(self.entries@)
    }

    pub fn new() -> (m: Self)
        ensures
            m.wf(),
            m.recorded() == Seq::<EntryView>::empty(),
            m.applied() == 0,
    {
        let m = Recorder { entries: Vec::new(), applied: 0 };
        assert(m.recorded() =~= Seq::<EntryView>::empty());
        m
    }

    /// The entries, in the order in which they came.
    pub fn entries(&self) -> (es: &[Entry])
        ensures
            entry_views(es@) == self.recorded(),
    {
        self.entries.as_slice()
    }
}

impl StateMachine for Recorder {
    open spec fn wf(&self) -> bool {
        true
    }

    open spec fn has_room(&self, entries: Seq<EntryView>) -> bool {
        true
    }

    closed spec fn applied(&self) -> LogIndex {
        self.applied
    }

    open spec fn leads_to(&self, entries: Seq<EntryView>, now: &Self) -> bool {
        &&& now.recorded() == self.recorded() + entries
        &&& now.applied() == applied_through(self.applied(), entries)
    }

    /// No entry is refused.
    open spec fn refuses(&self, entry: EntryView, e: Error, now: &Self) -> bool {
        false
    }

    proof fn lemma_start(&self) {
        assert(self.recorded() + Seq::<EntryView>::empty() =~= self.recorded());
    }

    proof fn lemma_room_first(&self, first: EntryView, rest: Seq<EntryView>) {
    }

    fn apply(&mut self, entry: &Entry) -> (r: Result<Bytes, Error>)
        ensures
            r matches Ok(b) && octets(b) == Seq::<u8>::empty(),
            final(self).recorded() == old(self).recorded().push(entry@),
            final(self).applied() == later_index(old(self).applied(), entry.index),
    {
        let ghost prior = self.recorded();
        self.entries.push(entry.dup());
        if entry.index > self.applied {
            self.applied = entry.index;
        }
        proof {
            assert(self.recorded() =~= prior.push(entry@));
            assert forall|start: Self, es: Seq<EntryView>|
                start.leads_to(es, old(self)) implies #[trigger] start.leads_to(
                es.push(entry@),
                self,
            ) by {
                assert(es.push(entry@).drop_last() =~= es);
                assert(self.recorded() =~= start.recorded() + es.push(entry@));
            }
        }
        Ok(Bytes::new())
    }

    fn snapshot(&self) -> (r: Result<Bytes, Error>)
        ensures
            r matches Ok(b) && octets(b) == Seq::<u8>::empty(),
    {
        Ok(Bytes::new())
    }

    fn restore(&mut self, snapshot: Bytes) -> (r: Result<(), Error>)
        ensures
            r is Ok,
            *final(self) == *old(self),
    {
        Ok(())
    }

    fn applied_index(&self) -> (i: LogIndex) {
        self.applied
    }
}

} // verus!
