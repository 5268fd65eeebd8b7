//! The store that transactions run on.
//!
//! One version is kept of each key, and no conflict is looked for: keys that
//! carry a timestamp, and conflict detection, are not there yet. A read at any
//! timestamp gives what the engine holds, and a commit always writes.

use std::time::SystemTime;

use vstd::prelude::*;

use crate::buffer::{self, octets, opt_octets};
use crate::mvcc::clock::{
    next_local, physical_at, HybridLogicalClock, LOGICAL_SPAN, MAX_PHYSICAL_MS,
};
use crate::mvcc::txn::{write_of, writes_in, Txn, TxnId};
use crate::storage::engine::{held, written_all, Engine, Op};
use crate::types::{Error, Key, Timestamp, Value};

verus! {

pub struct MvccStore<E: Engine> {
    engine: E,
    clock: HybridLogicalClock,
    next_txn_id: TxnId,
}

impl<E: Engine> MvccStore<E> {
    pub closed spec fn store(&self) -> E {
        self.engine
    }

    /// The timestamp that the clock stands at.
    pub closed spec fn time(&self) -> Timestamp {
        self.clock@
    }

    /// The number of the next transaction.
    pub closed spec fn next_id(&self) -> TxnId {
        self.next_txn_id
    }

    pub fn new(engine: E) -> (s: Self)
        ensures
            s.store() == engine,
            s.next_id() == 1,
            s.time() % LOGICAL_SPAN == 0,
            exists|t: SystemTime| s.time() == #[trigger] physical_at(t) * LOGICAL_SPAN,
    {
        MvccStore { engine, clock: HybridLogicalClock::new(), next_txn_id: 1 }
    }

    /// The timestamp that the clock stands at: the next one lies above it.
    pub fn last_timestamp(&self) -> (ts: Timestamp)
        ensures
            ts == self.time(),
    {
        self.clock.last()
    }

    pub fn engine(&self) -> (e: &E)
        ensures
            *e == self.store(),
    {
        &self.engine
    }

    /// What stands under `key`. There is one version of it, whatever `read_ts` is.
    pub fn read_at(&self, key: &[u8], read_ts: Timestamp) -> (r: Result<Option<Value>, Error>)
        requires
            self.store().wf(),
        ensures
            self.store().intact() ==> (r matches Ok(v) && opt_octets(v) == held(
                self.store().contents(),
                key@,
            )),
    {
        self.engine.get(key)
    }

    /// Writes a value. It takes the place of the one before, whatever
    /// `commit_ts` is.
    pub fn write(&mut self, key: Key, value: Value, commit_ts: Timestamp) -> (r: Result<(), Error>)
        requires
            old(self).store().wf(),
            old(self).store().has_room(
                seq![Op::Put { key: octets(key), value: octets(value) }],
            ),
        ensures
            final(self).store().wf(),
            final(self).time() == old(self).time(),
            final(self).next_id() == old(self).next_id(),
            old(self).store().intact() ==> r is Ok && final(self).store().intact()
                && final(self).store().contents() == old(self).store().contents().insert(
                octets(key),
                octets(value),
            ),
    {
        self.engine.put(key, value)
    }

    /// Starts a transaction, which reads at a timestamp above every earlier one.
    pub fn begin_txn(&mut self) -> (t: Txn)
        requires
            old(self).time() < u64::MAX,
        ensures
            t.id == old(self).next_id(),
            t.read_ts > old(self).time(),
            exists|at: SystemTime|
                t.read_ts == next_local(old(self).time(), #[trigger] physical_at(at)),
            t.writes@ == Seq::<(Key, Option<Value>)>::empty(),
            t.reads.wf(),
            t.reads@ == Set::<Seq<u8>>::empty(),
            final(self).time() == t.read_ts,
            final(self).next_id() == old(self).next_id().wrapping_add(1),
            final(self).store() == old(self).store(),
    {
        let id = self.next_txn_id;
        self.next_txn_id = id.wrapping_add(1);
        let read_ts = self.clock.now();
        Txn::new(id, read_ts)
    }

    /// Commits a transaction: its writes are applied in order, and the commit
    /// timestamp is above every earlier timestamp.
    pub fn commit(&mut self, txn: Txn) -> (r: Result<Timestamp, Error>)
        requires
            old(self).time() < u64::MAX,
            old(self).store().wf(),
            old(self).store().has_room(writes_in(txn.writes@)),
        ensures
            final(self).store().wf(),
            final(self).time() > old(self).time(),
            exists|at: SystemTime|
                final(self).time() == next_local(old(self).time(), #[trigger] physical_at(at)),
            final(self).next_id() == old(self).next_id(),
            r matches Ok(ts) ==> ts == final(self).time(),
            old(self).store().intact() ==> r is Ok && final(self).store().intact()
                && final(self).store().contents() == written_all(
                old(self).store().contents(),
                writes_in(txn.writes@),
            ),
    {
        let commit_ts = self.clock.now();
        match self.apply(txn.writes) {
            Ok(_) => Ok(commit_ts),
            Err(e) => Err(e),
        }
    }

    /// Applies writes in order, up to the first that fails.
    fn apply(&mut self, writes: Vec<(Key, Option<Value>)>) -> (r: Result<(), Error>)
        requires
            old(self).store().wf(),
            old(self).store().has_room(writes_in(writes@)),
        ensures
            final(self).store().wf(),
            final(self).time() == old(self).time(),
            final(self).next_id() == old(self).next_id(),
            old(self).store().intact() ==> r is Ok && final(self).store().intact()
                && final(self).store().contents() == written_all(
                old(self).store().contents(),
                writes_in(writes@),
            ),
    {
        let ghost all = writes_in(writes@);
        let ghost start = self.engine;
        assert(all.take(0) =~= Seq::<Op>::empty());
        assert(all.skip(0) =~= all);
        for w in it: writes
            invariant
                all == writes_in(it.seq()),
                start == old(self).store(),
                self.engine.wf(),
                self.time() == old(self).time(),
                self.next_id() == old(self).next_id(),
                self.engine.has_room(all.skip(it.index())),
                start.intact() ==> self.engine.intact() && self.engine.contents() == written_all(
                    start.contents(),
                    all.take(it.index()),
                ),
        {
            let ghost k = it.index();
            proof {
                assert(all.take(k + 1).drop_last() =~= all.take(k));
                assert(all.take(k + 1).last() == all[k]);
                assert(all[k] == write_of(w));
                assert(seq![all[k]] + all.skip(k + 1) =~= all.skip(k));
                self.engine.lemma_room_prefix(seq![all[k]], all.skip(k + 1));
            }
            let (key, value) = w;
            let r = match value {
                Some(v) => self.engine.put(key, v),
                None => self.engine.delete(buffer::as_slice(&key)),
            };
            match r {
                Ok(_) => {},
                Err(e) => {
                    return Err(e);
                },
            }
        }
        assert(all.take(all.len() as int) =~= all);
        Ok(())
    }

    /// Gives a transaction up. Nothing of it has been written.
    pub fn abort(&self, txn: Txn)
    {
    }

    /// The error of a transaction that lost against another.
    pub fn conflict() -> (e: Error)
        ensures
            e == Error::TxnConflict,
    {
        Error::TxnConflict
    }
}

/// A transaction that is committed right after another one was begun or
/// committed has the later timestamp: clocks only go forward.
pub proof fn lemma_timestamps_rise(last: Timestamp, phys: u64)
    requires
        last < u64::MAX,
        phys <= MAX_PHYSICAL_MS,
    ensures
        next_local(last, phys) > last,
{
    if phys > last / 0x1_0000 {
        assert(phys * 0x1_0000 > last) by (nonlinear_arith)
            requires
                phys > last / 0x1_0000,
        ;
    }
}

} // verus!
