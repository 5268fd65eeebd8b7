//! A transaction.

use vstd::prelude::*;

use crate::buffer::{octets, opt_octets};
use crate::ordered::OrderedMap;
use crate::storage::engine::{self, held, written_all, Contents, Op};
use crate::types::{Key, Timestamp, Value};

verus! {

pub type TxnId = u64;

/// A set of keys.
pub struct KeySet {
    keys: OrderedMap<()>,
}

impl KeySet {
    pub closed spec fn view(&self) -> Set<Seq<u8>> {
        self.keys@.dom()
    }

    /// The keys are in order, each once.
    pub closed spec fn wf(&self) -> bool {
        self.keys.wf()
    }

    pub fn new() -> (s: Self)
        ensures
            s.wf(),
            s@ == Set::<Seq<u8>>::empty(),
    {
        let s = KeySet { keys: OrderedMap::new() };
        assert(s@ =~= Set::<Seq<u8>>::empty());
        s
    }

    pub fn insert(&mut self, key: Key)
        requires
            old(self).wf(),
        ensures
            final(self).wf(),
            final(self)@ == old(self)@.insert(octets(key)),
    {
        self.keys.insert(key, ());
        assert(self@ =~= old(self)@.insert(octets(key)));
    }

    pub fn contains(&self, key: &[u8]) -> (r: bool)
        requires
            self.wf(),
        ensures
            r == self@.contains(key@),
    {
        self.keys.get(key).is_some()
    }

    pub fn len(&self) -> (n: usize)
        requires
            self.wf(),
        ensures
            n == self@.len(),
    {
        self.keys.len()
    }
}

pub struct Txn {
    pub id: TxnId,
    /// When the transaction reads.
    pub read_ts: Timestamp,
    /// What it will write; without a value a delete.
    pub writes: Vec<(Key, Option<Value>)>,
    /// What it has read.
    pub reads: KeySet,
}

/// The write of a pair.
pub open spec fn write_of(w: (Key, Option<Value>)) -> Op {
    match w.1 {
        Some(v) => Op::Put { key: octets(w.0), value: octets(v) },
        None => Op::Delete { key: octets(w.0) },
    }
}

/// The writes of a list of pairs.
pub open spec fn writes_in(ws: Seq<(Key, Option<Value>)>) -> Seq<Op> {
    Seq::new(ws.len(), |i: int| write_of(ws[i]))
}

impl Txn {
    /// A transaction that has neither read nor written anything.
    pub fn new(id: TxnId, read_ts: Timestamp) -> (t: Self)
        ensures
            t.id == id,
            t.read_ts == read_ts,
            t.writes@ == Seq::<(Key, Option<Value>)>::empty(),
            t.reads.wf(),
            t.reads@ == Set::<Seq<u8>>::empty(),
    {
        Txn { id, read_ts, writes: Vec::new(), reads: KeySet::new() }
    }
}

/// Once a transaction's writes are in the store, a key holds the value that the
/// transaction wrote under it last, or nothing where it deleted the key last, and a
/// key that it did not write holds what it held.
pub proof fn lemma_writes_seen(
    m: Contents,
    ws: Seq<(Key, Option<Value>)>,
    i: int,
    other: Seq<u8>,
)
    requires
        0 <= i < ws.len(),
        forall|j: int| i < j < ws.len() ==> octets((#[trigger] ws[j]).0) != octets(ws[i].0),
    ensures
        held(written_all(m, writes_in(ws)), octets(ws[i].0)) == opt_octets(ws[i].1),
        (forall|j: int| 0 <= j < ws.len() ==> octets((#[trigger] ws[j]).0) != other) ==> held(
            written_all(m, writes_in(ws)),
            other,
        ) == held(m, other),
{
    let ops = writes_in(ws);
    assert forall|j: int| i < j < ops.len() implies (#[trigger] ops[j]).key() != ops[i].key() by {
        assert(octets(ws[j].0) != octets(ws[i].0));
    }
    if (forall|j: int| 0 <= j < ws.len() ==> octets((#[trigger] ws[j]).0) != other) {
        assert forall|j: int| 0 <= j < ops.len() implies (#[trigger] ops[j]).key() != other by {
            assert(octets(ws[j].0) != other);
        }
        engine::lemma_not_written(m, ops, other);
    }
    engine::lemma_last_write_wins(m, ops, i);
}

} // verus!
