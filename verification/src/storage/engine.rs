//! The interface of a key-value storage engine.

use bytes::Bytes;
use vstd::prelude::*;

use crate::buffer::{octets, opt_octets};
use crate::order::{self, before};
use crate::ordered::{first_of, lists_in_order, restricted};
use crate::types::{Error, Key, KeyRange, Value};

verus! {

/// What an engine holds: a value for each key that has one.
pub type Contents = Map<Seq<u8>, Seq<u8>>;

/// What is held under `key`.
pub open spec fn held(m: Contents, key: Seq<u8>) -> Option<Seq<u8>> {
    if m.contains_key(key) {
        Some(m[key])
    } else {
        None
    }
}

/// One write.
pub enum Op {
    Put { key: Seq<u8>, value: Seq<u8> },
    Delete { key: Seq<u8> },
}

impl Op {
    /// The key that the write is about.
    pub open spec fn key(self) -> Seq<u8> {
        match self {
            Op::Put { key, .. } => key,
            Op::Delete { key } => key,
        }
    }

    /// What stands under the key after the write.
    pub open spec fn slot(self) -> Option<Seq<u8>> {
        match self {
            Op::Put { value, .. } => Some(value),
            Op::Delete { .. } => None,
        }
    }
}

/// The contents after one write.
pub open spec fn written(m: Contents, op: Op) -> Contents {
    match op {
        Op::Put { key, value } => m.insert(key, value),
        Op::Delete { key } => m.remove(key),
    }
}

/// The contents after a list of writes, in order.
pub open spec fn written_all(m: Contents, ops: Seq<Op>) -> Contents
    decreases ops.len(),
{
    if ops.len() == 0 {
        m
    } else {
        written(written_all(m, ops.drop_last()), ops.last())
    }
}

/// A list of one write.
pub proof fn lemma_written_one(m: Contents, op: Op)
    ensures
        written_all(m, seq![op]) == written(m, op),
{
    assert(seq![op].drop_last() =~= Seq::<Op>::empty());
    assert(written_all(m, seq![op].drop_last()) == m);
}

/// One list of writes after another.
pub proof fn lemma_written_more(m: Contents, a: Seq<Op>, b: Seq<Op>)
    ensures
        written_all(m, a + b) == written_all(written_all(m, a), b),
    decreases b.len(),
{
    if b.len() == 0 {
        assert(a + b =~= a);
    } else {
        assert((a + b).drop_last() =~= a + b.drop_last());
        lemma_written_more(m, a, b.drop_last());
    }
}

/// After a put the key has the value, after a delete it has none, and every other key
/// has what it had.
pub proof fn lemma_write_then_read(m: Contents, key: Seq<u8>, value: Seq<u8>, other: Seq<u8>)
    ensures
        held(written(m, Op::Put { key, value }), key) == Some(value),
        held(written(m, Op::Delete { key }), key) is None,
        other != key ==> held(written(m, Op::Put { key, value }), other) == held(m, other),
        other != key ==> held(written(m, Op::Delete { key }), other) == held(m, other),
        (Op::Put { key, value }).key() == key,
        (Op::Put { key, value }).slot() == Some(value),
        (Op::Delete { key }).key() == key,
        (Op::Delete { key }).slot() is None,
{
}

/// A write to one key leaves every other key alone.
pub proof fn lemma_written_elsewhere(m: Contents, op: Op, key: Seq<u8>)
    requires
        key != op.key(),
    ensures
        held(written(m, op), key) == held(m, key),
{
}

/// After a list of writes a key has what the last write to it left.
pub proof fn lemma_last_write_wins(m: Contents, ops: Seq<Op>, i: int)
    requires
        0 <= i < ops.len(),
        forall|j: int| i < j < ops.len() ==> (#[trigger] ops[j]).key() != ops[i].key(),
    ensures
        held(written_all(m, ops), ops[i].key()) == ops[i].slot(),
    decreases ops.len(),
{
    let n = ops.len() - 1;
    if i < n {
        let d = ops.drop_last();
        assert(ops[n].key() != ops[i].key());
        assert forall|j: int| i < j < d.len() implies (#[trigger] d[j]).key() != d[i].key() by {
            assert(ops[j].key() != ops[i].key());
        }
        lemma_last_write_wins(m, d, i);
        lemma_written_elsewhere(written_all(m, d), ops[n], ops[i].key());
    }
}

/// What no write of a list is about stays as it was.
pub proof fn lemma_not_written(m: Contents, ops: Seq<Op>, key: Seq<u8>)
    requires
        forall|j: int| 0 <= j < ops.len() ==> (#[trigger] ops[j]).key() != key,
    ensures
        held(written_all(m, ops), key) == held(m, key),
    decreases ops.len(),
{
    if ops.len() > 0 {
        let d = ops.drop_last();
        let n = d.len() as int;
        assert forall|j: int| 0 <= j < d.len() implies (#[trigger] d[j]).key() != key by {
            assert(ops[j].key() != key);
        }
        lemma_not_written(m, d, key);
        assert(ops[n].key() != key);
        lemma_written_elsewhere(written_all(m, d), ops[n], key);
    }
}

/// One write of a [`Batch`].
#[derive(Debug)]
pub enum BatchOp {
    Put { key: Key, value: Value },
    Delete { key: Key },
}

impl BatchOp {
    pub open spec fn view(&self) -> Op {
        match self {
            BatchOp::Put { key, value } => Op::Put { key: octets(*key), value: octets(*value) },
            BatchOp::Delete { key } => Op::Delete { key: octets(*key) },
        }
    }
}

/// What each write of a list says.
pub open spec fn op_views(ops: Seq<BatchOp>) -> Seq<Op> {
    Seq::new(ops.len(), |i: int| ops[i]@)
}

/// A list of writes that belong together. Pass it to [`Engine::write_batch`].
#[derive(Debug)]
pub struct Batch {
    pub(crate) ops: Vec<BatchOp>,
}

impl Batch {
    /// The writes, in order.
    pub closed spec fn view(&self) -> Seq<Op> {
        op_views(self.ops@)
    }

    pub fn new() -> (b: Self)
        ensures
            b@ == Seq::<Op>::empty(),
    {
        let b = Self { ops: Vec::new() };
        assert(b@ =~= Seq::<Op>::empty());
        b
    }

    /// Adds a put, and hands the batch back for more.
    pub fn put(&mut self, key: Key, value: Value) -> (r: &mut Self)
        ensures
            r@ == old(self)@.push(Op::Put { key: octets(key), value: octets(value) }),
            *final(self) == *final(r),
    {
        self.ops.push(BatchOp::Put { key, value });
        assert(self@ =~= old(self)@.push(Op::Put { key: octets(key), value: octets(value) }));
        self
    }

    /// Adds a delete, and hands the batch back for more.
    pub fn delete(&mut self, key: Key) -> (r: &mut Self)
        ensures
            r@ == old(self)@.push(Op::Delete { key: octets(key) }),
            *final(self) == *final(r),
    {
        self.ops.push(BatchOp::Delete { key });
        assert(self@ =~= old(self)@.push(Op::Delete { key: octets(key) }));
        self
    }

    pub fn len(&self) -> (n: usize)
        ensures
            n == self@.len(),
    {
        self.ops.len()
    }

    pub fn is_empty(&self) -> (r: bool)
        ensures
            r == (self@.len() == 0),
    {
        self.ops.len() == 0
    }

    /// The writes, in order.
    pub fn ops(&self) -> (ops: &[BatchOp])
        ensures
            op_views(ops@) == self@,
    {
        self.ops.as_slice()
    }

    /// The writes by value, in order.
    pub(crate) fn into_ops(self) -> (ops: Vec<BatchOp>)
        ensures
            op_views(ops@) == self@,
    {
        self.ops
    }
}

impl Default for Batch {
    fn default() -> (b: Self)
        ensures
            b@ == Seq::<Op>::empty(),
    {
        Self::new()
    }
}

/// A key-value storage engine.
pub trait Engine: Sized {
    type Snap: Snapshot;

    type Cur: Cursor;

    /// What the engine relies on.
    spec fn wf(&self) -> bool;

    /// Everything that the engine stores can be read back.
    spec fn intact(&self) -> bool;

    /// What the engine holds.
    spec fn contents(&self) -> Contents;

    /// The machine has room for these writes.
    spec fn has_room(&self, ops: Seq<Op>) -> bool;

    /// Room for writes is room for the first of them.
    proof fn lemma_room_prefix(&self, ops: Seq<Op>, rest: Seq<Op>)
        requires
            self.has_room(ops + rest),
        ensures
            self.has_room(ops),
    ;

    fn get(&self, key: &[u8]) -> (r: Result<Option<Value>, Error>)
        requires
            self.wf(),
        ensures
            self.intact() ==> (r matches Ok(v) && opt_octets(v) == held(self.contents(), key@)),
    ;

    fn put(&mut self, key: Key, value: Value) -> (r: Result<(), Error>)
        requires
            old(self).wf(),
            old(self).has_room(seq![Op::Put { key: octets(key), value: octets(value) }]),
        ensures
            final(self).wf(),
            old(self).intact() ==> r is Ok && final(self).intact()
                && final(self).contents() == old(self).contents().insert(octets(key), octets(value)),
            forall|rest: Seq<Op>|
                old(self).has_room(
                    seq![Op::Put { key: octets(key), value: octets(value) }] + rest,
                ) ==> #[trigger] final(self).has_room(rest),
    ;

    fn delete(&mut self, key: &[u8]) -> (r: Result<(), Error>)
        requires
            old(self).wf(),
            old(self).has_room(seq![Op::Delete { key: key@ }]),
        ensures
            final(self).wf(),
            old(self).intact() ==> r is Ok && final(self).intact()
                && final(self).contents() == old(self).contents().remove(key@),
            forall|rest: Seq<Op>|
                old(self).has_room(seq![Op::Delete { key: key@ }] + rest)
                    ==> #[trigger] final(self).has_room(rest),
    ;

    /// Applies the writes of a batch, in order.
    fn write_batch(&mut self, batch: Batch) -> (r: Result<(), Error>)
        requires
            old(self).wf(),
            old(self).has_room(batch@),
        ensures
            final(self).wf(),
            old(self).intact() ==> r is Ok && final(self).intact() && final(self).contents()
                == written_all(old(self).contents(), batch@),
    ;

    /// A view of what the engine holds now, which later writes do not change.
    fn snapshot(&self) -> (s: Self::Snap)
        requires
            self.wf(),
        ensures
            s.wf(),
            self.intact() ==> s.intact() && s.contents() == self.contents(),
    ;

    /// A cursor over the keys in `[range.start, range.end)`: over none where the
    /// end lies before the start.
    fn scan(&self, range: KeyRange) -> (c: Self::Cur)
        requires
            self.wf(),
        ensures
            c.wf(),
            c.pos() == 0,
            self.intact() ==> lists_in_order(
                c.items(),
                restricted(self.contents(), octets(range.start), octets(range.end)),
            ),
    ;

    /// Moves what is in memory to durable storage.
    fn flush(&mut self) -> (r: Result<(), Error>)
        requires
            old(self).wf(),
            old(self).has_room(Seq::<Op>::empty()),
        ensures
            final(self).wf(),
            old(self).intact() ==> r is Ok && final(self).intact()
                && final(self).contents() == old(self).contents(),
    ;
}

/// A point-in-time read view.
pub trait Snapshot: Sized {
    spec fn wf(&self) -> bool;

    spec fn intact(&self) -> bool;

    spec fn contents(&self) -> Contents;

    fn get(&self, key: &[u8]) -> (r: Result<Option<Value>, Error>)
        requires
            self.wf(),
        ensures
            self.intact() ==> (r matches Ok(v) && opt_octets(v) == held(self.contents(), key@)),
    ;
}

/// A forward-only walk over pairs in key order.
pub trait Cursor: Sized {
    spec fn wf(&self) -> bool;

    /// The pairs of the walk.
    spec fn items(&self) -> Seq<(Seq<u8>, Seq<u8>)>;

    /// How many pairs lie behind the cursor.
    spec fn pos(&self) -> int;

    /// Moves to the first key that does not come before `target`.
    fn seek(&mut self, target: &[u8])
        requires
            old(self).wf(),
        ensures
            final(self).wf(),
            final(self).items() == old(self).items(),
            0 <= final(self).pos() <= final(self).items().len(),
            order::ascending(first_of(old(self).items())) ==> {
                &&& forall|i: int|
                    0 <= i < final(self).pos() ==> before(
                        (#[trigger] final(self).items()[i]).0,
                        target@,
                    )
                &&& forall|i: int|
                    final(self).pos() <= i < final(self).items().len() ==> !before(
                        (#[trigger] final(self).items()[i]).0,
                        target@,
                    )
            },
    ;

    /// The pair at the cursor, which then moves past it.
    fn next(&mut self) -> (r: Option<(Key, Value)>)
        requires
            old(self).wf(),
        ensures
            final(self).wf(),
            final(self).items() == old(self).items(),
            0 <= old(self).pos() <= old(self).items().len(),
            match r {
                Some((k, v)) => old(self).pos() < old(self).items().len() && final(self).pos()
                    == old(self).pos() + 1 && (octets(k), octets(v)) == old(self).items()[old(self).pos()],
                None => old(self).pos() == old(self).items().len() && final(self).pos() == old(self).pos(),
            },
    ;

    /// Whether there is a pair at the cursor.
    fn valid(&self) -> (r: bool)
        requires
            self.wf(),
        ensures
            r == (self.pos() < self.items().len()),
    ;
}

/// What each pair of a list says.
pub open spec fn pair_views(items: Seq<(Bytes, Bytes)>) -> Seq<(Seq<u8>, Seq<u8>)> {
    Seq::new(items.len(), |i: int| (octets(items[i].0), octets(items[i].1)))
}

/// A cursor over pairs that were collected beforehand.
pub struct ListCursor {
    items: Vec<(Key, Value)>,
    pos: usize,
}

impl ListCursor {
    /// A cursor ahead of the first pair.
    pub fn new(items: Vec<(Key, Value)>) -> (c: Self)
        ensures
            c.wf(),
            c.pos() == 0,
            c.items() == pair_views(items@),
    {
        Self { items, pos: 0 }
    }
}

impl Cursor for ListCursor {
    closed spec fn wf(&self) -> bool {
        self.pos <= self.items.len()
    }

    closed spec fn items(&self) -> Seq<(Seq<u8>, Seq<u8>)> {
        pair_views(self.items@)
    }

    closed spec fn pos(&self) -> int {
        self.pos as int
    }

    fn seek(&mut self, target: &[u8]) {
        self.pos = order::lower_bound(&self.items, target);
        proof {
            assert(first_of(self.items()) =~= order::keys_of(self.items@));
            if order::ascending(first_of(self.items())) {
                assert forall|i: int| 0 <= i < self.pos implies before(
                    (#[trigger] self.items()[i]).0,
                    target@,
                ) by {
                    assert(before(order::keys_of(self.items@)[i], target@));
                }
                assert forall|i: int| self.pos <= i < self.items().len() implies !before(
                    (#[trigger] self.items()[i]).0,
                    target@,
                ) by {
                    assert(!before(order::keys_of(self.items@)[i], target@));
                }
            }
        }
    }

    fn next(&mut self) -> (r: Option<(Key, Value)>) {
        if self.pos >= self.items.len() {
            return None;
        }
        let k = self.items[self.pos].0.clone();
        let v = self.items[self.pos].1.clone();
        self.pos += 1;
        Some((k, v))
    }

    fn valid(&self) -> (r: bool) {
        self.pos < self.items.len()
    }
}

} // verus!
