//! An engine that lives in memory. Nothing in it is durable.

use bytes::Bytes;
use vstd::prelude::*;

use crate::buffer::{self, octets};
use crate::ordered::{self, map_of, viewed, OrderedMap};
use crate::storage::engine::{
    op_views, pair_views, written_all, Batch, BatchOp, Contents, Engine, ListCursor, Op, Snapshot,
};
use crate::types::{Error, Key, KeyRange, Value};

verus! {

/// The contents that a map of buffers stands for.
pub open spec fn contents_of(m: Map<Seq<u8>, Bytes>) -> Contents {
    viewed(m, |b: Bytes| octets(b))
}

pub struct MemEngine {
    data: OrderedMap<Value>,
}

impl MemEngine {
    pub fn new() -> (e: Self)
        ensures
            e.wf(),
            e.contents() == Contents::empty(),
    {
        let e = Self { data: OrderedMap::new() };
        assert(e.contents() =~= Contents::empty());
        e
    }
}

impl Default for MemEngine {
    fn default() -> (e: Self)
        ensures
            e.wf(),
            e.contents() == Contents::empty(),
    {
        Self::new()
    }
}

/// Copies of the pairs of `items` from `lo` up to `hi`, sharing their bytes.
fn copy_pairs(items: &Vec<(Key, Value)>, lo: usize, hi: usize) -> (out: Vec<(Key, Value)>)
    requires
        hi <= items.len(),
    ensures
        pair_views(out@) == (if lo < hi {
            pair_views(items@).subrange(lo as int, hi as int)
        } else {
            seq![]
        }),
{
    let mut out: Vec<(Key, Value)> = Vec::new();
    let mut i: usize = lo;
    assert(lo < hi ==> pair_views(out@) =~= pair_views(items@).subrange(lo as int, lo as int));
    assert(pair_views(out@) =~= seq![]);
    while i < hi
        invariant
            lo <= i,
            hi <= items.len(),
            i <= hi || lo >= hi,
            lo < hi ==> pair_views(out@) == pair_views(items@).subrange(lo as int, i as int),
            lo >= hi ==> i == lo && pair_views(out@) == Seq::<(Seq<u8>, Seq<u8>)>::empty(),
        decreases hi - i,
    {
        let ghost prev = pair_views(out@);
        out.push((items[i].0.clone(), items[i].1.clone()));
        proof {
            let x = pair_views(items@)[i as int];
            assert(pair_views(out@) =~= prev.push(x));
            assert(pair_views(items@).subrange(lo as int, i + 1) =~= prev.push(x));
        }
        i += 1;
    }
    out
}

/// Builds a map from pairs that are in key order.
fn copy_map(m: &OrderedMap<Value>) -> (c: OrderedMap<Value>)
    requires
        m.wf(),
    ensures
        c.wf(),
        contents_of(c@) == contents_of(m@),
{
    let items = m.as_list();
    let mut c: OrderedMap<Value> = OrderedMap::new();
    let mut i: usize = 0;
    let ghost part = |n: int| contents_of(map_of(items@.take(n)));
    assert(items@.take(0) =~= Seq::<(Bytes, Bytes)>::empty());
    assert(contents_of(c@) =~= contents_of(map_of(items@.take(0))));
    while i < items.len()
        invariant
            i <= items.len(),
            items@ == m.entries(),
            m.wf(),
            c.wf(),
            contents_of(c@) == contents_of(map_of(items@.take(i as int))),
        decreases items.len() - i,
    {
        let ghost prev = c@;
        let k = items[i].0.clone();
        let v = items[i].1.clone();
        c.insert(k, v);
        proof {
            ordered::lemma_take_next(items@, i as int);
            assert(contents_of(c@) =~= contents_of(prev).insert(octets(k), octets(v)));
            assert(contents_of(map_of(items@.take(i + 1))) =~= contents_of(
                map_of(items@.take(i as int)),
            ).insert(octets(items@[i as int].0), octets(items@[i as int].1)));
        }
        i += 1;
    }
    assert(items@.take(i as int) =~= items@);
    c
}

impl Engine for MemEngine {
    type Snap = MemSnapshot;

    type Cur = ListCursor;

    closed spec fn wf(&self) -> bool {
        self.data.wf()
    }

    open spec fn intact(&self) -> bool {
        true
    }

    closed spec fn contents(&self) -> Contents {
        contents_of(self.data@)
    }

    open spec fn has_room(&self, ops: Seq<Op>) -> bool {
        true
    }

    proof fn lemma_room_prefix(&self, ops: Seq<Op>, rest: Seq<Op>) {
    }

    fn get(&self, key: &[u8]) -> (r: Result<Option<Value>, Error>) {
        match self.data.get(key) {
            Some(v) => Ok(Some(v.clone())),
            None => Ok(None),
        }
    }

    fn put(&mut self, key: Key, value: Value) -> (r: Result<(), Error>) {
        self.data.insert(key, value);
        assert(self.contents() =~= old(self).contents().insert(octets(key), octets(value)));
        Ok(())
    }

    fn delete(&mut self, key: &[u8]) -> (r: Result<(), Error>) {
        self.data.remove(key);
        assert(self.contents() =~= old(self).contents().remove(key@));
        Ok(())
    }

    fn write_batch(&mut self, batch: Batch) -> (r: Result<(), Error>) {
        let ghost start = self.contents();
        let ghost all = batch@;
        let ops = batch.into_ops();
        assert(all.take(0) =~= Seq::<Op>::empty());
        for op in it: ops
            invariant
                all == op_views(it.seq()),
                self.wf(),
                self.contents() == written_all(start, all.take(it.index())),
        {
            let ghost k = it.index();
            let ghost prev = self.contents();
            proof {
                assert(all.take(k + 1).drop_last() =~= all.take(k));
                assert(all.take(k + 1).last() == op@);
            }
            match op {
                BatchOp::Put { key, value } => {
                    self.data.insert(key, value);
                    assert(self.contents() =~= prev.insert(octets(key), octets(value)));
                },
                BatchOp::Delete { key } => {
                    self.data.remove(buffer::as_slice(&key));
                    assert(self.contents() =~= prev.remove(octets(key)));
                },
            }
        }
        assert(all.take(all.len() as int) =~= all);
        Ok(())
    }

    fn snapshot(&self) -> (s: MemSnapshot) {
        let s = MemSnapshot { data: copy_map(&self.data) };
        assert(Snapshot::wf(&s));
        assert(Snapshot::contents(&s) == self.contents());
        s
    }

    fn scan(&self, range: KeyRange) -> (c: ListCursor) {
        let lo = self.data.lower_bound(buffer::as_slice(&range.start));
        let hi = self.data.lower_bound(buffer::as_slice(&range.end));
        let items = copy_pairs(self.data.as_list(), lo, hi);
        proof {
            let l = pair_views(items@);
            ordered::lemma_range(
                self.data.entries(),
                |b: Bytes| octets(b),
                lo as int,
                hi as int,
                octets(range.start),
                octets(range.end),
                l,
            );
        }
        ListCursor::new(items)
    }

    fn flush(&mut self) -> (r: Result<(), Error>) {
        Ok(())
    }
}

/// A copy of what a [`MemEngine`] held.
pub struct MemSnapshot {
    data: OrderedMap<Value>,
}

impl Snapshot for MemSnapshot {
    closed spec fn wf(&self) -> bool {
        self.data.wf()
    }

    open spec fn intact(&self) -> bool {
        true
    }

    closed spec fn contents(&self) -> Contents {
        contents_of(self.data@)
    }

    fn get(&self, key: &[u8]) -> (r: Result<Option<Value>, Error>) {
        match self.data.get(key) {
            Some(v) => Ok(Some(v.clone())),
            None => Ok(None),
        }
    }
}

} // verus!
