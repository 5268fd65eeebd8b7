//! The sorted buffer that takes writes before they go to a table.
//!
//! Each entry has the `seq` at which it was written, so that a log replayed
//! out of order still ends with the newest write of each key. An entry without
//! a value is a tombstone.

use bytes::Bytes;
use vstd::prelude::*;

use crate::buffer::{self, octets, opt_octets};
use crate::ordered::{self, lists_in_order, map_of, restricted, viewed, OrderedMap};
use crate::types::{Key, Value};

verus! {

/// What an entry is charged besides its key and its value.
pub const ENTRY_OVERHEAD: usize = 16;

/// What a table or a buffer has for each key it knows: a value, or the mark
/// that the key was deleted.
pub type Slots = Map<Seq<u8>, Option<Seq<u8>>>;

/// What a buffer has for each key, and since which write.
pub type Stamped = Map<Seq<u8>, (u64, Option<Seq<u8>>)>;

/// How long a value is, without one nothing.
pub open spec fn opt_len(v: Option<Seq<u8>>) -> int {
    match v {
        Some(b) => b.len() as int,
        None => 0,
    }
}

/// What one entry is charged.
pub open spec fn charge(key: Seq<u8>, value: Option<Seq<u8>>) -> int {
    key.len() + opt_len(value) + ENTRY_OVERHEAD
}

/// What the entries of a buffer are charged, all of them together.
pub open spec fn weight(m: Stamped) -> int
    decreases m.dom().len(),
{
    if m.dom().finite() && m.dom().len() > 0 {
        let k = m.dom().choose();
        charge(k, m[k].1) + weight(m.remove(k))
    } else {
        0
    }
}

/// The later of two optional sequence numbers.
pub open spec fn max_opt(m: Option<u64>, seq: u64) -> Option<u64> {
    match m {
        Some(s) => Some(if s >= seq {
            s
        } else {
            seq
        }),
        None => Some(seq),
    }
}

/// The write loses against what is already there.
pub open spec fn stale(m: Stamped, key: Seq<u8>, seq: u64) -> bool {
    m.contains_key(key) && m[key].0 >= seq
}

/// The entries after one write.
pub open spec fn stamped_in(m: Stamped, seq: u64, key: Seq<u8>, value: Option<Seq<u8>>) -> Stamped {
    if stale(m, key, seq) {
        m
    } else {
        m.insert(key, (seq, value))
    }
}

/// A write that a buffer takes in.
pub struct StampedWrite {
    pub seq: u64,
    pub key: Seq<u8>,
    pub value: Option<Seq<u8>>,
}

/// The entries after a list of writes, in order.
pub open spec fn stamped_all(m: Stamped, ws: Seq<StampedWrite>) -> Stamped
    decreases ws.len(),
{
    if ws.len() == 0 {
        m
    } else {
        let w = ws.last();
        stamped_in(stamped_all(m, ws.drop_last()), w.seq, w.key, w.value)
    }
}

/// No two writes are to one key at one sequence number.
pub open spec fn told_apart(ws: Seq<StampedWrite>) -> bool {
    forall|i: int, j: int|
        0 <= i < j < ws.len() ==> (#[trigger] ws[i]).key != (#[trigger] ws[j]).key || ws[i].seq
            != ws[j].seq
}

/// The write is the newest to its key in the list, and newer than what is in
/// the buffer.
spec fn prevails(m: Stamped, ws: Seq<StampedWrite>, w: StampedWrite) -> bool {
    &&& ws.contains(w)
    &&& !stale(m, w.key, w.seq)
    &&& forall|j: int|
        0 <= j < ws.len() && (#[trigger] ws[j]).key == w.key ==> ws[j].seq <= w.seq
}

/// What a list of writes leaves under a key: its newest write, or what was
/// there before if nothing in the list is newer.
proof fn lemma_newest_prevails(m: Stamped, ws: Seq<StampedWrite>, k: Seq<u8>)
    ensures
        ({
            let r = stamped_all(m, ws);
            ||| r.contains_key(k) && exists|w: StampedWrite| #[trigger]
                prevails(m, ws, w) && w.key == k && r[k] == (w.seq, w.value)
            ||| r.contains_key(k) == m.contains_key(k) && (m.contains_key(k) ==> r[k] == m[k]) && (
            forall|j: int|
                0 <= j < ws.len() && (#[trigger] ws[j]).key == k ==> stale(m, k, ws[j].seq))
        }),
    decreases ws.len(),
{
    if ws.len() > 0 {
        let d = ws.drop_last();
        let last = ws.last();
        let p = stamped_all(m, d);
        let r = stamped_all(m, ws);
        lemma_newest_prevails(m, d, k);
        assert(ws[ws.len() - 1] == last);
        if p.contains_key(k) && exists|w: StampedWrite| #[trigger]
            prevails(m, d, w) && w.key == k && p[k] == (w.seq, w.value) {
            let w = choose|w: StampedWrite| #[trigger]
                prevails(m, d, w) && w.key == k && p[k] == (w.seq, w.value);
            let x = d.index_of(w);
            assert(ws[x] == w);
            let now = if last.key == k && last.seq > w.seq {
                last
            } else {
                w
            };
            assert forall|j: int| 0 <= j < ws.len() && (#[trigger] ws[j]).key == k implies ws[j].seq
                <= now.seq by {
                if j < d.len() {
                    assert(d[j] == ws[j]);
                }
            }
            assert(prevails(m, ws, now));
        } else if last.key == k && !stale(m, k, last.seq) {
            assert forall|j: int| 0 <= j < ws.len() && (#[trigger] ws[j]).key == k implies ws[j].seq
                <= last.seq by {
                if j < d.len() {
                    assert(d[j] == ws[j]);
                }
            }
            assert(prevails(m, ws, last));
        } else {
            assert forall|j: int| 0 <= j < ws.len() && (#[trigger] ws[j]).key == k implies stale(
                m,
                k,
                ws[j].seq,
            ) by {
                if j < d.len() {
                    assert(d[j] == ws[j]);
                }
            }
        }
    }
}

/// A list of writes leaves the same entries in whatever order they come in, and
/// however often each of them comes, unless two of them are to one key at one
/// sequence number.
pub proof fn lemma_order_irrelevant(m: Stamped, a: Seq<StampedWrite>, b: Seq<StampedWrite>)
    requires
        told_apart(a),
        forall|w: StampedWrite| #[trigger] a.contains(w) <==> b.contains(w),
    ensures
        stamped_all(m, a) == stamped_all(m, b),
{
    let x = stamped_all(m, a);
    let y = stamped_all(m, b);
    assert forall|k: Seq<u8>| x.contains_key(k) == #[trigger] y.contains_key(k) && (x.contains_key(
        k,
    ) ==> x[k] == y[k]) by {
        lemma_newest_prevails(m, a, k);
        lemma_newest_prevails(m, b, k);
        if x.contains_key(k) && exists|w: StampedWrite| #[trigger]
            prevails(m, a, w) && w.key == k && x[k] == (w.seq, w.value) {
            let w = choose|w: StampedWrite| #[trigger]
                prevails(m, a, w) && w.key == k && x[k] == (w.seq, w.value);
            assert(b.contains(w));
            let i = b.index_of(w);
            assert(b[i].key == k);
            let v = choose|v: StampedWrite| #[trigger]
                prevails(m, b, v) && v.key == k && y[k] == (v.seq, v.value);
            assert(prevails(m, b, v));
            assert(a.contains(v));
            let p = a.index_of(w);
            let q = a.index_of(v);
            assert(a[p] == w && a[q] == v);
            assert(b[b.index_of(v)] == v);
            assert(w.seq <= v.seq && v.seq <= w.seq);
            assert(p == q);
        } else if exists|v: StampedWrite| #[trigger]
            prevails(m, b, v) && v.key == k && y[k] == (v.seq, v.value) {
            let v = choose|v: StampedWrite| #[trigger]
                prevails(m, b, v) && v.key == k && y[k] == (v.seq, v.value);
            assert(a.contains(v));
            let q = a.index_of(v);
            assert(a[q] == v);
        }
    }
    assert(x.dom() =~= y.dom()) by {
        assert forall|k: Seq<u8>| x.dom().contains(k) <==> y.dom().contains(k) by {
            assert(x.contains_key(k) == y.contains_key(k));
        }
    }
    assert forall|k: Seq<u8>| #[trigger] x.contains_key(k) implies x[k] == y[k] by {
        assert(y.contains_key(k));
    }
    assert(x =~= y);
}

/// Two buffers with the same entries agree in everything else: what they are
/// charged, and the highest sequence number.
pub proof fn lemma_same_entries(a: &MemTable, b: &MemTable)
    requires
        a.wf(),
        b.wf(),
        a@ == b@,
    ensures
        a.slots() == b.slots(),
        weight(a@) == weight(b@),
        a.newest() == b.newest(),
{
    a.lemma_newest();
    b.lemma_newest();
    if let Some(x) = a.newest() {
        let k = choose|k: Seq<u8>| #[trigger] a@.contains_key(k) && a@[k].0 == x;
        assert(b@.contains_key(k));
        let y = b.newest().unwrap();
        let l = choose|l: Seq<u8>| #[trigger] b@.contains_key(l) && b@[l].0 == y;
        assert(a@.contains_key(l));
    }
}

/// Taking the same write in twice is like taking it in once.
pub proof fn lemma_insert_twice(m: Stamped, seq: u64, key: Seq<u8>, value: Option<Seq<u8>>)
    ensures
        stamped_in(stamped_in(m, seq, key, value), seq, key, value) == stamped_in(
            m,
            seq,
            key,
            value,
        ),
{
}

/// The entries without their sequence numbers.
pub open spec fn unstamped(m: Stamped) -> Slots {
    Map::new(|k: Seq<u8>| m.contains_key(k), |k: Seq<u8>| m[k].1)
}

/// Any entry may be weighed first.
pub proof fn lemma_weight_apart(m: Stamped, k: Seq<u8>)
    requires
        m.dom().finite(),
        m.contains_key(k),
    ensures
        weight(m) == charge(k, m[k].1) + weight(m.remove(k)),
    decreases m.dom().len(),
{
    let c = m.dom().choose();
    assert(m.dom().len() > 0) by {
        vstd::set_lib::lemma_set_empty_equivalency_len(m.dom());
    }
    if c != k {
        let less = m.remove(c);
        lemma_weight_apart(less, k);
        lemma_weight_apart(m.remove(k), c);
        assert(less.remove(k) =~= m.remove(k).remove(c));
    }
}

/// An entry that comes in weighs what it is charged, less what the entry of
/// the same key was charged.
pub proof fn lemma_weight_stored(m: Stamped, k: Seq<u8>, e: (u64, Option<Seq<u8>>))
    requires
        m.dom().finite(),
    ensures
        m.insert(k, e).dom().finite(),
        weight(m.insert(k, e)) == weight(m) + charge(k, e.1) - (if m.contains_key(k) {
            charge(k, m[k].1)
        } else {
            0
        }),
{
    lemma_weight_apart(m.insert(k, e), k);
    assert(m.insert(k, e).remove(k) =~= m.remove(k));
    if m.contains_key(k) {
        lemma_weight_apart(m, k);
    } else {
        assert(m.remove(k) =~= m);
    }
}

/// Entries weigh nothing at the least.
pub proof fn lemma_weight_nonnegative(m: Stamped)
    ensures
        weight(m) >= 0,
    decreases m.dom().len(),
{
    if m.dom().finite() && m.dom().len() > 0 {
        lemma_weight_nonnegative(m.remove(m.dom().choose()));
    }
}

pub struct MemTable {
    data: OrderedMap<(u64, Option<Value>)>,
    /// What all entries are charged: decides when to flush.
    size: usize,
    max_seq: Option<u64>,
}

/// What each pair of a list says.
pub open spec fn slot_views(items: Seq<(Bytes, Option<Bytes>)>) -> Seq<
    (Seq<u8>, Option<Seq<u8>>),
> {
    Seq::new(items.len(), |i: int| (octets(items[i].0), opt_octets(items[i].1)))
}

fn value_len(v: &Option<Value>) -> (n: usize)
    ensures
        n == opt_len(opt_octets(*v)),
{
    match v {
        Some(b) => b.len(),
        None => 0,
    }
}

impl MemTable {
    /// The entries by key.
    pub closed spec fn view(&self) -> Stamped {
        viewed(self.data@, |e: (u64, Option<Bytes>)| (e.0, opt_octets(e.1)))
    }

    /// The entries by key, without their sequence numbers.
    pub open spec fn slots(&self) -> Slots {
        unstamped(self@)
    }

    /// The highest sequence number that was taken in.
    pub closed spec fn newest(&self) -> Option<u64> {
        self.max_seq
    }

    /// Every entry is at most as new as the newest, and the size is what the
    /// entries are charged.
    pub closed spec fn wf(&self) -> bool {
        &&& self.data.wf()
        &&& self.size == weight(self@)
        &&& forall|k: Seq<u8>| #[trigger]
            self@.contains_key(k) ==> self.max_seq is Some && self@[k].0 <= self.max_seq.unwrap()
        &&& self.max_seq is Some ==> exists|k: Seq<u8>| #[trigger]
            self@.contains_key(k) && self@[k].0 == self.max_seq.unwrap()
    }

    /// The highest sequence number is that of some entry, and none is above it.
    pub proof fn lemma_newest(&self)
        requires
            self.wf(),
        ensures
            self.newest() is None <==> self@ == Stamped::empty(),
            forall|k: Seq<u8>| #[trigger]
                self@.contains_key(k) ==> self@[k].0 <= self.newest().unwrap(),
            self.newest() matches Some(n) ==> exists|k: Seq<u8>| #[trigger]
                self@.contains_key(k) && self@[k].0 == n,
            self@.dom().finite(),
            weight(self@) >= 0,
    {
        ordered::lemma_map_len(self.data.entries());
        assert(self@.dom() =~= self.data@.dom());
        lemma_weight_nonnegative(self@);
        if self.newest() is None {
            assert(self@ =~= Stamped::empty());
        }
    }

    pub fn new() -> (mt: Self)
        ensures
            mt.wf(),
            mt@ == Stamped::empty(),
            mt.newest() is None,
    {
        let mt = Self { data: OrderedMap::new(), size: 0, max_seq: None };
        assert(mt@ =~= Stamped::empty());
        mt
    }

    /// Takes in a value, or a tombstone, written at `seq`. If the key already
    /// has an entry that is as new, the call changes nothing.
    pub fn insert(&mut self, seq: u64, key: Key, value: Option<Value>)
        requires
            old(self).wf(),
            weight(old(self)@) + charge(octets(key), opt_octets(value)) <= usize::MAX,
        ensures
            final(self).wf(),
            final(self)@ == stamped_in(old(self)@, seq, octets(key), opt_octets(value)),
            final(self).newest() == (if stale(old(self)@, octets(key), seq) {
                old(self).newest()
            } else {
                max_opt(old(self).newest(), seq)
            }),
    {
        let ghost k = octets(key);
        let ghost v = opt_octets(value);
        let key_size = key.len();
        let new_val_size = value_len(&value);
        let old_val_size: Option<usize> = match self.data.get(buffer::as_slice(&key)) {
            Some(e) => {
                if e.0 >= seq {
                    return;
                }
                Some(value_len(&e.1))
            },
            None => None,
        };
        self.data.insert(key, (seq, value));
        proof {
            old(self).lemma_newest();
            assert(self@ =~= old(self)@.insert(k, (seq, v)));
            lemma_weight_stored(old(self)@, k, (seq, v));
            lemma_weight_nonnegative(old(self)@.remove(k));
            if old(self)@.contains_key(k) {
                lemma_weight_apart(old(self)@, k);
            }
        }
        match old_val_size {
            Some(n) => {
                self.size = self.size - (key_size + n + ENTRY_OVERHEAD);
            },
            None => {},
        }
        self.size = self.size + (key_size + new_val_size + ENTRY_OVERHEAD);
        self.max_seq = match self.max_seq {
            Some(s) => if s >= seq {
                Some(s)
            } else {
                Some(seq)
            },
            None => Some(seq),
        };
        proof {
            assert(self.wf()) by {
                assert(self@.contains_key(k) && self@[k].0 == seq);
                if self.max_seq != Some(seq) {
                    let j = choose|j: Seq<u8>| #[trigger]
                        old(self)@.contains_key(j) && old(self)@[j].0 == old(self).max_seq.unwrap();
                    if j == k {
                        assert(!stale(old(self)@, k, seq));
                    } else {
                        assert(self@.contains_key(j) && self@[j].0 == self.max_seq.unwrap());
                    }
                }
            }
        }
    }

    /// Looks `key` up: `None` if it is not here, `Some(None)` if it has a
    /// tombstone here.
    pub fn get(&self, key: &[u8]) -> (r: Option<Option<Value>>)
        requires
            self.wf(),
        ensures
            match r {
                Some(v) => self.slots().contains_key(key@) && opt_octets(v) == self.slots()[key@],
                None => !self.slots().contains_key(key@),
            },
    {
        match self.data.get(key) {
            Some(e) => Some(buffer::opt_share(&e.1)),
            None => None,
        }
    }

    /// The pairs from `lo` up to `hi`, sharing their bytes.
    fn copy_slots(&self, lo: usize, hi: usize) -> (out: Vec<(Key, Option<Value>)>)
        requires
            hi <= self.data.entries().len(),
        ensures
            out.len() == (if lo < hi {
                hi - lo
            } else {
                0
            }),
            forall|i: int|
                0 <= i < out.len() ==> (#[trigger] slot_views(out@)[i]).0 == octets(
                    self.data.entries()[lo + i].0,
                ) && slot_views(out@)[i].1 == opt_octets(self.data.entries()[lo + i].1.1),
    {
        let items = self.data.as_list();
        let mut out: Vec<(Key, Option<Value>)> = Vec::new();
        let mut i: usize = lo;
        while i < hi
            invariant
                lo <= i,
                i <= hi || i == lo,
                hi <= items.len(),
                items@ == self.data.entries(),
                out.len() == i - lo,
                forall|j: int|
                    0 <= j < out.len() ==> (#[trigger] slot_views(out@)[j]).0 == octets(
                        items@[lo + j].0,
                    ) && slot_views(out@)[j].1 == opt_octets(items@[lo + j].1.1),
            decreases hi - i,
        {
            let ghost prev = slot_views(out@);
            out.push((items[i].0.clone(), buffer::opt_share(&items[i].1.1)));
            proof {
                assert forall|j: int| 0 <= j < out.len() implies (#[trigger] slot_views(out@)[j]).0
                    == octets(items@[lo + j].0) && slot_views(out@)[j].1 == opt_octets(
                    items@[lo + j].1.1,
                ) by {
                    if j < prev.len() {
                        assert(slot_views(out@)[j] == prev[j]);
                    }
                }
            }
            i += 1;
        }
        out
    }

    /// All entries in key order, tombstones among them.
    pub fn iter(&self) -> (out: Vec<(Key, Option<Value>)>)
        requires
            self.wf(),
        ensures
            lists_in_order(slot_views(out@), self.slots()),
            out.len() == self.slots().dom().len(),
    {
        let n = self.data.len();
        let out = self.copy_slots(0, n);
        proof {
            ordered::lemma_whole(
                self.data.entries(),
                |e: (u64, Option<Bytes>)| opt_octets(e.1),
                slot_views(out@),
            );
            assert(self.slots() =~= viewed(
                self.data@,
                |e: (u64, Option<Bytes>)| opt_octets(e.1),
            ));
            assert(self.slots().dom() =~= self.data@.dom());
        }
        out
    }

    /// The entries with `start <= key < end`, in key order: none where the end
    /// lies before the start.
    pub fn range(&self, start: &[u8], end: &[u8]) -> (out: Vec<(Key, Option<Value>)>)
        requires
            self.wf(),
        ensures
            lists_in_order(slot_views(out@), restricted(self.slots(), start@, end@)),
    {
        let lo = self.data.lower_bound(start);
        let hi = self.data.lower_bound(end);
        let out = self.copy_slots(lo, hi);
        proof {
            ordered::lemma_range(
                self.data.entries(),
                |e: (u64, Option<Bytes>)| opt_octets(e.1),
                lo as int,
                hi as int,
                start@,
                end@,
                slot_views(out@),
            );
            assert(self.slots() =~= viewed(
                self.data@,
                |e: (u64, Option<Bytes>)| opt_octets(e.1),
            ));
        }
        out
    }

    /// What the entries are charged.
    pub fn size(&self) -> (n: usize)
        requires
            self.wf(),
        ensures
            n == weight(self@),
    {
        self.size
    }

    pub fn is_empty(&self) -> (r: bool)
        requires
            self.wf(),
        ensures
            r == (self@ == Stamped::empty()),
            r == (self.newest() is None),
    {
        let n = self.data.len();
        proof {
            ordered::lemma_map_len(self.data.entries());
            if n == 0 {
                assert(self.data@.dom() =~= Set::empty());
                assert(self@ =~= Stamped::empty());
                if self.max_seq is Some {
                    let k = choose|k: Seq<u8>| #[trigger]
                        self@.contains_key(k) && self@[k].0 == self.max_seq.unwrap();
                    assert(Stamped::empty().contains_key(k));
                }
            } else {
                ordered::lemma_map_at(self.data.entries(), 0);
                let k = octets(self.data.entries()[0].0);
                assert(self@.contains_key(k));
                assert(!Stamped::empty().contains_key(k));
            }
        }
        n == 0
    }

    /// The highest sequence number that was taken in, if any.
    pub fn max_seq(&self) -> (r: Option<u64>)
        ensures
            r == self.newest(),
    {
        self.max_seq
    }

    pub fn len(&self) -> (n: usize)
        requires
            self.wf(),
        ensures
            n == self@.dom().len(),
    {
        assert(self@.dom() =~= self.data@.dom());
        self.data.len()
    }

    /// A copy that shares the keys and the values.
    pub fn dup(&self) -> (c: Self)
        requires
            self.wf(),
        ensures
            c.wf(),
            c@ == self@,
            c.newest() == self.newest(),
    {
        let items = self.data.as_list();
        let mut data: OrderedMap<(u64, Option<Value>)> = OrderedMap::new();
        let ghost g = |e: (u64, Option<Bytes>)| (e.0, opt_octets(e.1));
        let mut i: usize = 0;
        assert(items@.take(0) =~= Seq::<(Bytes, (u64, Option<Bytes>))>::empty());
        assert(viewed(data@, g) =~= viewed(map_of(items@.take(0)), g));
        while i < items.len()
            invariant
                i <= items.len(),
                items@ == self.data.entries(),
                self.data.wf(),
                data.wf(),
                g == (|e: (u64, Option<Bytes>)| (e.0, opt_octets(e.1))),
                viewed(data@, g) == viewed(map_of(items@.take(i as int)), g),
            decreases items.len() - i,
        {
            let ghost prev = data@;
            let k = items[i].0.clone();
            let e = (items[i].1.0, buffer::opt_share(&items[i].1.1));
            data.insert(k, e);
            proof {
                let it = items@[i as int];
                ordered::lemma_take_next(items@, i as int);
                assert(viewed(data@, g) =~= viewed(prev, g).insert(octets(k), g(e)));
                assert(viewed(map_of(items@.take(i + 1)), g) =~= viewed(
                    map_of(items@.take(i as int)),
                    g,
                ).insert(octets(it.0), g(it.1)));
            }
            i += 1;
        }
        assert(items@.take(i as int) =~= items@);
        let c = Self { data, size: self.size, max_seq: self.max_seq };
        proof {
            assert(c@ =~= self@);
            if c.max_seq is Some {
                let k = choose|k: Seq<u8>| #[trigger]
                    self@.contains_key(k) && self@[k].0 == self.max_seq.unwrap();
                assert(c@.contains_key(k) && c@[k].0 == c.max_seq.unwrap());
            }
        }
        c
    }
}

impl Default for MemTable {
    fn default() -> (mt: Self)
        ensures
            mt.wf(),
            mt@ == Stamped::empty(),
    {
        Self::new()
    }
}

} // verus!
