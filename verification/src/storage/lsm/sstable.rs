//! Tables: immutable runs of entries in key order.
//!
//! ```text
//!   records, in key order
//!   index: for each record keylen u32, key, offset u64
//!   footer, 40 bytes: index_offset, index_len, num_entries, max_seq, magic
//! ```
//!
//! A record is its type, `keylen u32`, the key and, unless it is a tombstone,
//! `vallen u32` and the value. All integers are stored least significant byte
//! first. The whole index is held in memory, and the bytes of the table too.

use bytes::Bytes;
use vstd::prelude::*;
use vstd::string::StringExecFns;

use crate::buffer::{self, octets, opt_octets};
use crate::codec::{self, u32_at, u32_le, u64_at, u64_le};
use crate::order::{self, ascending, before, halved, keys_of};
use crate::ordered::{first_of, lists_in_order, restricted};
use crate::storage::lsm::memtable::{slot_views, Slots};
use crate::text::{self, decimal, hexadecimal, quoted};
use crate::types::{Error, Key, Value};

verus! {

broadcast use {codec::lemma_u32_le_len, codec::lemma_u64_le_len};

pub const RECORD_PUT: u8 = 0;

pub const RECORD_TOMBSTONE: u8 = 1;

pub const FOOTER_SIZE: usize = 40;

pub const SST_MAGIC: u64 = 0xCAFE_F00D_DEAD_BEEF;

/// A key and its value, or the mark that the key was deleted.
pub type Slot = (Seq<u8>, Option<Seq<u8>>);

// ---- the format --------------------------------------------------------------

/// The bytes of a record.
pub open spec fn slot_bytes(e: Slot) -> Seq<u8> {
    match e.1 {
        Some(v) => seq![RECORD_PUT] + u32_le(e.0.len() as u32) + e.0 + u32_le(v.len() as u32) + v,
        None => seq![RECORD_TOMBSTONE] + u32_le(e.0.len() as u32) + e.0,
    }
}

/// The bytes of a run of records.
pub open spec fn data_bytes(es: Seq<Slot>) -> Seq<u8>
    decreases es.len(),
{
    if es.len() == 0 {
        seq![]
    } else {
        data_bytes(es.drop_last()) + slot_bytes(es.last())
    }
}

/// Each record's key, and where the record starts.
pub open spec fn index_of(es: Seq<Slot>) -> Seq<(Seq<u8>, u64)> {
    Seq::new(es.len(), |i: int| (es[i].0, data_bytes(es.take(i)).len() as u64))
}

/// The bytes of one line of the index.
pub open spec fn line_bytes(x: (Seq<u8>, u64)) -> Seq<u8> {
    u32_le(x.0.len() as u32) + x.0 + u64_le(x.1)
}

/// The bytes of an index.
pub open spec fn index_bytes(idx: Seq<(Seq<u8>, u64)>) -> Seq<u8>
    decreases idx.len(),
{
    if idx.len() == 0 {
        seq![]
    } else {
        index_bytes(idx.drop_last()) + line_bytes(idx.last())
    }
}

/// The bytes of a footer.
pub open spec fn footer_bytes(index_offset: u64, index_len: u64, n: u64, max_seq: u64) -> Seq<u8> {
    u64_le(index_offset) + u64_le(index_len) + u64_le(n) + u64_le(max_seq) + u64_le(SST_MAGIC)
}

/// The bytes of a table.
pub open spec fn table_bytes(es: Seq<Slot>, max_seq: u64) -> Seq<u8> {
    let data = data_bytes(es);
    let index = index_bytes(index_of(es));
    data + index + footer_bytes(data.len() as u64, index.len() as u64, es.len() as u64, max_seq)
}

/// The lengths fit the 32 bits that the format has for them.
pub open spec fn fits(e: Slot) -> bool {
    e.0.len() <= u32::MAX && (e.1 matches Some(v) ==> v.len() <= u32::MAX)
}

// ---- reading -----------------------------------------------------------------

/// What reading a record comes to.
pub enum SlotRead {
    /// A record, and where it ends.
    Record { slot: Slot, next: int },
    /// The bytes end inside the record.
    Ended,
    /// The record is of no known type.
    BadType { byte: u8 },
}

/// Reads the record that stands in `s` at `at`.
pub open spec fn slot_at(s: Seq<u8>, at: int) -> SlotRead {
    let keylen = u32_at(s, at + 1) as int;
    let p = at + 5 + keylen;
    let key = s.subrange(at + 5, p);
    if at + 5 > s.len() || p > s.len() {
        SlotRead::Ended
    } else if s[at] == RECORD_PUT {
        let vallen = u32_at(s, p) as int;
        if p + 4 > s.len() || p + 4 + vallen > s.len() {
            SlotRead::Ended
        } else {
            SlotRead::Record {
                slot: (key, Some(s.subrange(p + 4, p + 4 + vallen))),
                next: p + 4 + vallen,
            }
        }
    } else if s[at] == RECORD_TOMBSTONE {
        SlotRead::Record { slot: (key, None), next: p }
    } else {
        SlotRead::BadType { byte: s[at] }
    }
}

/// Reads the index lines that stand in `s` from `at` on.
pub open spec fn index_from(s: Seq<u8>, at: int) -> Option<Seq<(Seq<u8>, u64)>>
    decreases s.len() - at,
{
    let keylen = u32_at(s, at) as int;
    let p = at + 4 + keylen;
    if at >= s.len() {
        Some(seq![])
    } else if at + 4 > s.len() || p + 8 > s.len() {
        None
    } else {
        match index_from(s, p + 8) {
            Some(rest) => Some(seq![(s.subrange(at + 4, p), u64_at(s, p))] + rest),
            None => None,
        }
    }
}

/// What a table is.
pub struct TableView {
    pub path: Seq<char>,
    pub generation: u64,
    pub index: Seq<(Seq<u8>, u64)>,
    pub max_seq: u64,
    pub image: Seq<u8>,
}

/// What is wrong with the bytes of a table.
pub enum TableFault {
    TooSmall,
    BadMagic { magic: u64 },
    BadOffsets,
    BadIndex,
}

/// Reads a table.
pub open spec fn table_of(path: Seq<char>, generation: u64, image: Seq<u8>) -> Result<
    TableView,
    TableFault,
> {
    let f = image.len() - FOOTER_SIZE;
    let index_offset = u64_at(image, f) as int;
    let index_len = u64_at(image, f + 8) as int;
    let magic = u64_at(image, f + 32);
    if f < 0 {
        Err(TableFault::TooSmall)
    } else if magic != SST_MAGIC {
        Err(TableFault::BadMagic { magic })
    } else if index_offset + index_len + FOOTER_SIZE != image.len() {
        Err(TableFault::BadOffsets)
    } else {
        match index_from(image.subrange(index_offset, f), 0) {
            Some(index) => Ok(
                TableView { path, generation, index, max_seq: u64_at(image, f + 24), image },
            ),
            None => Err(TableFault::BadIndex),
        }
    }
}

/// The text for a fault.
pub open spec fn fault_text(path: Seq<char>, len: nat, fault: TableFault) -> Seq<char> {
    "sstable "@ + quoted(path) + (match fault {
        TableFault::TooSmall => ": file too small ("@ + decimal(len) + " bytes)"@,
        TableFault::BadMagic { magic } => ": bad magic 0x"@ + hexadecimal(magic as nat),
        TableFault::BadOffsets => ": footer offsets don't add up"@,
        TableFault::BadIndex => ": corrupt index"@,
    })
}

/// Why records could not be read.
pub enum ReadFault {
    Ended,
    BadType { byte: u8 },
}

/// The error for a record that could not be read.
pub open spec fn is_read_error(e: Error, fault: ReadFault) -> bool {
    match fault {
        ReadFault::Ended => e is Io,
        ReadFault::BadType { byte } => e.is_storage(
            "sstable: bad record type "@ + decimal(byte as nat),
        ),
    }
}

/// Reads `n` records one after another from `at` on.
pub open spec fn run_of(s: Seq<u8>, at: int, n: nat) -> Result<Seq<Slot>, ReadFault>
    decreases n,
{
    if n == 0 {
        Ok(seq![])
    } else {
        match slot_at(s, at) {
            SlotRead::Record { slot, next } => match run_of(s, next, (n - 1) as nat) {
                Ok(rest) => Ok(seq![slot] + rest),
                Err(f) => Err(f),
            },
            SlotRead::Ended => Err(ReadFault::Ended),
            SlotRead::BadType { byte } => Err(ReadFault::BadType { byte }),
        }
    }
}

/// `at` parts the keys that come before `key` from those that do not.
pub open spec fn parts(keys: Seq<Seq<u8>>, at: int, key: Seq<u8>) -> bool {
    &&& 0 <= at <= keys.len()
    &&& forall|i: int| 0 <= i < at ==> before(#[trigger] keys[i], key)
    &&& forall|i: int| at <= i < keys.len() ==> !before(#[trigger] keys[i], key)
}

/// Where `key` parts keys that are in order. In keys that are not it is the place
/// where halving ends up.
pub open spec fn parting(keys: Seq<Seq<u8>>, key: Seq<u8>) -> int {
    halved(keys, key, 0, keys.len() as int)
}

/// Halving finds the place where a key parts others.
proof fn lemma_halved(keys: Seq<Seq<u8>>, at: int, key: Seq<u8>, lo: int, hi: int)
    requires
        parts(keys, at, key),
        0 <= lo <= at <= hi <= keys.len(),
    ensures
        halved(keys, key, lo, hi) == at,
    decreases hi - lo,
{
    if lo < hi {
        let mid = lo + (hi - lo) / 2;
        if before(keys[mid], key) {
            lemma_halved(keys, at, key, mid + 1, hi);
        } else {
            lemma_halved(keys, at, key, lo, mid);
        }
    }
}

/// There is one place at most where a key parts others.
proof fn lemma_parting(keys: Seq<Seq<u8>>, at: int, key: Seq<u8>)
    requires
        parts(keys, at, key),
    ensures
        parting(keys, key) == at,
{
    lemma_halved(keys, at, key, 0, keys.len() as int);
}

/// Every key parts keys that are in order.
proof fn lemma_parts(keys: Seq<Seq<u8>>, key: Seq<u8>) -> (at: int)
    requires
        ascending(keys),
    ensures
        parts(keys, at, key),
    decreases keys.len(),
{
    if keys.len() == 0 {
        0
    } else {
        let d = keys.drop_last();
        let last = keys.len() - 1;
        assert(ascending(d)) by {
            assert forall|i: int, j: int| 0 <= i < j < d.len() implies before(
                #[trigger] d[i],
                #[trigger] d[j],
            ) by {
                assert(before(keys[i], keys[j]));
            }
        }
        if before(keys[last], key) {
            assert forall|i: int| 0 <= i < keys.len() implies before(#[trigger] keys[i], key) by {
                if i < last {
                    assert(before(keys[i], keys[last]));
                    order::lemma_before_transitive(keys[i], keys[last], key);
                }
            }
            keys.len() as int
        } else {
            let at = lemma_parts(d, key);
            assert forall|i: int| 0 <= i < at implies before(#[trigger] keys[i], key) by {
                assert(d[i] == keys[i]);
            }
            assert forall|i: int| at <= i < keys.len() implies !before(#[trigger] keys[i], key) by {
                if i < last {
                    assert(d[i] == keys[i]);
                }
            }
            at
        }
    }
}

impl TableView {
    /// The keys, in the order of the index.
    pub open spec fn keys(self) -> Seq<Seq<u8>> {
        first_of(self.index)
    }

    /// The index is in key order.
    pub open spec fn ordered(self) -> bool {
        ascending(self.keys())
    }

    /// The record that line `i` of the index points at.
    pub open spec fn read(self, i: int) -> SlotRead {
        slot_at(self.image, self.index[i].1 as int)
    }

    /// Line `i` of the index points at a record with its key, which stands at
    /// the front or where the one before ends.
    pub open spec fn line_ok(self, i: int) -> bool {
        &&& self.read(i) matches SlotRead::Record { slot, .. } && slot.0 == self.index[i].0
        &&& if i == 0 {
            self.index[0].1 == 0
        } else {
            self.read(i - 1) matches SlotRead::Record { next, .. } && self.index[i].1 == next
        }
    }

    /// The index is in key order, each line points at a record with its key,
    /// and the records stand one after another from the front.
    pub open spec fn sound(self) -> bool {
        &&& self.ordered()
        &&& forall|i: int| 0 <= i < self.index.len() ==> #[trigger] self.line_ok(i)
    }

    /// The entries of a sound table, in key order.
    pub open spec fn entries(self) -> Seq<Slot> {
        Seq::new(
            self.index.len(),
            |i: int|
                match self.read(i) {
                    SlotRead::Record { slot, .. } => slot,
                    _ => arbitrary(),
                },
        )
    }

    /// What a sound table has for each key.
    pub open spec fn slots(self) -> Slots {
        Map::new(
            |k: Seq<u8>| self.keys().contains(k),
            |k: Seq<u8>| self.entries()[self.keys().index_of(k)].1,
        )
    }

    /// Looks a key up in the index.
    pub open spec fn lookup(self, key: Seq<u8>) -> Result<Option<Option<Seq<u8>>>, ReadFault> {
        let at = parting(self.keys(), key);
        if 0 <= at < self.keys().len() && self.keys()[at] == key {
            match self.read(at) {
                SlotRead::Record { slot, .. } => Ok(Some(slot.1)),
                SlotRead::Ended => Err(ReadFault::Ended),
                SlotRead::BadType { byte } => Err(ReadFault::BadType { byte }),
            }
        } else {
            Ok(None)
        }
    }

    /// Reads the records from `start` on and before `end`.
    pub open spec fn scanned(self, start: Seq<u8>, end: Seq<u8>) -> Result<Seq<Slot>, ReadFault> {
        let lo = parting(self.keys(), start);
        let hi = parting(self.keys(), end);
        if lo < hi {
            run_of(self.image, self.index[lo].1 as int, (hi - lo) as nat)
        } else {
            Ok(seq![])
        }
    }
}

// ---- what was written is read back --------------------------------------------

/// A record that was written is read back, whatever stands around it.
pub proof fn lemma_slot_read_back(head: Seq<u8>, e: Slot, tail: Seq<u8>)
    requires
        fits(e),
    ensures
        slot_at(head + slot_bytes(e) + tail, head.len() as int) == (SlotRead::Record {
            slot: e,
            next: (head.len() + slot_bytes(e).len()) as int,
        }),
{
    let s = head + slot_bytes(e) + tail;
    let at = head.len() as int;
    let k = e.0;
    let n = k.len() as int;
    assert(s[at] == slot_bytes(e)[0]);
    assert(s.subrange(at + 1, at + 5) =~= u32_le(n as u32));
    codec::lemma_u32_read_back(s, at + 1, n as u32);
    assert(s.subrange(at + 5, at + 5 + n) =~= k);
    match e.1 {
        Some(v) => {
            let p = at + 5 + n;
            let m = v.len() as int;
            assert(s.subrange(p, p + 4) =~= u32_le(m as u32));
            codec::lemma_u32_read_back(s, p, m as u32);
            assert(s.subrange(p + 4, p + 4 + m) =~= v);
        },
        None => {},
    }
}

proof fn lemma_data_split(es: Seq<Slot>, i: int)
    requires
        0 <= i <= es.len(),
    ensures
        data_bytes(es) == data_bytes(es.take(i)) + data_bytes(es.skip(i)),
    decreases es.len() - i,
{
    if i == es.len() {
        assert(es.take(i) =~= es);
        assert(data_bytes(es) =~= data_bytes(es.take(i)) + data_bytes(es.skip(i)));
    } else {
        let d = es.drop_last();
        lemma_data_split_shorter(es, i);
    }
}

proof fn lemma_data_split_shorter(es: Seq<Slot>, i: int)
    requires
        0 <= i < es.len(),
    ensures
        data_bytes(es) == data_bytes(es.take(i)) + data_bytes(es.skip(i)),
    decreases es.len(),
{
    let d = es.drop_last();
    assert(es.skip(i).drop_last() =~= d.skip(i));
    assert(es.skip(i).last() == es.last());
    assert(d.take(i) =~= es.take(i));
    if i < d.len() {
        lemma_data_split_shorter(d, i);
    } else {
        assert(d.take(i) =~= d);
        assert(data_bytes(d.skip(i)) =~= Seq::<u8>::empty());
    }
    assert(data_bytes(es) =~= data_bytes(es.take(i)) + data_bytes(es.skip(i)));
}

proof fn lemma_data_next(es: Seq<Slot>, i: int)
    requires
        0 <= i < es.len(),
    ensures
        data_bytes(es.take(i + 1)) == data_bytes(es.take(i)) + slot_bytes(es[i]),
        data_bytes(es) == data_bytes(es.take(i)) + slot_bytes(es[i]) + data_bytes(es.skip(i + 1)),
{
    assert(es.take(i + 1).drop_last() =~= es.take(i));
    assert(es.take(i + 1).last() == es[i]);
    lemma_data_split(es, i + 1);
}

proof fn lemma_index_split(idx: Seq<(Seq<u8>, u64)>, i: int)
    requires
        0 <= i <= idx.len(),
    ensures
        index_bytes(idx) == index_bytes(idx.take(i)) + index_bytes(idx.skip(i)),
    decreases idx.len(),
{
    if i == idx.len() {
        assert(idx.take(i) =~= idx);
        assert(index_bytes(idx) =~= index_bytes(idx.take(i)) + index_bytes(idx.skip(i)));
    } else {
        let d = idx.drop_last();
        assert(idx.skip(i).drop_last() =~= d.skip(i));
        assert(idx.skip(i).last() == idx.last());
        assert(d.take(i) =~= idx.take(i));
        lemma_index_split(d, i);
        assert(index_bytes(idx) =~= index_bytes(idx.take(i)) + index_bytes(idx.skip(i)));
    }
}

/// A line of an index is read back, whatever stands around it.
proof fn lemma_line_read_back(head: Seq<u8>, x: (Seq<u8>, u64), tail: Seq<u8>)
    requires
        x.0.len() <= u32::MAX,
    ensures
        ({
            let s = head + line_bytes(x) + tail;
            let at = head.len() as int;
            let p = at + 4 + x.0.len();
            &&& u32_at(s, at) == x.0.len()
            &&& s.subrange(at + 4, p) == x.0
            &&& u64_at(s, p) == x.1
            &&& line_bytes(x).len() == 4 + x.0.len() + 8
        }),
{
    let s = head + line_bytes(x) + tail;
    let at = head.len() as int;
    let n = x.0.len() as int;
    let p = at + 4 + n;
    assert(s.subrange(at, at + 4) =~= u32_le(n as u32));
    codec::lemma_u32_read_back(s, at, n as u32);
    assert(s.subrange(at + 4, p) =~= x.0);
    assert(s.subrange(p, p + 8) =~= u64_le(x.1));
    codec::lemma_u64_read_back(s, p, x.1);
}

proof fn lemma_index_read_back(idx: Seq<(Seq<u8>, u64)>, j: int)
    requires
        0 <= j <= idx.len(),
        forall|i: int| 0 <= i < idx.len() ==> (#[trigger] idx[i]).0.len() <= u32::MAX,
    ensures
        index_from(index_bytes(idx), index_bytes(idx.take(j)).len() as int) == Some(idx.skip(j)),
    decreases idx.len() - j,
{
    let s = index_bytes(idx);
    let at = index_bytes(idx.take(j)).len() as int;
    lemma_index_split(idx, j);
    if j == idx.len() {
        assert(index_bytes(idx.skip(j)) =~= Seq::<u8>::empty());
        assert(idx.skip(j) =~= Seq::<(Seq<u8>, u64)>::empty());
    } else {
        let x = idx[j];
        assert(idx.take(j + 1).drop_last() =~= idx.take(j));
        assert(idx.take(j + 1).last() == x);
        lemma_index_split(idx, j + 1);
        let tail = index_bytes(idx.skip(j + 1));
        assert(s == index_bytes(idx.take(j)) + line_bytes(x) + tail);
        lemma_line_read_back(index_bytes(idx.take(j)), x, tail);
        lemma_index_read_back(idx, j + 1);
        assert(idx.skip(j) =~= seq![x] + idx.skip(j + 1));
    }
}

/// A footer is read back.
proof fn lemma_footer_read_back(head: Seq<u8>, io: u64, il: u64, n: u64, max_seq: u64)
    ensures
        ({
            let s = head + footer_bytes(io, il, n, max_seq);
            let f = head.len() as int;
            &&& s.len() == f + 40
            &&& u64_at(s, f) == io
            &&& u64_at(s, f + 8) == il
            &&& u64_at(s, f + 24) == max_seq
            &&& u64_at(s, f + 32) == SST_MAGIC
        }),
{
    let s = head + footer_bytes(io, il, n, max_seq);
    let f = head.len() as int;
    assert(s.subrange(f, f + 8) =~= u64_le(io));
    codec::lemma_u64_read_back(s, f, io);
    assert(s.subrange(f + 8, f + 16) =~= u64_le(il));
    codec::lemma_u64_read_back(s, f + 8, il);
    assert(s.subrange(f + 24, f + 32) =~= u64_le(max_seq));
    codec::lemma_u64_read_back(s, f + 24, max_seq);
    assert(s.subrange(f + 32, f + 40) =~= u64_le(SST_MAGIC));
    codec::lemma_u64_read_back(s, f + 32, SST_MAGIC);
}

/// A table that was written is read back: its index, its number and its
/// entries. It is sound.
pub proof fn lemma_table_read_back(
    path: Seq<char>,
    generation: u64,
    es: Seq<Slot>,
    max_seq: u64,
)
    requires
        ascending(first_of(es)),
        forall|i: int| 0 <= i < es.len() ==> fits(#[trigger] es[i]),
        table_bytes(es, max_seq).len() <= u64::MAX,
    ensures
        table_of(path, generation, table_bytes(es, max_seq)) matches Ok(t) && t == (TableView {
            path,
            generation,
            index: index_of(es),
            max_seq,
            image: table_bytes(es, max_seq),
        }) && t.sound() && t.entries() == es,
{
    let s = table_bytes(es, max_seq);
    let data = data_bytes(es);
    let idx = index_of(es);
    let index = index_bytes(idx);
    let io = data.len() as u64;
    let il = index.len() as u64;
    let f = (data + index).len() as int;
    lemma_footer_read_back(data + index, io, il, es.len() as u64, max_seq);
    assert(s.subrange(io as int, f) =~= index);
    assert(index_bytes(idx.take(0)) =~= Seq::<u8>::empty());
    assert forall|i: int| 0 <= i < idx.len() implies (#[trigger] idx[i]).0.len() <= u32::MAX by {
        assert(fits(es[i]));
    }
    lemma_index_read_back(idx, 0);
    assert(idx.skip(0) =~= idx);
    let t = TableView { path, generation, index: idx, max_seq, image: s };
    assert(table_of(path, generation, s) == Ok::<TableView, TableFault>(t));
    lemma_written_sound(
        es,
        t,
        index + footer_bytes(io, il, es.len() as u64, max_seq),
    );
}

proof fn lemma_written_sound(es: Seq<Slot>, t: TableView, tail: Seq<u8>)
    requires
        ascending(first_of(es)),
        forall|i: int| 0 <= i < es.len() ==> fits(#[trigger] es[i]),
        t.image =~= data_bytes(es) + tail,
        t.image.len() <= u64::MAX,
        t.index == index_of(es),
    ensures
        t.sound(),
        t.entries() == es,
{
    assert(t.keys() =~= first_of(es));
    assert(t.image == data_bytes(es) + tail);
    assert forall|i: int| 0 <= i < t.index.len() implies #[trigger] t.line_ok(i) && t.read(i)
        == (SlotRead::Record { slot: es[i], next: data_bytes(es.take(i + 1)).len() as int }) by {
        lemma_written_record(es, i, tail);
        if i > 0 {
            lemma_written_record(es, i - 1, tail);
        } else {
            assert(es.take(0) =~= Seq::<Slot>::empty());
        }
    }
    assert forall|i: int| 0 <= i < es.len() implies t.entries()[i] == es[i] by {
        assert(t.line_ok(i));
    }
    assert(t.entries() =~= es);
}

proof fn lemma_written_record(es: Seq<Slot>, i: int, tail: Seq<u8>)
    requires
        0 <= i < es.len(),
        fits(es[i]),
        data_bytes(es).len() <= u64::MAX,
    ensures
        index_of(es)[i].1 == data_bytes(es.take(i)).len(),
        slot_at(data_bytes(es) + tail, index_of(es)[i].1 as int) == (SlotRead::Record {
            slot: es[i],
            next: data_bytes(es.take(i + 1)).len() as int,
        }),
{
    lemma_data_next(es, i);
    let head = data_bytes(es.take(i));
    let rest = data_bytes(es.skip(i + 1)) + tail;
    lemma_slot_read_back(head, es[i], rest);
    assert(data_bytes(es) + tail =~= head + slot_bytes(es[i]) + rest);
}

// ---- sound tables --------------------------------------------------------------

/// Reading a sound table record by record gives its entries.
pub proof fn lemma_sound_run(t: TableView, lo: int, n: nat)
    requires
        t.sound(),
        0 <= lo,
        lo + n <= t.index.len(),
    ensures
        n > 0 ==> run_of(t.image, t.index[lo].1 as int, n) == Ok::<Seq<Slot>, ReadFault>(
            t.entries().subrange(lo, lo + n),
        ),
    decreases n,
{
    if n > 0 {
        assert(t.line_ok(lo));
        let es = t.entries();
        if n > 1 {
            lemma_sound_run(t, lo + 1, (n - 1) as nat);
            assert(t.line_ok(lo + 1));
            assert(es.subrange(lo, lo + n) =~= seq![es[lo]] + es.subrange(lo + 1, lo + n));
        } else {
            assert(es.subrange(lo, lo + 1) =~= seq![es[lo]] + Seq::<Slot>::empty());
            assert(run_of(t.image, t.read(lo)->next, 0) == Ok::<Seq<Slot>, ReadFault>(
                Seq::<Slot>::empty(),
            ));
        }
    }
}

/// The entries of a sound table list what it has for each key.
pub proof fn lemma_sound_entries(t: TableView)
    requires
        t.sound(),
    ensures
        first_of(t.entries()) == t.keys(),
        lists_in_order(t.entries(), t.slots()),
{
    let es = t.entries();
    assert forall|i: int| 0 <= i < es.len() implies (#[trigger] es[i]).0 == t.keys()[i] by {
        assert(t.line_ok(i));
    }
    assert(first_of(es) =~= t.keys());
    crate::ordered::lemma_ascending_distinct(t.keys());
    assert forall|i: int| 0 <= i < es.len() implies t.slots().contains_key((#[trigger] es[i]).0)
        && t.slots()[es[i].0] == es[i].1 by {
        assert(t.keys()[i] == es[i].0);
        assert(t.keys().contains(es[i].0));
        let j = t.keys().index_of(es[i].0);
        assert(t.keys()[j] == t.keys()[i]);
    }
}

/// Looking a key up in a sound table gives what the table has for it.
pub proof fn lemma_sound_lookup(t: TableView, key: Seq<u8>)
    requires
        t.sound(),
    ensures
        t.lookup(key) == Ok::<Option<Option<Seq<u8>>>, ReadFault>(
            if t.slots().contains_key(key) {
                Some(t.slots()[key])
            } else {
                None
            },
        ),
{
    lemma_ordered_lookup(t, key);
    if t.keys().contains(key) {
        let j = t.keys().index_of(key);
        assert(t.keys()[j] == key);
        assert(t.line_ok(j));
    }
}

/// In a table whose index is in order a lookup finds the line with the key, if
/// there is one.
pub proof fn lemma_ordered_lookup(t: TableView, key: Seq<u8>)
    requires
        t.ordered(),
    ensures
        t.keys().contains(key) ==> parting(t.keys(), key) == t.keys().index_of(key),
        !t.keys().contains(key) ==> t.lookup(key) == Ok::<
            Option<Option<Seq<u8>>>,
            ReadFault,
        >(None),
{
    let keys = t.keys();
    let at = lemma_parts(keys, key);
    lemma_parting(keys, at, key);
    if keys.contains(key) {
        let j = keys.index_of(key);
        order::lemma_before_irreflexive(key);
        assert(keys[j] == key);
        if at < j {
            assert(before(keys[at], keys[j]));
        }
    } else if at < keys.len() {
        assert(keys.contains(keys[at]));
    }
}

/// Scanning a sound table gives what it has in the range, in key order.
#[verifier::spinoff_prover]
pub proof fn lemma_sound_scanned(t: TableView, start: Seq<u8>, end: Seq<u8>)
    requires
        t.sound(),
    ensures
        t.scanned(start, end) matches Ok(run) && lists_in_order(
            run,
            restricted(t.slots(), start, end),
        ),
{
    let keys = t.keys();
    let lo = lemma_parts(keys, start);
    let hi = lemma_parts(keys, end);
    assert(parting(keys, start) == lo) by {
        lemma_parting(keys, lo, start);
    }
    assert(parting(keys, end) == hi) by {
        lemma_parting(keys, hi, end);
    }
    lemma_sound_range(t, lo, hi, start, end);
    if lo < hi {
        let n = (hi - lo) as nat;
        assert(run_of(t.image, t.index[lo].1 as int, n) == Ok::<Seq<Slot>, ReadFault>(
            t.entries().subrange(lo, hi),
        )) by {
            lemma_sound_run(t, lo, n);
        }
    }
}

/// The entries between the places of `start` and of `end` list the part of a
/// sound table in `[start, end)`.
pub proof fn lemma_sound_range(t: TableView, lo: int, hi: int, start: Seq<u8>, end: Seq<u8>)
    requires
        t.sound(),
        parts(t.keys(), lo, start),
        parts(t.keys(), hi, end),
    ensures
        lists_in_order(
            if lo < hi {
                t.entries().subrange(lo, hi)
            } else {
                seq![]
            },
            restricted(t.slots(), start, end),
        ),
{
    lemma_sound_entries(t);
    let es = t.entries();
    let keys = t.keys();
    let l = if lo < hi {
        es.subrange(lo, hi)
    } else {
        seq![]
    };
    let m = restricted(t.slots(), start, end);
    assert forall|i: int, j: int| 0 <= i < j < first_of(l).len() implies before(
        #[trigger] first_of(l)[i],
        #[trigger] first_of(l)[j],
    ) by {
        assert(first_of(es)[lo + i] == l[i].0);
        assert(first_of(es)[lo + j] == l[j].0);
        assert(before(keys[lo + i], keys[lo + j]));
    }
    assert forall|i: int| 0 <= i < l.len() implies m.contains_key((#[trigger] l[i]).0)
        && m[l[i].0] == l[i].1 by {
        assert(l[i] == es[lo + i]);
        assert(first_of(es)[lo + i] == es[lo + i].0);
        assert(!before(keys[lo + i], start));
        assert(before(keys[lo + i], end));
    }
    assert forall|k: Seq<u8>| #[trigger] m.contains_key(k) implies first_of(l).contains(k) by {
        assert(t.slots().contains_key(k));
        let i = choose|i: int| 0 <= i < keys.len() && keys[i] == k;
        assert(lo <= i < hi) by {
            if i < lo {
                assert(before(keys[i], start));
            }
            if i >= hi {
                assert(!before(keys[i], end));
            }
        }
        assert(first_of(es)[i] == es[i].0);
        assert(first_of(l)[i - lo] == k);
    }
}

// ---- encoding and reading ----------------------------------------------------------

/// Appends the bytes of a record.
pub fn encode_record(key: &[u8], value: &Option<Value>, buf: &mut Vec<u8>)
    ensures
        final(buf)@ == old(buf)@ + slot_bytes((key@, opt_octets(*value))),
{
    match value {
        Some(v) => {
            let v = buffer::as_slice(v);
            buf.push(RECORD_PUT);
            codec::put_u32(buf, key.len() as u32);
            codec::put_bytes(buf, key);
            codec::put_u32(buf, v.len() as u32);
            codec::put_bytes(buf, v);
        },
        None => {
            buf.push(RECORD_TOMBSTONE);
            codec::put_u32(buf, key.len() as u32);
            codec::put_bytes(buf, key);
        },
    }
    assert(buf@ =~= old(buf)@ + slot_bytes((key@, opt_octets(*value))));
}

/// Reads the record that stands in `s` at `at`, and says where it ends.
pub fn read_record(s: &[u8], at: u64) -> (r: Result<((Key, Option<Value>), u64), Error>)
    ensures
        match slot_at(s@, at as int) {
            SlotRead::Record { slot, next } => r matches Ok(x) && (
                octets(x.0.0),
                opt_octets(x.0.1),
            ) == slot && x.1 == next,
            SlotRead::Ended => r matches Err(e) && is_read_error(e, ReadFault::Ended),
            SlotRead::BadType { byte } => r matches Err(e) && is_read_error(
                e,
                ReadFault::BadType { byte },
            ),
        },
{
    let total: usize = s.len();
    if at > total as u64 || total - (at as usize) < 5 {
        return Err(Error::eof());
    }
    let at = at as usize;
    let kind = s[at];
    let keylen = codec::get_u32(s, at + 1) as usize;
    if total - at - 5 < keylen {
        return Err(Error::eof());
    }
    let p = at + 5 + keylen;
    let key = Bytes::copy_from_slice(codec::slice(s, at + 5, p));
    if kind == RECORD_PUT {
        if total - p < 4 {
            return Err(Error::eof());
        }
        let vallen = codec::get_u32(s, p) as usize;
        if total - p - 4 < vallen {
            return Err(Error::eof());
        }
        let end = p + 4 + vallen;
        let value = Bytes::copy_from_slice(codec::slice(s, p + 4, end));
        Ok(((key, Some(value)), end as u64))
    } else if kind == RECORD_TOMBSTONE {
        Ok(((key, None), p as u64))
    } else {
        let text = String::from_str("sstable: bad record type ").concat(
            text::decimal_text(kind as u64).as_str(),
        );
        Err(Error::Storage(text))
    }
}

/// What each line of an index says.
pub open spec fn line_views(index: Seq<(Bytes, u64)>) -> Seq<(Seq<u8>, u64)> {
    Seq::new(index.len(), |i: int| (octets(index[i].0), index[i].1))
}

/// Reads the lines of an index. `None` is the answer if they do not fill the
/// bytes exactly.
pub fn parse_index(s: &[u8]) -> (r: Option<Vec<(Bytes, u64)>>)
    ensures
        match r {
            Some(index) => index_from(s@, 0) == Some(line_views(index@)),
            None => index_from(s@, 0) is None,
        },
{
    let total: usize = s.len();
    let mut out: Vec<(Bytes, u64)> = Vec::new();
    let mut at: usize = 0;
    proof {
        if index_from(s@, 0) is Some {
            assert(line_views(out@) + index_from(s@, 0).unwrap() =~= index_from(s@, 0).unwrap());
        }
    }
    while at < total
        invariant
            total == s@.len(),
            at <= total,
            index_from(s@, 0) is Some <==> index_from(s@, at as int) is Some,
            index_from(s@, 0) is Some ==> index_from(s@, 0).unwrap() == line_views(out@)
                + index_from(s@, at as int).unwrap(),
        decreases total - at,
    {
        if total - at < 4 {
            return None;
        }
        let keylen = codec::get_u32(s, at) as usize;
        if total - at - 4 < keylen || total - at - 4 - keylen < 8 {
            return None;
        }
        let p = at + 4 + keylen;
        let key = Bytes::copy_from_slice(codec::slice(s, at + 4, p));
        let offset = codec::get_u64(s, p);
        let ghost prev = out@;
        out.push((key, offset));
        proof {
            let x = (s@.subrange(at as int + 4, p as int), offset);
            assert(line_views(out@) =~= line_views(prev).push(x));
            if index_from(s@, p + 8) is Some {
                assert(line_views(prev) + index_from(s@, at as int).unwrap() =~= line_views(out@)
                    + index_from(s@, p + 8).unwrap());
            }
        }
        at = p + 8;
    }
    proof {
        assert(line_views(out@) + Seq::<(Seq<u8>, u64)>::empty() =~= line_views(out@));
    }
    Some(out)
}

/// Makes the bytes of tables.
pub struct SsTableWriter;

impl SsTableWriter {
    /// The bytes of a table of `entries`, which come in key order.
    pub fn write(entries: &Vec<(Key, Option<Value>)>, max_seq: u64) -> (image: Bytes)
        ensures
            octets(image) == table_bytes(slot_views(entries@), max_seq),
            octets(image).len() <= usize::MAX,
    {
        let ghost es = slot_views(entries@);
        let mut buf: Vec<u8> = Vec::new();
        let mut index_buf: Vec<u8> = Vec::new();
        let mut i: usize = 0;
        assert(buf@ =~= data_bytes(es.take(0)));
        assert(index_buf@ =~= index_bytes(index_of(es).take(0)));
        while i < entries.len()
            invariant
                i <= entries.len(),
                es == slot_views(entries@),
                buf@ == data_bytes(es.take(i as int)),
                index_buf@ == index_bytes(index_of(es).take(i as int)),
            decreases entries.len() - i,
        {
            let key = buffer::as_slice(&entries[i].0);
            let offset = buf.len() as u64;
            codec::put_u32(&mut index_buf, key.len() as u32);
            codec::put_bytes(&mut index_buf, key);
            codec::put_u64(&mut index_buf, offset);
            encode_record(key, &entries[i].1, &mut buf);
            proof {
                let idx = index_of(es);
                lemma_data_next(es, i as int);
                assert(es[i as int] == (key@, opt_octets(entries@[i as int].1)));
                assert(idx.take(i + 1).drop_last() =~= idx.take(i as int));
                assert(idx.take(i + 1).last() == idx[i as int]);
                assert(index_buf@ =~= index_bytes(idx.take(i as int)) + line_bytes(
                    idx[i as int],
                ));
            }
            i += 1;
        }
        assert(es.take(i as int) =~= es);
        assert(index_of(es).take(i as int) =~= index_of(es));
        let index_offset = buf.len() as u64;
        codec::put_bytes(&mut buf, index_buf.as_slice());
        codec::put_u64(&mut buf, index_offset);
        codec::put_u64(&mut buf, index_buf.len() as u64);
        codec::put_u64(&mut buf, entries.len() as u64);
        codec::put_u64(&mut buf, max_seq);
        codec::put_u64(&mut buf, SST_MAGIC);
        assert(buf@ =~= table_bytes(es, max_seq));
        assert(buf.len() <= usize::MAX);
        buffer::from_vec(buf)
    }
}

/// A result of reading records is what is expected of it.
pub open spec fn is_run(
    r: Result<Vec<(Key, Option<Value>)>, Error>,
    want: Result<Seq<Slot>, ReadFault>,
) -> bool {
    match want {
        Ok(slots) => r matches Ok(v) && slot_views(v@) == slots,
        Err(f) => r matches Err(e) && is_read_error(e, f),
    }
}

/// Reads `n` records one after another from `at` on.
fn read_run(s: &[u8], at: u64, n: usize) -> (r: Result<Vec<(Key, Option<Value>)>, Error>)
    ensures
        is_run(r, run_of(s@, at as int, n as nat)),
{
    let mut out: Vec<(Key, Option<Value>)> = Vec::new();
    let mut pos: u64 = at;
    let mut i: usize = 0;
    let ghost want = run_of(s@, at as int, n as nat);
    proof {
        if want is Ok {
            assert(slot_views(out@) + want->Ok_0 =~= want->Ok_0);
        }
    }
    while i < n
        invariant
            i <= n,
            want == run_of(s@, at as int, n as nat),
            match run_of(s@, pos as int, (n - i) as nat) {
                Ok(rest) => want == Ok::<Seq<Slot>, ReadFault>(slot_views(out@) + rest),
                Err(f) => want == Err::<Seq<Slot>, ReadFault>(f),
            },
        decreases n - i,
    {
        match read_record(s, pos) {
            Ok((e, next)) => {
                let ghost prev = slot_views(out@);
                let ghost x = (octets(e.0), opt_octets(e.1));
                out.push(e);
                proof {
                    assert(slot_views(out@) =~= prev.push(x));
                    let rest = run_of(s@, next as int, (n - i - 1) as nat);
                    if rest is Ok {
                        assert(prev + (seq![x] + rest->Ok_0) =~= slot_views(out@) + rest->Ok_0);
                    }
                }
                pos = next;
                i += 1;
            },
            Err(e) => {
                return Err(e);
            },
        }
    }
    proof {
        assert(slot_views(out@) + Seq::<Slot>::empty() =~= slot_views(out@));
    }
    Ok(out)
}

pub struct SsTable {
    path: String,
    generation: u64,
    /// `(key, offset)` pairs, sorted by key.
    index: Vec<(Bytes, u64)>,
    max_seq: u64,
    image: Bytes,
}

impl SsTable {
    pub closed spec fn view(&self) -> TableView {
        TableView {
            path: self.path@,
            generation: self.generation,
            index: line_views(self.index@),
            max_seq: self.max_seq,
            image: octets(self.image),
        }
    }

    /// Reads a table from its bytes.
    pub fn open(path: String, generation: u64, image: Bytes) -> (r: Result<Self, Error>)
        ensures
            match table_of(path@, generation, octets(image)) {
                Ok(t) => r matches Ok(x) && x@ == t,
                Err(f) => r matches Err(e) && e.is_storage(
                    fault_text(path@, octets(image).len(), f),
                ),
            },
    {
        let s = buffer::as_slice(&image);
        let len: usize = s.len();
        if len < FOOTER_SIZE {
            let mut t = Self::fault_head(path.as_str());
            t.append(": file too small (");
            t.append(text::decimal_text(len as u64).as_str());
            t.append(" bytes)");
            assert(t@ =~= fault_text(path@, octets(image).len(), TableFault::TooSmall));
            return Err(Error::Storage(t));
        }
        let f = len - FOOTER_SIZE;
        let index_offset = codec::get_u64(s, f);
        let index_len = codec::get_u64(s, f + 8);
        let max_seq = codec::get_u64(s, f + 24);
        let magic = codec::get_u64(s, f + 32);
        if magic != SST_MAGIC {
            let mut t = Self::fault_head(path.as_str());
            t.append(": bad magic 0x");
            t.append(text::hexadecimal_text(magic).as_str());
            assert(t@ =~= fault_text(path@, octets(image).len(), TableFault::BadMagic { magic }));
            return Err(Error::Storage(t));
        }
        if index_offset > f as u64 || index_len != f as u64 - index_offset {
            let mut t = Self::fault_head(path.as_str());
            t.append(": footer offsets don't add up");
            return Err(Error::Storage(t));
        }
        match parse_index(codec::slice(s, index_offset as usize, f)) {
            Some(index) => Ok(Self { path, generation, index, max_seq, image }),
            None => {
                let mut t = Self::fault_head(path.as_str());
                t.append(": corrupt index");
                Err(Error::Storage(t))
            },
        }
    }

    fn fault_head(path: &str) -> (t: String)
        ensures
            t@ == "sstable "@ + quoted(path@),
    {
        String::from_str("sstable ").concat(text::quoted_text(path).as_str())
    }

    pub fn max_seq(&self) -> (n: u64)
        ensures
            n == self@.max_seq,
    {
        self.max_seq
    }

    pub fn num_entries(&self) -> (n: usize)
        ensures
            n == self@.index.len(),
    {
        self.index.len()
    }

    pub fn path(&self) -> (p: &str)
        ensures
            p@ == self@.path,
    {
        self.path.as_str()
    }

    pub fn generation(&self) -> (g: u64)
        ensures
            g == self@.generation,
    {
        self.generation
    }

    /// Reads every record, in key order.
    pub fn iter_all(&self) -> (r: Result<Vec<(Key, Option<Value>)>, Error>)
        ensures
            is_run(r, run_of(self@.image, 0, self@.index.len())),
            self@.sound() ==> (r matches Ok(v) && slot_views(v@) == self@.entries()),
    {
        proof {
            if self@.sound() && self@.index.len() > 0 {
                lemma_sound_run(self@, 0, self@.index.len());
                assert(self@.line_ok(0));
                assert(self@.entries().subrange(0, self@.index.len() as int) =~= self@.entries());
            }
            if self@.index.len() == 0 {
                assert(self@.entries() =~= Seq::<Slot>::empty());
            }
        }
        read_run(buffer::as_slice(&self.image), 0, self.index.len())
    }

    /// Looks `key` up: `Ok(None)` if it is not in this table, `Ok(Some(None))`
    /// if it has a tombstone here. On an index out of order the answer is
    /// about the line where halving ends up.
    pub fn get(&self, key: &[u8]) -> (r: Result<Option<Option<Value>>, Error>)
        ensures
            match self@.lookup(key@) {
                Ok(Some(v)) => r matches Ok(Some(x)) && opt_octets(x) == v,
                Ok(None) => r matches Ok(None),
                Err(f) => r matches Err(e) && is_read_error(e, f),
            },
            self@.sound() ==> match r {
                Ok(Some(v)) => self@.slots().contains_key(key@) && opt_octets(v)
                    == self@.slots()[key@],
                Ok(None) => !self@.slots().contains_key(key@),
                Err(_) => false,
            },
    {
        let at = order::lower_bound(&self.index, key);
        let ghost keys = keys_of(self.index@);
        proof {
            assert(keys =~= self@.keys());
            if self@.sound() {
                lemma_sound_lookup(self@, key@);
            }
        }
        if at >= self.index.len() || !order::is_same(buffer::as_slice(&self.index[at].0), key) {
            return Ok(None);
        }
        match read_record(buffer::as_slice(&self.image), self.index[at].1) {
            Ok(((_, value), _)) => Ok(Some(value)),
            Err(e) => Err(e),
        }
    }

    /// The entries with `start <= key < end`, tombstones among them, in key order.
    pub fn scan(&self, start: &[u8], end: &[u8]) -> (r: Result<Vec<(Key, Option<Value>)>, Error>)
        ensures
            is_run(r, self@.scanned(start@, end@)),
            self@.sound() ==> (r matches Ok(v) && lists_in_order(
                slot_views(v@),
                restricted(self@.slots(), start@, end@),
            )),
    {
        let lo = order::lower_bound(&self.index, start);
        let hi = order::lower_bound(&self.index, end);
        let r = if lo >= hi {
            let none: Vec<(Key, Option<Value>)> = Vec::new();
            assert(slot_views(none@) =~= Seq::<Slot>::empty());
            Ok(none)
        } else {
            read_run(buffer::as_slice(&self.image), self.index[lo].1, hi - lo)
        };
        proof {
            assert(keys_of(self.index@) =~= self@.keys());
            if self@.sound() {
                lemma_sound_range(self@, lo as int, hi as int, start@, end@);
                if lo < hi {
                    lemma_sound_run(self@, lo as int, (hi - lo) as nat);
                }
            }
        }
        r
    }
}

} // verus!
