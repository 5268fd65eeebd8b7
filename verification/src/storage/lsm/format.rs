//! What stands where in a table's file and in a log entry.

use vstd::prelude::*;

use crate::codec::{self, u32_at, u32_le, u64_at, u64_le};
use crate::storage::engine::Op;
use crate::storage::lsm::replay::{logged, payload_bytes, Logged};
use crate::storage::lsm::sstable::{
    data_bytes, fits, index_bytes, index_of, line_bytes, slot_at, slot_bytes, table_bytes, table_of,
    Slot, SlotRead, TableFault, TableView,
};
use crate::storage::record::{WalEntryKind, WalRecord};

verus! {

broadcast use {codec::lemma_u32_le_len, codec::lemma_u64_le_len};

/// A record is a byte that says what it is, the length of the key, the key, and for a
/// value its length and the value.
pub proof fn lemma_slot_layout(e: Slot)
    requires
        fits(e),
    ensures
        ({
            let s = slot_bytes(e);
            let n = e.0.len() as int;
            &&& s[0] == (if e.1 is Some {
                0u8
            } else {
                1u8
            })
            &&& u32_at(s, 1) == n
            &&& s.subrange(5, 5 + n) == e.0
            &&& match e.1 {
                Some(v) => u32_at(s, 5 + n) == v.len() && s.skip(9 + n) == v && s.len() == 9 + n
                    + v.len(),
                None => s.len() == 5 + n,
            }
        }),
{
    let s = slot_bytes(e);
    let n = e.0.len() as int;
    assert(s.subrange(1, 5) =~= u32_le(n as u32));
    codec::lemma_u32_read_back(s, 1, n as u32);
    assert(s.subrange(5, 5 + n) =~= e.0);
    if e.1 is Some {
        let v = e.1.unwrap();
        assert(s.subrange(5 + n, 9 + n) =~= u32_le(v.len() as u32));
        codec::lemma_u32_read_back(s, 5 + n, v.len() as u32);
        assert(s.skip(9 + n) =~= v);
    }
}

/// A record of which the end is missing is not read, and neither is one of another
/// kind.
pub proof fn lemma_slot_spoilt(e: Slot, cut: int, kind: u8)
    requires
        fits(e),
        0 <= cut < slot_bytes(e).len(),
    ensures
        slot_at(slot_bytes(e).take(cut), 0) is Ended,
        kind > 1 ==> slot_at(slot_bytes(e).update(0, kind), 0) == (SlotRead::BadType { byte: kind }),
{
    lemma_slot_layout(e);
    let s = slot_bytes(e);
    let t = s.take(cut);
    let n = e.0.len() as int;
    if cut >= 5 {
        codec::lemma_u32_at_same(s, t, 1);
        if cut >= 9 + n {
            codec::lemma_u32_at_same(s, t, 5 + n);
        }
        if cut >= 5 + n {
            assert(t[0] == s[0]);
        }
    }
    if kind > 1 {
        codec::lemma_u32_at_same(s, s.update(0, kind), 1);
    }
}

/// A line of the index is the length of the key, the key, and where its record
/// starts.
pub proof fn lemma_line_layout(key: Seq<u8>, at: u64)
    requires
        key.len() <= u32::MAX,
    ensures
        ({
            let s = line_bytes((key, at));
            &&& s.len() == 12 + key.len()
            &&& u32_at(s, 0) == key.len()
            &&& s.subrange(4, 4 + key.len() as int) == key
            &&& u64_at(s, 4 + key.len() as int) == at
        }),
{
    let s = line_bytes((key, at));
    let n = key.len() as int;
    assert(s.subrange(0, 4) =~= u32_le(n as u32));
    codec::lemma_u32_read_back(s, 0, n as u32);
    assert(s.subrange(4, 4 + n) =~= key);
    assert(s.subrange(4 + n, 12 + n) =~= u64_le(at));
    codec::lemma_u64_read_back(s, 4 + n, at);
}

/// A table is its records, one after another, its index, with a line for each of
/// them, and forty bytes that say where the index starts, how long it is, how many
/// records there are, the highest sequence number, and that this is a table.
pub proof fn lemma_table_layout(es: Seq<Slot>, max_seq: u64, i: int)
    requires
        0 <= i < es.len(),
        table_bytes(es, max_seq).len() <= u64::MAX,
    ensures
        ({
            let s = table_bytes(es, max_seq);
            let f = s.len() - 40;
            let start = u64_at(s, f) as int;
            let len = u64_at(s, f + 8) as int;
            let at = index_of(es)[i].1 as int;
            &&& f >= 0 && start + len == f
            &&& u64_at(s, f + 16) == es.len() && u64_at(s, f + 24) == max_seq
            &&& u64_at(s, f + 32) == 0xCAFE_F00D_DEAD_BEEF
            &&& index_of(es).len() == es.len() && index_of(es)[i].0 == es[i].0
            &&& s.subrange(start, f) == index_bytes(index_of(es))
            &&& 0 <= at && at + slot_bytes(es[i]).len() <= start
            &&& s.subrange(at, at + slot_bytes(es[i]).len()) == slot_bytes(es[i])
            &&& i == 0 ==> at == 0
            &&& i > 0 ==> at == index_of(es)[i - 1].1 + slot_bytes(es[i - 1]).len()
            &&& i == es.len() - 1 ==> at + slot_bytes(es[i]).len() == start
        }),
{
    let s = table_bytes(es, max_seq);
    let data = data_bytes(es);
    let index = index_bytes(index_of(es));
    let f = s.len() - 40;
    assert(s.len() == data.len() + index.len() + 40);
    assert(s.subrange(f, f + 8) =~= u64_le(data.len() as u64));
    codec::lemma_u64_read_back(s, f, data.len() as u64);
    assert(s.subrange(f + 8, f + 16) =~= u64_le(index.len() as u64));
    codec::lemma_u64_read_back(s, f + 8, index.len() as u64);
    lemma_data_len(es, es.len() as int);
    assert(s.subrange(f + 16, f + 24) =~= u64_le(es.len() as u64));
    codec::lemma_u64_read_back(s, f + 16, es.len() as u64);
    assert(s.subrange(f + 24, f + 32) =~= u64_le(max_seq));
    codec::lemma_u64_read_back(s, f + 24, max_seq);
    assert(s.subrange(f + 32, f + 40) =~= u64_le(0xCAFE_F00D_DEAD_BEEF));
    codec::lemma_u64_read_back(s, f + 32, 0xCAFE_F00D_DEAD_BEEF);
    assert(s.subrange(data.len() as int, f) =~= index);
    lemma_data_at(es, i);
    let at = data_bytes(es.take(i)).len() as int;
    let n = slot_bytes(es[i]).len() as int;
    assert(s.subrange(at, at + n) =~= data.subrange(at, at + n));
    if i == 0 {
        assert(es.take(0) =~= Seq::<Slot>::empty());
    } else {
        lemma_data_at(es, i - 1);
        assert(es.take(i).drop_last() =~= es.take(i - 1));
        assert(es.take(i).last() == es[i - 1]);
    }
    if i == es.len() - 1 {
        assert(es.take(i) =~= es.drop_last());
    }
}

/// Every record takes a byte or more.
proof fn lemma_data_len(es: Seq<Slot>, n: int)
    requires
        n == es.len(),
    ensures
        data_bytes(es).len() >= n,
    decreases n,
{
    if n > 0 {
        lemma_data_len(es.drop_last(), n - 1);
    }
}

proof fn lemma_data_at(es: Seq<Slot>, i: int)
    requires
        0 <= i < es.len(),
    ensures
        ({
            let at = data_bytes(es.take(i)).len() as int;
            let n = slot_bytes(es[i]).len() as int;
            at + n <= data_bytes(es).len() && data_bytes(es).subrange(at, at + n) == slot_bytes(es[i])
        }),
    decreases es.len(),
{
    let d = es.drop_last();
    let at = data_bytes(es.take(i)).len() as int;
    let n = slot_bytes(es[i]).len() as int;
    if i < d.len() {
        lemma_data_at(d, i);
        assert(d.take(i) =~= es.take(i));
        assert(data_bytes(es).subrange(at, at + n) =~= data_bytes(d).subrange(at, at + n));
    } else {
        assert(es.take(i) =~= d);
        assert(data_bytes(es).subrange(at, at + n) =~= slot_bytes(es[i]));
    }
}

/// A file is refused that is too short, does not end as tables do, or has an index
/// that does not reach from where it is said to start up to the last forty bytes.
pub proof fn lemma_no_table(path: Seq<char>, generation: u64, image: Seq<u8>)
    ensures
        image.len() < 40 ==> table_of(path, generation, image) == Err::<TableView, TableFault>(
            TableFault::TooSmall,
        ),
        image.len() >= 40 && u64_at(image, image.len() - 8) != 0xCAFE_F00D_DEAD_BEEF ==> table_of(
            path,
            generation,
            image,
        ) == Err::<TableView, TableFault>(
            TableFault::BadMagic { magic: u64_at(image, image.len() - 8) },
        ),
        image.len() >= 40 && u64_at(image, image.len() - 8) == 0xCAFE_F00D_DEAD_BEEF && u64_at(
            image,
            image.len() - 40,
        ) + u64_at(image, image.len() - 32) != image.len() - 40 ==> table_of(path, generation, image)
            == Err::<TableView, TableFault>(TableFault::BadOffsets),
{
}

/// The payload of a log entry is the length of the key, the key, and for a put the
/// value. It is read as the write that it was made for, and a commit marker as
/// nothing.
pub proof fn lemma_payload_layout(op: Op, seq: u64)
    requires
        op.key().len() <= u32::MAX,
    ensures
        ({
            let p = payload_bytes(op);
            let key = match op {
                Op::Put { key, .. } => key,
                Op::Delete { key } => key,
            };
            let n = key.len() as int;
            &&& u32_at(p, 0) == n && p.subrange(4, 4 + n) == key
            &&& op matches Op::Put { value, .. } ==> p.skip(4 + n) == value && logged(
                WalRecord { seq, kind: WalEntryKind::Put, payload: p },
            ) == (Logged::Write { key, slot: Some(value) })
            &&& op is Delete ==> p.len() == 4 + n && logged(
                WalRecord { seq, kind: WalEntryKind::Delete, payload: p },
            ) == (Logged::Write { key, slot: None })
            &&& logged(WalRecord { seq, kind: WalEntryKind::Commit, payload: p }) is Skip
        }),
{
    let p = payload_bytes(op);
    let key = op.key();
    let n = key.len() as int;
    assert(p.subrange(0, 4) =~= u32_le(n as u32));
    codec::lemma_u32_read_back(p, 0, n as u32);
    assert(p.subrange(4, 4 + n) =~= key);
    if op is Put {
        assert(p.skip(4 + n) =~= op->value);
    }
}

/// A payload that does not reach to the end of its key is not taken for a write.
pub proof fn lemma_payload_spoilt(r: WalRecord)
    requires
        r.kind != WalEntryKind::Commit,
    ensures
        r.payload.len() < 4 ==> logged(r) is TooShort,
        r.payload.len() >= 4 && r.payload.len() < 4 + u32_at(r.payload, 0) ==> logged(r) is Truncated,
        r.payload.len() >= 4 && r.payload.len() >= 4 + u32_at(r.payload, 0) ==> logged(r) is Write,
{
}

} // verus!
