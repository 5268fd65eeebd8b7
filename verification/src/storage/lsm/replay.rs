//! What the engine writes to its log, and how it reads that back.
//!
//! The payload of a log entry is `keylen u32`, the key and, for a put, the
//! value. Replaying the log takes each entry into a buffer at its sequence
//! number.

use bytes::Bytes;
use vstd::prelude::*;
use vstd::string::StringExecFns;

use crate::buffer::{self, octets, opt_octets};
use crate::codec::{self, u32_at, u32_le};
use crate::storage::engine::Op;
use crate::storage::lsm::memtable::{self, charge, stale, stamped_in, weight, MemTable, Stamped};
use crate::storage::lsm::sstable::fits;
use crate::storage::record::{
    readable, since, WalEntry, WalEntryKind, WalRecord, BODY_HEADER, MAX_RECORD_BODY,
};
use crate::storage::segment::seqs_ascend;
use crate::types::Error;

verus! {

broadcast use {codec::lemma_u32_le_len, codec::lemma_u64_le_len};

/// The payload for a write.
pub open spec fn payload_bytes(op: Op) -> Seq<u8> {
    match op {
        Op::Put { key, value } => u32_le(key.len() as u32) + key + value,
        Op::Delete { key } => u32_le(key.len() as u32) + key,
    }
}

/// The kind of log entry for a write.
pub open spec fn kind_of(op: Op) -> WalEntryKind {
    match op {
        Op::Put { .. } => WalEntryKind::Put,
        Op::Delete { .. } => WalEntryKind::Delete,
    }
}

/// The log entry for a write.
pub open spec fn record_of(seq: u64, op: Op) -> WalRecord {
    WalRecord { seq, kind: kind_of(op), payload: payload_bytes(op) }
}

/// The log can hold the write in one record.
pub open spec fn loggable(op: Op) -> bool {
    payload_bytes(op).len() + BODY_HEADER <= MAX_RECORD_BODY
}

/// A write that the log can hold is read back from it.
pub proof fn lemma_loggable(seq: u64, op: Op)
    ensures
        readable(record_of(seq, op)) == loggable(op),
{
}

/// What a log entry asks for.
pub enum Logged {
    Write { key: Seq<u8>, slot: Option<Seq<u8>> },
    /// A commit marker: nothing to do.
    Skip,
    TooShort,
    Truncated,
}

/// Reads a log entry. A commit marker is passed over, whatever its payload is.
pub open spec fn logged(r: WalRecord) -> Logged {
    let p = r.payload;
    let end = 4 + u32_at(p, 0) as int;
    if r.kind == WalEntryKind::Commit {
        Logged::Skip
    } else if p.len() < 4 {
        Logged::TooShort
    } else if p.len() < end {
        Logged::Truncated
    } else if r.kind == WalEntryKind::Put {
        Logged::Write { key: p.subrange(4, end), slot: Some(p.skip(end)) }
    } else {
        Logged::Write { key: p.subrange(4, end), slot: None }
    }
}

/// Why a log entry could not be replayed.
pub enum PayloadFault {
    TooShort,
    Truncated,
}

/// The text for a fault.
pub open spec fn payload_fault_text(f: PayloadFault) -> Seq<char> {
    match f {
        PayloadFault::TooShort => "wal payload too short"@,
        PayloadFault::Truncated => "wal payload truncated"@,
    }
}

/// The entries of a buffer after one log entry.
pub open spec fn replayed_one(m: Stamped, r: WalRecord) -> Result<Stamped, PayloadFault> {
    match logged(r) {
        Logged::Write { key, slot } => Ok(stamped_in(m, r.seq, key, slot)),
        Logged::Skip => Ok(m),
        Logged::TooShort => Err(PayloadFault::TooShort),
        Logged::Truncated => Err(PayloadFault::Truncated),
    }
}

/// The entries of a buffer after a list of log entries: the first that cannot
/// be read ends it.
pub open spec fn replayed(m: Stamped, rs: Seq<WalRecord>) -> Result<Stamped, PayloadFault>
    decreases rs.len(),
{
    if rs.len() == 0 {
        Ok(m)
    } else {
        match replayed(m, rs.drop_last()) {
            Ok(n) => replayed_one(n, rs.last()),
            Err(f) => Err(f),
        }
    }
}

/// What replaying a list of log entries may be charged at most.
pub open spec fn replay_cost(rs: Seq<WalRecord>) -> nat
    decreases rs.len(),
{
    if rs.len() == 0 {
        0
    } else {
        replay_cost(rs.drop_last()) + rs.last().payload.len() + 16
    }
}

/// What the last write to `key` among the log entries left there.
pub open spec fn last_write(rs: Seq<WalRecord>, key: Seq<u8>) -> Option<Option<Seq<u8>>>
    decreases rs.len(),
{
    if rs.len() == 0 {
        None
    } else {
        match logged(rs.last()) {
            Logged::Write { key: k, slot } => if k == key {
                Some(slot)
            } else {
                last_write(rs.drop_last(), key)
            },
            _ => last_write(rs.drop_last(), key),
        }
    }
}

/// Every log entry can be read.
pub open spec fn all_logged(rs: Seq<WalRecord>) -> bool {
    forall|i: int| 0 <= i < rs.len() ==> is_logged(#[trigger] rs[i])
}

/// The log entry can be read.
pub open spec fn is_logged(r: WalRecord) -> bool {
    logged(r) is Write || logged(r) is Skip
}

/// What was logged is read back.
pub proof fn lemma_logged_read_back(seq: u64, op: Op)
    requires
        op.key().len() <= u32::MAX,
    ensures
        logged(record_of(seq, op)) == (Logged::Write { key: op.key(), slot: op.slot() }),
{
    let p = payload_bytes(op);
    let k = op.key();
    assert(p.subrange(0, 4) =~= u32_le(k.len() as u32));
    codec::lemma_u32_read_back(p, 0, k.len() as u32);
    assert(p.subrange(4, 4 + k.len() as int) =~= k);
    match op {
        Op::Put { value, .. } => {
            assert(p.skip(4 + k.len() as int) =~= value);
        },
        _ => {},
    }
}

/// Replaying entries in the order of their numbers ends with the last write to
/// each key.
pub proof fn lemma_replay_last_write(rs: Seq<WalRecord>)
    requires
        seqs_ascend(rs),
        all_logged(rs),
    ensures
        replayed(Stamped::empty(), rs) matches Ok(m) && (forall|k: Seq<u8>| #[trigger]
            m.contains_key(k) <==> last_write(rs, k) is Some) && (forall|k: Seq<u8>| #[trigger]
            m.contains_key(k) ==> last_write(rs, k) == Some(m[k].1) && m[k].0 <= rs.last().seq
                && rs.len() > 0),
    decreases rs.len(),
{
    if rs.len() > 0 {
        let d = rs.drop_last();
        let n = rs.len() - 1;
        assert(seqs_ascend(d)) by {
            assert forall|i: int, j: int| 0 <= i < j < d.len() implies (#[trigger] d[i]).seq < (
            #[trigger] d[j]).seq by {
                assert(rs[i].seq < rs[j].seq);
            }
        }
        assert(all_logged(d)) by {
            assert forall|i: int| 0 <= i < d.len() implies is_logged(#[trigger] d[i]) by {
                assert(is_logged(rs[i]));
            }
        }
        lemma_replay_last_write(d);
        assert(is_logged(rs[n]));
        let m = replayed(Stamped::empty(), d)->Ok_0;
        if d.len() > 0 {
            assert(rs[n - 1].seq < rs[n].seq);
            assert(d.last() == rs[n - 1]);
        }
        match logged(rs.last()) {
            Logged::Write { key, slot } => {
                assert(!stale(m, key, rs.last().seq));
            },
            _ => {},
        }
    }
}

/// Every entry of the buffer was written at a number between `lo` and `hi`.
pub open spec fn written_between(m: Stamped, lo: int, hi: int) -> bool {
    forall|k: Seq<u8>| #[trigger] m.contains_key(k) ==> lo <= m[k].0 <= hi
}

/// What is replayed has the numbers of the log entries, and fits the table
/// format if they are short.
pub proof fn lemma_replay_bounds(m: Stamped, rs: Seq<WalRecord>, lo: int, hi: int)
    requires
        replayed(m, rs) is Ok,
        forall|i: int| 0 <= i < rs.len() ==> lo <= (#[trigger] rs[i]).seq <= hi,
        forall|i: int| 0 <= i < rs.len() ==> (#[trigger] rs[i]).payload.len() <= u32::MAX,
        written_between(m, lo, hi),
        entries_fit(m),
    ensures
        written_between(replayed(m, rs)->Ok_0, lo, hi),
        entries_fit(replayed(m, rs)->Ok_0),
    decreases rs.len(),
{
    if rs.len() > 0 {
        let d = rs.drop_last();
        assert forall|i: int| 0 <= i < d.len() implies lo <= (#[trigger] d[i]).seq <= hi by {
            assert(lo <= rs[i].seq <= hi);
        }
        assert forall|i: int| 0 <= i < d.len() implies (#[trigger] d[i]).payload.len()
            <= u32::MAX by {
            assert(rs[i].payload.len() <= u32::MAX);
        }
        let r = rs[rs.len() - 1];
        assert(lo <= r.seq <= hi);
        assert(r.payload.len() <= u32::MAX);
        lemma_replay_bounds(m, d, lo, hi);
    }
}

/// The head of the list is replayed first.
pub proof fn lemma_replayed_next(m: Stamped, rs: Seq<WalRecord>, i: int)
    requires
        0 <= i < rs.len(),
    ensures
        replayed(m, rs.take(i + 1)) == (match replayed(m, rs.take(i)) {
            Ok(n) => replayed_one(n, rs[i]),
            Err(f) => Err(f),
        }),
        replay_cost(rs.take(i + 1)) == replay_cost(rs.take(i)) + rs[i].payload.len() + 16,
{
    assert(rs.take(i + 1).drop_last() =~= rs.take(i));
}

/// An entry that cannot be read ends the replay.
pub proof fn lemma_replay_stops(m: Stamped, rs: Seq<WalRecord>, i: int)
    requires
        0 <= i <= rs.len(),
        replayed(m, rs.take(i)) is Err,
    ensures
        replayed(m, rs) == replayed(m, rs.take(i)),
    decreases rs.len() - i,
{
    if i == rs.len() {
        assert(rs.take(i) =~= rs);
    } else {
        lemma_replayed_next(m, rs, i);
        lemma_replay_stops(m, rs, i + 1);
    }
}

/// A longer list costs more.
pub proof fn lemma_replay_cost_grows(rs: Seq<WalRecord>, i: int)
    requires
        0 <= i <= rs.len(),
    ensures
        replay_cost(rs.take(i)) <= replay_cost(rs),
    decreases rs.len() - i,
{
    if i == rs.len() {
        assert(rs.take(i) =~= rs);
    } else {
        assert(rs.take(i + 1).drop_last() =~= rs.take(i));
        lemma_replay_cost_grows(rs, i + 1);
    }
}

/// One more log entry.
pub proof fn lemma_last_write_push(rs: Seq<WalRecord>, r: WalRecord, key: Seq<u8>)
    ensures
        last_write(rs.push(r), key) == (match logged(r) {
            Logged::Write { key: k, slot } => if k == key {
                Some(slot)
            } else {
                last_write(rs, key)
            },
            _ => last_write(rs, key),
        }),
{
    assert(rs.push(r).drop_last() =~= rs);
}

/// The last write is in the tail if the tail has any.
pub proof fn lemma_last_write_add(a: Seq<WalRecord>, b: Seq<WalRecord>, key: Seq<u8>)
    ensures
        last_write(a + b, key) == (if last_write(b, key) is Some {
            last_write(b, key)
        } else {
            last_write(a, key)
        }),
    decreases b.len(),
{
    if b.len() == 0 {
        assert(a + b =~= a);
    } else {
        assert((a + b).drop_last() =~= a + b.drop_last());
        lemma_last_write_add(a, b.drop_last(), key);
    }
}

/// Entries from a number on are a tail of entries in the order of their numbers.
pub proof fn lemma_since_is_tail(rs: Seq<WalRecord>, offset: u64) -> (n: int)
    requires
        seqs_ascend(rs),
    ensures
        0 <= n <= rs.len(),
        since(rs, offset) == rs.skip(n),
        forall|i: int| 0 <= i < n ==> (#[trigger] rs[i]).seq < offset,
        forall|i: int| n <= i < rs.len() ==> (#[trigger] rs[i]).seq >= offset,
    decreases rs.len(),
{
    if rs.len() == 0 {
        assert(since(rs, offset) =~= rs.skip(0));
        0
    } else {
        let d = rs.drop_last();
        assert forall|i: int, j: int| 0 <= i < j < d.len() implies (#[trigger] d[i]).seq < (
        #[trigger] d[j]).seq by {
            assert(rs[i].seq < rs[j].seq);
        }
        let n = lemma_since_is_tail(d, offset);
        let l = rs.len() - 1;
        assert forall|i: int| 0 <= i < n implies (#[trigger] rs[i]).seq < offset by {
            assert(d[i].seq < offset);
        }
        if rs.last().seq >= offset {
            assert forall|i: int| n <= i < rs.len() implies (#[trigger] rs[i]).seq >= offset by {
                if i < l {
                    assert(d[i].seq >= offset);
                }
            }
            assert(since(rs, offset) =~= rs.skip(n));
            n
        } else {
            if n < l {
                assert(d[n].seq >= offset);
                assert(rs[n].seq < rs[l].seq);
            }
            assert forall|i: int| 0 <= i < rs.len() implies (#[trigger] rs[i]).seq < offset by {
                if i < l {
                    assert(d[i].seq < offset);
                }
            }
            assert(since(d, offset) =~= Seq::<WalRecord>::empty());
            assert(since(rs, offset) =~= rs.skip(rs.len() as int));
            rs.len() as int
        }
    }
}

/// A key that is written from a number on has the same last write there as in
/// the whole log.
pub proof fn lemma_last_write_since(rs: Seq<WalRecord>, offset: u64, key: Seq<u8>)
    requires
        seqs_ascend(rs),
        last_write(since(rs, offset), key) is Some,
    ensures
        last_write(rs, key) == last_write(since(rs, offset), key),
{
    let n = lemma_since_is_tail(rs, offset);
    assert(rs =~= rs.take(n) + rs.skip(n));
    lemma_last_write_add(rs.take(n), rs.skip(n), key);
}

/// From an earlier number on at least as many keys are written.
pub proof fn lemma_since_earlier(rs: Seq<WalRecord>, a: u64, b: u64, key: Seq<u8>)
    requires
        seqs_ascend(rs),
        a <= b,
        last_write(since(rs, b), key) is Some,
    ensures
        last_write(since(rs, a), key) is Some,
{
    let n = lemma_since_is_tail(rs, a);
    let m = lemma_since_is_tail(rs, b);
    assert(n <= m) by {
        if m < n {
            assert(rs[m].seq < a);
        }
    }
    assert(rs.skip(n) =~= rs.subrange(n, m) + rs.skip(m));
    lemma_last_write_add(rs.subrange(n, m), rs.skip(m), key);
}

// ---- payloads ------------------------------------------------------------------

/// The payload for a put.
pub fn encode_put_payload(key: &[u8], value: &[u8]) -> (b: Bytes)
    ensures
        octets(b) == payload_bytes(Op::Put { key: key@, value: value@ }),
{
    let mut buf: Vec<u8> = Vec::new();
    codec::put_u32(&mut buf, key.len() as u32);
    codec::put_bytes(&mut buf, key);
    codec::put_bytes(&mut buf, value);
    assert(buf@ =~= payload_bytes(Op::Put { key: key@, value: value@ }));
    buffer::from_vec(buf)
}

/// The payload for a delete.
pub fn encode_delete_payload(key: &[u8]) -> (b: Bytes)
    ensures
        octets(b) == payload_bytes(Op::Delete { key: key@ }),
{
    let mut buf: Vec<u8> = Vec::new();
    codec::put_u32(&mut buf, key.len() as u32);
    codec::put_bytes(&mut buf, key);
    assert(buf@ =~= payload_bytes(Op::Delete { key: key@ }));
    buffer::from_vec(buf)
}

/// Every entry fits the lengths of the table format.
pub open spec fn entries_fit(m: Stamped) -> bool {
    forall|k: Seq<u8>| #[trigger] m.contains_key(k) ==> fits((k, m[k].1))
}

/// Takes one log entry into the buffer.
pub fn apply_wal_entry_to_memtable(entry: &WalEntry, mt: &mut MemTable) -> (r: Result<(), Error>)
    requires
        old(mt).wf(),
        weight(old(mt)@) + entry@.payload.len() + 16 <= usize::MAX,
    ensures
        final(mt).wf(),
        weight(final(mt)@) <= weight(old(mt)@) + entry@.payload.len() + 16,
        match replayed_one(old(mt)@, entry@) {
            Ok(m) => r is Ok && final(mt)@ == m,
            Err(f) => (r matches Err(e) && e.is_storage(payload_fault_text(f))) && final(mt)@
                == old(mt)@,
        },
        entry@.payload.len() <= u32::MAX && entries_fit(old(mt)@) ==> entries_fit(final(mt)@),
        final(mt).newest() == old(mt).newest() || final(mt).newest() == Some(entry@.seq),
{
    let holds_value = match entry.kind {
        WalEntryKind::Put => true,
        WalEntryKind::Delete => false,
        WalEntryKind::Commit => {
            return Ok(());
        },
    };
    let payload = buffer::as_slice(&entry.payload);
    let len: usize = payload.len();
    if len < 4 {
        return Err(Error::Storage(String::from_str("wal payload too short")));
    }
    let keylen = codec::get_u32(payload, 0) as usize;
    if len - 4 < keylen {
        return Err(Error::Storage(String::from_str("wal payload truncated")));
    }
    let end = 4 + keylen;
    let key = Bytes::copy_from_slice(codec::slice(payload, 4, end));
    let value = if holds_value {
        Some(Bytes::copy_from_slice(codec::slice(payload, end, len)))
    } else {
        None
    };
    proof {
        assert(payload@.subrange(end as int, len as int) =~= payload@.skip(end as int));
        assert(charge(octets(key), opt_octets(value)) <= entry@.payload.len() + 16);
        mt.lemma_newest();
        memtable::lemma_weight_stored(mt@, octets(key), (entry.seq, opt_octets(value)));
    }
    mt.insert(entry.seq, key, value);
    Ok(())
}

} // verus!
