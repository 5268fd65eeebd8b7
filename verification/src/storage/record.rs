//! The records of the write-ahead log.
//!
//! ```text
//!   body_len u32 | crc32 u32 of the body | seq u64 | kind u8 | payload
//!   <------------- header -------------> <---- body (body_len bytes) ---->
//! ```
//!
//! All integers are stored least significant byte first. A segment is a run of
//! records; reading stops at the first place where no whole, plausible record
//! with a matching checksum stands.

use bytes::Bytes;
use vstd::prelude::*;

use crate::buffer::{self, octets};
use crate::checksum::{self, crc32};
use crate::codec::{self, u32_at, u32_le, u64_at, u64_le};

verus! {

broadcast use {codec::lemma_u32_le_len, codec::lemma_u64_le_len};

/// Bytes ahead of a record's body: its length and its checksum.
pub const RECORD_HEADER: usize = 8;

/// Bytes of a body ahead of its payload: the sequence number and the kind.
pub const BODY_HEADER: usize = 9;

/// A longer body is taken for damage.
pub const MAX_RECORD_BODY: u32 = 64 * 1024 * 1024;

#[derive(Debug, Clone, Copy, PartialEq, Eq, Structural)]
pub enum WalEntryKind {
    Put,
    Delete,
    Commit,
}

impl WalEntryKind {
    /// The byte that stands for the kind.
    pub open spec fn code(self) -> u8 {
        match self {
            WalEntryKind::Put => 0,
            WalEntryKind::Delete => 1,
            WalEntryKind::Commit => 2,
        }
    }

    /// The kind that a byte stands for.
    pub open spec fn of_code(byte: u8) -> Option<WalEntryKind> {
        if byte == 0 {
            Some(WalEntryKind::Put)
        } else if byte == 1 {
            Some(WalEntryKind::Delete)
        } else if byte == 2 {
            Some(WalEntryKind::Commit)
        } else {
            None
        }
    }

    pub fn encode(self) -> (byte: u8)
        ensures
            byte == self.code(),
    {
        match self {
            WalEntryKind::Put => 0,
            WalEntryKind::Delete => 1,
            WalEntryKind::Commit => 2,
        }
    }

    pub fn decode(byte: u8) -> (kind: Option<Self>)
        ensures
            kind == Self::of_code(byte),
    {
        if byte == 0 {
            Some(WalEntryKind::Put)
        } else if byte == 1 {
            Some(WalEntryKind::Delete)
        } else if byte == 2 {
            Some(WalEntryKind::Commit)
        } else {
            None
        }
    }
}

#[derive(Debug, Clone)]
pub struct WalEntry {
    pub seq: u64,
    pub kind: WalEntryKind,
    pub payload: Bytes,
}

/// What a log entry says.
pub struct WalRecord {
    pub seq: u64,
    pub kind: WalEntryKind,
    pub payload: Seq<u8>,
}

impl WalEntry {
    pub open spec fn view(&self) -> WalRecord {
        WalRecord { seq: self.seq, kind: self.kind, payload: octets(self.payload) }
    }

    /// A copy that shares the payload.
    pub fn dup(&self) -> (e: Self)
        ensures
            e@ == self@,
    {
        Self { seq: self.seq, kind: self.kind, payload: self.payload.clone() }
    }
}

/// What each entry of a list says.
pub open spec fn views(entries: Seq<WalEntry>) -> Seq<WalRecord> {
    Seq::new(entries.len(), |i: int| entries[i]@)
}

/// The body of a record.
pub open spec fn body_bytes(r: WalRecord) -> Seq<u8> {
    u64_le(r.seq) + seq![r.kind.code()] + r.payload
}

/// The bytes of a record.
pub open spec fn record_bytes(r: WalRecord) -> Seq<u8> {
    u32_le(body_bytes(r).len() as u32) + u32_le(crc32(body_bytes(r))) + body_bytes(r)
}

/// The body is short enough to be read back.
pub open spec fn readable(r: WalRecord) -> bool {
    body_bytes(r).len() <= MAX_RECORD_BODY
}

/// The record that stands in `s` at `at`, and where it ends.
pub open spec fn record_at(s: Seq<u8>, at: int) -> Option<(WalRecord, int)> {
    let body_len = u32_at(s, at) as int;
    let body = s.subrange(at + 8, at + 8 + body_len);
    if at + 8 > s.len() || body_len < 9 || body_len > MAX_RECORD_BODY || at + 8 + body_len > s.len()
        || crc32(body) != u32_at(s, at + 4) {
        None
    } else {
        match WalEntryKind::of_code(body[8]) {
            Some(kind) => Some(
                (
                    WalRecord { seq: u64_at(body, 0), kind, payload: body.skip(9) },
                    at + 8 + body_len,
                ),
            ),
            None => None,
        }
    }
}

/// The records that stand in `s` one after another from `at` on.
pub open spec fn records_from(s: Seq<u8>, at: int) -> Seq<WalRecord>
    decreases s.len() - at,
{
    match record_at(s, at) {
        Some((r, next)) => if at < next <= s.len() {
            seq![r] + records_from(s, next)
        } else {
            seq![]
        },
        None => seq![],
    }
}

/// Where the last of those records ends.
pub open spec fn good_end(s: Seq<u8>, at: int) -> int
    decreases s.len() - at,
{
    match record_at(s, at) {
        Some((r, next)) => if at < next <= s.len() {
            good_end(s, next)
        } else {
            at
        },
        None => at,
    }
}

/// The records of a segment.
pub open spec fn records(s: Seq<u8>) -> Seq<WalRecord> {
    records_from(s, 0)
}

/// The segment holds whole records and nothing after them.
pub open spec fn clean(s: Seq<u8>) -> bool {
    good_end(s, 0) == s.len()
}

/// The records with a sequence number of at least `offset`, in order.
pub open spec fn since(rs: Seq<WalRecord>, offset: u64) -> Seq<WalRecord>
    decreases rs.len(),
{
    if rs.len() == 0 {
        seq![]
    } else {
        let rest = since(rs.drop_last(), offset);
        if rs.last().seq >= offset {
            rest.push(rs.last())
        } else {
            rest
        }
    }
}

/// The highest sequence number among the records.
pub open spec fn highest(rs: Seq<WalRecord>) -> Option<u64>
    decreases rs.len(),
{
    if rs.len() == 0 {
        None
    } else {
        Some(higher(highest(rs.drop_last()), rs.last().seq))
    }
}

/// The larger of `seq` and what was highest before.
pub open spec fn higher(last: Option<u64>, seq: u64) -> u64 {
    match last {
        Some(l) => if l > seq {
            l
        } else {
            seq
        },
        None => seq,
    }
}

// ---- facts about single records ------------------------------------------

/// A record that was written is read back, whatever stands around it.
pub proof fn lemma_record_read_back(head: Seq<u8>, r: WalRecord, tail: Seq<u8>)
    requires
        readable(r),
    ensures
        record_at(head + record_bytes(r) + tail, head.len() as int) == Some(
            (r, (head.len() + record_bytes(r).len()) as int),
        ),
{
    let s = head + record_bytes(r) + tail;
    let at = head.len() as int;
    let body = body_bytes(r);
    let n = body.len();
    assert(record_bytes(r).len() == n + 8);
    assert(s.subrange(at, at + 4) =~= u32_le(n as u32));
    assert(s.subrange(at + 4, at + 8) =~= u32_le(crc32(body)));
    codec::lemma_u32_read_back(s, at, n as u32);
    codec::lemma_u32_read_back(s, at + 4, crc32(body));
    assert(s.subrange(at + 8, at + 8 + n) =~= body);
    assert(body.subrange(0, 8) =~= u64_le(r.seq));
    codec::lemma_u64_read_back(body, 0, r.seq);
    assert(body[8] == r.kind.code());
    assert(body.skip(9) =~= r.payload);
}

/// A record that stands in the head of a sequence stands there in the whole.
pub proof fn lemma_record_extends(s: Seq<u8>, t: Seq<u8>, at: int)
    requires
        0 <= at,
        record_at(s, at) is Some,
    ensures
        record_at(s + t, at) == record_at(s, at),
        at < record_at(s, at).unwrap().1 <= s.len(),
{
    let u = s + t;
    codec::lemma_u32_at_same(u, s, at);
    codec::lemma_u32_at_same(u, s, at + 4);
    let n = u32_at(s, at) as int;
    assert(u.subrange(at + 8, at + 8 + n) =~= s.subrange(at + 8, at + 8 + n));
}

/// No proper prefix of a record reads as a record: a write that was cut short
/// leaves nothing behind.
pub proof fn lemma_torn_record(s: Seq<u8>, r: WalRecord, cut: int)
    requires
        readable(r),
        0 <= cut < record_bytes(r).len(),
    ensures
        record_at(s + record_bytes(r).take(cut), s.len() as int) is None,
{
    let t = record_bytes(r).take(cut);
    let u = s + t;
    let at = s.len() as int;
    if cut >= 8 {
        assert(u.subrange(at, at + 4) =~= u32_le(body_bytes(r).len() as u32));
        codec::lemma_u32_read_back(u, at, body_bytes(r).len() as u32);
    }
}

/// A record whose body does not match its stored checksum is not read.
pub proof fn lemma_bad_checksum(s: Seq<u8>, at: int)
    requires
        crc32(s.subrange(at + 8, at + 8 + u32_at(s, at) as int)) != u32_at(s, at + 4),
    ensures
        record_at(s, at) is None,
{
}

// ---- facts about segments --------------------------------------------------

/// Reading a segment that has been extended: first what stood there, then what
/// stands where the old records end.
pub proof fn lemma_records_extend(s: Seq<u8>, t: Seq<u8>, at: int)
    requires
        0 <= at <= s.len(),
        good_end(s, at) == s.len(),
    ensures
        records_from(s + t, at) == records_from(s, at) + records_from(s + t, s.len() as int),
        good_end(s + t, at) == good_end(s + t, s.len() as int),
    decreases s.len() - at,
{
    match record_at(s, at) {
        Some((r, next)) => {
            lemma_record_extends(s, t, at);
            lemma_records_extend(s, t, next);
            assert(records_from(s + t, at) =~= records_from(s, at) + records_from(
                s + t,
                s.len() as int,
            ));
        },
        None => {
            assert(records_from(s + t, at) =~= records_from(s, at) + records_from(
                s + t,
                s.len() as int,
            ));
        },
    }
}

/// Appending a record to a clean segment adds that record and leaves it clean.
pub proof fn lemma_append_record(s: Seq<u8>, r: WalRecord)
    requires
        clean(s),
        readable(r),
    ensures
        records(s + record_bytes(r)) == records(s).push(r),
        clean(s + record_bytes(r)),
{
    let t = record_bytes(r);
    let u = s + t;
    lemma_records_extend(s, t, 0);
    lemma_record_read_back(s, r, Seq::empty());
    assert(s + t + Seq::<u8>::empty() =~= u);
    assert(record_at(u, u.len() as int) is None);
    assert(records_from(u, u.len() as int) =~= Seq::<WalRecord>::empty());
    assert(records_from(u, s.len() as int) =~= seq![r]);
    assert(good_end(u, u.len() as int) == u.len());
    assert(good_end(u, s.len() as int) == good_end(u, u.len() as int));
    assert(records(s) + seq![r] =~= records(s).push(r));
}

/// Bytes behind a clean segment that do not begin with a record are not read.
pub proof fn lemma_tail_ignored(s: Seq<u8>, t: Seq<u8>)
    requires
        clean(s),
        record_at(s + t, s.len() as int) is None,
    ensures
        records(s + t) == records(s),
        good_end(s + t, 0) == s.len(),
{
    lemma_records_extend(s, t, 0);
    assert(records_from(s + t, s.len() as int) =~= Seq::<WalRecord>::empty());
    assert(records(s) + Seq::<WalRecord>::empty() =~= records(s));
}

/// A segment whose last write was cut short reads like the segment before that
/// write, and recovery cuts it back to exactly that.
pub proof fn lemma_torn_tail(s: Seq<u8>, r: WalRecord, cut: int)
    requires
        clean(s),
        readable(r),
        0 <= cut < record_bytes(r).len(),
    ensures
        records(s + record_bytes(r).take(cut)) == records(s),
        good_end(s + record_bytes(r).take(cut), 0) == s.len(),
{
    lemma_torn_record(s, r, cut);
    lemma_tail_ignored(s, record_bytes(r).take(cut));
}

/// The records of `s` end inside `s`.
pub proof fn lemma_good_end_bounds(s: Seq<u8>, at: int)
    requires
        0 <= at <= s.len(),
    ensures
        at <= good_end(s, at) <= s.len(),
    decreases s.len() - at,
{
    match record_at(s, at) {
        Some((r, next)) => {
            lemma_good_end_bounds(s, next);
        },
        None => {},
    }
}

proof fn lemma_cut_back(s: Seq<u8>, at: int)
    requires
        0 <= at <= s.len(),
    ensures
        records_from(s.take(good_end(s, at)), at) == records_from(s, at),
        good_end(s.take(good_end(s, at)), at) == good_end(s, at),
    decreases s.len() - at,
{
    lemma_good_end_bounds(s, at);
    let end = good_end(s, at);
    let u = s.take(end);
    assert(u + s.skip(end) =~= s);
    match record_at(s, at) {
        Some((r, next)) => {
            lemma_good_end_bounds(s, next);
            let n = u32_at(s, at) as int;
            codec::lemma_u32_at_same(u, s, at);
            codec::lemma_u32_at_same(u, s, at + 4);
            assert(u.subrange(at + 8, at + 8 + n) =~= s.subrange(at + 8, at + 8 + n));
            assert(record_at(u, at) == record_at(s, at));
            lemma_cut_back(s, next);
        },
        None => {
            assert(record_at(u, at) is None);
        },
    }
}

/// Cutting a segment back to where its records end keeps the records and
/// leaves it clean. Cutting again changes nothing.
pub proof fn lemma_recovered(s: Seq<u8>)
    ensures
        records(s.take(good_end(s, 0))) == records(s),
        clean(s.take(good_end(s, 0))),
        0 <= good_end(s, 0) <= s.len(),
{
    lemma_good_end_bounds(s, 0);
    lemma_cut_back(s, 0);
}

// ---- facts about lists of records ------------------------------------------

pub proof fn lemma_since_push(rs: Seq<WalRecord>, r: WalRecord, offset: u64)
    ensures
        since(rs.push(r), offset) == (if r.seq >= offset {
            since(rs, offset).push(r)
        } else {
            since(rs, offset)
        }),
{
    assert(rs.push(r).drop_last() =~= rs);
}

pub proof fn lemma_since_add(a: Seq<WalRecord>, b: Seq<WalRecord>, offset: u64)
    ensures
        since(a + b, offset) == since(a, offset) + since(b, offset),
    decreases b.len(),
{
    if b.len() == 0 {
        assert(a + b =~= a);
        assert(since(a, offset) + since(b, offset) =~= since(a, offset));
    } else {
        lemma_since_add(a, b.drop_last(), offset);
        assert((a + b).drop_last() =~= a + b.drop_last());
        assert(since(a + b, offset) =~= since(a, offset) + since(b, offset));
    }
}

/// Nothing is left of records that all lie below `offset`.
pub proof fn lemma_since_none(rs: Seq<WalRecord>, offset: u64)
    requires
        forall|i: int| 0 <= i < rs.len() ==> (#[trigger] rs[i]).seq < offset,
    ensures
        since(rs, offset) == Seq::<WalRecord>::empty(),
    decreases rs.len(),
{
    if rs.len() > 0 {
        assert(rs.last() == rs[rs.len() - 1]);
        lemma_since_none(rs.drop_last(), offset);
    }
}

/// The highest sequence number bounds all and is one of them.
pub proof fn lemma_highest(rs: Seq<WalRecord>)
    ensures
        highest(rs) is None <==> rs.len() == 0,
        forall|i: int| 0 <= i < rs.len() ==> (#[trigger] rs[i]).seq <= highest(rs).unwrap(),
        rs.len() > 0 ==> exists|i: int|
            0 <= i < rs.len() && (#[trigger] rs[i]).seq == highest(rs).unwrap(),
    decreases rs.len(),
{
    if rs.len() > 0 {
        let rest = rs.drop_last();
        lemma_highest(rest);
        assert forall|i: int| 0 <= i < rs.len() implies (#[trigger] rs[i]).seq <= highest(
            rs,
        ).unwrap() by {
            if i < rest.len() {
                assert(rest[i].seq <= highest(rest).unwrap());
            }
        }
        if rest.len() > 0 && highest(rest).unwrap() > rs.last().seq {
            let i = choose|i: int|
                0 <= i < rest.len() && (#[trigger] rest[i]).seq == highest(rest).unwrap();
            assert(rs[i].seq == highest(rs).unwrap());
        } else {
            assert(rs[rs.len() - 1].seq == highest(rs).unwrap());
        }
    }
}

// ---- encoding and reading ---------------------------------------------------

/// Appends the bytes of the record for `entry`.
pub fn encode_record(entry: &WalEntry, buf: &mut Vec<u8>)
    ensures
        final(buf)@ == old(buf)@ + record_bytes(entry@),
{
    let mut body: Vec<u8> = Vec::new();
    codec::put_u64(&mut body, entry.seq);
    body.push(entry.kind.encode());
    codec::put_bytes(&mut body, buffer::as_slice(&entry.payload));
    assert(body@ =~= body_bytes(entry@));
    let crc = checksum::crc32_of(body.as_slice());
    codec::put_u32(buf, body.len() as u32);
    codec::put_u32(buf, crc);
    codec::put_bytes(buf, body.as_slice());
    assert(buf@ =~= old(buf)@ + record_bytes(entry@));
}

/// Reads the record that stands in `s` at `at`, and says where it ends. `None`
/// is the answer for the end of the bytes, for a record cut short, for a wrong
/// checksum, for an implausible length and for an unknown kind.
pub fn read_one_record(s: &[u8], at: usize) -> (r: Option<(WalEntry, usize)>)
    requires
        at <= s@.len(),
    ensures
        match r {
            Some((e, next)) => record_at(s@, at as int) == Some((e@, next as int)),
            None => record_at(s@, at as int) is None,
        },
{
    let total: usize = s.len();
    if total - at < RECORD_HEADER {
        return None;
    }
    let body_len = codec::get_u32(s, at);
    let stored_crc = codec::get_u32(s, at + 4);
    if body_len < BODY_HEADER as u32 || body_len > MAX_RECORD_BODY {
        return None;
    }
    if total - at - RECORD_HEADER < body_len as usize {
        return None;
    }
    let next = at + RECORD_HEADER + body_len as usize;
    let body = codec::slice(s, at + RECORD_HEADER, next);
    if checksum::crc32_of(body) != stored_crc {
        return None;
    }
    let seq = codec::get_u64(body, 0);
    match WalEntryKind::decode(body[8]) {
        Some(kind) => {
            let payload = Bytes::copy_from_slice(codec::slice(body, BODY_HEADER, body.len()));
            let e = WalEntry { seq, kind, payload };
            proof {
                assert(octets(e.payload) =~= body@.skip(9));
            }
            Some((e, next))
        },
        None => None,
    }
}

/// Reads the records of a segment, and says where the last one ends.
pub fn read_records(s: &[u8]) -> (r: (Vec<WalEntry>, usize))
    ensures
        views(r.0@) == records(s@),
        r.1 == good_end(s@, 0),
{
    let mut out: Vec<WalEntry> = Vec::new();
    let mut at: usize = 0;
    assert(views(out@) + records_from(s@, 0) =~= records(s@));
    loop
        invariant
            at <= s@.len(),
            views(out@) + records_from(s@, at as int) == records(s@),
            good_end(s@, at as int) == good_end(s@, 0),
        ensures
            views(out@) == records(s@),
            at == good_end(s@, 0),
        decreases s@.len() - at,
    {
        match read_one_record(s, at) {
            Some((e, next)) => {
                let ghost prev = out@;
                proof {
                    lemma_record_extends(s@, Seq::empty(), at as int);
                    assert(s@ + Seq::<u8>::empty() =~= s@);
                }
                out.push(e);
                proof {
                    assert(views(out@) =~= views(prev).push(e@));
                    assert(views(out@) + records_from(s@, next as int) =~= views(prev)
                        + records_from(s@, at as int));
                }
                at = next;
            },
            None => {
                assert(views(out@) + records_from(s@, at as int) =~= views(out@));
                break;
            },
        }
    }
    (out, at)
}

/// Every record that can be read is short.
pub proof fn lemma_records_short(s: Seq<u8>, at: int)
    requires
        0 <= at,
    ensures
        forall|i: int|
            0 <= i < records_from(s, at).len() ==> (#[trigger] records_from(s, at)[i]).payload.len()
                <= MAX_RECORD_BODY,
    decreases s.len() - at,
{
    match record_at(s, at) {
        Some((r, next)) => if at < next <= s.len() {
            lemma_records_short(s, next);
            let rest = records_from(s, next);
            assert forall|i: int| 0 <= i < (seq![r] + rest).len() implies (#[trigger] (seq![r]
                + rest)[i]).payload.len() <= MAX_RECORD_BODY by {
                if i > 0 {
                    assert((seq![r] + rest)[i] == rest[i - 1]);
                }
            }
        },
        None => {},
    }
}

} // verus!
