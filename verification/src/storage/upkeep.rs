//! What a log is for: entries come back in order, segments stay small, and what is
//! not needed goes.

use vstd::prelude::*;

use crate::checksum::crc32;
use crate::codec::{self, u32_at, u32_le, u64_at, u64_le};
use crate::storage::record::{
    self, body_bytes, good_end, highest, readable, record_bytes, records, records_from, since,
    WalEntryKind, WalRecord,
};
use crate::storage::segment::{
    self, all_intact, all_records, appended, grown, next_start, reaching, segment_name, truncated,
    SegmentView,
};

verus! {

/// Reading from a number on gives exactly the entries with that number or a higher
/// one, in their order.
pub proof fn lemma_since_filters(rs: Seq<WalRecord>, offset: u64)
    ensures
        since(rs, offset) == rs.filter(|r: WalRecord| r.seq >= offset),
    decreases rs.len(),
{
    let f = |r: WalRecord| r.seq >= offset;
    reveal(Seq::filter);
    if rs.len() > 0 {
        lemma_since_filters(rs.drop_last(), offset);
    }
    assert(since(rs, offset) =~= rs.filter(f));
}

/// An entry can be read back as long as its number, its kind and its payload fit into
/// 64 MiB.
pub proof fn lemma_readable(r: WalRecord)
    ensures
        readable(r) <==> 9 + r.payload.len() <= 67108864,
{
    codec::lemma_u64_le_len(r.seq);
}

/// A record has its length and the checksum of its body ahead of the body, which has
/// the number, the kind and the payload.
pub proof fn lemma_record_layout(r: WalRecord)
    requires
        9 + r.payload.len() <= u32::MAX,
    ensures
        record_bytes(r).len() == 17 + r.payload.len(),
        u32_at(record_bytes(r), 0) == 9 + r.payload.len(),
        u32_at(record_bytes(r), 4) == crc32(record_bytes(r).skip(8)),
        u64_at(record_bytes(r), 8) == r.seq,
        record_bytes(r)[16] == (match r.kind {
            WalEntryKind::Put => 0u8,
            WalEntryKind::Delete => 1u8,
            WalEntryKind::Commit => 2u8,
        }),
        record_bytes(r).skip(17) == r.payload,
{
    let b = body_bytes(r);
    let s = record_bytes(r);
    codec::lemma_u64_le_len(r.seq);
    codec::lemma_u32_le_len(b.len() as u32);
    codec::lemma_u32_le_len(crc32(b));
    assert(s.subrange(0, 4) =~= u32_le(b.len() as u32));
    codec::lemma_u32_read_back(s, 0, b.len() as u32);
    assert(s.subrange(4, 8) =~= u32_le(crc32(b)));
    codec::lemma_u32_read_back(s, 4, crc32(b));
    assert(s.skip(8) =~= b);
    assert(s.subrange(8, 16) =~= u64_le(r.seq));
    codec::lemma_u64_read_back(s, 8, r.seq);
    assert(s.skip(17) =~= r.payload);
}

/// A segment is cut off as soon as it has its size, and not before: after an append
/// the active segment is below it, and a new one was begun exactly if the one that
/// took the entry is not.
pub proof fn lemma_rotates(segs: Seq<SegmentView>, r: WalRecord, max_bytes: u64)
    requires
        segs.len() > 0,
        max_bytes > 0,
        segs.last().image.len() < max_bytes,
    ensures
        ({
            let n = appended(segs, r, max_bytes);
            let size = segs.last().image.len() + record_bytes(r).len();
            &&& n.last().image.len() < max_bytes
            &&& size < max_bytes ==> n.len() == segs.len()
            &&& size >= max_bytes ==> n.len() == segs.len() + 1 && n.last().image.len() == 0
                && n.last().last is None
            &&& n[segs.len() - 1].image == segs.last().image + record_bytes(r)
            &&& n[segs.len() - 1].name == segs.last().name
            &&& forall|i: int| 0 <= i < segs.len() - 1 ==> #[trigger] n[i] == segs[i]
        }),
{
    let g = grown(segs, r);
    assert(g.last() == segs.last().extended(r));
    assert(g[segs.len() - 1] == g.last());
}

/// A new segment is named by a number above that of every entry and of the active
/// segment.
pub proof fn lemma_new_segment(segs: Seq<SegmentView>, r: WalRecord, max_bytes: u64, i: int)
    requires
        segs.len() > 0,
        all_intact(segs),
        readable(r),
        appended(segs, r, max_bytes).len() > segs.len(),
        next_start(grown(segs, r)) <= u64::MAX,
        0 <= i < all_records(segs).len(),
    ensures
        appended(segs, r, max_bytes).last().start > all_records(segs)[i].seq,
        appended(segs, r, max_bytes).last().start > r.seq,
        appended(segs, r, max_bytes).last().start > segs.last().start,
        appended(segs, r, max_bytes).last().name == segment_name(
            appended(segs, r, max_bytes).last().start,
        ),
{
    let g = grown(segs, r);
    segment::lemma_grown_records(segs, r);
    segment::lemma_highest_of_all(g);
    record::lemma_highest(all_records(g));
    let all = all_records(g);
    assert(all[i] == all_records(segs)[i]);
    assert(all[all.len() - 1] == r);
}

/// Discarding below a number removes every segment, except for the active one, in
/// which no entry has that number or a higher one; so of those that are left each has
/// such an entry. The active one stays.
pub proof fn lemma_truncates_all(segs: Seq<SegmentView>, before: u64, i: int)
    requires
        segs.len() > 0,
        all_intact(segs),
        0 <= i < truncated(segs, before).len() - 1,
    ensures
        truncated(segs, before).last() == segs.last(),
        segs.drop_last().contains(truncated(segs, before)[i]),
        exists|k: int|
            0 <= k < records(truncated(segs, before)[i].image).len() && (
            #[trigger] records(truncated(segs, before)[i].image)[k]).seq >= before,
{
    let d = segs.drop_last();
    segment::lemma_split(d, before);
    let s = reaching(d, before)[i];
    assert(truncated(segs, before)[i] == s);
    assert(d.contains(s));
    let k = d.index_of(s);
    assert(segs[k].intact());
    record::lemma_highest(records(s.image));
    let x = choose|x: int|
        0 <= x < records(s.image).len() && (#[trigger] records(s.image)[x]).seq == highest(
            records(s.image),
        ).unwrap();
    assert(records(s.image)[x].seq >= before);
}

/// A segment that has an entry with the number or a higher one stays.
pub proof fn lemma_truncates_no_more(segs: Seq<SegmentView>, before: u64, i: int, k: int)
    requires
        segs.len() > 0,
        all_intact(segs),
        0 <= i < segs.len(),
        0 <= k < records(segs[i].image).len(),
        records(segs[i].image)[k].seq >= before,
    ensures
        truncated(segs, before).contains(segs[i]),
{
    let d = segs.drop_last();
    let n = truncated(segs, before);
    if i < d.len() {
        assert(d[i] == segs[i]);
        segment::lemma_split(d, before);
        record::lemma_highest(records(segs[i].image));
        assert(segs[i].intact());
        let x = reaching(d, before).index_of(segs[i]);
        assert(n[x] == segs[i]);
    } else {
        assert(n[n.len() - 1] == segs[i]);
    }
}

/// Reading stops at a record that is not whole: one whose end is missing, that has no
/// room for a number and a kind or is longer than any may be, whose checksum is not
/// that of its body, or whose kind is none.
pub proof fn lemma_stops_at_damage(s: Seq<u8>, at: int)
    requires
        0 <= at <= s.len(),
        at + 8 > s.len() || at + 8 + u32_at(s, at) > s.len() || u32_at(s, at) < 9 || u32_at(s, at)
            > 67_108_864 || crc32(s.subrange(at + 8, at + 8 + u32_at(s, at))) != u32_at(s, at + 4)
            || s[at + 16] > 2,
    ensures
        records_from(s, at).len() == 0,
        good_end(s, at) == at,
{
    if at + 8 <= s.len() && at + 8 + u32_at(s, at) <= s.len() && u32_at(s, at) >= 9 {
        assert(s.subrange(at + 8, at + 8 + u32_at(s, at))[8] == s[at + 16]);
    }
}

} // verus!
