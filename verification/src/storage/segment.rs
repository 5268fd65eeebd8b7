//! The segments of the log, as values.
//!
//! A segment is a file named `wal-<start_seq, 20 digits>.log`, so that a sorted
//! directory listing is in sequence order.

use vstd::prelude::*;

use crate::storage::disk::{self, performed, performed_all, EffectView, Files};
use crate::storage::record::{
    self, clean, good_end, higher, highest, readable, record_bytes, records, since, WalRecord,
};
use crate::text::{self, joined, number_between, numbered};

verus! {

#[derive(Debug, Clone)]
pub struct WalConfig {
    pub dir: String,
    pub max_segment_bytes: u64,
    /// Make every entry durable as it is appended.
    pub sync_on_append: bool,
}

impl WalConfig {
    /// Segments of 64 MiB in `dir`, durable with every append.
    pub fn new(dir: String) -> (c: Self)
        ensures
            c.dir == dir,
            c.max_segment_bytes == 64 * 1024 * 1024,
            c.sync_on_append,
    {
        Self { dir, max_segment_bytes: 64 * 1024 * 1024, sync_on_append: true }
    }
}

/// What a segment is.
pub struct SegmentView {
    pub name: Seq<char>,
    pub start: u64,
    pub last: Option<u64>,
    pub image: Seq<u8>,
}

/// The name of the segment that starts at `start`.
pub open spec fn segment_name(start: u64) -> Seq<char> {
    numbered("wal-"@, start, ".log"@)
}

/// The start that a file name gives, if it is the name of a segment.
pub open spec fn segment_start(name: Seq<char>) -> Option<u64> {
    number_between("wal-"@, name, ".log"@)
}

impl SegmentView {
    /// An empty segment.
    pub open spec fn fresh(start: u64) -> Self {
        SegmentView { name: segment_name(start), start, last: None, image: Seq::empty() }
    }

    /// The segment that recovery makes of a file.
    pub open spec fn recovered(name: Seq<char>, start: u64, content: Seq<u8>) -> Self {
        SegmentView {
            name,
            start,
            last: highest(records(content)),
            image: content.take(good_end(content, 0)),
        }
    }

    /// The name tells the start.
    pub open spec fn wf(self) -> bool {
        segment_start(self.name) == Some(self.start)
    }

    /// The segment holds whole records and nothing else, and `last` is the
    /// highest sequence number among them.
    pub open spec fn intact(self) -> bool {
        clean(self.image) && self.last == highest(records(self.image))
    }

    /// The segment after one more record.
    pub open spec fn extended(self, r: WalRecord) -> Self {
        SegmentView {
            last: Some(higher(self.last, r.seq)),
            image: self.image + record_bytes(r),
            ..self
        }
    }

    /// Some entry at or above `offset` may stand here.
    pub open spec fn reaches(self, offset: u64) -> bool {
        self.last is Some && self.last.unwrap() >= offset
    }
}

/// The records of all segments, in order.
pub open spec fn all_records(segs: Seq<SegmentView>) -> Seq<WalRecord>
    decreases segs.len(),
{
    if segs.len() == 0 {
        seq![]
    } else {
        all_records(segs.drop_last()) + records(segs.last().image)
    }
}

/// The highest sequence number of all segments.
pub open spec fn highest_last(segs: Seq<SegmentView>) -> Option<u64>
    decreases segs.len(),
{
    if segs.len() == 0 {
        None
    } else {
        match segs.last().last {
            Some(l) => Some(higher(highest_last(segs.drop_last()), l)),
            None => highest_last(segs.drop_last()),
        }
    }
}

/// The number of the segment after `segs`: above every sequence number and
/// above every segment.
pub open spec fn next_start(segs: Seq<SegmentView>) -> int {
    higher(highest_last(segs), segs.last().start) + 1
}

/// The segments after `r` went to the active one, before any rotation.
pub open spec fn grown(segs: Seq<SegmentView>, r: WalRecord) -> Seq<SegmentView> {
    segs.drop_last().push(segs.last().extended(r))
}

/// The active segment has reached its size.
pub open spec fn full(segs: Seq<SegmentView>, max_bytes: u64) -> bool {
    segs.last().image.len() >= max_bytes
}

/// The segments after appending `r`.
pub open spec fn appended(segs: Seq<SegmentView>, r: WalRecord, max_bytes: u64) -> Seq<SegmentView> {
    let g = grown(segs, r);
    if full(g, max_bytes) {
        g.push(SegmentView::fresh(next_start(g) as u64))
    } else {
        g
    }
}

/// The segments, in order, that may hold an entry at or above `offset`.
pub open spec fn reaching(segs: Seq<SegmentView>, offset: u64) -> Seq<SegmentView>
    decreases segs.len(),
{
    if segs.len() == 0 {
        seq![]
    } else {
        let rest = reaching(segs.drop_last(), offset);
        if segs.last().reaches(offset) {
            rest.push(segs.last())
        } else {
            rest
        }
    }
}

/// The segments, in order, that hold no entry at or above `offset`.
pub open spec fn settled(segs: Seq<SegmentView>, offset: u64) -> Seq<SegmentView>
    decreases segs.len(),
{
    if segs.len() == 0 {
        seq![]
    } else {
        let rest = settled(segs.drop_last(), offset);
        if segs.last().reaches(offset) {
            rest
        } else {
            rest.push(segs.last())
        }
    }
}

/// The segments after discarding what lies below `before`: the active one and
/// those that reach `before`.
pub open spec fn truncated(segs: Seq<SegmentView>, before: u64) -> Seq<SegmentView> {
    reaching(segs.drop_last(), before).push(segs.last())
}

/// Where a segment that starts at `start` goes: behind those that do not start later.
pub open spec fn place_of(segs: Seq<SegmentView>, start: u64) -> int
    decreases segs.len(),
{
    if segs.len() == 0 || segs.last().start <= start {
        segs.len() as int
    } else {
        place_of(segs.drop_last(), start)
    }
}

/// The segments that recovery finds in a directory listing, by start.
pub open spec fn found_in(listing: Seq<(Seq<char>, Seq<u8>)>) -> Seq<SegmentView>
    decreases listing.len(),
{
    if listing.len() == 0 {
        seq![]
    } else {
        let rest = found_in(listing.drop_last());
        let (name, content) = listing.last();
        match segment_start(name) {
            Some(start) => rest.insert(
                place_of(rest, start),
                SegmentView::recovered(name, start, content),
            ),
            None => rest,
        }
    }
}

/// The segments of a log that is opened on a directory.
pub open spec fn opened(listing: Seq<(Seq<char>, Seq<u8>)>) -> Seq<SegmentView> {
    let found = found_in(listing);
    if found.len() == 0 {
        seq![SegmentView::fresh(0)]
    } else {
        found
    }
}

/// Segments do not start before the ones ahead of them.
pub open spec fn in_order(segs: Seq<SegmentView>) -> bool {
    forall|i: int, j: int|
        0 <= i < j < segs.len() ==> (#[trigger] segs[i]).start <= (#[trigger] segs[j]).start
}

/// No two segments share a name.
pub open spec fn distinct_names(segs: Seq<SegmentView>) -> bool {
    forall|i: int, j: int|
        0 <= i < j < segs.len() ==> (#[trigger] segs[i]).name != (#[trigger] segs[j]).name
}

/// Each segment is sound, there is one, and they come in order.
pub open spec fn segments_wf(segs: Seq<SegmentView>) -> bool {
    &&& segs.len() > 0
    &&& forall|i: int| 0 <= i < segs.len() ==> (#[trigger] segs[i]).wf()
    &&& in_order(segs)
}

/// The files of the segments.
pub open spec fn segment_files(dir: Seq<char>, segs: Seq<SegmentView>) -> Files
    decreases segs.len(),
{
    if segs.len() == 0 {
        Map::empty()
    } else {
        segment_files(dir, segs.drop_last()).insert(
            joined(dir, segs.last().name),
            segs.last().image,
        )
    }
}

/// The effects of an append to the segments `segs`.
pub open spec fn append_effects(
    config: WalConfig,
    segs: Seq<SegmentView>,
    r: WalRecord,
) -> Seq<EffectView> {
    let file = joined(config.dir@, segs.last().name);
    let g = grown(segs, r);
    let write = seq![
        EffectView::Append { file, data: record_bytes(r), sync: config.sync_on_append },
    ];
    if full(g, config.max_segment_bytes) {
        write + rotate_effects(config, g)
    } else {
        write
    }
}

/// The effects of cutting a new segment.
pub open spec fn rotate_effects(config: WalConfig, segs: Seq<SegmentView>) -> Seq<EffectView> {
    seq![
        EffectView::Sync { file: joined(config.dir@, segs.last().name) },
        EffectView::Create { file: joined(config.dir@, segment_name(next_start(segs) as u64)) },
    ]
}

/// The effects of removing segments.
pub open spec fn remove_effects(dir: Seq<char>, segs: Seq<SegmentView>) -> Seq<EffectView> {
    Seq::new(segs.len(), |i: int| EffectView::Remove { file: joined(dir, segs[i].name) })
}

/// The effects of opening a log: each file is cut back to its records, and an
/// empty directory gets a first segment.
pub open spec fn open_effects(dir: Seq<char>, found: Seq<SegmentView>) -> Seq<EffectView> {
    if found.len() == 0 {
        seq![EffectView::Create { file: joined(dir, segment_name(0)) }]
    } else {
        Seq::new(
            found.len(),
            |i: int|
                EffectView::Cut { file: joined(dir, found[i].name), len: found[i].image.len() as int },
        )
    }
}

// ---- facts about segments ------------------------------------------------------

/// The number of a segment is read back from its name.
pub proof fn lemma_segment_name(start: u64)
    ensures
        segment_start(segment_name(start)) == Some(start),
{
    text::lemma_numbered_read_back("wal-"@, start, ".log"@);
}

/// A sorted listing has the segments in the order of their numbers.
pub proof fn lemma_segment_names_sort(a: u64, b: u64)
    requires
        a < b,
    ensures
        text::listed_before(segment_name(a), segment_name(b)),
{
    text::lemma_numbered_sorts("wal-"@, a, b, ".log"@);
}

pub proof fn lemma_fresh(start: u64)
    ensures
        SegmentView::fresh(start).wf(),
        records(Seq::<u8>::empty()) == Seq::<WalRecord>::empty(),
        clean(Seq::<u8>::empty()),
{
    lemma_segment_name(start);
    assert(record::record_at(Seq::<u8>::empty(), 0) is None);
    assert(records(Seq::<u8>::empty()) =~= Seq::<WalRecord>::empty());
}

pub proof fn lemma_recovered_wf(name: Seq<char>, start: u64, content: Seq<u8>)
    requires
        segment_start(name) == Some(start),
    ensures
        SegmentView::recovered(name, start, content).wf(),
        clean(SegmentView::recovered(name, start, content).image),
        records(SegmentView::recovered(name, start, content).image) == records(content),
{
    record::lemma_recovered(content);
    record::lemma_highest(records(content));
}

/// A readable record leaves an intact segment intact.
proof fn lemma_extended_intact(s: SegmentView, r: WalRecord)
    requires
        s.intact(),
        readable(r),
    ensures
        s.extended(r).intact(),
        records(s.extended(r).image) == records(s.image).push(r),
{
    record::lemma_append_record(s.image, r);
    assert(records(s.image).push(r).drop_last() =~= records(s.image));
}

/// Every segment is intact.
pub open spec fn all_intact(segs: Seq<SegmentView>) -> bool {
    forall|i: int| 0 <= i < segs.len() ==> (#[trigger] segs[i]).intact()
}

/// Every record of the log is short.
pub proof fn lemma_all_short(segs: Seq<SegmentView>)
    ensures
        forall|i: int|
            0 <= i < all_records(segs).len() ==> (#[trigger] all_records(segs)[i]).payload.len()
                <= record::MAX_RECORD_BODY,
    decreases segs.len(),
{
    if segs.len() > 0 {
        let a = all_records(segs.drop_last());
        let r = records(segs.last().image);
        lemma_all_short(segs.drop_last());
        record::lemma_records_short(segs.last().image, 0);
        assert forall|i: int| 0 <= i < (a + r).len() implies (#[trigger] (a + r)[i]).payload.len()
            <= record::MAX_RECORD_BODY by {
            if i < a.len() {
                assert((a + r)[i] == a[i]);
            } else {
                assert((a + r)[i] == r[i - a.len()]);
            }
        }
    }
}

/// The highest number of all segments is that of all records.
pub proof fn lemma_highest_of_all(segs: Seq<SegmentView>)
    requires
        all_intact(segs),
    ensures
        highest_last(segs) == highest(all_records(segs)),
    decreases segs.len(),
{
    if segs.len() > 0 {
        let rest = segs.drop_last();
        lemma_highest_of_all(rest);
        assert(segs.last() == segs[segs.len() - 1]);
        lemma_highest_add(all_records(rest), records(segs.last().image));
    }
}

proof fn lemma_highest_add(a: Seq<WalRecord>, b: Seq<WalRecord>)
    ensures
        highest(a + b) == (match highest(b) {
            Some(l) => Some(higher(highest(a), l)),
            None => highest(a),
        }),
    decreases b.len(),
{
    if b.len() == 0 {
        assert(a + b =~= a);
    } else {
        lemma_highest_add(a, b.drop_last());
        assert((a + b).drop_last() =~= a + b.drop_last());
    }
}

/// Segments that do not reach `offset` hold nothing from there on.
pub proof fn lemma_reaching_suffices(segs: Seq<SegmentView>, offset: u64)
    requires
        all_intact(segs),
    ensures
        since(all_records(reaching(segs, offset)), offset) == since(all_records(segs), offset),
        all_intact(reaching(segs, offset)),
    decreases segs.len(),
{
    if segs.len() > 0 {
        let rest = segs.drop_last();
        let l = segs.last();
        assert(l == segs[segs.len() - 1]);
        lemma_reaching_suffices(rest, offset);
        record::lemma_since_add(all_records(rest), records(l.image), offset);
        if l.reaches(offset) {
            let kept = reaching(rest, offset).push(l);
            assert(kept.drop_last() =~= reaching(rest, offset));
            record::lemma_since_add(
                all_records(reaching(rest, offset)),
                records(l.image),
                offset,
            );
        } else {
            record::lemma_highest(records(l.image));
            record::lemma_since_none(records(l.image), offset);
            assert(since(all_records(rest), offset) + Seq::<WalRecord>::empty() =~= since(
                all_records(rest),
                offset,
            ));
        }
    }
}

/// What is kept and what is settled stem from the same segments, and together
/// they are all of them.
pub proof fn lemma_split(segs: Seq<SegmentView>, offset: u64)
    ensures
        forall|i: int|
            0 <= i < reaching(segs, offset).len() ==> segs.contains(
                #[trigger] reaching(segs, offset)[i],
            ) && reaching(segs, offset)[i].reaches(offset),
        forall|i: int|
            0 <= i < settled(segs, offset).len() ==> segs.contains(
                #[trigger] settled(segs, offset)[i],
            ) && !settled(segs, offset)[i].reaches(offset),
        forall|i: int|
            0 <= i < segs.len() ==> (if (#[trigger] segs[i]).reaches(offset) {
                reaching(segs, offset).contains(segs[i])
            } else {
                settled(segs, offset).contains(segs[i])
            }),
    decreases segs.len(),
{
    if segs.len() > 0 {
        let rest = segs.drop_last();
        let l = segs.last();
        lemma_split(rest, offset);
        let kept = reaching(segs, offset);
        let gone = settled(segs, offset);
        assert(segs[segs.len() - 1] == l);
        assert forall|i: int| 0 <= i < kept.len() implies segs.contains(#[trigger] kept[i])
            && kept[i].reaches(offset) by {
            if i < reaching(rest, offset).len() {
                assert(kept[i] == reaching(rest, offset)[i]);
                let j = choose|j: int| 0 <= j < rest.len() && rest[j] == kept[i];
                assert(segs[j] == kept[i]);
            }
        }
        assert forall|i: int| 0 <= i < gone.len() implies segs.contains(#[trigger] gone[i])
            && !gone[i].reaches(offset) by {
            if i < settled(rest, offset).len() {
                assert(gone[i] == settled(rest, offset)[i]);
                let j = choose|j: int| 0 <= j < rest.len() && rest[j] == gone[i];
                assert(segs[j] == gone[i]);
            }
        }
        assert forall|i: int| 0 <= i < segs.len() implies (if (#[trigger] segs[i]).reaches(
            offset,
        ) {
            kept.contains(segs[i])
        } else {
            gone.contains(segs[i])
        }) by {
            if i < rest.len() {
                assert(rest[i] == segs[i]);
                if segs[i].reaches(offset) {
                    let j = choose|j: int|
                        0 <= j < reaching(rest, offset).len() && reaching(rest, offset)[j]
                            == segs[i];
                    assert(kept[j] == segs[i]);
                } else {
                    let j = choose|j: int|
                        0 <= j < settled(rest, offset).len() && settled(rest, offset)[j]
                            == segs[i];
                    assert(gone[j] == segs[i]);
                }
            } else if l.reaches(offset) {
                assert(kept[kept.len() - 1] == l);
            } else {
                assert(gone[gone.len() - 1] == l);
            }
        }
    }
}

/// Segments that are discarded are segments of the log.
pub proof fn lemma_settled_members(segs: Seq<SegmentView>, offset: u64)
    ensures
        forall|i: int|
            0 <= i < settled(segs, offset).len() ==> segs.contains(
                #[trigger] settled(segs, offset)[i],
            ),
{
    lemma_split(segs, offset);
}

/// What is kept stays in order, under names that stay apart.
proof fn lemma_reaching_order(segs: Seq<SegmentView>, offset: u64)
    requires
        in_order(segs),
    ensures
        in_order(reaching(segs, offset)),
        distinct_names(segs) ==> distinct_names(reaching(segs, offset)),
    decreases segs.len(),
{
    if segs.len() > 0 {
        let rest = segs.drop_last();
        let l = segs.last();
        assert(in_order(rest)) by {
            assert forall|i: int, j: int| 0 <= i < j < rest.len() implies (
            #[trigger] rest[i]).start <= (#[trigger] rest[j]).start by {
                assert(segs[i].start <= segs[j].start);
            }
        }
        if distinct_names(segs) {
            assert forall|i: int, j: int| 0 <= i < j < rest.len() implies (
            #[trigger] rest[i]).name != (#[trigger] rest[j]).name by {
                assert(segs[i].name != segs[j].name);
            }
        }
        lemma_reaching_order(rest, offset);
        lemma_split(rest, offset);
        let kept = reaching(rest, offset);
        assert forall|i: int| 0 <= i < kept.len() implies (#[trigger] kept[i]).start <= l.start && (
        distinct_names(segs) ==> kept[i].name != l.name) by {
            let j = choose|j: int| 0 <= j < rest.len() && rest[j] == kept[i];
            assert(segs[j].start <= segs[segs.len() - 1].start);
            assert(segs[j] == kept[i]);
        }
    }
}

/// No segment starts at or above where the next one will.
pub proof fn lemma_next_start(segs: Seq<SegmentView>)
    requires
        segs.len() > 0,
        in_order(segs),
    ensures
        forall|i: int| 0 <= i < segs.len() ==> (#[trigger] segs[i]).start < next_start(segs),
{
    assert forall|i: int| 0 <= i < segs.len() implies (#[trigger] segs[i]).start < next_start(
        segs,
    ) by {
        assert(segs[i].start <= segs[segs.len() - 1].start);
    }
}

/// An append keeps the segments sound, in order and apart. If every entry so
/// far can be read back and the new one is not too long, the entries are those
/// from before and the new one.
pub proof fn lemma_appended(segs: Seq<SegmentView>, r: WalRecord, max_bytes: u64)
    requires
        segments_wf(segs),
        full(grown(segs, r), max_bytes) ==> next_start(grown(segs, r)) <= u64::MAX,
    ensures
        segments_wf(appended(segs, r, max_bytes)),
        distinct_names(segs) ==> distinct_names(appended(segs, r, max_bytes)),
        all_intact(segs) && readable(r) ==> all_intact(appended(segs, r, max_bytes))
            && all_records(appended(segs, r, max_bytes)) == all_records(segs).push(r),
{
    let g = grown(segs, r);
    let l = segs.last();
    let n = segs.len() - 1;
    assert(segs[n] == l);
    assert forall|i: int| 0 <= i < g.len() implies (#[trigger] g[i]).wf() && g[i].start
        == segs[i].start && g[i].name == segs[i].name by {
        assert(segs[i].wf());
    }
    assert(segments_wf(g)) by {
        assert forall|i: int, j: int| 0 <= i < j < g.len() implies (#[trigger] g[i]).start <= (
        #[trigger] g[j]).start by {
            assert(segs[i].start <= segs[j].start);
        }
    }
    if distinct_names(segs) {
        assert forall|i: int, j: int| 0 <= i < j < g.len() implies (#[trigger] g[i]).name != (
        #[trigger] g[j]).name by {
            assert(segs[i].name != segs[j].name);
        }
    }
    assert(g.drop_last() =~= segs.drop_last());
    if all_intact(segs) && readable(r) {
        lemma_extended_intact(l, r);
        assert forall|i: int| 0 <= i < g.len() implies (#[trigger] g[i]).intact() by {
            assert(segs[i].intact());
        }
        assert(all_records(g) =~= all_records(segs).push(r));
    }
    if full(g, max_bytes) {
        let start = next_start(g) as u64;
        let f = SegmentView::fresh(start);
        let a = g.push(f);
        lemma_fresh(start);
        lemma_next_start(g);
        assert forall|i: int| 0 <= i < g.len() implies (#[trigger] g[i]).name != f.name by {
            assert(g[i].wf());
            assert(f.wf());
        }
        assert(a.drop_last() =~= g);
        if all_intact(segs) && readable(r) {
            assert(all_records(a) =~= all_records(g));
        }
    }
}

/// The entry stands behind the others before any segment is cut.
pub proof fn lemma_grown_records(segs: Seq<SegmentView>, r: WalRecord)
    requires
        segs.len() > 0,
        all_intact(segs),
        readable(r),
    ensures
        all_intact(grown(segs, r)),
        all_records(grown(segs, r)) == all_records(segs).push(r),
{
    let g = grown(segs, r);
    let l = segs.last();
    assert(segs[segs.len() - 1] == l);
    lemma_extended_intact(l, r);
    assert(g.drop_last() =~= segs.drop_last());
    assert forall|i: int| 0 <= i < g.len() implies (#[trigger] g[i]).intact() by {
        assert(segs[i].intact());
    }
    assert(all_records(g) =~= all_records(segs).push(r));
}

/// What an append adds to what can be read back is the entry.
pub proof fn lemma_one_appended(segs: Seq<SegmentView>, r: WalRecord, max_bytes: u64)
    requires
        segs.len() > 0,
        all_intact(segs),
        readable(r),
    ensures
        all_intact(appended(segs, r, max_bytes)),
        all_records(appended(segs, r, max_bytes)) == all_records(segs).push(r),
{
    let g = grown(segs, r);
    lemma_grown_records(segs, r);
    if full(g, max_bytes) {
        let f = SegmentView::fresh(next_start(g) as u64);
        let a = g.push(f);
        lemma_fresh(next_start(g) as u64);
        assert(a.drop_last() =~= g);
        assert(all_records(a) =~= all_records(g));
    }
}

/// What the host is told at an append turns the old files into the new ones.
pub proof fn lemma_append_mirrors(config: WalConfig, segs: Seq<SegmentView>, r: WalRecord)
    requires
        segs.len() > 0,
    ensures
        performed_all(segment_files(config.dir@, segs), append_effects(config, segs, r))
            == segment_files(config.dir@, appended(segs, r, config.max_segment_bytes)),
{
    let dir = config.dir@;
    let g = grown(segs, r);
    let l = segs.last();
    let file = joined(dir, l.name);
    let f0 = segment_files(dir, segs);
    let write = EffectView::Append { file, data: record_bytes(r), sync: config.sync_on_append };
    let none = Seq::<EffectView>::empty();
    assert(seq![write] =~= none.push(write));
    disk::lemma_performed_push(f0, none, write);
    assert(g.drop_last() =~= segs.drop_last());
    let f1 = performed(f0, write);
    assert(f1 =~= segment_files(dir, g));
    if full(g, config.max_segment_bytes) {
        let es = rotate_effects(config, g);
        assert(es =~= none.push(es[0]).push(es[1]));
        disk::lemma_performed_add(f0, seq![write], es);
        disk::lemma_performed_push(f1, none, es[0]);
        disk::lemma_performed_push(f1, none.push(es[0]), es[1]);
        let f = SegmentView::fresh(next_start(g) as u64);
        assert(g.push(f).drop_last() =~= g);
    }
}

/// Discarding keeps the segments sound, in order and apart, and keeps every
/// entry at or above `before`.
pub proof fn lemma_truncated(segs: Seq<SegmentView>, before: u64)
    requires
        segments_wf(segs),
    ensures
        segments_wf(truncated(segs, before)),
        distinct_names(segs) ==> distinct_names(truncated(segs, before)),
        all_intact(segs) ==> all_intact(truncated(segs, before)) && since(
            all_records(truncated(segs, before)),
            before,
        ) == since(all_records(segs), before),
{
    let rest = segs.drop_last();
    let l = segs.last();
    let kept = reaching(rest, before);
    let t = truncated(segs, before);
    assert(segs[segs.len() - 1] == l);
    assert(in_order(rest)) by {
        assert forall|i: int, j: int| 0 <= i < j < rest.len() implies (#[trigger] rest[i]).start
            <= (#[trigger] rest[j]).start by {
            assert(segs[i].start <= segs[j].start);
        }
    }
    if distinct_names(segs) {
        assert forall|i: int, j: int| 0 <= i < j < rest.len() implies (#[trigger] rest[i]).name
            != (#[trigger] rest[j]).name by {
            assert(segs[i].name != segs[j].name);
        }
    }
    lemma_reaching_order(rest, before);
    lemma_split(rest, before);
    assert forall|i: int| 0 <= i < kept.len() implies (#[trigger] kept[i]).wf() && kept[i].start
        <= l.start && (distinct_names(segs) ==> kept[i].name != l.name) by {
        let j = choose|j: int| 0 <= j < rest.len() && rest[j] == kept[i];
        assert(segs[j].start <= segs[segs.len() - 1].start);
        assert(segs[j].wf());
        assert(segs[j] == kept[i]);
    }
    assert(t.drop_last() =~= kept);
    if all_intact(segs) {
        assert forall|i: int| 0 <= i < rest.len() implies (#[trigger] rest[i]).intact() by {
            assert(segs[i].intact());
        }
        lemma_reaching_suffices(rest, before);
        record::lemma_since_add(all_records(kept), records(l.image), before);
        record::lemma_since_add(all_records(rest), records(l.image), before);
    }
}

/// Which files the segments have, and what stands in them.
pub proof fn lemma_segment_files(dir: Seq<char>, segs: Seq<SegmentView>)
    requires
        distinct_names(segs),
    ensures
        forall|f: Seq<char>| #[trigger]
            segment_files(dir, segs).contains_key(f) <==> exists|i: int|
                0 <= i < segs.len() && f == joined(dir, (#[trigger] segs[i]).name),
        forall|i: int|
            0 <= i < segs.len() ==> segment_files(dir, segs)[joined(
                dir,
                (#[trigger] segs[i]).name,
            )] == segs[i].image,
    decreases segs.len(),
{
    if segs.len() > 0 {
        let rest = segs.drop_last();
        let l = segs.last();
        assert forall|i: int, j: int| 0 <= i < j < rest.len() implies (#[trigger] rest[i]).name
            != (#[trigger] rest[j]).name by {
            assert(segs[i].name != segs[j].name);
        }
        lemma_segment_files(dir, rest);
        let m = segment_files(dir, segs);
        assert forall|f: Seq<char>| #[trigger] m.contains_key(f) <==> exists|i: int|
            0 <= i < segs.len() && f == joined(dir, (#[trigger] segs[i]).name) by {
            if m.contains_key(f) {
                if f == joined(dir, l.name) {
                    assert(f == joined(dir, segs[segs.len() - 1].name));
                } else {
                    assert(segment_files(dir, rest).contains_key(f));
                    let i = choose|i: int|
                        0 <= i < rest.len() && f == joined(dir, (#[trigger] rest[i]).name);
                    assert(f == joined(dir, segs[i].name));
                }
            }
            if exists|i: int|
                0 <= i < segs.len() && f == joined(dir, (#[trigger] segs[i]).name) {
                let i = choose|i: int|
                    0 <= i < segs.len() && f == joined(dir, (#[trigger] segs[i]).name);
                if i < rest.len() {
                    assert(f == joined(dir, rest[i].name));
                    assert(segment_files(dir, rest).contains_key(f));
                }
            }
        }
        assert forall|i: int| 0 <= i < segs.len() implies m[joined(
            dir,
            (#[trigger] segs[i]).name,
        )] == segs[i].image by {
            if i < rest.len() {
                assert(segs[i].name != segs[segs.len() - 1].name);
                if joined(dir, segs[i].name) == joined(dir, l.name) {
                    text::lemma_joined_injective(dir, segs[i].name, l.name);
                }
                assert(segment_files(dir, rest)[joined(dir, rest[i].name)] == rest[i].image);
            }
        }
    }
}

/// Removing files leaves the others as they were.
proof fn lemma_removed_files(files: Files, dir: Seq<char>, gone: Seq<SegmentView>)
    ensures
        forall|f: Seq<char>| #[trigger]
            performed_all(files, remove_effects(dir, gone)).contains_key(f)
                <==> files.contains_key(f) && forall|i: int|
                0 <= i < gone.len() ==> f != joined(dir, (#[trigger] gone[i]).name),
        forall|f: Seq<char>| #[trigger]
            performed_all(files, remove_effects(dir, gone)).contains_key(f) ==> performed_all(
                files,
                remove_effects(dir, gone),
            )[f] == files[f],
    decreases gone.len(),
{
    let es = remove_effects(dir, gone);
    if gone.len() > 0 {
        let rest = gone.drop_last();
        lemma_removed_files(files, dir, rest);
        assert(es.drop_last() =~= remove_effects(dir, rest));
        let m = performed_all(files, es);
        let p = performed_all(files, remove_effects(dir, rest));
        let lf = joined(dir, gone[gone.len() - 1].name);
        assert(m == p.remove(lf));
        assert forall|f: Seq<char>| #[trigger] m.contains_key(f) <==> files.contains_key(f)
            && forall|i: int| 0 <= i < gone.len() ==> f != joined(dir, (#[trigger] gone[i]).name) by {
            if m.contains_key(f) {
                assert(p.contains_key(f));
                assert forall|i: int| 0 <= i < gone.len() implies f != joined(
                    dir,
                    (#[trigger] gone[i]).name,
                ) by {
                    if i < rest.len() {
                        assert(f != joined(dir, rest[i].name));
                    }
                }
            }
            if files.contains_key(f) && forall|i: int|
                0 <= i < gone.len() ==> f != joined(dir, (#[trigger] gone[i]).name) {
                assert forall|i: int| 0 <= i < rest.len() implies f != joined(
                    dir,
                    (#[trigger] rest[i]).name,
                ) by {
                    assert(f != joined(dir, gone[i].name));
                }
                assert(p.contains_key(f));
            }
        }
        assert forall|f: Seq<char>| #[trigger] m.contains_key(f) implies m[f] == files[f] by {
            assert(p.contains_key(f));
        }
    }
}

/// Sequence numbers go up along the log.
pub open spec fn seqs_ascend(rs: Seq<WalRecord>) -> bool {
    forall|i: int, j: int|
        0 <= i < j < rs.len() ==> (#[trigger] rs[i]).seq < (#[trigger] rs[j]).seq
}

/// If numbers go up along the log, the segments that reach `offset` hold a tail
/// of it.
proof fn lemma_reaching_tail(segs: Seq<SegmentView>, offset: u64) -> (n: int)
    requires
        all_intact(segs),
        seqs_ascend(all_records(segs)),
    ensures
        0 <= n <= all_records(segs).len(),
        all_records(reaching(segs, offset)) == all_records(segs).skip(n),
        all_records(segs).len() > 0 && all_records(segs).last().seq < offset ==> n
            == all_records(segs).len(),
    decreases segs.len(),
{
    let all = all_records(segs);
    if segs.len() == 0 {
        assert(all.skip(0) =~= all);
        0
    } else {
        let d = segs.drop_last();
        let a = all_records(d);
        let r = records(segs.last().image);
        assert(segs[segs.len() - 1].intact());
        assert forall|i: int| 0 <= i < d.len() implies (#[trigger] d[i]).intact() by {
            assert(segs[i].intact());
        }
        assert forall|i: int, j: int| 0 <= i < j < a.len() implies (#[trigger] a[i]).seq < (
        #[trigger] a[j]).seq by {
            assert(all[i].seq < all[j].seq);
        }
        let n = lemma_reaching_tail(d, offset);
        record::lemma_highest(r);
        if segs.last().reaches(offset) {
            let k = choose|k: int| 0 <= k < r.len() && (#[trigger] r[k]).seq == highest(r).unwrap();
            assert(all[a.len() + k] == r[k]);
            assert(all.last().seq >= r[k].seq) by {
                if k < r.len() - 1 {
                    assert(all[a.len() + k].seq < all[all.len() - 1].seq);
                }
            }
            let kept = reaching(d, offset);
            assert(kept.push(segs.last()).drop_last() =~= kept);
            assert(all_records(kept.push(segs.last())) =~= a.skip(n) + r);
            assert(a.skip(n) + r =~= all.skip(n));
            n
        } else if r.len() == 0 {
            assert(all =~= a);
            n
        } else {
            assert(all[all.len() - 1] == r[r.len() - 1]);
            assert(r[r.len() - 1].seq <= highest(r).unwrap());
            if a.len() > 0 {
                assert(all[a.len() - 1].seq < all[all.len() - 1].seq);
                assert(all[a.len() - 1] == a.last());
            }
            assert(a.skip(n) =~= Seq::<WalRecord>::empty());
            assert(all.skip(all.len() as int) =~= Seq::<WalRecord>::empty());
            all.len() as int
        }
    }
}

/// If numbers go up along the log, discarding leaves a tail of it.
pub proof fn lemma_truncated_tail(segs: Seq<SegmentView>, before: u64) -> (n: int)
    requires
        segments_wf(segs),
        all_intact(segs),
        seqs_ascend(all_records(segs)),
    ensures
        0 <= n <= all_records(segs).len(),
        all_records(truncated(segs, before)) == all_records(segs).skip(n),
{
    let d = segs.drop_last();
    let a = all_records(d);
    let r = records(segs.last().image);
    let all = all_records(segs);
    assert forall|i: int| 0 <= i < d.len() implies (#[trigger] d[i]).intact() by {
        assert(segs[i].intact());
    }
    assert forall|i: int, j: int| 0 <= i < j < a.len() implies (#[trigger] a[i]).seq < (
    #[trigger] a[j]).seq by {
        assert(all[i].seq < all[j].seq);
    }
    let n = lemma_reaching_tail(d, before);
    let kept = reaching(d, before);
    assert(kept.push(segs.last()).drop_last() =~= kept);
    assert(all_records(kept.push(segs.last())) =~= a.skip(n) + r);
    assert(a.skip(n) + r =~= all.skip(n));
    n
}

/// What the host is told when entries are discarded turns the old files into
/// the new ones.
pub proof fn lemma_truncate_mirrors(dir: Seq<char>, segs: Seq<SegmentView>, before: u64)
    requires
        segments_wf(segs),
        distinct_names(segs),
    ensures
        performed_all(
            segment_files(dir, segs),
            remove_effects(dir, settled(segs.drop_last(), before)),
        ) == segment_files(dir, truncated(segs, before)),
{
    let rest = segs.drop_last();
    let l = segs.last();
    let gone = settled(rest, before);
    let kept = reaching(rest, before);
    let t = truncated(segs, before);
    let n = segs.len() - 1;
    lemma_truncated(segs, before);
    lemma_split(rest, before);
    lemma_segment_files(dir, segs);
    lemma_segment_files(dir, t);
    lemma_removed_files(segment_files(dir, segs), dir, gone);
    let a = performed_all(segment_files(dir, segs), remove_effects(dir, gone));
    let b = segment_files(dir, t);
    assert forall|f: Seq<char>| a.contains_key(f) implies #[trigger] b.contains_key(f) && b[f]
        == a[f] by {
        assert(segment_files(dir, segs).contains_key(f));
        let i = choose|i: int| 0 <= i < segs.len() && f == joined(dir, (#[trigger] segs[i]).name);
        if i < n {
            assert(rest[i] == segs[i]);
            if segs[i].reaches(before) {
                let j = choose|j: int| 0 <= j < kept.len() && kept[j] == segs[i];
                assert(t[j] == segs[i]);
            } else {
                let j = choose|j: int| 0 <= j < gone.len() && gone[j] == segs[i];
                assert(f == joined(dir, gone[j].name));
            }
        } else {
            assert(t[t.len() - 1] == segs[n]);
        }
    }
    assert forall|f: Seq<char>| #[trigger] b.contains_key(f) implies a.contains_key(f) by {
        let i = choose|i: int| 0 <= i < t.len() && f == joined(dir, (#[trigger] t[i]).name);
        let k = if i < kept.len() {
            assert(t[i] == kept[i]);
            let k = choose|k: int| 0 <= k < rest.len() && rest[k] == kept[i];
            assert(segs[k] == t[i]);
            k
        } else {
            assert(segs[n] == t[i]);
            n
        };
        assert(segs[k] == t[i]);
        assert forall|j: int| 0 <= j < gone.len() implies f != joined(
            dir,
            (#[trigger] gone[j]).name,
        ) by {
            let q = choose|q: int| 0 <= q < rest.len() && rest[q] == gone[j];
            assert(segs[q] == gone[j]);
            if f == joined(dir, gone[j].name) {
                text::lemma_joined_injective(dir, gone[j].name, t[i].name);
                assert(q == k);
            }
        }
    }
    assert(a =~= b);
}

pub proof fn lemma_place_of(segs: Seq<SegmentView>, start: u64)
    requires
        in_order(segs),
    ensures
        0 <= place_of(segs, start) <= segs.len(),
        forall|i: int|
            0 <= i < place_of(segs, start) ==> (#[trigger] segs[i]).start <= start,
        forall|i: int|
            place_of(segs, start) <= i < segs.len() ==> (#[trigger] segs[i]).start > start,
    decreases segs.len(),
{
    if segs.len() > 0 {
        if segs.last().start <= start {
            assert forall|i: int| 0 <= i < segs.len() implies (#[trigger] segs[i]).start <= start by {
                assert(segs[segs.len() - 1].start <= start);
            }
        } else {
            let rest = segs.drop_last();
            lemma_place_of(rest, start);
            let at = place_of(segs, start);
            assert forall|i: int| at <= i < segs.len() implies (#[trigger] segs[i]).start > start by {
                if i < rest.len() {
                    assert(rest[i].start > start);
                }
            }
            assert forall|i: int| 0 <= i < at implies (#[trigger] segs[i]).start <= start by {
                assert(rest[i].start <= start);
            }
        }
    }
}

pub proof fn lemma_found_wf(listing: Seq<(Seq<char>, Seq<u8>)>)
    ensures
        in_order(found_in(listing)),
        all_intact(found_in(listing)),
        forall|i: int| 0 <= i < found_in(listing).len() ==> (#[trigger] found_in(listing)[i]).wf(),
    decreases listing.len(),
{
    if listing.len() > 0 {
        let rest = found_in(listing.drop_last());
        lemma_found_wf(listing.drop_last());
        let (name, content) = listing.last();
        match segment_start(name) {
            Some(start) => {
                lemma_recovered_wf(name, start, content);
                lemma_place_of(rest, start);
            },
            None => {},
        }
    }
}

/// The records of two lists of segments, one after the other.
proof fn lemma_all_records_add(a: Seq<SegmentView>, b: Seq<SegmentView>)
    ensures
        all_records(a + b) == all_records(a) + all_records(b),
    decreases b.len(),
{
    if b.len() == 0 {
        assert(a + b =~= a);
        assert(all_records(a + b) =~= all_records(a) + all_records(b));
    } else {
        assert((a + b).drop_last() =~= a + b.drop_last());
        lemma_all_records_add(a, b.drop_last());
        assert(all_records(a + b) =~= all_records(a) + all_records(b));
    }
}

proof fn lemma_settled_add(a: Seq<SegmentView>, b: Seq<SegmentView>, offset: u64)
    ensures
        settled(a + b, offset) == settled(a, offset) + settled(b, offset),
    decreases b.len(),
{
    if b.len() == 0 {
        assert(a + b =~= a);
        assert(settled(a + b, offset) =~= settled(a, offset) + settled(b, offset));
    } else {
        assert((a + b).drop_last() =~= a + b.drop_last());
        lemma_settled_add(a, b.drop_last(), offset);
        assert(settled(a + b, offset) =~= settled(a, offset) + settled(b, offset));
    }
}

/// The first segment that does not reach `offset`.
pub proof fn lemma_first_settled(segs: Seq<SegmentView>, offset: u64) -> (p: int)
    requires
        settled(segs, offset).len() > 0,
    ensures
        0 <= p < segs.len(),
        segs[p] == settled(segs, offset)[0],
        settled(segs.remove(p), offset) == settled(segs, offset).drop_first(),
        !segs[p].reaches(offset),
        forall|q: int| 0 <= q < p ==> (#[trigger] segs[q]).reaches(offset),
    decreases segs.len(),
{
    let d = segs.drop_last();
    if settled(d, offset).len() > 0 {
        let p = lemma_first_settled(d, offset);
        assert forall|q: int| 0 <= q < p implies (#[trigger] segs[q]).reaches(offset) by {
            assert(d[q].reaches(offset));
        }
        assert(segs.remove(p).drop_last() =~= d.remove(p));
        assert(settled(segs.remove(p), offset) =~= settled(segs, offset).drop_first());
        p
    } else {
        let p = segs.len() - 1;
        assert forall|q: int| 0 <= q < p implies (#[trigger] segs[q]).reaches(offset) by {
            if !segs[q].reaches(offset) {
                assert(d =~= d.take(q) + (seq![segs[q]] + d.skip(q + 1)));
                lemma_settled_add(d.take(q), seq![segs[q]] + d.skip(q + 1), offset);
                lemma_settled_add(seq![segs[q]], d.skip(q + 1), offset);
                assert(seq![segs[q]].drop_last() =~= Seq::<SegmentView>::empty());
                assert(settled(seq![segs[q]].drop_last(), offset).len() == 0);
            }
        }
        assert(segs.remove(p) =~= d);
        assert(settled(segs.remove(p), offset) =~= settled(segs, offset).drop_first());
        p
    }
}

/// If numbers go up along the log, the log without the first segment that does
/// not reach `offset` is a tail of it.
pub proof fn lemma_segment_gone(dir: Seq<char>, segs: Seq<SegmentView>, p: int, offset: u64) -> (cut:
    int)
    requires
        segments_wf(segs),
        distinct_names(segs),
        all_intact(segs),
        seqs_ascend(all_records(segs)),
        0 <= p < segs.len() - 1,
        !segs[p].reaches(offset),
        forall|q: int| 0 <= q < p ==> (#[trigger] segs[q]).reaches(offset),
    ensures
        segments_wf(segs.remove(p)),
        distinct_names(segs.remove(p)),
        all_intact(segs.remove(p)),
        0 <= cut <= all_records(segs).len(),
        all_records(segs.remove(p)) == all_records(segs).skip(cut),
        segment_files(dir, segs.remove(p)) == segment_files(dir, segs).remove(
            joined(dir, segs[p].name),
        ),
{
    let n = segs.remove(p);
    let a = segs.take(p);
    let b = segs.skip(p + 1);
    let x = segs[p];
    let all = all_records(segs);
    assert forall|i: int| 0 <= i < n.len() implies (#[trigger] n[i]) == segs[if i < p {
        i
    } else {
        i + 1
    }] by {}
    assert(segments_wf(n)) by {
        assert forall|i: int| 0 <= i < n.len() implies (#[trigger] n[i]).wf() by {
            assert(segs[if i < p {
                i
            } else {
                i + 1
            }].wf());
        }
        assert forall|i: int, j: int| 0 <= i < j < n.len() implies (#[trigger] n[i]).start <= (
        #[trigger] n[j]).start by {
            let i2 = if i < p {
                i
            } else {
                i + 1
            };
            let j2 = if j < p {
                j
            } else {
                j + 1
            };
            assert(segs[i2].start <= segs[j2].start);
        }
    }
    assert forall|i: int, j: int| 0 <= i < j < n.len() implies (#[trigger] n[i]).name != (
    #[trigger] n[j]).name by {
        let i2 = if i < p {
            i
        } else {
            i + 1
        };
        let j2 = if j < p {
            j
        } else {
            j + 1
        };
        assert(segs[i2].name != segs[j2].name);
    }
    assert forall|i: int| 0 <= i < n.len() implies (#[trigger] n[i]).intact() by {
        assert(segs[if i < p {
            i
        } else {
            i + 1
        }].intact());
    }
    lemma_files_gone(dir, segs, p);
    assert(segs =~= a + (seq![x] + b));
    assert(n =~= a + b);
    lemma_all_records_add(a, seq![x] + b);
    lemma_all_records_add(seq![x], b);
    lemma_all_records_add(a, b);
    let r = records(x.image);
    assert(seq![x].drop_last() =~= Seq::<SegmentView>::empty());
    assert(all_records(seq![x]) =~= r) by {
        assert(all_records(seq![x].drop_last()) == Seq::<WalRecord>::empty());
    }
    if r.len() == 0 {
        assert(all_records(n) =~= all.skip(0));
        0
    } else {
        assert(p == 0) by {
            if p > 0 {
                let f = segs[0];
                let fr = records(f.image);
                assert(f.reaches(offset));
                assert(f.intact() && x.intact());
                record::lemma_highest(fr);
                record::lemma_highest(r);
                let k = choose|k: int|
                    0 <= k < fr.len() && (#[trigger] fr[k]).seq == highest(fr).unwrap();
                assert(a =~= seq![f] + a.drop_first());
                lemma_all_records_add(seq![f], a.drop_first());
                assert(seq![f].drop_last() =~= Seq::<SegmentView>::empty());
                assert(all_records(seq![f]) =~= fr) by {
                    assert(all_records(seq![f].drop_last()) == Seq::<WalRecord>::empty());
                }
                let at = all_records(a).len() as int;
                assert(all[k] == fr[k]);
                assert(all[at] == r[0]);
                assert(all[k].seq < all[at].seq);
            }
        }
        assert(a =~= Seq::<SegmentView>::empty());
        assert(all_records(a) == Seq::<WalRecord>::empty());
        assert(all_records(n) =~= all.skip(r.len() as int));
        r.len() as int
    }
}

/// One segment less is one file less.
proof fn lemma_files_gone(dir: Seq<char>, segs: Seq<SegmentView>, p: int)
    requires
        distinct_names(segs),
        0 <= p < segs.len(),
    ensures
        segment_files(dir, segs.remove(p)) == segment_files(dir, segs).remove(
            joined(dir, segs[p].name),
        ),
    decreases segs.len(),
{
    let l = segs.last();
    let d = segs.drop_last();
    let n = segs.remove(p);
    let f = joined(dir, segs[p].name);
    assert forall|i: int, j: int| 0 <= i < j < d.len() implies (#[trigger] d[i]).name != (
    #[trigger] d[j]).name by {
        assert(segs[i].name != segs[j].name);
    }
    if p == segs.len() - 1 {
        assert(n =~= d);
        lemma_segment_files(dir, d);
        if segment_files(dir, d).contains_key(f) {
            let i = choose|i: int| 0 <= i < d.len() && f == joined(dir, (#[trigger] d[i]).name);
            text::lemma_joined_injective(dir, d[i].name, l.name);
            assert(segs[i].name != segs[p].name);
        }
        assert(segment_files(dir, n) =~= segment_files(dir, segs).remove(f));
    } else {
        lemma_files_gone(dir, d, p);
        assert(n.drop_last() =~= d.remove(p));
        assert(n.last() == l);
        assert(segs[p].name != segs[segs.len() - 1].name);
        if joined(dir, l.name) == f {
            text::lemma_joined_injective(dir, l.name, segs[p].name);
        }
        assert(segment_files(dir, n) =~= segment_files(dir, segs).remove(f));
    }
}

} // verus!
