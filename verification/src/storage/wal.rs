//! Write-ahead log.
//!
//! The log is a list of segments. A segment is a file named
//! `wal-<start_seq, 20 digits>.log`, so that a sorted directory listing is in
//! sequence order. The active segment is the highest-numbered one; entries go
//! there. Once it holds `max_segment_bytes` a new segment is cut.
//!
//! Opening the log scans each segment, stops at the first place where no whole
//! record stands, and cuts the file back to the last good byte, so that a
//! write torn by a crash leaves a clean tail.

use vstd::prelude::*;
use vstd::string::StringExecFns;

use crate::codec;
use crate::storage::disk::{effect_views, performed_all, DiskEffect, EffectView, Files};
use crate::storage::record::{
    self, good_end, higher, highest, readable, record_bytes, records, since, views, WalEntry,
    WalRecord,
};
use crate::storage::segment::{
    all_intact, all_records, append_effects, appended, distinct_names, found_in, full, grown,
    highest_last, lemma_append_mirrors, lemma_appended, lemma_found_wf, lemma_fresh,
    lemma_highest_of_all, lemma_reaching_suffices, lemma_truncate_mirrors, lemma_truncated,
    next_start, open_effects, opened, place_of, reaching, remove_effects, rotate_effects,
    segment_files, segment_name, segment_start, segments_wf, settled, truncated, SegmentView,
};
use crate::text::{self, joined};
use crate::types::Error;

pub use crate::storage::segment::WalConfig;

verus! {

pub type WalOffset = u64;

/// An append-only log of entries that carry sequence numbers.
pub trait Wal: Sized {
    /// What the log relies on.
    spec fn wf(&self) -> bool;

    /// Every entry that was appended can be read back.
    spec fn intact(&self) -> bool;

    /// The entries that can be read back, in the order of the log.
    spec fn entries(&self) -> Seq<WalRecord>;

    /// The machine has room for the entry.
    spec fn has_room(&self, entry: WalRecord) -> bool;

    /// The entry will be readable behind what the log holds.
    spec fn keeps(&self, entry: WalRecord) -> bool;

    /// Appends an entry, and names it by its sequence number.
    fn append(&mut self, entry: WalEntry) -> (r: Result<WalOffset, Error>)
        requires
            old(self).wf(),
            old(self).has_room(entry@),
        ensures
            final(self).wf(),
            r matches Ok(offset) ==> offset == entry.seq,
            r is Ok && old(self).intact() && old(self).keeps(entry@) ==> final(self).intact()
                && final(self).entries() == old(self).entries().push(entry@),
    ;

    /// Makes everything appended so far durable.
    fn sync(&mut self) -> (r: Result<(), Error>)
        requires
            old(self).wf(),
        ensures
            final(self).wf(),
            final(self).intact() == old(self).intact(),
            final(self).entries() == old(self).entries(),
    ;

    /// All entries with `seq >= offset`, in the order of the log.
    fn read_from(&self, offset: WalOffset) -> (r: Result<Vec<WalEntry>, Error>)
        requires
            self.wf(),
        ensures
            r matches Ok(v) ==> self.intact() ==> views(v@) == since(self.entries(), offset),
    ;

    /// Discards entries below `before`, never one at or above it.
    fn truncate(&mut self, before: WalOffset) -> (r: Result<(), Error>)
        requires
            old(self).wf(),
        ensures
            final(self).wf(),
            r is Ok && old(self).intact() ==> final(self).intact() && since(
                final(self).entries(),
                before,
            ) == since(old(self).entries(), before),
    ;

    /// The highest `seq` known to the log, or `None` if it is empty.
    fn last_seq(&self) -> (r: Result<Option<u64>, Error>)
        requires
            self.wf(),
        ensures
            r matches Ok(last) ==> self.intact() ==> last == highest(self.entries()),
    ;
}

// ---- in memory ------------------------------------------------------------

/// A log that lives in memory.
pub struct MemWal {
    entries: Vec<WalEntry>,
}

impl MemWal {
    pub fn new() -> (w: Self)
        ensures
            w.wf(),
            w.entries() == Seq::<WalRecord>::empty(),
    {
        let w = Self { entries: Vec::new() };
        assert(views(w.entries@) =~= Seq::<WalRecord>::empty());
        w
    }
}

impl Wal for MemWal {
    open spec fn wf(&self) -> bool {
        true
    }

    open spec fn intact(&self) -> bool {
        true
    }

    closed spec fn entries(&self) -> Seq<WalRecord> {
        views(self.entries@)
    }

    open spec fn has_room(&self, entry: WalRecord) -> bool {
        true
    }

    open spec fn keeps(&self, entry: WalRecord) -> bool {
        true
    }

    fn append(&mut self, entry: WalEntry) -> (r: Result<WalOffset, Error>)
        ensures
            r is Ok,
    {
        let seq = entry.seq;
        self.entries.push(entry);
        assert(views(self.entries@) =~= views(old(self).entries@).push(entry@));
        Ok(seq)
    }

    fn sync(&mut self) -> (r: Result<(), Error>)
        ensures
            r is Ok,
    {
        Ok(())
    }

    fn read_from(&self, offset: WalOffset) -> (r: Result<Vec<WalEntry>, Error>)
        ensures
            r is Ok,
    {
        let mut out: Vec<WalEntry> = Vec::new();
        let mut i: usize = 0;
        let ghost all = views(self.entries@);
        assert(views(out@) =~= Seq::<WalRecord>::empty());
        while i < self.entries.len()
            invariant
                i <= self.entries.len(),
                all == views(self.entries@),
                views(out@) == since(all.take(i as int), offset),
            decreases self.entries.len() - i,
        {
            let ghost prev = out@;
            if self.entries[i].seq >= offset {
                let e = self.entries[i].dup();
                out.push(e);
                assert(views(out@) =~= views(prev).push(e@));
            }
            proof {
                record::lemma_since_push(all.take(i as int), all[i as int], offset);
                assert(all.take(i + 1) =~= all.take(i as int).push(all[i as int]));
            }
            i += 1;
        }
        assert(all.take(i as int) =~= all);
        Ok(out)
    }

    fn truncate(&mut self, before: WalOffset) -> (r: Result<(), Error>)
        ensures
            r is Ok,
            final(self).entries() == since(old(self).entries(), before),
    {
        let ghost all = views(self.entries@);
        let mut i: usize = 0;
        let ghost mut k: int = 0;
        assert(all.take(0) =~= Seq::<WalRecord>::empty());
        assert(views(self.entries@).take(0) =~= Seq::<WalRecord>::empty());
        while i < self.entries.len()
            invariant
                i <= self.entries.len(),
                all == views(old(self).entries@),
                0 <= k <= all.len(),
                self.entries.len() - i == all.len() - k,
                views(self.entries@).take(i as int) == since(all.take(k), before),
                views(self.entries@).skip(i as int) == all.skip(k),
            decreases self.entries.len() - i,
        {
            let ghost prev = self.entries@;
            let ghost vp = views(prev);
            let ghost r = vp[i as int];
            proof {
                assert(vp.skip(i as int)[0] == all.skip(k)[0]);
                assert(r == all[k]);
                record::lemma_since_push(all.take(k), all[k], before);
                assert(all.take(k + 1) =~= all.take(k).push(all[k]));
                assert(all.skip(k + 1) =~= all.skip(k).skip(1));
            }
            if self.entries[i].seq >= before {
                proof {
                    assert(vp.take(i + 1) =~= vp.take(i as int).push(r));
                    assert(vp.skip(i + 1) =~= vp.skip(i as int).skip(1));
                }
                i += 1;
            } else {
                self.entries.remove(i);
                proof {
                    assert(views(self.entries@) =~= vp.remove(i as int));
                    assert(vp.remove(i as int).take(i as int) =~= vp.take(i as int));
                    assert(vp.remove(i as int).skip(i as int) =~= vp.skip(i as int).skip(1));
                }
            }
            proof {
                k = k + 1;
            }
        }
        proof {
            assert(all.take(k) =~= all);
            assert(views(self.entries@).take(i as int) =~= views(self.entries@));
            lemma_since_twice(all, before);
        }
        Ok(())
    }

    fn last_seq(&self) -> (r: Result<Option<u64>, Error>)
        ensures
            r == Ok::<Option<u64>, Error>(highest(self.entries())),
    {
        let mut last: Option<u64> = None;
        let mut i: usize = 0;
        let ghost all = views(self.entries@);
        assert(all.take(0) =~= Seq::<WalRecord>::empty());
        while i < self.entries.len()
            invariant
                i <= self.entries.len(),
                all == views(self.entries@),
                last == highest(all.take(i as int)),
            decreases self.entries.len() - i,
        {
            last = Some(later(last, self.entries[i].seq));
            assert(all.take(i + 1).drop_last() =~= all.take(i as int));
            assert(all.take(i + 1).last() == all[i as int]);
            i += 1;
        }
        assert(all.take(i as int) =~= all);
        Ok(last)
    }
}

/// Selecting twice selects nothing more.
pub proof fn lemma_since_twice(rs: Seq<WalRecord>, offset: u64)
    ensures
        since(since(rs, offset), offset) == since(rs, offset),
    decreases rs.len(),
{
    if rs.len() > 0 {
        lemma_since_twice(rs.drop_last(), offset);
        record::lemma_since_push(since(rs.drop_last(), offset), rs.last(), offset);
    }
}

/// The larger of `seq` and what was highest before.
fn later(last: Option<u64>, seq: u64) -> (r: u64)
    ensures
        r == higher(last, seq),
{
    match last {
        Some(l) => if l > seq {
            l
        } else {
            seq
        },
        None => seq,
    }
}

// ---- in segments ------------------------------------------------------------

/// One file of the log.
#[derive(Debug)]
pub struct Segment {
    name: String,
    start_seq: u64,
    /// Highest `seq` written to this segment, or `None` if it is empty.
    last_seq: Option<u64>,
    /// What the file holds.
    image: Vec<u8>,
}

impl Segment {
    pub closed spec fn view(&self) -> SegmentView {
        SegmentView {
            name: self.name@,
            start: self.start_seq,
            last: self.last_seq,
            image: self.image@,
        }
    }
}

/// What each segment of a list is.
pub open spec fn segment_views(segs: Seq<Segment>) -> Seq<SegmentView> {
    Seq::new(segs.len(), |i: int| segs[i]@)
}

// ---- the log -------------------------------------------------------------------

/// A log kept in segment files.
pub struct DiskWal {
    config: WalConfig,
    /// Sorted by `start_seq` ascending. The last element is the active segment.
    segments: Vec<Segment>,
    effects: Vec<DiskEffect>,
}

/// What a directory listing says.
pub open spec fn listing_view(listing: Seq<(String, Vec<u8>)>) -> Seq<(Seq<char>, Seq<u8>)> {
    Seq::new(listing.len(), |i: int| (listing[i].0@, listing[i].1@))
}

/// The name of the segment that starts at `start_seq`.
pub fn segment_filename(start_seq: u64) -> (s: String)
    ensures
        s@ == segment_name(start_seq),
{
    text::numbered_text("wal-", start_seq, ".log")
}

/// The start that a file name gives, if it is the name of a segment.
pub fn parse_segment_start(name: &str) -> (r: Option<u64>)
    ensures
        r == segment_start(name@),
{
    text::parse_numbered("wal-", name, ".log")
}

/// Reads a segment file and cuts it back to its records.
pub fn recover_segment(name: String, start_seq: u64, content: Vec<u8>) -> (s: Segment)
    ensures
        s@ == SegmentView::recovered(name@, start_seq, content@),
{
    let (entries, good_bytes) = record::read_records(content.as_slice());
    let mut last_seq: Option<u64> = None;
    let mut i: usize = 0;
    let ghost all = views(entries@);
    assert(all.take(0) =~= Seq::<WalRecord>::empty());
    while i < entries.len()
        invariant
            i <= entries.len(),
            all == views(entries@),
            last_seq == highest(all.take(i as int)),
        decreases entries.len() - i,
    {
        last_seq = Some(later(last_seq, entries[i].seq));
        assert(all.take(i + 1).drop_last() =~= all.take(i as int));
        assert(all.take(i + 1).last() == all[i as int]);
        i += 1;
    }
    assert(all.take(i as int) =~= all);
    let ghost whole = content@;
    let mut image = content;
    proof {
        record::lemma_good_end_bounds(whole, 0);
    }
    image.truncate(good_bytes);
    assert(image@ =~= whole.take(good_end(whole, 0)));
    Segment { name, start_seq, last_seq, image }
}

impl DiskWal {
    /// The segments, the active one last.
    pub closed spec fn segs(&self) -> Seq<SegmentView> {
        segment_views(self.segments@)
    }

    pub closed spec fn config(&self) -> WalConfig {
        self.config
    }

    /// The effects that the host has not taken yet.
    pub closed spec fn queued(&self) -> Seq<EffectView> {
        effect_views(self.effects@)
    }

    /// What the files of the log hold once the queued effects are carried out.
    pub open spec fn files(&self) -> Files {
        segment_files(self.config().dir@, self.segs())
    }

    /// Opens the log on what its directory holds: the names and the contents
    /// of the files, in any order.
    pub fn open(config: WalConfig, listing: Vec<(String, Vec<u8>)>) -> (w: Self)
        ensures
            w.wf(),
            w.intact(),
            w.config() == config,
            w.segs() == opened(listing_view(listing@)),
            w.queued() == open_effects(config.dir@, found_in(listing_view(listing@))),
    {
        let ghost lv = listing_view(listing@);
        let mut segments: Vec<Segment> = Vec::new();
        assert(segment_views(segments@) =~= Seq::<SegmentView>::empty());
        assert(lv.take(0) =~= Seq::<(Seq<char>, Seq<u8>)>::empty());
        for item in it: listing
            invariant
                lv == listing_view(it.seq()),
                segment_views(segments@) == found_in(lv.take(it.index())),
        {
            let ghost k = it.index();
            let ghost before = segments@;
            let (name, content) = item;
            proof {
                assert(lv.take(k + 1).drop_last() =~= lv.take(k));
                assert(lv.take(k + 1).last() == (name@, content@));
                lemma_found_wf(lv.take(k));
            }
            match parse_segment_start(name.as_str()) {
                Some(start_seq) => {
                    let seg = recover_segment(name, start_seq, content);
                    let at = Self::place(&segments, start_seq);
                    segments.insert(at, seg);
                    assert(segment_views(segments@) =~= segment_views(before).insert(
                        at as int,
                        seg@,
                    ));
                },
                None => {},
            }
        }
        assert(lv.take(lv.len() as int) =~= lv);
        proof {
            lemma_found_wf(lv);
        }
        let mut effects: Vec<DiskEffect> = Vec::new();
        assert(effect_views(effects@) =~= Seq::<EffectView>::empty());
        if segments.len() == 0 {
            let name = segment_filename(0);
            effects.push(
                DiskEffect::Create { file: text::join_text(config.dir.as_str(), name.as_str()) },
            );
            segments.push(Segment { name, start_seq: 0, last_seq: None, image: Vec::new() });
            proof {
                lemma_fresh(0);
                assert(segments@[0]@.image =~= Seq::<u8>::empty());
                assert(segment_views(segments@) =~= seq![SegmentView::fresh(0)]);
                assert(effect_views(effects@) =~= open_effects(config.dir@, found_in(lv)));
            }
        } else {
            let ghost found = found_in(lv);
            let mut i: usize = 0;
            while i < segments.len()
                invariant
                    i <= segments.len(),
                    segments.len() > 0,
                    found == segment_views(segments@),
                    effect_views(effects@) == open_effects(config.dir@, found).take(i as int),
                decreases segments.len() - i,
            {
                let ghost ev = effect_views(effects@);
                effects.push(
                    DiskEffect::Cut {
                        file: text::join_text(config.dir.as_str(), segments[i].name.as_str()),
                        len: segments[i].image.len(),
                    },
                );
                assert(found[i as int] == segments@[i as int]@);
                assert(effect_views(effects@) =~= ev.push(effects@.last()@));
                assert(open_effects(config.dir@, found).take(i + 1) =~= ev.push(
                    open_effects(config.dir@, found)[i as int],
                ));
                i += 1;
            }
            assert(open_effects(config.dir@, found).take(i as int) =~= open_effects(
                config.dir@,
                found,
            ));
        }
        Self { config, segments, effects }
    }

    /// Where a segment that starts at `start` goes.
    fn place(segments: &Vec<Segment>, start: u64) -> (at: usize)
        ensures
            at == place_of(segment_views(segments@), start),
            at <= segments.len(),
    {
        let ghost segs = segment_views(segments@);
        let mut n: usize = segments.len();
        assert(segs.take(n as int) =~= segs);
        while n > 0 && segments[n - 1].start_seq > start
            invariant
                n <= segments.len(),
                segs == segment_views(segments@),
                place_of(segs.take(n as int), start) == place_of(segs, start),
            decreases n,
        {
            assert(segs.take(n as int).last() == segs[n - 1]);
            assert(segs.take(n as int).drop_last() =~= segs.take(n - 1));
            n -= 1;
        }
        assert(n > 0 ==> segs.take(n as int).last() == segs[n - 1]);
        n
    }

    /// The number of the active segment.
    pub fn active_start(&self) -> (n: u64)
        requires
            self.wf(),
        ensures
            n == self.segs().last().start,
    {
        let l = self.segments.len() - 1;
        assert(self.segs()[l as int] == self.segments@[l as int]@);
        self.segments[l].start_seq
    }

    /// Whether the log has a number for another segment after an entry with
    /// this sequence number.
    pub fn can_append(&self, seq: u64) -> (r: bool)
        requires
            self.wf(),
        ensures
            r == (seq < u64::MAX && self.segs().last().start < u64::MAX && highest_last(self.segs())
                != Some(u64::MAX)),
            r ==> forall|entry: WalRecord| entry.seq == seq ==> #[trigger] self.has_room(entry),
    {
        let r = seq < u64::MAX && self.active_start() < u64::MAX && match self.highest_seq() {
            Some(h) => h < u64::MAX,
            None => true,
        };
        proof {
            if r {
                assert forall|entry: WalRecord| entry.seq == seq implies #[trigger] self.has_room(
                    entry,
                ) by {
                    let g = grown(self.segs(), entry);
                    assert(g.drop_last() =~= self.segs().drop_last());
                }
            }
        }
        r
    }

    /// How many segment files there are.
    pub fn segment_count(&self) -> (n: usize)
        ensures
            n == self.segs().len(),
    {
        self.segments.len()
    }

    /// Hands the queued effects to the host.
    pub fn take_effects(&mut self) -> (effects: Vec<DiskEffect>)
        ensures
            effect_views(effects@) == old(self).queued(),
            final(self).queued() == Seq::<EffectView>::empty(),
            final(self).segs() == old(self).segs(),
            final(self).config() == old(self).config(),
    {
        let mut effects: Vec<DiskEffect> = Vec::new();
        std::mem::swap(&mut effects, &mut self.effects);
        assert(effect_views(self.effects@) =~= Seq::<EffectView>::empty());
        effects
    }

    /// The highest sequence number of all segments.
    fn highest_seq(&self) -> (r: Option<u64>)
        ensures
            r == highest_last(self.segs()),
    {
        let ghost segs = self.segs();
        let mut last: Option<u64> = None;
        let mut i: usize = 0;
        assert(segs.take(0) =~= Seq::<SegmentView>::empty());
        while i < self.segments.len()
            invariant
                i <= self.segments.len(),
                segs == segment_views(self.segments@),
                last == highest_last(segs.take(i as int)),
            decreases self.segments.len() - i,
        {
            assert(segs.take(i + 1).drop_last() =~= segs.take(i as int));
            assert(segs.take(i + 1).last() == segs[i as int]);
            match self.segments[i].last_seq {
                Some(l) => {
                    last = Some(later(last, l));
                },
                None => {},
            }
            i += 1;
        }
        assert(segs.take(i as int) =~= segs);
        last
    }

    /// The path of the active segment.
    fn active_path(&self) -> (s: String)
        requires
            self.segs().len() > 0,
        ensures
            s@ == joined(self.config().dir@, self.segs().last().name),
    {
        let n = self.segments.len();
        text::join_text(self.config.dir.as_str(), self.segments[n - 1].name.as_str())
    }

    /// Cuts a new segment.
    fn rotate(&mut self)
        requires
            old(self).segs().len() > 0,
            next_start(old(self).segs()) <= u64::MAX,
        ensures
            final(self).config() == old(self).config(),
            final(self).segs() == old(self).segs().push(
                SegmentView::fresh(next_start(old(self).segs()) as u64),
            ),
            final(self).queued() == old(self).queued() + rotate_effects(
                old(self).config(),
                old(self).segs(),
            ),
    {
        let n = self.segments.len();
        let last = self.segments[n - 1].start_seq;
        let next = later(self.highest_seq(), last) + 1;
        let active = self.active_path();
        self.effects.push(DiskEffect::Sync { file: active });
        let name = segment_filename(next);
        let path = text::join_text(self.config.dir.as_str(), name.as_str());
        self.effects.push(DiskEffect::Create { file: path });
        self.segments.push(
            Segment { name, start_seq: next, last_seq: None, image: Vec::new() },
        );
        proof {
            let fresh = SegmentView::fresh(next_start(old(self).segs()) as u64);
            assert(self.segments@.last()@.image =~= fresh.image);
            assert(self.segs() =~= old(self).segs().push(fresh));
            assert(self.queued() =~= old(self).queued() + rotate_effects(
                old(self).config(),
                old(self).segs(),
            ));
        }
    }
}

impl Wal for DiskWal {
    open spec fn wf(&self) -> bool {
        segments_wf(self.segs())
    }

    open spec fn intact(&self) -> bool {
        all_intact(self.segs())
    }

    open spec fn entries(&self) -> Seq<WalRecord> {
        all_records(self.segs())
    }

    open spec fn has_room(&self, entry: WalRecord) -> bool {
        let g = grown(self.segs(), entry);
        full(g, self.config().max_segment_bytes) ==> next_start(g) <= u64::MAX
    }

    open spec fn keeps(&self, entry: WalRecord) -> bool {
        readable(entry)
    }

    fn append(&mut self, entry: WalEntry) -> (r: Result<WalOffset, Error>)
        ensures
            r is Ok,
            final(self).config() == old(self).config(),
            final(self).segs() == appended(
                old(self).segs(),
                entry@,
                old(self).config().max_segment_bytes,
            ),
            final(self).queued() == old(self).queued() + append_effects(
                old(self).config(),
                old(self).segs(),
                entry@,
            ),
            performed_all(
                old(self).files(),
                append_effects(old(self).config(), old(self).segs(), entry@),
            ) == final(self).files(),
    {
        let ghost segs = self.segs();
        let ghost config = self.config;
        let ghost g = grown(segs, entry@);
        let seq = entry.seq;
        let mut buf: Vec<u8> = Vec::new();
        record::encode_record(&entry, &mut buf);
        assert(buf@ =~= record_bytes(entry@));
        let n = self.segments.len();
        codec_append(&mut self.segments[n - 1].image, &buf);
        let last = self.segments[n - 1].last_seq;
        self.segments[n - 1].last_seq = Some(later(last, seq));
        proof {
            assert(self.segs().last() == segs.last().extended(entry@));
            assert(self.segs() =~= g);
        }
        let file = self.active_path();
        self.effects.push(DiskEffect::Append { file, data: buf, sync: self.config.sync_on_append });
        let ghost write = EffectView::Append {
            file: joined(config.dir@, segs.last().name),
            data: record_bytes(entry@),
            sync: config.sync_on_append,
        };
        proof {
            assert(self.queued() =~= old(self).queued().push(write));
            lemma_append_mirrors(config, segs, entry@);
            lemma_appended(segs, entry@, config.max_segment_bytes);
        }
        let size = self.segments[n - 1].image.len() as u64;
        if size >= self.config.max_segment_bytes {
            self.rotate();
        }
        proof {
            assert(self.queued() =~= old(self).queued() + append_effects(config, segs, entry@));
        }
        Ok(seq)
    }

    fn sync(&mut self) -> (r: Result<(), Error>)
        ensures
            r is Ok,
            final(self).config() == old(self).config(),
            final(self).segs() == old(self).segs(),
            final(self).queued() == old(self).queued().push(
                EffectView::Sync {
                    file: joined(old(self).config().dir@, old(self).segs().last().name),
                },
            ),
    {
        let file = self.active_path();
        self.effects.push(DiskEffect::Sync { file });
        assert(self.queued() =~= old(self).queued().push(self.effects@.last()@));
        Ok(())
    }

    fn read_from(&self, offset: WalOffset) -> (r: Result<Vec<WalEntry>, Error>)
        ensures
            r matches Ok(v) && views(v@) == since(
                all_records(reaching(self.segs(), offset)),
                offset,
            ),
    {
        let ghost segs = self.segs();
        let mut out: Vec<WalEntry> = Vec::new();
        let mut i: usize = 0;
        assert(segs.take(0) =~= Seq::<SegmentView>::empty());
        assert(views(out@) =~= Seq::<WalRecord>::empty());
        while i < self.segments.len()
            invariant
                i <= self.segments.len(),
                segs == segment_views(self.segments@),
                views(out@) == since(all_records(reaching(segs.take(i as int), offset)), offset),
            decreases self.segments.len() - i,
        {
            let ghost rest = reaching(segs.take(i as int), offset);
            let ghost seg = segs[i as int];
            let interesting = match self.segments[i].last_seq {
                Some(last) => last >= offset,
                None => false,
            };
            assert(segs.take(i + 1).drop_last() =~= segs.take(i as int));
            assert(segs.take(i + 1).last() == seg);
            if interesting {
                let (entries, _) = record::read_records(self.segments[i].image.as_slice());
                let ghost got = views(out@);
                let ghost rs = records(seg.image);
                assert(rs.take(0) =~= Seq::<WalRecord>::empty());
                assert(got + Seq::<WalRecord>::empty() =~= got);
                let mut j: usize = 0;
                while j < entries.len()
                    invariant
                        j <= entries.len(),
                        rs == views(entries@),
                        views(out@) == got + since(rs.take(j as int), offset),
                    decreases entries.len() - j,
                {
                    let ghost prev = out@;
                    proof {
                        record::lemma_since_push(rs.take(j as int), rs[j as int], offset);
                        assert(rs.take(j + 1) =~= rs.take(j as int).push(rs[j as int]));
                    }
                    if entries[j].seq >= offset {
                        let e = entries[j].dup();
                        out.push(e);
                        assert(views(out@) =~= views(prev).push(e@));
                        assert(views(out@) =~= got + since(rs.take(j + 1), offset));
                    }
                    j += 1;
                }
                proof {
                    assert(rs.take(j as int) =~= rs);
                    record::lemma_since_add(all_records(rest), rs, offset);
                    assert(rest.push(seg).drop_last() =~= rest);
                }
            }
            i += 1;
        }
        assert(segs.take(i as int) =~= segs);
        proof {
            if self.intact() {
                lemma_reaching_suffices(segs, offset);
            }
        }
        Ok(out)
    }

    fn truncate(&mut self, before: WalOffset) -> (r: Result<(), Error>)
        ensures
            r is Ok,
            final(self).config() == old(self).config(),
            final(self).segs() == truncated(old(self).segs(), before),
            final(self).queued() == old(self).queued() + remove_effects(
                old(self).config().dir@,
                settled(old(self).segs().drop_last(), before),
            ),
            distinct_names(old(self).segs()) ==> performed_all(
                old(self).files(),
                remove_effects(
                    old(self).config().dir@,
                    settled(old(self).segs().drop_last(), before),
                ),
            ) == final(self).files(),
    {
        let ghost segs = self.segs();
        let ghost old_segs = segs.drop_last();
        let ghost active = segs.last();
        let ghost dir = self.config.dir@;
        let ghost queued = self.queued();
        let mut i: usize = 0;
        let ghost mut k: int = 0;
        proof {
            assert(old_segs.take(0) =~= Seq::<SegmentView>::empty());
            assert(reaching(old_segs.take(0), before) =~= Seq::<SegmentView>::empty());
            assert(segs =~= reaching(old_segs.take(0), before) + old_segs.skip(0).push(active));
            assert(remove_effects(dir, settled(old_segs.take(0), before)) =~= Seq::<
                EffectView,
            >::empty());
            assert(queued =~= queued + Seq::<EffectView>::empty());
        }
        while i + 1 < self.segments.len()
            invariant
                i < self.segments.len(),
                0 <= k <= old_segs.len(),
                i == reaching(old_segs.take(k), before).len(),
                self.config == old(self).config,
                dir == self.config.dir@,
                queued == old(self).queued(),
                self.segments.len() - i == old_segs.len() - k + 1,
                segment_views(self.segments@) == reaching(old_segs.take(k), before)
                    + old_segs.skip(k).push(active),
                effect_views(self.effects@) == queued + remove_effects(
                    dir,
                    settled(old_segs.take(k), before),
                ),
            decreases self.segments.len() - i,
        {
            let ghost kept = reaching(old_segs.take(k), before);
            let ghost gone = settled(old_segs.take(k), before);
            let ghost sv = segment_views(self.segments@);
            let ghost seg = old_segs[k];
            proof {
                assert(sv[i as int] == old_segs.skip(k).push(active)[0]);
                assert(sv[i as int] == seg);
                assert(old_segs.take(k + 1).drop_last() =~= old_segs.take(k));
                assert(old_segs.take(k + 1).last() == seg);
            }
            let removable = match self.segments[i].last_seq {
                Some(last) => last < before,
                None => true,
            };
            if removable {
                let path = text::join_text(
                    self.config.dir.as_str(),
                    self.segments[i].name.as_str(),
                );
                let ghost ev = effect_views(self.effects@);
                self.effects.push(DiskEffect::Remove { file: path });
                proof {
                    let e = EffectView::Remove { file: joined(dir, seg.name) };
                    assert(self.segments@[i as int]@ == seg);
                    assert(self.effects@.last()@ == e);
                    assert(effect_views(self.effects@) =~= ev.push(e));
                    assert(remove_effects(dir, gone.push(seg)) =~= remove_effects(dir, gone).push(
                        e,
                    ));
                }
                self.segments.remove(i);
                proof {
                    assert(segment_views(self.segments@) =~= sv.remove(i as int));
                    assert(sv.remove(i as int) =~= kept + old_segs.skip(k + 1).push(active));
                    assert(effect_views(self.effects@) =~= queued + remove_effects(
                        dir,
                        gone.push(seg),
                    ));
                }
            } else {
                proof {
                    assert(sv =~= kept.push(seg) + old_segs.skip(k + 1).push(active));
                }
                i += 1;
            }
            proof {
                k = k + 1;
            }
        }
        proof {
            assert(k == old_segs.len());
            assert(old_segs.take(k) =~= old_segs);
            assert(self.segs() =~= truncated(segs, before));
            lemma_truncated(segs, before);
            if distinct_names(segs) {
                lemma_truncate_mirrors(dir, segs, before);
            }
        }
        Ok(())
    }

    fn last_seq(&self) -> (r: Result<Option<u64>, Error>)
        ensures
            r == Ok::<Option<u64>, Error>(highest_last(self.segs())),
    {
        proof {
            if self.intact() {
                lemma_highest_of_all(self.segs());
            }
        }
        Ok(self.highest_seq())
    }
}

fn codec_append(image: &mut Vec<u8>, data: &Vec<u8>)
    ensures
        final(image)@ == old(image)@ + data@,
{
    codec::put_bytes(image, data.as_slice());
}

} // verus!
