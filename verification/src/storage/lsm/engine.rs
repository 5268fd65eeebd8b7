//! The engine.
//!
//! Writes go to the log and to a sorted buffer. A full buffer is flushed to a
//! table, and the log lets go of what the table has. Reads ask the buffer, then
//! the tables, newest first. Once there are enough tables they are merged into
//! one, without overwritten values and without tombstones; a merged table keeps
//! its file for as long as a snapshot still reads it.

use std::sync::Arc;

use bytes::Bytes;
use vstd::prelude::*;

use crate::buffer::{self, octets, opt_octets};
use crate::ordered::{lists_in_order, restricted, OrderedMap};
use crate::storage::disk::{effect_views, DiskEffect, EffectView};
use crate::storage::engine::{
    op_views, pair_views, written, Batch, BatchOp, Contents, Cursor, Engine, ListCursor, Op,
    Snapshot,
};
use crate::storage::lsm::holding::{counted_by, holders, Holders};
use crate::storage::lsm::layers::{
    self, all_sound, answer, merged, stacked, table_views, visible,
};
use crate::storage::lsm::memtable::{
    self, charge, slot_views, unstamped, weight, MemTable, Slots, Stamped,
};
use crate::storage::lsm::outcome::{
    batch_outcome, batch_so_far, charges, compacted, flush_by_way, flush_outcome, flushed, is_flush,
    is_merge, is_sweep, kept, lemma_batch_begun, lemma_batch_done, lemma_batch_goes_on,
    lemma_charges_one, lemma_charges_split, op_of, settled_down, write_outcome,
};
use crate::storage::lsm::recover::{
    self, can_go_on, found_tables, opened_view, table_listing, to_replay, top_gen,
};
use crate::storage::lsm::replay::{self, payload_fault_text, record_of, replay_cost, replayed};
use crate::storage::lsm::sstable::{
    self, fault_text, fits, is_read_error, table_bytes, ReadFault, Slot, SsTable, SsTableWriter,
    TableView,
};
use crate::storage::lsm::state::{
    self, after_flush, after_merge, after_write, flush_effects, log_has_room, merge_effects,
    merge_tables, mirrored, newest_first, place_behind, sst_gen, sst_name, sweep_effects, LsmView,
};
use crate::storage::lsm::tables::{
    absorb, as_entries, insert_sst_sorted, is_found, lemma_live_listing, live_pairs,
    lookup, share_all, slots_of, sweep, used_by_others,
};
use crate::storage::record::{self, views, WalEntry, WalEntryKind};
use crate::storage::segment::{append_effects, grown, remove_effects, settled};
use crate::storage::wal::{DiskWal, Wal, WalConfig};
use crate::text::{self, joined};
use crate::types::{Error, Key, KeyRange, Value};

verus! {

#[derive(Debug, Clone)]
pub struct LsmConfig {
    pub dir: String,
    pub memtable_max_bytes: usize,
    /// Merge tables once there are this many.
    pub sst_compact_threshold: usize,
    pub wal: WalConfig,
}

impl LsmConfig {
    /// A buffer of 4 MiB, a merge at four tables, and the log in `wal` below `dir`.
    pub fn new(dir: String) -> (c: Self)
        ensures
            c.dir == dir,
            c.memtable_max_bytes == 4 * 1024 * 1024,
            c.sst_compact_threshold == 4,
            c.wal.dir@ == joined(dir@, "wal"@),
            c.wal.max_segment_bytes == 64 * 1024 * 1024,
            c.wal.sync_on_append,
    {
        let wal = WalConfig::new(text::join_text(dir.as_str(), "wal"));
        LsmConfig { memtable_max_bytes: 4 * 1024 * 1024, sst_compact_threshold: 4, wal, dir }
    }
}

/// The name of the file of a table.
pub fn sst_filename(generation: u64) -> (s: String)
    ensures
        s@ == sst_name(generation),
{
    text::numbered_text("sst-", generation, ".sst")
}

/// The generation that a file name gives, if it is the name of a table.
pub fn parse_sst_gen(name: &str) -> (r: Option<u64>)
    ensures
        r == sst_gen(name@),
{
    text::parse_numbered("sst-", name, ".sst")
}

// ---- the engine ----------------------------------------------------------------------

pub struct LsmEngine {
    config: LsmConfig,
    wal: DiskWal,
    memtable: MemTable,
    /// Newest first. What counts is the age of the entries, not of the file.
    sstables: Vec<Arc<SsTable>>,
    next_gen: u64,
    next_seq: u64,
    /// Tables that were merged into others. Their files go once no snapshot
    /// holds them.
    pending_delete: Vec<Arc<SsTable>>,
    effects: Vec<DiskEffect>,
}

impl LsmEngine {
    /// What the engine is.
    pub closed spec fn view(&self) -> LsmView {
        LsmView {
            dir: self.config.dir@,
            log_dir: self.wal.config().dir@,
            segs: self.wal.segs(),
            mem: self.memtable@,
            tables: table_views(self.sstables@),
            pending: table_views(self.pending_delete@),
            next_gen: self.next_gen,
            next_seq: self.next_seq,
        }
    }

    pub closed spec fn config(&self) -> LsmConfig {
        self.config
    }

    pub closed spec fn wal_config(&self) -> WalConfig {
        self.wal.config()
    }

    /// The effects that the host has not taken yet.
    pub closed spec fn queued(&self) -> Seq<EffectView> {
        effect_views(self.effects@)
    }

    /// The buffer is sound, and nothing is left in the queue of the log.
    pub closed spec fn parts_wf(&self) -> bool {
        self.memtable.wf() && self.wal.queued() == Seq::<EffectView>::empty()
    }

    /// Hands the queued effects to the host.
    pub fn take_effects(&mut self) -> (effects: Vec<DiskEffect>)
        requires
            old(self).parts_wf(),
        ensures
            final(self).parts_wf(),
            effect_views(effects@) == old(self).queued(),
            final(self).queued() == Seq::<EffectView>::empty(),
            final(self)@ == old(self)@,
            final(self).config() == old(self).config(),
            final(self).wal_config() == old(self).wal_config(),
    {
        let mut out: Vec<DiskEffect> = Vec::new();
        std::mem::swap(&mut out, &mut self.effects);
        assert(effect_views(self.effects@) =~= Seq::<EffectView>::empty());
        out
    }

    /// Opens the engine on its log, which was opened already, and on what its
    /// directory holds: the names and the contents of the files, in any order.
    /// The buffer starts with the entries of the log that no table has.
    pub fn open(config: LsmConfig, wal: DiskWal, listing: Vec<(String, Bytes)>) -> (r: Result<
        Self,
        Error,
    >)
        requires
            wal.wf(),
            wal.intact(),
            found_tables(config.dir@, table_listing(listing@)) matches Ok(ts) ==> can_go_on(
                wal.segs(),
                ts,
            ),
        ensures
            match found_tables(config.dir@, table_listing(listing@)) {
                Err(b) => r matches Err(e) && e.is_storage(fault_text(b.path, b.len, b.fault)),
                Ok(ts) => match replayed(Stamped::empty(), to_replay(wal.segs(), ts)) {
                    Err(f) => r matches Err(e) && e.is_storage(payload_fault_text(f)),
                    Ok(mem) => r matches Ok(x) && x.parts_wf() && x@ == opened_view(
                        config.dir@,
                        wal.config().dir@,
                        wal.segs(),
                        ts,
                        mem,
                    ) && x@.wf() && x.queued() == wal.queued() && x.config() == config
                        && x.wal_config() == wal.config(),
                },
            },
    {
        let ghost l = table_listing(listing@);
        let sstables = match Self::open_tables(&config, &listing) {
            Ok(sstables) => sstables,
            Err(e) => {
                return Err(e);
            },
        };
        let ghost ts = table_views(sstables@);
        let max_gen = Self::highest_gen(&sstables);
        let max_sst_seq: u64 = if sstables.len() > 0 {
            sstables[0].max_seq()
        } else {
            0
        };
        let ghost rs = to_replay(wal.segs(), ts);
        let memtable = match wal.read_from(max_sst_seq + 1) {
            Ok(entries) => match Self::replay(&entries) {
                Ok(memtable) => memtable,
                Err(e) => {
                    return Err(e);
                },
            },
            Err(e) => {
                return Err(e);
            },
        };
        proof {
            recover::lemma_opened_wf(
                config.dir@,
                wal.config().dir@,
                l,
                wal.segs(),
                ts,
                memtable@,
            );
        }
        let after_log: u64 = match wal.last_seq() {
            Ok(Some(last)) => last + 1,
            _ => 1,
        };
        let next_seq = if after_log >= max_sst_seq + 1 {
            after_log
        } else {
            max_sst_seq + 1
        };
        let mut wal = wal;
        let effects = wal.take_effects();
        let engine = LsmEngine {
            config,
            wal,
            memtable,
            sstables,
            next_gen: max_gen + 1,
            next_seq,
            pending_delete: Vec::new(),
            effects,
        };
        assert(table_views(engine.pending_delete@) =~= Seq::<TableView>::empty());
        Ok(engine)
    }

    /// Whether [`LsmEngine::open`] can go on from this log and these files: the
    /// numbers that they have used leave a next one.
    pub fn can_open(config: &LsmConfig, wal: &DiskWal, listing: &Vec<(String, Bytes)>) -> (r: bool)
        requires
            wal.wf(),
        ensures
            r == (found_tables(config.dir@, table_listing(listing@)) matches Ok(ts) ==> can_go_on(
                wal.segs(),
                ts,
            )),
    {
        let sstables = match Self::open_tables(config, listing) {
            Ok(sstables) => sstables,
            Err(_) => {
                return true;
            },
        };
        let max_sst_seq: u64 = if sstables.len() > 0 {
            sstables[0].max_seq()
        } else {
            0
        };
        if max_sst_seq == u64::MAX || Self::highest_gen(&sstables) == u64::MAX {
            return false;
        }
        match wal.last_seq() {
            Ok(Some(last)) => {
                if last == u64::MAX {
                    return false;
                }
            },
            _ => {},
        }
        match wal.read_from(max_sst_seq + 1) {
            Ok(entries) => Self::can_count(&entries),
            Err(_) => false,
        }
    }

    /// Reads the tables of a directory, newest first.
    fn open_tables(config: &LsmConfig, listing: &Vec<(String, Bytes)>) -> (r: Result<
        Vec<Arc<SsTable>>,
        Error,
    >)
        ensures
            match found_tables(config.dir@, table_listing(listing@)) {
                Ok(ts) => r matches Ok(v) && table_views(v@) == ts && newest_first(ts),
                Err(b) => r matches Err(e) && e.is_storage(fault_text(b.path, b.len, b.fault)),
            },
    {
        let ghost l = table_listing(listing@);
        let ghost dir = config.dir@;
        let mut v: Vec<Arc<SsTable>> = Vec::new();
        assert(l.take(0) =~= Seq::<(Seq<char>, Seq<u8>)>::empty());
        assert(table_views(v@) =~= Seq::<TableView>::empty());
        let mut i: usize = 0;
        while i < listing.len()
            invariant
                i <= listing.len(),
                l == table_listing(listing@),
                dir == config.dir@,
                found_tables(dir, l.take(i as int)) == Ok::<Seq<TableView>, recover::BadTable>(
                    table_views(v@),
                ),
                newest_first(table_views(v@)),
            decreases listing.len() - i,
        {
            let ghost rest = table_views(v@);
            proof {
                assert(l.take(i + 1).drop_last() =~= l.take(i as int));
                assert(l.take(i + 1).last() == l[i as int]);
            }
            let name = listing[i].0.as_str();
            match parse_sst_gen(name) {
                Some(generation) => {
                    let path = text::join_text(config.dir.as_str(), name);
                    match SsTable::open(path, generation, listing[i].1.clone()) {
                        Ok(sst) => {
                            proof {
                                recover::lemma_placed(rest, sst@);
                            }
                            let at = Self::place(&v, sst.max_seq());
                            v.insert(at, Arc::new(sst));
                            assert(table_views(v@) =~= rest.insert(at as int, sst@));
                        },
                        Err(e) => {
                            proof {
                                lemma_found_stops(dir, l, i + 1);
                            }
                            return Err(e);
                        },
                    }
                },
                None => {},
            }
            i += 1;
        }
        assert(l.take(i as int) =~= l);
        Ok(v)
    }

    /// Where a table that was found goes: behind those that are as new.
    fn place(tables: &Vec<Arc<SsTable>>, seq: u64) -> (at: usize)
        ensures
            at == place_behind(table_views(tables@), seq),
            at <= tables.len(),
    {
        let ghost ts = table_views(tables@);
        let mut pos: usize = tables.len();
        assert(ts.take(pos as int) =~= ts);
        while pos > 0 && tables[pos - 1].max_seq() < seq
            invariant
                pos <= tables.len(),
                ts == table_views(tables@),
                place_behind(ts, seq) == place_behind(ts.take(pos as int), seq),
            decreases pos,
        {
            assert(ts.take(pos as int).drop_last() =~= ts.take(pos - 1));
            assert(ts.take(pos as int).last() == ts[pos - 1]);
            pos -= 1;
        }
        proof {
            if pos > 0 {
                assert(ts.take(pos as int).last() == ts[pos - 1]);
            }
        }
        pos
    }

    /// The highest generation; without a table zero.
    fn highest_gen(tables: &Vec<Arc<SsTable>>) -> (n: u64)
        ensures
            n == top_gen(table_views(tables@)),
    {
        let ghost ts = table_views(tables@);
        let mut n: u64 = 0;
        assert(ts.take(0) =~= Seq::<TableView>::empty());
        for i in 0..tables.len()
            invariant
                ts == table_views(tables@),
                n == top_gen(ts.take(i as int)),
        {
            proof {
                assert(ts.take(i + 1).drop_last() =~= ts.take(i as int));
                assert(ts.take(i + 1).last() == ts[i as int]);
            }
            if tables[i].generation() > n {
                n = tables[i].generation();
            }
        }
        assert(ts.take(ts.len() as int) =~= ts);
        n
    }

    /// Takes log entries into a fresh buffer.
    fn replay(entries: &Vec<WalEntry>) -> (r: Result<MemTable, Error>)
        requires
            replay_cost(views(entries@)) <= usize::MAX,
        ensures
            match replayed(Stamped::empty(), views(entries@)) {
                Ok(m) => r matches Ok(mt) && mt.wf() && mt@ == m,
                Err(f) => r matches Err(e) && e.is_storage(payload_fault_text(f)),
            },
    {
        let ghost rs = views(entries@);
        let mut mt = MemTable::new();
        assert(rs.take(0) =~= Seq::<record::WalRecord>::empty());
        let mut i: usize = 0;
        while i < entries.len()
            invariant
                i <= entries.len(),
                rs == views(entries@),
                replay_cost(rs) <= usize::MAX,
                mt.wf(),
                weight(mt@) <= replay_cost(rs.take(i as int)),
                replayed(Stamped::empty(), rs.take(i as int)) == Ok::<
                    Stamped,
                    replay::PayloadFault,
                >(mt@),
            decreases entries.len() - i,
        {
            proof {
                replay::lemma_replayed_next(Stamped::empty(), rs, i as int);
                replay::lemma_replay_cost_grows(rs, i + 1);
            }
            match replay::apply_wal_entry_to_memtable(&entries[i], &mut mt) {
                Ok(_) => {},
                Err(e) => {
                    proof {
                        replay::lemma_replay_stops(Stamped::empty(), rs, i + 1);
                    }
                    return Err(e);
                },
            }
            i += 1;
        }
        assert(rs.take(i as int) =~= rs);
        Ok(mt)
    }

    /// Whether a buffer can count what is replayed.
    fn can_count(entries: &Vec<WalEntry>) -> (r: bool)
        ensures
            r == (replay_cost(views(entries@)) <= usize::MAX),
    {
        let ghost rs = views(entries@);
        let mut sum: usize = 0;
        assert(rs.take(0) =~= Seq::<record::WalRecord>::empty());
        let mut i: usize = 0;
        while i < entries.len()
            invariant
                i <= entries.len(),
                rs == views(entries@),
                sum == replay_cost(rs.take(i as int)),
            decreases entries.len() - i,
        {
            let n = entries[i].payload.len();
            proof {
                replay::lemma_replayed_next(Stamped::empty(), rs, i as int);
                replay::lemma_replay_cost_grows(rs, i + 1);
                assert(rs[i as int].payload.len() == n);
            }
            if usize::MAX - sum < 16 || usize::MAX - sum - 16 < n {
                return false;
            }
            sum = sum + n + 16;
            i += 1;
        }
        assert(rs.take(i as int) =~= rs);
        true
    }

    /// Moves the effects of the log to the queue of the engine.
    fn pass_on(&mut self)
        requires
            old(self).memtable.wf(),
        ensures
            final(self).parts_wf(),
            final(self)@ == old(self)@,
            final(self).memtable == old(self).memtable,
            final(self).sstables == old(self).sstables,
            final(self).config() == old(self).config(),
            final(self).wal_config() == old(self).wal_config(),
            final(self).queued() == old(self).queued() + old(self).wal.queued(),
    {
        let ghost a = self.effects@;
        let mut more = self.wal.take_effects();
        let ghost b = more@;
        self.effects.append(&mut more);
        assert(effect_views(self.effects@) =~= effect_views(a) + effect_views(b));
    }

    /// Flushes the buffer to a new table, and lets the log go of what the table
    /// has.
    fn flush_locked(&mut self) -> (r: Result<(), Error>)
        requires
            old(self).parts_wf(),
            old(self)@.wf(),
            old(self)@.next_gen < u64::MAX,
        ensures
            r is Ok,
            final(self).parts_wf(),
            final(self)@.mem == Stamped::empty(),
            final(self).config() == old(self).config(),
            final(self).wal_config() == old(self).wal_config(),
            final(self)@.next_gen <= old(self)@.next_gen + 1,
            kept(old(self)@, old(self).queued(), final(self)@, final(self).queued()),
            exists|told: Seq<EffectView>|
                final(self).queued() == old(self).queued() + told && #[trigger] flushed(
                    old(self)@,
                    final(self)@,
                    told,
                ),
    {
        let ghost a = self@;
        let ghost qa = self.queued();
        proof {
            self.memtable.lemma_newest();
        }
        if self.memtable.is_empty() {
            proof {
                assert(qa + Seq::<EffectView>::empty() =~= qa);
                assert(flushed(a, a, Seq::<EffectView>::empty()));
                state::lemma_mirrored_by(a, qa, a, Seq::<EffectView>::empty());
            }
            return Ok(());
        }
        let max_seq = match self.memtable.max_seq() {
            Some(n) => n,
            None => 0,
        };
        let generation = self.next_gen;
        self.next_gen = generation + 1;
        let path = text::join_text(self.config.dir.as_str(), sst_filename(generation).as_str());
        let entries = self.memtable.iter();
        let image = SsTableWriter::write(&entries, max_seq);
        let ghost es = slot_views(entries@);
        let ghost t = state::flush_table(a, es, max_seq);
        proof {
            state::lemma_after_flush(a, es, max_seq);
            assert(after_flush(a, es, max_seq).tables[0] == t);
            assert(state::faithful(t));
        }
        let write = DiskEffect::Write { file: path.clone(), content: image.clone() };
        self.effects.push(write);
        assert(effect_views(self.effects@) =~= qa.push(write@));
        let sst = match SsTable::open(path, generation, image) {
            Ok(sst) => sst,
            Err(e) => {
                return Err(e);
            },
        };
        insert_sst_sorted(&mut self.sstables, Arc::new(sst));
        self.memtable = MemTable::new();
        let _ = self.wal.truncate(max_seq + 1);
        self.pass_on();
        proof {
            let told = flush_effects(a, es, max_seq);
            assert(qa.push(write@) + remove_effects(
                a.log_dir,
                settled(a.segs.drop_last(), (max_seq + 1) as u64),
            ) =~= qa + told);
            assert(self@ == after_flush(a, es, max_seq));
            assert(is_flush(a, self@, told, es, max_seq));
            assert(a.mem != Stamped::empty()) by {
                let k = choose|k: Seq<u8>| #[trigger] a.mem.contains_key(k) && a.mem[k].0 == max_seq;
                assert(a.mem.contains_key(k));
            }
            assert(flushed(a, self@, told));
            if a.apart() {
                state::lemma_flush_mirrors(a, es, max_seq);
                state::lemma_mirrored_by(a, qa, self@, told);
            }
        }
        Ok(())
    }

    /// Merges every table into one, without overwritten values and without
    /// tombstones: below the merged table there is nothing left for them to hide.
    pub fn compact(&mut self) -> (r: Result<(), Error>)
        requires
            old(self).parts_wf(),
            old(self)@.wf(),
            old(self)@.next_gen < u64::MAX,
        ensures
            final(self).parts_wf(),
            final(self)@.mem == old(self)@.mem,
            final(self).config() == old(self).config(),
            final(self).wal_config() == old(self).wal_config(),
            final(self)@.next_gen <= old(self)@.next_gen + 1,
            kept(old(self)@, old(self).queued(), final(self)@, final(self).queued()),
            old(self)@.intact() ==> r is Ok,
            exists|told: Seq<EffectView>|
                final(self).queued() == old(self).queued() + told && #[trigger] compacted(
                    old(self)@,
                    final(self)@,
                    told,
                    r,
                ),
    {
        let ghost a = self@;
        let ghost qa = self.queued();
        if self.sstables.len() < 2 {
            self.gc_pending_delete();
            proof {
                let told = choose|t: Seq<EffectView>|
                    self.queued() == qa + t && exists|used: Seq<bool>| #[trigger]
                        is_sweep(a, self@, t, used);
                assert(compacted(a, self@, told, Ok(())));
            }
            return Ok(());
        }
        let merged_max_seq = self.sstables[0].max_seq();
        let map = match Self::merge(&self.sstables) {
            Ok(map) => map,
            Err(e) => {
                proof {
                    assert(qa + Seq::<EffectView>::empty() =~= qa);
                    assert(compacted(a, self@, Seq::<EffectView>::empty(), Err(e)));
                    state::lemma_mirrored_by(a, qa, a, Seq::<EffectView>::empty());
                    if a.intact() {
                        layers::lemma_merged_sound(a.tables);
                    }
                }
                return Err(e);
            },
        };
        let ghost m = slots_of(map@);
        let pairs = live_pairs(map);
        let ghost l = pair_views(pairs@);
        let entries = as_entries(pairs);
        let ghost es = slot_views(entries@);
        proof {
            lemma_live_listing(l, es, m);
        }
        let generation = self.next_gen;
        self.next_gen = generation + 1;
        let mut merged_tables: Vec<Arc<SsTable>> = Vec::new();
        if entries.len() > 0 {
            let path = text::join_text(self.config.dir.as_str(), sst_filename(generation).as_str());
            let image = SsTableWriter::write(&entries, merged_max_seq);
            proof {
                state::lemma_after_merge(a, m, es);
                assert(after_merge(a, es).tables[0] == merge_tables(a, es)[0]);
                assert(state::faithful(merge_tables(a, es)[0]));
            }
            let write = DiskEffect::Write { file: path.clone(), content: image.clone() };
            self.effects.push(write);
            assert(effect_views(self.effects@) =~= qa + merge_effects(merge_tables(a, es)));
            match SsTable::open(path, generation, image) {
                Ok(sst) => {
                    merged_tables.push(Arc::new(sst));
                },
                Err(e) => {
                    return Err(e);
                },
            }
            assert(table_views(merged_tables@) =~= merge_tables(a, es));
        } else {
            assert(effect_views(self.effects@) =~= qa + merge_effects(merge_tables(a, es)));
            assert(table_views(merged_tables@) =~= merge_tables(a, es));
            proof {
                lemma_empty_table_len(merged_max_seq);
                assert(es =~= Seq::<Slot>::empty());
                state::lemma_after_merge(a, m, es);
            }
        }
        let ghost pending = self.pending_delete@;
        let ghost tables = self.sstables@;
        std::mem::swap(&mut merged_tables, &mut self.sstables);
        self.pending_delete.append(&mut merged_tables);
        let ghost mid = after_merge(a, es);
        let ghost qm = qa + merge_effects(merge_tables(a, es));
        proof {
            assert(table_views(self.pending_delete@) =~= table_views(pending) + table_views(
                tables,
            ));
            assert(self@ == mid);
            if a.apart() {
                state::lemma_merge_mirrors(a, m, es);
                state::lemma_mirrored_by(a, qa, mid, merge_effects(merge_tables(a, es)));
            }
        }
        self.gc_pending_delete();
        proof {
            let t2 = choose|t: Seq<EffectView>|
                self.queued() == qm + t && exists|used: Seq<bool>| #[trigger]
                    is_sweep(mid, self@, t, used);
            let used = choose|used: Seq<bool>| #[trigger] is_sweep(mid, self@, t2, used);
            let told = merge_effects(merge_tables(a, es)) + t2;
            assert(qm + t2 =~= qa + told);
            assert(is_merge(a, self@, told, es, used));
            assert(compacted(a, self@, told, Ok(())));
            if a.apart() {
                state::lemma_mirrored_on(a, qa, mid, qm, self@, self.queued());
            }
        }
        Ok(())
    }

    /// Reads every table, newest first; the first record of a key decides.
    fn merge(tables: &Vec<Arc<SsTable>>) -> (r: Result<OrderedMap<Option<Value>>, Error>)
        ensures
            match merged(table_views(tables@)) {
                Ok(m) => r matches Ok(map) && map.wf() && slots_of(map@) == m,
                Err(f) => r matches Err(e) && is_read_error(e, f),
            },
    {
        let ghost ts = table_views(tables@);
        let mut map: OrderedMap<Option<Value>> = OrderedMap::new();
        assert(slots_of(map@) =~= Slots::empty());
        assert(ts.take(0) =~= Seq::<TableView>::empty());
        let mut i: usize = 0;
        while i < tables.len()
            invariant
                i <= tables.len(),
                ts == table_views(tables@),
                map.wf(),
                merged(ts.take(i as int)) == Ok::<Slots, ReadFault>(slots_of(map@)),
            decreases tables.len() - i,
        {
            proof {
                assert(ts.take(i + 1).drop_last() =~= ts.take(i as int));
                assert(ts.take(i + 1).last() == ts[i as int]);
            }
            match tables[i].iter_all() {
                Ok(run) => {
                    absorb(&mut map, run);
                },
                Err(e) => {
                    proof {
                        lemma_merge_stops(ts, i + 1);
                    }
                    return Err(e);
                },
            }
            i += 1;
        }
        assert(ts.take(i as int) =~= ts);
        Ok(map)
    }

    /// Merges tables if there are enough of them.
    fn maybe_compact_if_threshold(&mut self) -> (r: Result<(), Error>)
        requires
            old(self).parts_wf(),
            old(self)@.wf(),
            old(self)@.next_gen < u64::MAX,
        ensures
            final(self).parts_wf(),
            final(self)@.mem == old(self)@.mem,
            final(self).config() == old(self).config(),
            final(self).wal_config() == old(self).wal_config(),
            final(self)@.next_gen <= old(self)@.next_gen + 1,
            kept(old(self)@, old(self).queued(), final(self)@, final(self).queued()),
            old(self)@.intact() ==> r is Ok,
            exists|told: Seq<EffectView>|
                final(self).queued() == old(self).queued() + told && #[trigger] settled_down(
                    old(self)@,
                    final(self)@,
                    told,
                    old(self).config().sst_compact_threshold as int,
                    r,
                ),
    {
        let ghost a = self@;
        let ghost qa = self.queued();
        let ghost threshold = self.config().sst_compact_threshold as int;
        if self.sstables.len() >= self.config.sst_compact_threshold {
            let r = self.compact();
            proof {
                let told = choose|told: Seq<EffectView>|
                    self.queued() == qa + told && #[trigger] compacted(a, self@, told, r);
                assert(settled_down(a, self@, told, threshold, r));
            }
            return r;
        }
        proof {
            assert(qa + Seq::<EffectView>::empty() =~= qa);
            assert(settled_down(a, a, Seq::<EffectView>::empty(), threshold, Ok(())));
            state::lemma_mirrored_by(a, qa, a, Seq::<EffectView>::empty());
        }
        Ok(())
    }

    /// Removes the files of merged tables that nothing holds any more.
    fn gc_pending_delete(&mut self)
        requires
            old(self).parts_wf(),
            old(self)@.wf(),
        ensures
            final(self).parts_wf(),
            final(self)@.mem == old(self)@.mem,
            final(self).config() == old(self).config(),
            final(self).wal_config() == old(self).wal_config(),
            final(self)@.next_gen == old(self)@.next_gen,
            kept(old(self)@, old(self).queued(), final(self)@, final(self).queued()),
            exists|told: Seq<EffectView>|
                final(self).queued() == old(self).queued() + told && exists|used: Seq<bool>|
                    #[trigger] is_sweep(old(self)@, final(self)@, told, used),
    {
        let ghost a = self@;
        let ghost qa = self.queued();
        let mut counts: Vec<usize> = Vec::new();
        let ghost mut hs: Seq<Holders> = seq![];
        for i in 0..self.pending_delete.len()
            invariant
                counts.len() == i,
                hs.len() == i,
                a.pending == table_views(self.pending_delete@),
                forall|k: int|
                    0 <= k < i ==> (#[trigger] hs[k]).table() == a.pending[k] && counts@[k]
                        == hs[k].number(),
        {
            let h = holders(&self.pending_delete[i]);
            counts.push(h.how_many());
            proof {
                hs = hs.push(h);
            }
        }
        let used = used_by_others(counts.as_slice());
        assert(counted_by(a.pending, used@, hs));
        let mut pending: Vec<Arc<SsTable>> = Vec::new();
        std::mem::swap(&mut pending, &mut self.pending_delete);
        self.pending_delete = sweep(pending, &used, &mut self.effects);
        proof {
            state::lemma_after_sweep(a, used@);
            let told = sweep_effects(a.pending, used@);
            assert(is_sweep(a, self@, told, used@));
            if a.apart() {
                state::lemma_sweep_mirrors(a, used@);
                state::lemma_mirrored_by(a, qa, self@, told);
            }
        }
    }

    /// The tables, newest first.
    pub fn sstables(&self) -> (ts: &[Arc<SsTable>])
        ensures
            table_views(ts@) == self@.tables,
    {
        self.sstables.as_slice()
    }

    /// How many merged tables still have a file.
    pub fn pending_delete_len(&self) -> (n: usize)
        ensures
            n == self@.pending.len(),
    {
        self.pending_delete.len()
    }

    /// How many tables there are.
    pub fn active_sst_count(&self) -> (n: usize)
        ensures
            n == self@.tables.len(),
    {
        self.sstables.len()
    }
}

impl LsmEngine {
    /// There are numbers, and there is memory, for these writes and for a flush
    /// after each, and they fit the formats.
    pub open spec fn room_for(&self, ops: Seq<Op>) -> bool {
        &&& self@.next_seq + ops.len() <= u64::MAX
        &&& self@.segs.last().start + ops.len() <= u64::MAX
        &&& self@.next_gen + 2 * ops.len() + 2 <= u64::MAX
        &&& weight(self@.mem) + charges(ops) <= usize::MAX
        &&& forall|i: int|
            0 <= i < ops.len() ==> fits(((#[trigger] ops[i]).key(), ops[i].slot()))
    }

    /// Whether there is room for a write with this key and this value.
    pub fn has_room_for(&self, key: &[u8], value: &[u8]) -> (r: bool)
        requires
            self.parts_wf(),
            self@.wf(),
        ensures
            r == self.room_for(seq![Op::Put { key: key@, value: value@ }]),
            r ==> self.room_for(seq![Op::Delete { key: key@ }]),
            r ==> self.room_for(Seq::empty()),
    {
        let ghost put = Op::Put { key: key@, value: value@ };
        let ghost del = Op::Delete { key: key@ };
        proof {
            lemma_charges_one(put);
            lemma_charges_one(del);
            assert(seq![put][0] == put);
            assert(charges(Seq::<Op>::empty()) == 0);
        }
        let start = self.wal.active_start();
        let limit: usize = 0xffff_ffff;
        if self.next_seq == u64::MAX || start == u64::MAX || self.next_gen > u64::MAX - 4
            || key.len() > limit || value.len() > limit {
            return false;
        }
        let size = self.memtable.size();
        let rest = usize::MAX - size;
        if rest < 16 || rest - 16 < key.len() || rest - 16 - key.len() < value.len() {
            return false;
        }
        true
    }

    /// Whether there is room for the writes of a batch.
    pub fn has_room_for_batch(&self, batch: &Batch) -> (r: bool)
        requires
            self.parts_wf(),
            self@.wf(),
        ensures
            r == self.room_for(batch@),
    {
        let ops = batch.ops();
        let ghost all = batch@;
        let n = ops.len() as u64;
        let start = self.wal.active_start();
        let limit: usize = 0xffff_ffff;
        if n > (u64::MAX - 2) / 2 || self.next_seq > u64::MAX - n || start > u64::MAX - n
            || self.next_gen > u64::MAX - 2 * n - 2 {
            return false;
        }
        let mut rest: usize = usize::MAX - self.memtable.size();
        let ghost total = weight(self@.mem);
        let mut i: usize = ops.len();
        assert(all.skip(i as int) =~= Seq::<Op>::empty());
        while i > 0
            invariant
                i <= ops.len(),
                all == op_views(ops@),
                all == batch@,
                limit == 0xffff_ffff,
                total == weight(self@.mem),
                rest == usize::MAX - total - charges(all.skip(i as int)),
                forall|j: int|
                    i <= j < all.len() ==> fits(((#[trigger] all[j]).key(), all[j].slot())),
            decreases i,
        {
            i -= 1;
            let (klen, vlen) = match &ops[i] {
                BatchOp::Put { key, value } => (key.len(), value.len()),
                BatchOp::Delete { key } => (key.len(), 0),
            };
            proof {
                assert(all[i as int] == ops@[i as int]@);
                assert(all.skip(i as int)[0] == all[i as int]);
                assert(all.skip(i as int).drop_first() =~= all.skip(i + 1));
                assert(all.take(i as int) + all.skip(i as int) =~= all);
                lemma_charges_split(all.take(i as int), all.skip(i as int));
            }
            if klen > limit || vlen > limit || rest < 16 || rest - 16 < klen || rest - 16 - klen
                < vlen {
                return false;
            }
            rest = rest - 16 - klen - vlen;
        }
        assert(all.skip(0) =~= all);
        true
    }

    /// Writes a value, or a tombstone.
    fn write_one(&mut self, key: Key, value: Option<Value>) -> (r: Result<(), Error>)
        requires
            old(self).parts_wf(),
            old(self)@.wf(),
            old(self).room_for(seq![op_of(octets(key), opt_octets(value))]),
        ensures
            final(self).parts_wf(),
            final(self)@.wf(),
            final(self).config() == old(self).config(),
            final(self).wal_config() == old(self).wal_config(),
            old(self)@.intact() ==> r is Ok && final(self)@.intact() && final(self)@.contents()
                == written(old(self)@.contents(), op_of(octets(key), opt_octets(value))),
            old(self)@.apart() ==> final(self)@.apart() && mirrored(
                old(self)@,
                old(self).queued(),
                final(self)@,
                final(self).queued(),
            ),
            old(self)@.durable() && replay::loggable(op_of(octets(key), opt_octets(value)))
                ==> final(self)@.durable(),
            exists|told: Seq<EffectView>|
                final(self).queued() == old(self).queued() + told && #[trigger] write_outcome(
                    old(self)@,
                    op_of(octets(key), opt_octets(value)),
                    old(self).config(),
                    old(self).wal_config(),
                    final(self)@,
                    told,
                    r,
                ),
            forall|rest: Seq<Op>|
                old(self).room_for(seq![op_of(octets(key), opt_octets(value))] + rest)
                    ==> #[trigger] final(self).room_for(rest),
    {
        let ghost op = op_of(octets(key), opt_octets(value));
        let ghost a = self@;
        let ghost qa = self.queued();
        let ghost config = self.config();
        let ghost wal_config = self.wal_config();
        let ghost w = after_write(a, op, wal_config.max_segment_bytes);
        let ghost logged = append_effects(wal_config, a.segs, record_of(a.next_seq, op));
        proof {
            assert(seq![op][0] == op);
            lemma_charges_one(op);
            lemma_room_in_log(a, op, wal_config.max_segment_bytes);
            state::lemma_after_write(a, op, wal_config.max_segment_bytes);
            state::lemma_write_mirrors(a, op, wal_config);
            replay::lemma_loggable(a.next_seq, op);
            self.memtable.lemma_newest();
        }
        let seq = self.next_seq;
        self.next_seq = seq + 1;
        let entry = match &value {
            Some(v) => WalEntry {
                seq,
                kind: WalEntryKind::Put,
                payload: replay::encode_put_payload(buffer::as_slice(&key), buffer::as_slice(v)),
            },
            None => WalEntry {
                seq,
                kind: WalEntryKind::Delete,
                payload: replay::encode_delete_payload(buffer::as_slice(&key)),
            },
        };
        assert(entry@ == record_of(a.next_seq, op));
        let _ = self.wal.append(entry);
        self.pass_on();
        self.memtable.insert(seq, key, value);
        let ghost qw = self.queued();
        proof {
            assert(self@ == w);
            assert(Seq::<EffectView>::empty() + logged =~= logged);
            assert(qw == qa + logged);
            memtable::lemma_weight_stored(a.mem, op.key(), (seq, op.slot()));
            memtable::lemma_weight_nonnegative(a.mem);
            state::lemma_mirrored_by(a, qa, w, logged);
        }
        if self.memtable.size() < self.config.memtable_max_bytes {
            proof {
                assert(write_outcome(a, op, config, wal_config, self@, logged, Ok(())));
                self.lemma_room_left(old(self), op);
            }
            return Ok(());
        }
        let r = self.flush_all();
        proof {
            let t = choose|t: Seq<EffectView>|
                self.queued() == qw + t && #[trigger] flush_outcome(
                    w,
                    self@,
                    t,
                    config.sst_compact_threshold as int,
                    r,
                );
            let told = logged + t;
            assert(qw + t =~= qa + told);
            assert(write_outcome(a, op, config, wal_config, self@, told, r));
            if a.apart() {
                state::lemma_mirrored_on(a, qa, w, qw, self@, self.queued());
            }
            self.lemma_room_left(old(self), op);
        }
        r
    }

    /// Flushes the buffer, and merges tables if there are then enough of them.
    fn flush_all(&mut self) -> (r: Result<(), Error>)
        requires
            old(self).parts_wf(),
            old(self)@.wf(),
            old(self)@.next_gen + 2 <= u64::MAX,
        ensures
            final(self).parts_wf(),
            final(self)@.mem == Stamped::empty(),
            final(self).config() == old(self).config(),
            final(self).wal_config() == old(self).wal_config(),
            kept(old(self)@, old(self).queued(), final(self)@, final(self).queued()),
            old(self)@.intact() ==> r is Ok,
            exists|told: Seq<EffectView>|
                final(self).queued() == old(self).queued() + told && #[trigger] flush_outcome(
                    old(self)@,
                    final(self)@,
                    told,
                    old(self).config().sst_compact_threshold as int,
                    r,
                ),
    {
        let ghost a = self@;
        let ghost qa = self.queued();
        let ghost threshold = self.config().sst_compact_threshold as int;
        match self.flush_locked() {
            Ok(_) => {},
            Err(e) => {
                return Err(e);
            },
        }
        let ghost mid = self@;
        let ghost qm = self.queued();
        let r = self.maybe_compact_if_threshold();
        proof {
            let t1 = choose|t: Seq<EffectView>| qm == qa + t && #[trigger] flushed(a, mid, t);
            let t2 = choose|t: Seq<EffectView>|
                self.queued() == qm + t && #[trigger] settled_down(mid, self@, t, threshold, r);
            let told = t1 + t2;
            assert(qm + t2 =~= qa + told);
            assert(flush_by_way(a, mid, t1, self@, t2, threshold, r));
            assert(flush_outcome(a, self@, told, threshold, r));
            if a.apart() {
                state::lemma_mirrored_on(a, qa, mid, qm, self@, self.queued());
            }
        }
        r
    }

    /// After a write there is room for the writes that there was room for
    /// behind it.
    proof fn lemma_room_left(&self, prior: &Self, op: Op)
        requires
            self@.next_seq == prior@.next_seq + 1,
            self@.next_gen <= prior@.next_gen + 2,
            self@.segs.last().start <= prior@.segs.last().start || self@.segs.last().start
                <= prior@.segs.last().start + 1 || self@.segs.last().start <= prior@.next_seq + 1,
            weight(self@.mem) <= weight(prior@.mem) + charge(op.key(), op.slot()),
        ensures
            forall|rest: Seq<Op>|
                prior.room_for(seq![op] + rest) ==> #[trigger] self.room_for(rest),
    {
        assert forall|rest: Seq<Op>| prior.room_for(seq![op] + rest) implies
            #[trigger] self.room_for(rest) by {
            let all = seq![op] + rest;
            assert(all.drop_first() =~= rest);
            assert(all[0] == op);
            assert forall|i: int| 0 <= i < rest.len() implies fits(
                ((#[trigger] rest[i]).key(), rest[i].slot()),
            ) by {
                assert(all[i + 1] == rest[i]);
            }
        }
    }
}

/// Fresh numbers leave the log one for its next segment.
proof fn lemma_room_in_log(a: LsmView, op: Op, max_bytes: u64)
    requires
        a.wf(),
        a.next_seq < u64::MAX,
        a.segs.last().start < u64::MAX,
    ensures
        log_has_room(a, op, max_bytes),
        after_write(a, op, max_bytes).segs.last().start <= a.segs.last().start || after_write(
            a,
            op,
            max_bytes,
        ).segs.last().start <= a.segs.last().start + 1 || after_write(
            a,
            op,
            max_bytes,
        ).segs.last().start <= a.next_seq + 1,
{
    let r = record_of(a.next_seq, op);
    state::lemma_highest_appended(a.segs, r, max_bytes);
    let g = grown(a.segs, r);
    assert(g.last().start == a.segs.last().start);
}

/// A table that cannot be read ends the search.
proof fn lemma_found_stops(dir: Seq<char>, l: Seq<(Seq<char>, Seq<u8>)>, i: int)
    requires
        0 <= i <= l.len(),
        found_tables(dir, l.take(i)) is Err,
    ensures
        found_tables(dir, l) == found_tables(dir, l.take(i)),
    decreases l.len() - i,
{
    if i == l.len() {
        assert(l.take(i) =~= l);
    } else {
        assert(l.take(i + 1).drop_last() =~= l.take(i));
        lemma_found_stops(dir, l, i + 1);
    }
}

/// A table that cannot be read ends the merge.
proof fn lemma_merge_stops(ts: Seq<TableView>, i: int)
    requires
        0 <= i <= ts.len(),
        merged(ts.take(i)) is Err,
    ensures
        merged(ts) == merged(ts.take(i)),
    decreases ts.len() - i,
{
    if i == ts.len() {
        assert(ts.take(i) =~= ts);
    } else {
        assert(ts.take(i + 1).drop_last() =~= ts.take(i));
        lemma_merge_stops(ts, i + 1);
    }
}

proof fn lemma_empty_table_len(max_seq: u64)
    ensures
        table_bytes(Seq::<Slot>::empty(), max_seq).len() <= u64::MAX,
{
    broadcast use crate::codec::lemma_u64_le_len;

    assert(sstable::index_of(Seq::<Slot>::empty()) =~= Seq::<(Seq<u8>, u64)>::empty());
}

impl Engine for LsmEngine {
    type Snap = LsmSnapshot;

    type Cur = ListCursor;

    open spec fn wf(&self) -> bool {
        self.parts_wf() && self@.wf()
    }

    open spec fn intact(&self) -> bool {
        self@.intact()
    }

    open spec fn contents(&self) -> Contents {
        self@.contents()
    }

    open spec fn has_room(&self, ops: Seq<Op>) -> bool {
        self.room_for(ops)
    }

    proof fn lemma_room_prefix(&self, ops: Seq<Op>, rest: Seq<Op>) {
        lemma_charges_split(ops, rest);
        assert forall|i: int| 0 <= i < ops.len() implies fits(
            ((#[trigger] ops[i]).key(), ops[i].slot()),
        ) by {
            assert((ops + rest)[i] == ops[i]);
        }
    }

    fn get(&self, key: &[u8]) -> (r: Result<Option<Value>, Error>)
        ensures
            is_found(r, answer(unstamped(self@.mem), self@.tables, key@)),
    {
        lookup(&self.memtable, &self.sstables, key)
    }

    fn put(&mut self, key: Key, value: Value) -> (r: Result<(), Error>)
        ensures
            final(self).config() == old(self).config(),
            final(self).wal_config() == old(self).wal_config(),
            old(self)@.apart() ==> final(self)@.apart() && mirrored(
                old(self)@,
                old(self).queued(),
                final(self)@,
                final(self).queued(),
            ),
            old(self)@.durable() && replay::loggable(
                Op::Put { key: octets(key), value: octets(value) },
            ) ==> final(self)@.durable(),
            exists|told: Seq<EffectView>|
                final(self).queued() == old(self).queued() + told && #[trigger] write_outcome(
                    old(self)@,
                    Op::Put { key: octets(key), value: octets(value) },
                    old(self).config(),
                    old(self).wal_config(),
                    final(self)@,
                    told,
                    r,
                ),
    {
        self.write_one(key, Some(value))
    }

    fn delete(&mut self, key: &[u8]) -> (r: Result<(), Error>)
        ensures
            final(self).config() == old(self).config(),
            final(self).wal_config() == old(self).wal_config(),
            old(self)@.apart() ==> final(self)@.apart() && mirrored(
                old(self)@,
                old(self).queued(),
                final(self)@,
                final(self).queued(),
            ),
            old(self)@.durable() && replay::loggable(Op::Delete { key: key@ })
                ==> final(self)@.durable(),
            exists|told: Seq<EffectView>|
                final(self).queued() == old(self).queued() + told && #[trigger] write_outcome(
                    old(self)@,
                    Op::Delete { key: key@ },
                    old(self).config(),
                    old(self).wal_config(),
                    final(self)@,
                    told,
                    r,
                ),
    {
        self.write_one(Bytes::copy_from_slice(key), None)
    }

    /// The writes are applied one by one: a crash may leave some of them.
    fn write_batch(&mut self, batch: Batch) -> (r: Result<(), Error>)
        ensures
            final(self).config() == old(self).config(),
            final(self).wal_config() == old(self).wal_config(),
            old(self)@.apart() ==> final(self)@.apart() && mirrored(
                old(self)@,
                old(self).queued(),
                final(self)@,
                final(self).queued(),
            ),
            old(self)@.durable() && (forall|i: int|
                0 <= i < batch@.len() ==> replay::loggable(#[trigger] batch@[i]))
                ==> final(self)@.durable(),
            exists|told: Seq<EffectView>|
                final(self).queued() == old(self).queued() + told && #[trigger] batch_outcome(
                    old(self)@,
                    batch@,
                    old(self).config(),
                    old(self).wal_config(),
                    final(self)@,
                    told,
                    r,
                ),
    {
        let ghost a = self@;
        let ghost qa = self.queued();
        let ghost all = batch@;
        let ghost config = self.config();
        let ghost wal_config = self.wal_config();
        let ops = batch.into_ops();
        proof {
            assert(all.skip(0) =~= all);
            lemma_batch_begun(a, qa, all, config, wal_config);
        }
        for op in it: ops
            invariant
                all == op_views(it.seq()),
                all == batch@,
                a == old(self)@,
                qa == old(self).queued(),
                config == old(self).config(),
                wal_config == old(self).wal_config(),
                self.parts_wf(),
                self@.wf(),
                self.config() == config,
                self.wal_config() == wal_config,
                self.room_for(all.skip(it.index())),
                batch_so_far(
                    a,
                    qa,
                    all,
                    config,
                    wal_config,
                    it.index(),
                    self@,
                    self.queued(),
                    Ok(()),
                ),
        {
            let ghost k = it.index();
            let ghost mid = self@;
            let ghost qm = self.queued();
            proof {
                assert(all[k] == op@);
                assert(seq![op@] + all.skip(k + 1) =~= all.skip(k));
                self.lemma_room_prefix(seq![op@], all.skip(k + 1));
            }
            let (key, value) = match op {
                BatchOp::Put { key, value } => (key, Some(value)),
                BatchOp::Delete { key } => (key, None),
            };
            assert(op_of(octets(key), opt_octets(value)) == all[k]);
            let r = self.write_one(key, value);
            proof {
                lemma_batch_goes_on(
                    a,
                    qa,
                    all,
                    config,
                    wal_config,
                    k,
                    mid,
                    qm,
                    self@,
                    self.queued(),
                    r,
                );
            }
            if let Err(e) = r {
                proof {
                    lemma_batch_done(
                        a,
                        qa,
                        all,
                        config,
                        wal_config,
                        k + 1,
                        self@,
                        self.queued(),
                        Err(e),
                    );
                }
                return Err(e);
            }
            assert(r->Ok_0 == ());
        }
        proof {
            lemma_batch_done(
                a,
                qa,
                all,
                config,
                wal_config,
                all.len() as int,
                self@,
                self.queued(),
                Ok(()),
            );
        }
        Ok(())
    }

    fn snapshot(&self) -> (s: LsmSnapshot)
        ensures
            s.mem() == self@.mem,
            s.tables() == self@.tables,
    {
        LsmSnapshot { memtable: self.memtable.dup(), sstables: share_all(&self.sstables) }
    }

    /// A table that cannot be read is passed over.
    fn scan(&self, range: KeyRange) -> (c: ListCursor)
        ensures
            lists_in_order(
                c.items(),
                visible(
                    layers::scanned(
                        restricted(
                            unstamped(self@.mem),
                            octets(range.start),
                            octets(range.end),
                        ),
                        self@.tables,
                        octets(range.start),
                        octets(range.end),
                    ),
                ),
            ),
    {
        let start = buffer::as_slice(&range.start);
        let end = buffer::as_slice(&range.end);
        let ghost ts = self@.tables;
        let ghost mem = unstamped(self@.mem);
        let mut map: OrderedMap<Option<Value>> = OrderedMap::new();
        let run = self.memtable.range(start, end);
        proof {
            assert(slots_of(map@) =~= Slots::empty());
            layers::lemma_gathered_listing(
                slots_of(map@),
                slot_views(run@),
                restricted(mem, start@, end@),
            );
        }
        absorb(&mut map, run);
        let ghost first = restricted(mem, start@, end@);
        proof {
            assert(ts.take(0) =~= Seq::<TableView>::empty());
            assert(slots_of(map@) =~= first);
            assert(slots_of(map@) =~= restricted(
                stacked(ts.take(0)).union_prefer_right(mem),
                start@,
                end@,
            ));
        }
        for i in 0..self.sstables.len()
            invariant
                map.wf(),
                ts == table_views(self.sstables@),
                mem == unstamped(self@.mem),
                slots_of(map@) == layers::scanned(
                    first,
                    ts.take(i as int),
                    start@,
                    end@,
                ),
                all_sound(ts) ==> slots_of(map@) == restricted(
                    stacked(ts.take(i as int)).union_prefer_right(mem),
                    start@,
                    end@,
                ),
        {
            let ghost prior = slots_of(map@);
            let ghost t = ts[i as int];
            match self.sstables[i].scan(start, end) {
                Ok(chunk) => {
                    proof {
                        if all_sound(ts) {
                            assert(t.sound());
                            layers::lemma_gathered_listing(
                                prior,
                                slot_views(chunk@),
                                restricted(t.slots(), start@, end@),
                            );
                        }
                    }
                    absorb(&mut map, chunk);
                },
                Err(_) => {
                    assert(all_sound(ts) ==> t.sound());
                },
            }
            proof {
                assert(ts.take(i + 1).drop_last() =~= ts.take(i as int));
                assert(ts.take(i + 1).last() == t);
                if all_sound(ts) {
                    assert(slots_of(map@) =~= restricted(
                        stacked(ts.take(i + 1)).union_prefer_right(mem),
                        start@,
                        end@,
                    ));
                }
            }
        }
        proof {
            assert(ts.take(ts.len() as int) =~= ts);
            if all_sound(ts) {
                assert(visible(slots_of(map@)) =~= restricted(self@.contents(), start@, end@));
            }
        }
        ListCursor::new(live_pairs(map))
    }

    fn flush(&mut self) -> (r: Result<(), Error>)
        ensures
            final(self).config() == old(self).config(),
            final(self).wal_config() == old(self).wal_config(),
            final(self)@.mem == Stamped::empty(),
            old(self)@.apart() ==> final(self)@.apart() && mirrored(
                old(self)@,
                old(self).queued(),
                final(self)@,
                final(self).queued(),
            ),
            old(self)@.durable() ==> final(self)@.durable(),
            exists|told: Seq<EffectView>|
                final(self).queued() == old(self).queued() + told && #[trigger] flush_outcome(
                    old(self)@,
                    final(self)@,
                    told,
                    old(self).config().sst_compact_threshold as int,
                    r,
                ),
    {
        self.flush_all()
    }
}

// ---- snapshots ------------------------------------------------------------------------

/// What an [`LsmEngine`] held: its buffer, and its tables, whose files stay for
/// as long as the snapshot does.
pub struct LsmSnapshot {
    memtable: MemTable,
    sstables: Vec<Arc<SsTable>>,
}

impl LsmSnapshot {
    pub closed spec fn mem(&self) -> Stamped {
        self.memtable@
    }

    pub closed spec fn tables(&self) -> Seq<TableView> {
        table_views(self.sstables@)
    }
}

impl Snapshot for LsmSnapshot {
    closed spec fn wf(&self) -> bool {
        self.memtable.wf()
    }

    open spec fn intact(&self) -> bool {
        all_sound(self.tables())
    }

    open spec fn contents(&self) -> Contents {
        visible(stacked(self.tables()).union_prefer_right(unstamped(self.mem())))
    }

    fn get(&self, key: &[u8]) -> (r: Result<Option<Value>, Error>)
        ensures
            is_found(r, answer(unstamped(self.mem()), self.tables(), key@)),
    {
        lookup(&self.memtable, &self.sstables, key)
    }
}

/// Two results of looking a key up say the same.
pub open spec fn same_answer(
    a: Result<Option<Value>, Error>,
    b: Result<Option<Value>, Error>,
) -> bool {
    match (a, b) {
        (Ok(x), Ok(y)) => opt_octets(x) == opt_octets(y),
        (Err(x), Err(y)) => exists|f: ReadFault| #[trigger]
            is_read_error(x, f) && is_read_error(y, f),
        _ => false,
    }
}

/// A snapshot answers for every key what the engine answered when it was taken,
/// whatever state its tables are in.
pub proof fn lemma_snapshot_answers(
    s: LsmView,
    snap: &LsmSnapshot,
    key: Seq<u8>,
    before: Result<Option<Value>, Error>,
    now: Result<Option<Value>, Error>,
)
    requires
        snap.mem() == s.mem,
        snap.tables() == s.tables,
        is_found(before, answer(unstamped(s.mem), s.tables, key)),
        is_found(now, answer(unstamped(snap.mem()), snap.tables(), key)),
    ensures
        same_answer(before, now),
{
    match answer(unstamped(s.mem), s.tables, key) {
        Err(f) => {
            assert(is_read_error(before->Err_0, f));
        },
        _ => {},
    }
}

} // verus!
