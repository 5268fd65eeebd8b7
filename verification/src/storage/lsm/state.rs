//! What the engine is, as a value, and what its steps keep.

use vstd::prelude::*;

use crate::ordered::lists_in_order;
use crate::storage::disk::{self, performed, performed_all, EffectView, Files};
use crate::storage::engine::{held, lemma_written_elsewhere, written, Contents, Op};
use crate::storage::lsm::layers::{
    self, all_sound, live, merged, slots_fit, stacked, visible, written_table,
};
use crate::storage::lsm::memtable::{stale, stamped_in, unstamped, Slots, Stamped};
use crate::storage::lsm::replay::{self, all_logged, entries_fit, is_logged, last_write, record_of};
use crate::storage::lsm::sstable::{
    fits, table_bytes, table_of, ReadFault, Slot, TableFault, TableView,
};
use crate::storage::record::{self, readable, since, WalRecord};
use crate::storage::reopen::{self, strictly_in_order};
use crate::storage::segment::{
    self, all_intact, all_records, append_effects, appended, distinct_names, full, grown,
    highest_last, next_start, reaching, remove_effects, segment_files, segment_start, segments_wf,
    seqs_ascend,
    settled, truncated, SegmentView,
};
use crate::storage::wal::WalConfig;
use crate::text::{self, joined, number_between, numbered};

verus! {

/// The name of the file of the table with this generation.
pub open spec fn sst_name(generation: u64) -> Seq<char> {
    numbered("sst-"@, generation, ".sst"@)
}

/// The generation that a file name gives, if it is the name of a table.
pub open spec fn sst_gen(name: Seq<char>) -> Option<u64> {
    number_between("sst-"@, name, ".sst"@)
}

/// The path is that of a file in `dir` with this name, which gives this
/// generation.
pub open spec fn is_path(path: Seq<char>, dir: Seq<char>, name: Seq<char>, generation: u64) -> bool {
    path == joined(dir, name) && sst_gen(name) == Some(generation)
}

/// The table lies in `dir` under a name that gives its generation.
pub open spec fn in_dir(t: TableView, dir: Seq<char>) -> bool {
    exists|name: Seq<char>| #[trigger] is_path(t.path, dir, name, t.generation)
}

/// The table is what its file reads as.
pub open spec fn faithful(t: TableView) -> bool {
    table_of(t.path, t.generation, t.image) == Ok::<TableView, TableFault>(t)
}

/// The highest sequence number in tables that come newest first; without a
/// table zero.
pub open spec fn top_seq(ts: Seq<TableView>) -> u64 {
    if ts.len() == 0 {
        0
    } else {
        ts[0].max_seq
    }
}

/// The tables come newest first.
pub open spec fn newest_first(ts: Seq<TableView>) -> bool {
    forall|i: int, j: int|
        0 <= i < j < ts.len() ==> (#[trigger] ts[i]).max_seq >= (#[trigger] ts[j]).max_seq
}

/// Tables of one age have the same for the keys that they share, so that their
/// order does not matter.
pub open spec fn ties_agree(ts: Seq<TableView>) -> bool {
    forall|i: int, j: int, k: Seq<u8>|
        0 <= i < j < ts.len() && ts[i].max_seq == ts[j].max_seq && #[trigger] ts[i].slots().contains_key(k)
            && #[trigger] ts[j].slots().contains_key(k) ==> ts[i].slots()[k] == ts[j].slots()[k]
}

/// Where a table goes that was just written: ahead of those that are not newer.
pub open spec fn place_ahead(ts: Seq<TableView>, seq: u64) -> int
    decreases ts.len(),
{
    if ts.len() == 0 || ts.last().max_seq > seq {
        ts.len() as int
    } else {
        place_ahead(ts.drop_last(), seq)
    }
}

/// Where a table goes that is found in the directory: behind those that are as new.
pub open spec fn place_behind(ts: Seq<TableView>, seq: u64) -> int
    decreases ts.len(),
{
    if ts.len() == 0 || ts.last().max_seq >= seq {
        ts.len() as int
    } else {
        place_behind(ts.drop_last(), seq)
    }
}

/// What the engine is.
pub struct LsmView {
    pub dir: Seq<char>,
    pub log_dir: Seq<char>,
    /// The segments of the log.
    pub segs: Seq<SegmentView>,
    /// The buffer.
    pub mem: Stamped,
    /// The tables, newest first.
    pub tables: Seq<TableView>,
    /// Tables that were merged into others and still have a file.
    pub pending: Seq<TableView>,
    pub next_gen: u64,
    pub next_seq: u64,
}

/// The files of tables.
pub open spec fn table_files(ts: Seq<TableView>) -> Files {
    Map::new(
        |f: Seq<char>| exists|i: int| 0 <= i < ts.len() && f == (#[trigger] ts[i]).path,
        |f: Seq<char>| ts[choose|i: int| 0 <= i < ts.len() && f == (#[trigger] ts[i]).path].image,
    )
}

/// No two tables share a path.
pub open spec fn paths_apart(ts: Seq<TableView>) -> bool {
    forall|i: int, j: int|
        0 <= i < j < ts.len() ==> (#[trigger] ts[i]).path != (#[trigger] ts[j]).path
}

impl LsmView {
    /// What the engine relies on: the log is sound, the tables come newest
    /// first, what is in the buffer is newer than any table, and the next
    /// numbers are fresh.
    pub open spec fn wf(self) -> bool {
        &&& segments_wf(self.segs)
        &&& newest_first(self.tables)
        &&& forall|i: int|
            0 <= i < self.tables.len() ==> in_dir(#[trigger] self.tables[i], self.dir)
                && self.tables[i].generation < self.next_gen && faithful(self.tables[i])
        &&& forall|i: int|
            0 <= i < self.pending.len() ==> in_dir(#[trigger] self.pending[i], self.dir)
                && self.pending[i].generation < self.next_gen
        &&& top_seq(self.tables) < self.next_seq
        &&& forall|k: Seq<u8>| #[trigger]
            self.mem.contains_key(k) ==> top_seq(self.tables) < self.mem[k].0 < self.next_seq
        &&& highest_last(self.segs) matches Some(h) ==> h < self.next_seq
        &&& entries_fit(self.mem)
    }

    /// Every table can be read.
    pub open spec fn intact(self) -> bool {
        all_sound(self.tables)
    }

    /// What the tables and the buffer have for each key.
    pub open spec fn slots(self) -> Slots {
        stacked(self.tables).union_prefer_right(unstamped(self.mem))
    }

    /// What the engine holds.
    pub open spec fn contents(self) -> Contents {
        visible(self.slots())
    }

    /// The entries of the log.
    pub open spec fn log(self) -> Seq<WalRecord> {
        all_records(self.segs)
    }

    /// What the files hold once every effect is carried out.
    pub open spec fn disk(self) -> Files {
        segment_files(self.log_dir, self.segs).union_prefer_right(
            table_files(self.pending + self.tables),
        )
    }

    /// No two files share a path.
    pub open spec fn apart(self) -> bool {
        distinct_names(self.segs) && paths_apart(self.pending + self.tables)
    }

    /// The engine can be opened again on its files without loss: the tables
    /// and the log can be read, the log goes up, the last write to a key that
    /// the log knows is what the engine holds, and the log knows every key in
    /// the buffer by a write that no table has.
    pub open spec fn durable(self) -> bool {
        &&& self.intact()
        &&& ties_agree(self.tables)
        &&& all_intact(self.segs)
        &&& strictly_in_order(self.segs)
        &&& seqs_ascend(self.log())
        &&& all_logged(self.log())
        &&& forall|i: int| 0 <= i < self.log().len() ==> (#[trigger] self.log()[i]).seq < self.next_seq
        &&& forall|k: Seq<u8>| #[trigger]
            last_write(self.log(), k) is Some ==> held(self.contents(), k) == last_write(
                self.log(),
                k,
            ).unwrap()
        &&& forall|k: Seq<u8>| #[trigger]
            self.mem.contains_key(k) ==> last_write(
                since(self.log(), (top_seq(self.tables) + 1) as u64),
                k,
            ) is Some
    }
}

/// The engine after a write, before any flush.
pub open spec fn after_write(s: LsmView, op: Op, max_bytes: u64) -> LsmView {
    LsmView {
        segs: appended(s.segs, record_of(s.next_seq, op), max_bytes),
        mem: stamped_in(s.mem, s.next_seq, op.key(), op.slot()),
        next_seq: (s.next_seq + 1) as u64,
        ..s
    }
}

/// The table that a flush makes of the listed entries of the buffer.
pub open spec fn flush_table(s: LsmView, es: Seq<Slot>, newest: u64) -> TableView {
    written_table(joined(s.dir, sst_name(s.next_gen)), s.next_gen, es, newest)
}

/// The engine after its buffer went to a table, before the log lets go of it.
pub open spec fn after_table(s: LsmView, es: Seq<Slot>, newest: u64) -> LsmView {
    LsmView {
        tables: s.tables.insert(place_ahead(s.tables, newest), flush_table(s, es, newest)),
        mem: Stamped::empty(),
        next_gen: (s.next_gen + 1) as u64,
        ..s
    }
}

/// The engine after a flush.
pub open spec fn after_flush(s: LsmView, es: Seq<Slot>, newest: u64) -> LsmView {
    LsmView { segs: truncated(s.segs, (newest + 1) as u64), ..after_table(s, es, newest) }
}

/// The effects of a flush: the table is there before the log lets go of it.
pub open spec fn flush_effects(s: LsmView, es: Seq<Slot>, newest: u64) -> Seq<EffectView> {
    seq![
        EffectView::Write {
            file: flush_table(s, es, newest).path,
            content: flush_table(s, es, newest).image,
        },
    ] + remove_effects(s.log_dir, settled(s.segs.drop_last(), (newest + 1) as u64))
}

/// `newest` is the highest sequence number in the buffer.
pub open spec fn is_newest(mem: Stamped, newest: u64) -> bool {
    &&& forall|k: Seq<u8>| #[trigger] mem.contains_key(k) ==> mem[k].0 <= newest
    &&& exists|k: Seq<u8>| #[trigger] mem.contains_key(k) && mem[k].0 == newest
}

/// The tables that a merge makes of the listed values.
pub open spec fn merge_tables(s: LsmView, es: Seq<Slot>) -> Seq<TableView> {
    if es.len() == 0 {
        seq![]
    } else {
        seq![
            written_table(
                joined(s.dir, sst_name(s.next_gen)),
                s.next_gen,
                es,
                top_seq(s.tables),
            ),
        ]
    }
}

/// The engine after its tables were merged, before any file is removed.
pub open spec fn after_merge(s: LsmView, es: Seq<Slot>) -> LsmView {
    LsmView {
        tables: merge_tables(s, es),
        pending: s.pending + s.tables,
        next_gen: (s.next_gen + 1) as u64,
        ..s
    }
}

/// The effects of writing the tables of a merge.
pub open spec fn merge_effects(ts: Seq<TableView>) -> Seq<EffectView> {
    Seq::new(ts.len(), |i: int| EffectView::Write { file: ts[i].path, content: ts[i].image })
}

/// The tables that are still in use.
pub open spec fn in_use(ts: Seq<TableView>, used: Seq<bool>) -> Seq<TableView>
    decreases ts.len(),
{
    if ts.len() == 0 {
        seq![]
    } else {
        let rest = in_use(ts.drop_last(), used);
        if used[ts.len() - 1] {
            rest.push(ts.last())
        } else {
            rest
        }
    }
}

/// The effects of removing the tables that are not in use, the last one first, so
/// that of tables that come newest first the oldest goes before the others.
pub open spec fn sweep_effects(ts: Seq<TableView>, used: Seq<bool>) -> Seq<EffectView>
    decreases ts.len(),
{
    if ts.len() == 0 {
        seq![]
    } else {
        let rest = sweep_effects(ts.drop_last(), used);
        if used[ts.len() - 1] {
            rest
        } else {
            seq![EffectView::Remove { file: ts.last().path }] + rest
        }
    }
}

/// The engine after the tables that are not in use lost their files.
pub open spec fn after_sweep(s: LsmView, used: Seq<bool>) -> LsmView {
    LsmView { pending: in_use(s.pending, used), ..s }
}

// ---- names -------------------------------------------------------------------------

/// The generation of a table is read back from its name.
pub proof fn lemma_sst_name(generation: u64)
    ensures
        sst_gen(sst_name(generation)) == Some(generation),
{
    text::lemma_numbered_read_back("sst-"@, generation, ".sst"@);
}

/// The path of a new table is no other table's.
proof fn lemma_fresh_path(t: TableView, dir: Seq<char>, generation: u64)
    requires
        in_dir(t, dir),
        t.generation < generation,
    ensures
        t.path != joined(dir, sst_name(generation)),
{
    let name = choose|name: Seq<char>| #[trigger] is_path(t.path, dir, name, t.generation);
    lemma_sst_name(generation);
    if t.path == joined(dir, sst_name(generation)) {
        text::lemma_joined_injective(dir, name, sst_name(generation));
    }
}

pub proof fn lemma_new_in_dir(t: TableView, dir: Seq<char>)
    requires
        t.path == joined(dir, sst_name(t.generation)),
    ensures
        in_dir(t, dir),
{
    lemma_sst_name(t.generation);
    assert(is_path(t.path, dir, sst_name(t.generation), t.generation));
}

proof fn lemma_joined_last(dir: Seq<char>, name: Seq<char>)
    requires
        name.len() > 0,
    ensures
        joined(dir, name).len() > 0,
        joined(dir, name).last() == name.last(),
{
}

/// The path of a table ends otherwise than that of a segment.
pub proof fn lemma_table_name_end(dir: Seq<char>, name: Seq<char>)
    requires
        sst_gen(name) is Some,
    ensures
        joined(dir, name).len() > 0,
        joined(dir, name).last() == 't',
{
    reveal_strlit("sst-");
    reveal_strlit(".sst");
    let tail = name.subrange(name.len() - 4, name.len() as int);
    assert(tail[3] == name[name.len() - 1]);
    lemma_joined_last(dir, name);
}

pub proof fn lemma_table_path_end(t: TableView, dir: Seq<char>)
    requires
        in_dir(t, dir),
    ensures
        t.path.len() > 0,
        t.path.last() == 't',
{
    let name = choose|name: Seq<char>| #[trigger] is_path(t.path, dir, name, t.generation);
    lemma_table_name_end(dir, name);
}

pub proof fn lemma_segment_name_end(dir: Seq<char>, name: Seq<char>)
    requires
        segment_start(name) is Some,
    ensures
        joined(dir, name).len() > 0,
        joined(dir, name).last() == 'g',
{
    reveal_strlit("wal-");
    reveal_strlit(".log");
    let tail = name.subrange(name.len() - 4, name.len() as int);
    assert(tail[3] == name[name.len() - 1]);
    lemma_joined_last(dir, name);
}

pub proof fn lemma_segment_path_end(dir: Seq<char>, seg: SegmentView)
    requires
        seg.wf(),
    ensures
        joined(dir, seg.name).len() > 0,
        joined(dir, seg.name).last() == 'g',
{
    lemma_segment_name_end(dir, seg.name);
}

// ---- places ------------------------------------------------------------------------

pub proof fn lemma_place_ahead(ts: Seq<TableView>, seq: u64)
    requires
        newest_first(ts),
    ensures
        0 <= place_ahead(ts, seq) <= ts.len(),
        forall|i: int| 0 <= i < place_ahead(ts, seq) ==> (#[trigger] ts[i]).max_seq > seq,
        forall|i: int|
            place_ahead(ts, seq) <= i < ts.len() ==> (#[trigger] ts[i]).max_seq <= seq,
    decreases ts.len(),
{
    if ts.len() > 0 {
        let d = ts.drop_last();
        let l = ts.len() - 1;
        if ts.last().max_seq > seq {
            assert forall|i: int| 0 <= i < ts.len() implies (#[trigger] ts[i]).max_seq > seq by {
                if i < l {
                    assert(ts[i].max_seq >= ts[l].max_seq);
                }
            }
        } else {
            assert forall|i: int, j: int| 0 <= i < j < d.len() implies (#[trigger] d[i]).max_seq
                >= (#[trigger] d[j]).max_seq by {
                assert(ts[i].max_seq >= ts[j].max_seq);
            }
            lemma_place_ahead(d, seq);
            assert forall|i: int| 0 <= i < place_ahead(ts, seq) implies (#[trigger] ts[i]).max_seq
                > seq by {
                assert(d[i].max_seq > seq);
            }
            assert forall|i: int|
                place_ahead(ts, seq) <= i < ts.len() implies (#[trigger] ts[i]).max_seq <= seq by {
                if i < l {
                    assert(d[i].max_seq <= seq);
                }
            }
        }
    }
}

/// A table newer than all others goes to the front.
proof fn lemma_goes_first(ts: Seq<TableView>, t: TableView)
    requires
        newest_first(ts),
        top_seq(ts) < t.max_seq,
    ensures
        place_ahead(ts, t.max_seq) == 0,
        ts.insert(0, t) == seq![t] + ts,
        newest_first(seq![t] + ts),
        ties_agree(ts) ==> ties_agree(seq![t] + ts),
        top_seq(seq![t] + ts) == t.max_seq,
{
    lemma_place_ahead(ts, t.max_seq);
    if place_ahead(ts, t.max_seq) > 0 {
        assert(ts[0].max_seq > t.max_seq);
    }
    let all = seq![t] + ts;
    assert(ts.insert(0, t) =~= all);
    assert forall|i: int, j: int| 0 <= i < j < all.len() implies (#[trigger] all[i]).max_seq >= (
    #[trigger] all[j]).max_seq by {
        assert(all[j] == ts[j - 1]);
        if j > 1 {
            assert(ts[0].max_seq >= ts[j - 1].max_seq);
        }
        if i > 0 {
            assert(all[i] == ts[i - 1]);
        }
    }
    if ties_agree(ts) {
        assert forall|i: int, j: int, k: Seq<u8>|
            0 <= i < j < all.len() && all[i].max_seq == all[j].max_seq
                && #[trigger] all[i].slots().contains_key(k)
                && #[trigger] all[j].slots().contains_key(k) implies all[i].slots()[k]
            == all[j].slots()[k] by {
            assert(all[j] == ts[j - 1]);
            if j > 1 {
                assert(ts[0].max_seq >= ts[j - 1].max_seq);
            }
            if i > 0 {
                assert(all[i] == ts[i - 1]);
                assert(ts[i - 1].slots().contains_key(k));
            }
        }
    }
}

// ---- a write -----------------------------------------------------------------------

/// The log has a number for its next segment.
pub open spec fn log_has_room(s: LsmView, op: Op, max_bytes: u64) -> bool {
    let g = grown(s.segs, record_of(s.next_seq, op));
    full(g, max_bytes) ==> next_start(g) <= u64::MAX
}

pub proof fn lemma_highest_appended(segs: Seq<SegmentView>, r: WalRecord, max_bytes: u64)
    requires
        segs.len() > 0,
        highest_last(segs) matches Some(h) ==> h < r.seq,
    ensures
        highest_last(grown(segs, r)) == Some(r.seq),
        highest_last(appended(segs, r, max_bytes)) == Some(r.seq),
{
    let g = grown(segs, r);
    assert(g.drop_last() =~= segs.drop_last());
    let f = SegmentView::fresh(next_start(g) as u64);
    assert(g.push(f).drop_last() =~= g);
}

/// A write is what the engine then holds; the order of the tables and of the
/// numbers is kept, and an engine that survives being closed still does, if the
/// log can hold the write.
pub proof fn lemma_after_write(s: LsmView, op: Op, max_bytes: u64)
    requires
        s.wf(),
        s.next_seq < u64::MAX,
        log_has_room(s, op, max_bytes),
        fits((op.key(), op.slot())),
    ensures
        after_write(s, op, max_bytes).wf(),
        after_write(s, op, max_bytes).contents() == written(s.contents(), op),
        s.apart() ==> after_write(s, op, max_bytes).apart(),
        s.durable() && readable(record_of(s.next_seq, op)) ==> after_write(
            s,
            op,
            max_bytes,
        ).durable(),
{
    let n = after_write(s, op, max_bytes);
    let r = record_of(s.next_seq, op);
    segment::lemma_appended(s.segs, r, max_bytes);
    lemma_highest_appended(s.segs, r, max_bytes);
    assert(!stale(s.mem, op.key(), s.next_seq));
    assert(n.mem == s.mem.insert(op.key(), (s.next_seq, op.slot())));
    assert(n.slots() =~= s.slots().insert(op.key(), op.slot()));
    assert(n.contents() =~= written(s.contents(), op));
    if s.durable() && readable(r) {
        let log = s.log();
        assert(n.log() == log.push(r));
        reopen::lemma_appended_strict(s.segs, r, max_bytes);
        replay::lemma_logged_read_back(s.next_seq, op);
        assert forall|i: int, j: int| 0 <= i < j < n.log().len() implies (#[trigger] n.log()[i]).seq
            < (#[trigger] n.log()[j]).seq by {
            if j < log.len() {
                assert(log[i].seq < log[j].seq);
            } else {
                assert(log[i].seq < s.next_seq);
            }
        }
        assert forall|i: int| 0 <= i < n.log().len() implies is_logged(#[trigger] n.log()[i]) by {
            if i < log.len() {
                assert(is_logged(log[i]));
            }
        }
        assert forall|i: int| 0 <= i < n.log().len() implies (#[trigger] n.log()[i]).seq
            < n.next_seq by {
            if i < log.len() {
                assert(log[i].seq < s.next_seq);
            }
        }
        assert forall|k: Seq<u8>| #[trigger] last_write(n.log(), k) is Some implies held(
            n.contents(),
            k,
        ) == last_write(n.log(), k).unwrap() by {
            replay::lemma_last_write_push(log, r, k);
            if k != op.key() {
                assert(last_write(log, k) is Some);
                lemma_written_elsewhere(s.contents(), op, k);
            }
        }
        let from = (top_seq(s.tables) + 1) as u64;
        record::lemma_since_push(log, r, from);
        assert forall|k: Seq<u8>| #[trigger] n.mem.contains_key(k) implies last_write(
            since(n.log(), from),
            k,
        ) is Some by {
            replay::lemma_last_write_push(since(log, from), r, k);
            if k != op.key() {
                assert(s.mem.contains_key(k));
            }
        }
    }
}

// ---- a flush -----------------------------------------------------------------------

/// Dropping the head of the log keeps what the log says of the keys it still
/// knows.
pub proof fn lemma_log_tail(s: LsmView, n: LsmView, cut: int)
    requires
        s.durable(),
        0 <= cut <= s.log().len(),
        n.log() == s.log().skip(cut),
        n.contents() == s.contents(),
        n.next_seq == s.next_seq,
    ensures
        seqs_ascend(n.log()),
        all_logged(n.log()),
        forall|i: int| 0 <= i < n.log().len() ==> (#[trigger] n.log()[i]).seq < n.next_seq,
        forall|k: Seq<u8>| #[trigger]
            last_write(n.log(), k) is Some ==> held(n.contents(), k) == last_write(
                n.log(),
                k,
            ).unwrap(),
{
    let log = s.log();
    let tail = n.log();
    assert forall|i: int, j: int| 0 <= i < j < tail.len() implies (#[trigger] tail[i]).seq < (
    #[trigger] tail[j]).seq by {
        assert(log[i + cut].seq < log[j + cut].seq);
    }
    assert forall|i: int| 0 <= i < tail.len() implies is_logged(#[trigger] tail[i]) by {
        assert(is_logged(log[i + cut]));
    }
    assert forall|i: int| 0 <= i < tail.len() implies (#[trigger] tail[i]).seq < n.next_seq by {
        assert(log[i + cut].seq < s.next_seq);
    }
    assert forall|k: Seq<u8>| #[trigger] last_write(tail, k) is Some implies held(n.contents(), k)
        == last_write(tail, k).unwrap() by {
        assert(log =~= log.take(cut) + tail);
        replay::lemma_last_write_add(log.take(cut), tail, k);
        assert(last_write(log, k) is Some);
    }
}

proof fn lemma_highest_truncated(segs: Seq<SegmentView>, before: u64)
    requires
        segs.len() > 0,
    ensures
        highest_last(truncated(segs, before)) matches Some(h) ==> highest_last(segs) matches Some(
            g,
        ) && h <= g,
{
    let d = segs.drop_last();
    lemma_highest_reaching(d, before);
    let kept = reaching(d, before);
    assert(kept.push(segs.last()).drop_last() =~= kept);
}

proof fn lemma_highest_reaching(segs: Seq<SegmentView>, offset: u64)
    ensures
        highest_last(reaching(segs, offset)) matches Some(h) ==> highest_last(segs) matches Some(
            g,
        ) && h <= g,
    decreases segs.len(),
{
    if segs.len() > 0 {
        let d = segs.drop_last();
        lemma_highest_reaching(d, offset);
        let kept = reaching(d, offset);
        assert(kept.push(segs.last()).drop_last() =~= kept);
    }
}

/// The table of a flush can be read, and has what the buffer had.
pub proof fn lemma_flush_table(s: LsmView, es: Seq<Slot>, newest: u64)
    requires
        s.wf(),
        lists_in_order(es, unstamped(s.mem)),
        table_bytes(es, newest).len() <= u64::MAX,
    ensures
        flush_table(s, es, newest).sound(),
        flush_table(s, es, newest).slots() == unstamped(s.mem),
{
    let t = flush_table(s, es, newest);
    let m = unstamped(s.mem);
    assert(slots_fit(m)) by {
        assert forall|k: Seq<u8>| #[trigger] m.contains_key(k) implies fits((k, m[k])) by {
            assert(s.mem.contains_key(k));
        }
    }
    layers::lemma_written_table(t.path, t.generation, es, newest, m);
}

/// A table that is written of the buffer changes nothing of what the engine
/// holds, and the engine survives being closed even if the log still has what
/// is in the table.
pub proof fn lemma_after_table(s: LsmView, es: Seq<Slot>, newest: u64)
    requires
        s.wf(),
        s.next_gen < u64::MAX,
        lists_in_order(es, unstamped(s.mem)),
        is_newest(s.mem, newest),
        table_bytes(es, newest).len() <= u64::MAX,
    ensures
        after_table(s, es, newest).wf(),
        after_table(s, es, newest).tables == seq![flush_table(s, es, newest)] + s.tables,
        flush_table(s, es, newest).sound(),
        s.intact() ==> after_table(s, es, newest).intact(),
        after_table(s, es, newest).contents() == s.contents(),
        s.apart() ==> after_table(s, es, newest).apart(),
        s.durable() ==> after_table(s, es, newest).durable(),
{
    let n = after_table(s, es, newest);
    let t = flush_table(s, es, newest);
    let m = unstamped(s.mem);
    let k0 = choose|k: Seq<u8>| #[trigger] s.mem.contains_key(k) && s.mem[k].0 == newest;
    assert(top_seq(s.tables) < newest < s.next_seq);
    lemma_goes_first(s.tables, t);
    assert(slots_fit(m)) by {
        assert forall|k: Seq<u8>| #[trigger] m.contains_key(k) implies fits((k, m[k])) by {
            assert(s.mem.contains_key(k));
        }
    }
    layers::lemma_written_table(t.path, t.generation, es, newest, m);
    lemma_new_in_dir(t, s.dir);
    layers::lemma_stacked_front(t, s.tables);
    assert(n.slots() =~= s.slots());
    assert forall|i: int| 0 <= i < n.tables.len() implies in_dir(#[trigger] n.tables[i], n.dir)
        && n.tables[i].generation < n.next_gen && faithful(n.tables[i]) by {
        if i > 0 {
            assert(n.tables[i] == s.tables[i - 1]);
        }
    }
    if s.intact() {
        assert forall|i: int| 0 <= i < n.tables.len() implies (#[trigger] n.tables[i]).sound() by {
            if i > 0 {
                assert(n.tables[i] == s.tables[i - 1]);
            }
        }
    }
    if s.apart() {
        lemma_new_path_apart(s, t);
    }
}

/// A flush changes nothing of what the engine holds, keeps its order, and
/// keeps an engine that survives being closed.
pub proof fn lemma_after_flush(s: LsmView, es: Seq<Slot>, newest: u64)
    requires
        s.wf(),
        s.next_gen < u64::MAX,
        lists_in_order(es, unstamped(s.mem)),
        is_newest(s.mem, newest),
        table_bytes(es, newest).len() <= u64::MAX,
    ensures
        after_flush(s, es, newest).wf(),
        after_flush(s, es, newest).tables == seq![flush_table(s, es, newest)] + s.tables,
        flush_table(s, es, newest).sound(),
        s.intact() ==> after_flush(s, es, newest).intact(),
        after_flush(s, es, newest).contents() == s.contents(),
        s.apart() ==> after_flush(s, es, newest).apart(),
        s.durable() ==> after_flush(s, es, newest).durable(),
{
    let w = after_table(s, es, newest);
    let n = after_flush(s, es, newest);
    let before = (newest + 1) as u64;
    lemma_after_table(s, es, newest);
    segment::lemma_truncated(s.segs, before);
    lemma_highest_truncated(s.segs, before);
    if s.durable() {
        let cut = segment::lemma_truncated_tail(s.segs, before);
        reopen::lemma_truncated_strict(s.segs, before);
        lemma_log_tail(w, n, cut);
    }
}

/// A new table in front keeps the paths apart.
pub proof fn lemma_new_path_apart(s: LsmView, t: TableView)
    requires
        s.wf(),
        s.apart(),
        t.path == joined(s.dir, sst_name(s.next_gen)),
    ensures
        paths_apart(s.pending + (seq![t] + s.tables)),
        paths_apart((s.pending + s.tables).push(t)),
{
    let old_all = s.pending + s.tables;
    assert forall|i: int| 0 <= i < old_all.len() implies (#[trigger] old_all[i]).path != t.path by {
        if i < s.pending.len() {
            assert(old_all[i] == s.pending[i]);
            lemma_fresh_path(s.pending[i], s.dir, s.next_gen);
        } else {
            assert(old_all[i] == s.tables[i - s.pending.len()]);
            lemma_fresh_path(s.tables[i - s.pending.len()], s.dir, s.next_gen);
        }
    }
    let all = s.pending + (seq![t] + s.tables);
    let p = s.pending.len();
    assert forall|i: int, j: int| 0 <= i < j < all.len() implies (#[trigger] all[i]).path != (
    #[trigger] all[j]).path by {
        let a = if i < p {
            i
        } else {
            i - 1
        };
        let b = if j < p {
            j
        } else {
            j - 1
        };
        if i != p {
            assert(all[i] == old_all[a]);
        }
        if j != p {
            assert(all[j] == old_all[b]);
        }
    }
    let more = old_all.push(t);
    assert forall|i: int, j: int| 0 <= i < j < more.len() implies (#[trigger] more[i]).path != (
    #[trigger] more[j]).path by {
        assert(more[i] == old_all[i]);
        if j < old_all.len() {
            assert(more[j] == old_all[j]);
        }
    }
}

// ---- a merge -----------------------------------------------------------------------

/// What a merge writes is sound and has the values of all tables.
pub proof fn lemma_merge_tables(s: LsmView, m: Slots, es: Seq<Slot>)
    requires
        s.wf(),
        merged(s.tables) == Ok::<Slots, ReadFault>(m),
        lists_in_order(es, live(m)),
        table_bytes(es, top_seq(s.tables)).len() <= u64::MAX,
    ensures
        all_sound(merge_tables(s, es)),
        stacked(merge_tables(s, es)) == live(m),
        forall|i: int|
            0 <= i < merge_tables(s, es).len() ==> in_dir(#[trigger] merge_tables(s, es)[i], s.dir)
                && merge_tables(s, es)[i].generation == s.next_gen && faithful(
                merge_tables(s, es)[i],
            ),
        top_seq(merge_tables(s, es)) <= top_seq(s.tables),
{
    let path = joined(s.dir, sst_name(s.next_gen));
    let top = top_seq(s.tables);
    let t = written_table(path, s.next_gen, es, top);
    layers::lemma_merged_fits(s.tables);
    assert(slots_fit(live(m))) by {
        assert forall|k: Seq<u8>| #[trigger] live(m).contains_key(k) implies fits(
            (k, live(m)[k]),
        ) by {
            assert(m.contains_key(k));
        }
    }
    layers::lemma_written_table(path, s.next_gen, es, top, live(m));
    lemma_new_in_dir(t, s.dir);
    layers::lemma_stacked_one(t);
    if es.len() == 0 {
        assert forall|k: Seq<u8>| !live(m).contains_key(k) by {
            if live(m).contains_key(k) {
                assert(crate::ordered::first_of(es).contains(k));
            }
        }
        assert(live(m) =~= Slots::empty());
        assert(stacked(merge_tables(s, es)) =~= Slots::empty());
    }
}

/// Merging changes nothing of what the engine holds, keeps its order, and
/// keeps an engine that survives being closed.
pub proof fn lemma_after_merge(s: LsmView, m: Slots, es: Seq<Slot>)
    requires
        s.wf(),
        s.next_gen < u64::MAX,
        merged(s.tables) == Ok::<Slots, ReadFault>(m),
        lists_in_order(es, live(m)),
        table_bytes(es, top_seq(s.tables)).len() <= u64::MAX,
    ensures
        after_merge(s, es).wf(),
        after_merge(s, es).intact(),
        s.intact() ==> after_merge(s, es).contents() == s.contents(),
        s.apart() ==> after_merge(s, es).apart(),
        s.durable() ==> after_merge(s, es).durable(),
{
    let n = after_merge(s, es);
    lemma_merge_tables(s, m, es);
    assert forall|i: int| 0 <= i < n.pending.len() implies in_dir(#[trigger] n.pending[i], n.dir)
        && n.pending[i].generation < n.next_gen by {
        if i < s.pending.len() {
            assert(n.pending[i] == s.pending[i]);
        } else {
            assert(n.pending[i] == s.tables[i - s.pending.len()]);
        }
    }
    assert(n.wf());
    if s.intact() {
        layers::lemma_merged_sound(s.tables);
        assert(n.contents() =~= s.contents());
    }
    if s.apart() {
        if es.len() == 0 {
            assert(n.pending + n.tables =~= s.pending + s.tables);
        } else {
            let t = n.tables[0];
            lemma_new_path_apart(s, t);
            assert(n.pending + n.tables =~= (s.pending + s.tables).push(t));
        }
    }
    if s.durable() {
        lemma_merge_durable(s, n);
    }
}

/// An engine that survives being closed does so with other tables for the
/// same contents.
pub proof fn lemma_merge_durable(s: LsmView, n: LsmView)
    requires
        s.durable(),
        top_seq(s.tables) < u64::MAX,
        n.intact(),
        ties_agree(n.tables),
        top_seq(n.tables) <= top_seq(s.tables),
        n.segs == s.segs,
        n.mem == s.mem,
        n.next_seq == s.next_seq,
        n.contents() == s.contents(),
    ensures
        n.durable(),
{
    let a = (top_seq(s.tables) + 1) as u64;
    let b = (top_seq(n.tables) + 1) as u64;
    assert forall|k: Seq<u8>| #[trigger] n.mem.contains_key(k) implies last_write(
        since(n.log(), b),
        k,
    ) is Some by {
        assert(s.mem.contains_key(k));
        replay::lemma_since_earlier(s.log(), b, a, k);
    }
}

/// Removing files of tables that are not in use changes nothing else.
pub proof fn lemma_after_sweep(s: LsmView, used: Seq<bool>)
    requires
        s.wf(),
        used.len() == s.pending.len(),
    ensures
        after_sweep(s, used).wf(),
        after_sweep(s, used).intact() == s.intact(),
        after_sweep(s, used).contents() == s.contents(),
        s.apart() ==> after_sweep(s, used).apart(),
        s.durable() ==> after_sweep(s, used).durable(),
{
    let n = after_sweep(s, used);
    lemma_in_use(s.pending, used);
    if s.apart() {
        lemma_in_use_apart(s.pending, used, s.tables);
    }
    assert forall|i: int| 0 <= i < n.pending.len() implies in_dir(#[trigger] n.pending[i], n.dir)
        && n.pending[i].generation < n.next_gen by {
        let j = s.pending.index_of(n.pending[i]);
        assert(in_dir(s.pending[j], s.dir));
    }
}

proof fn lemma_in_use(ts: Seq<TableView>, used: Seq<bool>)
    ensures
        forall|i: int|
            0 <= i < in_use(ts, used).len() ==> ts.contains(#[trigger] in_use(ts, used)[i]),
    decreases ts.len(),
{
    if ts.len() > 0 {
        let d = ts.drop_last();
        lemma_in_use(d, used);
        let u = in_use(ts, used);
        let v = in_use(d, used);
        assert forall|i: int| 0 <= i < u.len() implies ts.contains(#[trigger] u[i]) by {
            if i < v.len() {
                assert(u[i] == v[i]);
                let j = d.index_of(v[i]);
                assert(ts[j] == u[i]);
            } else {
                assert(ts[ts.len() - 1] == u[i]);
            }
        }
    }
}

/// Leaving tables out keeps the paths of the others apart.
proof fn lemma_in_use_apart(ts: Seq<TableView>, used: Seq<bool>, rest: Seq<TableView>)
    requires
        paths_apart(ts + rest),
    ensures
        paths_apart(in_use(ts, used) + rest),
    decreases ts.len(),
{
    if ts.len() == 0 {
        assert(in_use(ts, used) + rest =~= ts + rest);
    } else {
        let d = ts.drop_last();
        let more = seq![ts.last()] + rest;
        assert(d + more =~= ts + rest);
        if used[ts.len() - 1] {
            lemma_in_use_apart(d, used, more);
            assert(in_use(d, used) + more =~= in_use(ts, used) + rest);
        } else {
            let all = ts + rest;
            let fewer = d + rest;
            assert forall|i: int, j: int| 0 <= i < j < fewer.len() implies (
            #[trigger] fewer[i]).path != (#[trigger] fewer[j]).path by {
                let a = if i < d.len() {
                    i
                } else {
                    i + 1
                };
                let b = if j < d.len() {
                    j
                } else {
                    j + 1
                };
                assert(fewer[i] == all[a]);
                assert(fewer[j] == all[b]);
            }
            lemma_in_use_apart(d, used, rest);
        }
    }
}

// ---- what the host is told ------------------------------------------------------------

/// The file that an effect is about.
pub open spec fn effect_file(e: EffectView) -> Seq<char> {
    match e {
        EffectView::Create { file } => file,
        EffectView::Append { file, .. } => file,
        EffectView::Sync { file } => file,
        EffectView::Cut { file, .. } => file,
        EffectView::Write { file, .. } => file,
        EffectView::Remove { file } => file,
    }
}

/// From queue `qa` to queue `qb` the host was told what turns the files of `a`
/// into those of `b`.
pub open spec fn mirrored(
    a: LsmView,
    qa: Seq<EffectView>,
    b: LsmView,
    qb: Seq<EffectView>,
) -> bool {
    &&& qa.len() <= qb.len()
    &&& qb.take(qa.len() as int) == qa
    &&& performed_all(a.disk(), qb.skip(qa.len() as int)) == b.disk()
}

/// One step after another.
pub proof fn lemma_mirrored_on(
    a: LsmView,
    qa: Seq<EffectView>,
    b: LsmView,
    qb: Seq<EffectView>,
    c: LsmView,
    qc: Seq<EffectView>,
)
    requires
        mirrored(a, qa, b, qb),
        mirrored(b, qb, c, qc),
    ensures
        mirrored(a, qa, c, qc),
{
    let n = qa.len() as int;
    let m = qb.len() as int;
    assert(qc.take(n) =~= qb.take(n)) by {
        assert(qb =~= qc.take(m));
    }
    assert(qc.skip(n) =~= qb.skip(n) + qc.skip(m)) by {
        assert(qb =~= qc.take(m));
    }
    disk::lemma_performed_add(a.disk(), qb.skip(n), qc.skip(m));
}

/// Effects that were queued as one list.
pub proof fn lemma_mirrored_by(a: LsmView, q: Seq<EffectView>, b: LsmView, es: Seq<EffectView>)
    requires
        performed_all(a.disk(), es) == b.disk(),
    ensures
        mirrored(a, q, b, q + es),
{
    assert((q + es).take(q.len() as int) =~= q);
    assert((q + es).skip(q.len() as int) =~= es);
}

/// Effects on other files leave `right` alone.
proof fn lemma_performed_left(left: Files, right: Files, es: Seq<EffectView>)
    requires
        forall|i: int| 0 <= i < es.len() ==> !right.contains_key(effect_file(#[trigger] es[i])),
        forall|i: int|
            0 <= i < es.len() && ((#[trigger] es[i]) is Append || es[i] is Cut) ==> i == 0
                && left.contains_key(effect_file(es[i])),
    ensures
        performed_all(left.union_prefer_right(right), es) == performed_all(
            left,
            es,
        ).union_prefer_right(right),
    decreases es.len(),
{
    if es.len() > 0 {
        let d = es.drop_last();
        let l = es.len() - 1;
        assert forall|i: int| 0 <= i < d.len() implies !right.contains_key(
            effect_file(#[trigger] d[i]),
        ) by {
            assert(d[i] == es[i]);
        }
        assert forall|i: int|
            0 <= i < d.len() && ((#[trigger] d[i]) is Append || d[i] is Cut) implies i == 0
            && left.contains_key(effect_file(d[i])) by {
            assert(d[i] == es[i]);
        }
        lemma_performed_left(left, right, d);
        let e = es[l];
        let prior = performed_all(left, d);
        assert(!right.contains_key(effect_file(e)));
        if l == 0 {
            assert(d =~= Seq::<EffectView>::empty());
            assert(prior == left);
        }
        assert(performed(prior.union_prefer_right(right), e) =~= performed(
            prior,
            e,
        ).union_prefer_right(right));
    }
}

/// Which files the segments have.
pub proof fn lemma_log_files(dir: Seq<char>, segs: Seq<SegmentView>)
    requires
        forall|i: int| 0 <= i < segs.len() ==> (#[trigger] segs[i]).wf(),
    ensures
        forall|f: Seq<char>| #[trigger]
            segment_files(dir, segs).contains_key(f) ==> f.len() > 0 && f.last() == 'g',
    decreases segs.len(),
{
    if segs.len() > 0 {
        let d = segs.drop_last();
        assert forall|i: int| 0 <= i < d.len() implies (#[trigger] d[i]).wf() by {
            assert(segs[i].wf());
        }
        lemma_log_files(dir, d);
        assert(segs[segs.len() - 1].wf());
        lemma_segment_path_end(dir, segs.last());
        assert forall|f: Seq<char>| #[trigger]
            segment_files(dir, segs).contains_key(f) implies f.len() > 0 && f.last() == 'g' by {
            if f != joined(dir, segs.last().name) {
                assert(segment_files(dir, d).contains_key(f));
            }
        }
    }
}

/// Which files the tables have.
pub proof fn lemma_table_files_end(s: LsmView)
    requires
        s.wf(),
    ensures
        forall|f: Seq<char>| #[trigger]
            table_files(s.pending + s.tables).contains_key(f) ==> f.len() > 0 && f.last() == 't',
{
    let all = s.pending + s.tables;
    assert forall|f: Seq<char>| #[trigger] table_files(all).contains_key(f) implies f.len() > 0
        && f.last() == 't' by {
        let i = choose|i: int| 0 <= i < all.len() && f == (#[trigger] all[i]).path;
        if i < s.pending.len() {
            assert(all[i] == s.pending[i]);
        } else {
            assert(all[i] == s.tables[i - s.pending.len()]);
        }
        lemma_table_path_end(all[i], s.dir);
    }
}

/// What stands in the files of tables.
pub proof fn lemma_table_file(ts: Seq<TableView>, i: int)
    requires
        paths_apart(ts),
        0 <= i < ts.len(),
    ensures
        table_files(ts).contains_key(ts[i].path),
        table_files(ts)[ts[i].path] == ts[i].image,
{
    let j = choose|j: int| 0 <= j < ts.len() && ts[i].path == (#[trigger] ts[j]).path;
    if i < j {
        assert(ts[i].path != ts[j].path);
    } else if j < i {
        assert(ts[j].path != ts[i].path);
    }
}

/// One more table is one more file.
proof fn lemma_table_files_more(ts: Seq<TableView>, more: Seq<TableView>, t: TableView)
    requires
        paths_apart(more),
        forall|i: int| 0 <= i < ts.len() ==> more.contains(#[trigger] ts[i]),
        more.contains(t),
        forall|i: int| 0 <= i < more.len() ==> more[i] == t || ts.contains(#[trigger] more[i]),
        paths_apart(ts),
    ensures
        table_files(more) == table_files(ts).insert(t.path, t.image),
{
    let a = table_files(more);
    let b = table_files(ts).insert(t.path, t.image);
    assert forall|f: Seq<char>| a.contains_key(f) <==> b.contains_key(f) by {
        if a.contains_key(f) {
            let i = choose|i: int| 0 <= i < more.len() && f == (#[trigger] more[i]).path;
            if more[i] != t {
                let j = ts.index_of(more[i]);
                assert(ts[j].path == f);
            }
        }
        if b.contains_key(f) {
            if f == t.path {
                let i = more.index_of(t);
                assert(more[i].path == f);
            } else {
                let j = choose|j: int| 0 <= j < ts.len() && f == (#[trigger] ts[j]).path;
                let i = more.index_of(ts[j]);
                assert(more[i].path == f);
            }
        }
    }
    assert forall|f: Seq<char>| #[trigger] a.contains_key(f) implies a[f] == b[f] by {
        let i = choose|i: int| 0 <= i < more.len() && f == (#[trigger] more[i]).path;
        lemma_table_file(more, i);
        if f == t.path {
            let k = more.index_of(t);
            lemma_table_file(more, k);
        } else {
            let j = ts.index_of(more[i]);
            lemma_table_file(ts, j);
        }
    }
    assert(a =~= b);
}

/// The host is told a write.
pub proof fn lemma_write_mirrors(s: LsmView, op: Op, config: WalConfig)
    requires
        s.wf(),
        config.dir@ == s.log_dir,
    ensures
        performed_all(s.disk(), append_effects(config, s.segs, record_of(s.next_seq, op)))
            == after_write(s, op, config.max_segment_bytes).disk(),
{
    let r = record_of(s.next_seq, op);
    let es = append_effects(config, s.segs, r);
    let left = segment_files(s.log_dir, s.segs);
    let right = table_files(s.pending + s.tables);
    lemma_table_files_end(s);
    let l = s.segs.len() - 1;
    assert(s.segs[l].wf());
    lemma_segment_path_end(s.log_dir, s.segs.last());
    let g = grown(s.segs, r);
    segment::lemma_segment_name(next_start(g) as u64);
    lemma_segment_path_end(s.log_dir, SegmentView::fresh(next_start(g) as u64));
    assert forall|i: int| 0 <= i < es.len() implies !right.contains_key(
        effect_file(#[trigger] es[i]),
    ) by {
        assert(effect_file(es[i]).last() == 'g');
    }
    lemma_performed_left(left, right, es);
    segment::lemma_append_mirrors(config, s.segs, r);
}

/// The host is told a flush.
pub proof fn lemma_flush_mirrors(s: LsmView, es: Seq<Slot>, newest: u64)
    requires
        s.wf(),
        s.apart(),
        s.next_gen < u64::MAX,
        lists_in_order(es, unstamped(s.mem)),
        is_newest(s.mem, newest),
        table_bytes(es, newest).len() <= u64::MAX,
    ensures
        performed_all(s.disk(), flush_effects(s, es, newest)) == after_flush(s, es, newest).disk(),
{
    let n = after_flush(s, es, newest);
    let t = flush_table(s, es, newest);
    lemma_after_flush(s, es, newest);
    let w = EffectView::Write { file: t.path, content: t.image };
    let before = (newest + 1) as u64;
    let gone = settled(s.segs.drop_last(), before);
    let rs = remove_effects(s.log_dir, gone);
    let left = segment_files(s.log_dir, s.segs);
    let right = table_files(s.pending + s.tables);
    let right2 = table_files(n.pending + n.tables);
    let one = seq![w];
    assert(one.drop_last() =~= Seq::<EffectView>::empty());
    assert(performed_all(s.disk(), one) == performed(s.disk(), w)) by {
        assert(performed_all(s.disk(), one.drop_last()) == s.disk());
    }
    lemma_files_with(s, n, t);
    assert(performed(s.disk(), w) =~= left.union_prefer_right(right2));
    disk::lemma_performed_add(s.disk(), one, rs);
    lemma_table_files_end(n);
    segment::lemma_settled_members(s.segs.drop_last(), before);
    assert forall|i: int| 0 <= i < rs.len() implies !right2.contains_key(
        effect_file(#[trigger] rs[i]),
    ) by {
        let j = s.segs.drop_last().index_of(gone[i]);
        assert(s.segs[j].wf());
        lemma_segment_path_end(s.log_dir, gone[i]);
    }
    lemma_performed_left(left, right2, rs);
    segment::lemma_truncate_mirrors(s.log_dir, s.segs, before);
}

/// A table in front of the others is one more file.
pub proof fn lemma_files_with(s: LsmView, n: LsmView, t: TableView)
    requires
        s.apart(),
        n.apart(),
        n.pending == s.pending,
        n.tables == seq![t] + s.tables,
    ensures
        table_files(n.pending + n.tables) == table_files(s.pending + s.tables).insert(
            t.path,
            t.image,
        ),
{
    let ts = s.pending + s.tables;
    let more = n.pending + n.tables;
    let p = s.pending.len();
    assert forall|i: int| 0 <= i < ts.len() implies more.contains(#[trigger] ts[i]) by {
        let j = if i < p {
            i
        } else {
            i + 1
        };
        assert(more[j] == ts[i]);
    }
    assert(more[p as int] == t);
    assert forall|i: int| 0 <= i < more.len() implies more[i] == t || ts.contains(
        #[trigger] more[i],
    ) by {
        if i < p {
            assert(ts[i] == more[i]);
        } else if i > p {
            assert(ts[i - 1] == more[i]);
        }
    }
    lemma_table_files_more(ts, more, t);
}

/// The host is told a merge.
pub proof fn lemma_merge_mirrors(s: LsmView, m: Slots, es: Seq<Slot>)
    requires
        s.wf(),
        s.apart(),
        s.next_gen < u64::MAX,
        merged(s.tables) == Ok::<Slots, ReadFault>(m),
        lists_in_order(es, live(m)),
        table_bytes(es, top_seq(s.tables)).len() <= u64::MAX,
    ensures
        performed_all(s.disk(), merge_effects(merge_tables(s, es))) == after_merge(s, es).disk(),
{
    let n = after_merge(s, es);
    lemma_after_merge(s, m, es);
    let ts = s.pending + s.tables;
    let more = n.pending + n.tables;
    let new = merge_tables(s, es);
    let fx = merge_effects(new);
    if es.len() == 0 {
        assert(more =~= ts);
        assert(fx =~= Seq::<EffectView>::empty());
    } else {
        let t = new[0];
        assert(more =~= ts.push(t));
        assert forall|i: int| 0 <= i < ts.len() implies more.contains(#[trigger] ts[i]) by {
            assert(more[i] == ts[i]);
        }
        assert(more[ts.len() as int] == t);
        assert forall|i: int| 0 <= i < more.len() implies more[i] == t || ts.contains(
            #[trigger] more[i],
        ) by {
            if i < ts.len() {
                assert(ts[i] == more[i]);
            }
        }
        lemma_table_files_more(ts, more, t);
        let w = EffectView::Write { file: t.path, content: t.image };
        assert(fx =~= seq![w]);
        assert(seq![w].drop_last() =~= Seq::<EffectView>::empty());
        assert(performed_all(s.disk(), seq![w].drop_last()) == s.disk());
        assert(performed(s.disk(), w) =~= n.disk());
    }
}

/// The host is told which tables to remove.
pub proof fn lemma_sweep_mirrors(s: LsmView, used: Seq<bool>)
    requires
        s.wf(),
        s.apart(),
        used.len() == s.pending.len(),
    ensures
        performed_all(s.disk(), sweep_effects(s.pending, used)) == after_sweep(s, used).disk(),
{
    assert(s.pending =~= s.pending.take(s.pending.len() as int));
    lemma_sweep_keeping(s.disk(), s.log_dir, s.segs, s.pending, used, s.tables, s);
}

/// One table less is one file less.
pub proof fn lemma_table_files_fewer(a: Seq<TableView>, t: TableView, b: Seq<TableView>)
    requires
        paths_apart(a + (seq![t] + b)),
    ensures
        table_files(a + b) == table_files(a + (seq![t] + b)).remove(t.path),
        paths_apart(a + b),
{
    let more = a + (seq![t] + b);
    let ts = a + b;
    let p = a.len() as int;
    assert forall|i: int, j: int| 0 <= i < j < ts.len() implies (#[trigger] ts[i]).path != (
    #[trigger] ts[j]).path by {
        let x = if i < p {
            i
        } else {
            i + 1
        };
        let y = if j < p {
            j
        } else {
            j + 1
        };
        assert(more[x] == ts[i]);
        assert(more[y] == ts[j]);
    }
    assert(more[p] == t);
    assert forall|i: int| 0 <= i < ts.len() implies more.contains(#[trigger] ts[i]) by {
        let x = if i < p {
            i
        } else {
            i + 1
        };
        assert(more[x] == ts[i]);
    }
    assert forall|i: int| 0 <= i < more.len() implies more[i] == t || ts.contains(
        #[trigger] more[i],
    ) by {
        if i < p {
            assert(ts[i] == more[i]);
        } else if i > p {
            assert(ts[i - 1] == more[i]);
        }
    }
    lemma_table_files_more(ts, more, t);
    assert(!table_files(ts).contains_key(t.path)) by {
        if table_files(ts).contains_key(t.path) {
            let i = choose|i: int| 0 <= i < ts.len() && t.path == (#[trigger] ts[i]).path;
            let x = if i < p {
                i
            } else {
                i + 1
            };
            assert(more[x] == ts[i]);
            if x < p {
                assert(more[x].path != more[p].path);
            } else {
                assert(more[p].path != more[x].path);
            }
        }
    }
    assert(table_files(more).remove(t.path) =~= table_files(ts));
}

/// Sweeping a head of the pending tables while the others stay.
proof fn lemma_sweep_keeping(
    files: Files,
    log_dir: Seq<char>,
    segs: Seq<SegmentView>,
    head: Seq<TableView>,
    used: Seq<bool>,
    rest: Seq<TableView>,
    s: LsmView,
)
    requires
        s.wf(),
        segs == s.segs,
        log_dir == s.log_dir,
        paths_apart(head + rest),
        files == segment_files(log_dir, segs).union_prefer_right(table_files(head + rest)),
        head.len() <= s.pending.len(),
        head == s.pending.take(head.len() as int),
    ensures
        performed_all(files, sweep_effects(head, used)) == segment_files(
            log_dir,
            segs,
        ).union_prefer_right(table_files(in_use(head, used) + rest)),
    decreases head.len(),
{
    let left = segment_files(log_dir, segs);
    if head.len() == 0 {
        assert(in_use(head, used) + rest =~= head + rest);
    } else {
        let l = head.len() - 1;
        let d = head.drop_last();
        let t = head.last();
        let more = seq![t] + rest;
        assert(d + more =~= head + rest);
        assert(d =~= s.pending.take(l));
        if used[l] {
            lemma_sweep_keeping(files, log_dir, segs, d, used, more, s);
            assert(in_use(d, used) + more =~= in_use(head, used) + rest);
        } else {
            let gone = EffectView::Remove { file: t.path };
            lemma_table_files_fewer(d, t, rest);
            lemma_log_files(log_dir, segs);
            assert(t == s.pending[l]);
            lemma_table_path_end(t, s.dir);
            let fewer = left.union_prefer_right(table_files(d + rest));
            assert(files.remove(t.path) =~= fewer);
            disk::lemma_performed_one(files, gone);
            disk::lemma_performed_add(files, seq![gone], sweep_effects(d, used));
            lemma_sweep_keeping(fewer, log_dir, segs, d, used, rest, s);
        }
    }
}

} // verus!
