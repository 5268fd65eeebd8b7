//! What a crash leaves.
//!
//! The host carries the effects of a step out one by one. Wherever it stops,
//! the files are those of an engine that can be opened again without loss.

use vstd::prelude::*;

use crate::ordered::lists_in_order;
use crate::storage::disk::{self, performed, performed_all, EffectView, Files};
use crate::storage::engine::{written, Op};
use crate::storage::lsm::layers::{self, live, merged, stacked, visible};
use crate::storage::lsm::memtable::{unstamped, Slots, Stamped};
use crate::storage::lsm::recover::{
    self, can_go_on, found_tables, is_listed, lists_tables, opened_view, some_stands_in, stands_in,
    to_replay,
};
use crate::storage::lsm::replay::{self, record_of, replayed};
use crate::storage::lsm::sstable::{fits, table_bytes, ReadFault, Slot, TableView};
use crate::storage::lsm::state::{
    self, after_merge, after_sweep, after_table, after_write, faithful, flush_effects, flush_table,
    in_dir, in_use, is_newest, is_path, log_has_room, merge_effects, merge_tables, newest_first,
    paths_apart, sst_gen, sweep_effects, table_files, ties_agree, top_seq, LsmView,
};
use crate::storage::record;
use crate::storage::reopen::{self, lists, names_once, recovers_to, strictly_in_order};
use crate::storage::segment::{
    self, append_effects, full, grown, opened, remove_effects, segment_files, segment_start,
    settled, WalConfig,
};
use crate::text::{self, joined};

verus! {

// ---- in the middle of a flush ---------------------------------------------------------

/// The first of the segments that a flush lets go of is gone.
proof fn lemma_first_gone(s: LsmView, before: u64) -> (n: LsmView)
    requires
        s.wf(),
        s.durable(),
        s.apart(),
        s.mem == Stamped::empty(),
        settled(s.segs.drop_last(), before).len() > 0,
    ensures
        n == (LsmView { segs: n.segs, ..s }),
        n.wf(),
        n.durable(),
        n.apart(),
        n.contents() == s.contents(),
        settled(n.segs.drop_last(), before) == settled(s.segs.drop_last(), before).drop_first(),
        n.disk() == performed(
            s.disk(),
            EffectView::Remove {
                file: joined(s.log_dir, settled(s.segs.drop_last(), before)[0].name),
            },
        ),
{
    let d = s.segs.drop_last();
    let p = segment::lemma_first_settled(d, before);
    assert forall|q: int| 0 <= q < p implies (#[trigger] s.segs[q]).reaches(before) by {
        assert(d[q].reaches(before));
    }
    let cut = segment::lemma_segment_gone(s.log_dir, s.segs, p, before);
    let n = LsmView { segs: s.segs.remove(p), ..s };
    assert(n.segs.drop_last() =~= d.remove(p));
    state::lemma_log_tail(s, n, cut);
    assert(strictly_in_order(n.segs)) by {
        assert forall|i: int, j: int| 0 <= i < j < n.segs.len() implies (
        #[trigger] n.segs[i]).start < (#[trigger] n.segs[j]).start by {
            let i2 = if i < p {
                i
            } else {
                i + 1
            };
            let j2 = if j < p {
                j
            } else {
                j + 1
            };
            assert(s.segs[i2].start < s.segs[j2].start);
        }
    }
    segment::lemma_highest_of_all(n.segs);
    record::lemma_highest(n.log());
    assert(s.segs[p].wf());
    state::lemma_segment_path_end(s.log_dir, s.segs[p]);
    state::lemma_table_files_end(s);
    assert(n.disk() =~= performed(
        s.disk(),
        EffectView::Remove { file: joined(s.log_dir, s.segs[p].name) },
    ));
    n
}

/// The first `j` of the segments that a flush lets go of are gone.
proof fn lemma_some_gone(s: LsmView, before: u64, j: int) -> (n: LsmView)
    requires
        s.wf(),
        s.durable(),
        s.apart(),
        s.mem == Stamped::empty(),
        0 <= j <= settled(s.segs.drop_last(), before).len(),
    ensures
        n == (LsmView { segs: n.segs, ..s }),
        n.wf(),
        n.durable(),
        n.apart(),
        n.contents() == s.contents(),
        n.disk() == performed_all(
            s.disk(),
            remove_effects(s.log_dir, settled(s.segs.drop_last(), before)).take(j),
        ),
    decreases j,
{
    let gone = settled(s.segs.drop_last(), before);
    let es = remove_effects(s.log_dir, gone);
    if j == 0 {
        assert(es.take(0) =~= Seq::<EffectView>::empty());
        s
    } else {
        let m = lemma_first_gone(s, before);
        let n = lemma_some_gone(m, before, j - 1);
        let rest = remove_effects(s.log_dir, gone.drop_first());
        assert(es.take(j) =~= seq![es[0]] + rest.take(j - 1));
        disk::lemma_performed_add(s.disk(), seq![es[0]], rest.take(j - 1));
        assert(seq![es[0]].drop_last() =~= Seq::<EffectView>::empty());
        assert(performed_all(s.disk(), seq![es[0]].drop_last()) == s.disk());
        n
    }
}

/// However many effects of a flush were carried out, the files are those of an
/// engine that holds the same and survives being closed.
pub proof fn lemma_flush_interrupted(s: LsmView, es: Seq<Slot>, newest: u64, j: int) -> (n: LsmView)
    requires
        s.wf(),
        s.durable(),
        s.apart(),
        s.next_gen < u64::MAX,
        lists_in_order(es, unstamped(s.mem)),
        is_newest(s.mem, newest),
        table_bytes(es, newest).len() <= u64::MAX,
        0 <= j <= flush_effects(s, es, newest).len(),
    ensures
        n.wf(),
        n.durable(),
        n.apart(),
        n.contents() == s.contents(),
        n.dir == s.dir,
        n.log_dir == s.log_dir,
        n.pending == s.pending,
        performed_all(s.disk(), flush_effects(s, es, newest).take(j)) == n.disk(),
{
    let fx = flush_effects(s, es, newest);
    if j == 0 {
        assert(fx.take(0) =~= Seq::<EffectView>::empty());
        s
    } else {
        let w = after_table(s, es, newest);
        let t = flush_table(s, es, newest);
        state::lemma_after_table(s, es, newest);
        state::lemma_files_with(s, w, t);
        assert(w.disk() =~= performed(s.disk(), fx[0]));
        let before = (newest + 1) as u64;
        let n = lemma_some_gone(w, before, j - 1);
        let rest = remove_effects(s.log_dir, settled(s.segs.drop_last(), before));
        assert(fx.take(j) =~= seq![fx[0]] + rest.take(j - 1));
        disk::lemma_performed_add(s.disk(), seq![fx[0]], rest.take(j - 1));
        assert(seq![fx[0]].drop_last() =~= Seq::<EffectView>::empty());
        assert(performed_all(s.disk(), seq![fx[0]].drop_last()) == s.disk());
        n
    }
}

// ---- in the middle of a write ----------------------------------------------------------

/// However many effects of a write were carried out, the files are those of an
/// engine that survives being closed, and that holds what was held before the
/// write, or what is held after it once its record is in the log.
pub proof fn lemma_write_interrupted(s: LsmView, op: Op, config: WalConfig, j: int) -> (n: LsmView)
    requires
        s.wf(),
        s.durable(),
        s.apart(),
        s.next_seq < u64::MAX,
        config.dir@ == s.log_dir,
        log_has_room(s, op, config.max_segment_bytes),
        !full(grown(s.segs, record_of(s.next_seq, op)), u64::MAX),
        fits((op.key(), op.slot())),
        replay::loggable(op),
        0 <= j <= append_effects(config, s.segs, record_of(s.next_seq, op)).len(),
    ensures
        n.wf(),
        n.durable(),
        n.apart(),
        n.contents() == (if j == 0 {
            s.contents()
        } else {
            written(s.contents(), op)
        }),
        n.dir == s.dir,
        n.log_dir == s.log_dir,
        n.pending == s.pending,
        n.tables == s.tables,
        performed_all(
            s.disk(),
            append_effects(config, s.segs, record_of(s.next_seq, op)).take(j),
        ) == n.disk(),
{
    let r = record_of(s.next_seq, op);
    let fx = append_effects(config, s.segs, r);
    replay::lemma_loggable(s.next_seq, op);
    if j == 0 {
        assert(fx.take(0) =~= Seq::<EffectView>::empty());
        s
    } else if j == fx.len() {
        assert(fx.take(j) =~= fx);
        state::lemma_after_write(s, op, config.max_segment_bytes);
        state::lemma_write_mirrors(s, op, config);
        after_write(s, op, config.max_segment_bytes)
    } else {
        let wide = WalConfig { max_segment_bytes: u64::MAX, ..config };
        let n = after_write(s, op, u64::MAX);
        state::lemma_after_write(s, op, u64::MAX);
        state::lemma_write_mirrors(s, op, wide);
        let one = append_effects(wide, s.segs, r);
        assert(one =~= fx.take(1));
        if j == 2 {
            assert(fx.take(2).drop_last() =~= fx.take(1));
        }
        n
    }
}

// ---- in the middle of a merge ----------------------------------------------------------

/// The table of a merge, ahead of the tables that it was made of, adds nothing
/// to them.
proof fn lemma_merged_ahead(t: TableView, ts: Seq<TableView>)
    requires
        newest_first(ts),
        ties_agree(ts),
        t.max_seq == top_seq(ts),
        t.slots() == live(stacked(ts)),
    ensures
        newest_first(seq![t] + ts),
        ties_agree(seq![t] + ts),
        stacked(seq![t] + ts) == stacked(ts),
{
    let all = seq![t] + ts;
    layers::lemma_stacked_front(t, ts);
    assert(stacked(all) =~= stacked(ts));
    assert forall|i: int, j: int| 0 <= i < j < all.len() implies (#[trigger] all[i]).max_seq >= (
    #[trigger] all[j]).max_seq by {
        assert(all[j] == ts[j - 1]);
        if i > 0 {
            assert(all[i] == ts[i - 1]);
        } else if j > 1 {
            assert(ts[0].max_seq >= ts[j - 1].max_seq);
        }
    }
    assert forall|i: int, j: int, k: Seq<u8>|
        0 <= i < j < all.len() && all[i].max_seq == all[j].max_seq
            && #[trigger] all[i].slots().contains_key(k)
            && #[trigger] all[j].slots().contains_key(k) implies all[i].slots()[k]
        == all[j].slots()[k] by {
        assert(all[j] == ts[j - 1]);
        assert(ts[j - 1].slots().contains_key(k));
        if i > 0 {
            assert(all[i] == ts[i - 1]);
            assert(ts[i - 1].slots().contains_key(k));
        } else {
            assert(stacked(ts).contains_key(k));
            let q = recover::lemma_first_decides(ts, k);
            assert(q <= j - 1);
            if q < j - 1 {
                assert(ts[q].max_seq >= ts[j - 1].max_seq);
                if q > 0 {
                    assert(ts[0].max_seq >= ts[q].max_seq);
                }
                assert(ts[q].slots()[k] == ts[j - 1].slots()[k]);
            }
        }
    }
}

/// What the first of some tables have for a key is what all of them have for it.
proof fn lemma_first_some(ts: Seq<TableView>, p: int, k: Seq<u8>)
    requires
        0 <= p <= ts.len(),
        stacked(ts.take(p)).contains_key(k),
    ensures
        stacked(ts).contains_key(k),
        stacked(ts)[k] == stacked(ts.take(p))[k],
{
    let h = ts.take(p);
    let a = recover::lemma_first_decides(h, k);
    let b = recover::lemma_first_decides(ts, k);
    assert(ts[a].slots().contains_key(k));
    if stacked(ts).contains_key(k) && b < a {
        assert(h[b].slots().contains_key(k));
    }
}

/// The engine with the table of a merge and the newest `p` of the tables that it
/// was made of.
spec fn partly_merged(s: LsmView, new: Seq<TableView>, p: int) -> LsmView {
    LsmView { tables: new + s.tables.take(p), next_gen: (s.next_gen + 1) as u64, ..s }
}

/// What the newest tables say beside the table of a merge is nothing else than
/// what all of them said.
proof fn lemma_partly_visible(new: Seq<TableView>, ts: Seq<TableView>, p: int, mem: Slots)
    requires
        0 <= p <= ts.len(),
        new.len() <= 1,
        stacked(new) == live(stacked(ts)),
    ensures
        visible(stacked(new + ts.take(p)).union_prefer_right(mem)) == visible(
            stacked(ts).union_prefer_right(mem),
        ),
{
    let h = ts.take(p);
    let all = new + h;
    assert(stacked(all) =~= stacked(h).union_prefer_right(stacked(new))) by {
        if new.len() == 0 {
            assert(all =~= h);
        } else {
            assert(new =~= seq![new[0]]);
            layers::lemma_stacked_front(new[0], h);
            layers::lemma_stacked_one(new[0]);
        }
    }
    assert forall|k: Seq<u8>| stacked(h).contains_key(k) implies stacked(ts).contains_key(k)
        && #[trigger] stacked(h)[k] == stacked(ts)[k] by {
        lemma_first_some(ts, p, k);
    }
    let a = visible(stacked(all).union_prefer_right(mem));
    let b = visible(stacked(ts).union_prefer_right(mem));
    assert forall|k: Seq<u8>| a.contains_key(k) <==> #[trigger] b.contains_key(k) by {
        if stacked(h).contains_key(k) {
            assert(stacked(h)[k] == stacked(ts)[k]);
        }
    }
    assert forall|k: Seq<u8>| #[trigger] a.contains_key(k) implies a[k] == b[k] by {
        if stacked(h).contains_key(k) {
            assert(stacked(h)[k] == stacked(ts)[k]);
        }
    }
    assert(a =~= b);
}

/// A head of the tables is in order if all of them are.
proof fn lemma_head_in_order(ts: Seq<TableView>, p: int)
    requires
        newest_first(ts),
        ties_agree(ts),
        0 <= p <= ts.len(),
    ensures
        newest_first(ts.take(p)),
        ties_agree(ts.take(p)),
{
    let h = ts.take(p);
    assert forall|i: int, j: int| 0 <= i < j < h.len() implies (#[trigger] h[i]).max_seq >= (
    #[trigger] h[j]).max_seq by {
        assert(h[i] == ts[i] && h[j] == ts[j]);
    }
    assert forall|i: int, j: int, k: Seq<u8>|
        0 <= i < j < h.len() && h[i].max_seq == h[j].max_seq
            && #[trigger] h[i].slots().contains_key(k)
            && #[trigger] h[j].slots().contains_key(k) implies h[i].slots()[k]
        == h[j].slots()[k] by {
        assert(ts[i].slots().contains_key(k));
        assert(ts[j].slots().contains_key(k));
    }
}

proof fn lemma_partly_in_order(new: Seq<TableView>, ts: Seq<TableView>, p: int)
    requires
        newest_first(ts),
        ties_agree(ts),
        0 <= p <= ts.len(),
        new.len() <= 1,
        new.len() == 1 ==> new[0].max_seq == top_seq(ts),
        stacked(new) == live(stacked(ts)),
    ensures
        newest_first(new + ts.take(p)),
        ties_agree(new + ts.take(p)),
        top_seq(new + ts.take(p)) <= top_seq(ts),
{
    if new.len() == 0 {
        assert(new + ts.take(p) =~= ts.take(p));
        lemma_head_in_order(ts, p);
    } else {
        let t = new[0];
        assert(new =~= seq![t]);
        layers::lemma_stacked_one(t);
        lemma_merged_ahead(t, ts);
        lemma_head_in_order(seq![t] + ts, p + 1);
        assert((seq![t] + ts).take(p + 1) =~= new + ts.take(p));
    }
}

/// With the table of a merge and the newest of the tables that it was made of
/// the engine holds the same, and survives being closed.
proof fn lemma_partly_merged(s: LsmView, m: Slots, es: Seq<Slot>, p: int)
    requires
        s.wf(),
        s.durable(),
        s.apart(),
        s.pending.len() == 0,
        s.next_gen < u64::MAX,
        merged(s.tables) == Ok::<Slots, ReadFault>(m),
        lists_in_order(es, live(m)),
        table_bytes(es, top_seq(s.tables)).len() <= u64::MAX,
        0 <= p <= s.tables.len(),
    ensures
        partly_merged(s, merge_tables(s, es), p).wf(),
        partly_merged(s, merge_tables(s, es), p).durable(),
        partly_merged(s, merge_tables(s, es), p).apart(),
        partly_merged(s, merge_tables(s, es), p).contents() == s.contents(),
{
    let new = merge_tables(s, es);
    let n = partly_merged(s, new, p);
    state::lemma_merge_tables(s, m, es);
    layers::lemma_merged_sound(s.tables);
    lemma_partly_in_order(new, s.tables, p);
    lemma_partly_visible(new, s.tables, p, unstamped(s.mem));
    assert(n.contents() == s.contents());
    assert forall|i: int| 0 <= i < n.tables.len() implies in_dir(#[trigger] n.tables[i], n.dir)
        && n.tables[i].generation < n.next_gen && faithful(n.tables[i]) && n.tables[i].sound() by {
        if i < new.len() {
            assert(n.tables[i] == new[i]);
            assert(new[i].sound());
        } else {
            assert(n.tables[i] == s.tables[i - new.len()]);
            assert(s.tables[i - new.len()].sound());
        }
    }
    assert(paths_apart(n.pending + n.tables)) by {
        let a = n.pending + n.tables;
        if new.len() == 0 {
            let b = s.pending + s.tables;
            assert forall|i: int, j: int| 0 <= i < j < a.len() implies (#[trigger] a[i]).path != (
            #[trigger] a[j]).path by {
                assert(a[i] == b[i] && a[j] == b[j]);
            }
        } else {
            let t = new[0];
            state::lemma_new_path_apart(s, t);
            let b = s.pending + (seq![t] + s.tables);
            assert forall|i: int, j: int| 0 <= i < j < a.len() implies (#[trigger] a[i]).path != (
            #[trigger] a[j]).path by {
                assert(a[i] == b[i] && a[j] == b[j]);
            }
        }
    }
    assert(n.wf());
    state::lemma_merge_durable(s, n);
}

/// The oldest of the tables that are left loses its file.
proof fn lemma_one_removed(s: LsmView, new: Seq<TableView>, p: int)
    requires
        s.wf(),
        s.pending.len() == 0,
        0 < p <= s.tables.len(),
        partly_merged(s, new, p).apart(),
    ensures
        partly_merged(s, new, p - 1).disk() == performed(
            partly_merged(s, new, p).disk(),
            EffectView::Remove { file: s.tables[p - 1].path },
        ),
{
    let a = partly_merged(s, new, p);
    let b = partly_merged(s, new, p - 1);
    let t = s.tables[p - 1];
    let none = Seq::<TableView>::empty();
    assert(a.pending + a.tables =~= b.tables + (seq![t] + none));
    assert(b.pending + b.tables =~= b.tables + none);
    state::lemma_table_files_fewer(b.tables, t, none);
    state::lemma_log_files(s.log_dir, s.segs);
    assert(in_dir(t, s.dir));
    state::lemma_table_path_end(t, s.dir);
    assert(b.disk() =~= a.disk().remove(t.path));
}

/// The table of a merge is written before any file is removed.
proof fn lemma_merge_written(s: LsmView, m: Slots, es: Seq<Slot>)
    requires
        s.wf(),
        s.durable(),
        s.apart(),
        s.pending.len() == 0,
        s.next_gen < u64::MAX,
        merged(s.tables) == Ok::<Slots, ReadFault>(m),
        lists_in_order(es, live(m)),
        table_bytes(es, top_seq(s.tables)).len() <= u64::MAX,
    ensures
        performed_all(s.disk(), merge_effects(merge_tables(s, es))) == partly_merged(
            s,
            merge_tables(s, es),
            s.tables.len() as int,
        ).disk(),
{
    let new = merge_tables(s, es);
    let n = partly_merged(s, new, s.tables.len() as int);
    let fx = merge_effects(new);
    lemma_partly_merged(s, m, es, s.tables.len() as int);
    assert(s.tables.take(s.tables.len() as int) =~= s.tables);
    if es.len() == 0 {
        assert(new + s.tables =~= s.tables);
        assert(fx =~= Seq::<EffectView>::empty());
    } else {
        let t = new[0];
        assert(new =~= seq![t]);
        state::lemma_files_with(s, n, t);
        let w = EffectView::Write { file: t.path, content: t.image };
        assert(fx =~= seq![w]);
        disk::lemma_performed_one(s.disk(), w);
        assert(n.disk() =~= performed(s.disk(), w));
    }
}

/// The effects of removing files, where the newest `u` tables are in use and no
/// others.
proof fn lemma_sweep_from(ts: Seq<TableView>, used: Seq<bool>, u: int)
    requires
        used.len() >= ts.len(),
        0 <= u,
        forall|i: int| 0 <= i < ts.len() ==> (#[trigger] used[i] <==> i < u),
    ensures
        sweep_effects(ts, used).len() == (if ts.len() > u {
            ts.len() - u
        } else {
            0
        }),
        forall|q: int|
            0 <= q < sweep_effects(ts, used).len() ==> (#[trigger] sweep_effects(ts, used)[q])
                == (EffectView::Remove { file: ts[ts.len() - 1 - q].path }),
    decreases ts.len(),
{
    if ts.len() > 0 {
        let d = ts.drop_last();
        lemma_sweep_from(d, used, u);
        let rest = sweep_effects(d, used);
        assert(used[ts.len() - 1] <==> ts.len() - 1 < u);
        assert forall|q: int| 0 <= q < sweep_effects(ts, used).len() implies (
        #[trigger] sweep_effects(ts, used)[q]) == (EffectView::Remove {
            file: ts[ts.len() - 1 - q].path,
        }) by {
            if q > 0 {
                assert(rest[q - 1] == (EffectView::Remove { file: d[d.len() - 1 - (q - 1)].path }));
            }
        }
    }
}

proof fn lemma_some_removed(s: LsmView, m: Slots, es: Seq<Slot>, used: Seq<bool>, u: int, j: int)
    requires
        s.wf(),
        s.durable(),
        s.apart(),
        s.pending.len() == 0,
        s.next_gen < u64::MAX,
        merged(s.tables) == Ok::<Slots, ReadFault>(m),
        lists_in_order(es, live(m)),
        table_bytes(es, top_seq(s.tables)).len() <= u64::MAX,
        used.len() == s.tables.len(),
        0 <= u <= s.tables.len(),
        forall|i: int| 0 <= i < s.tables.len() ==> (#[trigger] used[i] <==> i < u),
        0 <= j <= s.tables.len() - u,
    ensures
        performed_all(
            partly_merged(s, merge_tables(s, es), s.tables.len() as int).disk(),
            sweep_effects(s.tables, used).take(j),
        ) == partly_merged(s, merge_tables(s, es), s.tables.len() - j).disk(),
    decreases j,
{
    let fx = sweep_effects(s.tables, used);
    lemma_sweep_from(s.tables, used, u);
    if j == 0 {
        assert(fx.take(0) =~= Seq::<EffectView>::empty());
    } else {
        let p = s.tables.len() - (j - 1);
        lemma_some_removed(s, m, es, used, u, j - 1);
        lemma_partly_merged(s, m, es, p);
        lemma_one_removed(s, merge_tables(s, es), p);
        assert(fx.take(j).drop_last() =~= fx.take(j - 1));
        assert(fx[j - 1] == (EffectView::Remove { file: s.tables[p - 1].path }));
    }
}

/// However many effects of a merge were carried out, the files are those of an
/// engine that holds the same and survives being closed: before the new table
/// is written, with it and the tables it was made of, and with any number of
/// these removed, the oldest first. No merged table that keeps its file, for a
/// snapshot has it, may be older than one that loses it: its values would show
/// where the newer one had deleted them.
pub proof fn lemma_merge_interrupted(
    s: LsmView,
    m: Slots,
    es: Seq<Slot>,
    used: Seq<bool>,
    j: int,
) -> (n: LsmView)
    requires
        s.wf(),
        s.durable(),
        s.apart(),
        s.pending.len() == 0,
        s.next_gen < u64::MAX,
        merged(s.tables) == Ok::<Slots, ReadFault>(m),
        lists_in_order(es, live(m)),
        table_bytes(es, top_seq(s.tables)).len() <= u64::MAX,
        used.len() == s.tables.len(),
        forall|a: int, b: int|
            0 <= a < b < used.len() && #[trigger] used[b] ==> #[trigger] used[a],
        0 <= j <= (merge_effects(merge_tables(s, es)) + sweep_effects(s.tables, used)).len(),
    ensures
        n.wf(),
        n.durable(),
        n.apart(),
        n.contents() == s.contents(),
        n.dir == s.dir,
        n.log_dir == s.log_dir,
        n.segs == s.segs,
        n.pending.len() == 0,
        n.tables == s.tables || exists|p: int|
            0 <= p <= s.tables.len() && n.tables == merge_tables(s, es) + #[trigger] s.tables.take(
                p,
            ),
        performed_all(
            s.disk(),
            (merge_effects(merge_tables(s, es)) + sweep_effects(s.tables, used)).take(j),
        ) == n.disk(),
{
    let new = merge_tables(s, es);
    let w = merge_effects(new);
    let fx = sweep_effects(s.tables, used);
    let u = lemma_in_use_upto(used);
    lemma_sweep_from(s.tables, used, u);
    if j < w.len() {
        assert(w.len() == 1);
        assert((w + fx).take(j) =~= Seq::<EffectView>::empty());
        s
    } else {
        let k = j - w.len();
        let n = partly_merged(s, new, s.tables.len() - k);
        assert((w + fx).take(j) =~= w + fx.take(k));
        disk::lemma_performed_add(s.disk(), w, fx.take(k));
        lemma_merge_written(s, m, es);
        lemma_some_removed(s, m, es, used, u, k);
        lemma_partly_merged(s, m, es, s.tables.len() - k);
        assert(n.tables == new + s.tables.take(s.tables.len() - k));
        n
    }
}

/// The tables that are in use, and besides them the first `c`.
pub open spec fn kept_too(used: Seq<bool>, c: int) -> Seq<bool> {
    Seq::new(used.len(), |i: int| i < c || used[i])
}

/// Where all are in use nothing is removed.
proof fn lemma_all_used(ts: Seq<TableView>, used: Seq<bool>)
    requires
        used.len() >= ts.len(),
        forall|i: int| 0 <= i < ts.len() ==> #[trigger] used[i],
    ensures
        sweep_effects(ts, used).len() == 0,
    decreases ts.len(),
{
    if ts.len() > 0 {
        lemma_all_used(ts.drop_last(), used);
        assert(used[ts.len() - 1]);
    }
}

/// The first effects of removing files remove fewer files.
proof fn lemma_sweep_begun(ts: Seq<TableView>, used: Seq<bool>, j: int) -> (c: int)
    requires
        used.len() >= ts.len(),
        0 <= j <= sweep_effects(ts, used).len(),
    ensures
        0 <= c <= ts.len(),
        sweep_effects(ts, used).take(j) == sweep_effects(ts, kept_too(used, c)),
    decreases ts.len(),
{
    let fx = sweep_effects(ts, used);
    if j == 0 {
        let c = ts.len() as int;
        lemma_all_used(ts, kept_too(used, c));
        assert(fx.take(0) =~= sweep_effects(ts, kept_too(used, c)));
        c
    } else {
        let d = ts.drop_last();
        let rest = sweep_effects(d, used);
        if used[ts.len() - 1] {
            lemma_sweep_begun(d, used, j)
        } else {
            let c = lemma_sweep_begun(d, used, j - 1);
            assert(fx.take(j) =~= seq![fx[0]] + rest.take(j - 1));
            c
        }
    }
}

/// However many effects of removing files were carried out, the files are those
/// of an engine that holds the same.
pub proof fn lemma_sweep_interrupted(s: LsmView, used: Seq<bool>, j: int) -> (n: LsmView)
    requires
        s.wf(),
        s.durable(),
        s.apart(),
        used.len() == s.pending.len(),
        0 <= j <= sweep_effects(s.pending, used).len(),
    ensures
        n.wf(),
        n.durable(),
        n.apart(),
        n.contents() == s.contents(),
        n == (LsmView { pending: n.pending, ..s }),
        s.pending.len() == 0 ==> n.pending.len() == 0,
        performed_all(s.disk(), sweep_effects(s.pending, used).take(j)) == n.disk(),
{
    let c = lemma_sweep_begun(s.pending, used, j);
    let more = kept_too(used, c);
    state::lemma_after_sweep(s, more);
    state::lemma_sweep_mirrors(s, more);
    after_sweep(s, more)
}

/// However many effects of a merge were carried out, whichever merged tables keep
/// their files, the files are those of an engine that holds the same.
pub proof fn lemma_merge_cut(
    s: LsmView,
    m: Slots,
    es: Seq<Slot>,
    used: Seq<bool>,
    j: int,
) -> (n: LsmView)
    requires
        s.wf(),
        s.durable(),
        s.apart(),
        s.next_gen < u64::MAX,
        merged(s.tables) == Ok::<Slots, ReadFault>(m),
        lists_in_order(es, live(m)),
        table_bytes(es, top_seq(s.tables)).len() <= u64::MAX,
        used.len() == s.pending.len() + s.tables.len(),
        0 <= j <= (merge_effects(merge_tables(s, es)) + sweep_effects(
            after_merge(s, es).pending,
            used,
        )).len(),
    ensures
        n.wf(),
        n.durable(),
        n.apart(),
        n.contents() == s.contents(),
        n.dir == s.dir,
        n.log_dir == s.log_dir,
        performed_all(
            s.disk(),
            (merge_effects(merge_tables(s, es)) + sweep_effects(
                after_merge(s, es).pending,
                used,
            )).take(j),
        ) == n.disk(),
{
    let w = merge_effects(merge_tables(s, es));
    let a = after_merge(s, es);
    let fx = sweep_effects(a.pending, used);
    if j < w.len() {
        assert(w.len() == 1);
        assert((w + fx).take(j) =~= Seq::<EffectView>::empty());
        s
    } else {
        let k = j - w.len();
        state::lemma_after_merge(s, m, es);
        state::lemma_merge_mirrors(s, m, es);
        let n = lemma_sweep_interrupted(a, used, k);
        assert((w + fx).take(j) =~= w + fx.take(k));
        disk::lemma_performed_add(s.disk(), w, fx.take(k));
        n
    }
}

/// How many tables are in use, if they are the newest ones.
proof fn lemma_in_use_upto(used: Seq<bool>) -> (u: int)
    requires
        forall|a: int, b: int|
            0 <= a < b < used.len() && #[trigger] used[b] ==> #[trigger] used[a],
    ensures
        0 <= u <= used.len(),
        forall|i: int| 0 <= i < used.len() ==> (#[trigger] used[i] <==> i < u),
    decreases used.len(),
{
    if used.len() == 0 {
        0
    } else if used.last() {
        assert forall|i: int| 0 <= i < used.len() implies #[trigger] used[i] by {
            if i < used.len() - 1 {
                assert(used[used.len() - 1]);
            }
        }
        used.len() as int
    } else {
        let d = used.drop_last();
        assert forall|a: int, b: int| 0 <= a < b < d.len() && #[trigger] d[b] implies #[trigger] d[a] by {
            assert(used[b] && used[a]);
        }
        let u = lemma_in_use_upto(d);
        assert forall|i: int| 0 <= i < used.len() implies (#[trigger] used[i] <==> i < u) by {
            if i < d.len() {
                assert(d[i] <==> i < u);
            }
        }
        u
    }
}

// ---- from the files back to the engine -------------------------------------------------

/// The name is listed.
pub open spec fn is_named(listing: Seq<(Seq<char>, Seq<u8>)>, name: Seq<char>) -> bool {
    exists|i: int| 0 <= i < listing.len() && (#[trigger] listing[i]).0 == name
}

/// The listing has, in whatever order, the tables among the files in `dir`.
pub open spec fn lists_table_files(
    files: Files,
    dir: Seq<char>,
    listing: Seq<(Seq<char>, Seq<u8>)>,
) -> bool {
    &&& names_once(listing)
    &&& forall|i: int|
        0 <= i < listing.len() && sst_gen((#[trigger] listing[i]).0) is Some
            ==> files.contains_key(joined(dir, listing[i].0)) && files[joined(dir, listing[i].0)]
            == listing[i].1
    &&& forall|name: Seq<char>|
        sst_gen(name) is Some && #[trigger] files.contains_key(joined(dir, name)) ==> is_named(
            listing,
            name,
        )
}

/// The listing has, in whatever order, the segments among the files in `dir`.
pub open spec fn lists_segment_files(
    files: Files,
    dir: Seq<char>,
    listing: Seq<(Seq<char>, Seq<u8>)>,
) -> bool {
    &&& names_once(listing)
    &&& forall|i: int|
        0 <= i < listing.len() && segment_start((#[trigger] listing[i]).0) is Some
            ==> files.contains_key(joined(dir, listing[i].0)) && files[joined(dir, listing[i].0)]
            == listing[i].1
    &&& forall|name: Seq<char>|
        segment_start(name) is Some && #[trigger] files.contains_key(joined(dir, name))
            ==> is_named(listing, name)
}

/// The files of the tables are listed as what they are.
proof fn lemma_tables_listed(s: LsmView, listing: Seq<(Seq<char>, Seq<u8>)>)
    requires
        s.wf(),
        s.apart(),
        s.pending.len() == 0,
        lists_table_files(s.disk(), s.dir, listing),
    ensures
        lists_tables(s.dir, listing, s.tables),
{
    let ts = s.tables;
    assert(s.pending + ts =~= ts);
    state::lemma_log_files(s.log_dir, s.segs);
    assert forall|j: int| 0 <= j < ts.len() implies is_listed(#[trigger] ts[j], s.dir, listing) by {
        let t = ts[j];
        assert(in_dir(t, s.dir));
        let name = choose|name: Seq<char>| #[trigger] is_path(t.path, s.dir, name, t.generation);
        state::lemma_table_file(ts, j);
        assert(s.disk().contains_key(joined(s.dir, name)));
        let i = choose|i: int| 0 <= i < listing.len() && (#[trigger] listing[i]).0 == name;
        assert(stands_in(t, s.dir, listing[i]));
    }
    assert forall|i: int|
        0 <= i < listing.len() && sst_gen((#[trigger] listing[i]).0) is Some implies some_stands_in(
        ts,
        s.dir,
        listing[i],
    ) by {
        let path = joined(s.dir, listing[i].0);
        assert(path.len() > 0 && path.last() == 't') by {
            state::lemma_table_name_end(s.dir, listing[i].0);
        }
        assert(!segment_files(s.log_dir, s.segs).contains_key(path));
        assert(table_files(ts).contains_key(path));
        let j = choose|j: int| 0 <= j < ts.len() && path == (#[trigger] ts[j]).path;
        let t = ts[j];
        assert(in_dir(t, s.dir));
        let name = choose|name: Seq<char>| #[trigger] is_path(t.path, s.dir, name, t.generation);
        text::lemma_joined_injective(s.dir, name, listing[i].0);
        state::lemma_table_file(ts, j);
        assert(stands_in(t, s.dir, listing[i]));
    }
}

/// The files of the log are listed as what they are.
proof fn lemma_segments_listed(s: LsmView, listing: Seq<(Seq<char>, Seq<u8>)>)
    requires
        s.wf(),
        s.apart(),
        s.durable(),
        lists_segment_files(s.disk(), s.log_dir, listing),
    ensures
        lists(listing, s.segs),
{
    let segs = s.segs;
    let files = segment_files(s.log_dir, segs);
    segment::lemma_segment_files(s.log_dir, segs);
    state::lemma_table_files_end(s);
    assert forall|j: int| 0 <= j < segs.len() implies exists|i: int|
        0 <= i < listing.len() && (#[trigger] listing[i]).0 == (#[trigger] segs[j]).name
            && recovers_to(listing[i].1, segs[j]) by {
        let g = segs[j];
        assert(g.wf() && g.intact());
        let path = joined(s.log_dir, g.name);
        state::lemma_segment_path_end(s.log_dir, g);
        assert(files.contains_key(path));
        assert(s.disk().contains_key(path));
        let i = choose|i: int| 0 <= i < listing.len() && (#[trigger] listing[i]).0 == g.name;
        reopen::lemma_intact_recovers(g);
        assert(listing[i].0 == g.name && recovers_to(listing[i].1, g));
    }
    assert forall|i: int|
        0 <= i < listing.len() && segment_start((#[trigger] listing[i]).0) is Some implies exists|
        j: int,
    |
        0 <= j < segs.len() && (#[trigger] segs[j]).name == listing[i].0 && recovers_to(
            listing[i].1,
            segs[j],
        ) by {
        let path = joined(s.log_dir, listing[i].0);
        assert(path.len() > 0 && path.last() == 'g') by {
            state::lemma_segment_name_end(s.log_dir, listing[i].0);
        }
        assert(files.contains_key(path));
        let j = choose|j: int|
            0 <= j < segs.len() && path == joined(s.log_dir, (#[trigger] segs[j]).name);
        text::lemma_joined_injective(s.log_dir, segs[j].name, listing[i].0);
        assert(segs[j].intact());
        reopen::lemma_intact_recovers(segs[j]);
        assert(segs[j].name == listing[i].0 && recovers_to(listing[i].1, segs[j]));
    }
}

/// Nothing is lost from the files: an engine that is opened on the files of
/// another, listed in whatever order, holds what that one held on the same
/// files, and survives being closed again. The other must have no file left of a table that was
/// merged away.
pub proof fn lemma_nothing_lost(
    s: LsmView,
    log_listing: Seq<(Seq<char>, Seq<u8>)>,
    listing: Seq<(Seq<char>, Seq<u8>)>,
)
    requires
        s.wf(),
        s.durable(),
        s.apart(),
        s.pending.len() == 0,
        lists_segment_files(s.disk(), s.log_dir, log_listing),
        lists_table_files(s.disk(), s.dir, listing),
        found_tables(s.dir, listing) matches Ok(ts) ==> can_go_on(opened(log_listing), ts),
    ensures
        found_tables(s.dir, listing) matches Ok(ts) && (replayed(
            Stamped::empty(),
            to_replay(opened(log_listing), ts),
        ) matches Ok(mem) && {
            let n = opened_view(s.dir, s.log_dir, opened(log_listing), ts, mem);
            n.wf() && n.durable() && n.apart() && n.contents() == s.contents() && n.disk()
                == s.disk()
        }),
{
    lemma_segments_listed(s, log_listing);
    lemma_tables_listed(s, listing);
    reopen::lemma_reopened(log_listing, s.segs);
    recover::lemma_tables_found_again(s.dir, listing, s.tables);
    let ts = found_tables(s.dir, listing)->Ok_0;
    recover::lemma_reopened_engine(s, log_listing, listing);
    assert(Seq::<TableView>::empty() + ts =~= ts);
    assert(s.pending + s.tables =~= s.tables);
    lemma_same_files(s.tables, ts);
}

/// These are the tables of the engine and those that were merged away and still
/// have a file; read together, newest first, they say what the engine holds.
pub open spec fn says_the_same(s: LsmView, ts: Seq<TableView>) -> bool {
    let n = LsmView { tables: ts, pending: seq![], ..s };
    &&& forall|i: int|
        0 <= i < (s.pending + s.tables).len() ==> ts.contains(#[trigger] (s.pending + s.tables)[i])
    &&& forall|i: int| 0 <= i < ts.len() ==> (s.pending + s.tables).contains(#[trigger] ts[i])
    &&& n.wf()
    &&& n.durable()
    &&& n.apart()
    &&& n.contents() == s.contents()
}

/// The files that are left of tables that were merged away hide nothing of what
/// the engine holds, and show nothing else.
pub open spec fn hides_nothing(s: LsmView) -> bool {
    exists|ts: Seq<TableView>| #[trigger] says_the_same(s, ts)
}

/// Where no file is left of a table that was merged away, nothing is hidden.
pub proof fn lemma_none_left(s: LsmView)
    requires
        s.wf(),
        s.durable(),
        s.apart(),
        s.pending.len() == 0,
    ensures
        hides_nothing(s),
{
    assert(s.pending =~= seq![]);
    assert(s.pending + s.tables =~= s.tables);
    assert(says_the_same(s, s.tables));
}

/// After a merge nothing is hidden, if the merged tables that keep their files
/// are the newest of them.
pub proof fn lemma_newest_left(s: LsmView, m: Slots, es: Seq<Slot>, used: Seq<bool>)
    requires
        s.wf(),
        s.durable(),
        s.apart(),
        s.pending.len() == 0,
        s.next_gen < u64::MAX,
        merged(s.tables) == Ok::<Slots, ReadFault>(m),
        lists_in_order(es, live(m)),
        table_bytes(es, top_seq(s.tables)).len() <= u64::MAX,
        used.len() == s.tables.len(),
        forall|a: int, b: int|
            0 <= a < b < used.len() && #[trigger] used[b] ==> #[trigger] used[a],
    ensures
        hides_nothing(after_sweep(after_merge(s, es), used)),
{
    let u = lemma_in_use_upto(used);
    let new = merge_tables(s, es);
    let b = after_sweep(after_merge(s, es), used);
    let ts = new + s.tables.take(u);
    lemma_partly_merged(s, m, es, u);
    assert(s.pending + s.tables =~= s.tables);
    lemma_newest_in_use(s.tables, used, u);
    let all = b.pending + b.tables;
    assert(b.pending =~= s.tables.take(u));
    assert forall|i: int| 0 <= i < all.len() implies ts.contains(#[trigger] all[i]) by {
        if i < u {
            assert(ts[new.len() + i] == all[i]);
        } else {
            assert(ts[i - u] == all[i]);
        }
    }
    assert forall|i: int| 0 <= i < ts.len() implies all.contains(#[trigger] ts[i]) by {
        if i < new.len() {
            assert(all[u + i] == ts[i]);
        } else {
            assert(all[i - new.len()] == ts[i]);
        }
    }
    let n = LsmView { tables: ts, pending: seq![], ..b };
    assert(s.pending =~= seq![]);
    assert(n == partly_merged(s, new, u));
    state::lemma_after_merge(s, m, es);
    state::lemma_after_sweep(after_merge(s, es), used);
    assert(says_the_same(b, ts));
}

/// One stack on another: the upper one decides first.
proof fn lemma_stacked_both(a: Seq<TableView>, b: Seq<TableView>)
    ensures
        stacked(a + b) == stacked(b).union_prefer_right(stacked(a)),
    decreases b.len(),
{
    let all = a + b;
    if b.len() == 0 {
        assert(all =~= a);
        assert(stacked(b).union_prefer_right(stacked(a)) =~= stacked(a));
    } else {
        assert(all.drop_last() =~= a + b.drop_last());
        assert(all.last() == b.last());
        lemma_stacked_both(a, b.drop_last());
        assert(stacked(all) =~= stacked(b).union_prefer_right(stacked(a)));
    }
}

/// Nothing is hidden, if the tables that were merged away and still have a file are
/// no newer than the others, and have a value only for keys that the others or the
/// buffer know.
pub proof fn lemma_shadowed(s: LsmView)
    requires
        s.wf(),
        s.durable(),
        s.apart(),
        s.tables.len() > 0,
        newest_first(s.tables + s.pending),
        ties_agree(s.tables + s.pending),
        forall|i: int|
            0 <= i < s.pending.len() ==> (#[trigger] s.pending[i]).sound() && faithful(
                s.pending[i],
            ),
        forall|k: Seq<u8>| #[trigger]
            stacked(s.pending).contains_key(k) && stacked(s.pending)[k] is Some ==> stacked(
                s.tables,
            ).contains_key(k) || s.mem.contains_key(k),
    ensures
        hides_nothing(s),
{
    let ts = s.tables + s.pending;
    let all = s.pending + s.tables;
    let p = s.pending.len() as int;
    let q = s.tables.len() as int;
    let n = LsmView { tables: ts, pending: seq![], ..s };
    assert forall|i: int| 0 <= i < all.len() implies ts.contains(#[trigger] all[i]) by {
        if i < p {
            assert(ts[q + i] == all[i]);
        } else {
            assert(ts[i - p] == all[i]);
        }
    }
    assert forall|i: int| 0 <= i < ts.len() implies all.contains(#[trigger] ts[i]) && in_dir(
        ts[i],
        s.dir,
    ) && ts[i].generation < s.next_gen && faithful(ts[i]) && ts[i].sound() by {
        if i < q {
            assert(all[p + i] == ts[i]);
            assert(s.tables[i].sound());
        } else {
            assert(all[i - q] == ts[i]);
            assert(ts[i] == s.pending[i - q]);
        }
    }
    assert(ts[0] == s.tables[0]);
    lemma_stacked_both(s.tables, s.pending);
    assert(n.contents() =~= s.contents()) by {
        assert forall|k: Seq<u8>| #[trigger] n.contents().contains_key(k) implies
            s.contents().contains_key(k) && s.contents()[k] == n.contents()[k] by {
            assert(unstamped(s.mem).contains_key(k) == s.mem.contains_key(k));
        }
        assert forall|k: Seq<u8>| #[trigger] s.contents().contains_key(k) implies
            n.contents().contains_key(k) by {}
    }
    assert(n.wf());
    assert(n.durable());
    assert(paths_apart(n.pending + n.tables)) by {
        let a = n.pending + n.tables;
        assert(a =~= ts);
        assert forall|i: int, j: int| 0 <= i < j < a.len() implies (#[trigger] a[i]).path != (
        #[trigger] a[j]).path by {
            let x = if i < q {
                p + i
            } else {
                i - q
            };
            let y = if j < q {
                p + j
            } else {
                j - q
            };
            assert(all[x] == a[i] && all[y] == a[j]);
            if x < y {
                assert(all[x].path != all[y].path);
            } else {
                assert(all[y].path != all[x].path);
            }
        }
    }
    assert(says_the_same(s, ts));
}

/// The newest tables in use are the first ones.
proof fn lemma_newest_in_use(ts: Seq<TableView>, used: Seq<bool>, u: int)
    requires
        used.len() >= ts.len(),
        0 <= u,
        forall|i: int| 0 <= i < ts.len() ==> (#[trigger] used[i] <==> i < u),
    ensures
        in_use(ts, used) == ts.take(
            if u <= ts.len() {
                u
            } else {
                ts.len() as int
            },
        ),
    decreases ts.len(),
{
    if ts.len() > 0 {
        let d = ts.drop_last();
        lemma_newest_in_use(d, used, u);
        assert(used[ts.len() - 1] <==> ts.len() - 1 < u);
    }
    assert(in_use(ts, used) =~= ts.take(
        if u <= ts.len() {
            u
        } else {
            ts.len() as int
        },
    ));
}

/// Nothing is lost from the files, where those of tables that were merged away
/// hide nothing: an engine that is opened on the files of another, listed in
/// whatever order, holds what that one held, and survives being closed again.
pub proof fn lemma_nothing_hidden(
    s: LsmView,
    log_listing: Seq<(Seq<char>, Seq<u8>)>,
    listing: Seq<(Seq<char>, Seq<u8>)>,
)
    requires
        s.apart(),
        hides_nothing(s),
        lists_segment_files(s.disk(), s.log_dir, log_listing),
        lists_table_files(s.disk(), s.dir, listing),
        found_tables(s.dir, listing) matches Ok(ts) ==> can_go_on(opened(log_listing), ts),
    ensures
        found_tables(s.dir, listing) matches Ok(ts) && (replayed(
            Stamped::empty(),
            to_replay(opened(log_listing), ts),
        ) matches Ok(mem) && {
            let n = opened_view(s.dir, s.log_dir, opened(log_listing), ts, mem);
            n.wf() && n.durable() && n.apart() && n.contents() == s.contents() && n.disk()
                == s.disk()
        }),
{
    let ts = choose|ts: Seq<TableView>| #[trigger] says_the_same(s, ts);
    let n = LsmView { tables: ts, pending: seq![], ..s };
    assert(n.pending + n.tables =~= ts);
    lemma_same_files(s.pending + s.tables, ts);
    assert(n.disk() == s.disk());
    lemma_nothing_lost(n, log_listing, listing);
}

/// The same tables have the same files, in whatever order they come.
proof fn lemma_same_files(a: Seq<TableView>, b: Seq<TableView>)
    requires
        paths_apart(a),
        paths_apart(b),
        forall|i: int| 0 <= i < a.len() ==> b.contains(#[trigger] a[i]),
        forall|i: int| 0 <= i < b.len() ==> a.contains(#[trigger] b[i]),
    ensures
        table_files(a) == table_files(b),
{
    let x = table_files(a);
    let y = table_files(b);
    assert forall|f: Seq<char>| #[trigger] x.contains_key(f) implies y.contains_key(f) && x[f]
        == y[f] by {
        let i = choose|i: int| 0 <= i < a.len() && f == (#[trigger] a[i]).path;
        assert(b.contains(a[i]));
        let j = b.index_of(a[i]);
        state::lemma_table_file(a, i);
        state::lemma_table_file(b, j);
    }
    assert forall|f: Seq<char>| #[trigger] y.contains_key(f) implies x.contains_key(f) by {
        let j = choose|j: int| 0 <= j < b.len() && f == (#[trigger] b[j]).path;
        assert(a.contains(b[j]));
        let i = a.index_of(b[j]);
        assert(a[i].path == f);
    }
    assert(x =~= y);
}

} // verus!
