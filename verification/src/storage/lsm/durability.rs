//! What a crash leaves after any sequence of calls.
//!
//! Wherever the host stops carrying out what it was told, no write is lost that
//! was carried out, and nothing comes back that was deleted, provided that the
//! files of tables that were merged away hide nothing. They do not where none is
//! left, where those that a snapshot keeps are the newest ones, or where the other
//! tables or the buffer know every key that they have a value for.

use vstd::prelude::*;

use crate::storage::disk::{self, performed_all, EffectView, Files};
use crate::storage::engine::{self, written, written_all, Op};
use crate::storage::lsm::crash::{self, hides_nothing, lists_segment_files, lists_table_files};
use crate::storage::lsm::engine::LsmConfig;
use crate::storage::lsm::history::{self, all_ops, came_to, is_history, leads, Call};
use crate::storage::lsm::layers::{self, merged};
use crate::storage::lsm::memtable::{weight, Stamped};
use crate::storage::lsm::outcome::{
    batch_steps, compacted, flush_by_way, flush_outcome, flushed, is_flush, is_merge, is_sweep,
    latest, write_outcome,
};
use crate::storage::lsm::recover::{can_go_on, found_tables, opened_view, to_replay};
use crate::storage::lsm::replay::{self, record_of, replayed};
use crate::storage::lsm::sstable::{Slot, TableView};
use crate::storage::lsm::state::{
    self, after_merge, after_write, flush_effects, in_use, merge_effects, merge_tables,
    sweep_effects, LsmView,
};
use crate::storage::power::{self, after_all, all_safe, is_durable, may_leave, Platter};
use crate::storage::segment::{append_effects, full, grown, opened};
use crate::storage::wal::WalConfig;
use crate::types::Error;

verus! {

/// The engine survives being closed, and no two of its files share a path.
pub open spec fn sure(s: LsmView) -> bool {
    s.wf() && s.durable() && s.apart()
}

/// After the first effects of a call on `a` the files are those of `n`.
pub open spec fn left_by(a: LsmView, told: Seq<EffectView>, j: int, n: LsmView) -> bool {
    &&& sure(n)
    &&& n.dir == a.dir
    &&& n.log_dir == a.log_dir
    &&& performed_all(a.disk(), told.take(j)) == n.disk()
}

proof fn lemma_nothing_done(a: LsmView, told: Seq<EffectView>)
    requires
        sure(a),
    ensures
        left_by(a, told, 0, a),
{
    assert(told.take(0) =~= Seq::<EffectView>::empty());
}

proof fn lemma_flushed_cut(a: LsmView, b: LsmView, told: Seq<EffectView>, j: int) -> (n: LsmView)
    requires
        sure(a),
        flushed(a, b, told),
        0 <= j <= told.len(),
    ensures
        left_by(a, told, j, n),
        n.contents() == a.contents(),
        n.pending == a.pending,
{
    if a.mem == Stamped::empty() {
        lemma_nothing_done(a, told);
        a
    } else {
        let (es, newest) = choose|es: Seq<Slot>, newest: u64| #[trigger]
            is_flush(a, b, told, es, newest);
        crash::lemma_flush_interrupted(a, es, newest, j)
    }
}

/// Where no merged table is left, none was in use.
proof fn lemma_none_was_in_use(ts: Seq<TableView>, used: Seq<bool>)
    requires
        in_use(ts, used).len() == 0,
    ensures
        forall|i: int| 0 <= i < ts.len() ==> !#[trigger] used[i],
    decreases ts.len(),
{
    if ts.len() > 0 {
        lemma_none_was_in_use(ts.drop_last(), used);
    }
}

proof fn lemma_compacted_cut(
    a: LsmView,
    b: LsmView,
    told: Seq<EffectView>,
    r: Result<(), Error>,
    j: int,
) -> (n: LsmView)
    requires
        sure(a),
        compacted(a, b, told, r),
        0 <= j <= told.len(),
    ensures
        left_by(a, told, j, n),
        n.contents() == a.contents(),
        a.pending.len() == 0 && b.pending.len() == 0 ==> n.pending.len() == 0,
{
    if a.tables.len() < 2 {
        let used = choose|used: Seq<bool>| #[trigger] is_sweep(a, b, told, used);
        crash::lemma_sweep_interrupted(a, used, j)
    } else {
        layers::lemma_merged_sound(a.tables);
        let m = merged(a.tables)->Ok_0;
        let (es, used) = choose|es: Seq<Slot>, used: Seq<bool>| #[trigger]
            is_merge(a, b, told, es, used);
        if a.pending.len() == 0 && b.pending.len() == 0 {
            assert(after_merge(a, es).pending =~= a.tables);
            lemma_none_was_in_use(a.tables, used);
            crash::lemma_merge_interrupted(a, m, es, used, j)
        } else {
            crash::lemma_merge_cut(a, m, es, used, j)
        }
    }
}

/// The effects behind the first ones.
proof fn lemma_cut_behind(
    a: LsmView,
    first: Seq<EffectView>,
    mid: LsmView,
    rest: Seq<EffectView>,
    j: int,
    n: LsmView,
)
    requires
        performed_all(a.disk(), first) == mid.disk(),
        mid.dir == a.dir,
        mid.log_dir == a.log_dir,
        first.len() <= j <= first.len() + rest.len(),
        left_by(mid, rest, j - first.len(), n),
    ensures
        left_by(a, first + rest, j, n),
{
    let k = j - first.len();
    assert((first + rest).take(j) =~= first + rest.take(k));
    disk::lemma_performed_add(a.disk(), first, rest.take(k));
}

proof fn lemma_flush_cut(
    a: LsmView,
    b: LsmView,
    told: Seq<EffectView>,
    threshold: int,
    r: Result<(), Error>,
    j: int,
) -> (n: LsmView)
    requires
        sure(a),
        flush_outcome(a, b, told, threshold, r),
        0 <= j <= told.len(),
    ensures
        left_by(a, told, j, n),
        n.contents() == a.contents(),
        a.pending.len() == 0 && b.pending.len() == 0 ==> n.pending.len() == 0,
{
    let (mid, t1, t2) = choose|mid: LsmView, t1: Seq<EffectView>, t2: Seq<EffectView>|
        told == t1 + t2 && #[trigger] flush_by_way(a, mid, t1, b, t2, threshold, r);
    if j <= t1.len() {
        assert(told.take(j) =~= t1.take(j));
        lemma_flushed_cut(a, mid, t1, j)
    } else {
        history::lemma_flushed(a, mid, t1);
        assert(sure(mid)) by {
            reveal(leads);
            assert(mid.pending == a.pending);
        }
        assert(mid.contents() == a.contents() && mid.dir == a.dir && mid.log_dir == a.log_dir
            && performed_all(a.disk(), t1) == mid.disk()) by {
            reveal(leads);
        }
        assert(mid.tables.len() >= threshold);
        let n = lemma_compacted_cut(mid, b, t2, r, j - t1.len());
        lemma_cut_behind(a, t1, mid, t2, j, n);
        n
    }
}

/// The log can take the write: its record can be read back, and the file of the
/// segment has a length.
pub open spec fn log_takes(s: LsmView, op: Op) -> bool {
    replay::loggable(op) && !full(grown(s.segs, record_of(s.next_seq, op)), u64::MAX)
}

proof fn lemma_write_cut(
    a: LsmView,
    op: Op,
    config: LsmConfig,
    wal_config: WalConfig,
    b: LsmView,
    told: Seq<EffectView>,
    r: Result<(), Error>,
    j: int,
) -> (n: LsmView)
    requires
        sure(a),
        wal_config.dir@ == a.log_dir,
        log_takes(a, op),
        write_outcome(a, op, config, wal_config, b, told, r),
        0 <= j <= told.len(),
    ensures
        left_by(a, told, j, n),
        n.contents() == (if j == 0 {
            a.contents()
        } else {
            written(a.contents(), op)
        }),
        a.pending.len() == 0 && b.pending.len() == 0 ==> n.pending.len() == 0,
{
    let w = after_write(a, op, wal_config.max_segment_bytes);
    let logged = append_effects(wal_config, a.segs, record_of(a.next_seq, op));
    if j <= logged.len() {
        assert(told.take(j) =~= logged.take(j));
        crash::lemma_write_interrupted(a, op, wal_config, j)
    } else {
        let threshold = config.sst_compact_threshold as int;
        let t = choose|t: Seq<EffectView>|
            told == logged + t && #[trigger] flush_outcome(w, b, t, threshold, r);
        state::lemma_after_write(a, op, wal_config.max_segment_bytes);
        state::lemma_write_mirrors(a, op, wal_config);
        replay::lemma_loggable(a.next_seq, op);
        let n = lemma_flush_cut(w, b, t, threshold, r, j - logged.len());
        lemma_cut_behind(a, logged, w, t, j, n);
        n
    }
}

/// The call is one that writes once at the most. A batch is its writes one after
/// another.
pub open spec fn is_single(call: Call) -> bool {
    call !is Batch
}

proof fn lemma_call_cut(
    a: LsmView,
    call: Call,
    config: LsmConfig,
    wal_config: WalConfig,
    b: LsmView,
    told: Seq<EffectView>,
    r: Result<(), Error>,
    j: int,
) -> (n: LsmView)
    requires
        sure(a),
        wal_config.dir@ == a.log_dir,
        is_single(call),
        call matches Call::Write { op } ==> log_takes(a, op),
        came_to(a, call, config, wal_config, b, told, r),
        0 <= j <= told.len(),
    ensures
        left_by(a, told, j, n),
        n.contents() == (if j == 0 {
            a.contents()
        } else {
            written_all(a.contents(), call.ops())
        }),
        a.pending.len() == 0 && b.pending.len() == 0 ==> n.pending.len() == 0,
{
    reveal(came_to);
    match call {
        Call::Write { op } => {
            engine::lemma_written_one(a.contents(), op);
            lemma_write_cut(a, op, config, wal_config, b, told, r, j)
        },
        Call::Flush => lemma_flush_cut(
            a,
            b,
            told,
            config.sst_compact_threshold as int,
            r,
            j,
        ),
        _ => lemma_compacted_cut(a, b, told, r, j),
    }
}

/// What is left when the host stops after `j` effects of the call at `i`: the
/// files are those of `n`, which holds what was held before that call, or what is
/// held after it as soon as its first effect is carried out.
pub open spec fn left_at(
    states: Seq<LsmView>,
    calls: Seq<Call>,
    told: Seq<Seq<EffectView>>,
    i: int,
    j: int,
    n: LsmView,
) -> bool {
    &&& sure(n)
    &&& n.dir == states[0].dir
    &&& n.log_dir == states[0].log_dir
    &&& performed_all(states[0].disk(), told.take(i).flatten() + told[i].take(j)) == n.disk()
    &&& n.contents() == written_all(
        states[0].contents(),
        all_ops(
            calls.take(
                if j == 0 {
                    i
                } else {
                    i + 1
                },
            ),
        ),
    )
}

/// Whatever calls came before, wherever in a call the host stops carrying out
/// its effects, the files are those of an engine that holds what it should. If no
/// snapshot kept the file of a table that was merged away, none is left.
pub proof fn lemma_crash(
    states: Seq<LsmView>,
    calls: Seq<Call>,
    config: LsmConfig,
    wal_config: WalConfig,
    told: Seq<Seq<EffectView>>,
    results: Seq<Result<(), Error>>,
    i: int,
    j: int,
) -> (n: LsmView)
    requires
        is_history(states, calls, config, wal_config, told, results),
        sure(states[0]),
        wal_config.dir@ == states[0].log_dir,
        forall|k: int| 0 <= k < calls.len() ==> is_single(#[trigger] calls[k]),
        forall|k: int|
            0 <= k < calls.len() ==> ((#[trigger] calls[k]) matches Call::Write { op }
                ==> log_takes(states[k], op)),
        0 <= i < calls.len(),
        0 <= j <= told[i].len(),
    ensures
        left_at(states, calls, told, i, j, n),
        states[i].pending.len() == 0 && states[i + 1].pending.len() == 0 ==> n.pending.len() == 0,
{
    let a = states[0];
    let (s, c, t, x) = (states.take(i + 1), calls.take(i), told.take(i), results.take(i));
    assert forall|k: int| 0 <= k < c.len() implies came_to(
        s[k],
        #[trigger] c[k],
        config,
        wal_config,
        s[k + 1],
        t[k],
        x[k],
    ) by {
        assert(c[k] == calls[k]);
    }
    history::lemma_history(s, c, config, wal_config, t, x);
    let ops = all_ops(c);
    assert forall|k: int| 0 <= k < ops.len() implies replay::loggable(#[trigger] ops[k]) by {
        lemma_ops_loggable(states, calls, i);
    }
    let mid = states[i];
    assert(s.last() == mid);
    assert(sure(mid) && mid.dir == a.dir && mid.log_dir == a.log_dir && mid.contents()
        == written_all(a.contents(), ops) && performed_all(a.disk(), t.flatten())
        == mid.disk()) by {
        reveal(leads);
    }
    assert(came_to(states[i], calls[i], config, wal_config, states[i + 1], told[i], results[i]));
    let n = lemma_call_cut(
        mid,
        calls[i],
        config,
        wal_config,
        states[i + 1],
        told[i],
        results[i],
        j,
    );
    disk::lemma_performed_add(a.disk(), t.flatten(), told[i].take(j));
    if j > 0 {
        assert(calls.take(i + 1).drop_last() =~= c);
        assert(calls.take(i + 1).last() == calls[i]);
        engine::lemma_written_more(a.contents(), ops, calls[i].ops());
    }
    n
}

/// What the first calls write can be read back from the log.
proof fn lemma_ops_loggable(states: Seq<LsmView>, calls: Seq<Call>, n: int)
    requires
        states.len() == calls.len() + 1,
        forall|k: int| 0 <= k < calls.len() ==> is_single(#[trigger] calls[k]),
        forall|k: int|
            0 <= k < calls.len() ==> ((#[trigger] calls[k]) matches Call::Write { op }
                ==> log_takes(states[k], op)),
        0 <= n <= calls.len(),
    ensures
        forall|k: int|
            0 <= k < all_ops(calls.take(n)).len() ==> replay::loggable(
                #[trigger] all_ops(calls.take(n))[k],
            ),
    decreases n,
{
    if n > 0 {
        lemma_ops_loggable(states, calls, n - 1);
        let prior = all_ops(calls.take(n - 1));
        assert(calls.take(n).drop_last() =~= calls.take(n - 1));
        assert(calls.take(n).last() == calls[n - 1]);
        let all = all_ops(calls.take(n));
        assert forall|k: int| 0 <= k < all.len() implies replay::loggable(#[trigger] all[k]) by {
            if k < prior.len() {
                assert(all[k] == prior[k]);
            } else {
                assert(is_single(calls[n - 1]));
            }
        }
    }
}

/// After a crash an engine that is opened on the files holds all writes of the
/// calls before the one that was cut off; and the write of that one too, as soon
/// as its first effect was carried out. If files are left of tables that were
/// merged away, for a snapshot kept them, they must hide nothing.
pub proof fn lemma_crash_survived(
    states: Seq<LsmView>,
    calls: Seq<Call>,
    told: Seq<Seq<EffectView>>,
    i: int,
    j: int,
    n: LsmView,
    log_listing: Seq<(Seq<char>, Seq<u8>)>,
    listing: Seq<(Seq<char>, Seq<u8>)>,
)
    requires
        left_at(states, calls, told, i, j, n),
        hides_nothing(n),
        lists_segment_files(
            performed_all(states[0].disk(), told.take(i).flatten() + told[i].take(j)),
            states[0].log_dir,
            log_listing,
        ),
        lists_table_files(
            performed_all(states[0].disk(), told.take(i).flatten() + told[i].take(j)),
            states[0].dir,
            listing,
        ),
        found_tables(states[0].dir, listing) matches Ok(ts) ==> can_go_on(opened(log_listing), ts),
    ensures
        given_back(states, calls, i, j, log_listing, listing),
{
    crash::lemma_nothing_hidden(n, log_listing, listing);
}

/// An engine that is opened on these files holds what was written before the stop.
pub open spec fn given_back(
    states: Seq<LsmView>,
    calls: Seq<Call>,
    i: int,
    j: int,
    log_listing: Seq<(Seq<char>, Seq<u8>)>,
    listing: Seq<(Seq<char>, Seq<u8>)>,
) -> bool {
    found_tables(states[0].dir, listing) matches Ok(ts) && (replayed(
        Stamped::empty(),
        to_replay(opened(log_listing), ts),
    ) matches Ok(mem) && {
        let n = opened_view(states[0].dir, states[0].log_dir, opened(log_listing), ts, mem);
        sure(n) && n.contents() == written_all(
            states[0].contents(),
            all_ops(
                calls.take(
                    if j == 0 {
                        i
                    } else {
                        i + 1
                    },
                ),
            ),
        )
    })
}

/// Where no snapshot keeps the file of a table that was merged away, a crash
/// anywhere in a call is survived.
pub proof fn lemma_crash_anywhere(
    states: Seq<LsmView>,
    calls: Seq<Call>,
    config: LsmConfig,
    wal_config: WalConfig,
    told: Seq<Seq<EffectView>>,
    results: Seq<Result<(), Error>>,
    i: int,
    j: int,
    log_listing: Seq<(Seq<char>, Seq<u8>)>,
    listing: Seq<(Seq<char>, Seq<u8>)>,
)
    requires
        is_history(states, calls, config, wal_config, told, results),
        sure(states[0]),
        wal_config.dir@ == states[0].log_dir,
        forall|k: int| 0 <= k < calls.len() ==> is_single(#[trigger] calls[k]),
        forall|k: int|
            0 <= k < calls.len() ==> ((#[trigger] calls[k]) matches Call::Write { op }
                ==> log_takes(states[k], op)),
        0 <= i < calls.len(),
        0 <= j <= told[i].len(),
        states[i].pending.len() == 0,
        states[i + 1].pending.len() == 0,
        lists_segment_files(
            performed_all(states[0].disk(), told.take(i).flatten() + told[i].take(j)),
            states[0].log_dir,
            log_listing,
        ),
        lists_table_files(
            performed_all(states[0].disk(), told.take(i).flatten() + told[i].take(j)),
            states[0].dir,
            listing,
        ),
        found_tables(states[0].dir, listing) matches Ok(ts) ==> can_go_on(opened(log_listing), ts),
    ensures
        given_back(states, calls, i, j, log_listing, listing),
{
    let n = lemma_crash(states, calls, config, wal_config, told, results, i, j);
    crash::lemma_none_left(n);
    lemma_crash_survived(states, calls, told, i, j, n, log_listing, listing);
}

// ---- loss of power -------------------------------------------------------------------------

proof fn lemma_both_durable(a: Seq<EffectView>, b: Seq<EffectView>)
    requires
        forall|i: int| 0 <= i < a.len() ==> is_durable(#[trigger] a[i]),
        forall|i: int| 0 <= i < b.len() ==> is_durable(#[trigger] b[i]),
    ensures
        forall|i: int| 0 <= i < (a + b).len() ==> is_durable(#[trigger] (a + b)[i]),
{
    assert forall|i: int| 0 <= i < (a + b).len() implies is_durable(#[trigger] (a + b)[i]) by {
        if i < a.len() {
            assert((a + b)[i] == a[i]);
        } else {
            assert((a + b)[i] == b[i - a.len()]);
        }
    }
}

proof fn lemma_sweep_durable(ts: Seq<TableView>, used: Seq<bool>)
    ensures
        forall|i: int|
            0 <= i < sweep_effects(ts, used).len() ==> is_durable(
                #[trigger] sweep_effects(ts, used)[i],
            ),
    decreases ts.len(),
{
    if ts.len() > 0 {
        lemma_sweep_durable(ts.drop_last(), used);
        let gone = seq![EffectView::Remove { file: ts.last().path }];
        lemma_both_durable(gone, sweep_effects(ts.drop_last(), used));
    }
}

proof fn lemma_compacted_durable(
    a: LsmView,
    b: LsmView,
    told: Seq<EffectView>,
    r: Result<(), Error>,
)
    requires
        compacted(a, b, told, r),
    ensures
        forall|i: int| 0 <= i < told.len() ==> is_durable(#[trigger] told[i]),
{
    if a.tables.len() < 2 {
        let used = choose|used: Seq<bool>| #[trigger] is_sweep(a, b, told, used);
        lemma_sweep_durable(a.pending, used);
    } else if merged(a.tables) is Ok {
        let (es, used) = choose|es: Seq<Slot>, used: Seq<bool>| #[trigger]
            is_merge(a, b, told, es, used);
        lemma_sweep_durable(after_merge(a, es).pending, used);
        lemma_both_durable(
            merge_effects(merge_tables(a, es)),
            sweep_effects(after_merge(a, es).pending, used),
        );
    }
}

proof fn lemma_flush_durable(
    a: LsmView,
    b: LsmView,
    told: Seq<EffectView>,
    threshold: int,
    r: Result<(), Error>,
)
    requires
        flush_outcome(a, b, told, threshold, r),
    ensures
        forall|i: int| 0 <= i < told.len() ==> is_durable(#[trigger] told[i]),
{
    let (mid, t1, t2) = choose|mid: LsmView, t1: Seq<EffectView>, t2: Seq<EffectView>|
        told == t1 + t2 && #[trigger] flush_by_way(a, mid, t1, b, t2, threshold, r);
    assert forall|i: int| 0 <= i < t1.len() implies is_durable(#[trigger] t1[i]) by {
        let (es, newest) = choose|es: Seq<Slot>, newest: u64| #[trigger]
            is_flush(a, mid, t1, es, newest);
        assert(t1 == flush_effects(a, es, newest));
    }
    if mid.tables.len() >= threshold {
        lemma_compacted_durable(mid, b, t2, r);
    }
    lemma_both_durable(t1, t2);
}

proof fn lemma_write_durable(
    a: LsmView,
    op: Op,
    config: LsmConfig,
    wal_config: WalConfig,
    b: LsmView,
    told: Seq<EffectView>,
    r: Result<(), Error>,
)
    requires
        write_outcome(a, op, config, wal_config, b, told, r),
        wal_config.sync_on_append,
    ensures
        forall|i: int| 0 <= i < told.len() ==> is_durable(#[trigger] told[i]),
{
    let w = after_write(a, op, wal_config.max_segment_bytes);
    let logged = append_effects(wal_config, a.segs, record_of(a.next_seq, op));
    power::lemma_append_durable(wal_config, a.segs, record_of(a.next_seq, op));
    if weight(w.mem) >= config.memtable_max_bytes {
        let threshold = config.sst_compact_threshold as int;
        let t = choose|t: Seq<EffectView>|
            told == logged + t && #[trigger] flush_outcome(w, b, t, threshold, r);
        lemma_flush_durable(w, b, t, threshold, r);
        lemma_both_durable(logged, t);
    }
}

proof fn lemma_flat_durable(parts: Seq<Seq<EffectView>>)
    requires
        forall|k: int, i: int|
            0 <= k < parts.len() && 0 <= i < parts[k].len() ==> is_durable(#[trigger] parts[k][i]),
    ensures
        forall|i: int| 0 <= i < parts.flatten().len() ==> is_durable(#[trigger] parts.flatten()[i]),
    decreases parts.len(),
{
    if parts.len() > 0 {
        let d = parts.drop_last();
        parts.lemma_flatten_and_flatten_alt_are_equivalent();
        d.lemma_flatten_and_flatten_alt_are_equivalent();
        assert forall|k: int, i: int| 0 <= k < d.len() && 0 <= i < d[k].len() implies is_durable(
            #[trigger] d[k][i],
        ) by {
            assert(parts[k][i] == d[k][i]);
        }
        lemma_flat_durable(d);
        let last = parts.last();
        assert forall|i: int| 0 <= i < last.len() implies is_durable(#[trigger] last[i]) by {
            assert(parts[parts.len() - 1][i] == last[i]);
        }
        lemma_both_durable(d.flatten(), last);
        assert(parts.flatten() == d.flatten() + last);
    }
}

/// With durable appends, no effect of any call leaves anything behind that a loss
/// of power could take.
pub proof fn lemma_call_durable(
    a: LsmView,
    call: Call,
    config: LsmConfig,
    wal_config: WalConfig,
    b: LsmView,
    told: Seq<EffectView>,
    r: Result<(), Error>,
)
    requires
        came_to(a, call, config, wal_config, b, told, r),
        wal_config.sync_on_append,
    ensures
        forall|i: int| 0 <= i < told.len() ==> is_durable(#[trigger] told[i]),
{
    reveal(came_to);
    match call {
        Call::Write { op } => {
            lemma_write_durable(a, op, config, wal_config, b, told, r);
        },
        Call::Batch { ops } => {
            let (after, parts) = choose|after: Seq<LsmView>, parts: Seq<Seq<EffectView>>| #[trigger]
                batch_steps(a, ops, config, wal_config, after, parts, r) && (r is Ok ==> after.len()
                    == ops.len()) && b == latest(a, after) && told == parts.flatten();
            assert forall|k: int, i: int|
                0 <= k < parts.len() && 0 <= i < parts[k].len() implies is_durable(
                #[trigger] parts[k][i],
            ) by {
                let x: Result<(), Error> = if k == after.len() - 1 {
                    r
                } else {
                    Ok(())
                };
                assert(write_outcome(
                    latest(a, after.take(k)),
                    ops[k],
                    config,
                    wal_config,
                    after[k],
                    parts[k],
                    x,
                ));
                lemma_write_durable(
                    latest(a, after.take(k)),
                    ops[k],
                    config,
                    wal_config,
                    after[k],
                    parts[k],
                    x,
                );
            }
            lemma_flat_durable(parts);
        },
        Call::Flush => {
            lemma_flush_durable(a, b, told, config.sst_compact_threshold as int, r);
        },
        Call::Compact => {
            lemma_compacted_durable(a, b, told, r);
        },
    }
}

/// With durable appends, a loss of power at any time leaves all that the host was
/// told to do and has done: whatever bytes it takes that were not made durable, the
/// files are the same as if the host had only stopped.
pub proof fn lemma_power_loss(
    states: Seq<LsmView>,
    calls: Seq<Call>,
    config: LsmConfig,
    wal_config: WalConfig,
    told: Seq<Seq<EffectView>>,
    results: Seq<Result<(), Error>>,
    i: int,
    j: int,
    p: Platter,
    left: Files,
)
    requires
        is_history(states, calls, config, wal_config, told, results),
        wal_config.sync_on_append,
        0 <= i < calls.len(),
        0 <= j <= told[i].len(),
        p.held == states[0].disk(),
        all_safe(p),
        may_leave(after_all(p, told.take(i).flatten() + told[i].take(j)), left),
    ensures
        left == performed_all(states[0].disk(), told.take(i).flatten() + told[i].take(j)),
{
    let t = told.take(i);
    assert forall|k: int, x: int| 0 <= k < t.len() && 0 <= x < t[k].len() implies is_durable(
        #[trigger] t[k][x],
    ) by {
        assert(came_to(
            states[k],
            calls[k],
            config,
            wal_config,
            states[k + 1],
            told[k],
            results[k],
        ));
        lemma_call_durable(
            states[k],
            calls[k],
            config,
            wal_config,
            states[k + 1],
            told[k],
            results[k],
        );
        assert(t[k][x] == told[k][x]);
    }
    lemma_flat_durable(t);
    assert(came_to(states[i], calls[i], config, wal_config, states[i + 1], told[i], results[i]));
    lemma_call_durable(
        states[i],
        calls[i],
        config,
        wal_config,
        states[i + 1],
        told[i],
        results[i],
    );
    let last = told[i].take(j);
    assert forall|x: int| 0 <= x < last.len() implies is_durable(#[trigger] last[x]) by {
        assert(last[x] == told[i][x]);
    }
    lemma_both_durable(t.flatten(), last);
    let es = t.flatten() + last;
    power::lemma_durable(p, es);
    power::lemma_all_left(after_all(p, es), left);
    power::lemma_held(p, es);
}

} // verus!
