//! What holds after any sequence of calls.
//!
//! The outcome of a call is known exactly; here the calls are put one after
//! another. Flushes and merges, asked for or not, make no difference to what the
//! engine holds, and the files always give it back.

use vstd::prelude::*;

use crate::ordered::restricted;
use crate::storage::disk::{self, performed_all, EffectView};
use crate::storage::engine::{self, held, written_all, Contents, Op};
use crate::storage::lsm::crash::{self, hides_nothing, lists_segment_files, lists_table_files};
use crate::storage::lsm::engine::LsmConfig;
use crate::storage::lsm::layers::{
    self, answer, coherent, gathered, live, looked_up, merged, scanned, shown, slot_in, stacked,
};
use crate::storage::lsm::memtable::{unstamped, weight, Slots, Stamped};
use crate::storage::lsm::outcome::{
    batch_outcome, batch_steps, compacted, flush_by_way, flush_outcome, flushed, is_flush, is_merge,
    is_sweep, latest, write_outcome,
};
use crate::storage::lsm::recover::{can_go_on, found_tables, opened_view, to_replay, BadTable};
use crate::storage::lsm::replay::{self, record_of, replayed, PayloadFault};
use crate::storage::lsm::sstable::{self, run_of, ReadFault, Slot, TableView};
use crate::storage::lsm::state::{
    self, after_merge, after_sweep, after_write, flush_table, in_use, merge_effects, merge_tables,
    sweep_effects, LsmView,
};
use crate::storage::segment::{
    self, all_records, append_effects, highest_last, opened, reaching, SegmentView,
};
use crate::storage::wal::WalConfig;
use crate::types::Error;

verus! {

/// A call that may change the engine.
pub enum Call {
    /// A put or a delete.
    Write { op: Op },
    Batch { ops: Seq<Op> },
    Flush,
    Compact,
}

impl Call {
    /// What the call writes, in order.
    pub open spec fn ops(self) -> Seq<Op> {
        match self {
            Call::Write { op } => seq![op],
            Call::Batch { ops } => ops,
            Call::Flush => seq![],
            Call::Compact => seq![],
        }
    }
}

/// What a call on `a` comes to.
#[verifier::opaque]
pub open spec fn came_to(
    a: LsmView,
    call: Call,
    config: LsmConfig,
    wal_config: WalConfig,
    b: LsmView,
    told: Seq<EffectView>,
    r: Result<(), Error>,
) -> bool {
    match call {
        Call::Write { op } => write_outcome(a, op, config, wal_config, b, told, r),
        Call::Batch { ops } => batch_outcome(a, ops, config, wal_config, b, told, r),
        Call::Flush => flush_outcome(a, b, told, config.sst_compact_threshold as int, r),
        Call::Compact => compacted(a, b, told, r),
    }
}

/// What the calls write, one after another.
pub open spec fn all_ops(calls: Seq<Call>) -> Seq<Op>
    decreases calls.len(),
{
    if calls.len() == 0 {
        seq![]
    } else {
        all_ops(calls.drop_last()) + calls.last().ops()
    }
}

/// The calls lead from state to state, with these results and effects.
pub open spec fn is_history(
    states: Seq<LsmView>,
    calls: Seq<Call>,
    config: LsmConfig,
    wal_config: WalConfig,
    told: Seq<Seq<EffectView>>,
    results: Seq<Result<(), Error>>,
) -> bool {
    &&& states.len() == calls.len() + 1
    &&& told.len() == calls.len()
    &&& results.len() == calls.len()
    &&& forall|i: int|
        0 <= i < calls.len() ==> came_to(
            states[i],
            #[trigger] calls[i],
            config,
            wal_config,
            states[i + 1],
            told[i],
            results[i],
        )
}

// ---- one call --------------------------------------------------------------------------

/// From `a` to `b` nothing changed but what these writes change, and the host
/// was told as much.
#[verifier::opaque]
pub open spec fn leads(a: LsmView, ops: Seq<Op>, b: LsmView, told: Seq<EffectView>) -> bool {
    &&& b.wf()
    &&& b.intact()
    &&& b.contents() == written_all(a.contents(), ops)
    &&& b.dir == a.dir
    &&& b.log_dir == a.log_dir
    &&& a.apart() ==> b.apart() && performed_all(a.disk(), told) == b.disk()
    &&& a.durable() && (forall|i: int| 0 <= i < ops.len() ==> replay::loggable(#[trigger] ops[i]))
        ==> b.durable()
}

proof fn lemma_leads_on(
    a: LsmView,
    x: Seq<Op>,
    b: LsmView,
    s: Seq<EffectView>,
    y: Seq<Op>,
    c: LsmView,
    t: Seq<EffectView>,
)
    requires
        leads(a, x, b, s),
        leads(b, y, c, t),
    ensures
        leads(a, x + y, c, s + t),
{
    reveal(leads);
    engine::lemma_written_more(a.contents(), x, y);
    disk::lemma_performed_add(a.disk(), s, t);
    if forall|i: int| 0 <= i < (x + y).len() ==> replay::loggable(#[trigger] (x + y)[i]) {
        assert forall|i: int| 0 <= i < x.len() implies replay::loggable(#[trigger] x[i]) by {
            assert((x + y)[i] == x[i]);
        }
        assert forall|i: int| 0 <= i < y.len() implies replay::loggable(#[trigger] y[i]) by {
            assert((x + y)[x.len() + i] == y[i]);
        }
    }
}

proof fn lemma_leads_nowhere(a: LsmView)
    requires
        a.wf(),
        a.intact(),
    ensures
        leads(a, seq![], a, seq![]),
{
    reveal(leads);
}

pub proof fn lemma_flushed(a: LsmView, b: LsmView, told: Seq<EffectView>)
    requires
        a.wf(),
        a.intact(),
        flushed(a, b, told),
    ensures
        leads(a, seq![], b, told),
{
    reveal(leads);
    if a.mem != Stamped::empty() {
        let (es, newest) = choose|es: Seq<Slot>, newest: u64| #[trigger]
            is_flush(a, b, told, es, newest);
        state::lemma_after_flush(a, es, newest);
        if a.apart() {
            state::lemma_flush_mirrors(a, es, newest);
        }
    }
}

proof fn lemma_swept(a: LsmView, b: LsmView, told: Seq<EffectView>, used: Seq<bool>)
    requires
        a.wf(),
        a.intact(),
        is_sweep(a, b, told, used),
    ensures
        leads(a, seq![], b, told),
{
    reveal(leads);
    state::lemma_after_sweep(a, used);
    if a.apart() {
        state::lemma_sweep_mirrors(a, used);
    }
}

pub proof fn lemma_compacted(a: LsmView, b: LsmView, told: Seq<EffectView>, r: Result<(), Error>)
    requires
        a.wf(),
        a.intact(),
        compacted(a, b, told, r),
    ensures
        r is Ok,
        leads(a, seq![], b, told),
{
    reveal(leads);
    if a.tables.len() < 2 {
        let used = choose|used: Seq<bool>| #[trigger] is_sweep(a, b, told, used);
        lemma_swept(a, b, told, used);
    } else {
        layers::lemma_merged_sound(a.tables);
        let m = merged(a.tables)->Ok_0;
        let (es, used) = choose|es: Seq<Slot>, used: Seq<bool>| #[trigger]
            is_merge(a, b, told, es, used);
        let mid = after_merge(a, es);
        let w = merge_effects(merge_tables(a, es));
        let fx = sweep_effects(mid.pending, used);
        state::lemma_after_merge(a, m, es);
        if a.apart() {
            state::lemma_merge_mirrors(a, m, es);
        }
        assert(leads(a, seq![], mid, w));
        lemma_swept(mid, b, fx, used);
        lemma_leads_on(a, seq![], mid, w, seq![], b, fx);
        assert(Seq::<Op>::empty() + Seq::<Op>::empty() =~= Seq::<Op>::empty());
    }
}

proof fn lemma_flush_outcome(
    a: LsmView,
    b: LsmView,
    told: Seq<EffectView>,
    threshold: int,
    r: Result<(), Error>,
)
    requires
        a.wf(),
        a.intact(),
        flush_outcome(a, b, told, threshold, r),
    ensures
        r is Ok,
        leads(a, seq![], b, told),
{
    reveal(leads);
    let (mid, t1, t2) = choose|mid: LsmView, t1: Seq<EffectView>, t2: Seq<EffectView>|
        told == t1 + t2 && #[trigger] flush_by_way(a, mid, t1, b, t2, threshold, r);
    lemma_flushed(a, mid, t1);
    if mid.tables.len() >= threshold {
        lemma_compacted(mid, b, t2, r);
    } else {
        lemma_leads_nowhere(mid);
    }
    lemma_leads_on(a, seq![], mid, t1, seq![], b, t2);
    assert(Seq::<Op>::empty() + Seq::<Op>::empty() =~= Seq::<Op>::empty());
}

proof fn lemma_write_outcome(
    a: LsmView,
    op: Op,
    config: LsmConfig,
    wal_config: WalConfig,
    b: LsmView,
    told: Seq<EffectView>,
    r: Result<(), Error>,
)
    requires
        a.wf(),
        a.intact(),
        wal_config.dir@ == a.log_dir,
        write_outcome(a, op, config, wal_config, b, told, r),
    ensures
        r is Ok,
        leads(a, seq![op], b, told),
{
    reveal(leads);
    let w = after_write(a, op, wal_config.max_segment_bytes);
    let logged = append_effects(wal_config, a.segs, record_of(a.next_seq, op));
    state::lemma_after_write(a, op, wal_config.max_segment_bytes);
    state::lemma_write_mirrors(a, op, wal_config);
    engine::lemma_written_one(a.contents(), op);
    assert(leads(a, seq![op], w, logged)) by {
        let ops = seq![op];
        if forall|i: int| 0 <= i < ops.len() ==> replay::loggable(#[trigger] ops[i]) {
            assert(replay::loggable(ops[0]));
            replay::lemma_loggable(a.next_seq, op);
        }
    }
    if weight(w.mem) >= config.memtable_max_bytes {
        let threshold = config.sst_compact_threshold as int;
        let t = choose|t: Seq<EffectView>|
            told == logged + t && #[trigger] flush_outcome(w, b, t, threshold, r);
        lemma_flush_outcome(w, b, t, threshold, r);
        lemma_leads_on(a, seq![op], w, logged, seq![], b, t);
        assert(seq![op] + Seq::<Op>::empty() =~= seq![op]);
    }
}

proof fn lemma_one_more(
    a: LsmView,
    ops: Seq<Op>,
    mid: LsmView,
    s: Seq<EffectView>,
    op: Op,
    config: LsmConfig,
    wal_config: WalConfig,
    b: LsmView,
    t: Seq<EffectView>,
    r: Result<(), Error>,
)
    requires
        leads(a, ops, mid, s),
        wal_config.dir@ == a.log_dir,
        wrote(mid, op, config, wal_config, b, t, r),
    ensures
        r is Ok,
        leads(a, ops + seq![op], b, s + t),
{
    reveal(leads);
    reveal(wrote);
    lemma_write_outcome(mid, op, config, wal_config, b, t, r);
    lemma_leads_on(a, ops, mid, s, seq![op], b, t);
}

/// One write of a batch.
#[verifier::opaque]
spec fn wrote(
    a: LsmView,
    op: Op,
    config: LsmConfig,
    wal_config: WalConfig,
    b: LsmView,
    told: Seq<EffectView>,
    r: Result<(), Error>,
) -> bool {
    write_outcome(a, op, config, wal_config, b, told, r)
}

/// The result of a write of a batch: the last has that of the batch.
spec fn result_at(i: int, n: nat, r: Result<(), Error>) -> Result<(), Error> {
    if i == n - 1 {
        r
    } else {
        Ok(())
    }
}

/// The first `n` writes of a batch.
proof fn lemma_batch_part(
    a: LsmView,
    ops: Seq<Op>,
    config: LsmConfig,
    wal_config: WalConfig,
    after: Seq<LsmView>,
    parts: Seq<Seq<EffectView>>,
    r: Result<(), Error>,
    n: int,
)
    requires
        a.wf(),
        a.intact(),
        wal_config.dir@ == a.log_dir,
        after.len() == parts.len(),
        after.len() <= ops.len(),
        after.len() == 0 ==> r is Ok,
        forall|i: int|
            0 <= i < after.len() ==> wrote(
                latest(a, after.take(i)),
                ops[i],
                config,
                wal_config,
                #[trigger] after[i],
                parts[i],
                result_at(i, after.len(), r),
            ),
        0 <= n <= after.len(),
    ensures
        leads(a, ops.take(n), latest(a, after.take(n)), parts.take(n).flatten()),
        n == after.len() ==> r is Ok,
    decreases n,
{
    if n == 0 {
        assert(parts.take(0) =~= Seq::<Seq<EffectView>>::empty());
        assert(parts.take(0).flatten() =~= seq![]);
        assert(ops.take(0) =~= seq![]);
        lemma_leads_nowhere(a);
    } else {
        let i = n - 1;
        let mid = latest(a, after.take(i));
        lemma_batch_part(a, ops, config, wal_config, after, parts, r, i);
        lemma_one_more(
            a,
            ops.take(i),
            mid,
            parts.take(i).flatten(),
            ops[i],
            config,
            wal_config,
            after[i],
            parts[i],
            result_at(i, after.len(), r),
        );
        assert(ops.take(n) =~= ops.take(i) + seq![ops[i]]);
        assert(parts.take(n) =~= parts.take(i).push(parts[i]));
        parts.take(i).lemma_flatten_push(parts[i]);
        assert(after.take(n).last() == after[i]);
    }
}

proof fn lemma_batch_outcome(
    a: LsmView,
    ops: Seq<Op>,
    config: LsmConfig,
    wal_config: WalConfig,
    b: LsmView,
    told: Seq<EffectView>,
    r: Result<(), Error>,
)
    requires
        a.wf(),
        a.intact(),
        wal_config.dir@ == a.log_dir,
        batch_outcome(a, ops, config, wal_config, b, told, r),
    ensures
        r is Ok,
        leads(a, ops, b, told),
{
    let (after, parts) = choose|after: Seq<LsmView>, parts: Seq<Seq<EffectView>>| #[trigger]
        batch_steps(a, ops, config, wal_config, after, parts, r) && (r is Ok ==> after.len()
            == ops.len()) && b == latest(a, after) && told == parts.flatten();
    let n = after.len() as int;
    assert forall|i: int| 0 <= i < after.len() implies wrote(
        latest(a, after.take(i)),
        ops[i],
        config,
        wal_config,
        #[trigger] after[i],
        parts[i],
        result_at(i, after.len(), r),
    ) by {
        reveal(wrote);
    }
    lemma_batch_part(a, ops, config, wal_config, after, parts, r, n);
    assert(after.take(n) =~= after);
    assert(parts.take(n) =~= parts);
    assert(ops.take(n) =~= ops);
}

/// A call on an engine whose tables can be read succeeds, and changes nothing
/// but what it writes.
pub proof fn lemma_call(
    a: LsmView,
    call: Call,
    config: LsmConfig,
    wal_config: WalConfig,
    b: LsmView,
    told: Seq<EffectView>,
    r: Result<(), Error>,
)
    requires
        a.wf(),
        a.intact(),
        wal_config.dir@ == a.log_dir,
        came_to(a, call, config, wal_config, b, told, r),
    ensures
        r is Ok,
        leads(a, call.ops(), b, told),
{
    reveal(came_to);
    match call {
        Call::Write { op } => {
            lemma_write_outcome(a, op, config, wal_config, b, told, r);
        },
        Call::Batch { ops } => {
            lemma_batch_outcome(a, ops, config, wal_config, b, told, r);
        },
        Call::Flush => {
            lemma_flush_outcome(a, b, told, config.sst_compact_threshold as int, r);
        },
        Call::Compact => {
            lemma_compacted(a, b, told, r);
        },
    }
}

// ---- any sequence of calls ---------------------------------------------------------------

/// After any sequence of calls the engine holds what the writes make of what it
/// held, every call has succeeded, the effects of all calls make the files what
/// the engine takes them to be, and an engine that survived being closed still
/// does, if the log could hold the writes.
pub proof fn lemma_history(
    states: Seq<LsmView>,
    calls: Seq<Call>,
    config: LsmConfig,
    wal_config: WalConfig,
    told: Seq<Seq<EffectView>>,
    results: Seq<Result<(), Error>>,
)
    requires
        is_history(states, calls, config, wal_config, told, results),
        states[0].wf(),
        states[0].intact(),
        wal_config.dir@ == states[0].log_dir,
    ensures
        leads(states[0], all_ops(calls), states.last(), told.flatten()),
        forall|i: int| 0 <= i < results.len() ==> (#[trigger] results[i]) is Ok,
    decreases calls.len(),
{
    reveal(leads);
    let a = states[0];
    if calls.len() == 0 {
        lemma_leads_nowhere(a);
        assert(told.flatten() =~= seq![]);
    } else {
        let n = calls.len() - 1;
        let (s, c, t, x) = (
            states.drop_last(),
            calls.drop_last(),
            told.drop_last(),
            results.drop_last(),
        );
        assert forall|i: int| 0 <= i < c.len() implies came_to(
            s[i],
            #[trigger] c[i],
            config,
            wal_config,
            s[i + 1],
            t[i],
            x[i],
        ) by {
            assert(c[i] == calls[i]);
        }
        lemma_history(s, c, config, wal_config, t, x);
        assert(came_to(states[n], calls[n], config, wal_config, states[n + 1], told[n], results[n]));
        lemma_call(states[n], calls[n], config, wal_config, states[n + 1], told[n], results[n]);
        lemma_leads_on(a, all_ops(c), states[n], t.flatten(), calls[n].ops(), states[n + 1], told[n]);
        t.lemma_flatten_push(told[n]);
        assert(t.push(told[n]) =~= told);
        assert forall|i: int| 0 <= i < results.len() implies (#[trigger] results[i]) is Ok by {
            if i < n {
                assert(x[i] is Ok);
            }
        }
    }
}

/// After any sequence of calls a key has what the last write to it left; flushes
/// and merges in between make no difference.
pub proof fn lemma_last_write_wins(
    states: Seq<LsmView>,
    calls: Seq<Call>,
    config: LsmConfig,
    wal_config: WalConfig,
    told: Seq<Seq<EffectView>>,
    results: Seq<Result<(), Error>>,
    i: int,
)
    requires
        is_history(states, calls, config, wal_config, told, results),
        states[0].wf(),
        states[0].intact(),
        wal_config.dir@ == states[0].log_dir,
        0 <= i < all_ops(calls).len(),
        forall|j: int|
            i < j < all_ops(calls).len() ==> (#[trigger] all_ops(calls)[j]).key() != all_ops(
                calls,
            )[i].key(),
    ensures
        held(states.last().contents(), all_ops(calls)[i].key()) == all_ops(calls)[i].slot(),
{
    reveal(leads);
    lemma_history(states, calls, config, wal_config, told, results);
    engine::lemma_last_write_wins(states[0].contents(), all_ops(calls), i);
}

/// After any sequence of calls a key that none of them wrote has what it had.
pub proof fn lemma_never_written(
    states: Seq<LsmView>,
    calls: Seq<Call>,
    config: LsmConfig,
    wal_config: WalConfig,
    told: Seq<Seq<EffectView>>,
    results: Seq<Result<(), Error>>,
    key: Seq<u8>,
)
    requires
        is_history(states, calls, config, wal_config, told, results),
        states[0].wf(),
        states[0].intact(),
        wal_config.dir@ == states[0].log_dir,
        forall|j: int|
            0 <= j < all_ops(calls).len() ==> (#[trigger] all_ops(calls)[j]).key() != key,
    ensures
        held(states.last().contents(), key) == held(states[0].contents(), key),
{
    reveal(leads);
    lemma_history(states, calls, config, wal_config, told, results);
    lemma_untouched(states[0].contents(), all_ops(calls), key);
}

proof fn lemma_untouched(m: Contents, ops: Seq<Op>, key: Seq<u8>)
    requires
        forall|j: int| 0 <= j < ops.len() ==> (#[trigger] ops[j]).key() != key,
    ensures
        held(written_all(m, ops), key) == held(m, key),
    decreases ops.len(),
{
    if ops.len() > 0 {
        let d = ops.drop_last();
        assert forall|j: int| 0 <= j < d.len() implies (#[trigger] d[j]).key() != key by {
            assert(ops[j].key() != key);
        }
        lemma_untouched(m, d, key);
        assert(ops[ops.len() - 1].key() != key);
        engine::lemma_written_elsewhere(written_all(m, d), ops.last(), key);
    }
}

/// After any sequence of calls the engine may be dropped, without a flush: once
/// the host has carried out what it was told, an engine that is opened on the
/// files holds what the writes made of what was held at first. If files are left
/// of tables that were merged away, for a snapshot keeps them, they must hide
/// nothing of what the engine holds.
pub proof fn lemma_history_survives(
    states: Seq<LsmView>,
    calls: Seq<Call>,
    config: LsmConfig,
    wal_config: WalConfig,
    told: Seq<Seq<EffectView>>,
    results: Seq<Result<(), Error>>,
    log_listing: Seq<(Seq<char>, Seq<u8>)>,
    listing: Seq<(Seq<char>, Seq<u8>)>,
)
    requires
        is_history(states, calls, config, wal_config, told, results),
        states[0].wf(),
        states[0].durable(),
        states[0].apart(),
        wal_config.dir@ == states[0].log_dir,
        forall|i: int|
            0 <= i < all_ops(calls).len() ==> replay::loggable(#[trigger] all_ops(calls)[i]),
        hides_nothing(states.last()),
        lists_segment_files(
            performed_all(states[0].disk(), told.flatten()),
            states[0].log_dir,
            log_listing,
        ),
        lists_table_files(
            performed_all(states[0].disk(), told.flatten()),
            states[0].dir,
            listing,
        ),
        found_tables(states[0].dir, listing) matches Ok(ts) ==> can_go_on(opened(log_listing), ts),
    ensures
        found_tables(states[0].dir, listing) matches Ok(ts) && (replayed(
            Stamped::empty(),
            to_replay(opened(log_listing), ts),
        ) matches Ok(mem) && {
            let n = opened_view(
                states[0].dir,
                states[0].log_dir,
                opened(log_listing),
                ts,
                mem,
            );
            n.wf() && n.durable() && n.apart() && n.contents() == written_all(
                states[0].contents(),
                all_ops(calls),
            ) && n.disk() == performed_all(states[0].disk(), told.flatten())
        }),
{
    reveal(leads);
    lemma_history(states, calls, config, wal_config, told, results);
    crash::lemma_nothing_hidden(states.last(), log_listing, listing);
}

/// If nothing holds a merged table, none is left once a merge is done.
pub proof fn lemma_all_let_go(a: LsmView, used: Seq<bool>)
    requires
        forall|i: int| 0 <= i < a.pending.len() ==> !#[trigger] used[i],
    ensures
        after_sweep(a, used).pending.len() == 0,
{
    lemma_none_in_use(a.pending, used);
}

proof fn lemma_none_in_use(ts: Seq<TableView>, used: Seq<bool>)
    requires
        forall|i: int| 0 <= i < ts.len() ==> !#[trigger] used[i],
    ensures
        in_use(ts, used).len() == 0,
    decreases ts.len(),
{
    if ts.len() > 0 {
        lemma_none_in_use(ts.drop_last(), used);
        assert(!used[ts.len() - 1]);
    }
}

/// An engine that is opened on empty directories is sound, holds nothing, and
/// survives being closed.
pub proof fn lemma_fresh_engine(dir: Seq<char>, log_dir: Seq<char>)
    ensures
        ({
            let s = opened_view(dir, log_dir, opened(seq![]), seq![], Stamped::empty());
            s.wf() && s.durable() && s.apart() && s.contents() == Contents::empty()
                && s.pending.len() == 0
        }),
        found_tables(dir, seq![]) == Ok::<Seq<TableView>, BadTable>(seq![]),
        replayed(Stamped::empty(), to_replay(opened(seq![]), seq![])) == Ok::<Stamped, PayloadFault>(
            Stamped::empty(),
        ),
{
    let segs = opened(seq![]);
    let s = opened_view(dir, log_dir, segs, seq![], Stamped::empty());
    let one = SegmentView::fresh(0);
    segment::lemma_fresh(0);
    assert(segs =~= seq![one]);
    assert(segs.drop_last() =~= seq![]);
    assert(all_records(segs.drop_last()) =~= seq![]);
    assert(s.log() =~= seq![]);
    assert(s.contents() =~= Contents::empty());
    assert(s.segs.last() == one);
    assert(highest_last(segs.drop_last()) is None);
    assert(s.wf());
    assert(s.durable());
    let from: u64 = 1;
    let found = reaching(segs, from);
    assert(reaching(segs.drop_last(), from) =~= seq![]);
    assert(all_records(reaching(segs.drop_last(), from)) =~= seq![]);
    assert(all_records(found) =~= seq![]) by {
        if found.len() > 0 {
            assert(found =~= seq![one]);
            assert(found.drop_last() =~= seq![]);
        }
    }
}

// ---- flushes ---------------------------------------------------------------------------

/// A flush leaves fewer tables than the threshold, if that is two or more, and
/// an empty buffer.
pub proof fn lemma_flush_settles(
    a: LsmView,
    b: LsmView,
    told: Seq<EffectView>,
    threshold: int,
    r: Result<(), Error>,
)
    requires
        flush_outcome(a, b, told, threshold, r),
        r is Ok,
        threshold >= 2,
    ensures
        b.mem == Stamped::empty(),
        b.tables.len() < threshold,
{
    let (mid, t1, t2) = choose|mid: LsmView, t1: Seq<EffectView>, t2: Seq<EffectView>|
        told == t1 + t2 && #[trigger] flush_by_way(a, mid, t1, b, t2, threshold, r);
    assert(mid.mem == Stamped::empty());
}

/// A second flush does nothing: no table, no effect.
pub proof fn lemma_flush_again(
    a: LsmView,
    b: LsmView,
    told: Seq<EffectView>,
    threshold: int,
    r: Result<(), Error>,
)
    requires
        a.mem == Stamped::empty(),
        a.tables.len() < threshold,
        flush_outcome(a, b, told, threshold, r),
    ensures
        r is Ok,
        b == a,
        told == Seq::<EffectView>::empty(),
{
    let (mid, t1, t2) = choose|mid: LsmView, t1: Seq<EffectView>, t2: Seq<EffectView>|
        told == t1 + t2 && #[trigger] flush_by_way(a, mid, t1, b, t2, threshold, r);
    assert(t1 + t2 =~= Seq::<EffectView>::empty());
}

/// Moving the buffer to a table changes no answer, whatever the other tables
/// are like: also an error stays the error that it was.
pub proof fn lemma_flush_answers(a: LsmView, b: LsmView, told: Seq<EffectView>, key: Seq<u8>)
    requires
        a.wf(),
        flushed(a, b, told),
    ensures
        answer(unstamped(b.mem), b.tables, key) == answer(unstamped(a.mem), a.tables, key),
{
    if a.mem != Stamped::empty() {
        let (es, newest) = choose|es: Seq<Slot>, newest: u64| #[trigger]
            is_flush(a, b, told, es, newest);
        let t = flush_table(a, es, newest);
        state::lemma_after_flush(a, es, newest);
        assert(b.tables.drop_first() =~= a.tables);
        let alone = seq![t];
        layers::lemma_stacked_one(t);
        layers::lemma_sound_looked_up(alone, key);
        assert(alone.drop_first() =~= seq![]);
        assert(looked_up(alone.drop_first(), key) == Ok::<Option<Option<Seq<u8>>>, ReadFault>(None));
        state::lemma_flush_table(a, es, newest);
    }
}

/// Moving the buffer to a table changes no scan, whatever the other tables are
/// like: one that cannot be read is passed over as before.
pub proof fn lemma_flush_scans(
    a: LsmView,
    b: LsmView,
    told: Seq<EffectView>,
    start: Seq<u8>,
    end: Seq<u8>,
)
    requires
        a.wf(),
        flushed(a, b, told),
    ensures
        scanned(restricted(unstamped(b.mem), start, end), b.tables, start, end) == scanned(
            restricted(unstamped(a.mem), start, end),
            a.tables,
            start,
            end,
        ),
{
    if a.mem != Stamped::empty() {
        let (es, newest) = choose|es: Seq<Slot>, newest: u64| #[trigger]
            is_flush(a, b, told, es, newest);
        let t = flush_table(a, es, newest);
        let none = restricted(unstamped(b.mem), start, end);
        state::lemma_after_flush(a, es, newest);
        state::lemma_flush_table(a, es, newest);
        sstable::lemma_sound_scanned(t, start, end);
        let run = t.scanned(start, end)->Ok_0;
        layers::lemma_scanned_front(none, t, a.tables, start, end);
        layers::lemma_gathered_listing(none, run, restricted(t.slots(), start, end));
        assert(none =~= Slots::empty());
        assert(gathered(none, run) =~= restricted(unstamped(a.mem), start, end));
    }
}

/// Merging changes no answer: a tombstone that it drops showed nothing either.
/// Where a table cannot be read, nothing is merged. A table must say the same
/// from its beginning as key by key, as every table does that the engine wrote;
/// with fewer than two tables nothing is asked of it.
pub proof fn lemma_compact_answers(
    a: LsmView,
    b: LsmView,
    told: Seq<EffectView>,
    r: Result<(), Error>,
    key: Seq<u8>,
)
    requires
        a.wf(),
        compacted(a, b, told, r),
        r is Ok && a.tables.len() >= 2 ==> forall|i: int|
            0 <= i < a.tables.len() ==> coherent(#[trigger] a.tables[i]),
    ensures
        shown(answer(unstamped(b.mem), b.tables, key)) == shown(
            answer(unstamped(a.mem), a.tables, key),
        ),
{
    if a.tables.len() >= 2 && r is Ok {
        let m = merged(a.tables)->Ok_0;
        let (es, used) = choose|es: Seq<Slot>, used: Seq<bool>| #[trigger]
            is_merge(a, b, told, es, used);
        layers::lemma_coherent_looked_up(a.tables, key);
        state::lemma_merge_tables(a, m, es);
        layers::lemma_sound_looked_up(merge_tables(a, es), key);
        assert(b.tables == merge_tables(a, es));
        assert(stacked(b.tables) == live(m));
    }
}

/// A table that can be read is coherent.
pub proof fn lemma_sound_coherent(t: TableView)
    requires
        t.sound(),
    ensures
        coherent(t),
{
    let one = seq![t];
    let none = Seq::<TableView>::empty();
    assert(one.drop_last() =~= none);
    assert(merged(one.drop_last()) == Ok::<Slots, ReadFault>(Map::empty()));
    layers::lemma_merged_sound(one);
    layers::lemma_stacked_one(t);
    let run = run_of(t.image, 0, t.index.len())->Ok_0;
    assert forall|key: Seq<u8>| #[trigger] t.lookup(key) == Ok::<
        Option<Option<Seq<u8>>>,
        ReadFault,
    >(slot_in(gathered(Map::empty(), run), key)) by {
        layers::lemma_sound_looked_up(one, key);
        assert(one.drop_first() =~= none);
        assert(looked_up(one.drop_first(), key) == Ok::<Option<Option<Seq<u8>>>, ReadFault>(None));
    }
}

/// A flush, with the merge that may come after it, changes no answer, whatever
/// the tables are like that are not merged.
pub proof fn lemma_flush_call_answers(
    a: LsmView,
    b: LsmView,
    told: Seq<EffectView>,
    threshold: int,
    r: Result<(), Error>,
    key: Seq<u8>,
)
    requires
        a.wf(),
        flush_outcome(a, b, told, threshold, r),
        r is Ok && a.tables.len() + 1 >= threshold ==> forall|i: int|
            0 <= i < a.tables.len() ==> coherent(#[trigger] a.tables[i]),
    ensures
        shown(answer(unstamped(b.mem), b.tables, key)) == shown(
            answer(unstamped(a.mem), a.tables, key),
        ),
{
    let (mid, t1, t2) = choose|mid: LsmView, t1: Seq<EffectView>, t2: Seq<EffectView>|
        told == t1 + t2 && #[trigger] flush_by_way(a, mid, t1, b, t2, threshold, r);
    lemma_flush_answers(a, mid, t1, key);
    if a.mem != Stamped::empty() {
        let (es, newest) = choose|es: Seq<Slot>, newest: u64| #[trigger]
            is_flush(a, mid, t1, es, newest);
        state::lemma_after_flush(a, es, newest);
        lemma_sound_coherent(flush_table(a, es, newest));
    }
    if mid.tables.len() >= threshold {
        if r is Ok {
            assert forall|i: int| 0 <= i < mid.tables.len() implies coherent(
                #[trigger] mid.tables[i],
            ) by {
                if a.mem == Stamped::empty() {
                    assert(mid.tables[i] == a.tables[i]);
                } else if i > 0 {
                    assert(mid.tables[i] == a.tables[i - 1]);
                }
            }
        }
        lemma_compact_answers(mid, b, t2, r, key);
    }
}

} // verus!
