//! What each call of the engine comes to.

use vstd::prelude::*;

use crate::ordered::lists_in_order;
use crate::storage::disk::EffectView;
use crate::storage::engine::{written, written_all, Op};
use crate::storage::lsm::engine::LsmConfig;
use crate::storage::lsm::holding::counted;
use crate::storage::lsm::layers::{live, merged};
use crate::storage::lsm::memtable::{charge, unstamped, weight, Stamped};
use crate::storage::lsm::replay::{self, record_of};
use crate::storage::lsm::sstable::{fits, is_read_error, table_bytes, Slot};
use crate::storage::lsm::state::{
    self, after_flush, after_merge, after_sweep, after_write, flush_effects, is_newest,
    log_has_room, merge_effects, merge_tables, mirrored, sweep_effects, top_seq, LsmView,
};
use crate::storage::segment::append_effects;
use crate::storage::wal::WalConfig;
use crate::types::Error;

verus! {

/// What writes are charged in a buffer.
pub open spec fn charges(ops: Seq<Op>) -> int
    decreases ops.len(),
{
    if ops.len() == 0 {
        0
    } else {
        charge(ops[0].key(), ops[0].slot()) + charges(ops.drop_first())
    }
}

/// `b` is `a` after a flush, and `told` is what the host was told. There is a
/// generation for the table, and its file has a length.
pub open spec fn is_flush(
    a: LsmView,
    b: LsmView,
    told: Seq<EffectView>,
    es: Seq<Slot>,
    newest: u64,
) -> bool {
    &&& lists_in_order(es, unstamped(a.mem))
    &&& is_newest(a.mem, newest)
    &&& a.next_gen < u64::MAX
    &&& table_bytes(es, newest).len() <= u64::MAX
    &&& b == after_flush(a, es, newest)
    &&& told == flush_effects(a, es, newest)
}

/// `b` is `a` after a flush, which does nothing if the buffer is empty.
pub open spec fn flushed(a: LsmView, b: LsmView, told: Seq<EffectView>) -> bool {
    if a.mem == Stamped::empty() {
        b == a && told == Seq::<EffectView>::empty()
    } else {
        exists|es: Seq<Slot>, newest: u64| #[trigger] is_flush(a, b, told, es, newest)
    }
}

/// `b` is `a` after a merge of its tables and after removing the files of the
/// tables that are not in use. There is a generation for the table, and its file
/// has a length.
pub open spec fn is_merge(
    a: LsmView,
    b: LsmView,
    told: Seq<EffectView>,
    es: Seq<Slot>,
    used: Seq<bool>,
) -> bool {
    &&& merged(a.tables) matches Ok(m) && lists_in_order(es, live(m))
    &&& a.next_gen < u64::MAX
    &&& table_bytes(es, top_seq(a.tables)).len() <= u64::MAX
    &&& used.len() == a.pending.len() + a.tables.len()
    &&& counted(a.pending + a.tables, used)
    &&& b == after_sweep(after_merge(a, es), used)
    &&& told == merge_effects(merge_tables(a, es)) + sweep_effects(
        after_merge(a, es).pending,
        used,
    )
}

/// `b` is `a` after counting who holds the merged tables, and removing the files of
/// those that are not in use.
pub open spec fn is_sweep(a: LsmView, b: LsmView, told: Seq<EffectView>, used: Seq<bool>) -> bool {
    &&& used.len() == a.pending.len()
    &&& counted(a.pending, used)
    &&& b == after_sweep(a, used)
    &&& told == sweep_effects(a.pending, used)
}

/// What asking for a merge comes to. With fewer than two tables only files are
/// removed; a table that cannot be read stops it before anything changes.
/// Which merged tables are still in use depends on the snapshots around.
pub open spec fn compacted(
    a: LsmView,
    b: LsmView,
    told: Seq<EffectView>,
    r: Result<(), Error>,
) -> bool {
    if a.tables.len() < 2 {
        r is Ok && exists|used: Seq<bool>| #[trigger] is_sweep(a, b, told, used)
    } else {
        match merged(a.tables) {
            Ok(_) => r is Ok && exists|es: Seq<Slot>, used: Seq<bool>| #[trigger]
                is_merge(a, b, told, es, used),
            Err(f) => (r matches Err(e) && is_read_error(e, f)) && b == a && told == Seq::<
                EffectView,
            >::empty(),
        }
    }
}

/// What comes after a flush: a merge, if there are enough tables.
pub open spec fn settled_down(
    a: LsmView,
    b: LsmView,
    told: Seq<EffectView>,
    threshold: int,
    r: Result<(), Error>,
) -> bool {
    if a.tables.len() >= threshold {
        compacted(a, b, told, r)
    } else {
        r is Ok && b == a && told == Seq::<EffectView>::empty()
    }
}

/// A flush and what comes after it, by way of `mid`.
pub open spec fn flush_by_way(
    a: LsmView,
    mid: LsmView,
    t1: Seq<EffectView>,
    b: LsmView,
    t2: Seq<EffectView>,
    threshold: int,
    r: Result<(), Error>,
) -> bool {
    flushed(a, mid, t1) && settled_down(mid, b, t2, threshold, r)
}

/// What flushing comes to.
pub open spec fn flush_outcome(
    a: LsmView,
    b: LsmView,
    told: Seq<EffectView>,
    threshold: int,
    r: Result<(), Error>,
) -> bool {
    exists|mid: LsmView, t1: Seq<EffectView>, t2: Seq<EffectView>|
        told == t1 + t2 && #[trigger] flush_by_way(a, mid, t1, b, t2, threshold, r)
}

/// What `b` and its queue keep of `a` and its queue whatever step lies between.
pub open spec fn kept(a: LsmView, qa: Seq<EffectView>, b: LsmView, qb: Seq<EffectView>) -> bool {
    &&& b.wf()
    &&& a.intact() ==> b.intact() && b.contents() == a.contents()
    &&& a.apart() ==> b.apart() && mirrored(a, qa, b, qb)
    &&& a.durable() ==> b.durable()
    &&& a.next_gen <= b.next_gen <= a.next_gen + 2
    &&& b.next_seq == a.next_seq
    &&& b.dir == a.dir
    &&& b.log_dir == a.log_dir
    &&& b.segs.last().start == a.segs.last().start
}

/// The write of a value, or of a tombstone.
pub open spec fn op_of(key: Seq<u8>, value: Option<Seq<u8>>) -> Op {
    match value {
        Some(v) => Op::Put { key, value: v },
        None => Op::Delete { key },
    }
}

/// What a write comes to: it goes to the log and to the buffer, and a buffer
/// that is then full is flushed. The write fits the formats, there is a number
/// for it, and one for the next segment of the log.
pub open spec fn write_outcome(
    a: LsmView,
    op: Op,
    config: LsmConfig,
    wal_config: WalConfig,
    b: LsmView,
    told: Seq<EffectView>,
    r: Result<(), Error>,
) -> bool {
    let w = after_write(a, op, wal_config.max_segment_bytes);
    let logged = append_effects(wal_config, a.segs, record_of(a.next_seq, op));
    &&& a.next_seq < u64::MAX
    &&& log_has_room(a, op, wal_config.max_segment_bytes)
    &&& fits((op.key(), op.slot()))
    &&& if weight(w.mem) < config.memtable_max_bytes {
        r is Ok && b == w && told == logged
    } else {
        exists|t: Seq<EffectView>|
            told == logged + t && #[trigger] flush_outcome(
                w,
                b,
                t,
                config.sst_compact_threshold as int,
                r,
            )
    }
}

/// What the engine is after some writes of a list.
pub open spec fn latest(a: LsmView, after: Seq<LsmView>) -> LsmView {
    if after.len() == 0 {
        a
    } else {
        after.last()
    }
}

/// The first writes of a list, one by one: what the engine is after each, what
/// the host is told by each, and the result of the last. Those before it
/// succeed.
pub open spec fn batch_steps(
    a: LsmView,
    ops: Seq<Op>,
    config: LsmConfig,
    wal_config: WalConfig,
    after: Seq<LsmView>,
    told: Seq<Seq<EffectView>>,
    r: Result<(), Error>,
) -> bool {
    &&& after.len() == told.len()
    &&& after.len() <= ops.len()
    &&& after.len() == 0 ==> r is Ok
    &&& forall|i: int|
        0 <= i < after.len() ==> write_outcome(
            latest(a, after.take(i)),
            ops[i],
            config,
            wal_config,
            #[trigger] after[i],
            told[i],
            if i == after.len() - 1 {
                r
            } else {
                Ok(())
            },
        )
}

/// What writing a list comes to: its writes in order, up to the first that
/// fails.
pub open spec fn batch_outcome(
    a: LsmView,
    ops: Seq<Op>,
    config: LsmConfig,
    wal_config: WalConfig,
    b: LsmView,
    told: Seq<EffectView>,
    r: Result<(), Error>,
) -> bool {
    exists|after: Seq<LsmView>, parts: Seq<Seq<EffectView>>| #[trigger]
        batch_steps(a, ops, config, wal_config, after, parts, r) && (r is Ok ==> after.len()
            == ops.len()) && b == latest(a, after) && told == parts.flatten()
}

/// One more write of a list.
proof fn lemma_batch_step(
    a: LsmView,
    ops: Seq<Op>,
    config: LsmConfig,
    wal_config: WalConfig,
    after: Seq<LsmView>,
    told: Seq<Seq<EffectView>>,
    b: LsmView,
    t: Seq<EffectView>,
    r: Result<(), Error>,
)
    requires
        batch_steps(a, ops, config, wal_config, after, told, Ok(())),
        after.len() < ops.len(),
        write_outcome(
            latest(a, after),
            ops[after.len() as int],
            config,
            wal_config,
            b,
            t,
            r,
        ),
    ensures
        batch_steps(a, ops, config, wal_config, after.push(b), told.push(t), r),
        latest(a, after.push(b)) == b,
        told.push(t).flatten() == told.flatten() + t,
{
    told.lemma_flatten_push(t);
    let more = after.push(b);
    assert(more.take(after.len() as int) =~= after);
    assert forall|i: int| 0 <= i < after.len() implies more.take(i) == #[trigger] after.take(
        i,
    ) by {
        assert(more.take(i) =~= after.take(i));
    }
    assert forall|i: int| 0 <= i < more.len() implies write_outcome(
        latest(a, more.take(i)),
        ops[i],
        config,
        wal_config,
        #[trigger] more[i],
        told.push(t)[i],
        if i == more.len() - 1 {
            r
        } else {
            Ok(())
        },
    ) by {
        if i < after.len() {
            assert(more.take(i) == after.take(i));
            assert(more[i] == after[i]);
        }
    }
}

/// The first `k` writes of a list, the last of which ended with `r`, lead from
/// `a` to `b`.
#[verifier::opaque]
pub open spec fn batch_leads(
    a: LsmView,
    qa: Seq<EffectView>,
    ops: Seq<Op>,
    config: LsmConfig,
    wal_config: WalConfig,
    k: int,
    b: LsmView,
    qb: Seq<EffectView>,
    r: Result<(), Error>,
) -> bool {
    exists|after: Seq<LsmView>, told: Seq<Seq<EffectView>>| #[trigger]
        batch_steps(a, ops, config, wal_config, after, told, r) && after.len() == k && b == latest(
            a,
            after,
        ) && qb == qa + told.flatten()
}

/// What holds after the first `k` writes of a list, if the last of them ended
/// with `r`.
#[verifier::opaque]
pub open spec fn batch_so_far(
    a: LsmView,
    qa: Seq<EffectView>,
    ops: Seq<Op>,
    config: LsmConfig,
    wal_config: WalConfig,
    k: int,
    b: LsmView,
    qb: Seq<EffectView>,
    r: Result<(), Error>,
) -> bool {
    &&& batch_leads(a, qa, ops, config, wal_config, k, b, qb, r)
    &&& a.intact() ==> r is Ok && b.intact() && b.contents() == written_all(
        a.contents(),
        ops.take(k),
    )
    &&& a.apart() ==> b.apart() && mirrored(a, qa, b, qb)
    &&& a.durable() && (forall|i: int| 0 <= i < ops.len() ==> replay::loggable(#[trigger] ops[i]))
        ==> b.durable()
}

pub proof fn lemma_batch_begun(
    a: LsmView,
    qa: Seq<EffectView>,
    ops: Seq<Op>,
    config: LsmConfig,
    wal_config: WalConfig,
)
    ensures
        batch_so_far(a, qa, ops, config, wal_config, 0, a, qa, Ok(())),
{
    reveal(batch_so_far);
    reveal(batch_leads);
    let after = Seq::<LsmView>::empty();
    let told = Seq::<Seq<EffectView>>::empty();
    assert(batch_steps(a, ops, config, wal_config, after, told, Ok::<(), Error>(())));
    assert(told.flatten() =~= Seq::<EffectView>::empty());
    assert(qa + Seq::<EffectView>::empty() =~= qa);
    assert(ops.take(0) =~= Seq::<Op>::empty());
    state::lemma_mirrored_by(a, qa, a, Seq::<EffectView>::empty());
}

pub proof fn lemma_batch_goes_on(
    a: LsmView,
    qa: Seq<EffectView>,
    ops: Seq<Op>,
    config: LsmConfig,
    wal_config: WalConfig,
    k: int,
    mid: LsmView,
    qm: Seq<EffectView>,
    b: LsmView,
    qb: Seq<EffectView>,
    r: Result<(), Error>,
)
    requires
        0 <= k < ops.len(),
        batch_so_far(a, qa, ops, config, wal_config, k, mid, qm, Ok(())),
        mid.intact() ==> r is Ok && b.intact() && b.contents() == written(mid.contents(), ops[k]),
        mid.apart() ==> b.apart() && mirrored(mid, qm, b, qb),
        mid.durable() && replay::loggable(ops[k]) ==> b.durable(),
        exists|t: Seq<EffectView>|
            qb == qm + t && #[trigger] write_outcome(mid, ops[k], config, wal_config, b, t, r),
    ensures
        batch_so_far(a, qa, ops, config, wal_config, k + 1, b, qb, r),
{
    assert(batch_leads(a, qa, ops, config, wal_config, k, mid, qm, Ok(()))) by {
        reveal(batch_so_far);
    }
    lemma_batch_leads_on(a, qa, ops, config, wal_config, k, mid, qm, b, qb, r);
    reveal(batch_so_far);
    assert(ops.take(k + 1).drop_last() =~= ops.take(k));
    assert(ops.take(k + 1).last() == ops[k]);
    if a.apart() {
        state::lemma_mirrored_on(a, qa, mid, qm, b, qb);
    }
}

proof fn lemma_batch_leads_on(
    a: LsmView,
    qa: Seq<EffectView>,
    ops: Seq<Op>,
    config: LsmConfig,
    wal_config: WalConfig,
    k: int,
    mid: LsmView,
    qm: Seq<EffectView>,
    b: LsmView,
    qb: Seq<EffectView>,
    r: Result<(), Error>,
)
    requires
        0 <= k < ops.len(),
        batch_leads(a, qa, ops, config, wal_config, k, mid, qm, Ok(())),
        exists|t: Seq<EffectView>|
            qb == qm + t && #[trigger] write_outcome(mid, ops[k], config, wal_config, b, t, r),
    ensures
        batch_leads(a, qa, ops, config, wal_config, k + 1, b, qb, r),
{
    reveal(batch_leads);
    let (after, told) = choose|after: Seq<LsmView>, told: Seq<Seq<EffectView>>| #[trigger]
        batch_steps(a, ops, config, wal_config, after, told, Ok::<(), Error>(())) && after.len()
            == k && mid == latest(a, after) && qm == qa + told.flatten();
    let t = choose|t: Seq<EffectView>|
        qb == qm + t && #[trigger] write_outcome(mid, ops[k], config, wal_config, b, t, r);
    lemma_batch_step(a, ops, config, wal_config, after, told, b, t, r);
    assert(qm + t =~= qa + told.push(t).flatten());
}

pub proof fn lemma_batch_done(
    a: LsmView,
    qa: Seq<EffectView>,
    ops: Seq<Op>,
    config: LsmConfig,
    wal_config: WalConfig,
    k: int,
    b: LsmView,
    qb: Seq<EffectView>,
    r: Result<(), Error>,
)
    requires
        batch_so_far(a, qa, ops, config, wal_config, k, b, qb, r),
        r is Ok ==> k == ops.len(),
    ensures
        a.intact() ==> r is Ok && b.intact() && b.contents() == written_all(a.contents(), ops),
        a.apart() ==> b.apart() && mirrored(a, qa, b, qb),
        a.durable() && (forall|i: int| 0 <= i < ops.len() ==> replay::loggable(#[trigger] ops[i]))
            ==> b.durable(),
        exists|told: Seq<EffectView>|
            qb == qa + told && #[trigger] batch_outcome(a, ops, config, wal_config, b, told, r),
{
    reveal(batch_so_far);
    reveal(batch_leads);
    let (after, told) = choose|after: Seq<LsmView>, told: Seq<Seq<EffectView>>| #[trigger]
        batch_steps(a, ops, config, wal_config, after, told, r) && after.len() == k && b == latest(
            a,
            after,
        ) && qb == qa + told.flatten();
    assert(batch_outcome(a, ops, config, wal_config, b, told.flatten(), r));
    assert(ops.take(ops.len() as int) =~= ops);
}

pub proof fn lemma_charges_one(op: Op)
    ensures
        charges(seq![op]) == charge(op.key(), op.slot()),
{
    assert(seq![op].drop_first() =~= Seq::<Op>::empty());
    assert(charges(seq![op].drop_first()) == 0);
}

/// Writes are charged one by one.
pub proof fn lemma_charges_split(ops: Seq<Op>, rest: Seq<Op>)
    ensures
        charges(ops + rest) == charges(ops) + charges(rest),
        charges(ops) >= 0,
        charges(rest) >= 0,
    decreases ops.len() + rest.len(),
{
    if ops.len() > 0 {
        assert((ops + rest).drop_first() =~= ops.drop_first() + rest);
        lemma_charges_split(ops.drop_first(), rest);
    } else {
        assert(ops + rest =~= rest);
        if rest.len() > 0 {
            lemma_charges_split(ops, rest.drop_first());
        }
    }
}

} // verus!
