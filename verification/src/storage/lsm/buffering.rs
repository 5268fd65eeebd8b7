//! What the buffer and flushes are for: memory stays bounded, tables are made when
//! the buffer is full and not before, and the log lets go of what tables have.

use vstd::prelude::*;

use crate::storage::disk::EffectView;
use crate::storage::engine::Op;
use crate::storage::lsm::engine::LsmConfig;
use crate::storage::lsm::memtable::{self, stamped_in, weight, Stamped};
use crate::storage::lsm::outcome::{
    flush_by_way, flush_outcome, flushed, is_flush, write_outcome,
};
use crate::storage::lsm::replay::record_of;
use crate::storage::lsm::sstable::Slot;
use crate::storage::lsm::state::{self, after_write, newest_first, place_ahead, LsmView};
use crate::storage::record::records;
use crate::storage::segment::{all_intact, append_effects};
use crate::storage::upkeep;
use crate::storage::wal::WalConfig;
use crate::types::Error;

verus! {

/// The length of a value; a tombstone has none.
pub open spec fn length(value: Option<Seq<u8>>) -> int {
    match value {
        Some(v) => v.len() as int,
        None => 0,
    }
}

/// An entry of a new key weighs its key, its value and sixteen bytes; another value
/// for a key takes the place of the one before. An empty buffer weighs nothing.
pub proof fn lemma_weighs(m: Stamped, key: Seq<u8>, seq: u64, value: Option<Seq<u8>>)
    requires
        m.dom().finite(),
    ensures
        !m.contains_key(key) ==> weight(m.insert(key, (seq, value))) == weight(m) + key.len()
            + length(value) + 16,
        m.contains_key(key) ==> weight(m.insert(key, (seq, value))) == weight(m) - length(m[key].1)
            + length(value),
        weight(Stamped::empty()) == 0,
{
    memtable::lemma_weight_stored(m, key, (seq, value));
    if m.contains_key(key) {
        memtable::lemma_weight_apart(m, key);
    }
}

/// What comes into the buffer under a number stands there unless it has something for
/// the key under this number or a higher one; every other key is left alone.
pub proof fn lemma_newer_stays(
    m: Stamped,
    seq: u64,
    key: Seq<u8>,
    value: Option<Seq<u8>>,
    other: Seq<u8>,
)
    ensures
        stamped_in(m, seq, key, value).contains_key(key),
        !m.contains_key(key) || m[key].0 < seq ==> stamped_in(m, seq, key, value)[key] == (
            seq,
            value,
        ),
        m.contains_key(key) && m[key].0 >= seq ==> stamped_in(m, seq, key, value) == m,
        other != key ==> stamped_in(m, seq, key, value).contains_key(other) == m.contains_key(
            other,
        ) && stamped_in(m, seq, key, value)[other] == m[other],
{
}

/// After a write that succeeds the buffer weighs less than it may. As long as it does
/// so with the write in it, the write goes to the log and to the buffer and nothing
/// else happens.
pub proof fn lemma_write_bounded(
    a: LsmView,
    op: Op,
    config: LsmConfig,
    wal_config: WalConfig,
    b: LsmView,
    told: Seq<EffectView>,
)
    requires
        write_outcome(a, op, config, wal_config, b, told, Ok(())),
        config.memtable_max_bytes > 0,
    ensures
        weight(b.mem) < config.memtable_max_bytes,
        b.next_seq == a.next_seq + 1,
        weight(stamped_in(a.mem, a.next_seq, op.key(), op.slot())) < config.memtable_max_bytes
            ==> b.tables == a.tables && b.pending == a.pending && b.next_gen == a.next_gen && b.mem
            == stamped_in(a.mem, a.next_seq, op.key(), op.slot()) && told == append_effects(
            wal_config,
            a.segs,
            record_of(a.next_seq, op),
        ),
        weight(stamped_in(a.mem, a.next_seq, op.key(), op.slot())) >= config.memtable_max_bytes
            ==> b.mem == Stamped::empty(),
{
    let w = after_write(a, op, wal_config.max_segment_bytes);
    if weight(w.mem) >= config.memtable_max_bytes {
        let threshold = config.sst_compact_threshold as int;
        let logged = append_effects(wal_config, a.segs, record_of(a.next_seq, op));
        let t = choose|t: Seq<EffectView>|
            told == logged + t && #[trigger] flush_outcome(w, b, t, threshold, Ok(()));
        let (mid, t1, t2) = choose|mid: LsmView, t1: Seq<EffectView>, t2: Seq<EffectView>|
            t == t1 + t2 && #[trigger] flush_by_way(w, mid, t1, b, t2, threshold, Ok(()));
        assert(mid.mem == Stamped::empty());
        assert(weight(Stamped::empty()) == 0);
    }
}

/// A flush makes one table of a buffer that is not empty, and leaves the others alone
/// as long as there are fewer than the threshold with it.
pub proof fn lemma_flush_adds_one(
    a: LsmView,
    b: LsmView,
    told: Seq<EffectView>,
    threshold: int,
    r: Result<(), Error>,
)
    requires
        flush_outcome(a, b, told, threshold, r),
        newest_first(a.tables),
        a.mem != Stamped::empty(),
        a.tables.len() + 1 < threshold,
    ensures
        r is Ok,
        b.tables.len() == a.tables.len() + 1,
        b.pending == a.pending,
        b.mem == Stamped::empty(),
        forall|i: int| 0 <= i < a.tables.len() ==> b.tables.contains(#[trigger] a.tables[i]),
{
    let (mid, t1, t2) = choose|mid: LsmView, t1: Seq<EffectView>, t2: Seq<EffectView>|
        told == t1 + t2 && #[trigger] flush_by_way(a, mid, t1, b, t2, threshold, r);
    let (es, newest) = choose|es: Seq<Slot>, newest: u64| #[trigger]
        is_flush(a, mid, t1, es, newest);
    let p = place_ahead(a.tables, newest);
    state::lemma_place_ahead(a.tables, newest);
    assert forall|i: int| 0 <= i < a.tables.len() implies mid.tables.contains(
        #[trigger] a.tables[i],
    ) by {
        if i < p {
            assert(mid.tables[i] == a.tables[i]);
        } else {
            assert(mid.tables[i + 1] == a.tables[i]);
        }
    }
}

/// After a flush the log has let go of what went to the table: each segment but the
/// active one has an entry that is newer than all of the buffer was.
pub proof fn lemma_flush_frees_log(a: LsmView, b: LsmView, told: Seq<EffectView>, i: int)
    requires
        flushed(a, b, told),
        a.mem != Stamped::empty(),
        a.segs.len() > 0,
        all_intact(a.segs),
        0 <= i < b.segs.len() - 1,
        forall|k: Seq<u8>| #[trigger] a.mem.contains_key(k) ==> a.mem[k].0 < u64::MAX,
    ensures
        exists|x: int|
            0 <= x < records(b.segs[i].image).len() && forall|k: Seq<u8>| #[trigger]
                a.mem.contains_key(k) ==> (#[trigger] records(b.segs[i].image)[x]).seq
                    > a.mem[k].0,
{
    let (es, newest) = choose|es: Seq<Slot>, newest: u64| #[trigger]
        is_flush(a, b, told, es, newest);
    let k = choose|k: Seq<u8>| #[trigger] a.mem.contains_key(k) && a.mem[k].0 == newest;
    upkeep::lemma_truncates_all(a.segs, (newest + 1) as u64, i);
    let x = choose|x: int|
        0 <= x < records(b.segs[i].image).len() && (#[trigger] records(b.segs[i].image)[x]).seq
            >= newest + 1;
    assert(records(b.segs[i].image)[x].seq > newest);
}

} // verus!
