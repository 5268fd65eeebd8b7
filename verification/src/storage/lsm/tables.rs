//! Tables in memory: sharing them, looking keys up in them, and merging them.

use std::sync::Arc;

use bytes::Bytes;
use vstd::prelude::*;

use crate::buffer::{octets, opt_octets};
use crate::order::{before, keys_of};
use crate::ordered::{self, first_of, lists_in_order, map_of, viewed, OrderedMap};
use crate::storage::disk::{effect_views, DiskEffect};
use crate::storage::engine::{held, pair_views};
use crate::storage::lsm::layers::{
    self, all_sound, gathered, live, looked_up, stacked, table_views, visible,
};
use crate::storage::lsm::memtable::{slot_views, MemTable, Slots};
use crate::storage::lsm::sstable::{is_read_error, ReadFault, Slot, SsTable, TableView};
use crate::storage::lsm::state::{in_use, newest_first, place_ahead, sweep_effects};
use crate::types::{Error, Key, Value};

verus! {

/// `Arc::clone`: another holder of the same table.
#[verifier::external_body]
pub(crate) fn share(t: &Arc<SsTable>) -> (r: Arc<SsTable>)
    ensures
        r == *t,
{
    Arc::clone(t)
}

/// A merged table is in use as long as anything but the list of merged tables
/// holds it, the list itself being one holder.
pub open spec fn held_elsewhere(counts: Seq<usize>) -> Seq<bool> {
    Seq::new(counts.len(), |i: int| counts[i] != 1)
}

/// Which of the merged tables are in use, from how many holders each has.
pub fn used_by_others(counts: &[usize]) -> (used: Vec<bool>)
    ensures
        used@ == held_elsewhere(counts@),
{
    let mut used: Vec<bool> = Vec::new();
    for i in 0..counts.len()
        invariant
            used@ == held_elsewhere(counts@).take(i as int),
    {
        used.push(counts[i] != 1);
        assert(used@ =~= held_elsewhere(counts@).take(i + 1));
    }
    assert(used@ =~= held_elsewhere(counts@));
    used
}

pub(crate) fn share_all(ts: &Vec<Arc<SsTable>>) -> (r: Vec<Arc<SsTable>>)
    ensures
        r@ == ts@,
{
    let mut r: Vec<Arc<SsTable>> = Vec::new();
    for i in 0..ts.len()
        invariant
            r@ == ts@.take(i as int),
    {
        r.push(share(&ts[i]));
        assert(ts@.take(i as int).push(ts@[i as int]) =~= ts@.take(i + 1));
    }
    assert(ts@.take(ts@.len() as int) =~= ts@);
    r
}

/// Puts a new table in its place: ahead of those that are not newer.
pub fn insert_sst_sorted(ssts: &mut Vec<Arc<SsTable>>, new_sst: Arc<SsTable>)
    requires
        newest_first(table_views(old(ssts)@)),
    ensures
        table_views(final(ssts)@) == table_views(old(ssts)@).insert(
            place_ahead(table_views(old(ssts)@), (*new_sst)@.max_seq),
            (*new_sst)@,
        ),
{
    let seq = new_sst.max_seq();
    let mut pos: usize = ssts.len();
    let ghost ts = table_views(ssts@);
    assert(ts.take(pos as int) =~= ts);
    while pos > 0 && ssts[pos - 1].max_seq() <= seq
        invariant
            pos <= ssts.len(),
            ts == table_views(ssts@),
            place_ahead(ts, seq) == place_ahead(ts.take(pos as int), seq),
        decreases pos,
    {
        assert(ts.take(pos as int).drop_last() =~= ts.take(pos - 1));
        assert(ts.take(pos as int).last() == ts[pos - 1]);
        pos -= 1;
    }
    proof {
        if pos > 0 {
            assert(ts.take(pos as int).last() == ts[pos - 1]);
        }
        assert(place_ahead(ts, seq) == pos);
    }
    ssts.insert(pos, new_sst);
    assert(table_views(ssts@) =~= ts.insert(pos as int, (*new_sst)@));
}

/// Parts the tables that are still in use from the others, whose files the
/// host is told to remove, the last one first.
pub fn sweep(pending: Vec<Arc<SsTable>>, used: &Vec<bool>, effects: &mut Vec<DiskEffect>) -> (keep:
    Vec<Arc<SsTable>>)
    requires
        used.len() == pending.len(),
    ensures
        table_views(keep@) == in_use(table_views(pending@), used@),
        effect_views(final(effects)@) == effect_views(old(effects)@) + sweep_effects(
            table_views(pending@),
            used@,
        ),
{
    let ghost ts = table_views(pending@);
    let ghost told = effect_views(effects@);
    let ghost all = told + sweep_effects(ts, used@);
    assert(ts.take(ts.len() as int) =~= ts);
    let mut n: usize = pending.len();
    while n > 0
        invariant
            n <= pending.len(),
            used.len() == pending.len(),
            ts == table_views(pending@),
            all == effect_views(effects@) + sweep_effects(ts.take(n as int), used@),
        decreases n,
    {
        let ghost t = ts[n - 1];
        let ghost sofar = effect_views(effects@);
        let ghost rest = sweep_effects(ts.take(n - 1), used@);
        assert(ts.take(n as int).drop_last() =~= ts.take(n - 1));
        assert(ts.take(n as int).last() == t);
        n -= 1;
        if !used[n] {
            let e = DiskEffect::Remove { file: pending[n].path().to_string() };
            effects.push(e);
            assert(effect_views(effects@) =~= sofar.push(e@));
            assert(sofar + (seq![e@] + rest) =~= sofar.push(e@) + rest);
        }
    }
    assert(ts.take(0) =~= Seq::<TableView>::empty());
    assert(effect_views(effects@) =~= all);
    let mut keep: Vec<Arc<SsTable>> = Vec::new();
    assert(table_views(keep@) =~= Seq::<TableView>::empty());
    for i in 0..pending.len()
        invariant
            used.len() == pending.len(),
            ts == table_views(pending@),
            table_views(keep@) == in_use(ts.take(i as int), used@),
    {
        let ghost kept = table_views(keep@);
        assert(ts.take(i + 1).drop_last() =~= ts.take(i as int));
        assert(ts.take(i + 1).last() == ts[i as int]);
        if used[i] {
            keep.push(share(&pending[i]));
            assert(table_views(keep@) =~= kept.push(ts[i as int]));
        }
    }
    keep
}

// ---- merging -------------------------------------------------------------------------

/// What a map says.
pub open spec fn slots_of(m: Map<Seq<u8>, Option<Bytes>>) -> Slots {
    viewed(m, |v: Option<Bytes>| opt_octets(v))
}

/// Takes in a run of records; what is there stays.
pub fn absorb(m: &mut OrderedMap<Option<Value>>, run: Vec<(Key, Option<Value>)>)
    requires
        old(m).wf(),
    ensures
        final(m).wf(),
        slots_of(final(m)@) == gathered(slots_of(old(m)@), slot_views(run@)),
{
    let ghost start = slots_of(m@);
    let ghost all = slot_views(run@);
    assert(all.take(0) =~= Seq::<Slot>::empty());
    for item in it: run
        invariant
            m.wf(),
            all == slot_views(it.seq()),
            slots_of(m@) == gathered(start, all.take(it.index())),
    {
        let ghost k = it.index();
        let ghost prior = m@;
        let (key, value) = item;
        m.insert_if_absent(key, value);
        proof {
            assert(all.take(k + 1).drop_last() =~= all.take(k));
            assert(all.take(k + 1).last() == (octets(key), opt_octets(value)));
            assert(slots_of(m@) =~= (if slots_of(prior).contains_key(octets(key)) {
                slots_of(prior)
            } else {
                slots_of(prior).insert(octets(key), opt_octets(value))
            }));
        }
    }
    assert(all.take(all.len() as int) =~= all);
}

/// One more pair behind the others lists one more key.
proof fn lemma_lists_push<T>(l: Seq<(Seq<u8>, T)>, m: Map<Seq<u8>, T>, k: Seq<u8>, v: T)
    requires
        lists_in_order(l, m),
        !m.contains_key(k),
        forall|i: int| 0 <= i < l.len() ==> before((#[trigger] l[i]).0, k),
    ensures
        lists_in_order(l.push((k, v)), m.insert(k, v)),
{
    let n = l.push((k, v));
    let f = first_of(n);
    let g = first_of(l);
    assert forall|i: int, j: int| 0 <= i < j < f.len() implies before(
        #[trigger] f[i],
        #[trigger] f[j],
    ) by {
        assert(f[i] == l[i].0);
        assert(f[i] == g[i]);
        if j < l.len() {
            assert(f[j] == g[j]);
        }
    }
    assert forall|i: int| 0 <= i < n.len() implies m.insert(k, v).contains_key((#[trigger] n[i]).0)
        && m.insert(k, v)[n[i].0] == n[i].1 by {
        if i < l.len() {
            assert(n[i] == l[i]);
        }
    }
    assert forall|x: Seq<u8>| #[trigger] m.insert(k, v).contains_key(x) implies f.contains(x) by {
        if x == k {
            assert(f[l.len() as int] == x);
        } else {
            assert(m.contains_key(x));
            let i = g.index_of(x);
            assert(f[i] == x);
        }
    }
}

/// The keys that have a value, with it, in key order.
pub fn live_pairs(m: OrderedMap<Option<Value>>) -> (out: Vec<(Key, Value)>)
    requires
        m.wf(),
    ensures
        lists_in_order(pair_views(out@), visible(slots_of(m@))),
{
    let ghost all = m.entries();
    let items = m.into_list();
    let mut out: Vec<(Key, Value)> = Vec::new();
    assert(all.take(0) =~= Seq::<(Bytes, Option<Bytes>)>::empty());
    assert(pair_views(out@) =~= Seq::<(Seq<u8>, Seq<u8>)>::empty());
    for item in it: items
        invariant
            all == it.seq(),
            crate::order::ascending(keys_of(all)),
            lists_in_order(pair_views(out@), visible(slots_of(map_of(all.take(it.index()))))),
    {
        let ghost n = it.index();
        let ghost part = map_of(all.take(n));
        let ghost l = pair_views(out@);
        let ghost seen = visible(slots_of(part));
        let (key, value) = item;
        let ghost k = octets(key);
        proof {
            ordered::lemma_take_next(all, n);
            ordered::lemma_take_fresh(all, n);
            assert forall|i: int| 0 <= i < l.len() implies before((#[trigger] l[i]).0, k) by {
                assert(seen.contains_key(l[i].0));
                let ks = keys_of(all.take(n));
                assert(ks.contains(l[i].0));
                let j = ks.index_of(l[i].0);
                assert(keys_of(all)[j] == l[i].0);
                assert(keys_of(all)[n] == k);
            }
        }
        match value {
            Some(v) => {
                out.push((key, v));
                proof {
                    lemma_lists_push(l, seen, k, octets(v));
                    assert(pair_views(out@) =~= l.push((k, octets(v))));
                    assert(visible(slots_of(map_of(all.take(n + 1)))) =~= seen.insert(
                        k,
                        octets(v),
                    ));
                }
            },
            None => {
                assert(visible(slots_of(map_of(all.take(n + 1)))) =~= seen);
            },
        }
    }
    assert(all.take(all.len() as int) =~= all);
    out
}

/// Pairs as entries of a table.
pub(crate) fn as_entries(pairs: Vec<(Key, Value)>) -> (out: Vec<(Key, Option<Value>)>)
    ensures
        out.len() == pairs.len(),
        forall|i: int|
            0 <= i < pairs.len() ==> slot_views(out@)[i].0 == (#[trigger] pair_views(pairs@)[i]).0
                && slot_views(out@)[i].1 == Some(pair_views(pairs@)[i].1),
{
    let mut out: Vec<(Key, Option<Value>)> = Vec::new();
    let ghost all = pairs@;
    for item in it: pairs
        invariant
            all == it.seq(),
            out.len() == it.index(),
            forall|i: int|
                0 <= i < out.len() ==> slot_views(out@)[i].0 == (#[trigger] pair_views(all)[i]).0
                    && slot_views(out@)[i].1 == Some(pair_views(all)[i].1),
    {
        let ghost prior = out@;
        let (k, v) = item;
        out.push((k, Some(v)));
        proof {
            assert forall|i: int| 0 <= i < out.len() implies slot_views(out@)[i].0 == (
            #[trigger] pair_views(all)[i]).0 && slot_views(out@)[i].1 == Some(
                pair_views(all)[i].1,
            ) by {
                if i < prior.len() {
                    assert(slot_views(out@)[i] == slot_views(prior)[i]);
                }
            }
        }
    }
    out
}

/// Values listed with their marks.
pub proof fn lemma_live_listing(l: Seq<(Seq<u8>, Seq<u8>)>, es: Seq<Slot>, m: Slots)
    requires
        lists_in_order(l, visible(m)),
        es.len() == l.len(),
        forall|i: int|
            0 <= i < l.len() ==> es[i].0 == (#[trigger] l[i]).0 && es[i].1 == Some(l[i].1),
    ensures
        lists_in_order(es, live(m)),
{
    assert(first_of(es) =~= first_of(l));
    assert forall|i: int| 0 <= i < es.len() implies live(m).contains_key((#[trigger] es[i]).0)
        && live(m)[es[i].0] == es[i].1 by {
        assert(visible(m).contains_key(l[i].0));
    }
    assert forall|k: Seq<u8>| #[trigger] live(m).contains_key(k) implies first_of(es).contains(
        k,
    ) by {
        assert(visible(m).contains_key(k));
    }
}

/// A result of looking up is what is expected of it.
pub open spec fn is_found(
    r: Result<Option<Value>, Error>,
    want: Result<Option<Option<Seq<u8>>>, ReadFault>,
) -> bool {
    match want {
        Ok(Some(slot)) => r matches Ok(v) && opt_octets(v) == slot,
        Ok(None) => r matches Ok(None),
        Err(f) => r matches Err(e) && is_read_error(e, f),
    }
}

/// Looks a key up in a buffer and in the tables below it.
pub(crate) fn lookup(mem: &MemTable, tables: &Vec<Arc<SsTable>>, key: &[u8]) -> (r: Result<
    Option<Value>,
    Error,
>)
    requires
        mem.wf(),
    ensures
        mem.slots().contains_key(key@) ==> is_found(r, Ok(Some(mem.slots()[key@]))),
        !mem.slots().contains_key(key@) ==> is_found(
            r,
            looked_up(table_views(tables@), key@),
        ),
        all_sound(table_views(tables@)) ==> (r matches Ok(v) && opt_octets(v) == held(
            visible(stacked(table_views(tables@)).union_prefer_right(mem.slots())),
            key@,
        )),
{
    let ghost ts = table_views(tables@);
    proof {
        if all_sound(ts) {
            layers::lemma_sound_looked_up(ts, key@);
        }
    }
    match mem.get(key) {
        Some(slot) => {
            return Ok(slot);
        },
        None => {},
    }
    let mut i: usize = 0;
    assert(ts.skip(0) =~= ts);
    while i < tables.len()
        invariant
            i <= tables.len(),
            ts == table_views(tables@),
            mem.wf(),
            !mem.slots().contains_key(key@),
            looked_up(ts, key@) == looked_up(ts.skip(i as int), key@),
            all_sound(ts) ==> looked_up(ts, key@) == Ok::<
                Option<Option<Seq<u8>>>,
                ReadFault,
            >(
                if stacked(ts).contains_key(key@) {
                    Some(stacked(ts)[key@])
                } else {
                    None
                },
            ),
        decreases tables.len() - i,
    {
        let ghost t = ts[i as int];
        assert(ts.skip(i as int)[0] == t);
        assert(ts.skip(i as int).drop_first() =~= ts.skip(i + 1));
        match tables[i].get(key) {
            Ok(Some(slot)) => {
                return Ok(slot);
            },
            Ok(None) => {},
            Err(e) => {
                return Err(e);
            },
        }
        i += 1;
    }
    assert(ts.skip(ts.len() as int) =~= Seq::<TableView>::empty());
    Ok(None)
}

} // verus!
