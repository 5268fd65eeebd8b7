//! Tables on top of each other, the newest first.

use vstd::prelude::*;

use crate::ordered::{first_of, lists_in_order};
use crate::storage::engine::Contents;
use crate::storage::lsm::memtable::Slots;
use crate::storage::lsm::sstable::{
    self, fits, index_of, run_of, slot_at, table_bytes, table_of, ReadFault, Slot, SlotRead,
    SsTable, TableView,
};

verus! {

/// What a stack of sound tables has for each key: the first table that knows
/// the key decides.
pub open spec fn stacked(ts: Seq<TableView>) -> Slots
    decreases ts.len(),
{
    if ts.len() == 0 {
        Map::empty()
    } else {
        ts.last().slots().union_prefer_right(stacked(ts.drop_last()))
    }
}

/// What can be seen of the slots: the values, without the tombstones.
pub open spec fn visible(m: Slots) -> Contents {
    Map::new(|k: Seq<u8>| m.contains_key(k) && m[k] is Some, |k: Seq<u8>| m[k].unwrap())
}

/// The slots that hold a value.
pub open spec fn live(m: Slots) -> Slots {
    Map::new(|k: Seq<u8>| m.contains_key(k) && m[k] is Some, |k: Seq<u8>| m[k])
}

/// Every table is sound.
pub open spec fn all_sound(ts: Seq<TableView>) -> bool {
    forall|i: int| 0 <= i < ts.len() ==> (#[trigger] ts[i]).sound()
}

/// Looks a key up table by table; the first that knows it, or that cannot be
/// read, decides.
pub open spec fn looked_up(ts: Seq<TableView>, key: Seq<u8>) -> Result<
    Option<Option<Seq<u8>>>,
    ReadFault,
>
    decreases ts.len(),
{
    if ts.len() == 0 {
        Ok(None)
    } else {
        match ts[0].lookup(key) {
            Ok(None) => looked_up(ts.drop_first(), key),
            r => r,
        }
    }
}

/// What looking a key up gives, in a buffer and then in the tables below it.
pub open spec fn answer(mem: Slots, ts: Seq<TableView>, key: Seq<u8>) -> Result<
    Option<Option<Seq<u8>>>,
    ReadFault,
> {
    if mem.contains_key(key) {
        Ok(Some(mem[key]))
    } else {
        looked_up(ts, key)
    }
}

/// The slots after a run of records came in: what was there stays.
pub open spec fn gathered(m: Slots, run: Seq<Slot>) -> Slots
    decreases run.len(),
{
    if run.len() == 0 {
        m
    } else {
        let prior = gathered(m, run.drop_last());
        if prior.contains_key(run.last().0) {
            prior
        } else {
            prior.insert(run.last().0, run.last().1)
        }
    }
}

/// Gathers the records from `start` on and before `end` of tables whose indexes
/// are in order, behind what is there already. A table that cannot be read is
/// passed over.
pub open spec fn scanned(m: Slots, ts: Seq<TableView>, start: Seq<u8>, end: Seq<u8>) -> Slots
    decreases ts.len(),
{
    if ts.len() == 0 {
        m
    } else {
        let prior = scanned(m, ts.drop_last(), start, end);
        match ts.last().scanned(start, end) {
            Ok(run) => gathered(prior, run),
            Err(_) => prior,
        }
    }
}

/// Merges tables by reading every record, the first record of a key decides.
pub open spec fn merged(ts: Seq<TableView>) -> Result<Slots, ReadFault>
    decreases ts.len(),
{
    if ts.len() == 0 {
        Ok(Map::empty())
    } else {
        match merged(ts.drop_last()) {
            Ok(m) => match run_of(ts.last().image, 0, ts.last().index.len()) {
                Ok(run) => Ok(gathered(m, run)),
                Err(f) => Err(f),
            },
            Err(f) => Err(f),
        }
    }
}

/// The table that stands in a file that holds these entries.
pub open spec fn written_table(
    path: Seq<char>,
    generation: u64,
    es: Seq<Slot>,
    max_seq: u64,
) -> TableView {
    TableView { path, generation, index: index_of(es), max_seq, image: table_bytes(es, max_seq) }
}

// ---- stacks of sound tables ------------------------------------------------------

/// A table on top of a stack decides first.
pub proof fn lemma_stacked_front(t: TableView, ts: Seq<TableView>)
    ensures
        stacked(seq![t] + ts) == stacked(ts).union_prefer_right(t.slots()),
    decreases ts.len(),
{
    let a = seq![t] + ts;
    if ts.len() == 0 {
        assert(a.drop_last() =~= Seq::<TableView>::empty());
        assert(stacked(a.drop_last()) == Slots::empty());
        assert(stacked(a) =~= t.slots());
        assert(stacked(ts).union_prefer_right(t.slots()) =~= t.slots());
    } else {
        assert(a.drop_last() =~= seq![t] + ts.drop_last());
        assert(a.last() == ts.last());
        lemma_stacked_front(t, ts.drop_last());
        assert(stacked(a) =~= stacked(ts).union_prefer_right(t.slots()));
    }
}

/// A single table is a stack.
pub proof fn lemma_stacked_one(t: TableView)
    ensures
        stacked(seq![t]) == t.slots(),
{
    assert(seq![t].drop_last() =~= Seq::<TableView>::empty());
    assert(stacked(seq![t].drop_last()) == Slots::empty());
    assert(stacked(seq![t]) =~= t.slots());
}

/// Looking a key up in sound tables gives what the stack has for it.
pub proof fn lemma_sound_looked_up(ts: Seq<TableView>, key: Seq<u8>)
    requires
        all_sound(ts),
    ensures
        looked_up(ts, key) == Ok::<Option<Option<Seq<u8>>>, ReadFault>(
            if stacked(ts).contains_key(key) {
                Some(stacked(ts)[key])
            } else {
                None
            },
        ),
    decreases ts.len(),
{
    if ts.len() > 0 {
        let rest = ts.drop_first();
        assert(ts[0].sound());
        assert forall|i: int| 0 <= i < rest.len() implies (#[trigger] rest[i]).sound() by {
            assert(ts[i + 1].sound());
        }
        sstable::lemma_sound_lookup(ts[0], key);
        lemma_sound_looked_up(rest, key);
        assert(seq![ts[0]] + rest =~= ts);
        lemma_stacked_front(ts[0], rest);
    }
}

/// Maps with one listing are one map.
pub proof fn lemma_same_listing<T>(
    l: Seq<(Seq<u8>, T)>,
    a: Map<Seq<u8>, T>,
    b: Map<Seq<u8>, T>,
)
    requires
        lists_in_order(l, a),
        lists_in_order(l, b),
    ensures
        a == b,
{
    assert forall|k: Seq<u8>| #[trigger] a.contains_key(k) implies b.contains_key(k) && a[k]
        == b[k] by {
        assert(first_of(l).contains(k));
        let i = first_of(l).index_of(k);
        assert(l[i].0 == k);
    }
    assert forall|k: Seq<u8>| #[trigger] b.contains_key(k) implies a.contains_key(k) by {
        assert(first_of(l).contains(k));
        let i = first_of(l).index_of(k);
        assert(l[i].0 == k);
    }
    assert(a =~= b);
}

/// Gathering a listing adds what its map has and was not there.
proof fn lemma_gathered(m: Slots, run: Seq<Slot>)
    requires
        forall|i: int, j: int|
            0 <= i < j < run.len() ==> (#[trigger] run[i]).0 != (#[trigger] run[j]).0,
    ensures
        forall|k: Seq<u8>| #[trigger]
            gathered(m, run).contains_key(k) <==> m.contains_key(k) || first_of(run).contains(k),
        forall|k: Seq<u8>| #[trigger]
            m.contains_key(k) ==> gathered(m, run)[k] == m[k],
        forall|i: int|
            0 <= i < run.len() && !m.contains_key((#[trigger] run[i]).0) ==> gathered(
                m,
                run,
            )[run[i].0] == run[i].1,
    decreases run.len(),
{
    if run.len() > 0 {
        let d = run.drop_last();
        let l = run.len() - 1;
        assert forall|i: int, j: int| 0 <= i < j < d.len() implies (#[trigger] d[i]).0 != (
        #[trigger] d[j]).0 by {
            assert(run[i].0 != run[j].0);
        }
        lemma_gathered(m, d);
        let g = gathered(m, d);
        assert forall|k: Seq<u8>| first_of(run).contains(k) <==> first_of(d).contains(k) || k
            == run.last().0 by {
            if first_of(run).contains(k) {
                let i = first_of(run).index_of(k);
                if i < l {
                    assert(first_of(d)[i] == k);
                }
            }
            if first_of(d).contains(k) {
                let i = first_of(d).index_of(k);
                assert(first_of(run)[i] == k);
            }
            if k == run.last().0 {
                assert(first_of(run)[l] == k);
            }
        }
        assert(!first_of(d).contains(run.last().0)) by {
            if first_of(d).contains(run.last().0) {
                let i = first_of(d).index_of(run.last().0);
                assert(run[i].0 != run[l].0);
            }
        }
        assert forall|i: int| 0 <= i < run.len() && !m.contains_key((#[trigger] run[i]).0) implies gathered(
            m,
            run,
        )[run[i].0] == run[i].1 by {
            if i < l {
                assert(d[i] == run[i]);
                assert(run[i].0 != run[l].0);
            }
        }
        assert forall|k: Seq<u8>| #[trigger] m.contains_key(k) implies gathered(m, run)[k]
            == m[k] by {
            assert(g[k] == m[k]);
        }
    }
}

/// Gathering the listing of a map adds what it has and was not there.
pub proof fn lemma_gathered_listing(m: Slots, run: Seq<Slot>, more: Slots)
    requires
        lists_in_order(run, more),
    ensures
        gathered(m, run) == more.union_prefer_right(m),
{
    crate::ordered::lemma_ascending_distinct(first_of(run));
    assert forall|i: int, j: int| 0 <= i < j < run.len() implies (#[trigger] run[i]).0 != (
    #[trigger] run[j]).0 by {
        assert(first_of(run)[i] != first_of(run)[j]);
    }
    lemma_gathered(m, run);
    let g = gathered(m, run);
    let u = more.union_prefer_right(m);
    assert forall|k: Seq<u8>| #[trigger] g.contains_key(k) implies u.contains_key(k) && g[k]
        == u[k] by {
        if !m.contains_key(k) {
            let i = first_of(run).index_of(k);
            assert(run[i].0 == k);
        }
    }
    assert(g =~= u);
}

/// Merging sound tables gives what their stack has.
pub proof fn lemma_merged_sound(ts: Seq<TableView>)
    requires
        all_sound(ts),
    ensures
        merged(ts) == Ok::<Slots, ReadFault>(stacked(ts)),
    decreases ts.len(),
{
    if ts.len() > 0 {
        let d = ts.drop_last();
        let t = ts.last();
        assert(ts[ts.len() - 1].sound());
        assert forall|i: int| 0 <= i < d.len() implies (#[trigger] d[i]).sound() by {
            assert(ts[i].sound());
        }
        lemma_merged_sound(d);
        let n = t.index.len();
        sstable::lemma_sound_entries(t);
        if n > 0 {
            assert(t.line_ok(0));
            sstable::lemma_sound_run(t, 0, n);
            assert(t.entries().subrange(0, n as int) =~= t.entries());
        } else {
            assert(t.entries() =~= Seq::<Slot>::empty());
        }
        lemma_gathered_listing(stacked(d), t.entries(), t.slots());
    }
}

/// A table in front is scanned first.
pub proof fn lemma_scanned_front(
    m: Slots,
    t: TableView,
    ts: Seq<TableView>,
    start: Seq<u8>,
    end: Seq<u8>,
)
    ensures
        scanned(m, seq![t] + ts, start, end) == scanned(
            match t.scanned(start, end) {
                Ok(run) => gathered(m, run),
                Err(_) => m,
            },
            ts,
            start,
            end,
        ),
    decreases ts.len(),
{
    let all = seq![t] + ts;
    if ts.len() == 0 {
        assert(all.drop_last() =~= seq![]);
        assert(scanned(m, all.drop_last(), start, end) == m);
    } else {
        assert(all.drop_last() =~= seq![t] + ts.drop_last());
        assert(all.last() == ts.last());
        lemma_scanned_front(m, t, ts.drop_last(), start, end);
    }
}

/// What a map of slots has for a key.
pub open spec fn slot_in(m: Slots, key: Seq<u8>) -> Option<Option<Seq<u8>>> {
    if m.contains_key(key) {
        Some(m[key])
    } else {
        None
    }
}

/// What a lookup comes to for whoever asked: a tombstone shows nothing.
pub open spec fn shown(r: Result<Option<Option<Seq<u8>>>, ReadFault>) -> Result<
    Option<Seq<u8>>,
    ReadFault,
> {
    match r {
        Ok(Some(slot)) => Ok(slot),
        Ok(None) => Ok(None),
        Err(f) => Err(f),
    }
}

/// The table can be read from its beginning, and says the same then as when
/// its keys are looked up one by one.
pub open spec fn coherent(t: TableView) -> bool {
    run_of(t.image, 0, t.index.len()) matches Ok(run) && forall|key: Seq<u8>| #[trigger]
        t.lookup(key) == Ok::<Option<Option<Seq<u8>>>, ReadFault>(
            slot_in(gathered(Map::empty(), run), key),
        )
}

proof fn lemma_gathered_on(m: Slots, run: Seq<Slot>)
    ensures
        gathered(m, run) == gathered(Map::empty(), run).union_prefer_right(m),
    decreases run.len(),
{
    if run.len() > 0 {
        lemma_gathered_on(m, run.drop_last());
    }
    assert(gathered(m, run) =~= gathered(Map::empty(), run).union_prefer_right(m));
}

/// One more table at the end is asked last.
proof fn lemma_looked_up_last(ts: Seq<TableView>, t: TableView, key: Seq<u8>)
    ensures
        looked_up(ts.push(t), key) == (match looked_up(ts, key) {
            Ok(None) => t.lookup(key),
            r => r,
        }),
    decreases ts.len(),
{
    let all = ts.push(t);
    if ts.len() == 0 {
        assert(all.drop_first() =~= seq![]);
        assert(looked_up(all.drop_first(), key) == Ok::<Option<Option<Seq<u8>>>, ReadFault>(None));
    } else {
        assert(all.drop_first() =~= ts.drop_first().push(t));
        assert(all[0] == ts[0]);
        lemma_looked_up_last(ts.drop_first(), t, key);
    }
}

/// Coherent tables can be merged, and what is merged is what lookups give.
pub proof fn lemma_coherent_looked_up(ts: Seq<TableView>, key: Seq<u8>)
    requires
        forall|i: int| 0 <= i < ts.len() ==> coherent(#[trigger] ts[i]),
    ensures
        merged(ts) matches Ok(m) && looked_up(ts, key) == Ok::<
            Option<Option<Seq<u8>>>,
            ReadFault,
        >(slot_in(m, key)),
    decreases ts.len(),
{
    if ts.len() > 0 {
        let d = ts.drop_last();
        let t = ts.last();
        assert forall|i: int| 0 <= i < d.len() implies coherent(#[trigger] d[i]) by {
            assert(coherent(ts[i]));
        }
        lemma_coherent_looked_up(d, key);
        assert(coherent(ts[ts.len() - 1]));
        lemma_looked_up_last(d, t, key);
        assert(d.push(t) =~= ts);
        let run = run_of(t.image, 0, t.index.len())->Ok_0;
        lemma_gathered_on(merged(d)->Ok_0, run);
        assert(t.lookup(key) == Ok::<Option<Option<Seq<u8>>>, ReadFault>(
            slot_in(gathered(Map::empty(), run), key),
        ));
    }
}

/// Every record that can be read fits the format.
proof fn lemma_run_fits(s: Seq<u8>, at: int, n: nat)
    requires
        0 <= at,
    ensures
        run_of(s, at, n) matches Ok(run) ==> forall|i: int|
            0 <= i < run.len() ==> fits(#[trigger] run[i]),
    decreases n,
{
    if n > 0 {
        match slot_at(s, at) {
            SlotRead::Record { slot, next } => {
                assert(fits(slot));
                lemma_run_fits(s, next, (n - 1) as nat);
                match run_of(s, next, (n - 1) as nat) {
                    Ok(rest) => {
                        let run = seq![slot] + rest;
                        assert forall|i: int| 0 <= i < run.len() implies fits(
                            #[trigger] run[i],
                        ) by {
                            if i > 0 {
                                assert(run[i] == rest[i - 1]);
                            }
                        }
                    },
                    _ => {},
                }
            },
            _ => {},
        }
    }
}

/// Every slot fits the format.
pub open spec fn slots_fit(m: Slots) -> bool {
    forall|k: Seq<u8>| #[trigger] m.contains_key(k) ==> fits((k, m[k]))
}

proof fn lemma_gathered_fits(m: Slots, run: Seq<Slot>)
    requires
        slots_fit(m),
        forall|i: int| 0 <= i < run.len() ==> fits(#[trigger] run[i]),
    ensures
        slots_fit(gathered(m, run)),
    decreases run.len(),
{
    if run.len() > 0 {
        let d = run.drop_last();
        assert forall|i: int| 0 <= i < d.len() implies fits(#[trigger] d[i]) by {
            assert(fits(run[i]));
        }
        lemma_gathered_fits(m, d);
        assert(fits(run[run.len() - 1]));
    }
}

/// What is merged fits the format.
pub proof fn lemma_merged_fits(ts: Seq<TableView>)
    ensures
        merged(ts) matches Ok(m) ==> slots_fit(m),
    decreases ts.len(),
{
    if ts.len() > 0 {
        lemma_merged_fits(ts.drop_last());
        let t = ts.last();
        lemma_run_fits(t.image, 0, t.index.len());
        match merged(ts.drop_last()) {
            Ok(m) => match run_of(t.image, 0, t.index.len()) {
                Ok(run) => {
                    lemma_gathered_fits(m, run);
                },
                _ => {},
            },
            _ => {},
        }
    }
}

/// A table of listed slots that fit is read back from its file, is sound and
/// has those slots.
pub proof fn lemma_written_table(
    path: Seq<char>,
    generation: u64,
    es: Seq<Slot>,
    max_seq: u64,
    m: Slots,
)
    requires
        lists_in_order(es, m),
        slots_fit(m),
        table_bytes(es, max_seq).len() <= u64::MAX,
    ensures
        table_of(path, generation, table_bytes(es, max_seq)) == Ok::<
            TableView,
            sstable::TableFault,
        >(written_table(path, generation, es, max_seq)),
        written_table(path, generation, es, max_seq).sound(),
        written_table(path, generation, es, max_seq).slots() == m,
{
    assert forall|i: int| 0 <= i < es.len() implies fits(#[trigger] es[i]) by {
        assert(m.contains_key(es[i].0));
    }
    sstable::lemma_table_read_back(path, generation, es, max_seq);
    let t = written_table(path, generation, es, max_seq);
    sstable::lemma_sound_entries(t);
    lemma_same_listing(es, t.slots(), m);
}

/// What each table of a list is.
pub open spec fn table_views(ts: Seq<std::sync::Arc<SsTable>>) -> Seq<TableView> {
    Seq::new(ts.len(), |i: int| (*ts[i])@)
}

} // verus!
