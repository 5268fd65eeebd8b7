//! What becomes of reads when tables cannot be read.

use vstd::prelude::*;

use crate::ordered;
use crate::storage::lsm::layers::{gathered, looked_up, merged, scanned};
use crate::storage::lsm::memtable::Slots;
use crate::storage::lsm::sstable::{self, run_of, slot_at, ReadFault, Slot, SlotRead, TableView};

verus! {

/// No index of these tables has a line for the key.
pub open spec fn unknown_to(ts: Seq<TableView>, key: Seq<u8>) -> bool {
    forall|j: int|
        0 <= j < ts.len() ==> (#[trigger] ts[j]).ordered() && !ts[j].keys().contains(key)
}

/// The first table whose index has a line for a key decides, with the record that the
/// line points at: its value, its tombstone, or what is wrong with it. No older table
/// is asked instead.
pub proof fn lemma_lookup_decides(ts: Seq<TableView>, key: Seq<u8>, i: int, k: int)
    requires
        0 <= i < ts.len(),
        unknown_to(ts.take(i), key),
        ts[i].ordered(),
        0 <= k < ts[i].index.len(),
        ts[i].index[k].0 == key,
    ensures
        looked_up(ts, key) == (match slot_at(ts[i].image, ts[i].index[k].1 as int) {
            SlotRead::Record { slot, .. } => Ok::<Option<Option<Seq<u8>>>, ReadFault>(Some(slot.1)),
            SlotRead::Ended => Err(ReadFault::Ended),
            SlotRead::BadType { byte } => Err(ReadFault::BadType { byte }),
        }),
    decreases i,
{
    let t = ts[0];
    if i > 0 {
        assert(ts.take(i)[0] == t);
        sstable::lemma_ordered_lookup(t, key);
        let rest = ts.drop_first();
        assert forall|j: int| 0 <= j < i - 1 implies (#[trigger] rest.take(i - 1)[j]).ordered()
            && !rest.take(i - 1)[j].keys().contains(key) by {
            assert(ts.take(i)[j + 1] == rest.take(i - 1)[j]);
        }
        lemma_lookup_decides(rest, key, i - 1, k);
    } else {
        sstable::lemma_ordered_lookup(t, key);
        ordered::lemma_ascending_distinct(t.keys());
        assert(t.keys()[k] == key);
        assert(t.keys()[t.keys().index_of(key)] == key);
    }
}

/// Where no table has a line for the key, nothing is found.
pub proof fn lemma_lookup_finds_nothing(ts: Seq<TableView>, key: Seq<u8>)
    requires
        unknown_to(ts, key),
    ensures
        looked_up(ts, key) == Ok::<Option<Option<Seq<u8>>>, ReadFault>(None),
    decreases ts.len(),
{
    if ts.len() > 0 {
        sstable::lemma_ordered_lookup(ts[0], key);
        let rest = ts.drop_first();
        assert forall|j: int| 0 <= j < rest.len() implies (#[trigger] rest[j]).ordered()
            && !rest[j].keys().contains(key) by {
            assert(ts[j + 1] == rest[j]);
        }
        lemma_lookup_finds_nothing(rest, key);
    }
}

/// The records of a table, read from its beginning.
pub open spec fn all_records(t: TableView) -> Result<Seq<Slot>, ReadFault> {
    run_of(t.image, 0, t.index.len())
}

/// Tables can be merged exactly if every one of them can be read from its beginning;
/// otherwise the first that cannot be read says what is wrong.
pub proof fn lemma_merge_needs_all(ts: Seq<TableView>, i: int)
    requires
        0 <= i < ts.len(),
        all_records(ts[i]) is Err,
        forall|j: int| 0 <= j < i ==> all_records(#[trigger] ts[j]) is Ok,
    ensures
        merged(ts) == Err::<Slots, ReadFault>(all_records(ts[i])->Err_0),
    decreases ts.len(),
{
    let d = ts.drop_last();
    if i < d.len() {
        assert(d[i] == ts[i]);
        lemma_merge_needs_all(d, i);
    } else {
        lemma_merge_possible(d);
    }
}

/// Tables that can all be read from their beginnings can be merged.
pub proof fn lemma_merge_possible(ts: Seq<TableView>)
    requires
        forall|j: int| 0 <= j < ts.len() ==> all_records(#[trigger] ts[j]) is Ok,
    ensures
        merged(ts) is Ok,
    decreases ts.len(),
{
    if ts.len() > 0 {
        let d = ts.drop_last();
        assert forall|j: int| 0 <= j < d.len() implies all_records(#[trigger] d[j]) is Ok by {
            assert(d[j] == ts[j]);
        }
        lemma_merge_possible(d);
        assert(all_records(ts[d.len() as int]) is Ok);
    }
}

/// A scan is the same without a table that cannot be read in its range.
pub proof fn lemma_scan_passes_over(
    m: Slots,
    ts: Seq<TableView>,
    start: Seq<u8>,
    end: Seq<u8>,
    i: int,
)
    requires
        0 <= i < ts.len(),
        ts[i].scanned(start, end) is Err,
    ensures
        scanned(m, ts, start, end) == scanned(m, ts.remove(i), start, end),
    decreases ts.len(),
{
    let d = ts.drop_last();
    let r = ts.remove(i);
    if i < d.len() {
        lemma_scan_passes_over(m, d, start, end, i);
        assert(r.drop_last() =~= d.remove(i));
        assert(r.last() == ts.last());
    } else {
        assert(r =~= d);
    }
}

/// What came in first stays, whatever comes in behind it, and what is new is added.
pub proof fn lemma_first_stays(m: Slots, run: Seq<Slot>, key: Seq<u8>)
    ensures
        m.contains_key(key) ==> gathered(m, run).contains_key(key) && gathered(m, run)[key]
            == m[key],
        gathered(m, run).contains_key(key) && !m.contains_key(key) ==> exists|i: int|
            0 <= i < run.len() && (#[trigger] run[i]).0 == key && gathered(m, run)[key] == run[i].1,
        forall|i: int| 0 <= i < run.len() ==> gathered(m, run).contains_key((#[trigger] run[i]).0),
    decreases run.len(),
{
    if run.len() > 0 {
        let d = run.drop_last();
        lemma_first_stays(m, d, key);
        assert forall|i: int| 0 <= i < run.len() implies gathered(m, run).contains_key(
            (#[trigger] run[i]).0,
        ) by {
            if i < d.len() {
                assert(d[i] == run[i]);
            }
        }
        if gathered(m, run).contains_key(key) && !m.contains_key(key) {
            if gathered(m, d).contains_key(key) {
                let i = choose|i: int|
                    0 <= i < d.len() && (#[trigger] d[i]).0 == key && gathered(m, d)[key] == d[i].1;
                assert(run[i] == d[i]);
            } else {
                assert(run[d.len() as int].0 == key);
            }
        }
    }
}

} // verus!
