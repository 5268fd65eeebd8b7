//! What a merge is for.
//!
//! After it there is one table at most, with the values that can be seen and
//! nothing else; and the files of the merged tables are gone, unless something
//! still holds a table.

use vstd::prelude::*;

use crate::storage::disk::{performed_all, EffectView};
use crate::storage::engine::written_all;
use crate::storage::lsm::crash::{self, lists_segment_files, lists_table_files};
use crate::storage::lsm::history::{self, leads};
use crate::storage::lsm::holding::{all_alone, counted, counted_by, Holders};
use crate::storage::lsm::layers::{self, merged, stacked};
use crate::storage::lsm::memtable::Stamped;
use crate::storage::lsm::outcome::{compacted, is_merge, is_sweep};
use crate::storage::lsm::recover::{can_go_on, found_tables, opened_view, to_replay};
use crate::storage::lsm::replay::replayed;
use crate::storage::lsm::sstable::{Slot, TableView};
use crate::storage::lsm::state::{self, in_use, merge_tables, table_files, LsmView};
use crate::storage::segment::{opened, segment_files};

verus! {

/// The tables in use are among the tables, and are those that are marked.
proof fn lemma_in_use_exact(ts: Seq<TableView>, used: Seq<bool>, t: TableView)
    requires
        used.len() >= ts.len(),
    ensures
        in_use(ts, used).contains(t) <==> exists|i: int|
            0 <= i < ts.len() && #[trigger] used[i] && ts[i] == t,
        in_use(ts, used).len() == 0 <==> forall|i: int| 0 <= i < ts.len() ==> !#[trigger] used[i],
    decreases ts.len(),
{
    if ts.len() > 0 {
        let d = ts.drop_last();
        let n = ts.len() - 1;
        lemma_in_use_exact(d, used, t);
        let rest = in_use(d, used);
        let all = in_use(ts, used);
        if all.contains(t) {
            let k = all.index_of(t);
            if k < rest.len() {
                assert(rest[k] == t);
                let i = choose|i: int| 0 <= i < d.len() && #[trigger] used[i] && d[i] == t;
                assert(used[i] && ts[i] == t);
            } else {
                assert(used[n] && ts[n] == t);
            }
        }
        if exists|i: int| 0 <= i < ts.len() && #[trigger] used[i] && ts[i] == t {
            let i = choose|i: int| 0 <= i < ts.len() && #[trigger] used[i] && ts[i] == t;
            if i < n {
                assert(d[i] == t);
                assert(rest.contains(t));
                let k = rest.index_of(t);
                assert(all[k] == t);
            } else {
                assert(all[rest.len() as int] == t);
            }
        }
        if used[n] {
            assert(all.len() > 0);
        } else if rest.len() > 0 {
            let i = choose|i: int| 0 <= i < d.len() && #[trigger] used[i];
            assert(used[i]);
        }
    }
}

/// The tables that asking for a merge deals with: those that were merged before,
/// and those that are merged now.
pub open spec fn dealt_with(a: LsmView) -> Seq<TableView> {
    if a.tables.len() < 2 {
        a.pending
    } else {
        a.pending + a.tables
    }
}

/// These are the counts of the tables that were dealt with, one for each.
pub open spec fn counts_of(a: LsmView, hs: Seq<Holders>) -> bool {
    &&& hs.len() == dealt_with(a).len()
    &&& forall|i: int| 0 <= i < hs.len() ==> (#[trigger] hs[i]).table() == dealt_with(a)[i]
}

/// After a merge the file of a merged table stays exactly if, when its holders were
/// counted, something besides the list of merged tables held it. If nothing else
/// held any, no file of a merged table is left: the table files are those of the
/// engine's tables alone.
pub proof fn lemma_stays_if_held(a: LsmView, b: LsmView, told: Seq<EffectView>) -> (hs: Seq<Holders>)
    requires
        compacted(a, b, told, Ok(())),
    ensures
        counts_of(a, hs),
        forall|i: int|
            0 <= i < hs.len() && (#[trigger] hs[i]).number() != 1 ==> b.pending.contains(
                dealt_with(a)[i],
            ),
        forall|t: TableView| #[trigger]
            b.pending.contains(t) ==> exists|i: int|
                0 <= i < hs.len() && (#[trigger] hs[i]).number() != 1 && dealt_with(a)[i] == t,
        all_alone(hs) ==> b.pending.len() == 0 && b.disk() == segment_files(
            b.log_dir,
            b.segs,
        ).union_prefer_right(table_files(b.tables)),
        a.wf() && a.intact() && a.apart() ==> performed_all(a.disk(), told) == b.disk(),
{
    let ts = dealt_with(a);
    let used = if a.tables.len() < 2 {
        choose|used: Seq<bool>| #[trigger] is_sweep(a, b, told, used)
    } else {
        let (es, used) = choose|es: Seq<Slot>, used: Seq<bool>| #[trigger]
            is_merge(a, b, told, es, used);
        used
    };
    let hs = choose|hs: Seq<Holders>| #[trigger] counted_by(ts, used, hs);
    assert(counted(ts, used));
    assert(b.pending == in_use(ts, used));
    assert forall|i: int| 0 <= i < hs.len() && (#[trigger] hs[i]).number() != 1 implies
        b.pending.contains(ts[i]) by {
        lemma_in_use_exact(ts, used, ts[i]);
        assert(used[i]);
    }
    assert forall|t: TableView| #[trigger] b.pending.contains(t) implies exists|i: int|
        0 <= i < hs.len() && (#[trigger] hs[i]).number() != 1 && ts[i] == t by {
        lemma_in_use_exact(ts, used, t);
        let i = choose|i: int| 0 <= i < ts.len() && #[trigger] used[i] && ts[i] == t;
        assert(hs[i].number() != 1);
    }
    if all_alone(hs) {
        assert forall|i: int| 0 <= i < ts.len() implies !#[trigger] used[i] by {
            assert(hs[i].number() == 1);
        }
        lemma_in_use_exact(ts, used, arbitrary());
        assert(b.pending + b.tables =~= b.tables);
    }
    if a.wf() && a.intact() && a.apart() {
        history::lemma_compacted(a, b, told, Ok(()));
        reveal(leads);
    }
    hs
}

/// If nothing else held a merged table when its holders were counted, an engine that
/// is opened on the files after a merge holds what was held before it: no deletion
/// is undone.
pub proof fn lemma_merge_survives(
    a: LsmView,
    b: LsmView,
    told: Seq<EffectView>,
    log_listing: Seq<(Seq<char>, Seq<u8>)>,
    listing: Seq<(Seq<char>, Seq<u8>)>,
) -> (hs: Seq<Holders>)
    requires
        a.wf(),
        a.durable(),
        a.apart(),
        compacted(a, b, told, Ok(())),
        lists_segment_files(performed_all(a.disk(), told), a.log_dir, log_listing),
        lists_table_files(performed_all(a.disk(), told), a.dir, listing),
        found_tables(a.dir, listing) matches Ok(ts) ==> can_go_on(opened(log_listing), ts),
    ensures
        counts_of(a, hs),
        all_alone(hs) ==> (found_tables(a.dir, listing) matches Ok(ts) && (replayed(
            Stamped::empty(),
            to_replay(opened(log_listing), ts),
        ) matches Ok(mem) && opened_view(
            a.dir,
            a.log_dir,
            opened(log_listing),
            ts,
            mem,
        ).contents() == a.contents())),
{
    let hs = lemma_stays_if_held(a, b, told);
    history::lemma_compacted(a, b, told, Ok(()));
    assert(b.wf() && b.durable() && b.apart() && b.contents() == a.contents() && b.dir == a.dir
        && b.log_dir == a.log_dir && performed_all(a.disk(), told) == b.disk()) by {
        reveal(leads);
        assert(written_all(a.contents(), seq![]) == a.contents());
    }
    if all_alone(hs) {
        crash::lemma_nothing_lost(b, log_listing, listing);
    }
    hs
}

/// After a merge there is one table at most, and it has a key exactly if the tables
/// showed a value for it, with that value: neither what was overwritten nor a
/// tombstone is left.
pub proof fn lemma_merged_to_one(a: LsmView, b: LsmView, told: Seq<EffectView>, key: Seq<u8>)
    requires
        a.wf(),
        a.intact(),
        a.tables.len() >= 2,
        compacted(a, b, told, Ok(())),
    ensures
        b.tables.len() <= 1,
        b.mem == a.mem,
        stacked(b.tables).contains_key(key) <==> stacked(a.tables).contains_key(key) && stacked(
            a.tables,
        )[key] is Some,
        stacked(b.tables).contains_key(key) ==> stacked(b.tables)[key] == stacked(a.tables)[key],
        b.tables.len() == 1 ==> b.tables[0].slots() == stacked(b.tables),
{
    layers::lemma_merged_sound(a.tables);
    let m = merged(a.tables)->Ok_0;
    let (es, used) = choose|es: Seq<Slot>, used: Seq<bool>| #[trigger]
        is_merge(a, b, told, es, used);
    state::lemma_merge_tables(a, m, es);
    assert(b.tables == merge_tables(a, es));
    if b.tables.len() == 1 {
        assert(b.tables =~= seq![b.tables[0]]);
        layers::lemma_stacked_one(b.tables[0]);
    }
}

} // verus!
