//! Opening the engine on what its directory holds.

use bytes::Bytes;
use vstd::prelude::*;

use crate::buffer::octets;
use crate::storage::engine::{held, Contents};
use crate::storage::lsm::layers::{all_sound, stacked};
use crate::storage::lsm::memtable::Stamped;
use crate::storage::lsm::replay::{self, is_logged, last_write, replayed, PayloadFault};
use crate::storage::lsm::sstable::{table_of, TableFault, TableView};
use crate::storage::lsm::state::{
    faithful, in_dir, is_path, newest_first, paths_apart, place_behind, sst_gen,
    ties_agree, top_seq, LsmView,
};
use crate::storage::record::{self, highest, since, WalRecord};
use crate::storage::reopen::{self, lists, names_once};
use crate::storage::segment::{
    self, all_intact, all_records, highest_last, opened, reaching, SegmentView,
};
use crate::text::{self, joined};

verus! {

/// What a directory listing says.
pub open spec fn table_listing(listing: Seq<(String, Bytes)>) -> Seq<(Seq<char>, Seq<u8>)> {
    Seq::new(listing.len(), |i: int| (listing[i].0@, octets(listing[i].1)))
}

/// A table that cannot be read: its path, its length and what is wrong.
pub struct BadTable {
    pub path: Seq<char>,
    pub len: nat,
    pub fault: TableFault,
}

/// The tables that are found in a directory listing, newest first. The first
/// that cannot be read ends it.
pub open spec fn found_tables(dir: Seq<char>, listing: Seq<(Seq<char>, Seq<u8>)>) -> Result<
    Seq<TableView>,
    BadTable,
>
    decreases listing.len(),
{
    if listing.len() == 0 {
        Ok(seq![])
    } else {
        let (name, content) = listing.last();
        match found_tables(dir, listing.drop_last()) {
            Err(b) => Err(b),
            Ok(rest) => match sst_gen(name) {
                None => Ok(rest),
                Some(generation) => match table_of(joined(dir, name), generation, content) {
                    Ok(t) => Ok(rest.insert(place_behind(rest, t.max_seq), t)),
                    Err(fault) => Err(
                        BadTable { path: joined(dir, name), len: content.len(), fault },
                    ),
                },
            },
        }
    }
}

/// The highest generation; without a table zero.
pub open spec fn top_gen(ts: Seq<TableView>) -> u64
    decreases ts.len(),
{
    if ts.len() == 0 {
        0
    } else {
        let rest = top_gen(ts.drop_last());
        if ts.last().generation > rest {
            ts.last().generation
        } else {
            rest
        }
    }
}

/// The log entries that no table has.
pub open spec fn to_replay(segs: Seq<SegmentView>, ts: Seq<TableView>) -> Seq<WalRecord> {
    let from = (top_seq(ts) + 1) as u64;
    since(all_records(reaching(segs, from)), from)
}

/// The first number that neither the log nor a table has used.
pub open spec fn first_free(segs: Seq<SegmentView>, ts: Seq<TableView>) -> int {
    let after_log = match highest_last(segs) {
        Some(h) => h + 1,
        None => 1,
    };
    if after_log >= top_seq(ts) + 1 {
        after_log
    } else {
        top_seq(ts) + 1
    }
}

/// The engine that is opened on these tables, this log and this buffer.
pub open spec fn opened_view(
    dir: Seq<char>,
    log_dir: Seq<char>,
    segs: Seq<SegmentView>,
    ts: Seq<TableView>,
    mem: Stamped,
) -> LsmView {
    LsmView {
        dir,
        log_dir,
        segs,
        mem,
        tables: ts,
        pending: seq![],
        next_gen: (top_gen(ts) + 1) as u64,
        next_seq: first_free(segs, ts) as u64,
    }
}

/// The numbers of the log and of the tables leave a next one, and a buffer can
/// count what is replayed.
pub open spec fn can_go_on(segs: Seq<SegmentView>, ts: Seq<TableView>) -> bool {
    &&& top_seq(ts) < u64::MAX
    &&& top_gen(ts) < u64::MAX
    &&& highest_last(segs) matches Some(h) ==> h < u64::MAX
    &&& replay::replay_cost(to_replay(segs, ts)) <= usize::MAX
}

// ---- what is found ------------------------------------------------------------------

proof fn lemma_place_behind(ts: Seq<TableView>, seq: u64)
    requires
        newest_first(ts),
    ensures
        0 <= place_behind(ts, seq) <= ts.len(),
        forall|i: int| 0 <= i < place_behind(ts, seq) ==> (#[trigger] ts[i]).max_seq >= seq,
        forall|i: int| place_behind(ts, seq) <= i < ts.len() ==> (#[trigger] ts[i]).max_seq < seq,
    decreases ts.len(),
{
    if ts.len() > 0 {
        let d = ts.drop_last();
        let l = ts.len() - 1;
        if ts.last().max_seq >= seq {
            assert forall|i: int| 0 <= i < ts.len() implies (#[trigger] ts[i]).max_seq >= seq by {
                if i < l {
                    assert(ts[i].max_seq >= ts[l].max_seq);
                }
            }
        } else {
            assert forall|i: int, j: int| 0 <= i < j < d.len() implies (#[trigger] d[i]).max_seq
                >= (#[trigger] d[j]).max_seq by {
                assert(ts[i].max_seq >= ts[j].max_seq);
            }
            lemma_place_behind(d, seq);
            assert forall|i: int| 0 <= i < place_behind(ts, seq) implies (#[trigger] ts[i]).max_seq
                >= seq by {
                assert(d[i].max_seq >= seq);
            }
            assert forall|i: int|
                place_behind(ts, seq) <= i < ts.len() implies (#[trigger] ts[i]).max_seq < seq by {
                if i < l {
                    assert(d[i].max_seq < seq);
                }
            }
        }
    }
}

/// A table in its place keeps the order.
pub proof fn lemma_placed(ts: Seq<TableView>, t: TableView)
    requires
        newest_first(ts),
    ensures
        0 <= place_behind(ts, t.max_seq) <= ts.len(),
        newest_first(ts.insert(place_behind(ts, t.max_seq), t)),
{
    lemma_place_behind(ts, t.max_seq);
    let at = place_behind(ts, t.max_seq);
    let n = ts.insert(at, t);
    assert forall|i: int, j: int| 0 <= i < j < n.len() implies (#[trigger] n[i]).max_seq >= (
    #[trigger] n[j]).max_seq by {
        let a = if i < at {
            i
        } else {
            i - 1
        };
        let b = if j < at {
            j
        } else {
            j - 1
        };
        if i != at {
            assert(n[i] == ts[a]);
        }
        if j != at {
            assert(n[j] == ts[b]);
        }
    }
}

/// The table stands in a listed file.
pub open spec fn stands_in(t: TableView, dir: Seq<char>, item: (Seq<char>, Seq<u8>)) -> bool {
    is_path(t.path, dir, item.0, t.generation) && t.image == item.1 && faithful(t)
}

/// The table stands in some listed file.
pub open spec fn is_listed(t: TableView, dir: Seq<char>, listing: Seq<(Seq<char>, Seq<u8>)>) -> bool {
    exists|i: int| 0 <= i < listing.len() && stands_in(t, dir, #[trigger] listing[i])
}

/// What is found comes newest first, and is what the listed files read as.
pub proof fn lemma_found_tables(dir: Seq<char>, listing: Seq<(Seq<char>, Seq<u8>)>)
    ensures
        found_tables(dir, listing) matches Ok(ts) ==> newest_first(ts) && forall|i: int|
            0 <= i < ts.len() ==> is_listed(#[trigger] ts[i], dir, listing),
    decreases listing.len(),
{
    if listing.len() > 0 {
        let d = listing.drop_last();
        let (name, content) = listing.last();
        lemma_found_tables(dir, d);
        if found_tables(dir, listing) is Ok {
            let ts = found_tables(dir, listing)->Ok_0;
            let rest = found_tables(dir, d)->Ok_0;
            assert forall|i: int| 0 <= i < rest.len() implies is_listed(
                #[trigger] rest[i],
                dir,
                listing,
            ) by {
                let j = choose|j: int|
                    0 <= j < d.len() && stands_in(rest[i], dir, #[trigger] d[j]);
                assert(stands_in(rest[i], dir, listing[j]));
            }
            match sst_gen(name) {
                None => {},
                Some(generation) => {
                    let t = table_of(joined(dir, name), generation, content)->Ok_0;
                    lemma_placed(rest, t);
                    let at = place_behind(rest, t.max_seq);
                    assert(stands_in(t, dir, listing[listing.len() - 1]));
                    assert forall|i: int| 0 <= i < ts.len() implies is_listed(
                        #[trigger] ts[i],
                        dir,
                        listing,
                    ) by {
                        if i < at {
                            assert(ts[i] == rest[i]);
                        } else if i > at {
                            assert(ts[i] == rest[i - 1]);
                        }
                    }
                },
            }
        }
    }
}

/// Every generation is at most the highest.
pub proof fn lemma_top_gen(ts: Seq<TableView>)
    ensures
        forall|i: int| 0 <= i < ts.len() ==> (#[trigger] ts[i]).generation <= top_gen(ts),
    decreases ts.len(),
{
    if ts.len() > 0 {
        let d = ts.drop_last();
        lemma_top_gen(d);
        assert forall|i: int| 0 <= i < ts.len() implies (#[trigger] ts[i]).generation <= top_gen(
            ts,
        ) by {
            if i < ts.len() - 1 {
                assert(d[i].generation <= top_gen(d));
            }
        }
    }
}

proof fn lemma_since_bounds(rs: Seq<WalRecord>, offset: u64)
    ensures
        forall|i: int|
            0 <= i < since(rs, offset).len() ==> (#[trigger] since(rs, offset)[i]).seq >= offset
                && rs.contains(since(rs, offset)[i]),
    decreases rs.len(),
{
    if rs.len() > 0 {
        let d = rs.drop_last();
        lemma_since_bounds(d, offset);
        let a = since(d, offset);
        let b = since(rs, offset);
        assert forall|i: int| 0 <= i < b.len() implies (#[trigger] b[i]).seq >= offset
            && rs.contains(b[i]) by {
            if i < a.len() {
                assert(b[i] == a[i]);
                let j = d.index_of(a[i]);
                assert(rs[j] == b[i]);
            } else {
                assert(rs[rs.len() - 1] == b[i]);
            }
        }
    }
}

/// No record of a segment that was found is above the highest number, if the
/// segments are intact.
proof fn lemma_replay_numbers(segs: Seq<SegmentView>, ts: Seq<TableView>)
    requires
        all_intact(segs),
        top_seq(ts) < u64::MAX,
    ensures
        forall|i: int|
            0 <= i < to_replay(segs, ts).len() ==> top_seq(ts) < (#[trigger] to_replay(
                segs,
                ts,
            )[i]).seq < first_free(segs, ts),
        forall|i: int|
            0 <= i < to_replay(segs, ts).len() ==> (#[trigger] to_replay(segs, ts)[i]).payload.len()
                <= u32::MAX,
{
    let from = (top_seq(ts) + 1) as u64;
    segment::lemma_reaching_suffices(segs, from);
    let all = all_records(segs);
    let rs = since(all, from);
    assert(to_replay(segs, ts) == rs);
    lemma_since_bounds(all, from);
    segment::lemma_highest_of_all(segs);
    record::lemma_highest(all);
    segment::lemma_all_short(segs);
    assert forall|i: int| 0 <= i < rs.len() implies top_seq(ts) < (#[trigger] rs[i]).seq
        < first_free(segs, ts) by {
        let j = all.index_of(rs[i]);
        assert(all[j].seq <= highest(all).unwrap());
    }
    assert forall|i: int| 0 <= i < rs.len() implies (#[trigger] rs[i]).payload.len()
        <= u32::MAX by {
        let j = all.index_of(rs[i]);
        assert(all[j].payload.len() <= record::MAX_RECORD_BODY);
    }
}

/// An engine that was opened relies on nothing that does not hold.
pub proof fn lemma_opened_wf(
    dir: Seq<char>,
    log_dir: Seq<char>,
    listing: Seq<(Seq<char>, Seq<u8>)>,
    segs: Seq<SegmentView>,
    ts: Seq<TableView>,
    mem: Stamped,
)
    requires
        segment::segments_wf(segs),
        all_intact(segs),
        found_tables(dir, listing) == Ok::<Seq<TableView>, BadTable>(ts),
        can_go_on(segs, ts),
        replayed(Stamped::empty(), to_replay(segs, ts)) == Ok::<Stamped, PayloadFault>(mem),
    ensures
        opened_view(dir, log_dir, segs, ts, mem).wf(),
{
    let n = opened_view(dir, log_dir, segs, ts, mem);
    lemma_found_tables(dir, listing);
    lemma_top_gen(ts);
    lemma_replay_numbers(segs, ts);
    let rs = to_replay(segs, ts);
    let lo = top_seq(ts) + 1;
    let hi = first_free(segs, ts) - 1;
    assert forall|i: int| 0 <= i < rs.len() implies lo <= (#[trigger] rs[i]).seq <= hi by {}
    replay::lemma_replay_bounds(Stamped::empty(), rs, lo, hi);
    assert forall|i: int| 0 <= i < ts.len() implies in_dir(#[trigger] ts[i], dir)
        && ts[i].generation < n.next_gen && faithful(ts[i]) by {
        assert(is_listed(ts[i], dir, listing));
        let j = choose|j: int| 0 <= j < listing.len() && stands_in(ts[i], dir, #[trigger] listing[j]);
        assert(is_path(ts[i].path, dir, listing[j].0, ts[i].generation));
    }
}

// ---- opening again --------------------------------------------------------------------

/// The listing, in whatever order, has one file for each table and no other
/// table file.
pub open spec fn lists_tables(
    dir: Seq<char>,
    listing: Seq<(Seq<char>, Seq<u8>)>,
    ts: Seq<TableView>,
) -> bool {
    &&& names_once(listing)
    &&& forall|i: int|
        0 <= i < listing.len() && sst_gen((#[trigger] listing[i]).0) is Some ==> some_stands_in(
            ts,
            dir,
            listing[i],
        )
    &&& forall|j: int| 0 <= j < ts.len() ==> is_listed(#[trigger] ts[j], dir, listing)
}

/// Some table stands in the file.
pub open spec fn some_stands_in(
    ts: Seq<TableView>,
    dir: Seq<char>,
    item: (Seq<char>, Seq<u8>),
) -> bool {
    exists|j: int| 0 <= j < ts.len() && stands_in(#[trigger] ts[j], dir, item)
}

/// Two tables in one file are one table.
proof fn lemma_one_table(a: TableView, b: TableView, dir: Seq<char>, item: (Seq<char>, Seq<u8>))
    requires
        stands_in(a, dir, item),
        stands_in(b, dir, item),
    ensures
        a == b,
{
}

/// If every table file can be read, what is found are all of them, each once.
proof fn lemma_found_all(
    dir: Seq<char>,
    listing: Seq<(Seq<char>, Seq<u8>)>,
    ts: Seq<TableView>,
)
    requires
        names_once(listing),
        forall|i: int|
            0 <= i < listing.len() && sst_gen((#[trigger] listing[i]).0) is Some ==> some_stands_in(
                ts,
                dir,
                listing[i],
            ),
    ensures
        found_tables(dir, listing) matches Ok(found) && paths_apart(found) && (forall|k: int|
            0 <= k < found.len() ==> ts.contains(#[trigger] found[k])) && (forall|t: TableView|
            ts.contains(t) && #[trigger] is_listed(t, dir, listing) ==> found.contains(t)),
    decreases listing.len(),
{
    if listing.len() == 0 {
        assert forall|t: TableView| !(#[trigger] is_listed(t, dir, listing)) by {}
    } else {
        let d = listing.drop_last();
        let l = listing.len() - 1;
        let (name, content) = listing.last();
        assert forall|i: int, j: int| 0 <= i < j < d.len() implies (#[trigger] d[i]).0 != (
        #[trigger] d[j]).0 by {
            assert(listing[i].0 != listing[j].0);
        }
        assert forall|i: int|
            0 <= i < d.len() && sst_gen((#[trigger] d[i]).0) is Some implies some_stands_in(
            ts,
            dir,
            d[i],
        ) by {
            assert(d[i] == listing[i]);
        }
        lemma_found_all(dir, d, ts);
        lemma_found_tables(dir, d);
        let rest = found_tables(dir, d)->Ok_0;
        match sst_gen(name) {
            None => {
                assert forall|t: TableView| ts.contains(t) && #[trigger] is_listed(
                    t,
                    dir,
                    listing,
                ) implies rest.contains(t) by {
                    let i = choose|i: int|
                        0 <= i < listing.len() && stands_in(t, dir, #[trigger] listing[i]);
                    assert(i != l);
                    assert(d[i] == listing[i]);
                    assert(is_listed(t, dir, d));
                }
            },
            Some(generation) => {
                assert(listing[l] == (name, content));
                assert(some_stands_in(ts, dir, listing[l]));
                let j = choose|j: int| 0 <= j < ts.len() && stands_in(#[trigger] ts[j], dir, listing[l]);
                let t = ts[j];
                assert(table_of(joined(dir, name), generation, content) == Ok::<
                    TableView,
                    TableFault,
                >(t));
                lemma_placed(rest, t);
                let at = place_behind(rest, t.max_seq);
                let found = rest.insert(at, t);
                assert(found_tables(dir, listing) == Ok::<Seq<TableView>, BadTable>(found));
                assert forall|k: int| 0 <= k < rest.len() implies (#[trigger] rest[k]).path
                    != t.path by {
                    assert(is_listed(rest[k], dir, d));
                    let i = choose|i: int|
                        0 <= i < d.len() && stands_in(rest[k], dir, #[trigger] d[i]);
                    assert(listing[i].0 != listing[l].0);
                    if rest[k].path == t.path {
                        text::lemma_joined_injective(dir, listing[i].0, listing[l].0);
                    }
                }
                assert forall|a: int, b: int| 0 <= a < b < found.len() implies (
                #[trigger] found[a]).path != (#[trigger] found[b]).path by {
                    let x = if a < at {
                        a
                    } else {
                        a - 1
                    };
                    let y = if b < at {
                        b
                    } else {
                        b - 1
                    };
                    if a != at {
                        assert(found[a] == rest[x]);
                    }
                    if b != at {
                        assert(found[b] == rest[y]);
                    }
                }
                assert forall|k: int| 0 <= k < found.len() implies ts.contains(
                    #[trigger] found[k],
                ) by {
                    if k < at {
                        assert(found[k] == rest[k]);
                    } else if k > at {
                        assert(found[k] == rest[k - 1]);
                    }
                }
                assert forall|u: TableView| ts.contains(u) && #[trigger] is_listed(
                    u,
                    dir,
                    listing,
                ) implies found.contains(u) by {
                    let i = choose|i: int|
                        0 <= i < listing.len() && stands_in(u, dir, #[trigger] listing[i]);
                    if i == l {
                        lemma_one_table(u, t, dir, listing[l]);
                        assert(found[at] == u);
                    } else {
                        assert(d[i] == listing[i]);
                        assert(is_listed(u, dir, d));
                        let k = rest.index_of(u);
                        if k < at {
                            assert(found[k] == u);
                        } else {
                            assert(found[k + 1] == u);
                        }
                    }
                }
            },
        }
    }
}

/// The first table of a stack that knows a key decides.
pub proof fn lemma_first_decides(ts: Seq<TableView>, key: Seq<u8>) -> (i: int)
    ensures
        stacked(ts).contains_key(key) ==> 0 <= i < ts.len() && ts[i].slots().contains_key(key)
            && stacked(ts)[key] == ts[i].slots()[key],
        !stacked(ts).contains_key(key) ==> i == ts.len(),
        forall|j: int| 0 <= j < i ==> !(#[trigger] ts[j]).slots().contains_key(key),
    decreases ts.len(),
{
    if ts.len() == 0 {
        0
    } else {
        let d = ts.drop_last();
        let i = lemma_first_decides(d, key);
        assert forall|j: int| 0 <= j < i implies !(#[trigger] ts[j]).slots().contains_key(key) by {
            assert(ts[j] == d[j]);
        }
        if stacked(d).contains_key(key) || ts.last().slots().contains_key(key) {
            i
        } else {
            ts.len() as int
        }
    }
}

/// Lists of the same tables, newest first, come to the same.
proof fn lemma_same_stack(a: Seq<TableView>, b: Seq<TableView>)
    requires
        newest_first(a),
        newest_first(b),
        ties_agree(a),
        forall|i: int| 0 <= i < a.len() ==> b.contains(#[trigger] a[i]),
        forall|i: int| 0 <= i < b.len() ==> a.contains(#[trigger] b[i]),
    ensures
        stacked(a) == stacked(b),
        top_seq(a) == top_seq(b),
        top_gen(a) == top_gen(b),
        all_sound(a) ==> all_sound(b),
        ties_agree(b),
{
    assert forall|k: Seq<u8>|
        stacked(a).contains_key(k) == stacked(b).contains_key(k) && (#[trigger] stacked(
            a,
        ).contains_key(k) ==> stacked(a)[k] == stacked(b)[k]) by {
        let i = lemma_first_decides(a, k);
        let j = lemma_first_decides(b, k);
        if i < a.len() {
            assert(b.contains(a[i]));
            let j2 = b.index_of(a[i]);
            assert(b[j2].slots().contains_key(k));
            assert(j <= j2);
            assert(a.contains(b[j]));
            let i2 = a.index_of(b[j]);
            assert(a[i2].slots().contains_key(k));
            assert(i <= i2);
            assert(a[i].max_seq >= a[i2].max_seq);
            assert(b[j].max_seq >= b[j2].max_seq);
            if i < i2 {
                assert(a[i].slots()[k] == a[i2].slots()[k]);
            }
        } else if j < b.len() {
            assert(a.contains(b[j]));
            let i2 = a.index_of(b[j]);
            assert(a[i2].slots().contains_key(k));
        }
    }
    assert(stacked(a) =~= stacked(b));
    if a.len() > 0 {
        assert(b.contains(a[0]));
    }
    if b.len() > 0 {
        assert(a.contains(b[0]));
        let i = a.index_of(b[0]);
        let j = b.index_of(a[0]);
        assert(a[0].max_seq >= a[i].max_seq);
        assert(b[0].max_seq >= b[j].max_seq);
    }
    lemma_top_gen_within(a, b);
    lemma_top_gen_within(b, a);
    if all_sound(a) {
        assert forall|j: int| 0 <= j < b.len() implies (#[trigger] b[j]).sound() by {
            assert(a.contains(b[j]));
            assert(a[a.index_of(b[j])].sound());
        }
    }
    assert forall|i: int, j: int, k: Seq<u8>|
        0 <= i < j < b.len() && b[i].max_seq == b[j].max_seq
            && #[trigger] b[i].slots().contains_key(k)
            && #[trigger] b[j].slots().contains_key(k) implies b[i].slots()[k]
        == b[j].slots()[k] by {
        assert(a.contains(b[i]) && a.contains(b[j]));
        let x = a.index_of(b[i]);
        let y = a.index_of(b[j]);
        assert(a[x].slots().contains_key(k) && a[y].slots().contains_key(k));
        if x < y {
            assert(a[x].slots()[k] == a[y].slots()[k]);
        } else if y < x {
            assert(a[y].slots()[k] == a[x].slots()[k]);
        }
    }
}

proof fn lemma_top_gen_within(a: Seq<TableView>, b: Seq<TableView>)
    requires
        forall|i: int| 0 <= i < a.len() ==> b.contains(#[trigger] a[i]),
    ensures
        top_gen(a) <= top_gen(b),
    decreases a.len(),
{
    if a.len() > 0 {
        let d = a.drop_last();
        assert forall|i: int| 0 <= i < d.len() implies b.contains(#[trigger] d[i]) by {
            assert(b.contains(a[i]));
        }
        lemma_top_gen_within(d, b);
        lemma_top_gen(b);
        assert(b.contains(a[a.len() - 1]));
    }
}

/// The tables are found again, newest first, in whatever order their files are
/// listed.
pub proof fn lemma_tables_found_again(
    dir: Seq<char>,
    listing: Seq<(Seq<char>, Seq<u8>)>,
    ts: Seq<TableView>,
)
    requires
        lists_tables(dir, listing, ts),
        newest_first(ts),
        ties_agree(ts),
    ensures
        found_tables(dir, listing) matches Ok(found) && newest_first(found) && ties_agree(found)
            && stacked(found) == stacked(ts) && top_seq(found) == top_seq(ts) && top_gen(found)
            == top_gen(ts) && (all_sound(ts) ==> all_sound(found)) && paths_apart(found) && (
        forall|i: int| 0 <= i < ts.len() ==> found.contains(#[trigger] ts[i])) && (forall|i: int|
            0 <= i < found.len() ==> ts.contains(#[trigger] found[i])),
{
    lemma_found_all(dir, listing, ts);
    lemma_found_tables(dir, listing);
    let found = found_tables(dir, listing)->Ok_0;
    assert forall|i: int| 0 <= i < ts.len() implies found.contains(#[trigger] ts[i]) by {
        assert(is_listed(ts[i], dir, listing));
    }
    lemma_same_stack(ts, found);
}

/// Contents that agree on every key are the same.
proof fn lemma_same_held(a: Contents, b: Contents)
    requires
        forall|k: Seq<u8>| #[trigger] held(a, k) == held(b, k),
    ensures
        a == b,
{
    assert forall|k: Seq<u8>| #[trigger] a.contains_key(k) implies b.contains_key(k) && a[k]
        == b[k] by {
        assert(held(a, k) == held(b, k));
    }
    assert forall|k: Seq<u8>| #[trigger] b.contains_key(k) implies a.contains_key(k) by {
        assert(held(a, k) == held(b, k));
    }
    assert(a =~= b);
}

/// An engine that is opened on its own files, in whatever order they are
/// listed and whichever segment a crash has left with a torn tail, holds what
/// the engine held that wrote them, and survives being closed again. No file
/// of a table may be in the directory but those of its tables.
pub proof fn lemma_reopened_engine(
    s: LsmView,
    log_listing: Seq<(Seq<char>, Seq<u8>)>,
    listing: Seq<(Seq<char>, Seq<u8>)>,
)
    requires
        s.wf(),
        s.durable(),
        lists(log_listing, s.segs),
        lists_tables(s.dir, listing, s.tables),
        can_go_on(s.segs, s.tables),
    ensures
        opened(log_listing) == s.segs,
        found_tables(s.dir, listing) matches Ok(ts) && can_go_on(s.segs, ts) && (replayed(
            Stamped::empty(),
            to_replay(s.segs, ts),
        ) matches Ok(mem) && {
            let n = opened_view(s.dir, s.log_dir, s.segs, ts, mem);
            n.wf() && n.durable() && n.contents() == s.contents()
        }),
{
    reopen::lemma_reopened(log_listing, s.segs);
    lemma_tables_found_again(s.dir, listing, s.tables);
    let ts = found_tables(s.dir, listing)->Ok_0;
    let from = (top_seq(s.tables) + 1) as u64;
    let log = s.log();
    let rs = since(log, from);
    segment::lemma_reaching_suffices(s.segs, from);
    assert(to_replay(s.segs, ts) == rs);
    assert(to_replay(s.segs, s.tables) == rs);
    let cut = replay::lemma_since_is_tail(log, from);
    assert forall|i: int, j: int| 0 <= i < j < rs.len() implies (#[trigger] rs[i]).seq < (
    #[trigger] rs[j]).seq by {
        assert(log[i + cut].seq < log[j + cut].seq);
    }
    assert forall|i: int| 0 <= i < rs.len() implies is_logged(#[trigger] rs[i]) by {
        assert(is_logged(log[i + cut]));
    }
    replay::lemma_replay_last_write(rs);
    let mem = replayed(Stamped::empty(), rs)->Ok_0;
    let n = opened_view(s.dir, s.log_dir, s.segs, ts, mem);
    lemma_opened_wf(s.dir, s.log_dir, listing, s.segs, ts, mem);
    assert forall|k: Seq<u8>| #[trigger] held(n.contents(), k) == held(s.contents(), k) by {
        if mem.contains_key(k) {
            replay::lemma_last_write_since(log, from, k);
            assert(last_write(log, k) is Some);
            assert(held(n.contents(), k) == mem[k].1);
        } else {
            assert(last_write(rs, k) is None);
            assert(!s.mem.contains_key(k));
        }
    }
    lemma_same_held(n.contents(), s.contents());
    segment::lemma_highest_of_all(s.segs);
    record::lemma_highest(log);
    assert forall|i: int| 0 <= i < n.log().len() implies (#[trigger] n.log()[i]).seq < n.next_seq by {
        assert(log[i].seq <= highest(log).unwrap());
    }
}

} // verus!
