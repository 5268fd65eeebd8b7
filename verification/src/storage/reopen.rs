//! Opening the log again on the files it left.

use vstd::prelude::*;

use crate::storage::disk::{self, performed, performed_all, EffectView, Files};
use crate::storage::record::{self, readable, record_bytes, WalRecord};
use crate::storage::segment::{
    appended, distinct_names, found_in, full, grown, in_order, lemma_found_wf, lemma_next_start,
    lemma_place_of, lemma_split, next_start, open_effects, opened, place_of, reaching, segment_start, segments_wf,
    truncated, SegmentView,
};
use crate::text::{self, joined};

verus! {

/// Every segment starts after the ones ahead of it.
pub open spec fn strictly_in_order(segs: Seq<SegmentView>) -> bool {
    forall|i: int, j: int|
        0 <= i < j < segs.len() ==> (#[trigger] segs[i]).start < (#[trigger] segs[j]).start
}

/// Recovery makes the segment `seg` of a file with its name and this content.
pub open spec fn recovers_to(content: Seq<u8>, seg: SegmentView) -> bool {
    SegmentView::recovered(seg.name, seg.start, content) == seg
}

/// No name is listed twice.
pub open spec fn names_once(listing: Seq<(Seq<char>, Seq<u8>)>) -> bool {
    forall|i: int, j: int|
        0 <= i < j < listing.len() ==> (#[trigger] listing[i]).0 != (#[trigger] listing[j]).0
}

/// The listing, in whatever order, has one file for each segment, from which
/// that segment is recovered, and no other segment file.
pub open spec fn lists(listing: Seq<(Seq<char>, Seq<u8>)>, segs: Seq<SegmentView>) -> bool {
    &&& names_once(listing)
    &&& forall|i: int|
        0 <= i < listing.len() && segment_start((#[trigger] listing[i]).0) is Some ==> exists|
            j: int,
        |
            0 <= j < segs.len() && (#[trigger] segs[j]).name == listing[i].0 && recovers_to(
                listing[i].1,
                segs[j],
            )
    &&& forall|j: int|
        0 <= j < segs.len() ==> exists|i: int|
            0 <= i < listing.len() && (#[trigger] listing[i]).0 == (#[trigger] segs[j]).name
                && recovers_to(listing[i].1, segs[j])
}

/// An intact segment is recovered from its own file.
pub proof fn lemma_intact_recovers(seg: SegmentView)
    requires
        seg.intact(),
    ensures
        recovers_to(seg.image, seg),
{
    assert(seg.image.take(seg.image.len() as int) =~= seg.image);
}

/// An intact segment is recovered from its file even if a crash cut a write to
/// it short.
pub proof fn lemma_torn_recovers(seg: SegmentView, r: WalRecord, cut: int)
    requires
        seg.intact(),
        readable(r),
        0 <= cut < record_bytes(r).len(),
    ensures
        recovers_to(seg.image + record_bytes(r).take(cut), seg),
{
    let t = record_bytes(r).take(cut);
    record::lemma_torn_tail(seg.image, r, cut);
    assert((seg.image + t).take(seg.image.len() as int) =~= seg.image);
}

/// A file whose bytes behind its records make no record recovers to the
/// segment of those records.
pub proof fn lemma_damaged_recovers(seg: SegmentView, tail: Seq<u8>)
    requires
        seg.intact(),
        record::record_at(seg.image + tail, seg.image.len() as int) is None,
    ensures
        recovers_to(seg.image + tail, seg),
{
    record::lemma_tail_ignored(seg.image, tail);
    assert((seg.image + tail).take(seg.image.len() as int) =~= seg.image);
}

/// The segment that recovery makes of a listed file.
spec fn made_of(item: (Seq<char>, Seq<u8>)) -> SegmentView {
    SegmentView::recovered(item.0, segment_start(item.0).unwrap(), item.1)
}

/// `x` is made of some listed segment file.
spec fn stems_from(x: SegmentView, listing: Seq<(Seq<char>, Seq<u8>)>) -> bool {
    exists|i: int|
        0 <= i < listing.len() && segment_start((#[trigger] listing[i]).0) is Some && x == made_of(
            listing[i],
        )
}

proof fn lemma_stems_more(
    x: SegmentView,
    prior: Seq<(Seq<char>, Seq<u8>)>,
    item: (Seq<char>, Seq<u8>),
)
    requires
        stems_from(x, prior),
    ensures
        stems_from(x, prior.push(item)),
{
    let i = choose|i: int|
        0 <= i < prior.len() && segment_start((#[trigger] prior[i]).0) is Some && x == made_of(
            prior[i],
        );
    assert(prior.push(item)[i] == prior[i]);
}

/// What the last file adds to what is found.
proof fn lemma_found_next(listing: Seq<(Seq<char>, Seq<u8>)>) -> (at: int)
    requires
        listing.len() > 0,
    ensures
        0 <= at <= found_in(listing.drop_last()).len(),
        found_in(listing) == (if segment_start(listing.last().0) is Some {
            found_in(listing.drop_last()).insert(at, made_of(listing.last()))
        } else {
            found_in(listing.drop_last())
        }),
{
    let rest = found_in(listing.drop_last());
    match segment_start(listing.last().0) {
        Some(start) => {
            lemma_found_wf(listing.drop_last());
            lemma_place_of(rest, start);
            place_of(rest, start)
        },
        None => 0,
    }
}

/// What is found of a listed file.
proof fn lemma_found_has(listing: Seq<(Seq<char>, Seq<u8>)>, i: int)
    requires
        0 <= i < listing.len(),
        segment_start(listing[i].0) is Some,
    ensures
        found_in(listing).contains(made_of(listing[i])),
    decreases listing.len(),
{
    let prior = listing.drop_last();
    let rest = found_in(prior);
    let found = found_in(listing);
    let at = lemma_found_next(listing);
    let y = made_of(listing[i]);
    if i < prior.len() {
        assert(prior[i] == listing[i]);
        lemma_found_has(prior, i);
        let k = rest.index_of(y);
        if segment_start(listing.last().0) is Some {
            if k < at {
                assert(found[k] == y);
            } else {
                assert(found[k + 1] == y);
            }
        }
    } else {
        assert(found[at] == y);
    }
}

/// What is found stems from a listed file.
proof fn lemma_found_stems(listing: Seq<(Seq<char>, Seq<u8>)>, k: int)
    requires
        0 <= k < found_in(listing).len(),
    ensures
        stems_from(found_in(listing)[k], listing),
    decreases listing.len(),
{
    if listing.len() > 0 {
        let prior = listing.drop_last();
        let found = found_in(listing);
        let at = lemma_found_next(listing);
        let n = listing.len() - 1;
        assert(listing =~= prior.push(listing[n]));
        if segment_start(listing.last().0) is Some && k == at {
            assert(found[k] == made_of(listing[n]));
        } else {
            let j = if segment_start(listing.last().0) is Some && k > at {
                k - 1
            } else {
                k
            };
            lemma_found_stems(prior, j);
            assert(found[k] == found_in(prior)[j]);
            lemma_stems_more(found[k], prior, listing[n]);
        }
    }
}

/// What is found of files with names of their own has names of its own.
proof fn lemma_found_distinct(listing: Seq<(Seq<char>, Seq<u8>)>)
    requires
        names_once(listing),
    ensures
        distinct_names(found_in(listing)),
    decreases listing.len(),
{
    if listing.len() > 0 {
        let prior = listing.drop_last();
        let rest = found_in(prior);
        let found = found_in(listing);
        let at = lemma_found_next(listing);
        assert forall|i: int, j: int| 0 <= i < j < prior.len() implies (#[trigger] prior[i]).0 != (
        #[trigger] prior[j]).0 by {
            assert(listing[i].0 != listing[j].0);
        }
        lemma_found_distinct(prior);
        if segment_start(listing.last().0) is Some {
            assert forall|k: int| 0 <= k < rest.len() implies stems_from(
                #[trigger] rest[k],
                prior,
            ) by {
                lemma_found_stems(prior, k);
            }
            lemma_name_apart(rest, listing);
            let x = made_of(listing.last());
            assert(x.name == listing.last().0);
            assert forall|i: int, j: int| 0 <= i < j < found.len() implies (
            #[trigger] found[i]).name != (#[trigger] found[j]).name by {
                let i2 = if i < at { i } else { i - 1 };
                let j2 = if j < at { j } else { j - 1 };
                if i == at {
                    assert(found[j] == rest[j2]);
                } else if j == at {
                    assert(found[i] == rest[i2]);
                } else {
                    assert(found[i] == rest[i2] && found[j] == rest[j2]);
                    assert(rest[i2].name != rest[j2].name);
                }
            }
        }
    }
}

/// What is found are the recovered segments of the listed files.
proof fn lemma_found_members(listing: Seq<(Seq<char>, Seq<u8>)>)
    ensures
        forall|i: int|
            0 <= i < listing.len() && segment_start((#[trigger] listing[i]).0) is Some
                ==> found_in(listing).contains(made_of(listing[i])),
        forall|k: int|
            0 <= k < found_in(listing).len() ==> stems_from(
                #[trigger] found_in(listing)[k],
                listing,
            ),
        names_once(listing) ==> distinct_names(found_in(listing)),
{
    assert forall|i: int|
        0 <= i < listing.len() && segment_start(
            (#[trigger] listing[i]).0,
        ) is Some implies found_in(listing).contains(made_of(listing[i])) by {
        lemma_found_has(listing, i);
    }
    assert forall|k: int| 0 <= k < found_in(listing).len() implies stems_from(
        #[trigger] found_in(listing)[k],
        listing,
    ) by {
        lemma_found_stems(listing, k);
    }
    if names_once(listing) {
        lemma_found_distinct(listing);
    }
}

/// Segments of the files ahead of the last one do not have its name.
proof fn lemma_name_apart(rest: Seq<SegmentView>, listing: Seq<(Seq<char>, Seq<u8>)>)
    requires
        listing.len() > 0,
        names_once(listing),
        forall|k: int|
            0 <= k < rest.len() ==> stems_from(#[trigger] rest[k], listing.drop_last()),
    ensures
        forall|k: int| 0 <= k < rest.len() ==> (#[trigger] rest[k]).name != listing.last().0,
{
    let prior = listing.drop_last();
    let n = listing.len() - 1;
    assert forall|k: int| 0 <= k < rest.len() implies (#[trigger] rest[k]).name
        != listing.last().0 by {
        let i = choose|i: int|
            0 <= i < prior.len() && segment_start((#[trigger] prior[i]).0) is Some && rest[k]
                == made_of(prior[i]);
        assert(listing[i].0 != listing[n].0);
    }
}

/// Two lists in strict order with the same members are the same list.
proof fn lemma_same_members(a: Seq<SegmentView>, b: Seq<SegmentView>)
    requires
        strictly_in_order(a),
        strictly_in_order(b),
        forall|i: int| 0 <= i < a.len() ==> b.contains(#[trigger] a[i]),
        forall|i: int| 0 <= i < b.len() ==> a.contains(#[trigger] b[i]),
    ensures
        a == b,
    decreases a.len(),
{
    if a.len() == 0 {
        if b.len() > 0 {
            assert(a.contains(b[0]));
        }
        assert(a =~= b);
    } else {
        let n = a.len() - 1;
        assert(b.contains(a[n]));
        let m = b.len() - 1;
        let p = choose|p: int| 0 <= p < b.len() && b[p] == a[n];
        assert(a.contains(b[m]));
        let q = choose|q: int| 0 <= q < a.len() && a[q] == b[m];
        assert(p == m) by {
            if p < m {
                assert(b[p].start < b[m].start);
                if q < n {
                    assert(a[q].start < a[n].start);
                }
            }
        }
        let a2 = a.drop_last();
        let b2 = b.drop_last();
        assert forall|i: int| 0 <= i < a2.len() implies b2.contains(#[trigger] a2[i]) by {
            assert(a2[i] == a[i]);
            let k = choose|k: int| 0 <= k < b.len() && b[k] == a[i];
            assert(a[i].start < a[n].start);
            assert(k != m);
            assert(b2[k] == a2[i]);
        }
        assert forall|i: int| 0 <= i < b2.len() implies a2.contains(#[trigger] b2[i]) by {
            assert(b2[i] == b[i]);
            let k = choose|k: int| 0 <= k < a.len() && a[k] == b[i];
            assert(b[i].start < b[m].start);
            assert(k != n);
            assert(a2[k] == b2[i]);
        }
        assert(strictly_in_order(a2)) by {
            assert forall|i: int, j: int| 0 <= i < j < a2.len() implies (#[trigger] a2[i]).start
                < (#[trigger] a2[j]).start by {
                assert(a[i].start < a[j].start);
            }
        }
        assert(strictly_in_order(b2)) by {
            assert forall|i: int, j: int| 0 <= i < j < b2.len() implies (#[trigger] b2[i]).start
                < (#[trigger] b2[j]).start by {
                assert(b[i].start < b[j].start);
            }
        }
        lemma_same_members(a2, b2);
        assert(a =~= a2.push(a[n]));
        assert(b =~= b2.push(b[m]));
    }
}

/// A log that is opened on its own files, in whatever order they are listed
/// and whichever of them a crash has left with a torn tail, is the log that
/// wrote them: the same segments and so the same entries.
pub proof fn lemma_reopened(listing: Seq<(Seq<char>, Seq<u8>)>, segs: Seq<SegmentView>)
    requires
        segments_wf(segs),
        strictly_in_order(segs),
        lists(listing, segs),
    ensures
        opened(listing) == segs,
{
    let found = found_in(listing);
    lemma_found_members(listing);
    lemma_found_wf(listing);
    assert forall|k: int| 0 <= k < found.len() implies segs.contains(#[trigger] found[k]) by {
        let i = choose|i: int|
            0 <= i < listing.len() && segment_start((#[trigger] listing[i]).0) is Some && found[k]
                == made_of(listing[i]);
        let j = choose|j: int|
            0 <= j < segs.len() && (#[trigger] segs[j]).name == listing[i].0 && recovers_to(
                listing[i].1,
                segs[j],
            );
        assert(segs[j].wf());
        assert(segs[j] == found[k]);
    }
    assert forall|j: int| 0 <= j < segs.len() implies found.contains(#[trigger] segs[j]) by {
        let i = choose|i: int|
            0 <= i < listing.len() && (#[trigger] listing[i]).0 == segs[j].name && recovers_to(
                listing[i].1,
                segs[j],
            );
        assert(segs[j].wf());
        assert(segment_start(listing[i].0) is Some);
    }
    assert(strictly_in_order(found)) by {
        assert forall|a: int, b: int| 0 <= a < b < found.len() implies (#[trigger] found[a]).start
            < (#[trigger] found[b]).start by {
            assert(found[a].name != found[b].name);
            let i = choose|i: int| 0 <= i < segs.len() && segs[i] == found[a];
            let j = choose|j: int| 0 <= j < segs.len() && segs[j] == found[b];
            assert(i != j);
            if i < j {
                assert(segs[i].start < segs[j].start);
            } else {
                assert(segs[j].start < segs[i].start);
            }
        }
    }
    lemma_same_members(found, segs);
}

/// Appending keeps every segment after the ones ahead of it.
pub proof fn lemma_appended_strict(segs: Seq<SegmentView>, r: WalRecord, max_bytes: u64)
    requires
        segments_wf(segs),
        strictly_in_order(segs),
        full(grown(segs, r), max_bytes) ==> next_start(grown(segs, r)) <= u64::MAX,
    ensures
        strictly_in_order(appended(segs, r, max_bytes)),
{
    let g = grown(segs, r);
    assert forall|i: int, j: int| 0 <= i < j < g.len() implies (#[trigger] g[i]).start < (
    #[trigger] g[j]).start by {
        assert(segs[i].start < segs[j].start);
    }
    assert(in_order(g)) by {
        assert forall|i: int, j: int| 0 <= i < j < g.len() implies (#[trigger] g[i]).start <= (
        #[trigger] g[j]).start by {
            assert(segs[i].start <= segs[j].start);
        }
    }
    lemma_next_start(g);
}

/// Discarding keeps every segment after the ones ahead of it.
pub proof fn lemma_truncated_strict(segs: Seq<SegmentView>, before: u64)
    requires
        segments_wf(segs),
        strictly_in_order(segs),
    ensures
        strictly_in_order(truncated(segs, before)),
{
    let rest = segs.drop_last();
    let l = segs.last();
    let kept = reaching(rest, before);
    assert(strictly_in_order(rest)) by {
        assert forall|i: int, j: int| 0 <= i < j < rest.len() implies (#[trigger] rest[i]).start
            < (#[trigger] rest[j]).start by {
            assert(segs[i].start < segs[j].start);
        }
    }
    lemma_split(rest, before);
    lemma_reaching_strict(rest, before);
    assert forall|i: int| 0 <= i < kept.len() implies (#[trigger] kept[i]).start < l.start by {
        let j = choose|j: int| 0 <= j < rest.len() && rest[j] == kept[i];
        assert(segs[j].start < segs[segs.len() - 1].start);
    }
}

proof fn lemma_reaching_strict(segs: Seq<SegmentView>, offset: u64)
    requires
        strictly_in_order(segs),
    ensures
        strictly_in_order(reaching(segs, offset)),
    decreases segs.len(),
{
    if segs.len() > 0 {
        let rest = segs.drop_last();
        let l = segs.last();
        assert(strictly_in_order(rest)) by {
            assert forall|i: int, j: int| 0 <= i < j < rest.len() implies (
            #[trigger] rest[i]).start < (#[trigger] rest[j]).start by {
                assert(segs[i].start < segs[j].start);
            }
        }
        lemma_reaching_strict(rest, offset);
        lemma_split(rest, offset);
        let kept = reaching(rest, offset);
        assert forall|i: int| 0 <= i < kept.len() implies (#[trigger] kept[i]).start < l.start by {
            let j = choose|j: int| 0 <= j < rest.len() && rest[j] == kept[i];
            assert(segs[j].start < segs[segs.len() - 1].start);
        }
    }
}

// ---- opening ---------------------------------------------------------------------------------

/// The files have what is listed of segments.
pub open spec fn files_as_listed(
    files: Files,
    dir: Seq<char>,
    listing: Seq<(Seq<char>, Seq<u8>)>,
) -> bool {
    forall|i: int|
        0 <= i < listing.len() && segment_start((#[trigger] listing[i]).0) is Some
            ==> files.contains_key(joined(dir, listing[i].0)) && files[joined(dir, listing[i].0)]
            == listing[i].1
}

/// What a found segment is made of stands in its file.
proof fn lemma_found_file(
    files: Files,
    dir: Seq<char>,
    listing: Seq<(Seq<char>, Seq<u8>)>,
    k: int,
)
    requires
        files_as_listed(files, dir, listing),
        0 <= k < found_in(listing).len(),
    ensures
        ({
            let s = found_in(listing)[k];
            let f = joined(dir, s.name);
            &&& files.contains_key(f)
            &&& s.image.len() <= files[f].len()
            &&& files[f].take(s.image.len() as int) == s.image
        }),
{
    lemma_found_stems(listing, k);
    let s = found_in(listing)[k];
    let i = choose|i: int|
        0 <= i < listing.len() && segment_start((#[trigger] listing[i]).0) is Some && s == made_of(
            listing[i],
        );
    record::lemma_good_end_bounds(listing[i].1, 0);
}

proof fn lemma_cuts_so_far(
    files: Files,
    dir: Seq<char>,
    listing: Seq<(Seq<char>, Seq<u8>)>,
    n: int,
)
    requires
        names_once(listing),
        files_as_listed(files, dir, listing),
        0 <= n <= found_in(listing).len(),
    ensures
        ({
            let found = found_in(listing);
            let now = performed_all(files, open_effects(dir, found).take(n));
            &&& found.len() > 0 ==> forall|k: int|
                0 <= k < found.len() ==> now.contains_key(joined(dir, (#[trigger] found[k]).name))
                    && now[joined(dir, found[k].name)] == (if k < n {
                    found[k].image
                } else {
                    files[joined(dir, found[k].name)]
                })
            &&& found.len() > 0 ==> now.dom() == files.dom()
            &&& found.len() > 0 ==> forall|f: Seq<char>|
                (forall|k: int| 0 <= k < found.len() ==> f != joined(dir, (#[trigger] found[k]).name))
                    ==> #[trigger] now[f] == files[f]
        }),
    decreases n,
{
    let found = found_in(listing);
    let es = open_effects(dir, found);
    if found.len() > 0 {
        assert forall|k: int| 0 <= k < found.len() implies files.contains_key(
            joined(dir, (#[trigger] found[k]).name),
        ) && found[k].image.len() <= files[joined(dir, found[k].name)].len() && files[joined(
            dir,
            found[k].name,
        )].take(found[k].image.len() as int) == found[k].image by {
            lemma_found_file(files, dir, listing, k);
        }
        if n == 0 {
            assert(es.take(0) =~= Seq::<EffectView>::empty());
        } else {
            lemma_cuts_so_far(files, dir, listing, n - 1);
            lemma_found_distinct(listing);
            let was = performed_all(files, es.take(n - 1));
            let now = performed_all(files, es.take(n));
            assert(es.take(n).drop_last() =~= es.take(n - 1));
            assert(es.take(n).last() == es[n - 1]);
            let file = joined(dir, found[n - 1].name);
            assert(now == performed(was, es[n - 1]));
            assert(found[n - 1].name == found[n - 1].name);
            assert(was.contains_key(file));
            assert(now.dom() =~= files.dom());
            assert forall|k: int| 0 <= k < found.len() implies now.contains_key(
                joined(dir, (#[trigger] found[k]).name),
            ) && now[joined(dir, found[k].name)] == (if k < n {
                found[k].image
            } else {
                files[joined(dir, found[k].name)]
            }) by {
                if k != n - 1 {
                    if k < n - 1 {
                        assert(found[k].name != found[n - 1].name);
                    } else {
                        assert(found[n - 1].name != found[k].name);
                    }
                    if joined(dir, found[k].name) == file {
                        text::lemma_joined_injective(dir, found[k].name, found[n - 1].name);
                    }
                }
            }
            assert forall|f: Seq<char>|
                (forall|k: int| 0 <= k < found.len() ==> f != joined(dir, (#[trigger] found[k]).name))
                    implies #[trigger] now[f] == files[f] by {
                assert(f != joined(dir, found[n - 1].name));
                assert(was[f] == files[f]);
            }
        }
    }
}

/// Opening a log makes its files what the log takes them to be: each is cut back to its
/// records, so that what is appended stands right behind them, and other files are
/// left alone; an empty directory gets a first segment.
pub proof fn lemma_opening_cuts(files: Files, dir: Seq<char>, listing: Seq<(Seq<char>, Seq<u8>)>, k: int)
    requires
        names_once(listing),
        files_as_listed(files, dir, listing),
        0 <= k < opened(listing).len(),
    ensures
        ({
            let now = performed_all(files, open_effects(dir, found_in(listing)));
            let f = joined(dir, opened(listing)[k].name);
            now.contains_key(f) && now[f] == opened(listing)[k].image
        }),
        found_in(listing).len() > 0 ==> performed_all(
            files,
            open_effects(dir, found_in(listing)),
        ).dom() == files.dom(),
{
    let found = found_in(listing);
    let n = found.len() as int;
    let es = open_effects(dir, found);
    if n > 0 {
        lemma_cuts_so_far(files, dir, listing, n);
        assert(es.take(n) =~= es);
        assert(found[k].name == opened(listing)[k].name);
    } else {
        assert(es =~= seq![es[0]]);
        disk::lemma_performed_one(files, es[0]);
    }
}

} // verus!
