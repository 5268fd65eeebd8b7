//! What a loss of power leaves of the files.
//!
//! Bytes that were added to a file and not made durable may be lost. What a log
//! with durable appends was given is left whatever is lost; so is what any log was
//! given before it was last told to make its entries durable.

use vstd::prelude::*;

use crate::storage::disk::{self, performed, performed_all, EffectView, Files};
use crate::storage::record::{readable, WalRecord};
use crate::storage::segment::{
    self, all_intact, all_records, append_effects, appended, full, grown, next_start,
    rotate_effects, segment_files, segment_name, SegmentView, WalConfig,
};
use crate::text::joined;

verus! {

/// A disk: what each file holds, and how many of its first bytes a loss of power
/// cannot take.
#[verifier::ext_equal]
pub struct Platter {
    pub held: Files,
    pub safe: Map<Seq<char>, int>,
}

/// The disk after one effect.
pub open spec fn after(p: Platter, e: EffectView) -> Platter {
    let held = performed(p.held, e);
    let safe = match e {
        EffectView::Create { file } => p.safe.insert(file, 0),
        EffectView::Append { file, sync, .. } => if sync {
            p.safe.insert(file, held[file].len() as int)
        } else {
            p.safe
        },
        EffectView::Sync { file } => p.safe.insert(file, held[file].len() as int),
        EffectView::Cut { file, .. } => p.safe.insert(file, held[file].len() as int),
        EffectView::Write { file, .. } => p.safe.insert(file, held[file].len() as int),
        EffectView::Remove { file } => p.safe.remove(file),
    };
    Platter { held, safe }
}

/// The disk after a list of effects, carried out in order.
pub open spec fn after_all(p: Platter, es: Seq<EffectView>) -> Platter
    decreases es.len(),
{
    if es.len() == 0 {
        p
    } else {
        after(after_all(p, es.drop_last()), es.last())
    }
}

/// What a loss of power may leave: of each file its safe bytes, and some of those
/// behind them.
pub open spec fn may_leave(p: Platter, left: Files) -> bool {
    &&& left.dom() == p.held.dom()
    &&& forall|f: Seq<char>| #[trigger] left.contains_key(f) ==> leaves_of(p, f, left[f])
}

/// What may be left of one file.
pub open spec fn leaves_of(p: Platter, f: Seq<char>, bytes: Seq<u8>) -> bool {
    exists|n: int|
        0 <= n <= p.held[f].len() && (p.safe.contains_key(f) ==> p.safe[f] <= n) && bytes
            == #[trigger] p.held[f].take(n)
}

/// No byte of the file can be lost.
pub open spec fn is_safe(p: Platter, f: Seq<char>) -> bool {
    p.safe.contains_key(f) && p.safe[f] == p.held[f].len()
}

/// No byte can be lost, except of this file.
pub open spec fn safe_but(p: Platter, file: Seq<char>) -> bool {
    forall|f: Seq<char>| #[trigger] p.held.contains_key(f) && f != file ==> is_safe(p, f)
}

/// No byte can be lost.
pub open spec fn all_safe(p: Platter) -> bool {
    forall|f: Seq<char>| #[trigger] p.held.contains_key(f) ==> is_safe(p, f)
}

/// Where no byte can be lost, everything is left.
pub proof fn lemma_all_left(p: Platter, left: Files)
    requires
        all_safe(p),
        may_leave(p, left),
    ensures
        left == p.held,
{
    assert forall|f: Seq<char>| #[trigger] left.contains_key(f) implies left[f] == p.held[f] by {
        assert(p.held.contains_key(f));
        assert(is_safe(p, f));
        assert(leaves_of(p, f, left[f]));
        let n = choose|n: int|
            0 <= n <= p.held[f].len() && (p.safe.contains_key(f) ==> p.safe[f] <= n) && left[f]
                == #[trigger] p.held[f].take(n);
        assert(p.held[f].take(n) =~= p.held[f]);
    }
    assert(left =~= p.held);
}

/// What is lost changes nothing of what programs read before.
pub proof fn lemma_held(p: Platter, es: Seq<EffectView>)
    ensures
        after_all(p, es).held == performed_all(p.held, es),
    decreases es.len(),
{
    if es.len() > 0 {
        lemma_held(p, es.drop_last());
    }
}

pub proof fn lemma_after_add(p: Platter, a: Seq<EffectView>, b: Seq<EffectView>)
    ensures
        after_all(p, a + b) == after_all(after_all(p, a), b),
    decreases b.len(),
{
    if b.len() == 0 {
        assert(a + b =~= a);
    } else {
        assert((a + b).drop_last() =~= a + b.drop_last());
        lemma_after_add(p, a, b.drop_last());
    }
}

/// The effect leaves nothing behind that could be lost.
pub open spec fn is_durable(e: EffectView) -> bool {
    e matches EffectView::Append { sync, .. } ==> sync
}

/// Effects that leave nothing behind that could be lost keep all safe.
pub proof fn lemma_durable(p: Platter, es: Seq<EffectView>)
    requires
        all_safe(p),
        forall|i: int| 0 <= i < es.len() ==> is_durable(#[trigger] es[i]),
    ensures
        all_safe(after_all(p, es)),
    decreases es.len(),
{
    if es.len() > 0 {
        let d = es.drop_last();
        assert forall|i: int| 0 <= i < d.len() implies is_durable(#[trigger] d[i]) by {
            assert(es[i] == d[i]);
        }
        lemma_durable(p, d);
        let q = after_all(p, d);
        let r = after_all(p, es);
        assert(is_durable(es[es.len() - 1]));
        assert forall|f: Seq<char>| #[trigger] r.held.contains_key(f) implies is_safe(r, f) by {
            if q.held.contains_key(f) {
                assert(is_safe(q, f));
            }
        }
    }
}

// ---- the log -----------------------------------------------------------------------------

/// The segments after records were appended one after another.
pub open spec fn appended_all(segs: Seq<SegmentView>, rs: Seq<WalRecord>, max_bytes: u64) -> Seq<
    SegmentView,
>
    decreases rs.len(),
{
    if rs.len() == 0 {
        segs
    } else {
        appended(appended_all(segs, rs.drop_last(), max_bytes), rs.last(), max_bytes)
    }
}

/// The effects of appending records one after another.
pub open spec fn appends(config: WalConfig, segs: Seq<SegmentView>, rs: Seq<WalRecord>) -> Seq<
    EffectView,
>
    decreases rs.len(),
{
    if rs.len() == 0 {
        seq![]
    } else {
        let d = rs.drop_last();
        appends(config, segs, d) + append_effects(
            config,
            appended_all(segs, d, config.max_segment_bytes),
            rs.last(),
        )
    }
}

/// With durable appends, every effect of an append leaves nothing behind that
/// could be lost, whatever the entry is.
pub proof fn lemma_append_durable(config: WalConfig, segs: Seq<SegmentView>, r: WalRecord)
    requires
        config.sync_on_append,
    ensures
        forall|i: int|
            0 <= i < append_effects(config, segs, r).len() ==> is_durable(
                #[trigger] append_effects(config, segs, r)[i],
            ),
{
    let es = append_effects(config, segs, r);
    let g = grown(segs, r);
    assert forall|i: int| 0 <= i < es.len() implies is_durable(#[trigger] es[i]) by {
        if i > 0 {
            assert(es[i] == rotate_effects(config, g)[i - 1]);
        }
    }
}

proof fn lemma_appended_some(segs: Seq<SegmentView>, rs: Seq<WalRecord>, max_bytes: u64)
    requires
        segs.len() > 0,
    ensures
        appended_all(segs, rs, max_bytes).len() > 0,
    decreases rs.len(),
{
    if rs.len() > 0 {
        lemma_appended_some(segs, rs.drop_last(), max_bytes);
    }
}

/// The files after appends are those of the segments after them.
proof fn lemma_appends_mirror(config: WalConfig, segs: Seq<SegmentView>, rs: Seq<WalRecord>)
    requires
        segs.len() > 0,
    ensures
        performed_all(segment_files(config.dir@, segs), appends(config, segs, rs))
            == segment_files(config.dir@, appended_all(segs, rs, config.max_segment_bytes)),
    decreases rs.len(),
{
    if rs.len() > 0 {
        let d = rs.drop_last();
        let mid = appended_all(segs, d, config.max_segment_bytes);
        lemma_appends_mirror(config, segs, d);
        lemma_appended_some(segs, d, config.max_segment_bytes);
        segment::lemma_append_mirrors(config, mid, rs.last());
        disk::lemma_performed_add(
            segment_files(config.dir@, segs),
            appends(config, segs, d),
            append_effects(config, mid, rs.last()),
        );
    }
}

proof fn lemma_appends_durable(config: WalConfig, segs: Seq<SegmentView>, rs: Seq<WalRecord>)
    requires
        config.sync_on_append,
    ensures
        forall|i: int|
            0 <= i < appends(config, segs, rs).len() ==> is_durable(
                #[trigger] appends(config, segs, rs)[i],
            ),
    decreases rs.len(),
{
    if rs.len() > 0 {
        let d = rs.drop_last();
        let mid = appended_all(segs, d, config.max_segment_bytes);
        let a = appends(config, segs, d);
        let b = append_effects(config, mid, rs.last());
        lemma_appends_durable(config, segs, d);
        lemma_append_durable(config, mid, rs.last());
        assert forall|i: int| 0 <= i < (a + b).len() implies is_durable(#[trigger] (a + b)[i]) by {
            if i < a.len() {
                assert((a + b)[i] == a[i]);
            } else {
                assert((a + b)[i] == b[i - a.len()]);
            }
        }
    }
}

/// Entries that can be read back are all there, in order, in the segments after
/// they were appended.
pub proof fn lemma_appended_records(segs: Seq<SegmentView>, rs: Seq<WalRecord>, max_bytes: u64)
    requires
        segs.len() > 0,
        all_intact(segs),
        forall|i: int| 0 <= i < rs.len() ==> readable(#[trigger] rs[i]),
    ensures
        all_intact(appended_all(segs, rs, max_bytes)),
        all_records(appended_all(segs, rs, max_bytes)) == all_records(segs) + rs,
    decreases rs.len(),
{
    if rs.len() == 0 {
        assert(all_records(segs) + rs =~= all_records(segs));
    } else {
        let d = rs.drop_last();
        assert forall|i: int| 0 <= i < d.len() implies readable(#[trigger] d[i]) by {
            assert(rs[i] == d[i]);
        }
        lemma_appended_records(segs, d, max_bytes);
        lemma_appended_some(segs, d, max_bytes);
        assert(readable(rs[rs.len() - 1]));
        let mid = appended_all(segs, d, max_bytes);
        segment::lemma_one_appended(mid, rs.last(), max_bytes);
        assert((all_records(segs) + d).push(rs.last()) =~= all_records(segs) + rs);
    }
}

/// With durable appends whatever was appended is left by a loss of power: the
/// files are those of the segments with all of the entries.
pub proof fn lemma_appends_survive(
    config: WalConfig,
    segs: Seq<SegmentView>,
    rs: Seq<WalRecord>,
    p: Platter,
    left: Files,
)
    requires
        config.sync_on_append,
        segs.len() > 0,
        p.held == segment_files(config.dir@, segs),
        all_safe(p),
        may_leave(after_all(p, appends(config, segs, rs)), left),
    ensures
        left == segment_files(config.dir@, appended_all(segs, rs, config.max_segment_bytes)),
        all_intact(segs) && (forall|i: int| 0 <= i < rs.len() ==> readable(#[trigger] rs[i]))
            ==> all_records(appended_all(segs, rs, config.max_segment_bytes)) == all_records(segs)
            + rs,
{
    let es = appends(config, segs, rs);
    lemma_appends_durable(config, segs, rs);
    lemma_durable(p, es);
    lemma_all_left(after_all(p, es), left);
    lemma_held(p, es);
    lemma_appends_mirror(config, segs, rs);
    if all_intact(segs) && (forall|i: int| 0 <= i < rs.len() ==> readable(#[trigger] rs[i])) {
        lemma_appended_records(segs, rs, config.max_segment_bytes);
    }
}

/// Of a log only the active segment can lose anything: another one is made durable
/// before it is cut.
pub proof fn lemma_append_keeps_safe(
    config: WalConfig,
    segs: Seq<SegmentView>,
    r: WalRecord,
    p: Platter,
)
    requires
        segs.len() > 0,
        safe_but(p, joined(config.dir@, segs.last().name)),
    ensures
        safe_but(
            after_all(p, append_effects(config, segs, r)),
            joined(config.dir@, appended(segs, r, config.max_segment_bytes).last().name),
        ),
{
    let es = append_effects(config, segs, r);
    let g = grown(segs, r);
    let file = joined(config.dir@, segs.last().name);
    let write = es[0];
    let q = after(p, write);
    assert(es.take(1) =~= seq![write]);
    assert(seq![write].drop_last() =~= Seq::<EffectView>::empty());
    assert(after_all(p, seq![write].drop_last()) == p);
    assert(after_all(p, seq![write]) == q);
    assert(safe_but(q, file)) by {
        assert forall|f: Seq<char>| #[trigger] q.held.contains_key(f) && f != file implies is_safe(
            q,
            f,
        ) by {
            assert(p.held.contains_key(f));
            assert(is_safe(p, f));
        }
    }
    if full(g, config.max_segment_bytes) {
        let rot = rotate_effects(config, g);
        let s = after(q, rot[0]);
        let t = after(s, rot[1]);
        assert(es =~= seq![write] + rot);
        lemma_after_add(p, seq![write], rot);
        assert(rot.drop_last() =~= seq![rot[0]]);
        assert(seq![rot[0]].drop_last() =~= Seq::<EffectView>::empty());
        assert(after_all(q, seq![rot[0]].drop_last()) == q);
        assert(after_all(q, seq![rot[0]]) == s);
        assert(rot.last() == rot[1]);
        assert(after_all(q, rot) == t);
        let new = joined(config.dir@, segment_name(next_start(g) as u64));
        assert forall|f: Seq<char>| #[trigger] t.held.contains_key(f) && f != new implies is_safe(
            t,
            f,
        ) by {
            assert(q.held.contains_key(f) || f == file);
            if f != file {
                assert(is_safe(q, f));
            }
        }
    } else {
        assert(es =~= seq![write]);
    }
}

/// Once a log was told to make its entries durable, nothing is lost of it, whether
/// its appends are durable or not.
pub proof fn lemma_sync_saves(
    config: WalConfig,
    segs: Seq<SegmentView>,
    rs: Seq<WalRecord>,
    p: Platter,
    left: Files,
)
    requires
        segs.len() > 0,
        p.held == segment_files(config.dir@, segs),
        all_safe(p),
        ({
            let now = appended_all(segs, rs, config.max_segment_bytes);
            let sync = EffectView::Sync { file: joined(config.dir@, now.last().name) };
            may_leave(after(after_all(p, appends(config, segs, rs)), sync), left)
        }),
    ensures
        left == segment_files(config.dir@, appended_all(segs, rs, config.max_segment_bytes)),
{
    let now = appended_all(segs, rs, config.max_segment_bytes);
    let file = joined(config.dir@, now.last().name);
    let q = after_all(p, appends(config, segs, rs));
    let r = after(q, EffectView::Sync { file });
    lemma_appends_safe(config, segs, rs, p);
    assert forall|f: Seq<char>| #[trigger] r.held.contains_key(f) implies is_safe(r, f) by {
        assert(q.held.contains_key(f));
        if f != file {
            assert(is_safe(q, f));
        }
    }
    lemma_all_left(r, left);
    lemma_held(p, appends(config, segs, rs));
    lemma_appends_mirror(config, segs, rs);
}

proof fn lemma_appends_safe(
    config: WalConfig,
    segs: Seq<SegmentView>,
    rs: Seq<WalRecord>,
    p: Platter,
)
    requires
        segs.len() > 0,
        safe_but(p, joined(config.dir@, segs.last().name)),
    ensures
        safe_but(
            after_all(p, appends(config, segs, rs)),
            joined(
                config.dir@,
                appended_all(segs, rs, config.max_segment_bytes).last().name,
            ),
        ),
    decreases rs.len(),
{
    if rs.len() > 0 {
        let d = rs.drop_last();
        let mid = appended_all(segs, d, config.max_segment_bytes);
        lemma_appends_safe(config, segs, d, p);
        lemma_appended_some(segs, d, config.max_segment_bytes);
        let q = after_all(p, appends(config, segs, d));
        lemma_append_keeps_safe(config, mid, rs.last(), q);
        lemma_after_add(
            p,
            appends(config, segs, d),
            append_effects(config, mid, rs.last()),
        );
    }
}

} // verus!
