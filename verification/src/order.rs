//! The order of keys: bytes compared from the left, and a proper prefix first.

use bytes::Bytes;
use vstd::prelude::*;

use crate::buffer::{self, octets};

verus! {

/// `a` and `b` agree on their first `i` bytes.
pub open spec fn agree_up_to(a: Seq<u8>, b: Seq<u8>, i: int) -> bool {
    0 <= i <= a.len() && i <= b.len() && forall|j: int| 0 <= j < i ==> a[j] == b[j]
}

/// `a` and `b` agree on their first `i` bytes, and there `a` ends or has the smaller byte.
pub open spec fn splits_at(a: Seq<u8>, b: Seq<u8>, i: int) -> bool {
    agree_up_to(a, b, i) && i < b.len() && (i == a.len() || a[i] < b[i])
}

/// `a` comes strictly before `b`.
#[verifier::opaque]
pub open spec fn before(a: Seq<u8>, b: Seq<u8>) -> bool {
    exists|i: int| splits_at(a, b, i)
}

/// No sequence comes before itself.
pub proof fn lemma_before_irreflexive(a: Seq<u8>)
    ensures
        !before(a, a),
{
    reveal(before);
}

/// The order is transitive.
pub proof fn lemma_before_transitive(a: Seq<u8>, b: Seq<u8>, c: Seq<u8>)
    requires
        before(a, b),
        before(b, c),
    ensures
        before(a, c),
{
    reveal(before);
    let i = choose|i: int| splits_at(a, b, i);
    let j = choose|j: int| splits_at(b, c, j);
    if i <= j {
        assert(splits_at(a, c, i));
    } else {
        assert(splits_at(a, c, j));
    }
}

/// Of two different sequences one comes before the other.
pub proof fn lemma_before_total(a: Seq<u8>, b: Seq<u8>)
    ensures
        a == b || before(a, b) || before(b, a),
{
    let i = lemma_common_prefix(a, b, 0);
    reveal(before);
    if i == a.len() && i == b.len() {
        assert(a =~= b);
    } else if i == b.len() || (i < a.len() && b[i] < a[i]) {
        assert(splits_at(b, a, i));
    } else {
        assert(splits_at(a, b, i));
    }
}

/// The order has no cycle of two.
pub proof fn lemma_before_asymmetric(a: Seq<u8>, b: Seq<u8>)
    requires
        before(a, b),
    ensures
        !before(b, a),
        a != b,
{
    if before(b, a) {
        lemma_before_transitive(a, b, a);
    }
    lemma_before_irreflexive(a);
}

/// The first place, from `from` on, where `a` and `b` part or one of them ends.
proof fn lemma_common_prefix(a: Seq<u8>, b: Seq<u8>, from: int) -> (i: int)
    requires
        agree_up_to(a, b, from),
    ensures
        agree_up_to(a, b, i),
        i == a.len() || i == b.len() || a[i] != b[i],
    decreases a.len() - from,
{
    if from == a.len() || from == b.len() || a[from] != b[from] {
        from
    } else {
        lemma_common_prefix(a, b, from + 1)
    }
}

/// Whether `a` comes strictly before `b`.
pub fn is_before(a: &[u8], b: &[u8]) -> (r: bool)
    ensures
        r == before(a@, b@),
{
    let mut i: usize = 0;
    while i < a.len() && i < b.len() && a[i] == b[i]
        invariant
            agree_up_to(a@, b@, i as int),
        decreases a.len() - i,
    {
        i += 1;
    }
    let r = i < b.len() && (i == a.len() || a[i] < b[i]);
    proof {
        reveal(before);
        if r {
            assert(splits_at(a@, b@, i as int));
        } else if before(a@, b@) {
            let j = choose|j: int| splits_at(a@, b@, j);
            if j < i {
                assert(a@[j] == b@[j]);
            }
        }
    }
    r
}

/// Whether `a` and `b` are the same bytes.
pub fn is_same(a: &[u8], b: &[u8]) -> (r: bool)
    ensures
        r == (a@ == b@),
{
    if a.len() != b.len() {
        return false;
    }
    let mut i: usize = 0;
    while i < a.len()
        invariant
            i <= a.len(),
            a.len() == b.len(),
            forall|j: int| 0 <= j < i ==> a@[j] == b@[j],
        decreases a.len() - i,
    {
        if a[i] != b[i] {
            return false;
        }
        i += 1;
    }
    assert(a@ =~= b@);
    true
}

/// The keys come in strictly ascending order.
pub open spec fn ascending(keys: Seq<Seq<u8>>) -> bool {
    forall|i: int, j: int| 0 <= i < j < keys.len() ==> before(#[trigger] keys[i], #[trigger] keys[j])
}

/// The keys of a list of pairs.
pub open spec fn keys_of<V>(items: Seq<(Bytes, V)>) -> Seq<Seq<u8>> {
    Seq::new(items.len(), |i: int| octets(items[i].0))
}

/// Where halving the keys from `lo` to `hi` ends up that looks for the first one
/// which does not come before `target`.
pub open spec fn halved(keys: Seq<Seq<u8>>, target: Seq<u8>, lo: int, hi: int) -> int
    decreases hi - lo,
{
    if lo >= hi {
        lo
    } else {
        let mid = lo + (hi - lo) / 2;
        if before(keys[mid], target) {
            halved(keys, target, mid + 1, hi)
        } else {
            halved(keys, target, lo, mid)
        }
    }
}

/// The first place in `items` whose key does not come before `target`, found
/// by halving. On keys out of order it is the place where halving ends up.
pub fn lower_bound<V>(items: &Vec<(Bytes, V)>, target: &[u8]) -> (at: usize)
    ensures
        at <= items.len(),
        at == halved(keys_of(items@), target@, 0, items.len() as int),
        ascending(keys_of(items@)) ==> {
            &&& forall|i: int| 0 <= i < at ==> before(#[trigger] keys_of(items@)[i], target@)
            &&& forall|i: int|
                at <= i < items.len() ==> !before(#[trigger] keys_of(items@)[i], target@)
        },
{
    let mut lo: usize = 0;
    let mut hi: usize = items.len();
    let ghost keys = keys_of(items@);
    while lo < hi
        invariant
            keys == keys_of(items@),
            lo <= hi <= items.len(),
            halved(keys, target@, lo as int, hi as int) == halved(
                keys,
                target@,
                0,
                items.len() as int,
            ),
            ascending(keys) ==> {
                &&& forall|i: int| 0 <= i < lo ==> before(#[trigger] keys[i], target@)
                &&& forall|i: int| hi <= i < items.len() ==> !before(#[trigger] keys[i], target@)
            },
        decreases hi - lo,
    {
        let mid = lo + (hi - lo) / 2;
        if is_before(buffer::as_slice(&items[mid].0), target) {
            proof {
                if ascending(keys) {
                    assert forall|i: int| 0 <= i < mid + 1 implies before(
                        #[trigger] keys[i],
                        target@,
                    ) by {
                        if i < mid {
                            lemma_before_transitive(keys[i], keys[mid as int], target@);
                        }
                    }
                }
            }
            lo = mid + 1;
        } else {
            proof {
                if ascending(keys) {
                    assert forall|i: int| mid <= i < items.len() implies !before(
                        #[trigger] keys[i],
                        target@,
                    ) by {
                        if i > mid && before(keys[i], target@) {
                            lemma_before_transitive(keys[mid as int], keys[i], target@);
                        }
                    }
                }
            }
            hi = mid;
        }
    }
    lo
}

/// Keys that agree up to some byte are ordered by that byte, and a key comes before
/// all that go on where it ends.
pub proof fn lemma_first_byte_decides(p: Seq<u8>, x: u8, y: u8, a: Seq<u8>, b: Seq<u8>)
    ensures
        x < y ==> before(p.push(x) + a, p.push(y) + b),
        before(p, p.push(x) + a),
{
    reveal(before);
    if x < y {
        assert(splits_at(p.push(x) + a, p.push(y) + b, p.len() as int));
    }
    assert(splits_at(p, p.push(x) + a, p.len() as int));
}

} // verus!
