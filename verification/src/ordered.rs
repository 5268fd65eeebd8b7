//! A map from keys to values, kept as a list in key order.

use bytes::Bytes;
use vstd::prelude::*;

use crate::buffer::{self, octets};
use crate::order::{self, ascending, before, keys_of};
use crate::types::{in_range, Key};

verus! {

/// The map that a list of pairs describes. Only lists without a repeated key
/// are read this way.
pub open spec fn map_of<V>(items: Seq<(Bytes, V)>) -> Map<Seq<u8>, V> {
    Map::new(
        |k: Seq<u8>| keys_of(items).contains(k),
        |k: Seq<u8>| items[keys_of(items).index_of(k)].1,
    )
}

/// Keys in ascending order do not repeat.
pub proof fn lemma_ascending_distinct(keys: Seq<Seq<u8>>)
    requires
        ascending(keys),
    ensures
        keys.no_duplicates(),
{
    assert forall|i: int, j: int| 0 <= i < keys.len() && 0 <= j < keys.len() && i != j implies keys[i]
        != keys[j] by {
        if i < j {
            order::lemma_before_asymmetric(keys[i], keys[j]);
        } else {
            order::lemma_before_asymmetric(keys[j], keys[i]);
        }
    }
}

/// In a list in key order, the pair at each place is what the map holds.
pub proof fn lemma_map_at<V>(items: Seq<(Bytes, V)>, i: int)
    requires
        ascending(keys_of(items)),
        0 <= i < items.len(),
    ensures
        map_of(items).contains_key(octets(items[i].0)),
        map_of(items)[octets(items[i].0)] == items[i].1,
{
    let keys = keys_of(items);
    lemma_ascending_distinct(keys);
    assert(keys[i] == octets(items[i].0));
    assert(keys.contains(keys[i]));
    let j = keys.index_of(keys[i]);
    assert(0 <= j < keys.len() && keys[j] == keys[i]);
}

/// The map holds as many keys as the list has pairs.
pub proof fn lemma_map_len<V>(items: Seq<(Bytes, V)>)
    requires
        ascending(keys_of(items)),
    ensures
        map_of(items).dom().finite(),
        map_of(items).dom().len() == items.len(),
{
    let keys = keys_of(items);
    lemma_ascending_distinct(keys);
    keys.unique_seq_to_set();
    assert(map_of(items).dom() =~= keys.to_set());
}

/// A key that no place of the list holds is not in the map.
pub proof fn lemma_map_absent<V>(items: Seq<(Bytes, V)>, key: Seq<u8>, at: int)
    requires
        0 <= at <= items.len(),
        forall|i: int| 0 <= i < at ==> before(#[trigger] keys_of(items)[i], key),
        forall|i: int| at <= i < items.len() ==> !before(#[trigger] keys_of(items)[i], key),
        ascending(keys_of(items)),
        at < items.len() ==> keys_of(items)[at] != key,
    ensures
        !map_of(items).contains_key(key),
{
    let keys = keys_of(items);
    if keys.contains(key) {
        let i = choose|i: int| 0 <= i < keys.len() && keys[i] == key;
        order::lemma_before_irreflexive(key);
        assert(at < i);
        assert(before(keys[at], keys[i]));
    }
}

/// A map whose keys are byte strings.
pub struct OrderedMap<V> {
    items: Vec<(Key, V)>,
}

impl<V> OrderedMap<V> {
    /// The pairs in the order of the list.
    pub closed spec fn entries(&self) -> Seq<(Bytes, V)> {
        self.items@
    }

    /// The keys are in ascending order.
    pub open spec fn wf(&self) -> bool {
        ascending(keys_of(self.entries()))
    }

    /// What is stored under each key.
    pub open spec fn view(&self) -> Map<Seq<u8>, V> {
        map_of(self.entries())
    }

    /// The empty map.
    pub fn new() -> (m: Self)
        ensures
            m.wf(),
            m.entries() == Seq::<(Bytes, V)>::empty(),
            m@ == Map::<Seq<u8>, V>::empty(),
    {
        let m = Self { items: Vec::new() };
        assert(m@ =~= Map::<Seq<u8>, V>::empty());
        m
    }

    /// The pairs in key order.
    pub fn as_list(&self) -> (items: &Vec<(Key, V)>)
        ensures
            items@ == self.entries(),
    {
        &self.items
    }

    /// The pairs in key order, by value.
    pub fn into_list(self) -> (items: Vec<(Key, V)>)
        ensures
            items@ == self.entries(),
    {
        self.items
    }

    /// How many keys the map holds.
    pub fn len(&self) -> (n: usize)
        requires
            self.wf(),
        ensures
            n == self@.dom().len(),
            n == self.entries().len(),
    {
        proof {
            lemma_map_len(self.entries());
        }
        self.items.len()
    }

    /// The place of the first key that does not come before `target`.
    pub fn lower_bound(&self, target: &[u8]) -> (at: usize)
        requires
            self.wf(),
        ensures
            at <= self.entries().len(),
            forall|i: int| 0 <= i < at ==> before(#[trigger] keys_of(self.entries())[i], target@),
            forall|i: int|
                at <= i < self.entries().len() ==> !before(
                    #[trigger] keys_of(self.entries())[i],
                    target@,
                ),
    {
        order::lower_bound(&self.items, target)
    }

    /// The place of `key`, if the map holds it.
    fn find(&self, key: &[u8]) -> (at: (usize, bool))
        requires
            self.wf(),
        ensures
            at.0 <= self.entries().len(),
            forall|i: int| 0 <= i < at.0 ==> before(#[trigger] keys_of(self.entries())[i], key@),
            forall|i: int|
                at.0 <= i < self.entries().len() ==> !before(
                    #[trigger] keys_of(self.entries())[i],
                    key@,
                ),
            at.1 == self@.contains_key(key@),
            at.1 ==> at.0 < self.entries().len() && keys_of(self.entries())[at.0 as int] == key@
                && self@[key@] == self.entries()[at.0 as int].1,
            !at.1 && at.0 < self.entries().len() ==> keys_of(self.entries())[at.0 as int] != key@,
    {
        let at = self.lower_bound(key);
        let found = at < self.items.len() && order::is_same(
            buffer::as_slice(&self.items[at].0),
            key,
        );
        proof {
            if found {
                lemma_map_at(self.entries(), at as int);
            } else {
                lemma_map_absent(self.entries(), key@, at as int);
            }
        }
        (at, found)
    }

    /// What is stored under `key`.
    pub fn get(&self, key: &[u8]) -> (r: Option<&V>)
        requires
            self.wf(),
        ensures
            r == (if self@.contains_key(key@) {
                Some(&self@[key@])
            } else {
                None
            }),
    {
        let (at, found) = self.find(key);
        if found {
            Some(&self.items[at].1)
        } else {
            None
        }
    }

    /// Stores `value` under `key`, in place of what was there.
    pub fn insert(&mut self, key: Key, value: V)
        requires
            old(self).wf(),
        ensures
            final(self).wf(),
            final(self)@ == old(self)@.insert(octets(key), value),
    {
        let (at, found) = self.find(buffer::as_slice(&key));
        let ghost before_items = self.items@;
        if found {
            self.items[at].1 = value;
            proof {
                assert(self.items@ =~= before_items.update(
                    at as int,
                    (before_items[at as int].0, value),
                ));
                assert(keys_of(self.items@) =~= keys_of(before_items));
                lemma_replaced(before_items, self.items@, at as int, value);
            }
        } else {
            let ghost k = octets(key);
            self.items.insert(at, (key, value));
            proof {
                lemma_inserted(before_items, (key, value), at as int);
                assert(self.items@ =~= before_items.insert(at as int, (key, value)));
            }
        }
    }

    /// Stores `value` under `key` unless the map already holds that key.
    pub fn insert_if_absent(&mut self, key: Key, value: V)
        requires
            old(self).wf(),
        ensures
            final(self).wf(),
            final(self)@ == (if old(self)@.contains_key(octets(key)) {
                old(self)@
            } else {
                old(self)@.insert(octets(key), value)
            }),
    {
        let (_, found) = self.find(buffer::as_slice(&key));
        if !found {
            self.insert(key, value);
        }
    }

    /// Takes `key` and what is stored under it out of the map.
    pub fn remove(&mut self, key: &[u8])
        requires
            old(self).wf(),
        ensures
            final(self).wf(),
            final(self)@ == old(self)@.remove(key@),
    {
        let (at, found) = self.find(key);
        let ghost before_items = self.items@;
        if found {
            self.items.remove(at);
            proof {
                assert(self.items@ =~= before_items.remove(at as int));
                lemma_removed(before_items, at as int);
            }
        } else {
            assert(self@ =~= old(self)@.remove(key@));
        }
    }
}

proof fn lemma_replaced<V>(a: Seq<(Bytes, V)>, b: Seq<(Bytes, V)>, at: int, value: V)
    requires
        0 <= at < a.len(),
        a.len() == b.len(),
        ascending(keys_of(a)),
        keys_of(a) == keys_of(b),
        b[at].1 == value,
        forall|i: int| 0 <= i < a.len() && i != at ==> a[i].1 == b[i].1,
    ensures
        map_of(b) == map_of(a).insert(octets(a[at].0), value),
{
    let key = octets(a[at].0);
    let m = map_of(a).insert(key, value);
    let keys = keys_of(a);
    assert(keys[at] == key);
    assert(keys.contains(key));
    lemma_ascending_distinct(keys);
    assert forall|k: Seq<u8>| keys.contains(k) implies map_of(b)[k] == m[k] by {
        let i = keys.index_of(k);
        assert(keys[i] == k);
    }
    assert(map_of(b) =~= m);
}

proof fn lemma_inserted<V>(a: Seq<(Bytes, V)>, item: (Bytes, V), at: int)
    requires
        0 <= at <= a.len(),
        ascending(keys_of(a)),
        forall|i: int| 0 <= i < at ==> before(#[trigger] keys_of(a)[i], octets(item.0)),
        forall|i: int| at <= i < a.len() ==> !before(#[trigger] keys_of(a)[i], octets(item.0)),
        at < a.len() ==> keys_of(a)[at] != octets(item.0),
    ensures
        ascending(keys_of(a.insert(at, item))),
        map_of(a.insert(at, item)) == map_of(a).insert(octets(item.0), item.1),
{
    let b = a.insert(at, item);
    let key = octets(item.0);
    let ka = keys_of(a);
    let kb = keys_of(b);
    assert(kb =~= ka.insert(at, key));
    assert forall|i: int| at <= i < a.len() implies before(key, #[trigger] ka[i]) by {
        order::lemma_before_total(key, ka[i]);
        if ka[i] == key && i > at {
            assert(before(ka[at], ka[i]));
        }
    }
    assert(ascending(kb)) by {
        assert forall|i: int, j: int| 0 <= i < j < kb.len() implies before(
            #[trigger] kb[i],
            #[trigger] kb[j],
        ) by {
            if i < at {
                if j < at {
                    assert(before(ka[i], ka[j]));
                } else if j == at {
                    assert(before(ka[i], key));
                } else {
                    assert(before(ka[i], ka[j - 1]));
                }
            } else if i == at {
                assert(before(key, ka[j - 1]));
            } else {
                assert(before(ka[i - 1], ka[j - 1]));
            }
        }
    }
    lemma_map_absent(a, key, at);
    let m = map_of(a).insert(key, item.1);
    assert forall|k: Seq<u8>| map_of(b).contains_key(k) <==> m.contains_key(k) by {
        if ka.contains(k) {
            let i = ka.index_of(k);
            assert(kb[if i < at { i } else { i + 1 }] == k);
        }
        if kb.contains(k) && k != key {
            let i = kb.index_of(k);
            assert(kb[i] == k);
            assert(ka[if i < at { i } else { i - 1 }] == k);
        }
        if k == key {
            assert(kb[at] == key);
        }
    }
    assert forall|k: Seq<u8>| m.contains_key(k) implies map_of(b)[k] == m[k] by {
        if k == key {
            lemma_map_at(b, at);
        } else {
            let i = ka.index_of(k);
            assert(ka[i] == k);
            lemma_map_at(a, i);
            lemma_map_at(b, if i < at { i } else { i + 1 });
        }
    }
    assert(map_of(b) =~= m);
}

proof fn lemma_removed<V>(a: Seq<(Bytes, V)>, at: int)
    requires
        0 <= at < a.len(),
        ascending(keys_of(a)),
    ensures
        ascending(keys_of(a.remove(at))),
        map_of(a.remove(at)) == map_of(a).remove(octets(a[at].0)),
{
    let b = a.remove(at);
    let key = octets(a[at].0);
    let ka = keys_of(a);
    let kb = keys_of(b);
    assert(kb =~= ka.remove(at));
    lemma_ascending_distinct(ka);
    assert(ascending(kb)) by {
        assert forall|i: int, j: int| 0 <= i < j < kb.len() implies before(
            #[trigger] kb[i],
            #[trigger] kb[j],
        ) by {
            let i2 = if i < at { i } else { i + 1 };
            let j2 = if j < at { j } else { j + 1 };
            assert(before(ka[i2], ka[j2]));
        }
    }
    let m = map_of(a).remove(key);
    assert forall|k: Seq<u8>| map_of(b).contains_key(k) <==> m.contains_key(k) by {
        if kb.contains(k) {
            let i = kb.index_of(k);
            assert(kb[i] == k);
            let i2 = if i < at { i } else { i + 1 };
            assert(ka[i2] == k);
            assert(ka[at] == key);
        }
        if ka.contains(k) && k != key {
            let i = ka.index_of(k);
            assert(ka[i] == k);
            assert(kb[if i < at { i } else { i - 1 }] == k);
        }
    }
    assert forall|k: Seq<u8>| m.contains_key(k) implies map_of(b)[k] == m[k] by {
        let i = ka.index_of(k);
        assert(ka[i] == k);
        lemma_map_at(a, i);
        lemma_map_at(b, if i < at { i } else { i - 1 });
    }
    assert(map_of(b) =~= m);
}

/// One more pair of a list in key order is one more key of the map.
pub proof fn lemma_take_next<V>(items: Seq<(Bytes, V)>, i: int)
    requires
        ascending(keys_of(items)),
        0 <= i < items.len(),
    ensures
        map_of(items.take(i + 1)) == map_of(items.take(i)).insert(octets(items[i].0), items[i].1),
{
    let a = items.take(i);
    let b = items.take(i + 1);
    let keys = keys_of(items);
    assert(b =~= a.insert(i, items[i]));
    assert forall|x: int, y: int| 0 <= x < y < keys_of(a).len() implies before(
        #[trigger] keys_of(a)[x],
        #[trigger] keys_of(a)[y],
    ) by {
        assert(before(keys[x], keys[y]));
    }
    assert forall|x: int| 0 <= x < i implies before(
        #[trigger] keys_of(a)[x],
        octets(items[i].0),
    ) by {
        assert(before(keys[x], keys[i]));
    }
    lemma_inserted(a, items[i], i);
}

/// In a list in key order no pair has the key of an earlier one.
pub proof fn lemma_take_fresh<V>(items: Seq<(Bytes, V)>, i: int)
    requires
        ascending(keys_of(items)),
        0 <= i < items.len(),
    ensures
        !map_of(items.take(i)).contains_key(octets(items[i].0)),
{
    let keys = keys_of(items);
    let a = items.take(i);
    lemma_ascending_distinct(keys);
    if keys_of(a).contains(octets(items[i].0)) {
        let j = choose|j: int|
            0 <= j < keys_of(a).len() && keys_of(a)[j] == octets(items[i].0);
        assert(keys[j] == keys[i]);
    }
}

// ---- listings -------------------------------------------------------------------

/// The keys of a list of plain pairs.
pub open spec fn first_of<T>(l: Seq<(Seq<u8>, T)>) -> Seq<Seq<u8>> {
    Seq::new(l.len(), |i: int| l[i].0)
}

/// The list has the pairs of the map, in key order, each once.
pub open spec fn lists_in_order<T>(l: Seq<(Seq<u8>, T)>, m: Map<Seq<u8>, T>) -> bool {
    &&& ascending(first_of(l))
    &&& forall|i: int|
        0 <= i < l.len() ==> m.contains_key((#[trigger] l[i]).0) && m[l[i].0] == l[i].1
    &&& forall|k: Seq<u8>| #[trigger] m.contains_key(k) ==> first_of(l).contains(k)
}

/// The part of the map whose keys lie in `[start, end)`.
pub open spec fn restricted<T>(m: Map<Seq<u8>, T>, start: Seq<u8>, end: Seq<u8>) -> Map<
    Seq<u8>,
    T,
> {
    Map::new(|k: Seq<u8>| m.contains_key(k) && in_range(start, end, k), |k: Seq<u8>| m[k])
}

/// The map with each value replaced by what `g` makes of it.
pub open spec fn viewed<V, T>(m: Map<Seq<u8>, V>, g: spec_fn(V) -> T) -> Map<Seq<u8>, T> {
    Map::new(|k: Seq<u8>| m.contains_key(k), |k: Seq<u8>| g(m[k]))
}

/// A map has one listing.
pub proof fn lemma_listing_unique<T>(
    a: Seq<(Seq<u8>, T)>,
    b: Seq<(Seq<u8>, T)>,
    m: Map<Seq<u8>, T>,
)
    requires
        lists_in_order(a, m),
        lists_in_order(b, m),
    ensures
        a == b,
    decreases a.len(),
{
    if a.len() == 0 {
        if b.len() > 0 {
            assert(m.contains_key(b[0].0));
        }
        assert(a =~= b);
    } else {
        let n = a.len() - 1;
        let m2 = m.remove(a[n].0);
        let ka = first_of(a);
        let kb = first_of(b);
        assert(m.contains_key(a[n].0));
        let p = choose|p: int| 0 <= p < kb.len() && kb[p] == a[n].0;
        let q = b.len() - 1;
        assert(m.contains_key(b[q].0));
        let r = choose|r: int| 0 <= r < ka.len() && ka[r] == b[q].0;
        assert(p == q) by {
            if p < q {
                assert(before(kb[p], kb[q]));
                if r < n {
                    assert(before(ka[r], ka[n]));
                }
                order::lemma_before_asymmetric(kb[p], kb[q]);
            }
        }
        lemma_listing_drop(a, m);
        lemma_listing_drop(b, m);
        lemma_listing_unique(a.drop_last(), b.drop_last(), m2);
        assert(a =~= a.drop_last().push(a[n]));
        assert(b =~= b.drop_last().push(b[q]));
    }
}

proof fn lemma_listing_drop<T>(l: Seq<(Seq<u8>, T)>, m: Map<Seq<u8>, T>)
    requires
        lists_in_order(l, m),
        l.len() > 0,
    ensures
        lists_in_order(l.drop_last(), m.remove(l.last().0)),
{
    let n = l.len() - 1;
    let d = l.drop_last();
    let m2 = m.remove(l[n].0);
    let keys = first_of(l);
    lemma_ascending_distinct(keys);
    assert(ascending(first_of(d))) by {
        assert forall|i: int, j: int| 0 <= i < j < first_of(d).len() implies before(
            #[trigger] first_of(d)[i],
            #[trigger] first_of(d)[j],
        ) by {
            assert(before(keys[i], keys[j]));
        }
    }
    assert forall|i: int| 0 <= i < d.len() implies m2.contains_key((#[trigger] d[i]).0)
        && m2[d[i].0] == d[i].1 by {
        assert(d[i] == l[i]);
        assert(keys[i] != keys[n]);
    }
    assert forall|k: Seq<u8>| #[trigger] m2.contains_key(k) implies first_of(d).contains(k) by {
        assert(m.contains_key(k));
        let i = choose|i: int| 0 <= i < keys.len() && keys[i] == k;
        assert(first_of(d)[i] == k);
    }
}

/// What stands between the places of `start` and of `end` is the part of the
/// map in `[start, end)`, in key order.
pub proof fn lemma_range<V, T>(
    items: Seq<(Bytes, V)>,
    g: spec_fn(V) -> T,
    lo: int,
    hi: int,
    start: Seq<u8>,
    end: Seq<u8>,
    l: Seq<(Seq<u8>, T)>,
)
    requires
        ascending(keys_of(items)),
        0 <= lo <= items.len(),
        0 <= hi <= items.len(),
        forall|i: int| 0 <= i < lo ==> before(#[trigger] keys_of(items)[i], start),
        forall|i: int| lo <= i < items.len() ==> !before(#[trigger] keys_of(items)[i], start),
        forall|i: int| 0 <= i < hi ==> before(#[trigger] keys_of(items)[i], end),
        forall|i: int| hi <= i < items.len() ==> !before(#[trigger] keys_of(items)[i], end),
        l.len() == (if lo < hi {
            hi - lo
        } else {
            0
        }),
        forall|i: int|
            0 <= i < l.len() ==> (#[trigger] l[i]).0 == octets(items[lo + i].0) && l[i].1 == g(
                items[lo + i].1,
            ),
    ensures
        lists_in_order(l, restricted(viewed(map_of(items), g), start, end)),
{
    let keys = keys_of(items);
    let m = restricted(viewed(map_of(items), g), start, end);
    let kl = first_of(l);
    assert forall|i: int, j: int| 0 <= i < j < kl.len() implies before(
        #[trigger] kl[i],
        #[trigger] kl[j],
    ) by {
        assert(l[i].0 == keys[lo + i]);
        assert(l[j].0 == keys[lo + j]);
        assert(before(keys[lo + i], keys[lo + j]));
    }
    assert forall|i: int| 0 <= i < l.len() implies m.contains_key((#[trigger] l[i]).0)
        && m[l[i].0] == l[i].1 by {
        lemma_map_at(items, lo + i);
        assert(!before(keys[lo + i], start));
        assert(before(keys[lo + i], end));
    }
    assert forall|k: Seq<u8>| #[trigger] m.contains_key(k) implies kl.contains(k) by {
        let i = choose|i: int| 0 <= i < keys.len() && keys[i] == k;
        assert(lo <= i < hi) by {
            if i < lo {
                assert(before(keys[i], start));
            }
            if i >= hi {
                assert(!before(keys[i], end));
            }
        }
        assert(l[i - lo].0 == keys[lo + (i - lo)]);
        assert(kl[i - lo] == k);
    }
}

/// A whole list in key order lists its map.
pub proof fn lemma_whole<V, T>(items: Seq<(Bytes, V)>, g: spec_fn(V) -> T, l: Seq<(Seq<u8>, T)>)
    requires
        ascending(keys_of(items)),
        l.len() == items.len(),
        forall|i: int|
            0 <= i < l.len() ==> (#[trigger] l[i]).0 == octets(items[i].0) && l[i].1 == g(
                items[i].1,
            ),
    ensures
        lists_in_order(l, viewed(map_of(items), g)),
{
    let keys = keys_of(items);
    let m = viewed(map_of(items), g);
    assert(first_of(l) =~= keys);
    assert forall|i: int| 0 <= i < l.len() implies m.contains_key((#[trigger] l[i]).0)
        && m[l[i].0] == l[i].1 by {
        lemma_map_at(items, i);
    }
}

} // verus!
