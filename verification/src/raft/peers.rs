//! Something known about each of a few nodes.

use vstd::prelude::*;

use crate::types::NodeId;

verus! {

/// The numbers of a list of pairs.
pub open spec fn ids_of<V>(items: Seq<(NodeId, V)>) -> Seq<NodeId> {
    Seq::new(items.len(), |i: int| items[i].0)
}

/// The map that a list of pairs describes. Only lists without a repeated number
/// are read this way.
pub open spec fn known<V>(items: Seq<(NodeId, V)>) -> Map<NodeId, V> {
    Map::new(
        |id: NodeId| ids_of(items).contains(id),
        |id: NodeId| items[ids_of(items).index_of(id)].1,
    )
}

/// A map from nodes to values, kept as a list.
pub struct PeerMap<V> {
    items: Vec<(NodeId, V)>,
}

impl<V: Copy> PeerMap<V> {
    pub closed spec fn entries(&self) -> Seq<(NodeId, V)> {
        self.items@
    }

    /// No node comes twice.
    pub open spec fn wf(&self) -> bool {
        ids_of(self.entries()).no_duplicates()
    }

    /// What is known of each node.
    pub open spec fn view(&self) -> Map<NodeId, V> {
        known(self.entries())
    }

    pub fn new() -> (m: Self)
        ensures
            m.wf(),
            m@ == Map::<NodeId, V>::empty(),
    {
        let m = PeerMap { items: Vec::new() };
        assert(m@ =~= Map::<NodeId, V>::empty());
        m
    }

    pub fn clear(&mut self)
        ensures
            final(self).wf(),
            final(self)@ == Map::<NodeId, V>::empty(),
    {
        self.items = Vec::new();
        assert(self@ =~= Map::<NodeId, V>::empty());
    }

    pub fn get(&self, id: NodeId) -> (r: Option<V>)
        requires
            self.wf(),
        ensures
            r == (if self@.contains_key(id) {
                Some(self@[id])
            } else {
                None
            }),
    {
        for i in 0..self.items.len()
            invariant
                self.wf(),
                forall|j: int| 0 <= j < i ==> ids_of(self.entries())[j] != id,
        {
            if self.items[i].0 == id {
                proof {
                    assert(ids_of(self.entries())[i as int] == id);
                }
                return Some(self.items[i].1);
            }
        }
        None
    }

    /// What is known of `id` from now on.
    pub fn insert(&mut self, id: NodeId, value: V)
        requires
            old(self).wf(),
        ensures
            final(self).wf(),
            final(self)@ == old(self)@.insert(id, value),
    {
        let ghost a = self.items@;
        let n = self.items.len();
        for i in 0..n
            invariant
                n == a.len(),
                a == old(self).entries(),
                self.items@ == a,
                self.wf(),
                forall|j: int| 0 <= j < i ==> ids_of(a)[j] != id,
        {
            if self.items[i].0 == id {
                self.items.set(i, (id, value));
                proof {
                    let b = self.items@;
                    assert(ids_of(b) =~= ids_of(a));
                    assert(ids_of(a)[i as int] == id);
                    assert(known(b) =~= known(a).insert(id, value));
                }
                return ;
            }
        }
        self.items.push((id, value));
        proof {
            let b = self.items@;
            assert(ids_of(b) =~= ids_of(a).push(id));
            assert forall|k: NodeId| ids_of(b).contains(k) <==> ids_of(a).contains(k) || k
                == id by {
                if ids_of(a).contains(k) {
                    let j = ids_of(a).index_of(k);
                    assert(ids_of(b)[j] == k);
                }
                if k == id {
                    assert(ids_of(b)[a.len() as int] == k);
                }
            }
            assert forall|k: NodeId| #[trigger] known(b).contains_key(k) implies known(b)[k]
                == known(a).insert(id, value)[k] by {
                let j = ids_of(b).index_of(k);
                if k != id {
                    let i = ids_of(a).index_of(k);
                    assert(ids_of(b)[i] == k);
                }
            }
            assert(known(b) =~= known(a).insert(id, value));
        }
    }
}

/// The nodes of which something holds.
pub open spec fn nodes_with<V>(m: Map<NodeId, V>, p: spec_fn(NodeId, V) -> bool) -> Set<NodeId> {
    m.dom().filter(|id: NodeId| p(id, m[id]))
}

/// Counting along a list counts the nodes.
proof fn lemma_count_next<V>(items: Seq<(NodeId, V)>, p: spec_fn(NodeId, V) -> bool, i: int)
    requires
        ids_of(items).no_duplicates(),
        0 <= i < items.len(),
        nodes_with(known(items.take(i)), p).finite(),
    ensures
        nodes_with(known(items.take(i + 1)), p).finite(),
        nodes_with(known(items.take(i + 1)), p).len() == nodes_with(known(items.take(i)), p).len()
            + (if p(items[i].0, items[i].1) {
            1int
        } else {
            0
        }),
        ids_of(items.take(i)).no_duplicates(),
{
    let a = items.take(i);
    let b = items.take(i + 1);
    let (id, v) = items[i];
    assert(ids_of(a) =~= ids_of(items).take(i));
    assert(ids_of(b) =~= ids_of(a).push(id));
    assert(!ids_of(a).contains(id)) by {
        if ids_of(a).contains(id) {
            let j = ids_of(a).index_of(id);
            assert(ids_of(items)[j] == ids_of(items)[i]);
        }
    }
    assert forall|k: NodeId| ids_of(b).contains(k) <==> ids_of(a).contains(k) || k == id by {
        if ids_of(a).contains(k) {
            let j = ids_of(a).index_of(k);
            assert(ids_of(b)[j] == k);
        }
        if k == id {
            assert(ids_of(b)[i] == k);
        }
    }
    assert forall|k: NodeId| ids_of(a).contains(k) implies known(b)[k] == known(a)[k] by {
        let j = ids_of(b).index_of(k);
        let l = ids_of(a).index_of(k);
        assert(ids_of(b)[l] == k);
        assert(ids_of(items)[j] == k);
        assert(ids_of(items)[l] == k);
    }
    assert(known(b)[id] == v) by {
        assert(ids_of(b)[i] == id);
        let j = ids_of(b).index_of(id);
        assert(ids_of(items)[j] == ids_of(items)[i]);
    }
    if p(id, v) {
        assert(nodes_with(known(b), p) =~= nodes_with(known(a), p).insert(id));
    } else {
        assert(nodes_with(known(b), p) =~= nodes_with(known(a), p));
    }
}

/// A vote that was given.
pub open spec fn given() -> spec_fn(NodeId, bool) -> bool {
    |id: NodeId, v: bool| v
}

/// A node besides `me` that has come up to `n`.
pub open spec fn up_to(me: NodeId, n: u64) -> spec_fn(NodeId, u64) -> bool {
    |id: NodeId, v: u64| id != me && v >= n
}

impl PeerMap<bool> {
    /// How many nodes gave their vote.
    pub fn count_given(&self) -> (n: usize)
        requires
            self.wf(),
        ensures
            n == nodes_with(self@, given()).len(),
            nodes_with(self@, given()).finite(),
    {
        let mut n: usize = 0;
        let ghost all = self.items@;
        assert(nodes_with(known(all.take(0)), given()) =~= Set::empty());
        for i in 0..self.items.len()
            invariant
                all == self.items@,
                self.wf(),
                n <= i,
                n == nodes_with(known(all.take(i as int)), given()).len(),
                nodes_with(known(all.take(i as int)), given()).finite(),
        {
            proof {
                lemma_count_next(all, given(), i as int);
            }
            if self.items[i].1 {
                n += 1;
            }
        }
        assert(all.take(all.len() as int) =~= all);
        n
    }
}

impl PeerMap<u64> {
    /// How many nodes besides `me` have come up to `index`.
    pub fn count_up_to(&self, me: NodeId, index: u64) -> (n: usize)
        requires
            self.wf(),
        ensures
            n == nodes_with(self@, up_to(me, index)).len(),
            nodes_with(self@, up_to(me, index)).finite(),
    {
        let mut n: usize = 0;
        let ghost all = self.items@;
        assert(nodes_with(known(all.take(0)), up_to(me, index)) =~= Set::empty());
        for i in 0..self.items.len()
            invariant
                all == self.items@,
                self.wf(),
                n <= i,
                n == nodes_with(known(all.take(i as int)), up_to(me, index)).len(),
                nodes_with(known(all.take(i as int)), up_to(me, index)).finite(),
        {
            proof {
                lemma_count_next(all, up_to(me, index), i as int);
            }
            let (id, v) = self.items[i];
            if id != me && v >= index {
                n += 1;
            }
        }
        assert(all.take(all.len() as int) =~= all);
        n
    }
}

} // verus!
