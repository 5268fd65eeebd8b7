//! The rules of the simulated network: which nodes are cut off from each other,
//! and what becomes of a message.

use vstd::prelude::*;
use vstd::string::StringExecFns;

use crate::text::{self, decimal};
use crate::types::{Error, NodeId};

verus! {

/// Which nodes are cut off from which.
#[derive(Debug)]
pub struct Partitions {
    pairs: Vec<(NodeId, NodeId)>,
}

impl Partitions {
    /// The pairs that are cut.
    pub closed spec fn view(&self) -> Set<(NodeId, NodeId)> {
        self.pairs@.to_set()
    }

    /// Nothing is cut.
    pub fn new() -> (p: Self)
        ensures
            p@ == Set::<(NodeId, NodeId)>::empty(),
    {
        let p = Partitions { pairs: Vec::new() };
        assert(p@ =~= Set::<(NodeId, NodeId)>::empty());
        p
    }

    /// Cuts the way from `a` to `b`.
    pub fn cut(&mut self, a: NodeId, b: NodeId)
        ensures
            final(self)@ == old(self)@.insert((a, b)),
    {
        let ghost prior = self.pairs@;
        self.pairs.push((a, b));
        proof {
            let now = self.pairs@;
            assert forall|x: (NodeId, NodeId)| now.contains(x) <==> prior.contains(x) || x == (
                a,
                b,
            ) by {
                if prior.contains(x) {
                    let i = prior.index_of(x);
                    assert(now[i] == x);
                }
                if x == (a, b) {
                    assert(now[prior.len() as int] == x);
                }
            }
            assert(self@ =~= old(self)@.insert((a, b)));
        }
    }

    /// Heals every cut.
    pub fn heal(&mut self)
        ensures
            final(self)@ == Set::<(NodeId, NodeId)>::empty(),
    {
        self.pairs = Vec::new();
        assert(self@ =~= Set::<(NodeId, NodeId)>::empty());
    }

    /// Whether the way from `a` to `b` is cut.
    pub fn is_cut(&self, a: NodeId, b: NodeId) -> (r: bool)
        ensures
            r == self@.contains((a, b)),
    {
        for i in 0..self.pairs.len()
            invariant
                forall|j: int| 0 <= j < i ==> self.pairs@[j] != (a, b),
        {
            let (x, y) = self.pairs[i];
            if x == a && y == b {
                assert(self.pairs@[i as int] == (a, b));
                return true;
            }
        }
        false
    }

    /// Whether `a` and `b` are cut off from each other, whichever way they were
    /// named.
    pub fn is_partitioned(&self, a: NodeId, b: NodeId) -> (r: bool)
        ensures
            r == partitioned(self@, a, b),
    {
        self.is_cut(a, b) || self.is_cut(b, a)
    }
}

/// The nodes are cut off from each other.
pub open spec fn partitioned(cut: Set<(NodeId, NodeId)>, a: NodeId, b: NodeId) -> bool {
    cut.contains((a, b)) || cut.contains((b, a))
}

/// A cut has no direction.
pub proof fn lemma_partition_symmetric(cut: Set<(NodeId, NodeId)>, a: NodeId, b: NodeId)
    ensures
        partitioned(cut, a, b) == partitioned(cut, b, a),
{
}

/// What becomes of a message.
#[derive(Debug, Clone, Copy, PartialEq, Eq, Structural)]
pub enum Delivery {
    /// It is lost without a word.
    Drop,
    /// It goes to the inbox of its receiver.
    Deliver,
    /// Nobody has that number.
    UnknownPeer,
}

/// What becomes of a message from `local` to `to`.
pub open spec fn delivery(
    cut: Set<(NodeId, NodeId)>,
    local: NodeId,
    to: NodeId,
    known: bool,
) -> Delivery {
    if partitioned(cut, local, to) {
        Delivery::Drop
    } else if known {
        Delivery::Deliver
    } else {
        Delivery::UnknownPeer
    }
}

/// Decides what becomes of a message from `local` to `to`, given whether there
/// is an inbox for `to`. A cut comes first: behind it nobody learns who is there.
pub fn route(partitions: &Partitions, local: NodeId, to: NodeId, known: bool) -> (d: Delivery)
    ensures
        d == delivery(partitions@, local, to, known),
{
    if partitions.is_partitioned(local, to) {
        Delivery::Drop
    } else if known {
        Delivery::Deliver
    } else {
        Delivery::UnknownPeer
    }
}

/// The error for a message to a node that nobody knows.
pub fn unknown_peer(to: NodeId) -> (e: Error)
    ensures
        e.is_network("unknown peer "@ + decimal(to as nat)),
{
    let mut text = String::from_str("unknown peer ");
    text.append(text::decimal_text(to).as_str());
    Error::Network(text)
}

/// The error for a message that its receiver no longer takes.
pub fn send_failed(to: NodeId, reason: &str) -> (e: Error)
    ensures
        e.is_network("send to "@ + decimal(to as nat) + ": "@ + reason@),
{
    let mut text = String::from_str("send to ");
    text.append(text::decimal_text(to).as_str());
    text.append(": ");
    text.append(reason);
    Error::Network(text)
}

/// A message gets through exactly if its receiver is there and no cut, named either
/// way, lies between; behind a cut it is lost without a word, and only without one is
/// a receiver that is not there reported.
pub proof fn lemma_gets_through(
    cut: Set<(NodeId, NodeId)>,
    local: NodeId,
    to: NodeId,
    known: bool,
)
    ensures
        cut.contains((local, to)) || cut.contains((to, local)) ==> delivery(cut, local, to, known)
            == Delivery::Drop,
        !cut.contains((local, to)) && !cut.contains((to, local)) ==> delivery(cut, local, to, true)
            == Delivery::Deliver && delivery(cut, local, to, false) == Delivery::UnknownPeer,
{
}

} // verus!
