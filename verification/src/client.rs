//! The client's knowledge of the cluster: where to ask, and who led last.

use vstd::prelude::*;

use crate::types::NodeId;

verus! {

pub struct Client {
    endpoints: Vec<String>,
    /// The leader that was heard of last; zero if none was.
    leader_hint: NodeId,
}

impl Client {
    /// Where the client asks.
    pub closed spec fn addresses(&self) -> Seq<String> {
        self.endpoints@
    }

    /// The leader that was heard of last.
    pub closed spec fn hint(&self) -> Option<NodeId> {
        if self.leader_hint == 0 {
            None
        } else {
            Some(self.leader_hint)
        }
    }

    /// A client that has asked nobody yet.
    pub fn new(endpoints: Vec<String>) -> (c: Self)
        ensures
            c.addresses() == endpoints@,
            c.hint() is None,
    {
        Client { endpoints, leader_hint: 0 }
    }

    pub fn endpoints(&self) -> (e: &[String])
        ensures
            e@ == self.addresses(),
    {
        self.endpoints.as_slice()
    }

    pub fn cached_leader(&self) -> (r: Option<NodeId>)
        ensures
            r == self.hint(),
    {
        if self.leader_hint == 0 {
            None
        } else {
            Some(self.leader_hint)
        }
    }
}

} // verus!
