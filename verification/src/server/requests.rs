//! What becomes of a request to the cluster.

use vstd::prelude::*;

use crate::raft::conduct;
use crate::raft::state::Role;
use crate::raft::types::{EntryKind, EntryView};
use crate::server::cluster::{living_ids, proposed_at, proposed_at_leader};
use crate::server::cluster_state::{self, ClusterView, MemberView};
use crate::types::{Error, NodeId};

verus! {

/// The cluster is as before but for the log of the member at `i`, which has one more
/// entry, of the member's term, with this data.
pub open spec fn puts_at(c: ClusterView, d: ClusterView, i: int, data: Seq<u8>) -> bool {
    &&& d.cut == c.cut
    &&& d.members.len() == c.members.len()
    &&& forall|j: int| 0 <= j < c.members.len() && j != i ==> #[trigger] d.members[j] == c.members[j]
    &&& d.members[i].id == c.members[i].id && d.members[i].alive
    &&& d.members[i].store == c.members[i].store && d.members[i].inbox == c.members[i].inbox
    &&& d.members[i].node.log == c.members[i].node.log.push(
        EntryView {
            index: (c.members[i].node.log.len() + 1) as u64,
            term: c.members[i].node.term,
            kind: EntryKind::Normal,
            data,
        },
    )
}

/// A node takes a proposal exactly if it is alive and leads. Then its log has the
/// proposal at its end; otherwise nothing changes, and a living node that does not
/// lead names the leader it knows.
pub proof fn lemma_proposal(
    c: ClusterView,
    i: int,
    data: Seq<u8>,
    d: ClusterView,
    r: Result<(), Error>,
)
    requires
        0 <= i < c.members.len(),
        forall|j: int| 0 <= j < i ==> (#[trigger] c.members[j]).id != c.members[i].id,
        c.members[i].node.log.len() < u64::MAX,
        proposed_at(c, c.members[i].id, data, d, r),
    ensures
        r is Ok <==> c.members[i].alive && c.members[i].node.role == Role::Leader,
        r is Ok ==> puts_at(c, d, i, data),
        r is Err ==> d == c,
        c.members[i].alive && c.members[i].node.role != Role::Leader ==> r == Err::<(), Error>(
            Error::NotLeader(c.members[i].node.leader),
        ),
        !c.members[i].alive ==> (r matches Err(Error::Internal(_))),
{
    cluster_state::lemma_place_of_id(c.members, c.members[i].id);
    if r is Ok {
        conduct::lemma_puts_behind(c.members[i].node, data);
    }
}

/// A node that is not there takes nothing.
pub proof fn lemma_no_such_node(
    c: ClusterView,
    id: NodeId,
    data: Seq<u8>,
    d: ClusterView,
    r: Result<(), Error>,
)
    requires
        forall|j: int| 0 <= j < c.members.len() ==> (#[trigger] c.members[j]).id != id,
        proposed_at(c, id, data, d, r),
    ensures
        r matches Err(Error::InvalidArgument(_)),
        d == c,
{
    cluster_state::lemma_place_of_id(c.members, id);
}

/// A proposal to the leader is taken exactly if some living member leads. It is
/// taken by a living leader whose term no other living leader's exceeds, and by it
/// alone; otherwise nothing changes.
pub proof fn lemma_proposal_to_leader(
    c: ClusterView,
    data: Seq<u8>,
    d: ClusterView,
    r: Result<NodeId, Error>,
) -> (i: int)
    requires
        forall|j: int, k: int|
            0 <= j < k < c.members.len() ==> (#[trigger] c.members[j]).id != (
            #[trigger] c.members[k]).id,
        forall|j: int|
            0 <= j < c.members.len() ==> (#[trigger] c.members[j]).node.log.len() < u64::MAX,
        proposed_at_leader(c, data, d, r),
    ensures
        r is Ok <==> exists|j: int|
            0 <= j < c.members.len() && (#[trigger] c.members[j]).alive && c.members[j].node.role
                == Role::Leader,
        r is Err ==> d == c && (r matches Err(Error::Internal(_))),
        r is Ok ==> {
            &&& 0 <= i < c.members.len() && r == Ok::<NodeId, Error>(c.members[i].id)
            &&& c.members[i].alive && c.members[i].node.role == Role::Leader
            &&& forall|j: int|
                0 <= j < c.members.len() && (#[trigger] c.members[j]).alive
                    && c.members[j].node.role == Role::Leader ==> c.members[j].node.term
                    <= c.members[i].node.term
            &&& puts_at(c, d, i, data)
        },
{
    cluster_state::lemma_leader_place(c.members);
    match cluster_state::leader_place(c.members) {
        Some(i) => {
            assert(c.members[i].node.log.len() < u64::MAX);
            match r {
                Ok(_) => lemma_proposal(c, i, data, d, Ok(())),
                Err(e) => lemma_proposal(c, i, data, d, Err(e)),
            }
            i
        },
        None => 0,
    }
}

/// Exactly the members that are alive are among the living, in the order of the
/// members.
pub proof fn lemma_living(ms: Seq<MemberView>) -> (at: Seq<int>)
    ensures
        at.len() == living_ids(ms).len(),
        forall|k: int|
            0 <= k < at.len() ==> 0 <= #[trigger] at[k] < ms.len() && ms[at[k]].alive
                && living_ids(ms)[k] == ms[at[k]].id,
        forall|k: int, l: int| 0 <= k < l < at.len() ==> #[trigger] at[k] < #[trigger] at[l],
        forall|i: int| 0 <= i < ms.len() && (#[trigger] ms[i]).alive ==> at.contains(i),
    decreases ms.len(),
{
    if ms.len() == 0 {
        seq![]
    } else {
        let d = ms.drop_last();
        let n = d.len() as int;
        let was = lemma_living(d);
        assert forall|i: int| 0 <= i < n && (#[trigger] ms[i]).alive implies was.contains(i) by {
            assert(d[i] == ms[i]);
        }
        if ms.last().alive {
            let at = was.push(n);
            assert forall|i: int| 0 <= i < ms.len() && (#[trigger] ms[i]).alive implies at.contains(
                i,
            ) by {
                if i < n {
                    let k = was.index_of(i);
                    assert(at[k] == i);
                } else {
                    assert(at[was.len() as int] == i);
                }
            }
            at
        } else {
            was
        }
    }
}

} // verus!
