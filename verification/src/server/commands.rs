//! What commands are for: what they say is what the stores hold.

use vstd::prelude::*;

use crate::codec::{self, u32_at, u32_le};
use crate::raft::state::applied_through;
use crate::raft::types::{EntryKind, EntryView};
use crate::server::cluster_state::ClusterView;
use crate::server::replication::{self, served, settled, with_all, Standing};
use crate::server::safety;
use crate::server::state_machine::{
    self, command_bytes, decoded, wanted, wanted_or_none, writes_of, CommandFault,
};
use crate::storage::engine::{lemma_written_more, written_all, Op};
use crate::types::LogIndex;

verus! {

/// A command is a byte that says what it is, the length of the key, the key, and for
/// a put the value.
pub proof fn lemma_command_layout(op: Op)
    requires
        op.key().len() <= u32::MAX,
    ensures
        match op {
            Op::Put { key, value } => {
                &&& command_bytes(op).len() == 5 + key.len() + value.len()
                &&& command_bytes(op)[0] == 0
                &&& u32_at(command_bytes(op), 1) == key.len()
                &&& command_bytes(op).subrange(5, 5 + key.len() as int) == key
                &&& command_bytes(op).skip(5 + key.len() as int) == value
            },
            Op::Delete { key } => {
                &&& command_bytes(op).len() == 5 + key.len()
                &&& command_bytes(op)[0] == 1
                &&& u32_at(command_bytes(op), 1) == key.len()
                &&& command_bytes(op).skip(5) == key
            },
        },
{
    let s = command_bytes(op);
    let k = op.key();
    codec::lemma_u32_le_len(k.len() as u32);
    assert(s.subrange(1, 5) =~= u32_le(k.len() as u32));
    codec::lemma_u32_read_back(s, 1, k.len() as u32);
    match op {
        Op::Put { key, value } => {
            assert(s.subrange(5, 5 + key.len() as int) =~= key);
            assert(s.skip(5 + key.len() as int) =~= value);
        },
        Op::Delete { key } => {
            assert(s.skip(5) =~= key);
        },
    }
}

/// Bytes are no command exactly if they are too short for the length of the key, or
/// for the key, or say that they are something else.
pub proof fn lemma_no_command(s: Seq<u8>)
    ensures
        decoded(s) == Err::<Op, CommandFault>(CommandFault::Empty) <==> s.len() == 0,
        decoded(s) == Err::<Op, CommandFault>(CommandFault::NoKeyLen) <==> 1 <= s.len() <= 4,
        decoded(s) == Err::<Op, CommandFault>(CommandFault::NoKey) <==> s.len() >= 5 && s.len() < 5
            + u32_at(s, 1),
        decoded(s) is Ok <==> s.len() >= 5 && s.len() >= 5 + u32_at(s, 1) && s[0] <= 1,
        decoded(s) is Err && s.len() >= 5 && s.len() >= 5 + u32_at(s, 1) ==> decoded(s) == Err::<
            Op,
            CommandFault,
        >(CommandFault::UnknownOp { op: s[0] }),
{
}

/// An entry with a command asks for what the command says; one that changes the
/// configuration, or is empty, asks for nothing.
pub proof fn lemma_command_wanted(e: EntryView, op: Op)
    ensures
        e.kind == EntryKind::Normal && e.data == command_bytes(op) && op.key().len() <= u32::MAX
            ==> wanted(e) == Ok::<Seq<Op>, CommandFault>(seq![op]) && wanted_or_none(e) == seq![op],
        e.kind != EntryKind::Normal || e.data.len() == 0 ==> wanted(e) == Ok::<
            Seq<Op>,
            CommandFault,
        >(seq![]),
{
    if op.key().len() <= u32::MAX {
        lemma_command_layout(op);
        state_machine::lemma_command_read_back(op);
    }
}

/// The entries are these commands, one after another.
pub open spec fn are_commands(es: Seq<EntryView>, ops: Seq<Op>) -> bool {
    &&& es.len() == ops.len()
    &&& forall|i: int|
        0 <= i < es.len() ==> (#[trigger] es[i]).kind == EntryKind::Normal && es[i].data
            == command_bytes(ops[i]) && ops[i].key().len() <= u32::MAX
}

/// Entries with commands write what the commands say, in order.
pub proof fn lemma_commands_write(es: Seq<EntryView>, ops: Seq<Op>)
    requires
        are_commands(es, ops),
    ensures
        writes_of(es) == ops,
    decreases es.len(),
{
    if es.len() > 0 {
        let d = es.drop_last();
        let n = es.len() - 1;
        assert forall|i: int| 0 <= i < d.len() implies (#[trigger] d[i]).kind == EntryKind::Normal
            && d[i].data == command_bytes(ops.drop_last()[i]) && ops.drop_last()[i].key().len()
            <= u32::MAX by {
            assert(es[i] == d[i]);
        }
        lemma_commands_write(d, ops.drop_last());
        assert(es[n].kind == EntryKind::Normal);
        lemma_command_wanted(es[n], ops[n]);
        assert(ops.drop_last() + seq![ops[n]] =~= ops);
    } else {
        assert(writes_of(es) =~= ops);
    }
}

/// How far a machine has come is the highest number of all that it has applied.
pub proof fn lemma_applied_through(applied: LogIndex, es: Seq<EntryView>)
    ensures
        applied_through(applied, es) >= applied,
        forall|i: int| 0 <= i < es.len() ==> applied_through(applied, es) >= (#[trigger] es[i]).index,
        applied_through(applied, es) == applied || exists|i: int|
            0 <= i < es.len() && (#[trigger] es[i]).index == applied_through(applied, es),
    decreases es.len(),
{
    if es.len() > 0 {
        let d = es.drop_last();
        let n = es.len() - 1;
        lemma_applied_through(applied, d);
        assert forall|i: int| 0 <= i < es.len() implies applied_through(applied, es) >= (
        #[trigger] es[i]).index by {
            if i < n {
                assert(d[i] == es[i]);
            }
        }
        if applied_through(applied, es) != applied {
            if applied_through(applied, d) >= es[n].index {
                let i = choose|i: int|
                    0 <= i < d.len() && (#[trigger] d[i]).index == applied_through(applied, d);
                assert(es[i].index == applied_through(applied, es));
            } else {
                assert(es[n].index == applied_through(applied, es));
            }
        }
    }
}

/// In a cluster that has settled, commands that are given to the leader one after
/// another are what every living member's store then holds, on top of what it held:
/// a put key has its last value, and a deleted one has none.
pub proof fn lemma_commands_visible(
    c: ClusterView,
    z: Standing,
    ops: Seq<Op>,
    commands: Seq<Seq<u8>>,
    ticks: nat,
    rounds: nat,
    i: int,
)
    requires
        z.wf(),
        settled(c, z),
        z.log.len() + commands.len() + 1 < u64::MAX,
        z.store == written_all(Map::empty(), writes_of(z.log)),
        ticks >= 5,
        rounds >= 1,
        z.lives(i),
        commands.len() == ops.len(),
        forall|k: int|
            0 <= k < ops.len() ==> (#[trigger] commands[k]) == command_bytes(ops[k])
                && ops[k].key().len() <= u32::MAX,
    ensures
        served(c, z.lead, commands, ticks, rounds).members[i].store == written_all(z.store, ops),
{
    replication::lemma_commands_reach_all(c, z, commands, ticks, rounds, i);
    let log = with_all(z, commands).log;
    let n = z.log.len() as int;
    let rest = log.skip(n);
    lemma_all_normal(z, commands);
    assert forall|k: int| 0 <= k < rest.len() implies (#[trigger] rest[k]).kind == EntryKind::Normal
        && rest[k].data == command_bytes(ops[k]) && ops[k].key().len() <= u32::MAX by {
        assert(rest[k] == log[n + k]);
        assert(commands[k] == command_bytes(ops[k]));
    }
    lemma_commands_write(rest, ops);
    assert(log =~= z.log + rest);
    safety::lemma_writes_more(z.log, rest);
    lemma_written_more(Map::empty(), writes_of(z.log), writes_of(rest));
}

/// What a leader makes of commands are plain entries.
proof fn lemma_all_normal(z: Standing, commands: Seq<Seq<u8>>)
    ensures
        with_all(z, commands).log.len() == z.log.len() + commands.len(),
        forall|k: int|
            0 <= k < commands.len() ==> (#[trigger] with_all(z, commands).log[z.log.len() + k]).kind
                == EntryKind::Normal,
    decreases commands.len(),
{
    if commands.len() > 0 {
        let d = commands.drop_last();
        lemma_all_normal(z, d);
        let p = with_all(z, d).log;
        let l = with_all(z, commands).log;
        assert forall|k: int| 0 <= k < commands.len() implies (#[trigger] l[z.log.len() + k]).kind
            == EntryKind::Normal by {
            if k < d.len() {
                assert(l[z.log.len() + k] == p[z.log.len() + k]);
            }
        }
    }
}

} // verus!
