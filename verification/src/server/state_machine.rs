//! Key-value commands, and the state machine that carries them out.
//!
//! ```text
//!   op u8 | keylen u32 | key | value, for a put
//! ```
//!
//! The length is stored least significant byte first. `0` is a put, whose value
//! is the rest of the bytes; `1` is a delete.

use bytes::Bytes;
use vstd::prelude::*;
use vstd::string::StringExecFns;

use crate::buffer::{self, octets};
use crate::codec::{self, u32_at, u32_le};
use crate::raft::state::{applied_through, later_index};
use crate::raft::state_machine::StateMachine;
use crate::raft::types::{Entry, EntryKind, EntryView};
use crate::storage::engine::{
    lemma_written_more, lemma_written_one, written_all, Engine, Op,
};
use crate::text::{self, decimal};
use crate::types::{Error, LogIndex};

verus! {

broadcast use codec::lemma_u32_le_len;

/// A command as it stands in a log entry.
#[derive(Debug, Clone)]
pub enum Command {
    Put { key: Bytes, value: Bytes },
    Delete { key: Bytes },
}

/// The bytes of a command.
pub open spec fn command_bytes(op: Op) -> Seq<u8> {
    match op {
        Op::Put { key, value } => seq![0u8] + u32_le(key.len() as u32) + key + value,
        Op::Delete { key } => seq![1u8] + u32_le(key.len() as u32) + key,
    }
}

/// Why bytes are no command.
pub enum CommandFault {
    Empty,
    NoKeyLen,
    NoKey,
    UnknownOp { op: u8 },
}

/// Reads a command.
pub open spec fn decoded(s: Seq<u8>) -> Result<Op, CommandFault> {
    let end = 5 + u32_at(s, 1) as int;
    if s.len() == 0 {
        Err(CommandFault::Empty)
    } else if s.len() < 5 {
        Err(CommandFault::NoKeyLen)
    } else if s.len() < end {
        Err(CommandFault::NoKey)
    } else if s[0] == 0 {
        Ok(Op::Put { key: s.subrange(5, end), value: s.skip(end) })
    } else if s[0] == 1 {
        Ok(Op::Delete { key: s.subrange(5, end) })
    } else {
        Err(CommandFault::UnknownOp { op: s[0] })
    }
}

/// The text for a fault.
pub open spec fn command_fault_text(f: CommandFault) -> Seq<char> {
    match f {
        CommandFault::Empty => "empty kv command"@,
        CommandFault::NoKeyLen => "kv command: truncated keylen"@,
        CommandFault::NoKey => "kv command: truncated key"@,
        CommandFault::UnknownOp { op } => "unknown kv op "@ + decimal(op as nat),
    }
}

/// A command that was encoded is read back, if its key fits the length field.
pub proof fn lemma_command_read_back(op: Op)
    requires
        op.key().len() <= u32::MAX,
    ensures
        decoded(command_bytes(op)) == Ok::<Op, CommandFault>(op),
{
    let s = command_bytes(op);
    let k = op.key();
    assert(s.subrange(1, 5) =~= u32_le(k.len() as u32));
    codec::lemma_u32_read_back(s, 1, k.len() as u32);
    assert(s.subrange(5, 5 + k.len() as int) =~= k);
    match op {
        Op::Put { value, .. } => {
            assert(s.skip(5 + k.len() as int) =~= value);
        },
        _ => {},
    }
}

impl Command {
    pub open spec fn view(&self) -> Op {
        match self {
            Command::Put { key, value } => Op::Put { key: octets(*key), value: octets(*value) },
            Command::Delete { key } => Op::Delete { key: octets(*key) },
        }
    }

    /// The bytes of the command.
    pub fn encode(&self) -> (b: Bytes)
        ensures
            octets(b) == command_bytes(self@),
    {
        match self {
            Command::Put { key, value } => encode_put(
                buffer::as_slice(key),
                buffer::as_slice(value),
            ),
            Command::Delete { key } => encode_delete(buffer::as_slice(key)),
        }
    }

    /// Reads a command from its bytes.
    pub fn decode(data: &[u8]) -> (r: Result<Self, Error>)
        ensures
            match decoded(data@) {
                Ok(op) => r matches Ok(c) && c@ == op,
                Err(f) => r matches Err(e) && e.is_invalid(command_fault_text(f)),
            },
    {
        let len = data.len();
        if len == 0 {
            return Err(Error::InvalidArgument(String::from_str("empty kv command")));
        }
        if len < 5 {
            return Err(Error::InvalidArgument(String::from_str("kv command: truncated keylen")));
        }
        let keylen = codec::get_u32(data, 1) as usize;
        if len - 5 < keylen {
            return Err(Error::InvalidArgument(String::from_str("kv command: truncated key")));
        }
        let end = 5 + keylen;
        let key = Bytes::copy_from_slice(codec::slice(data, 5, end));
        let op = data[0];
        if op == 0 {
            let value = Bytes::copy_from_slice(codec::slice(data, end, len));
            assert(data@.subrange(end as int, len as int) =~= data@.skip(end as int));
            Ok(Command::Put { key, value })
        } else if op == 1 {
            Ok(Command::Delete { key })
        } else {
            let mut text = String::from_str("unknown kv op ");
            text.append(text::decimal_text(op as u64).as_str());
            Err(Error::InvalidArgument(text))
        }
    }
}

/// The bytes of a put.
pub fn encode_put(key: &[u8], value: &[u8]) -> (b: Bytes)
    ensures
        octets(b) == command_bytes(Op::Put { key: key@, value: value@ }),
{
    let mut buf: Vec<u8> = Vec::new();
    buf.push(0u8);
    codec::put_u32(&mut buf, key.len() as u32);
    codec::put_bytes(&mut buf, key);
    codec::put_bytes(&mut buf, value);
    assert(buf@ =~= command_bytes(Op::Put { key: key@, value: value@ }));
    buffer::from_vec(buf)
}

/// The bytes of a delete.
pub fn encode_delete(key: &[u8]) -> (b: Bytes)
    ensures
        octets(b) == command_bytes(Op::Delete { key: key@ }),
{
    let mut buf: Vec<u8> = Vec::new();
    buf.push(1u8);
    codec::put_u32(&mut buf, key.len() as u32);
    codec::put_bytes(&mut buf, key);
    assert(buf@ =~= command_bytes(Op::Delete { key: key@ }));
    buffer::from_vec(buf)
}

// ---- the state machine -----------------------------------------------------------------

/// What an entry asks of the store: nothing, if it changes the configuration
/// or has no data; otherwise what its command says.
pub open spec fn wanted(e: EntryView) -> Result<Seq<Op>, CommandFault> {
    if e.kind == EntryKind::Normal && e.data.len() > 0 {
        match decoded(e.data) {
            Ok(op) => Ok(seq![op]),
            Err(f) => Err(f),
        }
    } else {
        Ok(seq![])
    }
}

/// The writes that entries ask for, one after another. An entry that is no
/// command asks for none.
pub open spec fn writes_of(es: Seq<EntryView>) -> Seq<Op>
    decreases es.len(),
{
    if es.len() == 0 {
        seq![]
    } else {
        writes_of(es.drop_last()) + wanted_or_none(es.last())
    }
}

/// The writes that an entry asks for.
pub open spec fn wanted_or_none(e: EntryView) -> Seq<Op> {
    match wanted(e) {
        Ok(ops) => ops,
        Err(_) => seq![],
    }
}

/// The writes of the first entry come first.
pub proof fn lemma_writes_first(e: EntryView, rest: Seq<EntryView>)
    ensures
        writes_of(seq![e] + rest) == wanted_or_none(e) + writes_of(rest),
    decreases rest.len(),
{
    let all = seq![e] + rest;
    if rest.len() == 0 {
        assert(all.drop_last() =~= Seq::<EntryView>::empty());
        assert(writes_of(all.drop_last()) == Seq::<Op>::empty());
        assert(writes_of(all) =~= wanted_or_none(e) + writes_of(rest));
    } else {
        lemma_writes_first(e, rest.drop_last());
        assert(all.drop_last() =~= seq![e] + rest.drop_last());
        assert(writes_of(all) =~= wanted_or_none(e) + writes_of(rest));
    }
}

/// The writes of one entry.
pub proof fn lemma_writes_one(e: EntryView)
    ensures
        writes_of(seq![e]) == wanted_or_none(e),
{
    lemma_writes_first(e, Seq::empty());
    assert(seq![e] + Seq::<EntryView>::empty() =~= seq![e]);
    assert(wanted_or_none(e) + writes_of(Seq::empty()) =~= wanted_or_none(e));
}

/// Carries committed commands out on a storage engine.
pub struct KvStateMachine<E: Engine> {
    engine: E,
    applied: LogIndex,
}

impl<E: Engine> KvStateMachine<E> {
    /// The engine.
    pub closed spec fn store(&self) -> E {
        self.engine
    }

    /// A machine that has applied nothing yet.
    pub fn new(engine: E) -> (m: Self)
        requires
            engine.wf(),
        ensures
            m.wf(),
            m.store() == engine,
            m.applied() == 0,
    {
        KvStateMachine { engine, applied: 0 }
    }

    pub fn engine(&self) -> (e: &E)
        ensures
            *e == self.store(),
    {
        &self.engine
    }
}

impl<E: Engine> StateMachine for KvStateMachine<E> {
    open spec fn wf(&self) -> bool {
        self.store().wf()
    }

    open spec fn has_room(&self, entries: Seq<EntryView>) -> bool {
        self.store().has_room(writes_of(entries))
    }

    closed spec fn applied(&self) -> LogIndex {
        self.applied
    }

    /// The store then holds what the commands wrote, and the applied index is
    /// the highest of all.
    open spec fn leads_to(&self, entries: Seq<EntryView>, now: &Self) -> bool {
        &&& now.applied() == applied_through(self.applied(), entries)
        &&& self.store().intact() ==> now.store().intact() && now.store().contents()
            == written_all(self.store().contents(), writes_of(entries))
    }

    /// An entry is refused where it holds no command, and nothing changes then;
    /// or where the store is not intact and takes no writes.
    open spec fn refuses(&self, entry: EntryView, e: Error, now: &Self) -> bool {
        match wanted(entry) {
            Err(f) => e.is_invalid(command_fault_text(f)) && *now == *self,
            Ok(ops) => ops.len() > 0 && !self.store().intact() && now.applied() == self.applied(),
        }
    }

    proof fn lemma_start(&self) {
    }

    proof fn lemma_room_first(&self, first: EntryView, rest: Seq<EntryView>) {
        lemma_writes_first(first, rest);
        lemma_writes_one(first);
        self.engine.lemma_room_prefix(wanted_or_none(first), writes_of(rest));
    }

    fn apply(&mut self, entry: &Entry) -> (r: Result<Bytes, Error>)
        ensures
            match wanted(entry@) {
                Err(f) => (r matches Err(e) && e.is_invalid(command_fault_text(f)))
                    && *final(self) == *old(self),
                Ok(ops) => {
                    &&& r matches Ok(b) ==> octets(b) == Seq::<u8>::empty()
                        && final(self).applied() == later_index(old(self).applied(), entry.index)
                    &&& r is Err ==> final(self).applied() == old(self).applied()
                    &&& ops.len() == 0 ==> r is Ok && final(self).store() == old(self).store()
                    &&& old(self).store().intact() ==> r is Ok && final(self).store().intact()
                        && final(self).store().contents() == written_all(
                        old(self).store().contents(),
                        ops,
                    )
                },
            },
    {
        let ghost e = entry@;
        proof {
            lemma_writes_one(e);
        }
        match entry.kind {
            EntryKind::Normal => {
                if entry.data.len() > 0 {
                    match Command::decode(buffer::as_slice(&entry.data)) {
                        Ok(command) => {
                            let ghost op = command@;
                            proof {
                                lemma_written_one(self.engine.contents(), op);
                            }
                            let done = match command {
                                Command::Put { key, value } => self.engine.put(key, value),
                                Command::Delete { key } => self.engine.delete(
                                    buffer::as_slice(&key),
                                ),
                            };
                            proof {
                                assert forall|rest: Seq<EntryView>|
                                    old(self).has_room(seq![e] + rest) implies
                                    #[trigger] self.has_room(rest) by {
                                    lemma_writes_first(e, rest);
                                }
                            }
                            match done {
                                Ok(_) => {},
                                Err(err) => {
                                    return Err(err);
                                },
                            }
                        },
                        Err(err) => {
                            proof {
                                assert forall|rest: Seq<EntryView>|
                                    old(self).has_room(seq![e] + rest) implies
                                    #[trigger] self.has_room(rest) by {
                                    lemma_writes_first(e, rest);
                                    assert(wanted_or_none(e) + writes_of(rest) =~= writes_of(rest));
                                }
                            }
                            return Err(err);
                        },
                    }
                }
            },
            EntryKind::ConfChange => {},
        }
        if entry.index > self.applied {
            self.applied = entry.index;
        }
        proof {
            assert forall|rest: Seq<EntryView>| old(self).has_room(seq![e] + rest) implies
                #[trigger] self.has_room(rest) by {
                lemma_writes_first(e, rest);
                if wanted_or_none(e).len() == 0 {
                    assert(wanted_or_none(e) + writes_of(rest) =~= writes_of(rest));
                }
            }
        }
        proof {
            assert forall|start: Self, entries: Seq<EntryView>|
                start.leads_to(entries, old(self)) implies #[trigger] start.leads_to(
                entries.push(e),
                self,
            ) by {
                let all = entries.push(e);
                assert(all.drop_last() =~= entries);
                let ops = wanted_or_none(e);
                lemma_written_more(start.store().contents(), writes_of(entries), ops);
            }
        }
        Ok(Bytes::new())
    }

    fn snapshot(&self) -> (r: Result<Bytes, Error>)
        ensures
            r matches Err(e) && e.is_storage("KvStateMachine snapshot not implemented"@),
    {
        Err(Error::Storage(String::from_str("KvStateMachine snapshot not implemented")))
    }

    fn restore(&mut self, snapshot: Bytes) -> (r: Result<(), Error>)
        ensures
            r matches Err(e) && e.is_storage("KvStateMachine restore not implemented"@),
            *final(self) == *old(self),
    {
        Err(Error::Storage(String::from_str("KvStateMachine restore not implemented")))
    }

    fn applied_index(&self) -> (i: LogIndex) {
        self.applied
    }
}

} // verus!
