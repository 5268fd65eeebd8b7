//! Types that every layer shares, and the error that crosses layers.

use bytes::Bytes;
use vstd::prelude::*;
use vstd::string::StringExecFns;

use crate::buffer::{self, octets};
use crate::order::{self, before};
use crate::text::{self, decimal};

verus! {

pub type NodeId = u64;

pub type Term = u64;

pub type LogIndex = u64;

/// Hybrid logical clock timestamp: high 48 bits physical (ms), low 16 bits logical.
pub type Timestamp = u64;

pub type Key = Bytes;

pub type Value = Bytes;

/// `std::io::Error`, which the library carries and does not look into.
#[verifier::external_type_specification]
#[verifier::external_body]
pub struct ExIoError(std::io::Error);

#[derive(Debug)]
pub enum Error {
    /// The node is not the leader; the leader it knows of, if any.
    NotLeader(Option<NodeId>),
    NotFound,
    TxnConflict,
    Io(std::io::Error),
    Storage(String),
    Raft(String),
    Network(String),
    InvalidArgument(String),
    Internal(String),
}

impl From<std::io::Error> for Error {
    fn from(e: std::io::Error) -> (r: Self) {
        Error::Io(e)
    }
}

impl vstd::std_specs::convert::FromSpecImpl<std::io::Error> for Error {
    open spec fn obeys_from_spec() -> bool {
        true
    }

    open spec fn from_spec(e: std::io::Error) -> Self {
        Error::Io(e)
    }
}

/// `std::io::Error::from` the kind `UnexpectedEof`: the error of a reader that
/// ran out of bytes. Nothing is claimed of the opaque error.
#[verifier::external_body]
fn unexpected_eof() -> std::io::Error {
    std::io::Error::from(std::io::ErrorKind::UnexpectedEof)
}

/// `ToString::to_string` of a `std::io::Error`. The text is up to the
/// platform: nothing is claimed of it.
#[verifier::external_body]
fn io_text(e: &std::io::Error) -> String {
    e.to_string()
}

/// How a leader hint is shown.
pub open spec fn hint_text(hint: Option<NodeId>) -> Seq<char> {
    match hint {
        Some(id) => "Some("@ + decimal(id as nat) + ")"@,
        None => "None"@,
    }
}

impl Error {
    /// A storage error with this text.
    pub open spec fn is_storage(self, s: Seq<char>) -> bool {
        self matches Error::Storage(m) && m@ == s
    }

    /// A consensus error with this text.
    pub open spec fn is_raft(self, s: Seq<char>) -> bool {
        self matches Error::Raft(m) && m@ == s
    }

    /// A network error with this text.
    pub open spec fn is_network(self, s: Seq<char>) -> bool {
        self matches Error::Network(m) && m@ == s
    }

    /// An invalid-argument error with this text.
    pub open spec fn is_invalid(self, s: Seq<char>) -> bool {
        self matches Error::InvalidArgument(m) && m@ == s
    }

    /// An internal error with this text.
    pub open spec fn is_internal(self, s: Seq<char>) -> bool {
        self matches Error::Internal(m) && m@ == s
    }

    /// The error of a reader that ran out of bytes.
    pub fn eof() -> (e: Self)
        ensures
            e is Io,
    {
        Error::Io(unexpected_eof())
    }

    /// The error as one line of text. Of an I/O error only the head of the
    /// line is fixed here; the rest is the platform's.
    pub fn message(&self) -> (s: String)
        ensures
            match *self {
                Error::NotLeader(hint) => s@ == "not leader (hint: "@ + hint_text(hint) + ")"@,
                Error::NotFound => s@ == "key not found"@,
                Error::TxnConflict => s@ == "transaction conflict"@,
                Error::Io(_) => "io: "@.is_prefix_of(s@),
                Error::Storage(m) => s@ == "storage: "@ + m@,
                Error::Raft(m) => s@ == "raft: "@ + m@,
                Error::Network(m) => s@ == "network: "@ + m@,
                Error::InvalidArgument(m) => s@ == "invalid argument: "@ + m@,
                Error::Internal(m) => s@ == "internal: "@ + m@,
            },
    {
        match self {
            Error::NotLeader(hint) => {
                let mut s = String::from_str("not leader (hint: ");
                match hint {
                    Some(id) => {
                        s.append("Some(");
                        s.append(text::decimal_text(*id).as_str());
                        s.append(")");
                    },
                    None => s.append("None"),
                }
                s.append(")");
                assert(s@ =~= "not leader (hint: "@ + hint_text(*hint) + ")"@);
                s
            },
            Error::NotFound => String::from_str("key not found"),
            Error::TxnConflict => String::from_str("transaction conflict"),
            Error::Io(e) => String::from_str("io: ").concat(io_text(e).as_str()),
            Error::Storage(m) => String::from_str("storage: ").concat(m.as_str()),
            Error::Raft(m) => String::from_str("raft: ").concat(m.as_str()),
            Error::Network(m) => String::from_str("network: ").concat(m.as_str()),
            Error::InvalidArgument(m) => String::from_str("invalid argument: ").concat(m.as_str()),
            Error::Internal(m) => String::from_str("internal: ").concat(m.as_str()),
        }
    }
}

/// Half-open key range `[start, end)`.
#[derive(Clone, Debug)]
pub struct KeyRange {
    pub start: Key,
    pub end: Key,
}

/// `key` lies in `[start, end)`.
pub open spec fn in_range(start: Seq<u8>, end: Seq<u8>, key: Seq<u8>) -> bool {
    !before(key, start) && before(key, end)
}

impl KeyRange {
    pub fn new(start: Key, end: Key) -> (r: Self)
        ensures
            r.start == start,
            r.end == end,
    {
        Self { start, end }
    }

    /// Whether `key` lies in the range.
    pub fn contains(&self, key: &[u8]) -> (r: bool)
        ensures
            r == in_range(octets(self.start), octets(self.end), key@),
    {
        !order::is_before(key, buffer::as_slice(&self.start)) && order::is_before(
            key,
            buffer::as_slice(&self.end),
        )
    }
}

/// A range has its start but not its end, everything between them, and nothing
/// outside; turned round it has nothing.
pub proof fn lemma_half_open(start: Seq<u8>, end: Seq<u8>, key: Seq<u8>)
    ensures
        before(start, end) ==> in_range(start, end, start),
        !in_range(start, end, end),
        before(start, key) && before(key, end) ==> in_range(start, end, key),
        before(key, start) || before(end, key) ==> !in_range(start, end, key),
        !before(start, end) ==> !in_range(start, end, key),
{
    order::lemma_before_irreflexive(start);
    order::lemma_before_irreflexive(end);
    if before(start, key) && before(key, start) {
        order::lemma_before_asymmetric(start, key);
    }
    if before(end, key) && before(key, end) {
        order::lemma_before_asymmetric(end, key);
    }
    if in_range(start, end, key) && !before(start, end) {
        order::lemma_before_total(start, key);
        if before(start, key) {
            order::lemma_before_transitive(start, key, end);
        }
    }
}

} // verus!
