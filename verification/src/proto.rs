//! Wire types of the key-value and consensus services.

use bytes::Bytes;
use vstd::prelude::*;

use crate::types::{LogIndex, NodeId, Term};

verus! {

#[derive(Debug, Clone)]
pub struct GetRequest {
    pub key: Bytes,
}

#[derive(Debug, Clone)]
pub struct GetResponse {
    pub value: Option<Bytes>,
    pub not_leader: Option<NotLeaderHint>,
}

#[derive(Debug, Clone)]
pub struct PutRequest {
    pub key: Bytes,
    pub value: Bytes,
}

#[derive(Debug, Clone)]
pub struct PutResponse {
    pub not_leader: Option<NotLeaderHint>,
}

impl Default for PutResponse {
    fn default() -> (r: Self)
        ensures
            r.not_leader is None,
    {
        Self { not_leader: None }
    }
}

#[derive(Debug, Clone)]
pub struct DeleteRequest {
    pub key: Bytes,
}

#[derive(Debug, Clone)]
pub struct DeleteResponse {
    pub not_leader: Option<NotLeaderHint>,
}

impl Default for DeleteResponse {
    fn default() -> (r: Self)
        ensures
            r.not_leader is None,
    {
        Self { not_leader: None }
    }
}

#[derive(Debug, Clone)]
pub struct ScanRequest {
    pub start: Bytes,
    pub end: Bytes,
    pub limit: u32,
}

#[derive(Debug, Clone)]
pub struct ScanItem {
    pub key: Bytes,
    pub value: Bytes,
}

#[derive(Debug, Clone)]
pub struct NotLeaderHint {
    pub leader_id: NodeId,
}

impl Default for NotLeaderHint {
    fn default() -> (r: Self)
        ensures
            r.leader_id == 0,
    {
        Self { leader_id: 0 }
    }
}

#[derive(Debug, Clone)]
pub struct AppendEntriesRequest {
    pub term: Term,
    pub leader_id: NodeId,
    pub prev_log_index: LogIndex,
    pub prev_log_term: Term,
    pub entries: Vec<Entry>,
    pub leader_commit: LogIndex,
}

#[derive(Debug, Clone)]
pub struct AppendEntriesResponse {
    pub term: Term,
    pub success: bool,
    pub match_index: LogIndex,
}

#[derive(Debug, Clone)]
pub struct RequestVoteRequest {
    pub term: Term,
    pub candidate_id: NodeId,
    pub last_log_index: LogIndex,
    pub last_log_term: Term,
}

#[derive(Debug, Clone)]
pub struct RequestVoteResponse {
    pub term: Term,
    pub vote_granted: bool,
}

#[derive(Debug, Clone)]
pub struct InstallSnapshotChunk {
    pub term: Term,
    pub leader_id: NodeId,
    pub last_included_index: LogIndex,
    pub last_included_term: Term,
    pub offset: u64,
    pub data: Bytes,
    pub done: bool,
}

#[derive(Debug, Clone)]
pub struct InstallSnapshotResponse {
    pub term: Term,
}

#[derive(Debug, Clone)]
pub struct Entry {
    pub index: LogIndex,
    pub term: Term,
    pub data: Bytes,
}

} // verus!
