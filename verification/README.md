# kepler

A replicated key-value store, verified with Verus: a log-structured storage
engine with a write-ahead log, Raft consensus as pure logic, and transactions
over a hybrid logical clock.

The library does no I/O. It decides; the host carries out. The storage layer
queues changes to files (`storage::disk::DiskEffect`), and a Raft node queues
messages and committed entries (`raft::node::Ready`).

## Layout

| Path | What it holds |
|---|---|
| `src/types.rs`, `src/proto.rs`, `src/client.rs` | shared types, wire types, the client's view of the cluster |
| `src/buffer.rs`, `src/checksum.rs`, `src/codec.rs`, `src/text.rs` | shared buffers, CRC-32, byte codecs, file names and messages |
| `src/order.rs`, `src/ordered.rs` | the order of keys, and a map in key order |
| `src/storage/` | records, segments and the log; the engine interface; the engine in memory; `lsm/`, the log-structured engine |
| `src/raft/` | a node as a value (`state.rs`), the node itself (`node.rs`), what every step keeps (`laws.rs`) and sends (`sends.rs`), that a leader commits what it may (`commits.rs`), and what holds over any sequence of events (`history.rs`) |
| `src/server/` | commands and the state machine, the deterministic cluster, and what holds of it: one leader per term (`election.rs`), matching logs (`matching.rs`), that what is committed stays committed (`chronicle.rs`, `record.rs`, `safety.rs`), that a leader which is cut off commits nothing (`isolation.rs`), what a round leaves alone (`rounds.rs`), who wins a cold start (`cold_start.rs`), that commands reach every living member (`replication.rs`) |
| `src/mvcc/` | clock, transactions and their store |
| `tests/` | the library from outside |
| `app/` | the host: files, locks, the network simulator, `main` |

## What is proved

Besides the contract of each function:

- What is written to the log is read back, and a torn tail is cut off
  (`storage/reopen.rs`).
- An engine that is opened on the files of another holds what that one held,
  wherever between two effects of a write, of a flush or of a merge the host
  stopped (`storage/lsm/recover.rs`, `storage/lsm/crash.rs`).
- Over any sequence of calls the last write to a key wins, flushes and merges
  make no difference, and the files give everything back, wherever the host
  stopped carrying out what it was told (`storage/lsm/history.rs`,
  `storage/lsm/durability.rs`). Files that a snapshot keeps of tables that were
  merged away must hide nothing: with the value of a key in a table that is kept,
  and its deletion in one that is gone, the value would come back.
- The buffer comes to the same in whatever order its writes come in
  (`storage/lsm/memtable.rs`).
- Over any sequence of events, restarts among them, a node votes for one
  candidate in a term, sends only stretches of its own log, and hands out each
  committed entry once (`raft/history.rs`).
- In a cluster no term has two leaders, and logs match
  (`server/election.rs`, `server/matching.rs`).
- Whatever is cut and whoever stops, two members that have committed the same
  place have the same entry there, more than half of the cluster has it, and so
  has every later leader; and stores that have come equally far are the same, at
  whatever times they are looked at (`server/safety.rs`). A leader that is cut off
  commits nothing (`server/isolation.rs`).
- From a cold start the node with the lowest id wins, and every living member then
  ends up with the commands given to the leader, in order, and with what they
  write, as long as more than half of the members are alive
  (`server/cold_start.rs`, `server/replication.rs`).
