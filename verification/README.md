# walrq

A message queue with visibility leases, delayed delivery, dead letter queues, a bound on
what is kept in memory, a write-ahead log, and replication to a majority of nodes. The
library under `src/` is verified with Verus; the program under `app/` puts sockets, files,
the clock and signals around it.

## How the library works with the outside

The library never reads a file, a socket or a clock.

- It is given the time with each call.
- What has to happen on disk comes out as a list of `DiskAction`s, to be carried out in
  order. What a read of the log gave goes in as a `SegmentRead`.
- `QueueEngine::compaction_due` says when the active segment should be rewritten. The host
  asks after a push or an acknowledgement, reads the segment, and hands its bytes to
  `WalrServer::compact_where_due`.
- A request goes into `WalrServer::dispatch`. What comes out is an answer, or something to
  be done first: entries to be sent to the peers, a scan of the log, commands to be decoded.
  The matching `finish_` function then gives the answer.

## Layout

- `src/engine/` is the queue engine.
  - `queue.rs`, `shard.rs`, `single_queue.rs`, `timer_wheel.rs`: the queues in memory.
  - `disk_log.rs`, `wal.rs`, `compaction.rs`, `registry.rs`: the log, its records, what a
    rewrite of it carries over, and the queue names.
  - `model.rs`: the engine's state as mathematics.
  - `laws.rs`, `delivery.rs`, `draining.rs`, `exclusive.rs`, `leases.rs`, `counting.rs`,
    `durability.rs`, `recovery.rs`, `histories.rs`, `sequences.rs`: what holds across
    operations.
- `src/cluster/` is replication: `raft.rs` over the model in `raft_model.rs`, what holds of
  it in `laws.rs`, and how nodes find each other in `discovery.rs`.
- `src/server/` turns requests into decisions and answers.
- `src/protocol.rs`, `src/wire.rs`, `src/ids.rs`, `src/text.rs`, `src/metrics.rs`: messages
  and frames, big-endian numbers, ULIDs and UUIDs, numbers in text, counters.
- `tests/` run the library over files and networks held in memory.
- `app/` is the node program.

## What is trusted

Reading and writing ULIDs (`ulid`) and UUIDs (`uuid`), decompressing payloads (`zstd`), and
two conversions of the standard library from bytes to text. Each stands in a small function
whose comment says what is claimed.
