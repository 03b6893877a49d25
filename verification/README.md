# smg_core

The verified core of a model gateway: replicated key-value state, its wire format,
background responses and a few smaller pieces. `src/` is written in Verus; every
function in it is verified against its contract, except the small wrappers around calls
into other crates, whose contracts are trusted (see below). `app/` is the ordinary Rust
around it: storage ports, HTTP, tasks, metrics and serialization.

## Layout

- `src/crdt_kv` — replica identities and Lamport clocks, operations and their log, send
  watermarks, rate-limit shards, and three engines: last writer wins, rate limits, and
  rate limits stored as bytes.
- `src/transport` — batches of operations on the wire.
- `src/background` — creation of background responses as a state machine, the snapshot
  of their input, the driver that runs jobs, its supervisor and the fallback worker.
- `src/scheduler` — descriptions and samples of the scheduler's metrics.
- `src/wasm` — the text form of hashes and timestamps, and the types of modules.
- `src/bytes.rs`, `src/keyed.rs`, `src/text.rs` — integers as bytes, lists of pairs as
  maps, and text.

## What is proved

Each public function states its result exactly, over mathematical views of its
arguments. Beyond that, public proof functions whose names start with `law_` state what
holds across functions. The main ones:

- Nodes that were given the same operations agree, however these were split into
  batches, ordered and repeated, and so do nodes that exchange their logs. What comes
  again changes nothing, and the clock passes everything that came
  (`crdt_kv/engine/lww_convergence.rs`, `crdt_kv/engine/rate_limit_convergence.rs`).
  Conditions: one version stamps one operation; for rate limits, one version stamps one
  value of a key, and shards come in the normal form that merging gives them. That a
  rate-limit log goes on telling the state when it is folded asks in addition that one
  version is used for one key, and that of each key the points that its operations carry
  fit into an encoded shard of 64 KiB. A local write keeps a log telling the state as
  long as the log is not truncated.
- Merging rate-limit states commutes, associates and absorbs, a tombstone is never
  forgotten, and compaction loses nothing (`crdt_kv/epoch_laws.rs`,
  `crdt_kv/log_laws.rs`).
- A watermark never goes back (`crdt_kv/watermark.rs`), and operations survive the wire
  in batches of bounded size (`transport/crdt_batch.rs`).
- No snapshot exceeds its cap, wherever its items come from, and every conversation row
  that decodes is replayed, reasoning aside (`background/snapshot.rs`). No more jobs run
  at once than configured, every job that is claimed is run, once, and one that returns
  wakes the claim loop (`background/driver.rs`). A periodic task calls back once
  per wake, survives panics and ends with its owner (`background/supervisor.rs`).

## What is trusted

Calls into `uuid`, `bincode`, `dashmap` and `chrono` stand behind small functions with
stated contracts. Each of them says in its comment which call it makes and what is
assumed of it.
