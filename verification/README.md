# Z1KV

An embedded key-value engine with multi-version concurrency control, verified
with Verus.

- Every version is `(column family, key, transaction) -> value | tombstone`.
- A transaction reads from the snapshot that it pinned when it began; at commit
  its reads and writes are checked for conflicts.
- Versions live in three layers: L1 in memory, L2 in patch files, L3 in frozen
  patch files that compaction writes.
- A write-ahead log and checkpoints make what is committed survive a crash.

## Layout

`src/` is the library. It decides, and touches no file: what is to be read,
written or deleted it returns as plain values, and it takes the outcome back.

| module | what it holds |
|---|---|
| `bytes`, `text`, `sort`, `maps` | byte strings, numbers as text, a stable sort, walks over maps |
| `codec` | checksums and payloads, the on-disk frame, the clock |
| `error`, `metrics`, `config` | errors with their severity, degradation counters, settings |
| `durable_writer` | the steps of a crash-safe file write |
| `mvcc` | transactions, the committed history, visibility, the snapshot cache |
| `store` | versions, the memory store, patch layers, flush, compaction, garbage collection |
| `wal` | records, segments, replay, recovery, checkpoints |
| `txn` | the engine and its maintenance, the commit protocol |

What holds of several functions together stands in proof functions whose names
begin with `law_`: of visibility in `mvcc::laws`, of GC in `store::gc_laws`, of
the engine as a whole in `txn::laws`, of runs of calls in `txn::runs`, of the
others beside the code they are about.

`app/` is the engine on a file system: `Engine` puts a lock and the files around
the library's `Z1Kv`.

`tests/` runs the library; `tests/engine.rs` runs the engine on a disk that is
kept in memory.

## What is trusted

Verus checks everything in `src/` but the calls of outside functions: CRC-32
checksums (`crc32fast`), payload encodings (`postcard`), the system clock, and a
few functions of the standard library. Their contracts are written beside them,
in `codec::payload`, `codec::timestamp`, `codec::disk_format` and `store::types`.
