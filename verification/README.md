# docdb_rs

A small document database, verified with Verus.

- `src/storage_engine/` — key-value engines over byte strings: an ordered byte
  map (`byte_map.rs`), the in-memory engine (`memory.rs`) and the logic of the
  LSM engine with its write-ahead log and sstables (`lsm.rs`).
- `src/document.rs` — JSON documents keyed by partition, collection and id,
  replayed from a commit log and queried by collection and member value.
- `src/cli.rs` — the console's command parser.
- `src/laws.rs` — properties that span several operations.
- `app/` — the console program and the file I/O: the WAL, the sstable files and
  the commit log, written and read as JSON lines with serde.
