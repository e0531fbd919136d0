# facetql

The storage engine of a graph and document database, written in Verus: every
item under `src/` is verified against the contract it states.

A database holds nodes (JSON documents at addresses), edges between them, the
states that nodes were in, users, and declared indexes and references. Reads
go from an address to a record through a B+tree; changes are in a write-ahead
log before the tables carry them out; checkpoints bring the rest up to date
and let the log start anew.

## Layout

- `src/page.rs`, `src/btree.rs`, `src/btree/`: slotted pages, and copy-on-write
  B+trees with two meta pages.
- `src/binary.rs`, `src/record.rs`, `src/heap.rs`, `src/segments.rs`,
  `src/catalog.rs`, `src/cache.rs`: checksummed frames, records, and the heap
  that holds them.
- `src/wal.rs`, `src/commit.rs`, `src/checkpoint.rs`, `src/changes.rs`: the log,
  frames of transactions in it, the durability checkpoint, and the feed of
  changes.
- `src/json.rs`, `src/order.rs`, `src/keys.rs`, `src/cursor.rs`: values, their
  order as bytes, index keys, and cursors.
- `src/tables.rs`, `src/tables/`: what the indexes and the heap hold together,
  and how operations, queries, counts and compaction work on it. Opening looks
  the files over (`src/btree/audit.rs`, `src/tables/audit.rs`), so that what is
  opened is in order.
  `src/tables/model.rs` is the model of a database that the contracts speak of.
- `src/engine.rs`, `src/engine/`: log, tables and cache as one: atomic changes,
  transactions, declarations, queries, checkpoints and recovery.
- `app/`: the files around the engine.
- `tests/`: scenarios.

Laws that span functions are public proof functions whose names begin with
`law_`.
