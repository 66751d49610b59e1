# adb — a verified storage engine core

`adb` is a small MVCC storage engine: snapshot-isolated transactions, a
logical write-ahead log with durable commit, fixed 16 KiB checksummed pages
behind a buffer pool, slotted heap pages, a primary B+Tree (`RowId ->
RowLocation`), a temporal version index, and checkpoint plus WAL recovery.

The library in `src/` is written in Verus. Every executable function carries
a `requires`/`ensures` contract that Verus proves, over mathematical models:
page images as byte sequences, trees as maps from page numbers to images,
stores as maps from row ids to records, the log as a sequence of frames.

## Layout

- `src/page.rs`, `src/slotted.rs`, `src/checksum.rs`, `src/le.rs`: the page
  format, its header checks and sealing, slotted tuple storage.
- `src/buffer/`: the page-store interface, a verified in-memory page store
  and the buffer pool.
- `src/btree/`: node codecs, the primary B+Tree, the version index and the
  root metadata file.
- `src/storage/`: heap file, current and historical stores, the persistent
  current store, checkpoints.
- `src/wal/`: log frames, the reader and the writer.
- `src/tx/`: transactions, the transaction manager, write validation.
- `src/engine/`: recovery, replay of the log tail, and the decisions taken by
  a commit.
- `app/`: files, locks and the serde/bincode row encoding around the library.
- `tests/`: tests that run the library on concrete values.

## Laws

Besides the contracts of each function, `src/` states and proves laws such
as: codec and metadata round trips; a sealed page passes validation; what an
insert writes reads back and leaves every other entry alone (slotted pages,
heap, B+Tree, version index, persistent current store); both trees stay
well formed (proper trees of uniform height) under every insert; recovery
replays only committed transactions and installs exactly the writes of each
commit it reads; a commit keeps older snapshots readable; every page an
insert writes carries the insert's LSN, and every tree page it writes holds a
node within the fanout; a full leaf splits at its middle key.
