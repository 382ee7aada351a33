# literstream

Streaming replication for SQLite. The write-ahead log of a live database is read,
each run of commits becomes an LTX file, and the files go to object storage. From
there a database is restored, caught up, or read page by page without a full copy.

`src/` is a Verus library: every decision, format and algorithm, with contracts
that Verus proves.

- `wal/` reads the write-ahead log and keeps what is committed.
- `ltx/` encodes, decodes, merges and checks LTX files.
- `storage.rs`, `paths.rs` and `lock.rs` say where files lie and what a
  conditional write means.
- `db.rs` decides on checkpoints and on when a sync has to start over.
- `sync/` plans captures, compactions, restores and retention, and drives them on
  a schedule. `sync/history.rs` and `sync/fidelity.rs` state what replication
  promises: a restored database is the database that was captured.
- `cli.rs` reads replica addresses and timestamps.

`app/` does the work outside the library: SQLite, the file system, object storage,
the clock and the command line. It performs what the library plans and hands back
what happened.

`tests/` runs the library on concrete values.
