# mukhidb

A small SQL database engine: tables of INTEGER and TEXT columns, stored as
B+Trees of slotted 4 KB pages, made durable through a write-ahead log, and
served over a length-prefixed TCP protocol.

The library in `src/` holds the engine's logic, verified with Verus:

- `types`, `row` — values, schemas and the binary row codec
- `bytes`, `text`, `scan` — little-endian codecs, text conversion, scanning
- `wal` — log records, the log of a commit, and recovery
- `pager` — the page cache, transactions, commits queued for durability
- `btree` — slotted leaves, splits, scans and the tree dump
- `shape` — the shape of a sound tree, and how inserts keep it
- `order` — key order in the tree: bounds per node, and how inserts keep them
- `storage` — tables with their metadata page; insert, select, transactions
- `session` — per-client transaction state and the transaction slot
- `parser`, `executor` — SQL statements and their results
- `protocol` — the wire format
- `cli` — command-line options
- `frontend` — meta-commands, server requests and replies, the printed table

`app/` is the program around it: files, sockets, threads and the REPL.
