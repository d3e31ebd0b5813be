//! mukhidb: a small SQL database engine — the verified core.
//!
//! The modules here hold the logic of the engine: value types, the binary
//! row codec, little-endian helpers, the page cache, the B+Tree with slotted
//! leaves, the write-ahead log codec and recovery, the wire protocol, the SQL
//! parser and the executor. File and network I/O stay outside the library.
pub mod bytes;
pub mod types;
pub mod text;
pub mod row;
pub mod wal;
pub mod pager;
pub mod btree;
pub mod shape;
pub mod order;
pub mod protocol;
pub mod storage;
pub mod session;
pub mod scan;
pub mod parser;
pub mod executor;
pub mod cli;
pub mod frontend;
