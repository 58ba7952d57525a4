//! A verified reader for the subset of the SQLite on-disk file format needed
//! to scan one table: it locates a named table's root page in the schema,
//! walks the table B-tree to collect its leaf pages, decodes each row's
//! record header, and counts the rows whose second column (an IEEE-754
//! double, handled here as its big-endian bit pattern) exceeds a fixed
//! threshold.

pub mod bytes;
pub mod engine;
pub mod error;
pub mod pages;
pub mod protocol;
pub mod scan;
pub mod schema;
pub mod serial;
pub mod varint;
pub mod walker;
