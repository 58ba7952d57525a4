use vstd::prelude::*;

verus! {

/// The ways a scan can fail. `IoError` is produced only by callers that load
/// the database file; the in-memory engine itself reports `FormatError` for
/// any malformed or truncated buffer, `TableNotFound` when the schema holds
/// no table of the requested name, and `EmptyResult` when a table's B-tree
/// yields no leaf pages.
#[derive(Clone, Copy, Debug, PartialEq, Eq, Structural)]
pub enum ScanError {
    IoError,
    FormatError,
    TableNotFound,
    EmptyResult,
}

} // verus!
