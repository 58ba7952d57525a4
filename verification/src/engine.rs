use vstd::prelude::*;

use crate::error::ScanError;
use crate::pages::{page_size_spec, parse_page_size};
use crate::scan::{query, scan_pages, ScanCounts};
use crate::schema::{find_table_root, table_root_spec};
use crate::walker::{collect_leaf_pages, collect_spec};

verus! {

// The whole engine, end to end: a buffer shorter than the 100-byte file
// header is rejected before any page is touched; then the declared page
// size is read, the named table's root page resolved through the schema,
// its leaf pages collected, and its rows scanned.

/// What scanning `data` for the table named (in UTF-8 bytes) `name` yields:
/// the rows scanned and the rows matched, or the first error met.
pub open spec fn run_query_spec(data: Seq<u8>, name: Seq<u8>) -> Result<(int, int), ScanError> {
    if data.len() < 100 {
        Err(ScanError::FormatError)
    } else {
        let page_size = page_size_spec(data) as u32;
        match table_root_spec(data, name) {
            Err(e) => Err(e),
            Ok(root) => match collect_spec(data, page_size, root) {
                None => Err(ScanError::FormatError),
                Some(leaves) => if leaves.len() == 0 {
                    Err(ScanError::EmptyResult)
                } else {
                    match scan_pages(data, page_size, leaves) {
                        None => Err(ScanError::FormatError),
                        Some(counts) => Ok(counts),
                    }
                },
            },
        }
    }
}

/// Run the full scan over an in-memory database image: find the table
/// called `table_name`, walk its B-tree, and count its rows and the rows
/// whose `cpu_pct` column exceeds the threshold.  A buffer shorter than
/// the 100-byte file header is a `FormatError` before any page access.
pub fn run_query(data: &[u8], table_name: &[u8]) -> (r: Result<ScanCounts, ScanError>)
    ensures
        data@.len() < 100 ==> r == Err::<ScanCounts, ScanError>(ScanError::FormatError),
        match r {
            Ok(c) => {
                &&& run_query_spec(data@, table_name@) == Ok::<(int, int), ScanError>(
                    (c.rows_scanned as int, c.matching_rows as int),
                )
                &&& c.matching_rows <= c.rows_scanned
            },
            Err(e) => match run_query_spec(data@, table_name@) {
                Ok(counts) => e == ScanError::FormatError && counts.0 > u64::MAX,
                Err(e2) => e == e2,
            },
        },
{
    if data.len() < 100 {
        return Err(ScanError::FormatError);
    }
    let page_size = match parse_page_size(data) {
        Ok(v) => v,
        Err(e) => {
            proof {
                assert(false);
            }
            return Err(e);
        },
    };
    let root = find_table_root(data, table_name)?;
    let mut leaves: Vec<u32> = Vec::new();
    match collect_leaf_pages(data, page_size, root, &mut leaves) {
        Ok(()) => {},
        Err(e) => {
            return Err(e);
        },
    }
    if leaves.len() == 0 {
        return Err(ScanError::EmptyResult);
    }
    query(data, page_size, leaves.as_slice())
}

} // verus!
