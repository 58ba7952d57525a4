use vstd::prelude::*;

use crate::bytes::{be_val, read_u16_be};
use crate::error::ScanError;

verus! {

// Pages are numbered from 1.  Page N occupies the byte range
// [(N - 1) * page_size, N * page_size).  Page 1 opens with the 100-byte
// file header, so its B-tree page header starts 100 bytes in; every other
// page's header starts at the page's first byte.

/// First byte offset of page `page_num` within the file.
pub open spec fn page_base_spec(page_num: u32, page_size: u32) -> int {
    (page_num - 1) * page_size
}

/// Offset of the B-tree page header of page `page_num` within the file.
pub open spec fn page_header_offset_spec(page_num: u32, page_size: u32) -> int {
    if page_num == 1 {
        page_base_spec(page_num, page_size) + 100
    } else {
        page_base_spec(page_num, page_size)
    }
}

/// First byte offset of page `page_num` within the file.
pub fn page_base(page_num: u32, page_size: u32) -> (r: usize)
    requires
        page_num >= 1,
        page_base_spec(page_num, page_size) <= usize::MAX,
    ensures
        r as int == page_base_spec(page_num, page_size),
{
    let base: u64 = (page_num - 1) as u64 * page_size as u64;
    base as usize
}

/// Offset of the B-tree page header of page `page_num` within the file.
pub fn page_header_off(page_num: u32, page_size: u32) -> (r: usize)
    requires
        page_num >= 1,
        page_header_offset_spec(page_num, page_size) <= usize::MAX,
    ensures
        r as int == page_header_offset_spec(page_num, page_size),
{
    let base = page_base(page_num, page_size);
    if page_num == 1 {
        base + 100
    } else {
        base
    }
}

/// The page size the file declares: a big-endian 16-bit integer at byte
/// offset 16, where a stored value of 1 stands for 65536.
pub open spec fn page_size_spec(data: Seq<u8>) -> int {
    if be_val(data, 16, 2) == 1 {
        65536
    } else {
        be_val(data, 16, 2)
    }
}

/// Read the file's declared page size, or `FormatError` when the buffer
/// ends before the header field.
pub fn parse_page_size(data: &[u8]) -> (r: Result<u32, ScanError>)
    ensures
        match r {
            Ok(v) => data@.len() >= 18 && v as int == page_size_spec(data@),
            Err(e) => e == ScanError::FormatError && data@.len() < 18,
        },
{
    let raw = read_u16_be(data, 16)?;
    if raw == 1 {
        Ok(65536)
    } else {
        Ok(raw as u32)
    }
}

} // verus!
