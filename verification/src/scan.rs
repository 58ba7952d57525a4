use vstd::prelude::*;

use crate::bytes::{be_val, read_u16_be, read_u64_be};
use crate::error::ScanError;
use crate::pages::{page_base_spec, page_header_offset_spec};
use crate::serial::{col_size, col_size_spec};
use crate::varint::{
    lemma_varint_len_bounds, read_varint, varint_len, varint_ok, varint_value,
};

verus! {

// Each leaf cell holds a row of the scanned table: hostname TEXT, then
// cpu_pct REAL.  The record header is decoded just far enough to find the
// first column's width; the second column is taken to be an eight-byte
// IEEE-754 double straight after it.  The predicate `cpu_pct > 80.0` is
// evaluated on the double's big-endian bit pattern: non-negative doubles
// order exactly like their bit patterns, 80.0 is 0x4054000000000000, every
// pattern above positive infinity's 0x7FF0000000000000 is a NaN, and every
// pattern with the sign bit set is negative — so the strict comparison
// holds exactly for the patterns strictly between those two bounds,
// positive infinity included.

/// Bit pattern of the threshold 80.0 as an IEEE-754 double.
pub const CPU_THRESHOLD_BITS: u64 = 0x4054000000000000;

/// Bit pattern of positive infinity as an IEEE-754 double.
pub const POSITIVE_INFINITY_BITS: u64 = 0x7FF0000000000000;

/// The double encoded by `bits` is strictly greater than 80.0.
pub open spec fn row_matches_spec(bits: u64) -> bool {
    CPU_THRESHOLD_BITS < bits <= POSITIVE_INFINITY_BITS
}

/// Whether the double encoded big-endian by `bits` exceeds the threshold;
/// exact on the boundary: the threshold itself does not match.
pub fn row_matches(bits: u64) -> (r: bool)
    ensures
        r == row_matches_spec(bits),
{
    CPU_THRESHOLD_BITS < bits && bits <= POSITIVE_INFINITY_BITS
}

/// The bit pattern of the second column of the row in cell `i` of the leaf
/// page with base `p_base` and header at `h`, or `None` when any read runs
/// past the buffer.
pub open spec fn cell_cpu_bits(data: Seq<u8>, p_base: int, h: int, i: int) -> Option<u64> {
    if h + 8 + 2 * i + 2 > data.len() {
        None
    } else {
        let cell = p_base + be_val(data, h + 8 + 2 * i, 2);
        if !varint_ok(data, cell) {
            None
        } else {
            let p1 = cell + varint_len(data, cell);  // past payload_size
            if !varint_ok(data, p1) {
                None
            } else {
                let p2 = p1 + varint_len(data, p1);  // past rowid
                if !varint_ok(data, p2) {
                    None
                } else {
                    let h_end = p2 + varint_value(data, p2);
                    let p3 = p2 + varint_len(data, p2);
                    if !varint_ok(data, p3) {
                        None
                    } else {
                        let t0 = varint_value(data, p3) as u64;
                        let cpu_off = h_end + col_size_spec(t0);
                        if cpu_off + 8 > data.len() {
                            None
                        } else {
                            Some(be_val(data, cpu_off, 8) as u64)
                        }
                    }
                }
            }
        }
    }
}

/// How many of the rows in cells `i` up to `n` match the predicate.
pub open spec fn page_match_count(data: Seq<u8>, p_base: int, h: int, i: int, n: int) -> Option<
    int,
>
    decreases n - i,
{
    if i >= n {
        Some(0)
    } else {
        match cell_cpu_bits(data, p_base, h, i) {
            None => None,
            Some(bits) => match page_match_count(data, p_base, h, i + 1, n) {
                None => None,
                Some(m) => Some(
                    m + if row_matches_spec(bits) {
                        1int
                    } else {
                        0int
                    },
                ),
            },
        }
    }
}

/// The declared cell count of the page: its rows scanned.
pub open spec fn page_num_cells(data: Seq<u8>, page_size: u32, p: u32) -> int {
    be_val(data, page_header_offset_spec(p, page_size) + 3, 2)
}

/// Rows scanned and rows matched on one leaf page.
pub open spec fn leaf_page_counts(data: Seq<u8>, page_size: u32, p: u32) -> Option<(int, int)> {
    if p == 0 {
        None
    } else {
        let h = page_header_offset_spec(p, page_size);
        if h + 5 > data.len() {
            None
        } else {
            let n = be_val(data, h + 3, 2);
            match page_match_count(data, page_base_spec(p, page_size), h, 0, n) {
                None => None,
                Some(m) => Some((n, m)),
            }
        }
    }
}

/// Rows scanned and rows matched over a list of leaf pages.
pub open spec fn scan_pages(data: Seq<u8>, page_size: u32, pages: Seq<u32>) -> Option<(int, int)>
    decreases pages.len(),
{
    if pages.len() == 0 {
        Some((0, 0))
    } else {
        match leaf_page_counts(data, page_size, pages[0]) {
            None => None,
            Some(pc) => match scan_pages(data, page_size, pages.drop_first()) {
                None => None,
                Some(rc) => Some((pc.0 + rc.0, pc.1 + rc.1)),
            },
        }
    }
}

/// Sum of the declared cell counts of the pages.
pub open spec fn sum_num_cells(data: Seq<u8>, page_size: u32, pages: Seq<u32>) -> int
    decreases pages.len(),
{
    if pages.len() == 0 {
        0
    } else {
        page_num_cells(data, page_size, pages[0]) + sum_num_cells(
            data,
            page_size,
            pages.drop_first(),
        )
    }
}

proof fn lemma_page_match_count_bounds(data: Seq<u8>, p_base: int, h: int, i: int, n: int)
    requires
        page_match_count(data, p_base, h, i, n) is Some,
    ensures
        0 <= page_match_count(data, p_base, h, i, n).unwrap() <= if n - i >= 0 {
            n - i
        } else {
            0
        },
    decreases n - i,
{
    if i < n {
        lemma_page_match_count_bounds(data, p_base, h, i + 1, n);
    }
}

/// Whenever a scan over a page list succeeds, the rows scanned equal the
/// sum of the pages' declared cell counts, and the matching rows never
/// exceed the rows scanned.
pub proof fn lemma_scan_counts(data: Seq<u8>, page_size: u32, pages: Seq<u32>)
    requires
        scan_pages(data, page_size, pages) is Some,
    ensures
        ({
            let c = scan_pages(data, page_size, pages).unwrap();
            &&& 0 <= c.1 <= c.0
            &&& c.0 == sum_num_cells(data, page_size, pages)
        }),
    decreases pages.len(),
{
    if pages.len() > 0 {
        lemma_scan_counts(data, page_size, pages.drop_first());
        let p = pages[0];
        let h = page_header_offset_spec(p, page_size);
        let n = be_val(data, h + 3, 2);
        crate::bytes::lemma_be_val_nonneg(data, h + 3, 2);
        lemma_page_match_count_bounds(data, page_base_spec(p, page_size), h, 0, n);
        assert(scan_pages(data, page_size, pages) is Some);
        let pc = leaf_page_counts(data, page_size, p).unwrap();
        let rc = scan_pages(data, page_size, pages.drop_first()).unwrap();
        assert(scan_pages(data, page_size, pages).unwrap() == (pc.0 + rc.0, pc.1 + rc.1));
        assert(sum_num_cells(data, page_size, pages) == n + sum_num_cells(
            data,
            page_size,
            pages.drop_first(),
        ));
    }
}

/// Read the bit pattern of the second column of the row in cell `i` of the
/// leaf page with base byte `p_base` and header at `h`.
fn read_cell_cpu_bits(data: &[u8], p_base: u64, h: u64, i: usize) -> (r: Result<u64, ScanError>)
    requires
        h as int + 5 <= data@.len(),
        p_base <= h,
        i < 0x10000,
    ensures
        match r {
            Ok(bits) => cell_cpu_bits(data@, p_base as int, h as int, i as int) == Some(bits),
            Err(e) => e == ScanError::FormatError && cell_cpu_bits(
                data@,
                p_base as int,
                h as int,
                i as int,
            ) is None,
        },
{
    let data_len = data.len();
    let ptr_off128: u128 = h as u128 + 8 + 2 * (i as u128);
    if ptr_off128 + 2 > data_len as u128 {
        return Err(ScanError::FormatError);
    }
    let ptr_off: usize = ptr_off128 as usize;
    let ptr = match read_u16_be(data, ptr_off) {
        Ok(v) => v,
        Err(e) => {
            proof {
                assert(false);
            }
            return Err(e);
        },
    };
    let cell128: u128 = p_base as u128 + ptr as u128;
    if cell128 >= data_len as u128 {
        proof {
            lemma_varint_len_bounds(data@, cell128 as int);
        }
        return Err(ScanError::FormatError);
    }
    let cell: usize = cell128 as usize;
    let (_payload, n0) = read_varint(data, cell)?;
    let p1: usize = cell + n0;
    let (_rowid, n1) = read_varint(data, p1)?;
    let p2: usize = p1 + n1;
    let (h_len, n2) = read_varint(data, p2)?;
    let p3: usize = p2 + n2;
    let (t0, _n3) = read_varint(data, p3)?;
    let h_end128: u128 = p2 as u128 + h_len as u128;
    let cpu_off128: u128 = h_end128 + col_size(t0) as u128;
    if cpu_off128 + 8 > data_len as u128 {
        return Err(ScanError::FormatError);
    }
    let cpu_off: usize = cpu_off128 as usize;
    let bits = match read_u64_be(data, cpu_off) {
        Ok(v) => v,
        Err(e) => {
            proof {
                assert(false);
            }
            return Err(e);
        },
    };
    Ok(bits)
}

/// Scan one leaf page: its declared cell count, and how many of its rows
/// match the predicate.
fn page_counts(data: &[u8], page_size: u32, p: u32) -> (r: Result<(u16, u64), ScanError>)
    ensures
        match r {
            Ok(c) => {
                &&& leaf_page_counts(data@, page_size, p) == Some((c.0 as int, c.1 as int))
                &&& c.1 <= c.0
            },
            Err(e) => e == ScanError::FormatError && leaf_page_counts(data@, page_size, p)
                is None,
        },
{
    if p == 0 {
        return Err(ScanError::FormatError);
    }
    let data_len = data.len();
    proof {
        assert(((p - 1) as u64) * (page_size as u64) <= 0xFFFFFFFE00000001u64) by (nonlinear_arith)
            requires
                (p - 1) as u64 <= 0xFFFFFFFFu64,
                page_size as u64 <= 0xFFFFFFFFu64,
        ;
    }
    let base64: u64 = (p - 1) as u64 * page_size as u64;
    let h64: u64 = if p == 1 {
        base64 + 100
    } else {
        base64
    };
    proof {
        assert(h64 as int == page_header_offset_spec(p, page_size));
    }
    if h64 + 5 > data_len as u64 {
        return Err(ScanError::FormatError);
    }
    let h: usize = h64 as usize;
    let nc: u16 = (data[h + 3] as u16) * 256 + (data[h + 4] as u16);
    proof {
        assert(be_val(data@, h as int + 3, 0) == 0);
        assert(be_val(data@, h as int + 3, 1) == data@[h as int + 3]);
        assert(nc as int == be_val(data@, h as int + 3, 2));
    }
    let mut matches: u64 = 0;
    let mut i: usize = 0;
    while i < nc as usize
        invariant
            0 <= i <= nc,
            matches <= i,
            data_len == data@.len(),
            h64 as int + 5 <= data_len,
            h == h64,
            base64 <= h64,
            p != 0,
            h64 as int == page_header_offset_spec(p, page_size),
            base64 as int == page_base_spec(p, page_size),
            nc as int == be_val(data@, h as int + 3, 2),
            match page_match_count(data@, base64 as int, h as int, i as int, nc as int) {
                None => page_match_count(data@, base64 as int, h as int, 0, nc as int) is None,
                Some(mm) => page_match_count(data@, base64 as int, h as int, 0, nc as int) == Some(
                    matches + mm,
                ),
            },
        decreases nc - i,
    {
        let bits = match read_cell_cpu_bits(data, base64, h64, i) {
            Ok(v) => v,
            Err(e) => {
                proof {
                    assert(page_match_count(data@, base64 as int, h as int, i as int, nc as int)
                        is None);
                    assert(page_match_count(data@, base64 as int, h as int, 0, nc as int)
                        is None);
                    assert(leaf_page_counts(data@, page_size, p) is None);
                }
                return Err(e);
            },
        };
        if row_matches(bits) {
            matches += 1;
        }
        i += 1;
    }
    Ok((nc, matches))
}

/// The two counters a scan produces: every row decoded, and every row whose
/// `cpu_pct` column exceeds the threshold.
#[derive(Clone, Copy, Debug, PartialEq, Eq, Structural)]
pub struct ScanCounts {
    pub rows_scanned: u64,
    pub matching_rows: u64,
}

/// Scan every page in `leaf_pages`, decoding each row's second column and
/// counting the rows whose value exceeds the threshold.  The rows scanned
/// equal the sum of the pages' declared cell counts, and the matching rows
/// never exceed them.  `FormatError` means a read ran past the buffer, or
/// the total row count did not fit the counter.
pub fn query(data: &[u8], page_size: u32, leaf_pages: &[u32]) -> (r: Result<ScanCounts, ScanError>)
    ensures
        match r {
            Ok(c) => {
                &&& scan_pages(data@, page_size, leaf_pages@) == Some(
                    (c.rows_scanned as int, c.matching_rows as int),
                )
                &&& c.matching_rows <= c.rows_scanned
                &&& c.rows_scanned as int == sum_num_cells(data@, page_size, leaf_pages@)
            },
            Err(e) => {
                &&& e == ScanError::FormatError
                &&& match scan_pages(data@, page_size, leaf_pages@) {
                    None => true,
                    Some(c) => c.0 > u64::MAX,
                }
            },
        },
{
    let n_pages = leaf_pages.len();
    let mut rows: u128 = 0;
    let mut matches: u128 = 0;
    let mut k: usize = 0;
    proof {
        assert(leaf_pages@.skip(0) =~= leaf_pages@);
    }
    while k < n_pages
        invariant
            0 <= k <= n_pages,
            n_pages == leaf_pages@.len(),
            rows <= k as u128 * 0xFFFF,
            matches <= rows,
            match scan_pages(data@, page_size, leaf_pages@.skip(k as int)) {
                None => scan_pages(data@, page_size, leaf_pages@) is None,
                Some(rc) => scan_pages(data@, page_size, leaf_pages@) == Some(
                    (rows + rc.0, matches + rc.1),
                ),
            },
        decreases n_pages - k,
    {
        let p = leaf_pages[k];
        let (n, m) = match page_counts(data, page_size, p) {
            Ok(c) => c,
            Err(e) => {
                proof {
                    assert(leaf_pages@.skip(k as int)[0] == p);
                    assert(scan_pages(data@, page_size, leaf_pages@.skip(k as int)) is None);
                }
                return Err(e);
            },
        };
        proof {
            assert(leaf_pages@.skip(k as int)[0] == p);
            assert(leaf_pages@.skip(k as int).drop_first() =~= leaf_pages@.skip(k as int + 1));
            assert(rows + n as u128 <= (k as u128 + 1) * 0xFFFF) by (nonlinear_arith)
                requires
                    rows <= k as u128 * 0xFFFF,
                    n as u128 <= 0xFFFF,
            ;
            assert((k as u128 + 1) * 0xFFFF <= 0x10000000000000000000000u128) by (nonlinear_arith)
                requires
                    k as u128 + 1 <= 0x10000000000000000u128,
            ;
        }
        rows += n as u128;
        matches += m as u128;
        k += 1;
    }
    proof {
        assert(leaf_pages@.skip(n_pages as int) =~= Seq::<u32>::empty());
        if scan_pages(data@, page_size, leaf_pages@) is Some {
            lemma_scan_counts(data@, page_size, leaf_pages@);
        }
    }
    if rows > 0xFFFFFFFFFFFFFFFFu128 {
        return Err(ScanError::FormatError);
    }
    Ok(ScanCounts { rows_scanned: rows as u64, matching_rows: matches as u64 })
}

} // verus!
