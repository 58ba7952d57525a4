use vstd::prelude::*;

use crate::bytes::{be_val, read_u16_be, slice_range_eq};
use crate::error::ScanError;
use crate::serial::{col_size, col_size_spec, int_col_value, int_col_width, read_int_col};
use crate::varint::{read_varint, varint_len, varint_ok, varint_value};

verus! {

// The schema table (`sqlite_schema`) lives in the B-tree rooted at page 1.
// Its rows have five columns — type, name, tbl_name, rootpage, sql — and
// resolving a table name means scanning page 1's cells for a row whose
// `name` column equals the wanted name and decoding its `rootpage` column.
//
// Page 1's B-tree header starts at file offset 100, so its cell count is
// the 16-bit integer at offset 103 and its cell pointer array starts at
// offset 108.  Cell pointers on page 1 are offsets from the start of the
// file, because page 1's base is byte 0.

/// The serial types of the first five columns of the record whose header
/// starts at `pos` (having `j` of the five already been read), reading until
/// the header region ends at `h_end`.  Columns the header does not cover
/// default to serial type 0.  `None` is a truncated varint: a format error.
pub open spec fn schema_types(data: Seq<u8>, pos: int, h_end: int, j: int) -> Option<Seq<u64>>
    decreases 5 - j,
{
    if j >= 5 {
        Some(Seq::empty())
    } else if pos >= h_end {
        Some(Seq::new((5 - j) as nat, |q: int| 0u64))
    } else if !varint_ok(data, pos) {
        None
    } else {
        match schema_types(data, pos + varint_len(data, pos), h_end, j + 1) {
            None => None,
            Some(rest) => Some(seq![varint_value(data, pos) as u64] + rest),
        }
    }
}

/// What examining schema cell `i` yields: `Ok(Some(root))` when the cell's
/// `name` column equals `name` (with `root` its decoded `rootpage` column,
/// truncated to a page number), `Ok(None)` when the cell names some other
/// table, and `FormatError` when any read runs past the buffer.
pub open spec fn schema_cell_match(data: Seq<u8>, name: Seq<u8>, i: int) -> Result<
    Option<u32>,
    ScanError,
> {
    if 108 + 2 * i + 2 > data.len() {
        Err(ScanError::FormatError)
    } else {
        let cell = be_val(data, 108 + 2 * i, 2);
        if !varint_ok(data, cell) {
            Err(ScanError::FormatError)
        } else {
            let p1 = cell + varint_len(data, cell);  // past payload_size
            if !varint_ok(data, p1) {
                Err(ScanError::FormatError)
            } else {
                let p2 = p1 + varint_len(data, p1);  // past rowid
                if !varint_ok(data, p2) {
                    Err(ScanError::FormatError)
                } else {
                    let h_end = p2 + varint_value(data, p2);
                    let p3 = p2 + varint_len(data, p2);
                    match schema_types(data, p3, h_end, 0) {
                        None => Err(ScanError::FormatError),
                        Some(types) => schema_row_match(data, name, h_end, types),
                    }
                }
            }
        }
    }
}

/// Second half of `schema_cell_match`: compare the `name` column of the row
/// whose value area starts at `h_end`, and on a match decode `rootpage`.
pub open spec fn schema_row_match(
    data: Seq<u8>,
    name: Seq<u8>,
    h_end: int,
    types: Seq<u64>,
) -> Result<Option<u32>, ScanError> {
    let name_off = h_end + col_size_spec(types[0]);
    let name_len = col_size_spec(types[1]);
    if name_off + name_len > data.len() {
        Err(ScanError::FormatError)
    } else if data.subrange(name_off, name_off + name_len) == name {
        let root_off = name_off + name_len + col_size_spec(types[2]);
        if int_col_width(types[3]) > 0 && root_off + int_col_width(types[3]) > data.len() {
            Err(ScanError::FormatError)
        } else {
            Ok(Some(int_col_value(data, root_off, types[3]) as u32))
        }
    } else {
        Ok(None)
    }
}

/// Scan schema cells `i` up to `n` for `name`.
pub open spec fn find_root_from(data: Seq<u8>, name: Seq<u8>, i: int, n: int) -> Result<
    u32,
    ScanError,
>
    decreases n - i,
{
    if i >= n {
        Err(ScanError::TableNotFound)
    } else {
        match schema_cell_match(data, name, i) {
            Err(e) => Err(e),
            Ok(Some(root)) => Ok(root),
            Ok(None) => find_root_from(data, name, i + 1, n),
        }
    }
}

/// The root page of the table called `name`, per the schema on page 1.
pub open spec fn table_root_spec(data: Seq<u8>, name: Seq<u8>) -> Result<u32, ScanError> {
    if data.len() < 105 {
        Err(ScanError::FormatError)
    } else {
        find_root_from(data, name, 0, be_val(data, 103, 2))
    }
}

/// Read the serial types of the five schema columns from the record header
/// at `data[pos..]`, which ends at `h_end`; missing columns read as type 0.
fn read_schema_types(data: &[u8], pos: usize, h_end: u128) -> (r: Result<Vec<u64>, ScanError>)
    ensures
        match r {
            Ok(ts) => ts@.len() == 5 && schema_types(data@, pos as int, h_end as int, 0) == Some(
                ts@,
            ),
            Err(e) => e == ScanError::FormatError && schema_types(
                data@,
                pos as int,
                h_end as int,
                0,
            ) is None,
        },
{
    let data_len = data.len();
    let mut ts: Vec<u64> = Vec::new();
    let mut pos2: usize = pos;
    let mut j: usize = 0;
    while j < 5
        invariant
            0 <= j <= 5,
            ts@.len() == j,
            data_len == data@.len(),
            match schema_types(data@, pos2 as int, h_end as int, j as int) {
                None => schema_types(data@, pos as int, h_end as int, 0) is None,
                Some(rest) => schema_types(data@, pos as int, h_end as int, 0) == Some(ts@ + rest),
            },
        decreases 5 - j,
    {
        let ghost ts_old = ts@;
        let ghost pos_old = pos2 as int;
        if pos2 as u128 >= h_end {
            ts.push(0);
            proof {
                let rest_old = schema_types(data@, pos_old, h_end as int, j as int);
                let rest_new = schema_types(data@, pos_old, h_end as int, j + 1);
                assert(rest_old == Some(Seq::new((5 - j) as nat, |q: int| 0u64)));
                match rest_new {
                    None => {
                        assert(false);
                    },
                    Some(rn) => {
                        assert(ts_old + Seq::new((5 - j) as nat, |q: int| 0u64) =~= ts@ + rn);
                    },
                }
            }
        } else {
            let vr = read_varint(data, pos2);
            match vr {
                Err(e) => {
                    return Err(e);
                },
                Ok((t, n)) => {
                    ts.push(t);
                    assert(pos2 + n <= data_len);
                    pos2 += n;
                    proof {
                        let rest_old = schema_types(data@, pos_old, h_end as int, j as int);
                        let rest_new = schema_types(data@, pos2 as int, h_end as int, j + 1);
                        match rest_new {
                            None => {},
                            Some(rn) => {
                                assert(rest_old == Some(seq![t] + rn));
                                assert(ts_old + (seq![t] + rn) =~= ts@ + rn);
                            },
                        }
                    }
                },
            }
        }
        j += 1;
    }
    proof {
        assert(schema_types(data@, pos2 as int, h_end as int, 5) == Some(Seq::<u64>::empty()));
        assert(ts@ + Seq::<u64>::empty() =~= ts@);
    }
    Ok(ts)
}

/// Examine schema cell `i`: does its row name the wanted table, and if so,
/// what is its root page?
fn schema_cell_check(data: &[u8], table_name: &[u8], i: usize) -> (r: Result<
    Option<u32>,
    ScanError,
>)
    requires
        i < 0x10000,
    ensures
        r == schema_cell_match(data@, table_name@, i as int),
{
    let data_len = data.len();
    let ptr = read_u16_be(data, 108 + 2 * i)?;
    let cell: usize = ptr as usize;
    proof {
        assert(cell as int == be_val(data@, 108 + 2 * i, 2));
    }
    let (_payload, n0) = read_varint(data, cell)?;
    let p1: usize = cell + n0;
    let (_rowid, n1) = read_varint(data, p1)?;
    let p2: usize = p1 + n1;
    let (h_len, n2) = read_varint(data, p2)?;
    let p3: usize = p2 + n2;
    let h_end: u128 = p2 as u128 + h_len as u128;
    let ts = read_schema_types(data, p3, h_end)?;
    let w0 = col_size(ts[0]);
    let name_len = col_size(ts[1]);
    let name_off: u128 = h_end + w0 as u128;
    if name_off + name_len as u128 > data_len as u128 {
        return Err(ScanError::FormatError);
    }
    let name_off_us: usize = name_off as usize;
    let name_len_us: usize = name_len as usize;
    let matched: bool = if name_len_us == table_name.len() {
        slice_range_eq(data, name_off_us, table_name)
    } else {
        false
    };
    proof {
        if !matched {
            assert(data@.subrange(name_off as int, name_off as int + name_len as int)
                != table_name@);
        }
    }
    if !matched {
        return Ok(None);
    }
    let w2 = col_size(ts[2]);
    let root_off: u128 = name_off + name_len as u128 + w2 as u128;
    if root_off <= data_len as u128 {
        let ro: usize = root_off as usize;
        let v = read_int_col(data, ro, ts[3])?;
        Ok(Some(v as u32))
    } else {
        // The rootpage column starts past the buffer: only a zero-width
        // serial type can still be decoded.
        let t3 = ts[3];
        if 1 <= t3 && t3 <= 6 {
            Err(ScanError::FormatError)
        } else if t3 == 9 {
            Ok(Some(1))
        } else {
            Ok(Some(0))
        }
    }
}

/// Scan the schema on page 1 for the root page of the table whose name,
/// as UTF-8 bytes, is `table_name`.  Yields `TableNotFound` when every
/// schema row names some other table, and `FormatError` when any read runs
/// past the buffer.
pub fn find_table_root(data: &[u8], table_name: &[u8]) -> (r: Result<u32, ScanError>)
    ensures
        r == table_root_spec(data@, table_name@),
{
    let ghost n_spec = be_val(data@, 103, 2);
    let num_cells_raw = read_u16_be(data, 103)?;
    let num_cells: usize = num_cells_raw as usize;
    let mut i: usize = 0;
    while i < num_cells
        invariant
            0 <= i <= num_cells,
            num_cells < 0x10000,
            num_cells == n_spec,
            data@.len() >= 105,
            n_spec == be_val(data@, 103, 2),
            find_root_from(data@, table_name@, 0, n_spec) == find_root_from(
                data@,
                table_name@,
                i as int,
                n_spec,
            ),
        decreases num_cells - i,
    {
        match schema_cell_check(data, table_name, i) {
            Err(e) => {
                return Err(e);
            },
            Ok(Some(root)) => {
                return Ok(root);
            },
            Ok(None) => {},
        }
        i += 1;
    }
    Err(ScanError::TableNotFound)
}

/// Resolving a table root is deterministic: any two results that
/// `find_table_root`'s contract admits for the same buffer and the same
/// table name are the same result.
pub proof fn lemma_find_table_root_deterministic(
    data: Seq<u8>,
    name: Seq<u8>,
    r1: Result<u32, ScanError>,
    r2: Result<u32, ScanError>,
)
    requires
        r1 == table_root_spec(data, name),
        r2 == table_root_spec(data, name),
    ensures
        r1 == r2,
{
}

} // verus!
