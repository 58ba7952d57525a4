use vstd::prelude::*;

use crate::bytes::{be_val, read_u16_be, read_u32_be, read_u48_be, read_u64_be, read_u8};
use crate::error::ScanError;

verus! {

// A record header assigns every column a serial type: a code that fixes the
// column value's storage class and exact byte width.

/// Byte width of a column value with serial type `t`.  Types 0, 8 and 9
/// store no bytes at all; 1 through 6 are signed integers of growing width;
/// 7 is an eight-byte float; 12 and up are BLOBs (even) or TEXT (odd) of
/// `(t - 12) / 2` or `(t - 13) / 2` bytes; 10 and 11 are reserved and
/// treated as empty.
pub open spec fn col_size_spec(t: u64) -> int {
    if t == 1 {
        1
    } else if t == 2 {
        2
    } else if t == 3 {
        3
    } else if t == 4 {
        4
    } else if t == 5 {
        6
    } else if t == 6 || t == 7 {
        8
    } else if t >= 12 {
        if t % 2 == 0 {
            (t - 12) / 2
        } else {
            (t - 13) / 2
        }
    } else {
        0
    }
}

/// Byte width of a column value with serial type `t`.
pub fn col_size(t: u64) -> (w: u64)
    ensures
        w as int == col_size_spec(t),
{
    match t {
        0 => 0,
        1 => 1,
        2 => 2,
        3 => 3,
        4 => 4,
        5 => 6,
        6 => 8,
        7 => 8,
        8 | 9 => 0,
        t if t >= 12 => {
            if t % 2 == 0 {
                (t - 12) / 2
            } else {
                (t - 13) / 2
            }
        },
        _ => 0,
    }
}

/// Width of the integer stored for serial type `t` (0 for non-integer
/// types and for the constants 0 and 1, which store no bytes).
pub open spec fn int_col_width(t: u64) -> int {
    if t == 1 {
        1
    } else if t == 2 {
        2
    } else if t == 3 {
        3
    } else if t == 4 {
        4
    } else if t == 5 {
        6
    } else if t == 6 {
        8
    } else {
        0
    }
}

/// Two's-complement reading of an unsigned value `u`: values at or above
/// `half` wrap around to negative, `full` being `2 * half`.
pub open spec fn sign_extended(u: int, half: int, full: int) -> int {
    if u >= half {
        u - full
    } else {
        u
    }
}

/// The signed integer stored at `data[off..]` for serial type `t`:
/// big-endian, sign-extended from its width.  Types 8 and 9 denote the
/// constants 0 and 1; anything that is not an integer type reads as 0.
pub open spec fn int_col_value(data: Seq<u8>, off: int, t: u64) -> int {
    if t == 8 {
        0
    } else if t == 9 {
        1
    } else if t == 1 {
        sign_extended(be_val(data, off, 1), 0x80, 0x100)
    } else if t == 2 {
        sign_extended(be_val(data, off, 2), 0x8000, 0x10000)
    } else if t == 3 {
        sign_extended(be_val(data, off, 3), 0x800000, 0x1000000)
    } else if t == 4 {
        sign_extended(be_val(data, off, 4), 0x80000000, 0x100000000)
    } else if t == 5 {
        sign_extended(be_val(data, off, 6), 0x800000000000, 0x1000000000000)
    } else if t == 6 {
        sign_extended(be_val(data, off, 8), 0x8000000000000000, 0x10000000000000000)
    } else {
        0
    }
}

/// Read the signed integer column of serial type `t` stored at
/// `data[off..]`, or `FormatError` when its bytes run past the buffer.
pub fn read_int_col(data: &[u8], off: usize, t: u64) -> (r: Result<i64, ScanError>)
    ensures
        match r {
            Ok(v) => {
                &&& v as int == int_col_value(data@, off as int, t)
                &&& int_col_width(t) > 0 ==> off + int_col_width(t) <= data@.len()
            },
            Err(e) => {
                &&& e == ScanError::FormatError
                &&& off + int_col_width(t) > data@.len()
                &&& int_col_width(t) > 0
            },
        },
{
    match t {
        1 => {
            let b = read_u8(data, off)?;
            assert(be_val(data@, off as int, 0) == 0);
            assert(be_val(data@, off as int, 1) == b);
            if b >= 0x80 {
                Ok(b as i64 - 0x100)
            } else {
                Ok(b as i64)
            }
        },
        2 => {
            let u = read_u16_be(data, off)?;
            if u >= 0x8000 {
                Ok(u as i64 - 0x10000)
            } else {
                Ok(u as i64)
            }
        },
        3 => {
            let hi = read_u16_be(data, off)?;
            let data_len = data.len();
            assert(off + 2 <= data_len);
            let lo = read_u8(data, off + 2)?;
            let u: u32 = hi as u32 * 256 + lo as u32;
            assert(be_val(data@, off as int, 3) == be_val(data@, off as int, 2) * 256 + data@[off
                + 2]);
            if u >= 0x800000 {
                Ok(u as i64 - 0x1000000)
            } else {
                Ok(u as i64)
            }
        },
        4 => {
            let u = read_u32_be(data, off)?;
            if u >= 0x80000000 {
                Ok(u as i64 - 0x100000000)
            } else {
                Ok(u as i64)
            }
        },
        5 => {
            let u = read_u48_be(data, off)?;
            if u >= 0x800000000000 {
                Ok(u as i64 - 0x1000000000000)
            } else {
                Ok(u as i64)
            }
        },
        6 => {
            let u = read_u64_be(data, off)?;
            if u >= 0x8000000000000000 {
                Ok(-1 - ((u64::MAX - u) as i64))
            } else {
                Ok(u as i64)
            }
        },
        8 => Ok(0),
        9 => Ok(1),
        _ => Ok(0),
    }
}

} // verus!
