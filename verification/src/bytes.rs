use vstd::prelude::*;

use crate::error::ScanError;

verus! {

/// The unsigned integer stored big-endian in the `k` bytes of `data`
/// starting at `off`.
pub open spec fn be_val(data: Seq<u8>, off: int, k: nat) -> int
    decreases k,
{
    if k == 0 {
        0
    } else {
        be_val(data, off, (k - 1) as nat) * 256 + data[off + k - 1]
    }
}

pub proof fn lemma_be_val_nonneg(data: Seq<u8>, off: int, k: nat)
    ensures
        be_val(data, off, k) >= 0,
    decreases k,
{
    if k > 0 {
        lemma_be_val_nonneg(data, off, (k - 1) as nat);
    }
}

/// Bounds-checked read of one byte.
pub fn read_u8(data: &[u8], off: usize) -> (r: Result<u8, ScanError>)
    ensures
        match r {
            Ok(v) => off + 1 <= data@.len() && v == data@[off as int],
            Err(e) => e == ScanError::FormatError && off + 1 > data@.len(),
        },
{
    if off < data.len() {
        Ok(data[off])
    } else {
        Err(ScanError::FormatError)
    }
}

/// Bounds-checked read of a big-endian 16-bit integer.
pub fn read_u16_be(data: &[u8], off: usize) -> (r: Result<u16, ScanError>)
    ensures
        match r {
            Ok(v) => off + 2 <= data@.len() && v as int == be_val(data@, off as int, 2),
            Err(e) => e == ScanError::FormatError && off + 2 > data@.len(),
        },
{
    if data.len() >= 2 && off <= data.len() - 2 {
        let v: u16 = (data[off] as u16) * 256 + (data[off + 1] as u16);
        assert(be_val(data@, off as int, 0) == 0);
        assert(be_val(data@, off as int, 1) == data@[off as int]);
        assert(v as int == be_val(data@, off as int, 2));
        Ok(v)
    } else {
        Err(ScanError::FormatError)
    }
}

/// Bounds-checked read of a big-endian 32-bit integer.
pub fn read_u32_be(data: &[u8], off: usize) -> (r: Result<u32, ScanError>)
    ensures
        match r {
            Ok(v) => off + 4 <= data@.len() && v as int == be_val(data@, off as int, 4),
            Err(e) => e == ScanError::FormatError && off + 4 > data@.len(),
        },
{
    if data.len() >= 4 && off <= data.len() - 4 {
        let mut v: u32 = data[off] as u32;
        assert(be_val(data@, off as int, 0) == 0);
        assert(v as int == be_val(data@, off as int, 1));
        v = v * 256 + data[off + 1] as u32;
        assert(v as int == be_val(data@, off as int, 2));
        v = v * 256 + data[off + 2] as u32;
        assert(v as int == be_val(data@, off as int, 3));
        v = v * 256 + data[off + 3] as u32;
        assert(v as int == be_val(data@, off as int, 4));
        Ok(v)
    } else {
        Err(ScanError::FormatError)
    }
}

/// Bounds-checked read of a big-endian 48-bit integer.
pub fn read_u48_be(data: &[u8], off: usize) -> (r: Result<u64, ScanError>)
    ensures
        match r {
            Ok(v) => off + 6 <= data@.len() && v as int == be_val(data@, off as int, 6) && v
                < 0x1000000000000,
            Err(e) => e == ScanError::FormatError && off + 6 > data@.len(),
        },
{
    if data.len() >= 6 && off <= data.len() - 6 {
        let mut v: u64 = data[off] as u64;
        assert(be_val(data@, off as int, 0) == 0);
        assert(v as int == be_val(data@, off as int, 1));
        v = v * 256 + data[off + 1] as u64;
        assert(v as int == be_val(data@, off as int, 2));
        v = v * 256 + data[off + 2] as u64;
        assert(v as int == be_val(data@, off as int, 3));
        v = v * 256 + data[off + 3] as u64;
        assert(v as int == be_val(data@, off as int, 4));
        v = v * 256 + data[off + 4] as u64;
        assert(v as int == be_val(data@, off as int, 5));
        v = v * 256 + data[off + 5] as u64;
        assert(v as int == be_val(data@, off as int, 6));
        Ok(v)
    } else {
        Err(ScanError::FormatError)
    }
}

/// Bounds-checked read of a big-endian 64-bit integer.
pub fn read_u64_be(data: &[u8], off: usize) -> (r: Result<u64, ScanError>)
    ensures
        match r {
            Ok(v) => off + 8 <= data@.len() && v as int == be_val(data@, off as int, 8),
            Err(e) => e == ScanError::FormatError && off + 8 > data@.len(),
        },
{
    if data.len() >= 8 && off <= data.len() - 8 {
        let mut v: u64 = data[off] as u64;
        assert(be_val(data@, off as int, 0) == 0);
        assert(v as int == be_val(data@, off as int, 1));
        v = v * 256 + data[off + 1] as u64;
        assert(v as int == be_val(data@, off as int, 2));
        v = v * 256 + data[off + 2] as u64;
        assert(v as int == be_val(data@, off as int, 3));
        v = v * 256 + data[off + 3] as u64;
        assert(v as int == be_val(data@, off as int, 4));
        v = v * 256 + data[off + 4] as u64;
        assert(v as int == be_val(data@, off as int, 5));
        v = v * 256 + data[off + 5] as u64;
        assert(v as int == be_val(data@, off as int, 6));
        v = v * 256 + data[off + 6] as u64;
        assert(v as int == be_val(data@, off as int, 7));
        v = v * 256 + data[off + 7] as u64;
        assert(v as int == be_val(data@, off as int, 8));
        Ok(v)
    } else {
        Err(ScanError::FormatError)
    }
}

/// Whether the bytes of `data` starting at `off` equal `expected`.
pub fn slice_range_eq(data: &[u8], off: usize, expected: &[u8]) -> (r: bool)
    requires
        off + expected@.len() <= data@.len(),
    ensures
        r == (data@.subrange(off as int, off + expected@.len()) == expected@),
{
    let n = expected.len();
    let data_len = data.len();
    let mut i: usize = 0;
    while i < n
        invariant
            0 <= i <= n,
            n == expected@.len(),
            data_len == data@.len(),
            off + n <= data_len,
            forall|j: int| 0 <= j < i ==> data@[off + j] == expected@[j],
        decreases n - i,
    {
        if data[off + i] != expected[i] {
            assert(data@.subrange(off as int, off + n) != expected@) by {
                assert(data@.subrange(off as int, off + n)[i as int] != expected@[i as int]);
            }
            return false;
        }
        i += 1;
    }
    assert(data@.subrange(off as int, off + n) =~= expected@);
    true
}

} // verus!
