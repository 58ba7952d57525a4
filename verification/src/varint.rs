use vstd::prelude::*;

use vstd::arithmetic::div_mod::{
    lemma_div_decreases, lemma_fundamental_div_mod, lemma_fundamental_div_mod_converse_mod,
    lemma_multiply_divide_lt,
};
use vstd::arithmetic::power::{lemma_pow_increases, pow};

use crate::error::ScanError;

verus! {

// A SQLite varint stores an integer big-endian in base 128: each of the
// first eight bytes contributes its low seven bits and continues the value
// when its high bit is set.  A ninth byte, reached only when the first eight
// all continue, contributes all eight of its bits.

/// Number of bytes the varint starting at `data[off]` occupies, scanning
/// from byte index `i` of the varint.
pub open spec fn varint_len_from(data: Seq<u8>, off: int, i: int) -> int
    decreases 8 - i,
{
    if i >= 8 {
        9
    } else if data[off + i] < 128 {
        i + 1
    } else {
        varint_len_from(data, off, i + 1)
    }
}

/// Number of bytes the varint starting at `data[off]` occupies (1 to 9).
pub open spec fn varint_len(data: Seq<u8>, off: int) -> int {
    varint_len_from(data, off, 0)
}

/// Value of the varint starting at `data[off]`, having accumulated `acc`
/// from the bytes before index `i` of the varint.
pub open spec fn varint_value_from(data: Seq<u8>, off: int, i: int, acc: int) -> int
    decreases 8 - i,
{
    if i >= 8 {
        acc * 256 + data[off + 8]
    } else if data[off + i] < 128 {
        acc * 128 + data[off + i]
    } else {
        varint_value_from(data, off, i + 1, acc * 128 + (data[off + i] - 128))
    }
}

/// Value of the varint starting at `data[off]`.
pub open spec fn varint_value(data: Seq<u8>, off: int) -> int {
    varint_value_from(data, off, 0, 0)
}

/// The varint starting at `data[off]` lies entirely within the buffer.
pub open spec fn varint_ok(data: Seq<u8>, off: int) -> bool {
    0 <= off && off + varint_len(data, off) <= data.len()
}

proof fn lemma_varint_len_from_bounds(data: Seq<u8>, off: int, i: int)
    requires
        0 <= i <= 8,
    ensures
        i + 1 <= varint_len_from(data, off, i) <= 9,
    decreases 8 - i,
{
    if i < 8 && data[off + i] >= 128 {
        lemma_varint_len_from_bounds(data, off, i + 1);
    }
}

/// A varint always occupies between one and nine bytes.
pub proof fn lemma_varint_len_bounds(data: Seq<u8>, off: int)
    ensures
        1 <= varint_len(data, off) <= 9,
{
    lemma_varint_len_from_bounds(data, off, 0);
}

/// Decode the varint at `data[off..]`, returning its value and the number
/// of bytes consumed, or `FormatError` when the buffer ends before the
/// varint does.
pub fn read_varint(data: &[u8], off: usize) -> (r: Result<(u64, usize), ScanError>)
    ensures
        match r {
            Ok(p) => {
                &&& varint_ok(data@, off as int)
                &&& p.1 as int == varint_len(data@, off as int)
                &&& p.0 as int == varint_value(data@, off as int)
                &&& 1 <= p.1 <= 9
                &&& off + p.1 <= data@.len()
            },
            Err(e) => e == ScanError::FormatError && !varint_ok(data@, off as int),
        },
{
    let data_len = data.len();
    if off >= data_len {
        proof {
            lemma_varint_len_bounds(data@, off as int);
        }
        return Err(ScanError::FormatError);
    }
    proof {
        assert(pow(128, 0) == 1) by {
            reveal_with_fuel(pow, 1);
        }
    }
    let mut acc: u64 = 0;
    let mut i: usize = 0;
    while i < 8
        invariant
            0 <= i <= 8,
            data_len == data@.len(),
            off < data_len,
            off + i <= data_len,
            (acc as int) < pow(128, i as nat),
            varint_len(data@, off as int) == varint_len_from(data@, off as int, i as int),
            varint_value(data@, off as int) == varint_value_from(
                data@,
                off as int,
                i as int,
                acc as int,
            ),
            forall|j: int| 0 <= j < i ==> #[trigger] data@[off + j] >= 128,
        decreases 8 - i,
    {
        if data_len - off <= i {
            // The next byte of a still-continuing varint is out of bounds.
            proof {
                lemma_varint_len_from_bounds(data@, off as int, i as int);
            }
            return Err(ScanError::FormatError);
        }
        let b = data[off + i];
        proof {
            lemma_pow_increases(128, i as nat, 7);
            assert(pow(128, 7) == 0x2000000000000) by {
                reveal_with_fuel(pow, 8);
            }
            assert(pow(128, (i + 1) as nat) == 128 * pow(128, i as nat)) by {
                reveal_with_fuel(pow, 2);
            }
        }
        let acc2: u64 = acc * 128 + (b % 128) as u64;
        if b < 128 {
            return Ok((acc2, i + 1));
        }
        acc = acc2;
        i += 1;
    }
    // All eight bytes continued: the ninth byte contributes all its bits.
    if data_len - off <= 8 {
        return Err(ScanError::FormatError);
    }
    let b8 = data[off + 8];
    proof {
        assert(pow(128, 8) == 0x100000000000000) by {
            reveal_with_fuel(pow, 9);
        }
    }
    let v: u64 = acc * 256 + b8 as u64;
    Ok((v, 9))
}

// --- Encoding ---
/// Number of base-128 digit groups needed for `x` (none when `x == 0`).
pub open spec fn glen(x: nat) -> nat
    decreases x,
{
    if x == 0 {
        0
    } else {
        glen(x / 128) + 1
    }
}

/// `k` continuation bytes holding `x` big-endian in base 128, each with its
/// high bit set.
pub open spec fn enc7(x: nat, k: nat) -> Seq<u8>
    decreases k,
{
    if k == 0 {
        Seq::empty()
    } else {
        enc7(x / 128, (k - 1) as nat) + seq![(x % 128 + 128) as u8]
    }
}

/// The encoding of `v` as a SQLite varint: at most eight base-128 groups
/// with a seven-bit final byte, or eight continuation bytes and one full
/// eight-bit byte for values of 57 bits or more.
pub open spec fn varint_encoding(v: u64) -> Seq<u8> {
    if v < 0x100000000000000 {
        enc7((v as nat) / 128, glen((v as nat) / 128)) + seq![(v % 128) as u8]
    } else {
        enc7((v as nat) / 256, 8) + seq![(v % 256) as u8]
    }
}

proof fn lemma_enc7_len(x: nat, k: nat)
    ensures
        enc7(x, k).len() == k,
    decreases k,
{
    if k > 0 {
        lemma_enc7_len(x / 128, (k - 1) as nat);
    }
}

/// `x` fits in `glen(x)` base-128 groups.
proof fn lemma_glen_pow(x: nat)
    ensures
        x < pow(128, glen(x)),
    decreases x,
{
    if x == 0 {
        assert(pow(128, 0) == 1) by {
            reveal_with_fuel(pow, 1);
        }
    } else {
        lemma_div_decreases(x as int, 128);
        lemma_glen_pow(x / 128);
        lemma_fundamental_div_mod(x as int, 128);
        assert(pow(128, glen(x)) == 128 * pow(128, glen(x / 128))) by {
            reveal_with_fuel(pow, 2);
        }
    }
}

/// `glen` is the least group count: anything below `pow(128, k)` needs at
/// most `k` groups.
proof fn lemma_glen_le(x: nat, k: nat)
    requires
        x < pow(128, k),
    ensures
        glen(x) <= k,
    decreases x,
{
    if x > 0 {
        assert(pow(128, 0) == 1) by {
            reveal_with_fuel(pow, 1);
        }
        if k == 0 {
            // impossible: x < 1
        } else {
            lemma_div_decreases(x as int, 128);
            assert(pow(128, k) == 128 * pow(128, (k - 1) as nat)) by {
                reveal_with_fuel(pow, 2);
            }
            lemma_multiply_divide_lt(x as int, 128, pow(128, (k - 1) as nat));
            lemma_glen_le(x / 128, (k - 1) as nat);
        }
    }
}

/// Decoding skips over `k` continuation bytes that hold `x`, folding `x`
/// into the accumulator.
proof fn lemma_enc7_decode(data: Seq<u8>, off: int, i: int, acc: int, x: nat, k: nat)
    requires
        0 <= off,
        0 <= i,
        i + k <= 8,
        x < pow(128, k),
        forall|t: int| 0 <= t < k ==> data[off + i + t] == enc7(x, k)[t],
    ensures
        varint_len_from(data, off, i) == varint_len_from(data, off, i + k),
        varint_value_from(data, off, i, acc) == varint_value_from(
            data,
            off,
            i + k,
            acc * pow(128, k) + x,
        ),
    decreases k,
{
    if k == 0 {
        assert(pow(128, 0) == 1) by {
            reveal_with_fuel(pow, 1);
        }
    } else {
        let x2 = x / 128;
        let k2 = (k - 1) as nat;
        lemma_enc7_len(x2, k2);
        lemma_enc7_len(x, k);
        assert(pow(128, k) == 128 * pow(128, k2)) by {
            reveal_with_fuel(pow, 2);
        }
        lemma_multiply_divide_lt(x as int, 128, pow(128, k2));
        assert(forall|t: int| 0 <= t < k2 ==> data[off + i + t] == enc7(x2, k2)[t]) by {
            assert(forall|t: int| 0 <= t < k2 ==> enc7(x, k)[t] == enc7(x2, k2)[t]);
        }
        lemma_enc7_decode(data, off, i, acc, x2, k2);
        // The last of the k bytes carries the low seven bits of x.
        let j = i + k - 1;
        lemma_fundamental_div_mod(x as int, 128);
        assert(enc7(x, k)[k - 1] == (x % 128 + 128) as u8);
        assert(data[off + j] == (x % 128 + 128) as u8);
        assert(data[off + j] >= 128 && data[off + j] - 128 == x % 128);
        let a2 = acc * pow(128, k2) + x2;
        assert(varint_len_from(data, off, j) == varint_len_from(data, off, j + 1));
        assert(varint_value_from(data, off, j, a2) == varint_value_from(
            data,
            off,
            j + 1,
            a2 * 128 + (data[off + j] - 128),
        ));
        assert(a2 * 128 + x % 128 == acc * pow(128, k) + x) by (nonlinear_arith)
            requires
                a2 == acc * pow(128, k2) + x2,
                pow(128, k) == 128 * pow(128, k2),
                x == 128 * x2 + x % 128,
        ;
    }
}

/// Varint round trip: the encoding of any 64-bit value decodes back to that
/// value, consuming exactly the encoding's length.
pub proof fn lemma_varint_round_trip(v: u64)
    ensures
        1 <= varint_encoding(v).len() <= 9,
        varint_ok(varint_encoding(v), 0),
        varint_len(varint_encoding(v), 0) == varint_encoding(v).len(),
        varint_value(varint_encoding(v), 0) == v,
{
    let data = varint_encoding(v);
    assert(pow(128, 0) == 1 && pow(128, 1) == 128) by {
        reveal_with_fuel(pow, 2);
    }
    assert(pow(128, 7) == 0x2000000000000 && pow(128, 8) == 0x100000000000000) by {
        reveal_with_fuel(pow, 9);
    }
    if v < 0x100000000000000 {
        let x = (v as nat) / 128;
        let k = glen(x);
        lemma_enc7_len(x, k);
        lemma_glen_pow(x);
        lemma_multiply_divide_lt(v as int, 128, pow(128, 7));
        lemma_glen_le(x, 7);
        lemma_pow_increases(128, k, 7);
        assert(forall|t: int| 0 <= t < k ==> data[0 + 0 + t] == enc7(x, k)[t]);
        lemma_enc7_decode(data, 0, 0, 0, x, k);
        // after the continuation bytes, the final byte ends the varint
        let j = k as int;
        assert(data[j] == (v % 128) as u8);
        assert(data[j] < 128);
        assert(varint_len_from(data, 0, j) == j + 1);
        assert(varint_value_from(data, 0, j, 0 * pow(128, k) + x) == x * 128 + (v % 128));
        lemma_fundamental_div_mod(v as int, 128);
    } else {
        let x = (v as nat) / 256;
        lemma_enc7_len(x, 8);
        lemma_multiply_divide_lt(v as int, 256, pow(128, 8));
        assert(forall|t: int| 0 <= t < 8 ==> data[0 + 0 + t] == enc7(x, 8)[t]);
        lemma_enc7_decode(data, 0, 0, 0, x, 8);
        assert(varint_len_from(data, 0, 8) == 9);
        assert(varint_value_from(data, 0, 8, 0 * pow(128, 8) + x) == x * 256 + data[8]);
        assert(data[8] == (v % 256) as u8);
        lemma_fundamental_div_mod(v as int, 256);
    }
}

/// The seven-bit payloads of the first `k` bytes at `data[off]`, folded
/// big-endian, for bytes whose continuation bit is set.
pub open spec fn seven_bit_prefix(data: Seq<u8>, off: int, k: int) -> int
    decreases k,
{
    if k <= 0 {
        0
    } else {
        seven_bit_prefix(data, off, k - 1) * 128 + (data[off + k - 1] - 128)
    }
}

proof fn lemma_nine_byte_helper(data: Seq<u8>, off: int, i: int)
    requires
        0 <= i <= 8,
        forall|j: int| 0 <= j < 8 ==> #[trigger] data[off + j] >= 128,
    ensures
        varint_len_from(data, off, i) == 9,
        varint_value_from(data, off, i, seven_bit_prefix(data, off, i)) == varint_value_from(
            data,
            off,
            8,
            seven_bit_prefix(data, off, 8),
        ),
    decreases 8 - i,
{
    if i < 8 {
        assert(seven_bit_prefix(data, off, i + 1) == seven_bit_prefix(data, off, i) * 128 + (
        data[off + i] - 128));
        lemma_nine_byte_helper(data, off, i + 1);
    }
}

/// The nine-byte special case: when the first eight bytes all carry the
/// continuation bit, decoding consumes exactly nine bytes and the ninth
/// byte enters the value whole, as its full eight bits.
pub proof fn lemma_varint_nine_bytes(data: Seq<u8>, off: int)
    requires
        0 <= off,
        off + 9 <= data.len(),
        forall|j: int| 0 <= j < 8 ==> #[trigger] data[off + j] >= 128,
    ensures
        varint_len(data, off) == 9,
        varint_ok(data, off),
        varint_value(data, off) == seven_bit_prefix(data, off, 8) * 256 + data[off + 8],
        varint_value(data, off) % 256 == data[off + 8],
{
    lemma_nine_byte_helper(data, off, 0);
    assert(varint_value_from(data, off, 8, seven_bit_prefix(data, off, 8))
        == seven_bit_prefix(data, off, 8) * 256 + data[off + 8]);
    lemma_fundamental_div_mod_converse_mod(
        varint_value(data, off),
        256,
        seven_bit_prefix(data, off, 8),
        data[off + 8] as int,
    );
}

fn enc7_exec(x: u64, k: usize) -> (r: Vec<u8>)
    ensures
        r@ == enc7(x as nat, k as nat),
    decreases k,
{
    if k == 0 {
        proof {
            assert(enc7(x as nat, 0) =~= Seq::<u8>::empty());
        }
        Vec::new()
    } else {
        let mut r = enc7_exec(x / 128, k - 1);
        let b: u8 = (x % 128) as u8 + 128;
        r.push(b);
        proof {
            assert(r@ =~= enc7(x as nat, k as nat));
        }
        r
    }
}

fn glen_exec(x: u64) -> (k: usize)
    ensures
        k as nat == glen(x as nat),
        k <= 10,
    decreases x,
{
    if x == 0 {
        0
    } else {
        proof {
            lemma_div_decreases(x as int, 128);
            assert((x as int) < pow(128, 10)) by {
                reveal_with_fuel(pow, 11);
            }
            assert(pow(128, 10) == 128 * pow(128, 9)) by {
                reveal_with_fuel(pow, 2);
            }
            lemma_multiply_divide_lt(x as int, 128, pow(128, 9));
            lemma_glen_le((x / 128) as nat, 9);
        }
        1 + glen_exec(x / 128)
    }
}

/// Encode `v` as a SQLite varint (one to nine bytes).
pub fn encode_varint(v: u64) -> (r: Vec<u8>)
    ensures
        r@ == varint_encoding(v),
{
    if v < 0x100000000000000 {
        let k = glen_exec(v / 128);
        let mut r = enc7_exec(v / 128, k);
        r.push((v % 128) as u8);
        proof {
            assert(r@ =~= varint_encoding(v));
        }
        r
    } else {
        let mut r = enc7_exec(v / 256, 8);
        r.push((v % 256) as u8);
        proof {
            assert(r@ =~= varint_encoding(v));
        }
        r
    }
}

} // verus!
