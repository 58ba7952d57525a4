use sqlite_scan::error::ScanError;
use sqlite_scan::varint::{encode_varint, read_varint};

#[test]
fn test_varint_round_trip_samples() {
    let samples: Vec<u64> = vec![
        0,
        1,
        42,
        127,
        128,
        129,
        300,
        16383,
        16384,
        2097151,
        2097152,
        0xFFFF_FFFF,
        0x0001_0000_0000_0000,
        0x00FF_FFFF_FFFF_FFFF,
        0x0100_0000_0000_0000,
        0x8000_0000_0000_0000,
        u64::MAX - 1,
        u64::MAX,
    ];
    for v in samples {
        let enc = encode_varint(v);
        assert!(1 <= enc.len() && enc.len() <= 9);
        let (decoded, consumed) = read_varint(&enc, 0).unwrap();
        assert_eq!(decoded, v);
        assert_eq!(consumed, enc.len());
    }
}

#[test]
fn test_varint_single_byte() {
    let (v, n) = read_varint(&[0x07, 0xFF], 0).unwrap();
    assert_eq!(v, 7);
    assert_eq!(n, 1);
}

#[test]
fn test_varint_two_bytes_big_endian_groups() {
    // 0x81 0x01 decodes high group first: (1 << 7) | 1 == 129
    let (v, n) = read_varint(&[0x81, 0x01], 0).unwrap();
    assert_eq!(v, 129);
    assert_eq!(n, 2);
}

#[test]
fn test_varint_nine_byte_unmasked_tail() {
    // Eight continuation bytes force a ninth, taken whole (all 8 bits).
    let mut buf = vec![0x81u8; 8];
    buf.push(0xAB);
    let (v, n) = read_varint(&buf, 0).unwrap();
    assert_eq!(n, 9);
    assert_eq!(v & 0xFF, 0xAB);
    // the 7-bit groups of the first eight bytes sit above the ninth byte
    let mut hi: u64 = 0;
    for _ in 0..8 {
        hi = (hi << 7) | 1;
    }
    assert_eq!(v, (hi << 8) | 0xAB);
}

#[test]
fn test_varint_nine_bytes_all_ones() {
    let buf = vec![0xFFu8; 9];
    let (v, n) = read_varint(&buf, 0).unwrap();
    assert_eq!(n, 9);
    assert_eq!(v, 0xFFFF_FFFF_FFFF_FFFF);
}

#[test]
fn test_varint_truncated_input() {
    // every byte continues, and the buffer ends after three of them
    let buf = vec![0x80u8, 0x80, 0x80];
    assert_eq!(read_varint(&buf, 0), Err(ScanError::FormatError));
    assert_eq!(read_varint(&buf, 3), Err(ScanError::FormatError));
}
