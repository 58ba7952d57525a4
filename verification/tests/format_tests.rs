use sqlite_scan::bytes::{read_u16_be, read_u32_be, read_u64_be};
use sqlite_scan::error::ScanError;
use sqlite_scan::pages::{page_base, page_header_off, parse_page_size};
use sqlite_scan::serial::{col_size, read_int_col};

#[test]
fn test_col_size_table() {
    assert_eq!(col_size(0), 0);
    assert_eq!(col_size(1), 1);
    assert_eq!(col_size(2), 2);
    assert_eq!(col_size(3), 3);
    assert_eq!(col_size(4), 4);
    assert_eq!(col_size(5), 6);
    assert_eq!(col_size(6), 8);
    assert_eq!(col_size(7), 8);
    assert_eq!(col_size(8), 0);
    assert_eq!(col_size(9), 0);
    assert_eq!(col_size(10), 0);
    assert_eq!(col_size(11), 0);
    assert_eq!(col_size(12), 0);
    assert_eq!(col_size(13), 0);
    assert_eq!(col_size(14), 1);
    assert_eq!(col_size(15), 1);
    assert_eq!(col_size(23), 5);
    assert_eq!(col_size(27), 7);
    assert_eq!(col_size(1000), 494);
    assert_eq!(col_size(1001), 494);
}

#[test]
fn test_read_int_col_sign_extension() {
    assert_eq!(read_int_col(&[0x7F], 0, 1), Ok(127));
    assert_eq!(read_int_col(&[0x80], 0, 1), Ok(-128));
    assert_eq!(read_int_col(&[0xFF], 0, 1), Ok(-1));
    assert_eq!(read_int_col(&[0xFF, 0xFE], 0, 2), Ok(-2));
    assert_eq!(read_int_col(&[0x01, 0x00], 0, 2), Ok(256));
    assert_eq!(read_int_col(&[0x80, 0x00, 0x00], 0, 3), Ok(-8388608));
    assert_eq!(read_int_col(&[0x00, 0x01, 0x02], 0, 3), Ok(258));
    assert_eq!(read_int_col(&[0xFF, 0xFF, 0xFF, 0xFF], 0, 4), Ok(-1));
    assert_eq!(read_int_col(&[0x12, 0x34, 0x56, 0x78], 0, 4), Ok(0x12345678));
    assert_eq!(
        read_int_col(&[0xFF, 0xFF, 0xFF, 0xFF, 0xFF, 0xFF], 0, 5),
        Ok(-1)
    );
    assert_eq!(
        read_int_col(&[0x00, 0x00, 0x00, 0x00, 0x01, 0x00], 0, 5),
        Ok(256)
    );
    let all_ones = [0xFFu8; 8];
    assert_eq!(read_int_col(&all_ones, 0, 6), Ok(-1));
    let min = [0x80, 0, 0, 0, 0, 0, 0, 0];
    assert_eq!(read_int_col(&min, 0, 6), Ok(i64::MIN));
    let max = [0x7F, 0xFF, 0xFF, 0xFF, 0xFF, 0xFF, 0xFF, 0xFF];
    assert_eq!(read_int_col(&max, 0, 6), Ok(i64::MAX));
    assert_eq!(read_int_col(&[], 0, 8), Ok(0));
    assert_eq!(read_int_col(&[], 0, 9), Ok(1));
    assert_eq!(read_int_col(&[0xAA], 0, 7), Ok(0));
}

#[test]
fn test_read_int_col_truncated() {
    assert_eq!(read_int_col(&[0xFF], 0, 2), Err(ScanError::FormatError));
    assert_eq!(read_int_col(&[], 0, 1), Err(ScanError::FormatError));
    assert_eq!(
        read_int_col(&[0, 1, 2, 3], 1, 4),
        Err(ScanError::FormatError)
    );
}

#[test]
fn test_parse_page_size_and_sentinel() {
    let mut header = vec![0u8; 100];
    header[16] = 0x10;
    header[17] = 0x00;
    assert_eq!(parse_page_size(&header), Ok(4096));
    header[16] = 0x00;
    header[17] = 0x01;
    assert_eq!(parse_page_size(&header), Ok(65536));
    assert_eq!(parse_page_size(&header[..17]), Err(ScanError::FormatError));
}

#[test]
fn test_page_offsets() {
    assert_eq!(page_base(1, 4096), 0);
    assert_eq!(page_header_off(1, 4096), 100);
    assert_eq!(page_base(2, 4096), 4096);
    assert_eq!(page_header_off(2, 4096), 4096);
    assert_eq!(page_base(3, 512), 1024);
}

#[test]
fn test_big_endian_readers() {
    let buf = [0x01, 0x02, 0x03, 0x04, 0x05, 0x06, 0x07, 0x08, 0x09];
    assert_eq!(read_u16_be(&buf, 0), Ok(0x0102));
    assert_eq!(read_u16_be(&buf, 7), Ok(0x0809));
    assert_eq!(read_u16_be(&buf, 8), Err(ScanError::FormatError));
    assert_eq!(read_u32_be(&buf, 1), Ok(0x02030405));
    assert_eq!(read_u64_be(&buf, 1), Ok(0x0203040506070809));
    assert_eq!(read_u64_be(&buf, 2), Err(ScanError::FormatError));
}
