use coremark::crc::{crc16, le_bytes_u16, le_bytes_u32};

#[test]
fn test_crc16_check_value() {
    // the CRC-16/CCITT (XModem) check value of the nine digits
    assert_eq!(crc16(b"123456789", 0), 0x31C3);
}

#[test]
fn test_crc16_empty_and_chaining() {
    assert_eq!(crc16(b"", 0x1234), 0x1234);
    let whole = crc16(b"abcdef", 0);
    let chained = crc16(b"def", crc16(b"abc", 0));
    assert_eq!(whole, chained);
}

#[test]
fn test_le_bytes() {
    assert_eq!(le_bytes_u16(0x1234), vec![0x34, 0x12]);
    assert_eq!(le_bytes_u32(0xA1B2_C3D4), vec![0xD4, 0xC3, 0xB2, 0xA1]);
}
