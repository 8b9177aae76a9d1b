use rugus::crc::crc32;

#[test]
fn vector_check() {
    assert_eq!(crc32(b"123456789"), 0xCBF4_3926);
}

#[test]
fn empty_is_zero() {
    assert_eq!(crc32(b""), 0);
}

#[test]
fn single_byte_value() {
    // CRC-32 (IEEE) of "a".
    assert_eq!(crc32(b"a"), 0xE8B7_BE43);
}
