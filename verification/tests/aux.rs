use calc_regex::aux::{big_endian, decimal, hex, little_endian};

#[test]
fn test_decimal() {
    assert_eq!(decimal(b"42"), Some(42));
    assert_eq!(decimal(b"ab"), None);
}

#[test]
fn test_hex() {
    assert_eq!(hex(b"2A"), Some(42));
    assert_eq!(hex(b"2a"), Some(42));
    assert_eq!(hex(b"a"), Some(10));
    assert_eq!(hex(b"g"), None);
    assert_eq!(hex(b"0x2a"), None);
}

#[test]
fn test_little_endian() {
    assert_eq!(little_endian(&[0x0a, 0x0b]), Some(0x0b0a));
    assert_eq!(little_endian(&[0x0a, 0x0b, 0x00, 0x00]), Some(0x0b0a));
    assert_eq!(little_endian(&[0x0a, 0x0b, 0x0c, 0x0d]), Some(0x0d0c0b0a));
}

#[test]
fn test_little_endian_64() {
    assert_eq!(
        little_endian(&[0x0d, 0x0c, 0x0b, 0x0a, 0x04, 0x03, 0x02, 0x01]),
        Some(0x010203040a0b0c0d)
    );
    assert_eq!(
        little_endian(&[0x0d, 0x0c, 0x0b, 0x0a, 0x04, 0x03, 0x02, 0x01, 0x00]),
        None
    )
}

#[test]
fn test_big_endian() {
    assert_eq!(big_endian(&[0x0a, 0x0b]), Some(0x0a0b));
    assert_eq!(big_endian(&[0x00, 0x00, 0x0a, 0x0b]), Some(0x0a0b));
    assert_eq!(big_endian(&[0x0a, 0x0b, 0x00, 0x00]), Some(0x0a0b0000));
    assert_eq!(big_endian(&[0x0a, 0x0b, 0x0c, 0x0d]), Some(0x0a0b0c0d));
}

#[test]
fn test_big_endian_64() {
    assert_eq!(
        big_endian(&[0x01, 0x02, 0x03, 0x04, 0x0a, 0x0b, 0x0c, 0x0d]),
        Some(0x010203040a0b0c0d)
    );
    assert_eq!(
        big_endian(&[0x01, 0x02, 0x03, 0x04, 0x0a, 0x0b, 0x0c, 0x0d, 0x00]),
        None
    )
}

#[test]
fn decimal_takes_a_plus_sign_and_leading_zeros() {
    assert_eq!(decimal(b"+42"), Some(42));
    assert_eq!(decimal(b"0042"), Some(42));
    assert_eq!(decimal(b""), None);
    assert_eq!(decimal(b"+"), None);
    assert_eq!(decimal(b"-1"), None);
    assert_eq!(decimal(b"18446744073709551615"), Some(usize::MAX));
    assert_eq!(decimal(b"18446744073709551616"), None);
}
