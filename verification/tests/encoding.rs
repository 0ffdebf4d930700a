use iso_8583_message::encoding::{
    decimal_digits, encode_hex, hex_pair_value, parse_u32, parse_usize, str_equal,
    string_from_utf8,
};

#[test]
fn parses_decimal_numbers_as_from_str() {
    assert_eq!(parse_usize(b"0042"), Some(42));
    assert_eq!(parse_usize(b"+7"), Some(7));
    assert_eq!(parse_usize(b""), None);
    assert_eq!(parse_usize(b"+"), None);
    assert_eq!(parse_usize(b"-1"), None);
    assert_eq!(parse_usize(b"12a"), None);
    assert_eq!(parse_usize(b"99999999999999999999999"), None);
    assert_eq!(parse_u32(b"4294967295"), Some(u32::MAX));
    assert_eq!(parse_u32(b"4294967296"), None);
}

#[test]
fn writes_decimal_digits_and_hex() {
    assert_eq!(decimal_digits(0), b"0".to_vec());
    assert_eq!(decimal_digits(1009), b"1009".to_vec());
    assert_eq!(encode_hex(&[0x00, 0x0a, 0xff]), "000aff");
    assert_eq!(hex_pair_value(b'A', b'f'), Some(0xaf));
    assert_eq!(hex_pair_value(b'+', b'f'), Some(0x0f));
    assert_eq!(hex_pair_value(b'g', b'0'), None);
}

#[test]
fn utf8_text_and_equality() {
    assert_eq!(string_from_utf8(vec![0x68, 0xc3, 0xa9]), Some("hé".to_owned()));
    assert_eq!(string_from_utf8(vec![0xc3]), None);
    assert!(str_equal("0100", "0100"));
    assert!(!str_equal("0100", "0110"));
}
