use iso_8583_message::field::content_type::ContentType;
use iso_8583_message::field::error::FieldError;
use iso_8583_message::field::len_type::LengthType;
use iso_8583_message::field::Field;

fn field(data_element: u8, content_type: ContentType, len_type: LengthType, max_len: usize) -> Field {
    Field {
        data_element,
        content_type,
        len_type,
        max_len,
    }
}

#[test]
fn variable_length_value_is_written_after_its_length() {
    let pan = field(2, ContentType::Number, LengthType::Var2Leading, 19);
    assert_eq!(pan.value_to_buffer("12345").unwrap(), b"0512345".to_vec());
    let long = field(3, ContentType::Number, LengthType::Var3Leading, 999);
    assert_eq!(long.value_to_buffer("12345").unwrap(), b"00512345".to_vec());
}

#[test]
fn a_length_longer_than_its_digits_keeps_its_last_digits() {
    let short = field(5, ContentType::Number, LengthType::Var1Leading, 9);
    assert_eq!(
        short.value_to_buffer("123456789012").unwrap(),
        b"2123456789012".to_vec()
    );
}

#[test]
fn fixed_length_value_is_padded_or_cut() {
    let f = field(4, ContentType::Number, LengthType::Fixed, 6);
    assert_eq!(f.value_to_buffer("123").unwrap(), vec![b'1', b'2', b'3', 0, 0, 0]);
    assert_eq!(f.value_to_buffer("12345678").unwrap(), b"123456".to_vec());
}

#[test]
fn byte_field_writes_the_bytes_of_its_hexadecimal_text() {
    let f = field(52, ContentType::Bytes, LengthType::Fixed, 8);
    assert_eq!(
        f.value_to_buffer("0123456789ABCDEF").unwrap(),
        vec![0x01, 0x23, 0x45, 0x67, 0x89, 0xab, 0xcd, 0xef]
    );
    let (value, n) = f
        .get_value_from_buffer(&[0x01, 0x23, 0x45, 0x67, 0x89, 0xab, 0xcd, 0xef, 0x99])
        .unwrap();
    assert_eq!(value, "0123456789abcdef");
    assert_eq!(n, 8);
}

#[test]
fn values_read_back_as_written() {
    let cases = vec![
        (field(2, ContentType::Number, LengthType::Var2Leading, 19), "4111111111111111"),
        (field(3, ContentType::Number, LengthType::Fixed, 6), "000000"),
        (field(43, ContentType::AlphaNumericSpecial, LengthType::Fixed, 10), "ACME Shop."),
        (field(48, ContentType::AlphaNumericSpecial, LengthType::Var3Leading, 999), "a b-c"),
        (field(52, ContentType::Bytes, LengthType::Fixed, 2), "0aff"),
        (field(55, ContentType::Bytes, LengthType::Var3Leading, 255), "9f2608"),
        (field(45, ContentType::Track2, LengthType::Var2Leading, 76), "B4111^DOE/J^2512"),
    ];
    for (f, value) in cases {
        let mut written = f.value_to_buffer(value).unwrap();
        let n = written.len();
        written.extend_from_slice(b"trailing bytes");
        let (read, consumed) = f.get_value_from_buffer(&written).unwrap();
        assert_eq!(read, value);
        assert_eq!(consumed, n);
    }
}

#[test]
fn variable_length_value_is_not_checked_when_read() {
    let f = field(2, ContentType::Number, LengthType::Var2Leading, 19);
    let (value, n) = f.get_value_from_buffer(b"03abc").unwrap();
    assert_eq!(value, "abc");
    assert_eq!(n, 5);
}

#[test]
fn value_invalid_for_the_content_type_is_not_written() {
    let f = field(4, ContentType::Number, LengthType::Fixed, 12);
    match f.value_to_buffer("12a") {
        Err(FieldError::FormatEncoding(de, value)) => {
            assert_eq!(de, 4);
            assert_eq!(value, "12a");
        },
        other => panic!("unexpected {:?}", other),
    }
}

#[test]
fn length_digits_that_are_not_a_number_are_an_error() {
    let f = field(2, ContentType::Number, LengthType::Var2Leading, 19);
    match f.get_value_from_buffer(b"ab1234") {
        Err(FieldError::FieldLengthDecoding(de, bytes)) => {
            assert_eq!(de, 2);
            assert_eq!(bytes, b"ab".to_vec());
        },
        other => panic!("unexpected {:?}", other),
    }
}

#[test]
fn text_that_is_not_utf8_is_an_error() {
    let f = field(39, ContentType::AlphaNumeric, LengthType::Fixed, 2);
    match f.get_value_from_buffer(&[0xff, 0xfe, 0x30]) {
        Err(FieldError::StringFieldDecoding(de, bytes)) => {
            assert_eq!(de, 39);
            assert_eq!(bytes, vec![0xff, 0xfe]);
        },
        other => panic!("unexpected {:?}", other),
    }
}

#[test]
fn fixed_value_invalid_for_the_content_type_is_an_error() {
    let f = field(39, ContentType::Number, LengthType::Fixed, 2);
    match f.get_value_from_buffer(b"ab") {
        Err(FieldError::FormatDecoding(de, value)) => {
            assert_eq!(de, 39);
            assert_eq!(value, "ab");
        },
        other => panic!("unexpected {:?}", other),
    }
}

#[test]
fn field_error_names_its_data_element() {
    assert_eq!(FieldError::FormatEncoding(7, "x".to_owned()).data_element(), 7);
    assert_eq!(FieldError::ByteFieldDecoding(9, "x".to_owned()).data_element(), 9);
    assert_eq!(FieldError::StringFieldDecoding(11, vec![]).data_element(), 11);
}

#[test]
fn hexadecimal_text_in_either_case_reads_back_in_lowercase() {
    let f = field(55, ContentType::Bytes, LengthType::Var3Leading, 255);
    let mut written = f.value_to_buffer("9F26AbCd").unwrap();
    let n = written.len();
    written.extend_from_slice(b"rest");
    assert_eq!(f.get_value_from_buffer(&written).unwrap(), ("9f26abcd".to_owned(), n));
}

#[test]
fn total_field_entry_points() {
    let f = field(52, ContentType::Bytes, LengthType::Fixed, 2);
    assert!(f.try_value_to_buffer("abc").is_none());
    assert_eq!(f.try_value_to_buffer("0aff").unwrap().unwrap(), vec![0x0a, 0xff]);
    assert!(f.try_value_from_buffer(&[1]).is_none());
    let pan = field(2, ContentType::Number, LengthType::Var2Leading, 19);
    assert!(pan.try_value_from_buffer(b"0").is_none());
    assert!(pan.try_value_from_buffer(b"05123").is_none());
    assert_eq!(
        pan.try_value_from_buffer(b"05123456").unwrap().unwrap(),
        ("12345".to_owned(), 7)
    );
}
