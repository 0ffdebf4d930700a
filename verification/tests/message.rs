use iso_8583_message::error::IsoMessageError;
use iso_8583_message::field::content_type::ContentType;
use iso_8583_message::field::len_type::LengthType;
use iso_8583_message::field::Field;
use iso_8583_message::format::IsoFormat;
use iso_8583_message::response::ResponseFields;
use iso_8583_message::{IsoMessage, IsoMessageMap};

fn field(data_element: u8, content_type: ContentType, len_type: LengthType, max_len: usize) -> Field {
    Field {
        data_element,
        content_type,
        len_type,
        max_len,
    }
}

fn format() -> IsoFormat {
    let mut format = IsoFormat::new();
    format.insert(0, field(0, ContentType::Number, LengthType::Fixed, 4));
    format.insert(2, field(2, ContentType::Number, LengthType::Var2Leading, 19));
    format.insert(3, field(3, ContentType::Number, LengthType::Fixed, 6));
    format.insert(4, field(4, ContentType::Number, LengthType::Fixed, 12));
    format.insert(39, field(39, ContentType::AlphaNumeric, LengthType::Fixed, 2));
    format.insert(70, field(70, ContentType::Number, LengthType::Fixed, 3));
    format.insert(100, field(100, ContentType::AlphaNumeric, LengthType::Var2Leading, 11));
    format.insert(130, field(130, ContentType::Bytes, LengthType::Var3Leading, 255));
    format
}

fn map(entries: &[(u8, &str)]) -> IsoMessageMap {
    entries.iter().map(|(k, v)| (*k, v.to_string())).collect()
}

#[test]
fn message_reads_back_from_what_it_writes() {
    let fields = map(&[
        (0, "0200"),
        (2, "4111111111111111"),
        (3, "000000"),
        (4, "000000001000"),
        (70, "301"),
        (100, "ABC123"),
        (130, "0aff10"),
    ]);
    let message = IsoMessage::from_iso_json_message(fields.clone());
    let written = message.get_message_buffer(&format()).unwrap();
    let read = IsoMessage::from_buffer(written.clone(), &format()).unwrap();
    assert_eq!(read.get_message_map(), &fields);
    assert_eq!(read.get_original_buffer(), &Some(written.clone()));
    assert_eq!(read.get_message_buffer(&format()).unwrap(), written);
}

#[test]
fn message_is_written_mti_bitmaps_then_fields() {
    let message = IsoMessage::from_iso_json_message(map(&[(0, "0100"), (3, "123456")]));
    let written = message.get_message_buffer(&format()).unwrap();
    let mut expected = b"0100".to_vec();
    expected.extend_from_slice(&[0x20, 0, 0, 0, 0, 0, 0, 0]);
    expected.extend_from_slice(b"123456");
    assert_eq!(written, expected);
}

#[test]
fn reading_needs_a_format_for_the_mti() {
    let mut f = format();
    f.remove(&0);
    let result = IsoMessage::from_buffer(b"0100xxxxxxxx".to_vec(), &f);
    assert_eq!(result.err(), Some(IsoMessageError::InvalidInput(0)));
}

#[test]
fn reading_a_data_element_without_a_format_is_an_error() {
    let mut buffer = b"0100".to_vec();
    // Bit 5 announces data element 5, which the format does not describe.
    buffer.extend_from_slice(&[0x08, 0, 0, 0, 0, 0, 0, 0]);
    buffer.extend_from_slice(b"anything");
    let result = IsoMessage::from_buffer(buffer, &format());
    assert_eq!(result.err(), Some(IsoMessageError::InvalidInput(5)));
}

#[test]
fn reading_an_invalid_value_names_its_data_element() {
    let mut buffer = b"0100".to_vec();
    buffer.extend_from_slice(&[0x20, 0, 0, 0, 0, 0, 0, 0]);
    buffer.extend_from_slice(b"12345x");
    let result = IsoMessage::from_buffer(buffer, &format());
    assert_eq!(result.err(), Some(IsoMessageError::InvalidInput(3)));
}

#[test]
fn writing_without_an_mti_is_an_error() {
    let message = IsoMessage::from_iso_json_message(map(&[(3, "123456")]));
    assert_eq!(
        message.get_message_buffer(&format()).err(),
        Some(IsoMessageError::InvalidInput(0))
    );
}

#[test]
fn writing_a_data_element_without_a_format_is_an_error() {
    let message = IsoMessage::from_iso_json_message(map(&[(0, "0100"), (5, "1")]));
    assert_eq!(
        message.get_message_buffer(&format()).err(),
        Some(IsoMessageError::InvalidInput(5))
    );
}

#[test]
fn writing_an_invalid_value_names_its_data_element() {
    let message = IsoMessage::from_iso_json_message(map(&[(0, "0100"), (4, "12ab")]));
    assert_eq!(
        message.get_message_buffer(&format()).err(),
        Some(IsoMessageError::InvalidInput(4))
    );
}

#[test]
fn get_after_set_and_delete() {
    let message = IsoMessage::from_iso_json_message(map(&[(0, "0100"), (2, "4000")]));
    assert_eq!(message.get_original_buffer(), &None);
    let message = message.set_field(2, "5000".to_owned()).set_field(3, "000000".to_owned());
    assert_eq!(message.get_pan(), Some("5000"));
    assert_eq!(message.get_field(3), Some("000000"));
    assert_eq!(message.get_mti(), Some("0100"));
    let message = message.delete_field(2);
    assert_eq!(message.get_pan(), None);
    assert_eq!(message.get_field(3), Some("000000"));
    let message = message.delete_field(99);
    assert_eq!(message.get_message_map().len(), 2);
}

#[test]
fn request_and_response_mtis() {
    for mti in ["0100", "0120", "0200", "0220", "0302", "0400", "0420", "0620", "0800"] {
        let message = IsoMessage::from_iso_json_message(map(&[(0, mti)]));
        assert!(message.is_request());
        assert!(!message.is_response());
    }
    for mti in ["0110", "0130", "0210", "0230", "0312", "0410", "0430", "0630", "0810"] {
        let message = IsoMessage::from_iso_json_message(map(&[(0, mti)]));
        assert!(message.is_response());
        assert!(!message.is_request());
    }
    let other = IsoMessage::from_iso_json_message(map(&[(0, "9999")]));
    assert!(!other.is_request() && !other.is_response());
    let none = IsoMessage::from_iso_json_message(map(&[]));
    assert!(!none.is_request() && !none.is_response());
}

#[test]
fn a_response_is_its_own_response() {
    let fields = map(&[(0, "0110"), (2, "4000"), (39, "05")]);
    let message = IsoMessage::from_iso_json_message(fields.clone());
    let response = message.to_response("00", &ResponseFields { entries: vec![] }).unwrap();
    assert_eq!(response.get_message_map(), &fields);
}

#[test]
fn to_response_adds_ten_pads_on_the_right_and_sets_the_response_code() {
    let message = IsoMessage::from_iso_json_message(map(&[(0, "0100"), (2, "4000")]));
    let response = message.to_response("00", &ResponseFields { entries: vec![] }).unwrap();
    assert_eq!(response.get_mti(), Some("1100"));
    assert_eq!(response.get_field(39), Some("00"));
    assert_eq!(response.get_pan(), Some("4000"));
}

#[test]
fn to_response_keeps_only_the_listed_fields() {
    let message = IsoMessage::from_iso_json_message(map(&[
        (0, "1200"),
        (2, "4000"),
        (3, "000000"),
        (4, "000000001000"),
    ]));
    let response_fields = ResponseFields {
        entries: vec![
            ("1100".to_owned(), vec![0, 3]),
            ("1210".to_owned(), vec![0, 2, 39]),
        ],
    };
    let response = message.to_response("05", &response_fields).unwrap();
    assert_eq!(
        response.get_message_map(),
        &map(&[(0, "1210"), (2, "4000"), (39, "05")])
    );
}

#[test]
fn to_response_needs_a_numeric_mti() {
    let message = IsoMessage::from_iso_json_message(map(&[(0, "01A0")]));
    assert_eq!(
        message.to_response("00", &ResponseFields { entries: vec![] }).err(),
        Some(IsoMessageError::InvalidInput(0))
    );
    let message = IsoMessage::from_iso_json_message(map(&[(2, "4000")]));
    assert_eq!(
        message.to_response("00", &ResponseFields { entries: vec![] }).err(),
        Some(IsoMessageError::InvalidInput(0))
    );
}

#[test]
fn response_fields_lookup_takes_the_first_entry() {
    let response_fields = ResponseFields {
        entries: vec![
            ("0110".to_owned(), vec![0, 2]),
            ("0110".to_owned(), vec![0]),
        ],
    };
    assert_eq!(response_fields.get("0110"), Some(&vec![0, 2]));
    assert_eq!(response_fields.get("0210"), None);
}

#[test]
fn bits_1_65_and_129_carry_no_data_element() {
    let mut f = format();
    f.insert(66, field(66, ContentType::Number, LengthType::Fixed, 1));
    f.insert(130, field(130, ContentType::Number, LengthType::Fixed, 1));
    let mut buffer = b"0100".to_vec();
    buffer.extend_from_slice(&[0xA0, 0, 0, 0, 0, 0, 0, 0]);
    buffer.extend_from_slice(&[0xC0, 0, 0, 0, 0, 0, 0, 0]);
    buffer.extend_from_slice(&[0xC0, 0, 0, 0, 0, 0, 0, 0]);
    buffer.extend_from_slice(b"123456");
    buffer.extend_from_slice(b"7");
    buffer.extend_from_slice(b"8");
    let message = IsoMessage::from_buffer(buffer, &f).unwrap();
    assert_eq!(
        message.get_message_map(),
        &map(&[(0, "0100"), (3, "123456"), (66, "7"), (130, "8")])
    );
}

#[test]
fn total_entry_points_give_nothing_where_the_others_panic() {
    // Too short for the bitmap the MTI is followed by.
    assert!(IsoMessage::try_from_buffer(b"0100\x20".to_vec(), &format()).is_none());
    // Too short for data element 3.
    let mut buffer = b"0100".to_vec();
    buffer.extend_from_slice(&[0x20, 0, 0, 0, 0, 0, 0, 0]);
    buffer.extend_from_slice(b"123");
    assert!(IsoMessage::try_from_buffer(buffer, &format()).is_none());
    // Odd-length hexadecimal text cannot be decoded two digits at a time.
    let message = IsoMessage::from_iso_json_message(map(&[(0, "0100"), (2, "40"), (100, "A"), (130, "abc")]));
    assert!(message.try_get_message_buffer(&format()).is_none());
    let message = IsoMessage::from_iso_json_message(map(&[(0, "0100"), (3, "123456")]));
    assert_eq!(
        message.try_get_message_buffer(&format()).map(|r| r.unwrap().len()),
        Some(18)
    );
    // Adding 10 to the MTI overflows.
    let message = IsoMessage::from_iso_json_message(map(&[(0, "4294967290")]));
    assert!(message
        .try_to_response("00", &ResponseFields { entries: vec![] })
        .is_none());
    let message = IsoMessage::from_iso_json_message(map(&[(0, "0200")]));
    let response = message
        .try_to_response("00", &ResponseFields { entries: vec![] })
        .unwrap()
        .unwrap();
    assert_eq!(response.get_mti(), Some("2100"));
}
