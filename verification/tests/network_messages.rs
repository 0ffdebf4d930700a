use iso_8583_message::field::content_type::ContentType;
use iso_8583_message::field::len_type::LengthType;
use iso_8583_message::field::Field;
use iso_8583_message::format::IsoFormat;
use iso_8583_message::IsoMessage;

fn field(data_element: u8, content_type: ContentType, len_type: LengthType, max_len: usize) -> Field {
    Field {
        data_element,
        content_type,
        len_type,
        max_len,
    }
}

fn network_format() -> IsoFormat {
    let mut format = IsoFormat::new();
    format.insert(0, field(0, ContentType::Number, LengthType::Fixed, 4));
    format.insert(2, field(2, ContentType::Number, LengthType::Var2Leading, 19));
    format.insert(7, field(7, ContentType::Number, LengthType::Fixed, 10));
    format.insert(11, field(11, ContentType::Number, LengthType::Fixed, 6));
    format.insert(33, field(33, ContentType::Number, LengthType::Var2Leading, 11));
    format.insert(39, field(39, ContentType::AlphaNumeric, LengthType::Fixed, 2));
    format.insert(
        63,
        field(63, ContentType::AlphaNumericSpecial, LengthType::Var3Leading, 999),
    );
    format.insert(70, field(70, ContentType::Number, LengthType::Fixed, 3));
    format
}

#[test]
fn network_message() {
    let hex_string = "30383130c2200000820000020400000000000000303534303031333130303931393030323130303633393830363033313533373030303132564953303030303232313432323730";
    let buffer = hex::decode(hex_string).unwrap();
    let format = network_format();

    let iso_message = IsoMessage::from_buffer(buffer.clone(), &format).unwrap();

    let new_buffer = iso_message.get_message_buffer(&format).unwrap();

    assert_eq!(buffer, new_buffer);
}

#[test]
fn network_message_fields() {
    let hex_string = "30383130c2200000820000020400000000000000303534303031333130303931393030323130303633393830363033313533373030303132564953303030303232313432323730";
    let buffer = hex::decode(hex_string).unwrap();
    let format = network_format();

    let message = IsoMessage::from_buffer(buffer.clone(), &format).unwrap();

    assert_eq!(message.get_mti(), Some("0810"));
    assert_eq!(message.get_pan(), Some("40013"));
    assert_eq!(message.get_field(7), Some("1009190021"));
    assert_eq!(message.get_field(11), Some("006398"));
    assert_eq!(message.get_field(33), Some("031537"));
    assert_eq!(message.get_field(39), Some("00"));
    assert_eq!(message.get_field(63), Some("VIS000022142"));
    assert_eq!(message.get_field(70), Some("270"));
    assert_eq!(message.get_message_map().len(), 8);
    assert_eq!(message.get_original_buffer(), &Some(buffer));
    assert!(message.is_response());
    assert!(!message.is_request());
}
