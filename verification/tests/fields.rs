use iso_8583_message::fields::{ContentType, Field, LengthType, ValueError};

fn field(label: &'static str, len_type: LengthType, max_len: usize) -> Field {
    Field {
        content_type: ContentType::AlphaNumeric,
        label,
        len_type,
        max_len,
        min_len: None,
        is_bitmap: false,
    }
}

#[test]
fn fixed_value_takes_its_length() {
    let f = field("Response Code", LengthType::Fixed, 2);
    let (value, n) = f.get_value_from_buffer(b"00rest").unwrap();
    assert_eq!(value, "00");
    assert_eq!(n, 2);
}

#[test]
fn variable_value_follows_its_length_digits() {
    let f = field("Primary Account Number", LengthType::Var2Leading, 19);
    let (value, n) = f.get_value_from_buffer(b"0540013rest").unwrap();
    assert_eq!(value, "40013");
    assert_eq!(n, 7);
}

#[test]
fn length_digits_must_be_utf8() {
    let f = field("PAN", LengthType::Var2Leading, 19);
    match f.get_value_from_buffer(&[0xff, 0x30, 0x31]) {
        Err(ValueError::LeadingDigitsNotUtf8(label)) => assert_eq!(label, "PAN"),
        other => panic!("unexpected {:?}", other),
    }
}

#[test]
fn length_digits_must_be_a_number() {
    let f = field("PAN", LengthType::Var2Leading, 19);
    match f.get_value_from_buffer(b"x1234") {
        Err(ValueError::LeadingDigitsNotNumber(label)) => assert_eq!(label, "PAN"),
        other => panic!("unexpected {:?}", other),
    }
}

#[test]
fn value_must_be_utf8() {
    let f = field("Name", LengthType::Fixed, 2);
    match f.get_value_from_buffer(&[0xc3, 0x28]) {
        Err(ValueError::ValueNotUtf8(label)) => assert_eq!(label, "Name"),
        other => panic!("unexpected {:?}", other),
    }
}

#[test]
fn is_bitmap_reports_the_flag() {
    let mut f = field("Bitmap", LengthType::Fixed, 8);
    assert!(!f.is_bitmap());
    f.is_bitmap = true;
    assert!(f.is_bitmap());
    assert_eq!(LengthType::Var6Leading.get_leading_digits(), Some(6));
    assert_eq!(LengthType::Fixed.get_leading_digits(), None);
}

#[test]
fn a_field_holds_no_bitmap_by_default() {
    assert!(!iso_8583_message::fields::field::bitmap_default());
}

#[test]
fn total_value_read() {
    let f = field("PAN", LengthType::Var2Leading, 19);
    assert!(f.try_value_from_buffer(b"0").is_none());
    assert!(f.try_value_from_buffer(b"0512").is_none());
    assert_eq!(
        f.try_value_from_buffer(b"0512345").unwrap().unwrap(),
        ("12345".to_owned(), 7)
    );
}
