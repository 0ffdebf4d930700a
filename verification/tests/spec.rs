use iso_8583_message::iso_message::{IsoMessage, ReadError};
use iso_8583_message::mc_auth_iso_message::McAuthIsoMessage;
use iso_8583_message::spec::content_type::ContentType;
use iso_8583_message::spec::data_element::DataElement;
use iso_8583_message::spec::iso_map::IsoSpecMap;
use iso_8583_message::spec::length::{Length, LengthKind};
use iso_8583_message::spec::redaction_level::RedactionLevel;
use iso_8583_message::spec::IsoSpec;
use iso_8583_message::spec_builder::{
    ContentTypeBuilder, DataElementBuilder, IsoSpecBuilder, IsoSpecMapBuilder, LengthBuilder,
    RedactionLevelBuilder,
};

fn element(label: &'static str, is_enabled: bool, length: Length) -> DataElement<'static> {
    DataElement {
        label,
        description: "",
        is_enabled,
        content_type: ContentType::AlphaNumeric,
        redaction_level: RedactionLevel::Clear,
        length,
    }
}

fn spec() -> IsoSpec<'static> {
    IsoSpec {
        name: "test",
        version: 1,
        map: IsoSpecMap::new(vec![
            ("2", element("PAN", true, Length::LLVar(19))),
            ("3", element("Processing Code", true, Length::Fixed(6))),
            ("39", element("Response Code", false, Length::Fixed(2))),
        ]),
    }
}

#[test]
fn length_is_counted_in_bytes() {
    assert!(Length::Fixed(6).is_valid("000000"));
    assert!(!Length::Fixed(6).is_valid("00000"));
    assert!(Length::LVar(3).is_valid("abc"));
    assert!(!Length::LLVar(3).is_valid("abcd"));
    assert!(Length::LLLVar(3).is_valid(""));
    assert!(!Length::LVar(2).is_valid("é1"));
}

#[test]
fn data_element_validity() {
    assert!(element("a", true, Length::Fixed(2)).is_valid("ab"));
    assert!(!element("a", false, Length::Fixed(2)).is_valid("ab"));
    assert!(!element("a", true, Length::Fixed(2)).is_valid("abc"));
    assert!(ContentType::Numeric.is_valid("not checked"));
}

#[test]
fn spec_map_finds_its_entries() {
    let spec = spec();
    assert_eq!(spec.map.get_field_spec("2").map(|d| d.label), Some("PAN"));
    assert_eq!(spec.map.get_field_spec("39").map(|d| d.label), Some("Response Code"));
    assert!(spec.map.get_field_spec("4").is_none());
}

#[test]
fn message_fields_must_be_in_the_spec() {
    let spec = spec();
    let mut message = IsoMessage::new(&spec, vec![("2".to_owned(), "4000".to_owned())]);
    assert_eq!(message.get_field("2").map(|s| s.as_str()), Some("4000"));
    assert_eq!(message.get_field("3"), None);
    assert_eq!(message.set_field("3", "000000".to_owned()), Ok(()));
    assert_eq!(message.get_field("3").map(|s| s.as_str()), Some("000000"));
    assert_eq!(message.set_field("2", "5000".to_owned()), Ok(()));
    assert_eq!(message.get_field("2").map(|s| s.as_str()), Some("5000"));
    assert_eq!(message.set_field("4", "x".to_owned()), Err(()));
    assert_eq!(message.get_field("4"), None);
}

#[test]
fn a_disabled_or_invalid_value_is_still_set() {
    let spec = spec();
    let mut message = IsoMessage::new(&spec, vec![]);
    assert_eq!(message.set_field("39", "too long".to_owned()), Ok(()));
    assert_eq!(message.get_field("39").map(|s| s.as_str()), Some("too long"));
}

#[test]
fn reading_a_message_without_data_elements() {
    let spec = spec();
    let mut buffer = b"0800".to_vec();
    buffer.extend_from_slice(&[0u8; 8]);
    let message = IsoMessage::from_buffer(&buffer, &spec).unwrap();
    assert_eq!(message.get_field("2"), None);
}

#[test]
fn reading_a_message_mti_is_decoded_lossily() {
    let spec = IsoSpec {
        name: "mti",
        version: 1,
        map: IsoSpecMap::new(vec![("0", element("MTI", true, Length::Fixed(4)))]),
    };
    let mut buffer = vec![b'0', 0xff, b'0', b'0'];
    buffer.extend_from_slice(&[0u8; 8]);
    let message = IsoMessage::from_buffer(&buffer, &spec).unwrap();
    assert_eq!(message.get_field("0").map(|s| s.as_str()), Some("0\u{fffd}00"));
}

#[test]
fn reading_errors() {
    let spec = spec();
    assert_eq!(IsoMessage::from_buffer(b"010", &spec).err(), Some(ReadError::MtiMissing));
    assert_eq!(
        IsoMessage::from_buffer(b"0100\0\0\0", &spec).err(),
        Some(ReadError::BitmapMissing(1))
    );
    let mut buffer = b"0100".to_vec();
    // Bit 4 announces data element 4, which the spec does not describe.
    buffer.extend_from_slice(&[0x10, 0, 0, 0, 0, 0, 0, 0]);
    assert_eq!(
        IsoMessage::from_buffer(&buffer, &spec).err(),
        Some(ReadError::UnknownDataElement(4))
    );
}

#[test]
fn mastercard_message_carries_its_data() {
    let spec = spec();
    let message = McAuthIsoMessage::new(&spec, vec![("2".to_owned(), "4000".to_owned())]);
    assert_eq!(message.get_field("2").map(|s| s.as_str()), Some("4000"));
}

#[test]
fn spec_builder_values() {
    assert_eq!(RedactionLevelBuilder::default(), RedactionLevelBuilder::Full);
    let builder = IsoSpecBuilder {
        name: "test",
        version: 2,
        map: IsoSpecMapBuilder::new(vec![(
            "2",
            DataElementBuilder {
                label: "PAN",
                description: "Primary account number",
                content_type: ContentTypeBuilder::Numeric,
                redaction_level: RedactionLevelBuilder::Last4,
                length: LengthBuilder::LLVar(19),
            },
        )]),
    };
    assert_eq!(builder.version, 2);
    assert_eq!(builder.map.entry_list()[0].1.length, LengthBuilder::LLVar(19));
}

#[test]
fn reading_with_a_spec_decodes_a_well_formed_mti() {
    let spec = spec();
    let t = b"0800";
    assert_eq!(IsoMessage::from_buffer(b"080", &spec).err(), Some(ReadError::MtiMissing));
    let s = [&t[..], &[0u8; 2]].concat();
    assert_eq!(IsoMessage::from_buffer(&s, &spec).err(), Some(ReadError::BitmapMissing(1)));
    let spec0 = IsoSpec {
        name: "mti",
        version: 1,
        map: IsoSpecMap::new(vec![("0", element("MTI", true, Length::Fixed(4)))]),
    };
    let z = [&t[..], &[0u8; 8]].concat();
    let message = IsoMessage::from_buffer(&z, &spec0).unwrap();
    assert_eq!(message.get_field("0").map(|s| s.as_str()), Some("0800"));
}

#[test]
fn try_reading_a_known_data_element_gives_nothing() {
    let spec = spec();
    let mut buffer = b"0100".to_vec();
    // Bit 2 announces data element 2, which the spec knows but cannot read.
    buffer.extend_from_slice(&[0x40, 0, 0, 0, 0, 0, 0, 0]);
    assert!(IsoMessage::try_from_buffer(&buffer, &spec).is_none());
    assert_eq!(
        IsoMessage::try_from_buffer(b"01", &spec).map(|r| r.err()),
        Some(Some(ReadError::MtiMissing))
    );
}

#[test]
fn data_elements_and_lengths_are_built_from_their_descriptions() {
    assert_eq!(Length::new(LengthKind::Fixed, 6), Length::Fixed(6));
    assert_eq!(Length::new(LengthKind::LLLVar, 999), Length::LLLVar(999));
    let element = DataElement::new(
        "PAN",
        "Primary account number",
        ContentType::Numeric,
        RedactionLevel::Last4,
        Length::new(LengthKind::LLVar, 19),
        true,
    );
    assert!(!element.is_enabled);
    assert_eq!(element.length, Length::LLVar(19));
    assert!(!element.is_valid("4000"));
}

#[test]
fn keys_must_be_distinct() {
    assert!(IsoSpecMap::try_new(vec![
        ("2", element("PAN", true, Length::LLVar(19))),
        ("2", element("Shadowed", true, Length::Fixed(1))),
    ])
    .is_none());
    assert!(IsoSpecMap::try_new(vec![("2", element("PAN", true, Length::LLVar(19)))]).is_some());
    let spec = spec();
    assert!(IsoMessage::try_new(
        &spec,
        vec![("2".to_owned(), "1".to_owned()), ("2".to_owned(), "2".to_owned())]
    )
    .is_none());
    assert!(McAuthIsoMessage::try_new(&spec, vec![("2".to_owned(), "1".to_owned())]).is_some());
    let element_builder = || DataElementBuilder {
        label: "PAN",
        description: "",
        content_type: ContentTypeBuilder::Numeric,
        redaction_level: RedactionLevelBuilder::Full,
        length: LengthBuilder::LLVar(19),
    };
    assert!(IsoSpecMapBuilder::try_new(vec![("2", element_builder()), ("2", element_builder())]).is_none());
}

#[test]
fn setting_a_data_element_again_replaces_it() {
    let spec = spec();
    let mut message = IsoMessage::new(&spec, vec![("2".to_owned(), "1".to_owned())]);
    assert_eq!(message.set_field("2", "9".to_owned()), Ok(()));
    assert_eq!(message.get_field("2").map(|s| s.as_str()), Some("9"));
}
