use iso_8583_message::spec::redaction_level::RedactionLevel;

#[test]
fn redaction_level_of_full_should_fully_redact_value_when_called() {
    assert_eq!(
        RedactionLevel::Full.redact("String to redact"),
        "0000000000000000"
    )
}

#[test]
fn redaction_level_of_none_should_not_redact_value_when_called() {
    assert_eq!(
        RedactionLevel::Clear.redact("String to redact"),
        "String to redact"
    )
}

#[test]
fn redaction_level_of_last4_should_not_redact_last4_characters_of_value_when_called() {
    assert_eq!(
        RedactionLevel::Last4.redact("String to redact"),
        "000000000000dact"
    )
}

#[test]
fn redaction_level_of_last4_should_not_redact_anything_if_value_is_less_then_4_characters() {
    assert_eq!(RedactionLevel::Last4.redact("car"), "car")
}

#[test]
fn redaction_keeps_the_number_of_characters() {
    for level in [RedactionLevel::Full, RedactionLevel::Clear, RedactionLevel::Last4] {
        for value in ["", "a", "abcd", "4111111111111111", "héllo wörld"] {
            let redacted = level.redact(value);
            assert_eq!(redacted.chars().count(), value.chars().count());
            for (r, v) in redacted.chars().zip(value.chars()) {
                assert!(r == v || r == '0');
            }
        }
    }
}

#[test]
fn last4_counts_the_length_in_bytes() {
    // "é" takes two bytes: the value is seven bytes long, so only the
    // characters from index 3 on are kept.
    assert_eq!(RedactionLevel::Last4.redact("aabcdé"), "000cdé");
}
