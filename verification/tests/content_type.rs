use iso_8583_message::field::content_type::ContentType;

#[test]
fn should_return_true_if_value_hex() {
    assert!(ContentType::Bytes.is_valid("123456789ABCDEF"));
}

#[test]
fn should_return_false_if_value_not_hex() {
    assert!(!ContentType::Bytes.is_valid("12345678-9ABCDEF"));
}

#[test]
fn should_return_true_if_value_is_number() {
    assert!(ContentType::Number.is_valid("123456789"));
}

#[test]
fn should_return_false_if_value_not_number() {
    assert!(!ContentType::Number.is_valid("9ABCDEF"));
}

#[test]
fn should_return_true_if_value_is_padding() {
    assert!(ContentType::Padding.is_valid("  **##"));
}

#[test]
fn content_type_should_return_false_if_value_not_number() {
    assert!(!ContentType::Padding.is_valid("9ABCDEF"));
}

#[test]
fn should_return_true_if_value_is_alpha() {
    assert!(ContentType::Alpha.is_valid("helloWorld"));
}

#[test]
fn should_return_false_if_value_not_alpha() {
    assert!(!ContentType::Alpha.is_valid("9ABCDEF"));
}

#[test]
fn should_return_true_if_value_is_alpha_numeric() {
    assert!(ContentType::AlphaNumeric.is_valid("helloWorld123456"));
}

#[test]
fn should_return_false_if_value_not_alpha_numeric() {
    assert!(!ContentType::Alpha.is_valid("9ABCDEF "));
}

#[test]
fn should_return_true_if_value_is_alpha_numeric_padding() {
    assert!(ContentType::AlphaNumericPadding.is_valid("helloWorld123456   *#"));
}

#[test]
fn should_return_false_if_value_not_alpha_numeric_padding() {
    assert!(!ContentType::Alpha.is_valid("9ABCDEF -- "));
}

#[test]
fn should_return_true_if_value_is_special() {
    assert!(ContentType::Special.is_valid("--__"));
}

#[test]
fn should_return_false_if_value_not_special() {
    assert!(!ContentType::Special.is_valid("9ABCDEF -- "));
}

#[test]
fn should_return_true_if_value_is_alpha_numeric_special() {
    assert!(ContentType::AlphaNumericSpecial.is_valid("abcdhe38586_-92hsn"));
}

#[test]
fn content_type_should_return_false_if_value_not_special() {
    assert!(!ContentType::AlphaNumericSpecial.is_valid("9ABCDEF --# "));
}

#[test]
fn should_always_return_true() {
    assert!(ContentType::Track2.is_valid("abcdhe38586_-92hsn"));
}

#[test]
fn should_return_true_if_value_is_transaction_numeric() {
    assert!(ContentType::TransactionNumeric.is_valid("3499"));
}

#[test]
fn transaction_numeric_should_return_false_if_value_not_special() {
    assert!(!ContentType::TransactionNumeric.is_valid("3499A"));
}

#[test]
fn should_return_true_if_value_is_alpha_special() {
    assert!(ContentType::AlphaSpecial.is_valid("adb-akdnA"));
}

#[test]
fn alpha_special_should_return_false_if_value_not_special() {
    assert!(!ContentType::AlphaSpecial.is_valid("adb-asDF2"));
}

#[test]
fn should_return_true_if_value_is_numeric_special() {
    assert!(ContentType::NumericSpecial.is_valid("123.44"));
}

#[test]
fn should_return_false_if_value_not_numeric_special() {
    assert!(!ContentType::NumericSpecial.is_valid("123.44A"));
}

#[test]
fn transaction_numeric_accepts_a_credit_or_debit_sign() {
    assert!(ContentType::TransactionNumeric.is_valid("C100"));
    assert!(ContentType::TransactionNumeric.is_valid("D100"));
    assert!(!ContentType::TransactionNumeric.is_valid("X100"));
}

#[test]
fn no_content_type_but_track_2_accepts_an_empty_value() {
    assert!(!ContentType::Number.is_valid(""));
    assert!(!ContentType::Bytes.is_valid(""));
    assert!(ContentType::Track2.is_valid(""));
}
