use iso_8583_message::field::len_type::LengthType;

#[test]
fn should_return_none_if_length_type_is_fixed() {
    assert_eq!(LengthType::Fixed.get_leading_digits(), None);
}

#[test]
fn should_return_1_if_length_type_is_lvar() {
    assert_eq!(LengthType::Var1Leading.get_leading_digits(), Some(1));
}

#[test]
fn should_return_1_if_length_type_is_llvar() {
    assert_eq!(LengthType::Var2Leading.get_leading_digits(), Some(2));
}

#[test]
fn should_return_1_if_length_type_is_lllvar() {
    assert_eq!(LengthType::Var3Leading.get_leading_digits(), Some(3));
}

#[test]
fn should_return_1_if_length_type_is_llllvar() {
    assert_eq!(LengthType::Var4Leading.get_leading_digits(), Some(4));
}

#[test]
fn five_and_six_leading_digits() {
    assert_eq!(LengthType::Var5Leading.get_leading_digits(), Some(5));
    assert_eq!(LengthType::Var6Leading.get_leading_digits(), Some(6));
}
