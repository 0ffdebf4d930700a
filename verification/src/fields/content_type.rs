use vstd::prelude::*;

verus! {

/// The kind of characters a field of a format holds.
#[derive(Debug, Clone, Copy, PartialEq, Eq, Structural)]
pub enum ContentType {
    Bytes,
    Number,
    Padding,
    Alpha,
    AlphaNumeric,
    AlphaNumericPadding,
    Special,
    AlphaNumericSpecial,
    Track2,
    TransactionNumeric,
    AlphaSpecial,
    NumericSpecial,
}

} // verus!
