use vstd::prelude::*;

verus! {

/// The kind of characters a data element of a spec may hold.
#[derive(Debug, Clone, Copy, PartialEq, Eq, Structural)]
pub enum ContentType {
    Alpha,
    Numeric,
    Special,
    Binary,
    AlphaNumeric,
    NumericSpecial,
    AlphaNumericSpecial,
}

impl ContentType {
    /// Every value is accepted: the content type is not checked yet.
    pub fn is_valid(&self, _value: &str) -> (r: bool)
        ensures
            r,
    {
        true
    }
}

} // verus!
