use vstd::prelude::*;

verus! {

/// The content type of a data element as a spec file writes it.
#[derive(Debug, Clone, Copy, PartialEq, Eq, Structural)]
pub enum ContentTypeBuilder {
    Alpha,
    Numeric,
    Special,
    Binary,
    AlphaNumeric,
    NumericSpecial,
    AlphaNumericSpecial,
}

} // verus!
