use crate::field::error::FieldError;
use vstd::prelude::*;

verus! {

/// Why a message could not be packed or unpacked: the data element at fault.
#[derive(Debug, PartialEq, Eq, Structural)]
pub enum IsoMessageError {
    InvalidInput(u8),
}

impl From<FieldError> for IsoMessageError {
    /// The data element that the field error is about.
    fn from(error: FieldError) -> (r: Self) {
        IsoMessageError::InvalidInput(error.data_element())
    }
}

impl vstd::std_specs::convert::FromSpecImpl<FieldError> for IsoMessageError {
    open spec fn obeys_from_spec() -> bool {
        true
    }

    open spec fn from_spec(error: FieldError) -> Self {
        IsoMessageError::InvalidInput(error@.data_element())
    }
}

} // verus!
