use crate::field::Field;
use std::collections::HashMap;
use vstd::prelude::*;

verus! {

/// How each data element of a message is packed, keyed by its number
/// (0 is the MTI).
pub type IsoFormat = HashMap<u8, Field>;

} // verus!
