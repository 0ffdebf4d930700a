use vstd::prelude::*;

verus! {

/// The length of a data element as a spec file writes it: its kind and its
/// (maximum) length.
#[derive(Debug, Clone, Copy, PartialEq, Eq, Structural)]
pub enum LengthBuilder {
    Fixed(u16),
    LVar(u16),
    LLVar(u16),
    LLLVar(u16),
}

} // verus!
