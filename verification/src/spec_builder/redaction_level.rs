use vstd::prelude::*;

verus! {

/// The redaction level of a data element as a spec file writes it.
#[derive(Debug, Clone, Copy, PartialEq, Eq, Structural)]
pub enum RedactionLevelBuilder {
    Full,
    Clear,
    Last4,
}

impl Default for RedactionLevelBuilder {
    /// A value is fully redacted unless the spec file says otherwise.
    fn default() -> (r: Self)
        ensures
            r == RedactionLevelBuilder::Full,
    {
        RedactionLevelBuilder::Full
    }
}

} // verus!
