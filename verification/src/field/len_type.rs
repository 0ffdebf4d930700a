use vstd::prelude::*;

verus! {

/// How the length of a data element is given: fixed by the format, or by
/// one to six leading ASCII digits in the buffer.
#[derive(Debug, Clone, Copy, PartialEq, Eq, Structural)]
pub enum LengthType {
    Fixed,
    Var1Leading,
    Var2Leading,
    Var3Leading,
    Var4Leading,
    Var5Leading,
    Var6Leading,
}

impl LengthType {
    /// The number of leading length digits; none for a fixed length.
    pub open spec fn spec_leading_digits(self) -> Option<usize> {
        match self {
            LengthType::Fixed => None,
            LengthType::Var1Leading => Some(1),
            LengthType::Var2Leading => Some(2),
            LengthType::Var3Leading => Some(3),
            LengthType::Var4Leading => Some(4),
            LengthType::Var5Leading => Some(5),
            LengthType::Var6Leading => Some(6),
        }
    }

    /// The number of leading length digits; none for a fixed length.
    pub fn get_leading_digits(&self) -> (r: Option<usize>)
        ensures
            r == self.spec_leading_digits(),
    {
        match self {
            LengthType::Fixed => None,
            LengthType::Var1Leading => Some(1),
            LengthType::Var2Leading => Some(2),
            LengthType::Var3Leading => Some(3),
            LengthType::Var4Leading => Some(4),
            LengthType::Var5Leading => Some(5),
            LengthType::Var6Leading => Some(6),
        }
    }
}

} // verus!
