use vstd::prelude::*;

verus! {

/// The length of a data element of a spec: fixed, or at most a maximum for
/// the variable-length kinds.
#[derive(Debug, Clone, Copy, PartialEq, Eq, Structural)]
pub enum Length {
    Fixed(u16),
    LVar(u16),
    LLVar(u16),
    LLLVar(u16),
}

/// The kind of length of a data element, without the length.
#[derive(Debug, Clone, Copy, PartialEq, Eq, Structural)]
pub enum LengthKind {
    Fixed,
    LVar,
    LLVar,
    LLLVar,
}

impl Length {
    /// The length of the given kind: exactly `length` for a fixed one, at
    /// most `length` otherwise.
    pub fn new(kind: LengthKind, length: u16) -> (r: Self)
        ensures
            r == match kind {
                LengthKind::Fixed => Length::Fixed(length),
                LengthKind::LVar => Length::LVar(length),
                LengthKind::LLVar => Length::LLVar(length),
                LengthKind::LLLVar => Length::LLLVar(length),
            },
    {
        match kind {
            LengthKind::Fixed => Length::Fixed(length),
            LengthKind::LVar => Length::LVar(length),
            LengthKind::LLVar => Length::LLVar(length),
            LengthKind::LLLVar => Length::LLLVar(length),
        }
    }

    /// Whether a value of `len` bytes has a valid length.
    pub open spec fn accepts_len(self, len: nat) -> bool {
        match self {
            Length::Fixed(length) => length == len,
            Length::LVar(max_len) => max_len >= len,
            Length::LLVar(max_len) => max_len >= len,
            Length::LLLVar(max_len) => max_len >= len,
        }
    }

    /// Whether `value` has a valid length, counted in UTF-8 bytes: exactly
    /// the fixed length, or at most the maximum.
    pub fn is_valid(&self, value: &str) -> (r: bool)
        ensures
            r == self.accepts_len(value.len() as nat),
    {
        match self {
            Length::Fixed(length) => *length as usize == value.len(),
            Length::LVar(max_len) => *max_len as usize >= value.len(),
            Length::LLVar(max_len) => *max_len as usize >= value.len(),
            Length::LLLVar(max_len) => *max_len as usize >= value.len(),
        }
    }
}

} // verus!
