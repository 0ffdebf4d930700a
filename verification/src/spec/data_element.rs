use super::content_type::ContentType;
use super::length::Length;
use super::redaction_level::RedactionLevel;
use vstd::prelude::*;

verus! {

/// A data element of a spec: what it is, whether it is in use, and what its
/// values look like.
#[derive(Debug)]
pub struct DataElement<'a> {
    pub label: &'a str,
    pub description: &'a str,
    pub is_enabled: bool,
    pub content_type: ContentType,
    pub redaction_level: RedactionLevel,
    pub length: Length,
}

impl<'a> DataElement<'a> {
    /// A data element as a spec describes it; it is enabled unless the spec
    /// marks it disabled.
    pub fn new(
        label: &'a str,
        description: &'a str,
        content_type: ContentType,
        redaction_level: RedactionLevel,
        length: Length,
        disabled: bool,
    ) -> (r: Self)
        ensures
            r.label == label,
            r.description == description,
            r.content_type == content_type,
            r.redaction_level == redaction_level,
            r.length == length,
            r.is_enabled == !disabled,
    {
        DataElement { label, description, is_enabled: !disabled, content_type, redaction_level, length }
    }

    /// Whether `value` may be set: the data element is enabled and the
    /// value's length in bytes is valid (the content type accepts all).
    pub fn is_valid(&self, value: &str) -> (r: bool)
        ensures
            r == (self.is_enabled && self.length.accepts_len(value.len() as nat)),
    {
        self.is_enabled && self.length.is_valid(value) && self.content_type.is_valid(value)
    }
}

} // verus!
