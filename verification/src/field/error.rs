use vstd::prelude::*;

verus! {

/// Why a data element could not be packed or unpacked; each variant carries
/// the data element's number and the offending value.
#[derive(Debug)]
pub enum FieldError {
    ByteFieldDecoding(u8, String),
    StringFieldDecoding(u8, Vec<u8>),
    FieldLengthDecoding(u8, Vec<u8>),
    FormatDecoding(u8, String),
    FormatEncoding(u8, String),
}

/// A `FieldError` with its text and bytes taken by their views.
pub enum FieldErrorView {
    ByteFieldDecoding(u8, Seq<char>),
    StringFieldDecoding(u8, Seq<u8>),
    FieldLengthDecoding(u8, Seq<u8>),
    FormatDecoding(u8, Seq<char>),
    FormatEncoding(u8, Seq<char>),
}

impl FieldErrorView {
    /// The data element that the error is about.
    pub open spec fn data_element(self) -> u8 {
        match self {
            FieldErrorView::ByteFieldDecoding(de, _) => de,
            FieldErrorView::StringFieldDecoding(de, _) => de,
            FieldErrorView::FieldLengthDecoding(de, _) => de,
            FieldErrorView::FormatDecoding(de, _) => de,
            FieldErrorView::FormatEncoding(de, _) => de,
        }
    }
}

impl View for FieldError {
    type V = FieldErrorView;

    open spec fn view(&self) -> FieldErrorView {
        match self {
            FieldError::ByteFieldDecoding(de, v) => FieldErrorView::ByteFieldDecoding(*de, v@),
            FieldError::StringFieldDecoding(de, v) => FieldErrorView::StringFieldDecoding(*de, v@),
            FieldError::FieldLengthDecoding(de, v) => FieldErrorView::FieldLengthDecoding(*de, v@),
            FieldError::FormatDecoding(de, v) => FieldErrorView::FormatDecoding(*de, v@),
            FieldError::FormatEncoding(de, v) => FieldErrorView::FormatEncoding(*de, v@),
        }
    }
}

impl FieldError {
    /// The data element that the error is about.
    pub fn data_element(&self) -> (r: u8)
        ensures
            r == self@.data_element(),
    {
        match self {
            FieldError::ByteFieldDecoding(de, _) => *de,
            FieldError::StringFieldDecoding(de, _) => *de,
            FieldError::FieldLengthDecoding(de, _) => *de,
            FieldError::FormatDecoding(de, _) => *de,
            FieldError::FormatEncoding(de, _) => *de,
        }
    }
}

} // verus!
