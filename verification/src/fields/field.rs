use super::content_type::ContentType;
use super::length_type::LengthType;
use crate::encoding::{
    all_digits, ascii_text, digits_value, is_digit, lemma_ascii_text, parse_usize, spec_parse_usize,
    string_from_utf8,
};
use vstd::prelude::*;
use vstd::slice::{slice_subrange, slice_to_vec};
use vstd::utf8::{decode_utf8, valid_utf8};

verus! {

/// Why a field's value could not be read; each carries the field's label.
#[derive(Debug, Clone, Copy)]
pub enum ValueError {
    /// The leading length digits are not UTF-8.
    LeadingDigitsNotUtf8(&'static str),
    /// The leading length digits are not a decimal number.
    LeadingDigitsNotNumber(&'static str),
    /// The value is not UTF-8.
    ValueNotUtf8(&'static str),
}

/// Whether a field holds a bitmap when its description does not say: it
/// does not.
pub fn bitmap_default() -> (r: bool)
    ensures
        !r,
{
    false
}

/// A field of a message format.
#[derive(Debug)]
pub struct Field {
    pub content_type: ContentType,
    pub label: &'static str,
    pub len_type: LengthType,
    pub max_len: usize,
    pub min_len: Option<usize>,
    pub is_bitmap: bool,
}

impl Field {
    /// The UTF-8 text of `bytes`, or the error that names this field.
    pub open spec fn spec_text(self, bytes: Seq<u8>) -> Result<Seq<char>, ValueError> {
        if valid_utf8(bytes) {
            Ok(decode_utf8(bytes))
        } else {
            Err(ValueError::ValueNotUtf8(self.label))
        }
    }

    /// Reading the value at the start of `buffer`: `None` where the buffer is
    /// too short for what the field announces (the slicing panics), otherwise
    /// the value's text and the number of bytes it takes, or the error.
    pub open spec fn spec_value_from_buffer(self, buffer: Seq<u8>) -> Option<
        Result<(Seq<char>, usize), ValueError>,
    > {
        match self.len_type.spec_leading_digits() {
            Some(leading) => if buffer.len() < leading {
                None
            } else {
                let length_bytes = buffer.subrange(0, leading as int);
                if !valid_utf8(length_bytes) {
                    Some(Err(ValueError::LeadingDigitsNotUtf8(self.label)))
                } else {
                    match spec_parse_usize(length_bytes) {
                        None => Some(Err(ValueError::LeadingDigitsNotNumber(self.label))),
                        Some(var_len) => if var_len + leading > buffer.len() {
                            None
                        } else {
                            match self.spec_text(buffer.subrange(leading as int, var_len + leading)) {
                                Err(e) => Some(Err(e)),
                                Ok(value) => Some(Ok((value, (var_len + leading) as usize))),
                            }
                        },
                    }
                }
            },
            None => if self.max_len > buffer.len() {
                None
            } else {
                match self.spec_text(buffer.subrange(0, self.max_len as int)) {
                    Err(e) => Some(Err(e)),
                    Ok(value) => Some(Ok((value, self.max_len))),
                }
            },
        }
    }

    /// Reading a well-formed value: a fixed-length value is the UTF-8 text of
    /// the first `max_len` bytes and takes them; a variable-length value is
    /// the UTF-8 text of the bytes after its leading digits, as many as the
    /// number those digits write, and takes the digits and those bytes.
    pub proof fn lemma_value_read(self, prefix: Seq<u8>, x: Seq<u8>, rest: Seq<u8>)
        requires
            valid_utf8(x),
            prefix.len() + x.len() <= usize::MAX,
            match self.len_type.spec_leading_digits() {
                Some(leading) => prefix.len() == leading && all_digits(prefix) && digits_value(
                    prefix,
                ) == x.len(),
                None => prefix.len() == 0 && x.len() == self.max_len,
            },
        ensures
            self.spec_value_from_buffer(prefix + x + rest) == Some(
                Ok::<(Seq<char>, usize), ValueError>(
                    (decode_utf8(x), (prefix.len() + x.len()) as usize),
                ),
            ),
    {
        let buffer = prefix + x + rest;
        match self.len_type.spec_leading_digits() {
            Some(leading) => {
                assert(buffer.subrange(0, leading as int) == prefix);
                assert forall|i: int| 0 <= i < prefix.len() implies #[trigger] prefix[i] < 128 by {
                    assert(is_digit(prefix[i]));
                };
                lemma_ascii_text(ascii_text(prefix), prefix);
                assert(is_digit(prefix[0]));
                assert(spec_parse_usize(prefix) == Some(x.len() as usize));
                assert(buffer.subrange(leading as int, x.len() + leading) == x);
            },
            None => {
                assert(prefix + x == x);
                assert(buffer.subrange(0, self.max_len as int) == x);
            },
        }
    }

    /// Whether the field holds a bitmap.
    pub fn is_bitmap(&self) -> (r: bool)
        ensures
            r == self.is_bitmap,
    {
        self.is_bitmap
    }

    /// Reads the value at the start of `buffer` as `get_value_from_buffer`
    /// does, or gives `None` where that panics (the buffer is too short for
    /// what the field announces).
    pub fn try_value_from_buffer(&self, buffer: &[u8]) -> (r: Option<
        Result<(String, usize), ValueError>,
    >)
        ensures
            self.spec_value_from_buffer(buffer@) == match r {
                None => None,
                Some(Ok((s, n))) => Some(Ok::<(Seq<char>, usize), ValueError>((s@, n))),
                Some(Err(e)) => Some(Err(e)),
            },
    {
        let buffer_len = buffer.len();
        match self.len_type.get_leading_digits() {
            Some(leading_digits) => {
                if buffer_len < leading_digits {
                    return None;
                }
                let length_bytes = slice_subrange(buffer, 0, leading_digits);
                if string_from_utf8(slice_to_vec(length_bytes)).is_some() {
                    match parse_usize(length_bytes) {
                        None => {},
                        Some(var_len) => if var_len > buffer_len - leading_digits {
                            return None;
                        },
                    }
                }
            },
            None => if self.max_len > buffer_len {
                return None;
            },
        }
        Some(self.get_value_from_buffer(buffer))
    }

    /// Reads the value at the start of `buffer` as UTF-8 text, with the
    /// number of bytes it takes: `max_len` bytes for a fixed length, else the
    /// leading length digits and the number of bytes they announce.
    pub fn get_value_from_buffer(&self, buffer: &[u8]) -> (r: Result<(String, usize), ValueError>)
        requires
            self.spec_value_from_buffer(buffer@) is Some,
        ensures
            self.spec_value_from_buffer(buffer@) == Some(
                match r {
                    Ok((s, n)) => Ok::<(Seq<char>, usize), ValueError>((s@, n)),
                    Err(e) => Err(e),
                },
            ),
    {
        match self.len_type.get_leading_digits() {
            Some(leading_digits) => {
                let length_bytes = slice_subrange(buffer, 0, leading_digits);
                if string_from_utf8(slice_to_vec(length_bytes)).is_none() {
                    return Err(ValueError::LeadingDigitsNotUtf8(self.label));
                }
                let var_len = match parse_usize(length_bytes) {
                    Some(n) => n,
                    None => return Err(ValueError::LeadingDigitsNotNumber(self.label)),
                };
                let buffer_len = buffer.len();
                assert(var_len + leading_digits <= buffer_len);
                let end = var_len + leading_digits;
                match string_from_utf8(slice_to_vec(slice_subrange(buffer, leading_digits, end))) {
                    Some(value) => Ok((value, end)),
                    None => Err(ValueError::ValueNotUtf8(self.label)),
                }
            },
            None => match string_from_utf8(slice_to_vec(slice_subrange(buffer, 0, self.max_len))) {
                Some(value) => Ok((value, self.max_len)),
                None => Err(ValueError::ValueNotUtf8(self.label)),
            },
        }
    }
}

} // verus!
