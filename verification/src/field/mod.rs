use crate::encoding::{
    decimal, decimal_digits, encode_hex, hex_decode_from, hex_lower, hex_pair_value,
    all_digits, is_digit, lemma_decimal_digits, lemma_decimal_len_at_least, lemma_decimal_value,
    ascii_lowercase, is_hex_text, lemma_digits_canonical, lemma_hex_lower_len,
    lemma_hex_round_trip, lemma_hex_text_decodes, lemma_hex_decode_even, is_hex_char,
    lemma_lowercase_hex, lemma_leading_zeros_value, parse_usize,
    spec_parse_usize, string_from_utf8,
};
use vstd::prelude::*;
use vstd::slice::{slice_subrange, slice_to_vec};
use vstd::utf8::{decode_utf8, encode_utf8, is_ascii_chars, is_ascii_chars_encode_utf8, valid_utf8};

pub mod content_type;
pub mod error;
pub mod len_type;

use content_type::ContentType;
use error::{FieldError, FieldErrorView};
use len_type::LengthType;

verus! {

broadcast use vstd::utf8::group_utf8_lib;

/// How one data element is packed: its number, the characters it may hold,
/// how its length is given, and its length when that is fixed.
#[derive(Debug)]
pub struct Field {
    pub data_element: u8,
    pub content_type: ContentType,
    pub len_type: LengthType,
    pub max_len: usize,
}

/// `n` zero bytes.
pub open spec fn zeros(n: nat) -> Seq<u8> {
    Seq::new(n, |i: int| 0u8)
}

/// `n` ASCII `'0'` bytes.
pub open spec fn zero_digits(n: nat) -> Seq<u8> {
    Seq::new(n, |i: int| 48u8)
}

/// `bytes` cut or padded with zero bytes to length `len`.
pub open spec fn resized(bytes: Seq<u8>, len: nat) -> Seq<u8> {
    if len <= bytes.len() {
        bytes.subrange(0, len as int)
    } else {
        bytes + zeros((len - bytes.len()) as nat)
    }
}

/// The length prefix written before a variable-length value of `n` bytes
/// with `leading` length digits: the decimal digits of `n`, zero-padded on
/// the left to `leading` digits. When `n` has more digits than that, the
/// prefix is the last `digits - leading` of them.
pub open spec fn length_prefix(n: nat, leading: nat) -> Seq<u8> {
    let digits = decimal(n);
    let full = zero_digits(leading) + digits;
    let position = if digits.len() > leading {
        (digits.len() - leading) as int
    } else {
        leading as int
    };
    full.subrange(full.len() - position, full.len() as int)
}

/// A result of bytes, with the bytes and the error taken by their views.
pub open spec fn bytes_result_view(r: Result<Vec<u8>, FieldError>) -> Result<Seq<u8>, FieldErrorView> {
    match r {
        Ok(v) => Ok(v@),
        Err(e) => Err(e@),
    }
}

/// A result of text, with the text and the error taken by their views.
pub open spec fn text_result_view(r: Result<String, FieldError>) -> Result<Seq<char>, FieldErrorView> {
    match r {
        Ok(s) => Ok(s@),
        Err(e) => Err(e@),
    }
}

/// A result of a value and its length, taken by their views.
pub open spec fn value_result_view(r: Result<(String, usize), FieldError>) -> Result<
    (Seq<char>, usize),
    FieldErrorView,
> {
    match r {
        Ok((s, n)) => Ok((s@, n)),
        Err(e) => Err(e@),
    }
}

impl Field {
    /// The text of a value held in `bytes`: hexadecimal digits for a byte
    /// field, the UTF-8 text otherwise.
    pub open spec fn spec_extract_value(self, bytes: Seq<u8>) -> Result<Seq<char>, FieldErrorView> {
        if self.content_type == ContentType::Bytes {
            Ok(hex_lower(bytes))
        } else if valid_utf8(bytes) {
            Ok(decode_utf8(bytes))
        } else {
            Err(FieldErrorView::StringFieldDecoding(self.data_element, bytes))
        }
    }

    /// Reading the value at the start of `buffer`: `None` where the buffer is
    /// too short for what the field announces (the slicing panics), otherwise
    /// the value and the number of bytes it takes, or the error.
    ///
    /// A variable-length value is returned without checking its content; a
    /// fixed-length one must be valid for the field's content type.
    pub open spec fn spec_value_from_buffer(self, buffer: Seq<u8>) -> Option<
        Result<(Seq<char>, usize), FieldErrorView>,
    > {
        match self.len_type.spec_leading_digits() {
            Some(leading) => if buffer.len() < leading {
                None
            } else {
                let length_bytes = buffer.subrange(0, leading as int);
                match spec_parse_usize(length_bytes) {
                    None => Some(
                        Err(FieldErrorView::FieldLengthDecoding(self.data_element, length_bytes)),
                    ),
                    Some(var_len) => if var_len + leading > buffer.len() {
                        None
                    } else {
                        match self.spec_extract_value(
                            buffer.subrange(leading as int, var_len + leading),
                        ) {
                            Err(e) => Some(Err(e)),
                            Ok(value) => Some(Ok((value, (var_len + leading) as usize))),
                        }
                    },
                }
            },
            None => if self.max_len > buffer.len() {
                None
            } else {
                match self.spec_extract_value(buffer.subrange(0, self.max_len as int)) {
                    Err(e) => Some(Err(e)),
                    Ok(value) => if self.content_type.accepts(value) {
                        Some(Ok((value, self.max_len)))
                    } else {
                        Some(Err(FieldErrorView::FormatDecoding(self.data_element, value)))
                    },
                }
            },
        }
    }

    /// The bytes that a value is written as before its length is added: the
    /// decoded hexadecimal digits for a byte field (`None` where decoding
    /// panics), the UTF-8 text otherwise.
    pub open spec fn spec_value_bytes(self, value: Seq<char>) -> Option<
        Result<Seq<u8>, FieldErrorView>,
    > {
        if self.content_type == ContentType::Bytes {
            match hex_decode_from(encode_utf8(value), 0) {
                None => None,
                Some(None) => Some(Err(FieldErrorView::ByteFieldDecoding(self.data_element, value))),
                Some(Some(bytes)) => Some(Ok(bytes)),
            }
        } else {
            Some(Ok(encode_utf8(value)))
        }
    }

    /// Writing `value`: `None` where decoding a byte field panics, otherwise
    /// the bytes (a length prefix then the value for a variable-length field,
    /// the value cut or zero-padded to the fixed length otherwise) or the
    /// error. The value must be valid for the field's content type.
    pub open spec fn spec_value_to_buffer(self, value: Seq<char>) -> Option<
        Result<Seq<u8>, FieldErrorView>,
    > {
        if !self.content_type.accepts(value) {
            Some(Err(FieldErrorView::FormatEncoding(self.data_element, value)))
        } else {
            match self.spec_value_bytes(value) {
                None => None,
                Some(Err(e)) => Some(Err(e)),
                Some(Ok(bytes)) => Some(
                    Ok(
                        match self.len_type.spec_leading_digits() {
                            Some(leading) => length_prefix(bytes.len(), leading as nat) + bytes,
                            None => resized(bytes, self.max_len as nat),
                        },
                    ),
                ),
            }
        }
    }

    /// The value is written in a form that reads back as the value: a byte
    /// field's text is the lowercase hexadecimal of the bytes it stands for, a
    /// fixed-length value fills the length exactly, and the length of a
    /// variable-length value fits in its leading digits.
    pub open spec fn writes_back(self, value: Seq<char>) -> bool {
        match self.spec_value_bytes(value) {
            Some(Ok(bytes)) => {
                &&& self.content_type == ContentType::Bytes ==> hex_lower(bytes) == value
                &&& match self.len_type.spec_leading_digits() {
                    Some(leading) => decimal(bytes.len()).len() <= leading,
                    None => bytes.len() == self.max_len,
                }
            },
            _ => false,
        }
    }

    /// What the field writes for a value that writes back is read back from
    /// those bytes, whatever follows them: the value, and the number of bytes
    /// written.
    pub proof fn lemma_value_reads_back(self, value: Seq<char>, written: Seq<u8>, rest: Seq<u8>)
        requires
            self.spec_value_to_buffer(value) == Some(Ok::<Seq<u8>, FieldErrorView>(written)),
            self.writes_back(value),
        ensures
            written.len() <= usize::MAX,
            self.spec_value_from_buffer(written + rest) == Some(
                Ok::<(Seq<char>, usize), FieldErrorView>((value, written.len() as usize)),
            ),
    {
        let bytes = self.spec_value_bytes(value)->Some_0->Ok_0;
        assert(self.spec_extract_value(bytes) == Ok::<Seq<char>, FieldErrorView>(value));
        self.lemma_bytes_read_back(value, bytes, value, written, rest);
    }

    /// The text that reading gives back for a value the field wrote: a byte
    /// field's hexadecimal text in lowercase, any other value as it is.
    pub open spec fn read_back_text(self, value: Seq<char>) -> Seq<char> {
        if self.content_type == ContentType::Bytes {
            ascii_lowercase(value)
        } else {
            value
        }
    }

    /// The bytes a value is written as fit the field: exactly the length of a
    /// fixed-length field, or a number of bytes that the leading length
    /// digits can write.
    pub open spec fn fits(self, value: Seq<char>) -> bool {
        match self.spec_value_bytes(value) {
            Some(Ok(bytes)) => match self.len_type.spec_leading_digits() {
                Some(leading) => decimal(bytes.len()).len() <= leading,
                None => bytes.len() == self.max_len,
            },
            _ => false,
        }
    }

    /// Every value the field writes, where its bytes fit the field, is read
    /// back from the written bytes, whatever follows them: as it is, or in
    /// lowercase for a byte field's hexadecimal text, with the number of
    /// bytes written.
    pub proof fn lemma_value_round_trip(
        self,
        value: Seq<char>,
        written: Seq<u8>,
        rest: Seq<u8>,
    )
        requires
            self.spec_value_to_buffer(value) == Some(Ok::<Seq<u8>, FieldErrorView>(written)),
            self.fits(value),
        ensures
            written.len() <= usize::MAX,
            self.spec_value_from_buffer(written + rest) == Some(
                Ok::<(Seq<char>, usize), FieldErrorView>(
                    (self.read_back_text(value), written.len() as usize),
                ),
            ),
    {
        let bytes = self.spec_value_bytes(value)->Some_0->Ok_0;
        assert(self.content_type.accepts(value));
        if self.content_type == ContentType::Bytes {
            assert(self.content_type.class_accepts(value));
            assert(is_hex_text(value)) by {
                assert forall|i: int| 0 <= i < value.len() implies is_hex_char(#[trigger] value[i]) by {
                    assert(self.content_type.in_class(value[i]));
                };
            };
            assert(is_ascii_chars(value)) by {
                assert forall|k: int| 0 <= k < value.len() implies '\0' <= #[trigger] value[k]
                    <= '\u{7f}' by {
                    assert(is_hex_char(value[k]));
                };
            };
            is_ascii_chars_encode_utf8(value);
            lemma_hex_decode_even(encode_utf8(value), 0);
            lemma_hex_text_decodes(value, (value.len() / 2) as int);
            assert(value.subrange(0, value.len() as int) == value);
            assert(hex_lower(bytes) == ascii_lowercase(value));
            lemma_lowercase_hex(value);
            let low = ascii_lowercase(value);
            assert(self.content_type.accepts(low)) by {
                assert forall|i: int| 0 <= i < low.len() implies self.content_type.in_class(
                    #[trigger] low[i],
                ) by {
                    assert(is_hex_char(low[i]));
                };
            };
            self.lemma_bytes_read_back(value, bytes, low, written, rest);
        } else {
            assert(bytes == encode_utf8(value));
            assert(self.spec_extract_value(bytes) == Ok::<Seq<char>, FieldErrorView>(value));
            self.lemma_bytes_read_back(value, bytes, value, written, rest);
        }
    }

    proof fn lemma_bytes_read_back(
        self,
        value: Seq<char>,
        bytes: Seq<u8>,
        expected: Seq<char>,
        written: Seq<u8>,
        rest: Seq<u8>,
    )
        requires
            self.spec_value_to_buffer(value) == Some(Ok::<Seq<u8>, FieldErrorView>(written)),
            self.spec_value_bytes(value) == Some(Ok::<Seq<u8>, FieldErrorView>(bytes)),
            self.spec_extract_value(bytes) == Ok::<Seq<char>, FieldErrorView>(expected),
            match self.len_type.spec_leading_digits() {
                Some(leading) => decimal(bytes.len()).len() <= leading,
                None => bytes.len() == self.max_len && self.content_type.accepts(expected),
            },
        ensures
            written.len() <= usize::MAX,
            self.spec_value_from_buffer(written + rest) == Some(
                Ok::<(Seq<char>, usize), FieldErrorView>((expected, written.len() as usize)),
            ),
    {
        let buffer = written + rest;
        match self.len_type.spec_leading_digits() {
            Some(leading) => {
                let n = bytes.len();
                let digits = decimal(n);
                lemma_decimal_digits(n);
                lemma_decimal_value(n);
                let k = (leading - digits.len()) as nat;
                let full = zero_digits(leading as nat) + digits;
                let prefix = length_prefix(n, leading as nat);
                assert(prefix =~= Seq::new(k, |i: int| 48u8) + digits);
                lemma_leading_zeros_value(k, digits);
                assert(written == prefix + bytes);
                assert(buffer.subrange(0, leading as int) == prefix);
                assert(prefix[0] != 43);
                assert(all_digits(prefix)) by {
                    assert forall|i: int| 0 <= i < prefix.len() implies is_digit(#[trigger] prefix[i]) by {
                        if i >= k {
                            assert(prefix[i] == digits[i - k]);
                        }
                    };
                };
                assert(n < 1000000) by {
                    if n >= 1000000 {
                        lemma_decimal_len_at_least(n);
                    }
                };
                assert(spec_parse_usize(prefix) == Some(n as usize));
                assert(buffer.subrange(leading as int, n + leading) == bytes);
            },
            None => {
                assert(written == bytes);
                assert(buffer.subrange(0, self.max_len as int) == bytes);
            },
        }
    }

    /// The value at the start of `buf` is written back as it stands: the
    /// length digits of a variable-length value carry no sign, and the value
    /// is valid for the content type (reading does not check it).
    pub open spec fn canonical_at(self, buf: Seq<u8>) -> bool {
        match self.len_type.spec_leading_digits() {
            None => true,
            Some(_) => {
                &&& buf.len() > 0
                &&& buf[0] != 43
                &&& match self.spec_value_from_buffer(buf) {
                    Some(Ok((value, _))) => self.content_type.accepts(value),
                    _ => true,
                }
            },
        }
    }

    /// Writing the value read from `buf` gives back the bytes it was read
    /// from, where those bytes are written as they stand.
    #[verifier::spinoff_prover]
    #[verifier::rlimit(30)]
    pub proof fn lemma_value_written_back(self, buf: Seq<u8>, value: Seq<char>, n: usize)
        requires
            self.spec_value_from_buffer(buf) == Some(
                Ok::<(Seq<char>, usize), FieldErrorView>((value, n)),
            ),
            self.canonical_at(buf),
            buf.len() <= usize::MAX,
        ensures
            n <= buf.len(),
            self.spec_value_to_buffer(value) == Some(
                Ok::<Seq<u8>, FieldErrorView>(buf.subrange(0, n as int)),
            ),
    {
        match self.len_type.spec_leading_digits() {
            Some(leading) => {
                let p = buf.subrange(0, leading as int);
                let var_len = spec_parse_usize(p)->Some_0;
                assert(p[0] != 43);
                assert(all_digits(p));
                lemma_digits_canonical(p);
                let x = buf.subrange(leading as int, var_len + leading);
                assert(x.len() == var_len);
                if self.content_type == ContentType::Bytes {
                    lemma_hex_round_trip(x);
                }
                assert(self.spec_value_bytes(value) == Some(Ok::<Seq<u8>, FieldErrorView>(x)));
                let digits = decimal(var_len as nat);
                let k = (leading - digits.len()) as nat;
                assert(length_prefix(var_len as nat, leading as nat) =~= Seq::new(k, |i: int| 48u8)
                    + digits);
                assert(p == Seq::new(k, |i: int| 48u8) + digits);
                assert(var_len + leading <= buf.len());
                assert(n == var_len + leading);
                assert(buf.subrange(0, n as int) =~= p + x);
            },
            None => {
                let x = buf.subrange(0, self.max_len as int);
                if self.content_type == ContentType::Bytes {
                    lemma_hex_round_trip(x);
                }
                assert(self.spec_value_bytes(value) == Some(Ok::<Seq<u8>, FieldErrorView>(x)));
                assert(resized(x, self.max_len as nat) == x);
            },
        }
    }

    /// Writes `value` as this field packs it: a length prefix then the value
    /// for a variable-length field, the value cut or zero-padded to the fixed
    /// length otherwise. Byte fields hold hexadecimal text, written as the
    /// bytes it stands for.
    pub fn value_to_buffer(&self, value: &str) -> (r: Result<Vec<u8>, FieldError>)
        requires
            self.spec_value_to_buffer(value@) is Some,
        ensures
            self.spec_value_to_buffer(value@) == Some(bytes_result_view(r)),
    {
        match self.try_value_to_buffer(value) {
            Some(r) => r,
            None => {
                assert(false);
                Err(FieldError::FormatEncoding(self.data_element, value.to_owned()))
            },
        }
    }

    /// Writes `value` as `value_to_buffer` does, or gives `None` where that
    /// panics (decoding a byte field's text slices it past its end or inside
    /// a character).
    pub fn try_value_to_buffer(&self, value: &str) -> (r: Option<Result<Vec<u8>, FieldError>>)
        ensures
            self.spec_value_to_buffer(value@) == match r {
                None => None,
                Some(x) => Some(bytes_result_view(x)),
            },
    {
        if !self.content_type.is_valid(value) {
            return Some(Err(FieldError::FormatEncoding(self.data_element, value.to_owned())));
        }
        let mut value_buf = match self.content_type {
            ContentType::Bytes => match self.decode_hex(value) {
                None => return None,
                Some(Ok(b)) => b,
                Some(Err(e)) => return Some(Err(e)),
            },
            _ => slice_to_vec(value.as_bytes()),
        };
        match self.len_type.get_leading_digits() {
            Some(leading_digit) => {
                let mut buffer: Vec<u8> = vec![48u8; leading_digit];
                let value_buf_len = decimal_digits(value_buf.len());
                let ghost full = zero_digits(leading_digit as nat) + value_buf_len@;
                buffer.extend_from_slice(value_buf_len.as_slice());
                assert(buffer@ == full);
                let position = if value_buf_len.len() > leading_digit {
                    value_buf_len.len() - leading_digit
                } else {
                    leading_digit
                };
                let start = buffer.len() - position;
                let mut out = slice_to_vec(slice_subrange(buffer.as_slice(), start, buffer.len()));
                let ghost prefix = out@;
                out.append(&mut value_buf);
                assert(out@ == prefix + self.spec_value_bytes(value@)->Some_0->Ok_0);
                Some(Ok(out))
            },
            None => {
                value_buf.resize(self.max_len, 0);
                proof {
                    let b = self.spec_value_bytes(value@)->Some_0->Ok_0;
                    if self.max_len > b.len() {
                        assert(value_buf@ =~= b + zeros((self.max_len - b.len()) as nat));
                    }
                }
                Some(Ok(value_buf))
            },
        }
    }

    /// Decodes hexadecimal text two characters at a time, as
    /// `u8::from_str_radix(&s[i..i + 2], 16)` for `i` stepping by two.
    /// `None` where that slicing panics.
    fn decode_hex(&self, s: &str) -> (r: Option<Result<Vec<u8>, FieldError>>)
        requires
            self.content_type == ContentType::Bytes,
        ensures
            self.spec_value_bytes(s@) == match r {
                None => None,
                Some(x) => Some(bytes_result_view(x)),
            },
    {
        let bytes = s.as_bytes();
        let len = bytes.len();
        let mut out: Vec<u8> = Vec::new();
        let mut i: usize = 0;
        while i < len
            invariant
                len == bytes@.len(),
                bytes@ == encode_utf8(s@),
                self.content_type == ContentType::Bytes,
                i <= len,
                i % 2 == 0,
                hex_decode_from(bytes@, 0) == match hex_decode_from(bytes@, i as nat) {
                    Some(Some(rest)) => Some(Some(out@ + rest)),
                    other => other,
                },
            decreases len - i,
        {
            if len - i < 2 || !s.is_char_boundary(i) || !s.is_char_boundary(i + 2) {
                return None;
            }
            let b0 = bytes[i];
            let b1 = bytes[i + 1];
            match hex_pair_value(b0, b1) {
                None => {
                    assert(hex_decode_from(bytes@, i as nat) == Some(None::<Seq<u8>>));
                    let owned = s.to_owned();
                    assert(owned@ == s@);
                    return Some(Err(FieldError::ByteFieldDecoding(self.data_element, owned)));
                },
                Some(v) => {
                    let ghost old_out = out@;
                    out.push(v);
                    assert(hex_decode_from(bytes@, 0) == match hex_decode_from(
                        bytes@,
                        (i + 2) as nat,
                    ) {
                        Some(Some(rest)) => Some(Some(out@ + rest)),
                        other => other,
                    }) by {
                        match hex_decode_from(bytes@, (i + 2) as nat) {
                            Some(Some(rest)) => {
                                assert(old_out + (seq![v] + rest) == out@ + rest);
                            },
                            _ => {},
                        }
                    };
                },
            }
            i = i + 2;
        }
        Some(Ok(out))
    }

    /// Reads the value at the start of `buffer`, with the number of bytes it
    /// takes. A variable-length value follows its leading length digits and
    /// is not checked against the content type; a fixed-length value must be
    /// valid for it.
    pub fn get_value_from_buffer(&self, buffer: &[u8]) -> (r: Result<(String, usize), FieldError>)
        requires
            self.spec_value_from_buffer(buffer@) is Some,
        ensures
            self.spec_value_from_buffer(buffer@) == Some(value_result_view(r)),
    {
        let buffer_len = buffer.len();
        match self.len_type.get_leading_digits() {
            Some(leading_digits) => {
                let var_len = match self.extract_field_length(
                    slice_subrange(buffer, 0, leading_digits),
                ) {
                    Ok(n) => n,
                    Err(e) => return Err(e),
                };
                let value = match self.extract_value(
                    slice_subrange(buffer, leading_digits, var_len + leading_digits),
                ) {
                    Ok(v) => v,
                    Err(e) => return Err(e),
                };
                Ok((value, var_len + leading_digits))
            },
            None => {
                let value = match self.extract_value(slice_subrange(buffer, 0, self.max_len)) {
                    Ok(v) => v,
                    Err(e) => return Err(e),
                };
                if self.content_type.is_valid(value.as_str()) {
                    Ok((value, self.max_len))
                } else {
                    Err(FieldError::FormatDecoding(self.data_element, value))
                }
            },
        }
    }

    /// Reads the value at the start of `buffer` as `get_value_from_buffer`
    /// does, or gives `None` where that panics (the buffer is too short for
    /// what the field announces).
    pub fn try_value_from_buffer(&self, buffer: &[u8]) -> (r: Option<
        Result<(String, usize), FieldError>,
    >)
        ensures
            self.spec_value_from_buffer(buffer@) == match r {
                None => None,
                Some(x) => Some(value_result_view(x)),
            },
    {
        let buffer_len = buffer.len();
        match self.len_type.get_leading_digits() {
            Some(leading_digits) => {
                if buffer_len < leading_digits {
                    return None;
                }
                match parse_usize(slice_subrange(buffer, 0, leading_digits)) {
                    None => {},
                    Some(var_len) => if var_len > buffer_len - leading_digits {
                        return None;
                    },
                }
            },
            None => if self.max_len > buffer_len {
                return None;
            },
        }
        Some(self.get_value_from_buffer(buffer))
    }

    /// The length announced by the leading digits of a variable-length value.
    fn extract_field_length(&self, buffer_slice: &[u8]) -> (r: Result<usize, FieldError>)
        ensures
            match spec_parse_usize(buffer_slice@) {
                Some(n) => r == Ok::<usize, FieldError>(n),
                None => r matches Err(e) && e@ == FieldErrorView::FieldLengthDecoding(
                    self.data_element,
                    buffer_slice@,
                ),
            },
    {
        match parse_usize(buffer_slice) {
            Some(n) => Ok(n),
            None => Err(FieldError::FieldLengthDecoding(self.data_element, slice_to_vec(buffer_slice))),
        }
    }

    /// The text of a value held in `buffer_slice`.
    fn extract_value(&self, buffer_slice: &[u8]) -> (r: Result<String, FieldError>)
        ensures
            self.spec_extract_value(buffer_slice@) == text_result_view(r),
    {
        match self.content_type {
            ContentType::Bytes => Ok(encode_hex(buffer_slice)),
            _ => match string_from_utf8(slice_to_vec(buffer_slice)) {
                Some(s) => Ok(s),
                None => Err(FieldError::StringFieldDecoding(self.data_element, slice_to_vec(buffer_slice))),
            },
        }
    }
}

} // verus!
