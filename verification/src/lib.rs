use std::collections::HashMap;
use vstd::prelude::*;

pub mod bitmaps;
pub mod encoding;
pub mod error;
pub mod field;
pub mod fields;
pub mod format;
pub mod iso_message;
pub mod mc_auth_iso_message;
pub mod message_types;
pub mod response;
pub mod spec;
pub mod spec_builder;

use bitmaps::{
    announceable, announced_keys, built_words, holds_announced_words, items_of,
    lemma_bitmaps_read_back, lemma_bitmaps_written_back, lemma_built_words_announce,
    lemma_items_increasing, lemma_items_upto_contains_zero, lemma_needed_words_rebuilt, lemma_short_words_fit, needed_words,
    words_bytes, words_in_buffer, words_length_in_buffer, Bitmaps,
};
use encoding::{
    all_digits, ascii_string, ascii_text, decimal, decimal_digits, is_digit, lemma_decimal_digits,
    parse_u32, spec_parse_u32, str_equal,
};
use response::{fields_to_keep, ResponseFields};
use vstd::utf8::{decode_utf8, encode_utf8, valid_utf8};
use error::IsoMessageError;
use field::content_type::ContentType;
use field::error::FieldErrorView;
use field::len_type::LengthType;
use field::Field;
use format::IsoFormat;
use message_types::IsoMessageType;
use vstd::slice::slice_subrange;

verus! {

broadcast use vstd::std_specs::hash::group_hash_axioms;

/// The data elements of a message, keyed by their number; key 0 is the MTI.
pub type IsoMessageMap = HashMap<u8, String>;

/// The data elements of a message map, with each value taken as its text.
pub open spec fn fields_view(map: Map<u8, String>) -> Map<u8, Seq<char>> {
    map.map_values(|s: String| s@)
}

/// Reading the data elements `keys` one after the other from `buffer`,
/// starting at `cursor` with the fields `fields` already read: `None` where a
/// read panics, the data element of the first error, or the fields and the
/// cursor after the last one. The bitmap bits 1, 65 and 129 announce
/// the next bitmap and carry no field.
pub open spec fn spec_read_fields(
    format: Map<u8, Field>,
    buffer: Seq<u8>,
    keys: Seq<u8>,
    fields: Map<u8, Seq<char>>,
    cursor: nat,
) -> Option<Result<(Map<u8, Seq<char>>, nat), u8>>
    decreases keys.len(),
{
    if keys.len() == 0 {
        Some(Ok((fields, cursor)))
    } else {
        match spec_read_fields(format, buffer, keys.drop_last(), fields, cursor) {
            Some(Ok((m, c))) => {
                let key = keys.last();
                if key == 1 || key == 65 || key == 129 {
                    Some(Ok((m, c)))
                } else if !format.contains_key(key) {
                    Some(Err(key))
                } else {
                    match format[key].spec_value_from_buffer(buffer.subrange(c as int, buffer.len() as int)) {
                        None => None,
                        Some(Err(e)) => Some(Err(e.data_element())),
                        Some(Ok((value, n))) => Some(Ok((m.insert(key, value), (c + n) as nat))),
                    }
                }
            },
            other => other,
        }
    }
}

/// Reading a message from `buffer`: the MTI, the bitmaps, then each data
/// element that the bitmaps announce. `None` where the reading panics (the
/// buffer is too short for what it announces); otherwise the data elements,
/// or the data element at fault.
pub open spec fn spec_from_buffer(format: Map<u8, Field>, buffer: Seq<u8>) -> Option<
    Result<Map<u8, Seq<char>>, u8>,
> {
    if !format.contains_key(0) {
        Some(Err(0))
    } else {
        match format[0].spec_value_from_buffer(buffer) {
            None => None,
            Some(Err(e)) => Some(Err(e.data_element())),
            Some(Ok((mti, n))) => {
                let rest = buffer.subrange(n as int, buffer.len() as int);
                if !holds_announced_words(rest) {
                    None
                } else {
                    let words = words_in_buffer(rest);
                    match spec_read_fields(
                        format,
                        buffer,
                        items_of(words),
                        map![0u8 => mti],
                        (n + 8 * words.len()) as nat,
                    ) {
                        None => None,
                        Some(Err(de)) => Some(Err(de)),
                        Some(Ok((fields, _))) => Some(Ok(fields)),
                    }
                }
            },
        }
    }
}

proof fn lemma_read_fields_stops(
    format: Map<u8, Field>,
    buffer: Seq<u8>,
    keys: Seq<u8>,
    fields: Map<u8, Seq<char>>,
    cursor: nat,
    i: int,
)
    requires
        0 <= i <= keys.len(),
        !(spec_read_fields(format, buffer, keys.subrange(0, i), fields, cursor) is Some
            && spec_read_fields(format, buffer, keys.subrange(0, i), fields, cursor)->Some_0 is Ok),
    ensures
        spec_read_fields(format, buffer, keys, fields, cursor) == spec_read_fields(
            format,
            buffer,
            keys.subrange(0, i),
            fields,
            cursor,
        ),
    decreases keys.len() - i,
{
    if i < keys.len() {
        assert(keys.subrange(0, i + 1).drop_last() == keys.subrange(0, i));
        lemma_read_fields_stops(format, buffer, keys, fields, cursor, i + 1);
    } else {
        assert(keys.subrange(0, i) == keys);
    }
}

/// Writing the data elements `keys` one after the other after `out`: `None`
/// where a write panics (a data element that the bitmaps announce is
/// missing, or a byte field's decoding panics), the data element of the first
/// error, or the bytes. The bitmap bits 1, 65 and 129 announce
/// the next bitmap and carry no field.
pub open spec fn spec_write_fields(
    format: Map<u8, Field>,
    fields: Map<u8, Seq<char>>,
    keys: Seq<u8>,
    out: Seq<u8>,
) -> Option<Result<Seq<u8>, u8>>
    decreases keys.len(),
{
    if keys.len() == 0 {
        Some(Ok(out))
    } else {
        match spec_write_fields(format, fields, keys.drop_last(), out) {
            Some(Ok(o)) => {
                let key = keys.last();
                if key == 1 || key == 65 || key == 129 {
                    Some(Ok(o))
                } else if !format.contains_key(key) {
                    Some(Err(key))
                } else if !fields.contains_key(key) {
                    None
                } else {
                    match format[key].spec_value_to_buffer(fields[key]) {
                        None => None,
                        Some(Err(e)) => Some(Err(e.data_element())),
                        Some(Ok(bytes)) => Some(Ok(o + bytes)),
                    }
                }
            },
            other => other,
        }
    }
}

/// Writing a message: the MTI, the bitmaps built from its data elements,
/// then each data element that they announce. `None` where the writing
/// panics; otherwise the bytes, or the data element at fault.
pub open spec fn spec_message_buffer(format: Map<u8, Field>, fields: Map<u8, Seq<char>>) -> Option<
    Result<Seq<u8>, u8>,
> {
    if !fields.contains_key(0) {
        Some(Err(0))
    } else {
        let words = built_words(fields.dom());
        spec_write_fields(
            format,
            fields,
            items_of(words),
            encode_utf8(fields[0]) + words_bytes(words),
        )
    }
}

/// The MTIs of requests.
pub open spec fn is_request_mti(mti: Seq<char>) -> bool {
    ||| mti == "0100"@
    ||| mti == "0120"@
    ||| mti == "0200"@
    ||| mti == "0220"@
    ||| mti == "0302"@
    ||| mti == "0400"@
    ||| mti == "0420"@
    ||| mti == "0620"@
    ||| mti == "0800"@
}

/// The MTIs of responses.
pub open spec fn is_response_mti(mti: Seq<char>) -> bool {
    ||| mti == "0110"@
    ||| mti == "0130"@
    ||| mti == "0210"@
    ||| mti == "0230"@
    ||| mti == "0312"@
    ||| mti == "0410"@
    ||| mti == "0430"@
    ||| mti == "0630"@
    ||| mti == "0810"@
}

/// The MTI text `format!("{:0<4}", n)`: the decimal digits of `n`, padded
/// with `'0'` on the right to four characters.
pub open spec fn padded_mti(n: nat) -> Seq<char> {
    let digits = ascii_text(decimal(n));
    if digits.len() >= 4 {
        digits
    } else {
        digits + Seq::new((4 - digits.len()) as nat, |i: int| '0')
    }
}

/// Turning a message into a response: a response is returned as it is;
/// otherwise the MTI is parsed as a number, 10 is added and the result is
/// written back padded to four characters, the response code is set as data
/// element 39, and, where the response MTI is listed, only the data elements
/// listed for it are kept. `None` where adding 10 overflows; the error is
/// always data element 0.
pub open spec fn spec_to_response(
    fields: Map<u8, Seq<char>>,
    response_code: Seq<char>,
    response_fields: Seq<(String, Vec<u8>)>,
) -> Option<Result<Map<u8, Seq<char>>, u8>> {
    if fields.contains_key(0) && is_response_mti(fields[0]) {
        Some(Ok(fields))
    } else if !fields.contains_key(0) {
        Some(Err(0))
    } else {
        match spec_parse_u32(encode_utf8(fields[0])) {
            None => Some(Err(0)),
            Some(n) => if n + 10 > u32::MAX {
                None
            } else {
                let mti = padded_mti((n + 10) as nat);
                let answered = fields.insert(0, mti).insert(39, response_code);
                match fields_to_keep(response_fields, mti) {
                    None => Some(Ok(answered)),
                    Some(keep) => Some(Ok(answered.restrict(keep.to_set()))),
                }
            },
        }
    }
}

/// The result of a message operation, taken by the message's data elements
/// and the error's data element.
pub open spec fn message_result_view(r: Result<IsoMessage, IsoMessageError>) -> Result<
    Map<u8, Seq<char>>,
    u8,
> {
    match r {
        Ok(m) => Ok(m.fields()),
        Err(IsoMessageError::InvalidInput(de)) => Err(de),
    }
}

/// Whether the byte list `v` holds `x`.
fn list_contains(v: &Vec<u8>, x: u8) -> (r: bool)
    ensures
        r == v@.contains(x),
{
    let mut i: usize = 0;
    while i < v.len()
        invariant
            i <= v@.len(),
            forall|k: int| 0 <= k < i ==> v@[k] != x,
        decreases v@.len() - i,
    {
        if v[i] == x {
            assert(v@[i as int] == x);
            return true;
        }
        i = i + 1;
    }
    false
}

/// `format!("{:0<4}", n)`.
fn padded_mti_string(n: u32) -> (r: String)
    ensures
        r@ == padded_mti(n as nat),
{
    let mut digits = decimal_digits(n as usize);
    proof {
        lemma_decimal_digits(n as nat);
    }
    let ghost d = digits@;
    while digits.len() < 4
        invariant
            digits@.len() >= d.len(),
            digits@.subrange(0, d.len() as int) == d,
            forall|i: int| d.len() <= i < digits@.len() ==> #[trigger] digits@[i] == 48u8,
            digits@.len() <= 4 || digits@ == d,
            all_digits(d),
        decreases 4 - digits@.len(),
    {
        digits.push(48u8);
    }
    proof {
        assert forall|i: int| 0 <= i < digits@.len() implies #[trigger] digits@[i] < 128 by {
            if i < d.len() {
                assert(digits@[i] == d[i]);
                assert(is_digit(d[i]));
            }
        };
    }
    let r = ascii_string(digits);
    proof {
        let text = ascii_text(d);
        if text.len() < 4 {
            assert(r@ =~= text + Seq::new((4 - text.len()) as nat, |i: int| '0'));
        } else {
            assert(r@ =~= text);
        }
    }
    r
}

proof fn lemma_write_fields_stops(
    format: Map<u8, Field>,
    fields: Map<u8, Seq<char>>,
    keys: Seq<u8>,
    out: Seq<u8>,
    i: int,
)
    requires
        0 <= i <= keys.len(),
        !(spec_write_fields(format, fields, keys.subrange(0, i), out) is Some
            && spec_write_fields(format, fields, keys.subrange(0, i), out)->Some_0 is Ok),
    ensures
        spec_write_fields(format, fields, keys, out) == spec_write_fields(
            format,
            fields,
            keys.subrange(0, i),
            out,
        ),
    decreases keys.len() - i,
{
    if i < keys.len() {
        assert(keys.subrange(0, i + 1).drop_last() == keys.subrange(0, i));
        lemma_write_fields_stops(format, fields, keys, out, i + 1);
    } else {
        assert(keys.subrange(0, i) == keys);
    }
}


/// The data elements of `keys` that carry a value: all but bits 1, 65 and
/// 129.
pub open spec fn announced(keys: Seq<u8>) -> Set<u8> {
    Set::new(|k: u8| keys.contains(k) && k != 1 && k != 65 && k != 129)
}

/// A message whose bytes read back as the message: its keys are
/// announceable, the MTI's field is a fixed-length text field exactly as long
/// as the MTI's UTF-8 bytes and accepts it, and every other data element
/// writes back through its field.
pub open spec fn reads_back(format: Map<u8, Field>, fields: Map<u8, Seq<char>>) -> bool {
    &&& announceable(fields.dom())
    &&& fields.contains_key(0)
    &&& format.contains_key(0)
    &&& format[0].len_type == LengthType::Fixed
    &&& format[0].content_type != ContentType::Bytes
    &&& format[0].max_len == encode_utf8(fields[0]).len()
    &&& format[0].content_type.accepts(fields[0])
    &&& forall|k: u8|
        k != 0 && #[trigger] fields.contains_key(k) ==> format.contains_key(k) && format[k].writes_back(
            fields[k],
        )
}

#[verifier::spinoff_prover]
#[verifier::rlimit(40)]
proof fn lemma_fields_read_back(
    format: Map<u8, Field>,
    fields: Map<u8, Seq<char>>,
    keys: Seq<u8>,
    header: Seq<u8>,
    out: Seq<u8>,
    buffer: Seq<u8>,
    start: Map<u8, Seq<char>>,
)
    requires
        spec_write_fields(format, fields, keys, header) == Some(Ok::<Seq<u8>, u8>(out)),
        out.len() <= buffer.len(),
        buffer.subrange(0, out.len() as int) == out,
        !keys.contains(0),
        forall|k: u8|
            k != 0 && #[trigger] fields.contains_key(k) ==> format.contains_key(k)
                && format[k].writes_back(fields[k]),
    ensures
        header.len() <= out.len(),
        out.subrange(0, header.len() as int) == header,
        spec_read_fields(format, buffer, keys, start, header.len()) == Some(
            Ok::<(Map<u8, Seq<char>>, nat), u8>(
                (start.union_prefer_right(fields.restrict(announced(keys))), out.len()),
            ),
        ),
    decreases keys.len(),
{
    if keys.len() == 0 {
        assert(announced(keys) =~= Set::empty());
        assert(start.union_prefer_right(fields.restrict(announced(keys))) =~= start);
        assert(out == header);
    } else {
        let front = keys.drop_last();
        let key = keys.last();
        assert forall|k: u8| front.contains(k) implies keys.contains(k) by {
            let j = choose|j: int| 0 <= j < front.len() && front[j] == k;
            assert(keys[j] == k);
        };
        assert(keys[keys.len() - 1] == key);
        assert forall|k: u8| keys.contains(k) implies front.contains(k) || k == key by {
            let j = choose|j: int| 0 <= j < keys.len() && keys[j] == k;
            if j < keys.len() - 1 {
                assert(front[j] == k);
            }
        };
        let o = spec_write_fields(format, fields, front, header)->Some_0->Ok_0;
        assert(spec_write_fields(format, fields, front, header) == Some(Ok::<Seq<u8>, u8>(o)));
        assert(buffer.subrange(0, o.len() as int) == o) by {
            assert(out.subrange(0, o.len() as int) == o);
        };
        lemma_fields_read_back(format, fields, front, header, o, buffer, start);
        let m = start.union_prefer_right(fields.restrict(announced(front)));
        if key == 1 || key == 65 || key == 129 {
            assert(out == o);
            assert(announced(keys) =~= announced(front));
        } else {
            assert(fields.contains_key(key));
            let bytes = format[key].spec_value_to_buffer(fields[key])->Some_0->Ok_0;
            assert(out == o + bytes);
            let rest = buffer.subrange(out.len() as int, buffer.len() as int);
            assert(buffer =~= out + rest);
            assert(buffer.subrange(o.len() as int, buffer.len() as int) =~= bytes + rest);
            format[key].lemma_value_reads_back(fields[key], bytes, rest);
            assert(announced(keys) =~= announced(front).insert(key));
            assert(m.insert(key, fields[key]) =~= start.union_prefer_right(
                fields.restrict(announced(keys)),
            ));
            assert(out.subrange(0, header.len() as int) == o.subrange(0, header.len() as int));
        }
    }
}

/// Reading back what a message writes gives the message: where
/// `get_message_buffer` writes the data elements `fields` as the bytes
/// `written`, and they read back, `IsoMessage::from_buffer` on `written`
/// gives `fields` again. So `written` is a buffer that reading then
/// writing gives back unchanged.
pub proof fn lemma_message_reads_back(
    format: Map<u8, Field>,
    fields: Map<u8, Seq<char>>,
    written: Seq<u8>,
)
    requires
        spec_message_buffer(format, fields) == Some(Ok::<Seq<u8>, u8>(written)),
        reads_back(format, fields),
    ensures
        spec_from_buffer(format, written) == Some(Ok::<Map<u8, Seq<char>>, u8>(fields)),
{
    let keys = fields.dom();
    let words = built_words(keys);
    let items = items_of(words);
    let mti = fields[0];
    let mti_bytes = encode_utf8(mti);
    let header = mti_bytes + words_bytes(words);
    lemma_built_words_announce(keys);
    assert(!items.contains(0)) by {
        assert(!(items.contains(0) && 0u8 != 1 && 0u8 != 65 && 0u8 != 129));
    };
    assert(written.subrange(0, written.len() as int) == written);
    lemma_fields_read_back(
        format,
        fields,
        items,
        header,
        written,
        written,
        map![0u8 => mti],
    );
    // The MTI is read back from its bytes.
    let f0 = format[0];
    assert(f0.spec_value_to_buffer(mti) == Some(Ok::<Seq<u8>, FieldErrorView>(mti_bytes))) by {
        assert(mti_bytes.subrange(0, f0.max_len as int) == mti_bytes);
    };
    let after_mti = written.subrange(mti_bytes.len() as int, written.len() as int);
    assert(written == mti_bytes + after_mti) by {
        assert(written.subrange(0, header.len() as int) == header);
        assert(written.subrange(0, mti_bytes.len() as int) == mti_bytes);
    };
    f0.lemma_value_reads_back(mti, mti_bytes, after_mti);
    // The bitmaps are read back from theirs.
    let body = written.subrange(header.len() as int, written.len() as int);
    assert(after_mti =~= words_bytes(words) + body) by {
        assert(written.subrange(0, header.len() as int) == header);
        assert(written =~= header + body);
    };
    lemma_bitmaps_read_back(words, body);
    assert(map![0u8 => mti].union_prefer_right(fields.restrict(announced(items))) =~= fields) by {
        assert forall|k: u8| announced(items).contains(k) == (keys.contains(k) && k != 0) by {
            assert(announced(items).contains(k) == (items.contains(k) && k != 1 && k != 65 && k != 129));
        };
    };
}

/// The data elements `keys`, read one after the other from `start` on, are
/// each held in bytes written as they stand (see `Field::canonical_at`).
pub open spec fn canonical_fields(
    format: Map<u8, Field>,
    buffer: Seq<u8>,
    keys: Seq<u8>,
    start: nat,
) -> bool
    decreases keys.len(),
{
    if keys.len() == 0 {
        true
    } else {
        &&& canonical_fields(format, buffer, keys.drop_last(), start)
        &&& match spec_read_fields(format, buffer, keys.drop_last(), Map::empty(), start) {
            Some(Ok((_, c))) => {
                let key = keys.last();
                key == 1 || key == 65 || key == 129 || !format.contains_key(key)
                    || format[key].canonical_at(buffer.subrange(c as int, buffer.len() as int))
            },
            _ => true,
        }
    }
}

/// A buffer that writing the message read from it gives back: the MTI's
/// field is a fixed-length text field, the bitmaps are those that writing
/// builds again (each bitmap after the first announces a data element), every
/// data element is held in bytes written as they stand, and reading takes
/// the whole buffer.
pub open spec fn canonical_buffer(format: Map<u8, Field>, buffer: Seq<u8>) -> bool {
    &&& format.contains_key(0)
    &&& format[0].len_type == LengthType::Fixed
    &&& format[0].content_type != ContentType::Bytes
    &&& format[0].max_len <= buffer.len()
    &&& {
        let rest = buffer.subrange(format[0].max_len as int, buffer.len() as int);
        let words = words_in_buffer(rest);
        let start = (format[0].max_len + 8 * words.len()) as nat;
        &&& holds_announced_words(rest)
        &&& needed_words(words)
        &&& canonical_fields(format, buffer, items_of(words), start)
        &&& match spec_read_fields(format, buffer, items_of(words), Map::empty(), start) {
            Some(Ok((_, c))) => c == buffer.len(),
            _ => false,
        }
    }
}

proof fn lemma_read_cursor_any_map(
    format: Map<u8, Field>,
    buffer: Seq<u8>,
    keys: Seq<u8>,
    m1: Map<u8, Seq<char>>,
    m2: Map<u8, Seq<char>>,
    start: nat,
)
    ensures
        spec_read_fields(format, buffer, keys, m1, start) matches Some(Ok((_, c1))) ==> (
        spec_read_fields(format, buffer, keys, m2, start) matches Some(Ok((_, c2))) && c1 == c2),
    decreases keys.len(),
{
    if keys.len() > 0 {
        lemma_read_cursor_any_map(format, buffer, keys.drop_last(), m1, m2, start);
    }
}

proof fn lemma_read_fields_dom(
    format: Map<u8, Field>,
    buffer: Seq<u8>,
    keys: Seq<u8>,
    m0: Map<u8, Seq<char>>,
    start: nat,
    m: Map<u8, Seq<char>>,
    c: nat,
)
    requires
        spec_read_fields(format, buffer, keys, m0, start) == Some(
            Ok::<(Map<u8, Seq<char>>, nat), u8>((m, c)),
        ),
    ensures
        forall|k: u8| #[trigger] m.contains_key(k) == (m0.contains_key(k) || announced(keys).contains(k)),
        forall|k: u8| m0.contains_key(k) && !announced(keys).contains(k) ==> #[trigger] m[k] == m0[k],
    decreases keys.len(),
{
    if keys.len() == 0 {
        assert(m == m0);
    } else {
        let front = keys.drop_last();
        let key = keys.last();
        let r = spec_read_fields(format, buffer, front, m0, start)->Some_0->Ok_0;
        assert(spec_read_fields(format, buffer, front, m0, start) == Some(
            Ok::<(Map<u8, Seq<char>>, nat), u8>(r),
        ));
        lemma_read_fields_dom(format, buffer, front, m0, start, r.0, r.1);
        assert forall|k: u8| front.contains(k) implies keys.contains(k) by {
            let j = choose|j: int| 0 <= j < front.len() && front[j] == k;
            assert(keys[j] == k);
        };
        assert forall|k: u8| keys.contains(k) implies front.contains(k) || k == key by {
            let j = choose|j: int| 0 <= j < keys.len() && keys[j] == k;
            if j < keys.len() - 1 {
                assert(front[j] == k);
            }
        };
        assert(keys[keys.len() - 1] == key);
    }
}

#[verifier::spinoff_prover]
#[verifier::rlimit(40)]
proof fn lemma_fields_written_back(
    format: Map<u8, Field>,
    buffer: Seq<u8>,
    keys: Seq<u8>,
    m0: Map<u8, Seq<char>>,
    start: nat,
    fields: Map<u8, Seq<char>>,
    header: Seq<u8>,
    m: Map<u8, Seq<char>>,
    c: nat,
)
    requires
        spec_read_fields(format, buffer, keys, m0, start) == Some(
            Ok::<(Map<u8, Seq<char>>, nat), u8>((m, c)),
        ),
        canonical_fields(format, buffer, keys, start),
        forall|i: int, j: int| 0 <= i < j < keys.len() ==> #[trigger] keys[i] < #[trigger] keys[j],
        forall|k: u8|
            #[trigger] announced(keys).contains(k) ==> fields.contains_key(k) && fields[k] == m[k],
        header == buffer.subrange(0, start as int),
        start <= buffer.len(),
        buffer.len() <= usize::MAX,
    ensures
        start <= c <= buffer.len(),
        spec_write_fields(format, fields, keys, header) == Some(
            Ok::<Seq<u8>, u8>(buffer.subrange(0, c as int)),
        ),
    decreases keys.len(),
{
    if keys.len() == 0 {
        assert(c == start);
    } else {
        let front = keys.drop_last();
        let key = keys.last();
        assert(keys[keys.len() - 1] == key);
        let r = spec_read_fields(format, buffer, front, m0, start)->Some_0->Ok_0;
        let m1 = r.0;
        let c1 = r.1;
        assert(spec_read_fields(format, buffer, front, m0, start) == Some(
            Ok::<(Map<u8, Seq<char>>, nat), u8>((m1, c1)),
        ));
        assert forall|k: u8| front.contains(k) implies keys.contains(k) && k < key by {
            let j = choose|j: int| 0 <= j < front.len() && front[j] == k;
            assert(keys[j] == k);
            assert(keys[j] < keys[keys.len() - 1]);
        };
        assert forall|k: u8| #[trigger] announced(front).contains(k) implies fields.contains_key(k)
            && fields[k] == m1[k] by {
            assert(announced(keys).contains(k));
        };
        lemma_fields_written_back(format, buffer, front, m0, start, fields, header, m1, c1);
        if !(key == 1 || key == 65 || key == 129) {
            let buf = buffer.subrange(c1 as int, buffer.len() as int);
            let read = format[key].spec_value_from_buffer(buf)->Some_0->Ok_0;
            let v = read.0;
            let n = read.1;
            assert(m == m1.insert(key, v));
            assert(c == c1 + n);
            lemma_read_cursor_any_map(format, buffer, front, m0, Map::empty(), start);
            assert(format[key].canonical_at(buf));
            format[key].lemma_value_written_back(buf, v, n);
            assert(announced(keys).contains(key));
            assert(fields[key] == v);
            assert(buffer.subrange(0, c as int) =~= buffer.subrange(0, c1 as int) + buf.subrange(
                0,
                n as int,
            ));
        }
    }
}

/// Writing the message read from a canonical buffer gives the buffer back:
/// `get_message_buffer` after `IsoMessage::from_buffer` reproduces the bytes
/// it was read from.
pub proof fn lemma_buffer_written_back(
    format: Map<u8, Field>,
    buffer: Seq<u8>,
    fields: Map<u8, Seq<char>>,
)
    requires
        spec_from_buffer(format, buffer) == Some(Ok::<Map<u8, Seq<char>>, u8>(fields)),
        canonical_buffer(format, buffer),
        buffer.len() <= usize::MAX,
    ensures
        spec_message_buffer(format, fields) == Some(Ok::<Seq<u8>, u8>(buffer)),
{
    let f0 = format[0];
    let ml = f0.max_len;
    let x = buffer.subrange(0, ml as int);
    let mti_read = f0.spec_value_from_buffer(buffer)->Some_0->Ok_0;
    let mti = mti_read.0;
    assert(mti_read.1 == ml);
    assert(valid_utf8(x));
    assert(mti == decode_utf8(x));
    vstd::utf8::decode_utf8_encode_utf8(x);
    assert(encode_utf8(mti) == x);
    let rest = buffer.subrange(ml as int, buffer.len() as int);
    let words = words_in_buffer(rest);
    let items = items_of(words);
    let start = (ml + 8 * words.len()) as nat;
    let m0 = map![0u8 => mti];
    let r = spec_read_fields(format, buffer, items, m0, start)->Some_0->Ok_0;
    assert(spec_read_fields(format, buffer, items, m0, start) == Some(
        Ok::<(Map<u8, Seq<char>>, nat), u8>(r),
    ));
    assert(r.0 == fields);
    let c = r.1;
    lemma_read_cursor_any_map(format, buffer, items, m0, Map::empty(), start);
    assert(c == buffer.len());
    lemma_read_fields_dom(format, buffer, items, m0, start, fields, c);
    lemma_items_upto_contains_zero(words);
    assert(!announced(items).contains(0));
    assert(fields[0] == mti);
    assert(fields.dom() =~= announced_keys(words));
    lemma_needed_words_rebuilt(words);
    lemma_bitmaps_written_back(rest);
    let header = encode_utf8(fields[0]) + words_bytes(words);
    assert(header =~= buffer.subrange(0, start as int));
    lemma_items_increasing(words);
    lemma_fields_written_back(format, buffer, items, m0, start, fields, header, fields, c);
    assert(buffer.subrange(0, c as int) == buffer);
}

/// Reading a data element after setting it gives the value set, and the
/// other data elements are as they were: `get_field` after `set_field`.
pub proof fn lemma_get_after_set(fields: Map<u8, Seq<char>>, index: u8, value: Seq<char>, other: u8)
    ensures
        fields.insert(index, value).contains_key(index),
        fields.insert(index, value)[index] == value,
        other != index ==> fields.insert(index, value).contains_key(other) == fields.contains_key(
            other,
        ),
        other != index && fields.contains_key(other) ==> fields.insert(index, value)[other]
            == fields[other],
{
}

/// Reading a data element after deleting it gives nothing, and the other
/// data elements are as they were: `get_field` after `delete_field`.
pub proof fn lemma_get_after_delete(fields: Map<u8, Seq<char>>, index: u8, other: u8)
    ensures
        !fields.remove(index).contains_key(index),
        other != index ==> fields.remove(index).contains_key(other) == fields.contains_key(other),
        other != index && fields.contains_key(other) ==> fields.remove(index)[other] == fields[other],
{
}

/// A response is its own response: `to_response` returns it unchanged,
/// whatever the response code.
pub proof fn lemma_response_answers_itself(
    fields: Map<u8, Seq<char>>,
    response_code: Seq<char>,
    response_fields: Seq<(String, Vec<u8>)>,
)
    requires
        fields.contains_key(0),
        is_response_mti(fields[0]),
    ensures
        spec_to_response(fields, response_code, response_fields) == Some(
            Ok::<Map<u8, Seq<char>>, u8>(fields),
        ),
{
}

/// Turning a request into its response: the request's MTI is a number; the
/// response's MTI is that number plus ten written out (`padded_mti`), its
/// data element 39 is the response code, and every other data element it
/// holds is the request's, with the request's value. Where the response MTI
/// is listed in `response_fields`, the response holds exactly the listed
/// data elements among the request's, the MTI and the response code; where
/// it is not listed, it holds all of them.
pub proof fn lemma_response_fields(
    fields: Map<u8, Seq<char>>,
    response_code: Seq<char>,
    response_fields: Seq<(String, Vec<u8>)>,
    response: Map<u8, Seq<char>>,
)
    requires
        fields.contains_key(0),
        !is_response_mti(fields[0]),
        spec_to_response(fields, response_code, response_fields) == Some(
            Ok::<Map<u8, Seq<char>>, u8>(response),
        ),
    ensures
        spec_parse_u32(encode_utf8(fields[0])) is Some,
        ({
            let mti = padded_mti((spec_parse_u32(encode_utf8(fields[0]))->Some_0 + 10) as nat);
            &&& forall|k: u8| #[trigger]
                response.contains_key(k) ==> (k == 0 ==> response[k] == mti) && (k == 39
                    ==> response[k] == response_code) && (k != 0 && k != 39 ==> fields.contains_key(k)
                    && response[k] == fields[k])
            &&& match fields_to_keep(response_fields, mti) {
                Some(keep) => forall|k: u8| #[trigger]
                    response.contains_key(k) == (keep.contains(k) && (fields.contains_key(k) || k
                        == 0 || k == 39)),
                None => forall|k: u8| #[trigger]
                    response.contains_key(k) == (fields.contains_key(k) || k == 0 || k == 39),
            }
        }),
{
    let mti = padded_mti((spec_parse_u32(encode_utf8(fields[0]))->Some_0 + 10) as nat);
    match fields_to_keep(response_fields, mti) {
        Some(keep) => {
            assert forall|k: u8| keep.to_set().contains(k) == keep.contains(k) by {};
        },
        None => {},
    }
}

/// No MTI is both a request's and a response's.
pub proof fn lemma_request_or_response(mti: Seq<char>)
    ensures
        !(is_request_mti(mti) && is_response_mti(mti)),
{
    reveal_strlit("0100");
    reveal_strlit("0120");
    reveal_strlit("0200");
    reveal_strlit("0220");
    reveal_strlit("0302");
    reveal_strlit("0400");
    reveal_strlit("0420");
    reveal_strlit("0620");
    reveal_strlit("0800");
    reveal_strlit("0110");
    reveal_strlit("0130");
    reveal_strlit("0210");
    reveal_strlit("0230");
    reveal_strlit("0312");
    reveal_strlit("0410");
    reveal_strlit("0430");
    reveal_strlit("0630");
    reveal_strlit("0810");
    if is_request_mti(mti) && is_response_mti(mti) {
        assert(mti[2] == '0' || mti[2] == '2');
        assert(mti[2] == '1' || mti[2] == '3');
    }
}

/// The MTI of a message type is a request's exactly when the type is not a
/// response, and a response's exactly when it is: `is_request` and
/// `is_response` agree with `IsoMessageType`.
pub proof fn lemma_type_mti_kind(t: IsoMessageType)
    ensures
        is_request_mti(t.spec_value()) == !t.is_response_type(),
        is_response_mti(t.spec_value()) == t.is_response_type(),
{
    lemma_request_or_response(t.spec_value());
}

/// An ISO 8583 message: its data elements, and the buffer it was read from
/// if it was read from one.
pub struct IsoMessage {
    original_buffer: Option<Vec<u8>>,
    map: IsoMessageMap,
}

impl IsoMessage {
    /// The message's data elements, each taken as its text.
    pub closed spec fn fields(&self) -> Map<u8, Seq<char>> {
        fields_view(self.map@)
    }

    /// The bytes the message was read from, if it was read from a buffer.
    pub closed spec fn source(&self) -> Option<Seq<u8>> {
        match self.original_buffer {
            Some(b) => Some(b@),
            None => None,
        }
    }

    /// Reads a message from `buffer`: the MTI, the bitmaps, then each data
    /// element that the bitmaps announce, packed as `format` says. The
    /// message keeps the buffer.
    pub fn from_buffer(buffer: Vec<u8>, format: &IsoFormat) -> (r: Result<Self, IsoMessageError>)
        requires
            spec_from_buffer(format@, buffer@) is Some,
        ensures
            match spec_from_buffer(format@, buffer@)->Some_0 {
                Ok(fields) => r matches Ok(m) && m.fields() == fields && m.source() == Some(buffer@),
                Err(de) => r == Err::<IsoMessage, IsoMessageError>(IsoMessageError::InvalidInput(de)),
            },
    {
        match Self::try_from_buffer(buffer, format) {
            Some(r) => r,
            None => {
                assert(false);
                Err(IsoMessageError::InvalidInput(0))
            },
        }
    }

    /// Reads a message from `buffer` as `from_buffer` does, or gives `None`
    /// where that panics (the buffer is too short for what it announces).
    pub fn try_from_buffer(buffer: Vec<u8>, format: &IsoFormat) -> (r: Option<
        Result<Self, IsoMessageError>,
    >)
        ensures
            match spec_from_buffer(format@, buffer@) {
                None => r is None,
                Some(Ok(fields)) => r matches Some(Ok(m)) && m.fields() == fields && m.source()
                    == Some(buffer@),
                Some(Err(de)) => r == Some(
                    Err::<IsoMessage, IsoMessageError>(IsoMessageError::InvalidInput(de)),
                ),
            },
    {
        let len = buffer.len();
        let mut cursor: usize = 0;
        let mut map: IsoMessageMap = HashMap::new();
        let field = match format.get(&0) {
            Some(f) => f,
            None => return Some(Err(IsoMessageError::InvalidInput(0))),
        };
        assert(buffer@.subrange(0, len as int) == buffer@);
        let (mti, bytes_parsed) = match field.try_value_from_buffer(
            slice_subrange(buffer.as_slice(), cursor, len),
        ) {
            None => return None,
            Some(Ok(p)) => p,
            Some(Err(e)) => return Some(Err(IsoMessageError::from(e))),
        };
        cursor = cursor + bytes_parsed;
        map.insert(0, mti);
        let ghost fields0 = map![0u8 => mti@];
        assert(fields_view(map@) =~= fields0);
        let bitmaps = match Bitmaps::try_from_buffer(slice_subrange(buffer.as_slice(), cursor, len)) {
            None => return None,
            Some(b) => b,
        };
        cursor = cursor + bitmaps.byte_length();
        let ghost start = cursor as nat;
        let items = bitmaps.items();
        let mut i: usize = 0;
        while i < items.len()
            invariant
                len == buffer@.len(),
                i <= items@.len(),
                cursor <= len,
                spec_from_buffer(format@, buffer@) == match spec_read_fields(
                    format@,
                    buffer@,
                    items@,
                    fields0,
                    start,
                ) {
                    None => None,
                    Some(Err(de)) => Some(Err(de)),
                    Some(Ok((f, _))) => Some(Ok(f)),
                },
                spec_read_fields(format@, buffer@, items@.subrange(0, i as int), fields0, start)
                    == Some(Ok::<(Map<u8, Seq<char>>, nat), u8>((fields_view(map@), cursor as nat))),
            decreases items@.len() - i,
        {
            let field_key = items[i];
            proof {
                let prefix = items@.subrange(0, i + 1);
                assert(prefix.drop_last() == items@.subrange(0, i as int));
                assert(prefix.last() == field_key);
            }
            if field_key == 1 || field_key == 65 || field_key == 129 {
                i = i + 1;
                continue;
            }
            let field = match format.get(&field_key) {
                Some(f) => f,
                None => {
                    proof {
                        lemma_read_fields_stops(format@, buffer@, items@, fields0, start, i + 1);
                    }
                    return Some(Err(IsoMessageError::InvalidInput(field_key)));
                },
            };
            proof {
                if spec_read_fields(format@, buffer@, items@.subrange(0, i + 1), fields0, start) is None {
                    lemma_read_fields_stops(format@, buffer@, items@, fields0, start, i + 1);
                }
            }
            let (value, bytes_parsed) = match field.try_value_from_buffer(
                slice_subrange(buffer.as_slice(), cursor, len),
            ) {
                None => return None,
                Some(Ok(p)) => p,
                Some(Err(e)) => {
                    proof {
                        lemma_read_fields_stops(format@, buffer@, items@, fields0, start, i + 1);
                    }
                    return Some(Err(IsoMessageError::from(e)));
                },
            };
            let ghost before = fields_view(map@);
            map.insert(field_key, value);
            assert(fields_view(map@) =~= before.insert(field_key, value@));
            cursor = cursor + bytes_parsed;
            i = i + 1;
        }
        assert(items@.subrange(0, items@.len() as int) == items@);
        Some(Ok(IsoMessage { map, original_buffer: Some(buffer) }))
    }

    /// A message made of the given data elements, not read from a buffer.
    pub fn from_iso_json_message(map: IsoMessageMap) -> (r: Self)
        ensures
            r.fields() == fields_view(map@),
            r.source() is None,
    {
        IsoMessage { map, original_buffer: None }
    }

    /// Turns a request into its response: a response is returned as it is;
    /// otherwise the MTI is parsed as a number and 10 is added to it, the
    /// result written back (`format!("{:0<4}", _)`), the response code set
    /// as data element 39, and, where `response_fields` lists the new MTI,
    /// only the data elements listed for it kept.
    pub fn to_response(self, response_code: &'static str, response_fields: &ResponseFields) -> (r:
        Result<Self, IsoMessageError>)
        requires
            spec_to_response(self.fields(), response_code@, response_fields.entries@) is Some,
        ensures
            spec_to_response(self.fields(), response_code@, response_fields.entries@) == Some(
                message_result_view(r),
            ),
            r matches Ok(m) ==> m.source() == self.source(),
    {
        if self.is_response() {
            return Ok(self);
        }
        let mti = match self.get_mti() {
            Some(m) => m,
            None => return Err(IsoMessageError::InvalidInput(0)),
        };
        let mti = match parse_u32(mti.as_bytes()) {
            Some(n) => n,
            None => return Err(IsoMessageError::InvalidInput(0)),
        };
        let mti = padded_mti_string(mti + 10);
        let fields_to_keep_list = response_fields.get(mti.as_str());
        let ghost mti_text = mti@;
        let iso_message = self.set_field(0, mti).set_field(39, response_code.to_owned());
        match fields_to_keep_list {
            Some(fields_to_keep) => {
                let ghost answered = iso_message.fields();
                let ghost keep = fields_to_keep@.to_set();
                let mut iso_message = iso_message;
                let mut key: u16 = 0;
                while key < 256
                    invariant
                        key <= 256,
                        keep == fields_to_keep@.to_set(),
                        iso_message.source() == self.source(),
                        forall|k: u8| #[trigger] iso_message.fields().contains_key(k) == (
                            answered.contains_key(k) && (k >= key || keep.contains(k))),
                        forall|k: u8| #[trigger] iso_message.fields().contains_key(k) ==> iso_message.fields()[k] == answered[k],
                    decreases 256 - key,
                {
                    let k = key as u8;
                    if iso_message.map.contains_key(&k) && !list_contains(fields_to_keep, k) {
                        iso_message = iso_message.delete_field(k);
                    }
                    key = key + 1;
                }
                assert(iso_message.fields() =~= answered.restrict(keep));
                Ok(iso_message)
            },
            None => Ok(iso_message),
        }
    }

    /// Turns the message into its response as `to_response` does, or gives
    /// `None` where that panics (adding 10 to the MTI overflows a `u32`).
    pub fn try_to_response(self, response_code: &'static str, response_fields: &ResponseFields)
        -> (r: Option<Result<Self, IsoMessageError>>)
        ensures
            match spec_to_response(self.fields(), response_code@, response_fields.entries@) {
                None => r is None,
                Some(x) => r matches Some(y) && message_result_view(y) == x && (y matches Ok(m)
                    ==> m.source() == self.source()),
            },
    {
        let overflows = if self.is_response() {
            false
        } else {
            match self.get_mti() {
                None => false,
                Some(mti) => match parse_u32(mti.as_bytes()) {
                    None => false,
                    Some(n) => n > 0xffff_fff5u32,
                },
            }
        };
        if overflows {
            return None;
        }
        Some(self.to_response(response_code, response_fields))
    }

    /// The MTI, data element 0.
    pub fn get_mti(&self) -> (r: Option<&str>)
        ensures
            r matches Some(s) ==> self.fields().contains_key(0) && s@ == self.fields()[0],
            r is None ==> !self.fields().contains_key(0),
    {
        self.get_field(0)
    }

    /// The primary account number, data element 2.
    pub fn get_pan(&self) -> (r: Option<&str>)
        ensures
            r matches Some(s) ==> self.fields().contains_key(2) && s@ == self.fields()[2],
            r is None ==> !self.fields().contains_key(2),
    {
        self.get_field(2)
    }

    /// The buffer the message was read from, if it was read from one.
    pub fn get_original_buffer(&self) -> (r: &Option<Vec<u8>>)
        ensures
            match r {
                Some(b) => self.source() == Some(b@),
                None => self.source() is None,
            },
    {
        &self.original_buffer
    }

    /// The value of data element `index`, if the message holds it.
    pub fn get_field(&self, index: u8) -> (r: Option<&str>)
        ensures
            r matches Some(s) ==> self.fields().contains_key(index) && s@ == self.fields()[index],
            r is None ==> !self.fields().contains_key(index),
    {
        match self.map.get(&index) {
            Some(value) => Some(value.as_str()),
            None => None,
        }
    }

    /// The message with data element `index` set to `value`.
    pub fn set_field(self, index: u8, value: String) -> (r: Self)
        ensures
            r.fields() == self.fields().insert(index, value@),
            r.source() == self.source(),
    {
        let mut message = self;
        let ghost before = message.fields();
        message.map.insert(index, value);
        assert(fields_view(message.map@) =~= before.insert(index, value@));
        message
    }

    /// The message without data element `index`.
    pub fn delete_field(self, index: u8) -> (r: Self)
        ensures
            r.fields() == self.fields().remove(index),
            r.source() == self.source(),
    {
        let mut message = self;
        let ghost before = message.fields();
        message.map.remove(&index);
        assert(fields_view(message.map@) =~= before.remove(index));
        message
    }

    /// Whether the MTI is that of a request.
    pub fn is_request(&self) -> (r: bool)
        ensures
            r == (self.fields().contains_key(0) && is_request_mti(self.fields()[0])),
    {
        match self.get_mti() {
            Some(mti) => str_equal(mti, "0100") || str_equal(mti, "0120") || str_equal(mti, "0200")
                || str_equal(mti, "0220") || str_equal(mti, "0302") || str_equal(mti, "0400")
                || str_equal(mti, "0420") || str_equal(mti, "0620") || str_equal(mti, "0800"),
            None => false,
        }
    }

    /// Whether the MTI is that of a response.
    pub fn is_response(&self) -> (r: bool)
        ensures
            r == (self.fields().contains_key(0) && is_response_mti(self.fields()[0])),
    {
        match self.get_mti() {
            Some(mti) => str_equal(mti, "0110") || str_equal(mti, "0130") || str_equal(mti, "0210")
                || str_equal(mti, "0230") || str_equal(mti, "0312") || str_equal(mti, "0410")
                || str_equal(mti, "0430") || str_equal(mti, "0630") || str_equal(mti, "0810"),
            None => false,
        }
    }

    /// Writes the message: the MTI, the bitmaps built from its data
    /// elements, then each data element that they announce, packed as
    /// `format` says.
    pub fn get_message_buffer(&self, format: &IsoFormat) -> (r: Result<Vec<u8>, IsoMessageError>)
        requires
            spec_message_buffer(format@, self.fields()) is Some,
        ensures
            spec_message_buffer(format@, self.fields()) == Some(
                match r {
                    Ok(v) => Ok::<Seq<u8>, u8>(v@),
                    Err(IsoMessageError::InvalidInput(de)) => Err(de),
                },
            ),
    {
        match self.try_get_message_buffer(format) {
            Some(r) => r,
            None => {
                assert(false);
                Err(IsoMessageError::InvalidInput(0))
            },
        }
    }

    /// Writes the message as `get_message_buffer` does, or gives `None` where
    /// that panics (a data element that the bitmaps announce is missing, or
    /// decoding a byte field's text panics).
    pub fn try_get_message_buffer(&self, format: &IsoFormat) -> (r: Option<
        Result<Vec<u8>, IsoMessageError>,
    >)
        ensures
            spec_message_buffer(format@, self.fields()) == match r {
                None => None,
                Some(Ok(v)) => Some(Ok::<Seq<u8>, u8>(v@)),
                Some(Err(IsoMessageError::InvalidInput(de))) => Some(Err::<Seq<u8>, u8>(de)),
            },
    {
        let mut buffer: Vec<u8> = Vec::new();
        let mti = match self.get_mti() {
            Some(m) => m,
            None => return Some(Err(IsoMessageError::InvalidInput(0))),
        };
        buffer.extend_from_slice(mti.as_bytes());
        let bitmaps = Bitmaps::from_iso_message_map(&self.map);
        let mut bitmap_bytes = bitmaps.to_buffer();
        buffer.append(&mut bitmap_bytes);
        proof {
            lemma_short_words_fit(bitmaps@);
        }
        let items = bitmaps.items();
        let ghost fields = self.fields();
        let ghost header = buffer@;
        assert(fields.dom() =~= self.map@.dom());
        assert(bitmaps@ == built_words(fields.dom()));
        assert(header == encode_utf8(fields[0]) + words_bytes(built_words(fields.dom())));
        let mut i: usize = 0;
        while i < items.len()
            invariant
                i <= items@.len(),
                fields == self.fields(),
                fields == fields_view(self.map@),
                spec_message_buffer(format@, fields) == spec_write_fields(format@, fields, items@, header),
                spec_write_fields(format@, fields, items@.subrange(0, i as int), header)
                    == Some(Ok::<Seq<u8>, u8>(buffer@)),
            decreases items@.len() - i,
        {
            let key = items[i];
            proof {
                let prefix = items@.subrange(0, i + 1);
                assert(prefix.drop_last() == items@.subrange(0, i as int));
                assert(prefix.last() == key);
            }
            if key == 1 || key == 65 || key == 129 {
                i = i + 1;
                continue;
            }
            let field = match format.get(&key) {
                Some(f) => f,
                None => {
                    proof {
                        lemma_write_fields_stops(format@, fields, items@, header, i + 1);
                    }
                    return Some(Err(IsoMessageError::InvalidInput(key)));
                },
            };
            proof {
                if spec_write_fields(format@, fields, items@.subrange(0, i + 1), header) is None {
                    lemma_write_fields_stops(format@, fields, items@, header, i + 1);
                }
            }
            let value = match self.map.get(&key) {
                Some(v) => v,
                None => {
                    proof {
                        lemma_write_fields_stops(format@, fields, items@, header, i + 1);
                    }
                    return None;
                },
            };
            let mut value_bytes = match field.try_value_to_buffer(value.as_str()) {
                None => return None,
                Some(Ok(b)) => b,
                Some(Err(e)) => {
                    proof {
                        lemma_write_fields_stops(format@, fields, items@, header, i + 1);
                    }
                    return Some(Err(IsoMessageError::from(e)));
                },
            };
            buffer.append(&mut value_bytes);
            i = i + 1;
        }
        assert(items@.subrange(0, items@.len() as int) == items@);
        Some(Ok(buffer))
    }

    /// The message's data elements.
    pub fn get_message_map(&self) -> (r: &IsoMessageMap)
        ensures
            fields_view(r@) == self.fields(),
    {
        &self.map
    }
}

} // verus!
