use vstd::prelude::*;
use vstd::utf8::*;

verus! {

broadcast use vstd::utf8::group_utf8_lib;

/// Whether `b` is an ASCII decimal digit.
pub open spec fn is_digit(b: u8) -> bool {
    48 <= b <= 57
}

/// Whether every byte of `s` is an ASCII decimal digit.
pub open spec fn all_digits(s: Seq<u8>) -> bool {
    forall|i: int| 0 <= i < s.len() ==> is_digit(#[trigger] s[i])
}

/// The value of a string of decimal digits.
pub open spec fn digits_value(s: Seq<u8>) -> nat
    decreases s.len(),
{
    if s.len() == 0 {
        0
    } else {
        (digits_value(s.drop_last()) * 10 + (s.last() - 48)) as nat
    }
}

/// What `usize::from_str` gives for the text whose UTF-8 bytes are `s`: an
/// optional `+`, then one or more ASCII digits, whose value fits in a `usize`.
pub open spec fn spec_parse_usize(s: Seq<u8>) -> Option<usize> {
    let digits = if s.len() > 0 && s[0] == 43 {
        s.drop_first()
    } else {
        s
    };
    if digits.len() > 0 && all_digits(digits) && digits_value(digits) <= usize::MAX {
        Some(digits_value(digits) as usize)
    } else {
        None
    }
}

/// The decimal digits of `n`, most significant first, without leading zeros.
pub open spec fn decimal(n: nat) -> Seq<u8>
    decreases n,
{
    if n < 10 {
        seq![(48 + n) as u8]
    } else {
        decimal(n / 10).push((48 + n % 10) as u8)
    }
}

/// The lowercase hexadecimal digit for `d` (below 16).
pub open spec fn hex_digit(d: int) -> char {
    if d < 10 {
        (48 + d) as char
    } else {
        (87 + d) as char
    }
}

/// Each byte as two lowercase hexadecimal digits.
pub open spec fn hex_lower(bytes: Seq<u8>) -> Seq<char>
    decreases bytes.len(),
{
    if bytes.len() == 0 {
        Seq::empty()
    } else {
        hex_lower(bytes.drop_last()) + seq![
            hex_digit(bytes.last() as int / 16),
            hex_digit(bytes.last() as int % 16),
        ]
    }
}

/// The value of a hexadecimal digit (of either case), if `b` is one.
pub open spec fn hex_value(b: u8) -> Option<u8> {
    if 48 <= b <= 57 {
        Some((b - 48) as u8)
    } else if 65 <= b <= 70 {
        Some((b - 55) as u8)
    } else if 97 <= b <= 102 {
        Some((b - 87) as u8)
    } else {
        None
    }
}

/// What `u8::from_str_radix(_, 16)` gives for the two-byte text `b0 b1`: an
/// optional `+`, then hexadecimal digits.
pub open spec fn hex_pair(b0: u8, b1: u8) -> Option<u8> {
    if b0 == 43 {
        hex_value(b1)
    } else {
        match (hex_value(b0), hex_value(b1)) {
            (Some(h), Some(l)) => Some((h * 16 + l) as u8),
            _ => None,
        }
    }
}

/// Decoding the text whose UTF-8 bytes are `b` two bytes at a time from
/// index `i`, as `u8::from_str_radix(&s[i..i + 2], 16)` does for `i` stepping
/// by two: `None` where that slicing panics (past the end, or not on a
/// character boundary), `Some(None)` where a pair does not parse, and
/// otherwise the decoded bytes. Decoding stops at the first pair that does
/// not parse.
pub open spec fn hex_decode_from(b: Seq<u8>, i: nat) -> Option<Option<Seq<u8>>>
    decreases b.len() - i,
{
    if i >= b.len() {
        Some(Some(Seq::empty()))
    } else if i + 2 > b.len() || !is_char_boundary(b, i as int) || !is_char_boundary(
        b,
        i + 2 as int,
    ) {
        None
    } else {
        match hex_pair(b[i as int], b[i + 1 as int]) {
            None => Some(None),
            Some(v) => match hex_decode_from(b, i + 2) {
                Some(Some(rest)) => Some(Some(seq![v] + rest)),
                other => other,
            },
        }
    }
}

/// The value of a hexadecimal digit (of either case), if `b` is one.
pub fn hex_digit_value(b: u8) -> (r: Option<u8>)
    ensures
        r == hex_value(b),
{
    if 48 <= b && b <= 57 {
        Some(b - 48)
    } else if 65 <= b && b <= 70 {
        Some(b - 55)
    } else if 97 <= b && b <= 102 {
        Some(b - 87)
    } else {
        None
    }
}

/// `u8::from_str_radix(_, 16)` on the two-byte text `b0 b1`.
pub fn hex_pair_value(b0: u8, b1: u8) -> (r: Option<u8>)
    ensures
        r == hex_pair(b0, b1),
{
    if b0 == 43 {
        hex_digit_value(b1)
    } else {
        match (hex_digit_value(b0), hex_digit_value(b1)) {
            (Some(h), Some(l)) => Some(h * 16 + l),
            _ => None,
        }
    }
}

/// Whether two texts are equal, compared by their UTF-8 bytes.
pub fn str_equal(a: &str, b: &str) -> (r: bool)
    ensures
        r == (a@ == b@),
{
    let x = a.as_bytes();
    let y = b.as_bytes();
    proof {
        encode_utf8_decode_utf8(a@);
        encode_utf8_decode_utf8(b@);
    }
    if x.len() != y.len() {
        return false;
    }
    let mut i: usize = 0;
    while i < x.len()
        invariant
            i <= x@.len(),
            x@.len() == y@.len(),
            x@ == encode_utf8(a@),
            y@ == encode_utf8(b@),
            forall|k: int| 0 <= k < i ==> x@[k] == y@[k],
        decreases x@.len() - i,
    {
        if x[i] != y[i] {
            assert(x@ != y@);
            return false;
        }
        i = i + 1;
    }
    assert(x@ =~= y@);
    true
}


/// A text has at least as many UTF-8 bytes as characters.
pub proof fn lemma_encode_utf8_len(chars: Seq<char>)
    ensures
        encode_utf8(chars).len() >= chars.len(),
    decreases chars.len(),
{
    if chars.len() > 0 {
        lemma_encode_utf8_len(chars.drop_first());
    }
}

/// Parses a decimal `usize` from the bytes of a text, as `usize::from_str`.
pub fn parse_usize(bytes: &[u8]) -> (r: Option<usize>)
    ensures
        r == spec_parse_usize(bytes@),
{
    let len = bytes.len();
    let mut start: usize = 0;
    if len > 0 && bytes[0] == 43 {
        start = 1;
    }
    let ghost digits = if bytes@.len() > 0 && bytes@[0] == 43 {
        bytes@.drop_first()
    } else {
        bytes@
    };
    assert(digits == bytes@.subrange(start as int, len as int));
    if start == len {
        return None;
    }
    let mut value: usize = 0;
    let mut overflow = false;
    let mut i: usize = start;
    while i < len
        invariant
            start <= i <= len,
            len == bytes@.len(),
            digits == bytes@.subrange(start as int, len as int),
            digits == (if bytes@.len() > 0 && bytes@[0] == 43 {
                bytes@.drop_first()
            } else {
                bytes@
            }),
            all_digits(bytes@.subrange(start as int, i as int)),
            !overflow ==> value == digits_value(bytes@.subrange(start as int, i as int)),
            overflow ==> digits_value(bytes@.subrange(start as int, i as int)) > usize::MAX,
        decreases len - i,
    {
        let b = bytes[i];
        let ghost prefix = bytes@.subrange(start as int, i + 1);
        assert(prefix.drop_last() == bytes@.subrange(start as int, i as int));
        if b < 48 || b > 57 {
            assert(digits[i - start] == b);
            assert(!is_digit(digits[i - start]));
            assert(!all_digits(digits));
            return None;
        }
        let d: usize = (b - 48) as usize;
        if !overflow {
            if value > (usize::MAX - d) / 10 {
                overflow = true;
                assert(value * 10 + d > usize::MAX) by (nonlinear_arith)
                    requires
                        value > (usize::MAX - d) / 10,
                        d <= 9,
                ;
            } else {
                assert(value * 10 + d <= usize::MAX) by (nonlinear_arith)
                    requires
                        value <= (usize::MAX - d) / 10,
                        d <= 9,
                ;
                value = value * 10 + d;
            }
        }
        i = i + 1;
    }
    assert(bytes@.subrange(start as int, len as int) == digits);
    if overflow {
        None
    } else {
        Some(value)
    }
}

/// What `u32::from_str` gives for the text whose UTF-8 bytes are `s`.
pub open spec fn spec_parse_u32(s: Seq<u8>) -> Option<u32> {
    match spec_parse_usize(s) {
        Some(n) => if n <= u32::MAX {
            Some(n as u32)
        } else {
            None
        },
        None => None,
    }
}

/// Parses a decimal `u32` from the bytes of a text, as `u32::from_str`.
pub fn parse_u32(bytes: &[u8]) -> (r: Option<u32>)
    ensures
        r == spec_parse_u32(bytes@),
{
    match parse_usize(bytes) {
        Some(n) => if n <= 0xffff_ffffusize {
            Some(n as u32)
        } else {
            None
        },
        None => None,
    }
}

/// The text of ASCII bytes.
pub open spec fn ascii_text(bytes: Seq<u8>) -> Seq<char> {
    bytes.map_values(|b: u8| b as char)
}

/// The text of bytes that are all ASCII.
pub fn ascii_string(bytes: Vec<u8>) -> (r: String)
    requires
        forall|i: int| 0 <= i < bytes@.len() ==> #[trigger] bytes@[i] < 128,
    ensures
        r@ == ascii_text(bytes@),
{
    let ghost chars = ascii_text(bytes@);
    proof {
        assert forall|i: int| 0 <= i < chars.len() implies #[trigger] chars[i] as int == bytes@[i] as int by {
        };
        lemma_ascii_text(chars, bytes@);
    }
    match string_from_utf8(bytes) {
        Some(s) => s,
        None => {
            assert(false);
            String::new()
        },
    }
}

/// Every digit of a decimal number is an ASCII digit.
pub proof fn lemma_decimal_digits(n: nat)
    ensures
        all_digits(decimal(n)),
        decimal(n).len() >= 1,
    decreases n,
{
    if n >= 10 {
        lemma_decimal_digits(n / 10);
    }
}

/// The value of a decimal number's digits is the number.
pub proof fn lemma_decimal_value(n: nat)
    ensures
        digits_value(decimal(n)) == n,
    decreases n,
{
    let d = decimal(n);
    if n >= 10 {
        lemma_decimal_value(n / 10);
        assert(d.drop_last() == decimal(n / 10));
        assert(d.last() == (48 + n % 10) as u8);
        assert((n / 10) * 10 + n % 10 == n);
    } else {
        assert(d.drop_last() == Seq::<u8>::empty());
        assert(digits_value(Seq::<u8>::empty()) == 0);
        assert(d.last() == (48 + n) as u8);
    }
}

/// Leading zero digits do not change the value of a string of digits.
pub proof fn lemma_leading_zeros_value(k: nat, s: Seq<u8>)
    ensures
        digits_value(Seq::new(k, |i: int| 48u8) + s) == digits_value(s),
    decreases s.len() + k,
{
    let z = Seq::new(k, |i: int| 48u8);
    if s.len() > 0 {
        assert((z + s).drop_last() == z + s.drop_last());
        assert((z + s).last() == s.last());
        lemma_leading_zeros_value(k, s.drop_last());
    } else {
        assert(z + s == z);
        if k > 0 {
            let z1 = Seq::new((k - 1) as nat, |i: int| 48u8);
            assert(z.drop_last() == z1);
            assert(z1 + Seq::<u8>::empty() == z1);
            lemma_leading_zeros_value((k - 1) as nat, Seq::<u8>::empty());
        }
    }
}

/// A number of at least a million has at least seven digits.
pub proof fn lemma_decimal_len_at_least(n: nat)
    requires
        n >= 1000000,
    ensures
        decimal(n).len() >= 7,
{
    reveal_with_fuel(decimal, 7);
    lemma_decimal_digits(n / 1000000);
}

/// A string of decimal digits is the decimal digits of its value, after as
/// many leading zeros as it has digits to spare.
pub proof fn lemma_digits_canonical(s: Seq<u8>)
    requires
        all_digits(s),
        s.len() >= 1,
    ensures
        decimal(digits_value(s)).len() <= s.len(),
        s == Seq::new((s.len() - decimal(digits_value(s)).len()) as nat, |i: int| 48u8) + decimal(
            digits_value(s),
        ),
    decreases s.len(),
{
    let v = digits_value(s);
    let front = s.drop_last();
    let d = s.last() - 48;
    assert(is_digit(s[s.len() - 1]));
    assert(0 <= d < 10);
    assert(v == digits_value(front) * 10 + d);
    if s.len() == 1 {
        assert(front == Seq::<u8>::empty());
        assert(digits_value(front) == 0);
        assert(decimal(v) == seq![(48 + v) as u8]);
        assert(s =~= Seq::new(0, |i: int| 48u8) + decimal(v));
    } else {
        assert forall|i: int| 0 <= i < front.len() implies is_digit(#[trigger] front[i]) by {
            assert(front[i] == s[i]);
        };
        lemma_digits_canonical(front);
        let v1 = digits_value(front);
        let k = (front.len() - decimal(v1).len()) as nat;
        assert(v / 10 == v1 && v % 10 == d);
        if v1 == 0 {
            assert(decimal(0) == seq![48u8]);
            assert(decimal(v) == seq![(48 + v) as u8]);
            assert(front =~= Seq::new(k, |i: int| 48u8) + seq![48u8]);
            assert(front =~= Seq::new(front.len(), |i: int| 48u8));
            assert(s =~= front.push(s.last()));
            assert(v == d);
            assert(decimal(v) =~= seq![s.last()]);
            assert(s =~= Seq::new(front.len(), |i: int| 48u8) + decimal(v));
        } else {
            assert(v >= 10);
            assert(decimal(v) == decimal(v1).push((48 + d) as u8));
            assert(s =~= front.push(s.last()));
            assert(s =~= Seq::new(k, |i: int| 48u8) + decimal(v));
        }
    }
}

proof fn lemma_hex_lower_at(x: Seq<u8>, j: int)
    requires
        0 <= j < x.len(),
    ensures
        hex_lower(x).len() == 2 * x.len(),
        hex_lower(x)[2 * j] == hex_digit(x[j] as int / 16),
        hex_lower(x)[2 * j + 1] == hex_digit(x[j] as int % 16),
    decreases x.len(),
{
    let front = x.drop_last();
    if j < x.len() - 1 {
        lemma_hex_lower_at(front, j);
    } else if x.len() > 1 {
        lemma_hex_lower_at(front, 0);
    }
    if x.len() == 1 {
        assert(front == Seq::<u8>::empty());
        assert(hex_lower(front) == Seq::<char>::empty());
    }
}

proof fn lemma_hex_digit_byte(d: int)
    requires
        0 <= d < 16,
    ensures
        hex_digit(d) as u8 as int == if d < 10 { 48 + d } else { 87 + d },
        (hex_digit(d) as u8) < 128,
        hex_value(hex_digit(d) as u8) == Some(d as u8),
{
}

/// Decoding the lowercase hexadecimal text of some bytes, two digits at a
/// time, gives the bytes back.
pub proof fn lemma_hex_round_trip(x: Seq<u8>)
    ensures
        hex_decode_from(encode_utf8(hex_lower(x)), 0) == Some(Some(x)),
{
    let t = hex_lower(x);
    if x.len() > 0 {
        lemma_hex_lower_at(x, 0);
    } else {
        assert(t == Seq::<char>::empty());
    }
    assert(t.len() == 2 * x.len());
    assert forall|k: int| 0 <= k < t.len() implies '\0' <= #[trigger] t[k] <= '\u{7f}' by {
        let j = k / 2;
        lemma_hex_lower_at(x, j);
        if k % 2 == 0 {
            assert(k == 2 * j);
            lemma_hex_digit_byte(x[j] as int / 16);
        } else {
            assert(k == 2 * j + 1);
            lemma_hex_digit_byte(x[j] as int % 16);
        }
    };
    assert(is_ascii_chars(t));
    let b = encode_utf8(t);
    lemma_hex_decode_from(x, b, x.len() as int);
    assert(x.subrange(0, x.len() as int) == x);
}

proof fn lemma_hex_decode_from(x: Seq<u8>, b: Seq<u8>, r: int)
    requires
        b == encode_utf8(hex_lower(x)),
        is_ascii_chars(hex_lower(x)),
        0 <= r <= x.len(),
    ensures
        hex_decode_from(b, (2 * (x.len() - r)) as nat) == Some(Some(x.subrange(x.len() - r, x.len() as int))),
    decreases r,
{
    let t = hex_lower(x);
    let j = x.len() - r;
    let i = (2 * j) as nat;
    if x.len() > 0 {
        lemma_hex_lower_at(x, 0);
    } else {
        assert(t == Seq::<char>::empty());
    }
    is_ascii_chars_encode_utf8(t);
    assert(b.len() == 2 * x.len());
    if r == 0 {
        assert(x.subrange(j, x.len() as int) == Seq::<u8>::empty());
    } else {
        lemma_hex_decode_from(x, b, r - 1);
        lemma_hex_lower_at(x, j);
        let h = x[j] as int / 16;
        let l = x[j] as int % 16;
        lemma_hex_digit_byte(h);
        lemma_hex_digit_byte(l);
        assert(b[2 * j] == t[2 * j] as u8);
        assert(b[2 * j + 1] == t[2 * j + 1] as u8);
        assert(valid_utf8(b));
        let ii: int = 2 * j;
        if ii > 0 {
            let c = b[ii];
            assert(c < 128);
            assert(!is_continuation_byte(c)) by (bit_vector)
                requires
                    c < 128,
            ;
            is_char_boundary_iff_not_is_continuation_byte(b, ii);
        }
        if ii + 2 < b.len() {
            let c = b[ii + 2];
            assert(c == t[ii + 2] as u8);
            assert(c < 128);
            assert(!is_continuation_byte(c)) by (bit_vector)
                requires
                    c < 128,
            ;
            is_char_boundary_iff_not_is_continuation_byte(b, ii + 2);
        }
        assert(hex_pair(b[ii], b[ii + 1]) == Some(x[j]));
        assert(x.subrange(j, x.len() as int) =~= seq![x[j]] + x.subrange(j + 1, x.len() as int));
    }
}

/// Whether `c` is an ASCII hexadecimal digit, of either case.
pub open spec fn is_hex_char(c: char) -> bool {
    ||| '0' <= c <= '9'
    ||| 'a' <= c <= 'f'
    ||| 'A' <= c <= 'F'
}

/// Whether every character of `s` is an ASCII hexadecimal digit.
pub open spec fn is_hex_text(s: Seq<char>) -> bool {
    forall|i: int| 0 <= i < s.len() ==> is_hex_char(#[trigger] s[i])
}

/// `c` with an ASCII capital letter made small, as `char::to_ascii_lowercase`.
pub open spec fn lower_char(c: char) -> char {
    if 'A' <= c <= 'Z' {
        ((c as u32) + 32) as char
    } else {
        c
    }
}

/// `s` with its ASCII capital letters made small, as `str::to_ascii_lowercase`.
pub open spec fn ascii_lowercase(s: Seq<char>) -> Seq<char> {
    s.map_values(|c: char| lower_char(c))
}

/// Lowercase hexadecimal text has two digits per byte.
pub proof fn lemma_hex_lower_len(x: Seq<u8>)
    ensures
        hex_lower(x).len() == 2 * x.len(),
    decreases x.len(),
{
    if x.len() > 0 {
        lemma_hex_lower_len(x.drop_last());
    }
}

proof fn lemma_hex_lower_prepend(b: u8, rest: Seq<u8>)
    ensures
        hex_lower(seq![b] + rest) == seq![hex_digit(b as int / 16), hex_digit(b as int % 16)]
            + hex_lower(rest),
    decreases rest.len(),
{
    let t = seq![b] + rest;
    if rest.len() == 0 {
        assert(t.drop_last() == Seq::<u8>::empty());
        assert(t.last() == b);
        assert(hex_lower(Seq::<u8>::empty()) == Seq::<char>::empty());
        assert(hex_lower(t) =~= seq![hex_digit(b as int / 16), hex_digit(b as int % 16)]
            + hex_lower(rest));
    } else {
        assert(t.drop_last() == seq![b] + rest.drop_last());
        assert(t.last() == rest.last());
        lemma_hex_lower_prepend(b, rest.drop_last());
        assert(hex_lower(t) =~= seq![hex_digit(b as int / 16), hex_digit(b as int % 16)]
            + hex_lower(rest));
    }
}

proof fn lemma_hex_char(c: char)
    requires
        is_hex_char(c),
    ensures
        (c as u8) < 128,
        c as u8 as int == c as int,
        hex_value(c as u8) is Some,
        hex_value(c as u8)->Some_0 < 16,
        hex_digit(hex_value(c as u8)->Some_0 as int) == lower_char(c),
{
}

/// Hexadecimal text in lowercase is hexadecimal text of the same length.
pub proof fn lemma_lowercase_hex(v: Seq<char>)
    requires
        is_hex_text(v),
    ensures
        ascii_lowercase(v).len() == v.len(),
        is_hex_text(ascii_lowercase(v)),
{
    assert forall|i: int| 0 <= i < v.len() implies is_hex_char(#[trigger] ascii_lowercase(v)[i]) by {
        assert(is_hex_char(v[i]));
        lemma_hex_char(v[i]);
        let d = hex_value(v[i] as u8)->Some_0 as int;
        assert(0 <= d < 16);
        assert(is_hex_char(hex_digit(d)));
    };
}

/// Text that decodes two hexadecimal digits at a time from `i` to its end
/// has an even number of bytes from `i` on.
pub proof fn lemma_hex_decode_even(b: Seq<u8>, i: nat)
    requires
        i <= b.len(),
        hex_decode_from(b, i) matches Some(Some(_)),
    ensures
        (b.len() - i) % 2 == 0,
    decreases b.len() - i,
{
    if i < b.len() {
        lemma_hex_decode_even(b, i + 2);
    }
}

/// Decoding hexadecimal text of either case two digits at a time gives
/// bytes whose lowercase hexadecimal text is the text in lowercase.
pub proof fn lemma_hex_text_decodes(v: Seq<char>, r: int)
    requires
        is_hex_text(v),
        v.len() % 2 == 0,
        0 <= r <= v.len() / 2,
    ensures
        hex_decode_from(encode_utf8(v), (v.len() - 2 * r) as nat) matches Some(Some(x)) && hex_lower(
            x,
        ) == ascii_lowercase(v.subrange(v.len() - 2 * r, v.len() as int)),
    decreases r,
{
    let b = encode_utf8(v);
    let i = v.len() - 2 * r;
    assert(is_ascii_chars(v)) by {
        assert forall|k: int| 0 <= k < v.len() implies '\0' <= #[trigger] v[k] <= '\u{7f}' by {
            assert(is_hex_char(v[k]));
        };
    };
    is_ascii_chars_encode_utf8(v);
    if r == 0 {
        assert(v.subrange(i, v.len() as int) == Seq::<char>::empty());
        assert(ascii_lowercase(Seq::<char>::empty()) == Seq::<char>::empty());
        assert(hex_lower(Seq::<u8>::empty()) == Seq::<char>::empty());
    } else {
        lemma_hex_text_decodes(v, r - 1);
        let x1 = hex_decode_from(b, (i + 2) as nat)->Some_0->Some_0;
        let c0 = v[i];
        let c1 = v[i + 1];
        lemma_hex_char(c0);
        lemma_hex_char(c1);
        assert(b[i] == c0 as u8);
        assert(b[i + 1] == c1 as u8);
        assert(valid_utf8(b));
        if i > 0 {
            let c = b[i];
            assert(!is_continuation_byte(c)) by (bit_vector)
                requires
                    c < 128,
            ;
            is_char_boundary_iff_not_is_continuation_byte(b, i);
        }
        if i + 2 < b.len() {
            let c = b[i + 2];
            assert(c == v[i + 2] as u8);
            assert(is_hex_char(v[i + 2]));
            lemma_hex_char(v[i + 2]);
            assert(!is_continuation_byte(c)) by (bit_vector)
                requires
                    c < 128,
            ;
            is_char_boundary_iff_not_is_continuation_byte(b, i + 2);
        }
        let h = hex_value(c0 as u8)->Some_0;
        let l = hex_value(c1 as u8)->Some_0;
        let byte = (h * 16 + l) as u8;
        assert(c0 as u8 != 43);
        assert(hex_pair(b[i], b[i + 1]) == Some(byte));
        assert(byte as int / 16 == h && byte as int % 16 == l);
        lemma_hex_lower_prepend(byte, x1);
        assert(ascii_lowercase(v.subrange(i, v.len() as int)) =~= seq![lower_char(c0), lower_char(c1)]
            + ascii_lowercase(v.subrange(i + 2, v.len() as int)));
    }
}

/// Whether no two of the texts are equal.
pub open spec fn distinct_texts(keys: Seq<Seq<char>>) -> bool {
    forall|i: int, j: int| 0 <= i < j < keys.len() ==> #[trigger] keys[i] != #[trigger] keys[j]
}

/// Whether no two of the texts are equal.
pub fn texts_distinct(keys: &Vec<&str>) -> (r: bool)
    ensures
        r == distinct_texts(keys@.map_values(|k: &str| k@)),
{
    let ghost ks = keys@.map_values(|k: &str| k@);
    let mut j: usize = 0;
    while j < keys.len()
        invariant
            j <= keys@.len(),
            ks == keys@.map_values(|k: &str| k@),
            forall|a: int, b: int| 0 <= a < b < j ==> #[trigger] ks[a] != #[trigger] ks[b],
        decreases keys@.len() - j,
    {
        let mut i: usize = 0;
        while i < j
            invariant
                i <= j,
                j < keys@.len(),
                ks == keys@.map_values(|k: &str| k@),
                forall|a: int, b: int| 0 <= a < b < j ==> #[trigger] ks[a] != #[trigger] ks[b],
                forall|a: int| 0 <= a < i ==> #[trigger] ks[a] != ks[j as int],
            decreases j - i,
        {
            if str_equal(keys[i], keys[j]) {
                assert(ks[i as int] == ks[j as int]);
                return false;
            }
            i = i + 1;
        }
        j = j + 1;
    }
    true
}

/// The decimal digits of `n`, as `n.to_string()` writes them.
pub fn decimal_digits(n: usize) -> (r: Vec<u8>)
    ensures
        r@ == decimal(n as nat),
    decreases n,
{
    if n < 10 {
        let mut v: Vec<u8> = Vec::new();
        v.push((48 + n) as u8);
        v
    } else {
        let mut v = decimal_digits(n / 10);
        v.push((48 + n % 10) as u8);
        v
    }
}

/// `String::from_utf8`: the text that `bytes` encode in UTF-8, if they are
/// well-formed UTF-8. The contract states the standard's decoding, which is
/// what the documentation of `String::from_utf8` promises.
#[verifier::external_body]
pub fn string_from_utf8(bytes: Vec<u8>) -> (r: Option<String>)
    ensures
        r is Some <==> valid_utf8(bytes@),
        r matches Some(s) ==> s@ == decode_utf8(bytes@),
{
    String::from_utf8(bytes).ok()
}

pub proof fn lemma_ascii_text(chars: Seq<char>, bytes: Seq<u8>)
    requires
        chars.len() == bytes.len(),
        forall|i: int| 0 <= i < chars.len() ==> #[trigger] chars[i] as int == bytes[i] as int,
        forall|i: int| 0 <= i < bytes.len() ==> #[trigger] bytes[i] < 128,
    ensures
        valid_utf8(bytes),
        decode_utf8(bytes) == chars,
{
    assert(is_ascii_chars(chars)) by {
        assert forall|i| 0 <= i < chars.len() implies '\0' <= #[trigger] chars[i] <= '\u{7f}' by {
            assert(bytes[i] < 128);
            assert((chars[i] as int) < 128);
        };
    };
    is_ascii_chars_encode_utf8(chars);
    assert(encode_utf8(chars) =~= bytes);
}

/// Each byte as two lowercase hexadecimal digits (`format!("{:02x}", b)`).
pub fn encode_hex(bytes: &[u8]) -> (r: String)
    ensures
        r@ == hex_lower(bytes@),
{
    let mut out: Vec<u8> = Vec::new();
    let mut i: usize = 0;
    while i < bytes.len()
        invariant
            i <= bytes@.len(),
            out@.len() == hex_lower(bytes@.subrange(0, i as int)).len(),
            forall|k: int|
                0 <= k < out@.len() ==> #[trigger] out@[k] as int == hex_lower(
                    bytes@.subrange(0, i as int),
                )[k] as int && out@[k] < 128,
        decreases bytes@.len() - i,
    {
        let b = bytes[i];
        let hi = b / 16;
        let lo = b % 16;
        let ghost prev = out@;
        out.push(if hi < 10 { 48 + hi } else { 87 + hi });
        out.push(if lo < 10 { 48 + lo } else { 87 + lo });
        proof {
            let s = bytes@.subrange(0, i + 1);
            assert(s.drop_last() == bytes@.subrange(0, i as int));
            assert(s.last() == b);
            let h = hex_lower(s);
            assert(h == hex_lower(bytes@.subrange(0, i as int)) + seq![
                hex_digit(b as int / 16),
                hex_digit(b as int % 16),
            ]);
            assert forall|k: int| 0 <= k < out@.len() implies #[trigger] out@[k] as int == h[k] as int
                && out@[k] < 128 by {
                if k >= prev.len() {
                }
            };
        }
        i = i + 1;
    }
    assert(bytes@.subrange(0, bytes@.len() as int) == bytes@);
    let ghost chars = hex_lower(bytes@);
    proof {
        lemma_ascii_text(chars, out@);
    }
    match string_from_utf8(out) {
        Some(s) => s,
        None => {
            assert(false);
            String::new()
        },
    }
}

} // verus!
