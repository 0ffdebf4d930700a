use crate::encoding::is_hex_char;
use vstd::prelude::*;

verus! {

/// The kind of characters a data element may hold.
#[derive(Debug, Clone, Copy, PartialEq, Eq, Structural)]
pub enum ContentType {
    Bytes,
    Number,
    Padding,
    Alpha,
    AlphaNumeric,
    AlphaNumericPadding,
    Special,
    AlphaNumericSpecial,
    Track2,
    TransactionNumeric,
    AlphaSpecial,
    NumericSpecial,
}

/// Hexadecimal digits.
pub const BYTES_PATTERN: &'static str = "^[A-Fa-f0-9]+$";

/// Decimal digits.
pub const NUMBER_PATTERN: &'static str = "^[0-9]+$";

/// Padding: `*`, `#` and spaces.
pub const PADDING_PATTERN: &'static str = "^[*#\x20 ]+$";

/// Letters.
pub const ALPHA_PATTERN: &'static str = "^[A-Za-z]+$";

/// Letters and digits.
pub const ALPHA_NUMERIC_PATTERN: &'static str = "^[A-Za-z0-9]+$";

/// Letters, digits and padding.
pub const ALPHA_NUMERIC_PADDING_PATTERN: &'static str = "^[A-Za-z0-9*#\x20 ]+$";

/// Special characters.
pub const SPECIAL_PATTERN: &'static str = r#"^[-!$%^&*()_+|~=`{}\[\]:";'<>?,\./ \\]+$"#;

/// Letters, digits and special characters.
pub const ALPHA_NUMERIC_SPECIAL_PATTERN: &'static str =
    r#"^[A-Za-z0-9-!$%^&*()_+|~=`{}\[\]:";'<>?,\./ \\]+$"#;

/// Digits, optionally after a credit (`C`) or debit (`D`) sign.
pub const TRANSACTION_NUMERIC_PATTERN: &'static str = "^[C|D]?[0-9]+$";

/// Letters and special characters.
pub const ALPHA_SPECIAL_PATTERN: &'static str = r#"^[A-Za-z-!$%^&*()_+|~=`{}\[\]:";'<>?,\./ \\]+$"#;

/// Digits and special characters.
pub const NUMERIC_SPECIAL_PATTERN: &'static str = r#"^[0-9-!$%^&*()_+|~=`{}\[\]:";'<>?,\./ \\]+$"#;

/// Whether `regex::Regex::new` accepts `pattern`.
pub uninterp spec fn regex_compiles(pattern: Seq<char>) -> bool;

/// What `regex::Regex::is_match` answers for the compiled `pattern` on
/// `haystack`.
pub uninterp spec fn regex_matches(pattern: Seq<char>, haystack: Seq<char>) -> bool;

/// Compiles `pattern` with `regex::Regex::new` and, if that succeeds, asks
/// `Regex::is_match` whether it matches `haystack`. The contract claims that
/// the outcome is a function of the two texts: `None` exactly when
/// `Regex::new` refuses the pattern, and otherwise `is_match`'s answer. For
/// the patterns of this file it also claims what the regex documentation
/// gives for them: each compiles; one that is a single character class
/// (of characters, ranges and escaped punctuation, a `-` next to a range
/// being a literal `-`), anchored at both ends and repeated with `+`, matches
/// exactly the texts of one or more characters of the class; and the
/// transaction-numeric pattern `^[C|D]?[0-9]+$` matches exactly an optional
/// `C`, `|` or `D` followed by one or more digits.
#[verifier::external_body]
fn regex_is_match(pattern: &str, haystack: &str) -> (r: Option<bool>)
    ensures
        r is Some <==> regex_compiles(pattern@),
        r matches Some(b) ==> b == regex_matches(pattern@, haystack@),
        forall|t: ContentType|
            #![trigger t.spec_pattern(), t.class_accepts(haystack@)]
            t.simple_class() && t.spec_pattern() == Some(pattern@) ==> r == Some(
                t.class_accepts(haystack@),
            ),
        ContentType::TransactionNumeric.spec_pattern() == Some(pattern@) ==> r == Some(
            transaction_numeric_accepts(haystack@),
        ),
{
    match regex::Regex::new(pattern) {
        Ok(re) => Some(re.is_match(haystack)),
        Err(_) => None,
    }
}

/// Whether `c` is one of the special characters of the patterns:
/// `-!$%^&*()_+|~=` and backquote, `{}[]:";'<>?,./`, space and backslash.
pub open spec fn is_special_char(c: char) -> bool {
    ||| c == '-' || c == '!' || c == '$' || c == '%' || c == '^' || c == '&' || c == '*'
    ||| c == '(' || c == ')' || c == '_' || c == '+' || c == '|' || c == '~' || c == '='
    ||| c == '`' || c == '{' || c == '}' || c == '[' || c == ']' || c == ':' || c == '"'
    ||| c == ';' || c == '\'' || c == '<' || c == '>' || c == '?' || c == ',' || c == '.'
    ||| c == '/' || c == ' ' || c == '\\'
}

/// The texts of an optional credit or debit sign (`C`, `D`, or `|`, which the
/// class also holds) followed by one or more digits.
pub open spec fn transaction_numeric_accepts(value: Seq<char>) -> bool {
    ||| value.len() > 0 && forall|i: int| 0 <= i < value.len() ==> '0' <= #[trigger] value[i] <= '9'
    ||| value.len() > 1 && (value[0] == 'C' || value[0] == '|' || value[0] == 'D') && forall|i: int|
        1 <= i < value.len() ==> '0' <= #[trigger] value[i] <= '9'
}

/// The text has one character at least, each satisfying `p`.
pub open spec fn one_or_more(value: Seq<char>, p: spec_fn(char) -> bool) -> bool {
    &&& value.len() > 0
    &&& forall|i: int| 0 <= i < value.len() ==> p(#[trigger] value[i])
}

impl ContentType {
    /// The pattern that values of this content type must match; a track 2
    /// value is not checked.
    pub open spec fn spec_pattern(self) -> Option<Seq<char>> {
        match self {
            ContentType::Bytes => Some(BYTES_PATTERN@),
            ContentType::Number => Some(NUMBER_PATTERN@),
            ContentType::Padding => Some(PADDING_PATTERN@),
            ContentType::Alpha => Some(ALPHA_PATTERN@),
            ContentType::AlphaNumeric => Some(ALPHA_NUMERIC_PATTERN@),
            ContentType::AlphaNumericPadding => Some(ALPHA_NUMERIC_PADDING_PATTERN@),
            ContentType::Special => Some(SPECIAL_PATTERN@),
            ContentType::AlphaNumericSpecial => Some(ALPHA_NUMERIC_SPECIAL_PATTERN@),
            ContentType::Track2 => None,
            ContentType::TransactionNumeric => Some(TRANSACTION_NUMERIC_PATTERN@),
            ContentType::AlphaSpecial => Some(ALPHA_SPECIAL_PATTERN@),
            ContentType::NumericSpecial => Some(NUMERIC_SPECIAL_PATTERN@),
        }
    }

    /// Whether the type's pattern is one character class, anchored at both
    /// ends and repeated with `+`.
    pub open spec fn simple_class(self) -> bool {
        match self {
            ContentType::Track2 | ContentType::TransactionNumeric => false,
            _ => true,
        }
    }

    /// Whether `c` is in the character class of the type's pattern, for the
    /// types for which `simple_class` holds.
    pub open spec fn in_class(self, c: char) -> bool {
        let digit = '0' <= c <= '9';
        let letter = ('A' <= c <= 'Z') || ('a' <= c <= 'z');
        let padding = c == '*' || c == '#' || c == ' ';
        match self {
            ContentType::Bytes => is_hex_char(c),
            ContentType::Number => digit,
            ContentType::Padding => padding,
            ContentType::Alpha => letter,
            ContentType::AlphaNumeric => letter || digit,
            ContentType::AlphaNumericPadding => letter || digit || padding,
            ContentType::Special => is_special_char(c),
            ContentType::AlphaNumericSpecial => letter || digit || is_special_char(c),
            ContentType::AlphaSpecial => letter || is_special_char(c),
            ContentType::NumericSpecial => digit || is_special_char(c),
            _ => false,
        }
    }

    /// The text has one character at least, each in the type's class.
    pub open spec fn class_accepts(self, value: Seq<char>) -> bool {
        &&& value.len() > 0
        &&& forall|i: int| 0 <= i < value.len() ==> self.in_class(#[trigger] value[i])
    }

    /// Whether `value` is a valid value of this content type: it matches the
    /// type's pattern. A pattern that is one repeated character class matches
    /// the texts of one or more characters of the class; a track 2 value is
    /// not checked.
    pub open spec fn accepts(self, value: Seq<char>) -> bool {
        match self {
            ContentType::Track2 => true,
            ContentType::TransactionNumeric => transaction_numeric_accepts(value),
            _ => self.class_accepts(value),
        }
    }

    /// What each content type accepts, character by character: one or more
    /// hexadecimal digits, decimal digits, padding (`*`, `#`, space), letters,
    /// or letters and digits (with padding for alphanumeric padding), as the
    /// type says; special characters (`-!$%^&*()_+|~=`, backquote,
    /// `{}[]:";'<>?,./`, space and backslash), with letters, digits or both
    /// for the special kinds; an optional sign `C`, `D` or `|` then one or
    /// more digits for transaction amounts; and any track 2 text.
    pub proof fn lemma_accepts_characters(self, value: Seq<char>)
        ensures
            self.accepts(value) == ({
                let special = set![
                    '-', '!', '$', '%', '^', '&', '*', '(', ')', '_', '+', '|', '~', '=', '`',
                    '{', '}', '[', ']', ':', '"', ';', '\'', '<', '>', '?', ',', '.', '/', ' ',
                    '\\',
                ];
                let digit = |c: char| '0' <= c <= '9';
                let letter = |c: char| ('A' <= c <= 'Z') || ('a' <= c <= 'z');
                let hex = |c: char| digit(c) || ('A' <= c <= 'F') || ('a' <= c <= 'f');
                let padding = set!['*', '#', ' '];
                match self {
                    ContentType::Track2 => true,
                    ContentType::TransactionNumeric => one_or_more(value, digit) || (value.len()
                        > 0 && set!['C', 'D', '|'].contains(value[0]) && one_or_more(
                        value.drop_first(),
                        digit,
                    )),
                    ContentType::Bytes => one_or_more(value, hex),
                    ContentType::Number => one_or_more(value, digit),
                    ContentType::Padding => one_or_more(value, |c: char| padding.contains(c)),
                    ContentType::Alpha => one_or_more(value, letter),
                    ContentType::AlphaNumeric => one_or_more(value, |c: char| letter(c) || digit(c)),
                    ContentType::AlphaNumericPadding => one_or_more(
                        value,
                        |c: char| letter(c) || digit(c) || padding.contains(c),
                    ),
                    ContentType::Special => one_or_more(value, |c: char| special.contains(c)),
                    ContentType::AlphaNumericSpecial => one_or_more(
                        value,
                        |c: char| letter(c) || digit(c) || special.contains(c),
                    ),
                    ContentType::AlphaSpecial => one_or_more(
                        value,
                        |c: char| letter(c) || special.contains(c),
                    ),
                    ContentType::NumericSpecial => one_or_more(
                        value,
                        |c: char| digit(c) || special.contains(c),
                    ),
                }
            }),
    {
        if self == ContentType::TransactionNumeric && value.len() > 1 {
            assert forall|i: int| 1 <= i < value.len() implies value.drop_first()[i - 1] == value[i] by {};
            assert forall|i: int| 0 <= i < value.drop_first().len() implies value.drop_first()[i]
                == value[i + 1] by {};
        }
    }

    fn pattern(&self) -> (r: Option<&'static str>)
        ensures
            r matches Some(p) ==> self.spec_pattern() == Some(p@),
            r is None ==> self.spec_pattern() is None,
    {
        match self {
            ContentType::Bytes => Some(BYTES_PATTERN),
            ContentType::Number => Some(NUMBER_PATTERN),
            ContentType::Padding => Some(PADDING_PATTERN),
            ContentType::Alpha => Some(ALPHA_PATTERN),
            ContentType::AlphaNumeric => Some(ALPHA_NUMERIC_PATTERN),
            ContentType::AlphaNumericPadding => Some(ALPHA_NUMERIC_PADDING_PATTERN),
            ContentType::Special => Some(SPECIAL_PATTERN),
            ContentType::AlphaNumericSpecial => Some(ALPHA_NUMERIC_SPECIAL_PATTERN),
            ContentType::Track2 => None,
            ContentType::TransactionNumeric => Some(TRANSACTION_NUMERIC_PATTERN),
            ContentType::AlphaSpecial => Some(ALPHA_SPECIAL_PATTERN),
            ContentType::NumericSpecial => Some(NUMERIC_SPECIAL_PATTERN),
        }
    }

    /// Whether `value` is a valid value of this content type.
    pub fn is_valid(&self, value: &str) -> (r: bool)
        ensures
            r == self.accepts(value@),
    {
        match self.pattern() {
            None => true,
            Some(p) => match regex_is_match(p, value) {
                Some(b) => b,
                None => false,
            },
        }
    }
}

} // verus!
