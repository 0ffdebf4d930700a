use vstd::prelude::*;
use crate::encoding::lemma_encode_utf8_len;

verus! {

/// How much of a value is hidden when it is shown.
#[derive(Debug, Clone, Copy, PartialEq, Eq, Structural)]
pub enum RedactionLevel {
    Full,
    Clear,
    Last4,
}

/// `String::push`: appends `c` to `s`.
#[verifier::external_body]
fn push_char(s: &mut String, c: char)
    ensures
        final(s)@ == old(s)@.push(c),
{
    s.push(c)
}

impl RedactionLevel {
    /// The redacted text of `value`, whose UTF-8 encoding is `byte_len` bytes
    /// long: every character replaced by `'0'`, none, or all but those whose
    /// index plus 4 reaches `byte_len`.
    pub open spec fn spec_redact(self, value: Seq<char>, byte_len: nat) -> Seq<char> {
        match self {
            RedactionLevel::Full => Seq::new(value.len(), |i: int| '0'),
            RedactionLevel::Clear => value,
            RedactionLevel::Last4 => Seq::new(
                value.len(),
                |i: int|
                    if i + 4 >= byte_len {
                        value[i]
                    } else {
                        '0'
                    },
            ),
        }
    }

    /// Redacting keeps the number of characters; `Clear` keeps the value, and
    /// every character is either kept or replaced by `'0'`.
    pub proof fn lemma_redact_shape(self, value: Seq<char>, byte_len: nat)
        ensures
            self.spec_redact(value, byte_len).len() == value.len(),
            self == RedactionLevel::Clear ==> self.spec_redact(value, byte_len) == value,
            forall|i: int|
                0 <= i < value.len() ==> #[trigger] self.spec_redact(value, byte_len)[i] == value[i]
                    || self.spec_redact(value, byte_len)[i] == '0',
    {
    }

    /// What each level shows of a value whose UTF-8 encoding is `byte_len`
    /// bytes long: `Full` shows a `'0'` for every character, whatever the
    /// value; `Clear` shows the value; `Last4` shows the characters whose index
    /// plus 4 reaches `byte_len` and a `'0'` for each other, so that a value
    /// of single-byte characters shows its last four (all of it when it is
    /// shorter).
    pub proof fn lemma_redaction_levels(value: Seq<char>, byte_len: nat)
        ensures
            RedactionLevel::Full.spec_redact(value, byte_len) =~= Seq::new(value.len(), |i: int| '0'),
            RedactionLevel::Clear.spec_redact(value, byte_len) == value,
            RedactionLevel::Last4.spec_redact(value, byte_len).len() == value.len(),
            forall|i: int|
                0 <= i < value.len() ==> #[trigger] RedactionLevel::Last4.spec_redact(
                    value,
                    byte_len,
                )[i] == if i + 4 >= byte_len {
                    value[i]
                } else {
                    '0'
                },
            byte_len == value.len() ==> forall|i: int|
                0 <= i < value.len() ==> (#[trigger] RedactionLevel::Last4.spec_redact(
                    value,
                    byte_len,
                )[i] == value[i] <== value.len() - 4 <= i),
    {
    }

    /// Redacts `value`: `Full` replaces every character with `'0'`, `Clear`
    /// keeps it, and `Last4` keeps only the characters whose index plus 4
    /// reaches the value's length in bytes (the last four, for ASCII text).
    pub fn redact(&self, value: &str) -> (r: String)
        ensures
            r@ == self.spec_redact(value@, value.len() as nat),
    {
        let len = value.len();
        let bytes_len = value.as_bytes().len();
        proof {
            lemma_encode_utf8_len(value@);
        }
        let mut out = String::new();
        let mut index: usize = 0;
        for c in it: value.chars()
            invariant
                len == value.len(),
                value@.len() <= bytes_len,
                index == it.index(),
                it.seq() == value@,
                out@ == self.spec_redact(value@, len as nat).subrange(0, index as int),
        {
            let kept = match self {
                RedactionLevel::Full => '0',
                RedactionLevel::Clear => c,
                RedactionLevel::Last4 => if len < 4 || index >= len - 4 {
                    c
                } else {
                    '0'
                },
            };
            push_char(&mut out, kept);
            index = index + 1;
            assert(out@ =~= self.spec_redact(value@, len as nat).subrange(0, index as int));
        }
        assert(out@ =~= self.spec_redact(value@, len as nat));
        out
    }
}

} // verus!
