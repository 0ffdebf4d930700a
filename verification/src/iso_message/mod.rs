use crate::encoding::{
    ascii_string, ascii_text, decimal, decimal_digits, distinct_texts, is_digit,
    lemma_decimal_digits, str_equal, texts_distinct,
};
use crate::spec::data_element::DataElement;
use crate::spec::iso_map::spec_lookup;
use crate::spec::IsoSpec;
use vstd::prelude::*;
use vstd::slice::slice_subrange;
use vstd::std_specs::iter::IteratorSpec;
use vstd::utf8::{decode_utf8, valid_utf8};

pub mod bitmap;

use bitmap::{announced_upto, spec_bitmap_from, Bitmap};

verus! {

/// Why a message could not be read.
#[derive(Debug, Clone, Copy, PartialEq, Eq, Structural)]
pub enum ReadError {
    /// The buffer is too short to hold the MTI.
    MtiMissing,
    /// The buffer ends before the primary (1), secondary (2) or tertiary (3)
    /// bitmap.
    BitmapMissing(u8),
    /// The spec has no data element with this number.
    UnknownDataElement(usize),
}

/// What `String::from_utf8_lossy` gives for `bytes`.
pub uninterp spec fn utf8_lossy(bytes: Seq<u8>) -> Seq<char>;

/// `String::from_utf8_lossy(bytes).to_string()`: the text of `bytes`, with
/// each ill-formed sequence replaced by U+FFFD. The contract names the
/// result, and states what the documentation promises for well-formed
/// UTF-8: the text is decoded unchanged. How ill-formed input is replaced is
/// not stated.
#[verifier::external_body]
fn lossy_string(bytes: &[u8]) -> (r: String)
    ensures
        r@ == utf8_lossy(bytes@),
        valid_utf8(bytes@) ==> r@ == decode_utf8(bytes@),
{
    String::from_utf8_lossy(bytes).to_string()
}

/// The keys of key/value pairs, as texts.
pub open spec fn data_keys(entries: Seq<(String, String)>) -> Seq<Seq<char>> {
    entries.map_values(|e: (String, String)| e.0@)
}

/// The data of a message held as key/value pairs, the later pair winning.
pub open spec fn data_view(entries: Seq<(String, String)>) -> Map<Seq<char>, Seq<char>>
    decreases entries.len(),
{
    if entries.len() == 0 {
        Map::empty()
    } else {
        data_view(entries.drop_last()).insert(entries.last().0@, entries.last().1@)
    }
}

/// The decimal text of `n`.
pub open spec fn decimal_text(n: nat) -> Seq<char> {
    ascii_text(decimal(n))
}

/// Reading a message with a spec whose entries are `entries`: the MTI (the
/// text of the first four bytes, with ill-formed UTF-8 replaced), the bitmaps, then each announced data
/// element. `None` where reading panics: no data element can be read yet,
/// so reading panics at the first announced data element that the spec
/// knows.
pub open spec fn spec_message_from_buffer<'a>(
    buffer: Seq<u8>,
    entries: Seq<(&'a str, DataElement<'a>)>,
) -> Option<Result<Map<Seq<char>, Seq<char>>, ReadError>> {
    if buffer.len() < 4 {
        Some(Err(ReadError::MtiMissing))
    } else {
        let mti_bytes = buffer.subrange(0, 4);
        let mti = if valid_utf8(mti_bytes) {
            decode_utf8(mti_bytes)
        } else {
            utf8_lossy(mti_bytes)
        };
        match spec_bitmap_from(buffer.subrange(4, buffer.len() as int)) {
            Err(n) => Some(Err(ReadError::BitmapMissing(n))),
            Ok((p, s, t)) => {
                let bitmap = Bitmap { primary_bitmap: p, secondary_bitmap: s, tertiary_bitmap: t };
                let keys = announced_upto(bitmap.words(), (64 * bitmap.words().len()) as nat);
                if keys.len() == 0 {
                    Some(Ok(map!["0"@ => mti]))
                } else if spec_lookup(entries, decimal_text(keys[0] as nat)) is None {
                    Some(Err(ReadError::UnknownDataElement(keys[0])))
                } else {
                    None
                }
            },
        }
    }
}

/// A message read with a spec: its data, keyed by the data element's
/// number written in decimal.
pub struct IsoMessage<'a> {
    spec: &'a IsoSpec<'a>,
    data: Vec<(String, String)>,
}

/// The decimal text of `n`, as `n.to_string()` writes it.
fn usize_string(n: usize) -> (r: String)
    ensures
        r@ == decimal_text(n as nat),
{
    let digits = decimal_digits(n);
    proof {
        lemma_decimal_digits(n as nat);
        assert forall|i: int| 0 <= i < digits@.len() implies #[trigger] digits@[i] < 128 by {
            assert(is_digit(digits@[i]));
        };
    }
    ascii_string(digits)
}

impl<'a> IsoMessage<'a> {
    #[verifier::type_invariant]
    spec fn keys_distinct(self) -> bool {
        distinct_texts(data_keys(self.data@))
    }

    /// The message's data.
    pub closed spec fn data(&self) -> Map<Seq<char>, Seq<char>> {
        data_view(self.data@)
    }

    /// The entries of the message's spec.
    pub closed spec fn spec_entries(&self) -> Seq<(&'a str, DataElement<'a>)> {
        self.spec.map.entries()
    }

    /// A message with the given spec and data.
    pub fn new(spec: &'a IsoSpec, data: Vec<(String, String)>) -> (r: Self)
        requires
            distinct_texts(data_keys(data@)),
        ensures
            r.data() == data_view(data@),
            r.spec_entries() == spec.map.entries(),
    {
        Self { spec, data }
    }

    /// A message with the given spec and data, or `None` where two of the
    /// pairs have the same key.
    pub fn try_new(spec: &'a IsoSpec, data: Vec<(String, String)>) -> (r: Option<Self>)
        ensures
            r is Some <==> distinct_texts(data_keys(data@)),
            r matches Some(m) ==> m.data() == data_view(data@) && m.spec_entries()
                == spec.map.entries(),
    {
        let mut keys: Vec<&str> = Vec::new();
        let mut i: usize = 0;
        while i < data.len()
            invariant
                i <= data@.len(),
                keys@.len() == i,
                forall|k: int| 0 <= k < i ==> #[trigger] keys@[k]@ == data@[k].0@,
            decreases data@.len() - i,
        {
            keys.push(data[i].0.as_str());
            i = i + 1;
        }
        assert(keys@.map_values(|k: &str| k@) =~= data_keys(data@));
        if texts_distinct(&keys) {
            Some(Self { spec, data })
        } else {
            None
        }
    }

    /// Reads a message: the MTI (the first four bytes), the bitmaps, then
    /// each data element that they announce, as the spec describes it.
    pub fn from_buffer(buffer: &[u8], spec: &'a IsoSpec<'a>) -> (r: Result<Self, ReadError>)
        requires
            spec_message_from_buffer(buffer@, spec.map.entries()) is Some,
        ensures
            match spec_message_from_buffer(buffer@, spec.map.entries())->Some_0 {
                Ok(data) => r matches Ok(m) && m.data() == data && m.spec_entries() == spec.map.entries(),
                Err(e) => r matches Err(e2) && e2 == e,
            },
    {
        match Self::try_from_buffer(buffer, spec) {
            Some(r) => r,
            None => {
                assert(false);
                Err(ReadError::MtiMissing)
            },
        }
    }

    /// Reads a message as `from_buffer` does, or gives `None` where that
    /// panics (at the first announced data element that the spec knows).
    pub fn try_from_buffer(buffer: &[u8], spec: &'a IsoSpec<'a>) -> (r: Option<
        Result<Self, ReadError>,
    >)
        ensures
            match spec_message_from_buffer(buffer@, spec.map.entries()) {
                None => r is None,
                Some(Ok(data)) => r matches Some(Ok(m)) && m.data() == data && m.spec_entries()
                    == spec.map.entries(),
                Some(Err(e)) => r matches Some(Err(e2)) && e2 == e,
            },
    {
        let len = buffer.len();
        let mut data: Vec<(String, String)> = Vec::new();
        if len < 4 {
            return Some(Err(ReadError::MtiMissing));
        }
        let mti = lossy_string(slice_subrange(buffer, 0, 4));
        data.push((usize_string(0), mti));
        let mut cursor: usize = 4;
        let bitmaps = match Bitmap::try_from(slice_subrange(buffer, cursor, len)) {
            Ok(b) => b,
            Err(e) => return Some(Err(e)),
        };
        cursor = cursor + bitmaps.bytes_consumed();
        let ghost words = bitmaps.words();
        let keys = bitmaps.data_elements();
        if keys.len() == 0 {
            {
                proof {
                    reveal_strlit("0");
                    assert(decimal(0) == seq![48u8]);
                    assert((48u8 as char) == '0');
                    assert(ascii_text(seq![48u8]) =~= seq!['0']);
                    assert(data@[0].0@ == seq!['0']);
                    assert("0"@ == seq!['0']);
                    assert(data@[0].1@ == mti@);
                    assert(data_view(data@.drop_last()) == Map::<Seq<char>, Seq<char>>::empty());
                    assert(data@.drop_last() == Seq::<(String, String)>::empty());
                    assert(data_view(data@) =~= map!["0"@ => mti@]);
                }
                Some(Ok(Self { spec, data }))
            }
        } else {
            {
                let key = keys[0];
                let key_text = usize_string(key);
                match spec.map.get_field_spec(key_text.as_str()) {
                    None => Some(Err(ReadError::UnknownDataElement(key))),
                    Some(_) => None,
                }
            }
        }
    }

    /// The value of data element `key`, if the spec knows the data element
    /// and the message holds it.
    pub fn get_field(&self, key: &'static str) -> (r: Option<&String>)
        ensures
            spec_lookup(self.spec_entries(), key@) is None ==> r is None,
            spec_lookup(self.spec_entries(), key@) is Some ==> match r {
                Some(v) => self.data().contains_key(key@) && v@ == self.data()[key@],
                None => !self.data().contains_key(key@),
            },
    {
        match self.spec.map.get_field_spec(key) {
            None => None,
            Some(_) => {
                let mut i = self.data.len();
                while i > 0
                    invariant
                        i <= self.data@.len(),
                        spec_lookup(self.spec_entries(), key@) is Some,
                        forall|j: int| i <= j < self.data@.len() ==> (#[trigger] self.data@[j]).0@ != key@,
                    decreases i,
                {
                    let entry = &self.data[i - 1];
                    if str_equal(entry.0.as_str(), key) {
                        proof {
                            lemma_data_view_suffix(self.data@, i as int, key@);
                            let s = self.data@.subrange(0, i as int);
                            assert(s.drop_last() == self.data@.subrange(0, i - 1));
                        }
                        return Some(&entry.1);
                    }
                    i = i - 1;
                }
                proof {
                    lemma_data_view_suffix(self.data@, 0, key@);
                }
                None
            },
        }
    }

    /// Sets data element `key` to `value` if the spec knows the data
    /// element; otherwise leaves the message as it is and returns an error.
    pub fn set_field(&mut self, key: &'static str, value: String) -> (r: Result<(), ()>)
        ensures
            final(self).spec_entries() == old(self).spec_entries(),
            spec_lookup(old(self).spec_entries(), key@) is None ==> r is Err && final(self).data()
                == old(self).data(),
            spec_lookup(old(self).spec_entries(), key@) is Some ==> r is Ok && final(self).data()
                == old(self).data().insert(key@, value@),
    {
        match self.spec.map.get_field_spec(key) {
            None => Err(()),
            Some(_) => {
                proof {
                    use_type_invariant(&*self);
                }
                let ghost entries = self.spec_entries();
                let mut data: Vec<(String, String)> = Vec::new();
                std::mem::swap(&mut data, &mut self.data);
                let ghost before = data@;
                assert(before == old(self).data@);
                let mut i: usize = 0;
                while i < data.len()
                    invariant
                        i <= data@.len(),
                        data@ == before,
                        before == old(self).data@,
                        distinct_texts(data_keys(before)),
                        self.spec_entries() == entries,
                        entries == old(self).spec_entries(),
                        spec_lookup(entries, key@) is Some,
                        forall|j: int| 0 <= j < i ==> (#[trigger] data@[j]).0@ != key@,
                    decreases data@.len() - i,
                {
                    if str_equal(data[i].0.as_str(), key) {
                        let owned = key.to_owned();
                        let v = value;
                        proof {
                            lemma_data_view_update(before, i as int, owned, v);
                        }
                        data.set(i, (owned, v));
                        self.data = data;
                        return Ok(());
                    }
                    i = i + 1;
                }
                data.push((key.to_owned(), value));
                assert(data@.drop_last() == before);
                assert(distinct_texts(data_keys(data@))) by {
                    assert forall|a: int, b: int| 0 <= a < b < data@.len() implies #[trigger] data_keys(
                        data@,
                    )[a] != #[trigger] data_keys(data@)[b] by {
                        if b < before.len() {
                            assert(data_keys(before)[a] != data_keys(before)[b]);
                        }
                    };
                };
                self.data = data;
                Ok(())
            },
        }
    }
}

proof fn lemma_data_view_update(s: Seq<(String, String)>, j: int, k: String, v: String)
    requires
        0 <= j < s.len(),
        s[j].0@ == k@,
        distinct_texts(data_keys(s)),
    ensures
        data_view(s.update(j, (k, v))) == data_view(s).insert(k@, v@),
        distinct_texts(data_keys(s.update(j, (k, v)))),
    decreases s.len(),
{
    let t = s.update(j, (k, v));
    assert(data_keys(t) =~= data_keys(s));
    if j == s.len() - 1 {
        assert(t.drop_last() == s.drop_last());
        assert(data_view(s) == data_view(s.drop_last()).insert(k@, s.last().1@));
        assert(data_view(t) =~= data_view(s).insert(k@, v@));
    } else {
        assert(t.drop_last() == s.drop_last().update(j, (k, v)));
        assert(distinct_texts(data_keys(s.drop_last()))) by {
            assert forall|a: int, b: int| 0 <= a < b < s.len() - 1 implies #[trigger] data_keys(
                s.drop_last(),
            )[a] != #[trigger] data_keys(s.drop_last())[b] by {
                assert(data_keys(s)[a] != data_keys(s)[b]);
            };
        };
        lemma_data_view_update(s.drop_last(), j, k, v);
        assert(data_keys(s)[j] != data_keys(s)[s.len() - 1]);
        assert(s.last().0@ != k@);
        assert(data_view(t) =~= data_view(s).insert(k@, v@));
    }
}

/// Reading a data element after a `set_field` that succeeded gives the
/// value set, and the other data elements are as they were.
pub proof fn lemma_get_after_set(
    data: Map<Seq<char>, Seq<char>>,
    key: Seq<char>,
    value: Seq<char>,
    other: Seq<char>,
)
    ensures
        data.insert(key, value).contains_key(key),
        data.insert(key, value)[key] == value,
        other != key ==> data.insert(key, value).contains_key(other) == data.contains_key(other),
        other != key && data.contains_key(other) ==> data.insert(key, value)[other] == data[other],
{
}

proof fn lemma_data_view_suffix(s: Seq<(String, String)>, i: int, k: Seq<char>)
    requires
        0 <= i <= s.len(),
        forall|j: int| i <= j < s.len() ==> (#[trigger] s[j]).0@ != k,
    ensures
        data_view(s).contains_key(k) == data_view(s.subrange(0, i)).contains_key(k),
        data_view(s).contains_key(k) ==> data_view(s)[k] == data_view(s.subrange(0, i))[k],
    decreases s.len(),
{
    if s.len() == i {
        assert(s.subrange(0, i) == s);
    } else {
        assert(s.drop_last().subrange(0, i) == s.subrange(0, i));
        assert(s[s.len() - 1].0@ != k);
        lemma_data_view_suffix(s.drop_last(), i, k);
    }
}

} // verus!
