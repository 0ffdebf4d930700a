use super::data_element::DataElement;
use crate::encoding::{distinct_texts, str_equal, texts_distinct};
use vstd::prelude::*;

verus! {

/// The data elements of a spec, keyed by their number written in decimal;
/// no key is held twice.
#[derive(Debug)]
pub struct IsoSpecMap<'a>(Vec<(&'a str, DataElement<'a>)>);

/// The keys of the entries, as texts.
pub open spec fn entry_keys<'a>(entries: Seq<(&'a str, DataElement<'a>)>) -> Seq<Seq<char>> {
    entries.map_values(|e: (&'a str, DataElement<'a>)| e.0@)
}

/// The data element of the first entry keyed `key`.
pub open spec fn spec_lookup<'a>(entries: Seq<(&'a str, DataElement<'a>)>, key: Seq<char>) -> Option<
    DataElement<'a>,
>
    decreases entries.len(),
{
    if entries.len() == 0 {
        None
    } else if entries[0].0@ == key {
        Some(entries[0].1)
    } else {
        spec_lookup(entries.drop_first(), key)
    }
}

impl<'a> IsoSpecMap<'a> {
    #[verifier::type_invariant]
    spec fn keys_distinct(self) -> bool {
        distinct_texts(entry_keys(self.0@))
    }

    /// The entries, in order.
    pub closed spec fn entries(&self) -> Seq<(&'a str, DataElement<'a>)> {
        self.0@
    }

    /// A map of the given entries, whose keys are distinct.
    pub fn new(map: Vec<(&'a str, DataElement<'a>)>) -> (r: Self)
        requires
            distinct_texts(entry_keys(map@)),
        ensures
            r.entries() == map@,
    {
        Self(map)
    }

    /// A map of the given entries, or `None` where two of them have the same
    /// key.
    pub fn try_new(map: Vec<(&'a str, DataElement<'a>)>) -> (r: Option<Self>)
        ensures
            r is Some <==> distinct_texts(entry_keys(map@)),
            r matches Some(m) ==> m.entries() == map@,
    {
        let mut keys: Vec<&str> = Vec::new();
        let mut i: usize = 0;
        while i < map.len()
            invariant
                i <= map@.len(),
                keys@.len() == i,
                forall|k: int| 0 <= k < i ==> #[trigger] keys@[k] == map@[k].0,
            decreases map@.len() - i,
        {
            keys.push(map[i].0);
            i = i + 1;
        }
        assert(keys@.map_values(|k: &str| k@) =~= entry_keys(map@));
        if texts_distinct(&keys) {
            Some(Self(map))
        } else {
            None
        }
    }

    /// The data element keyed `key`, if there is one.
    pub fn get_field_spec(&self, key: &str) -> (r: Option<&DataElement<'a>>)
        ensures
            r matches Some(d) ==> spec_lookup(self.entries(), key@) == Some(*d),
            r is None ==> spec_lookup(self.entries(), key@) is None,
    {
        let mut i: usize = 0;
        assert(self.0@.skip(0) == self.0@);
        while i < self.0.len()
            invariant
                i <= self.0@.len(),
                spec_lookup(self.0@, key@) == spec_lookup(self.0@.skip(i as int), key@),
            decreases self.0@.len() - i,
        {
            let entry = &self.0[i];
            assert(self.0@.skip(i as int)[0] == *entry);
            assert(self.0@.skip(i as int).drop_first() == self.0@.skip(i + 1));
            if str_equal(entry.0, key) {
                return Some(&entry.1);
            }
            i = i + 1;
        }
        None
    }
}

} // verus!
