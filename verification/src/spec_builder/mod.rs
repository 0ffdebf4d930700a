use crate::encoding::{distinct_texts, texts_distinct};
use vstd::prelude::*;

pub mod content_type;
pub mod length;
pub mod redaction_level;

pub use content_type::ContentTypeBuilder;
pub use length::LengthBuilder;
pub use redaction_level::RedactionLevelBuilder;

verus! {

/// A spec as a spec file writes it: its name, version, and data elements.
#[derive(Debug)]
pub struct IsoSpecBuilder<'a> {
    pub name: &'a str,
    pub version: u16,
    pub map: IsoSpecMapBuilder<'a>,
}

/// The data elements of a spec file, keyed by their number written in
/// decimal; no key is held twice.
#[derive(Debug)]
pub struct IsoSpecMapBuilder<'a>(Vec<(&'a str, DataElementBuilder<'a>)>);

/// The keys of the entries, as texts.
pub open spec fn builder_keys<'a>(entries: Seq<(&'a str, DataElementBuilder<'a>)>) -> Seq<
    Seq<char>,
> {
    entries.map_values(|e: (&'a str, DataElementBuilder<'a>)| e.0@)
}

impl<'a> IsoSpecMapBuilder<'a> {
    #[verifier::type_invariant]
    spec fn keys_distinct(self) -> bool {
        distinct_texts(builder_keys(self.0@))
    }

    /// The entries, in order.
    pub closed spec fn entries(&self) -> Seq<(&'a str, DataElementBuilder<'a>)> {
        self.0@
    }

    /// The data elements of the given entries, whose keys are distinct.
    pub fn new(entries: Vec<(&'a str, DataElementBuilder<'a>)>) -> (r: Self)
        requires
            distinct_texts(builder_keys(entries@)),
        ensures
            r.entries() == entries@,
    {
        Self(entries)
    }

    /// The data elements of the given entries, or `None` where two of them
    /// have the same key.
    pub fn try_new(entries: Vec<(&'a str, DataElementBuilder<'a>)>) -> (r: Option<Self>)
        ensures
            r is Some <==> distinct_texts(builder_keys(entries@)),
            r matches Some(m) ==> m.entries() == entries@,
    {
        let mut keys: Vec<&str> = Vec::new();
        let mut i: usize = 0;
        while i < entries.len()
            invariant
                i <= entries@.len(),
                keys@.len() == i,
                forall|k: int| 0 <= k < i ==> #[trigger] keys@[k] == entries@[k].0,
            decreases entries@.len() - i,
        {
            keys.push(entries[i].0);
            i = i + 1;
        }
        assert(keys@.map_values(|k: &str| k@) =~= builder_keys(entries@));
        if texts_distinct(&keys) {
            Some(Self(entries))
        } else {
            None
        }
    }

    /// The entries, in order.
    pub fn entry_list(&self) -> (r: &Vec<(&'a str, DataElementBuilder<'a>)>)
        ensures
            r@ == self.entries(),
    {
        &self.0
    }
}

/// A data element as a spec file writes it.
#[derive(Debug)]
pub struct DataElementBuilder<'a> {
    pub label: &'a str,
    pub description: &'a str,
    pub content_type: ContentTypeBuilder,
    pub redaction_level: RedactionLevelBuilder,
    pub length: LengthBuilder,
}

} // verus!
