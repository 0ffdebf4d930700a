use crate::encoding::str_equal;
use vstd::prelude::*;

verus! {

/// For each response MTI, the data elements that a response keeps.
pub struct ResponseFields {
    pub entries: Vec<(String, Vec<u8>)>,
}

/// The data elements kept for `mti`: those of the first entry for it.
pub open spec fn fields_to_keep(entries: Seq<(String, Vec<u8>)>, mti: Seq<char>) -> Option<Seq<u8>>
    decreases entries.len(),
{
    if entries.len() == 0 {
        None
    } else if entries[0].0@ == mti {
        Some(entries[0].1@)
    } else {
        fields_to_keep(entries.drop_first(), mti)
    }
}

impl ResponseFields {
    /// The data elements that a response with this MTI keeps, if listed.
    pub fn get(&self, mti: &str) -> (r: Option<&Vec<u8>>)
        ensures
            r matches Some(v) ==> fields_to_keep(self.entries@, mti@) == Some(v@),
            r is None ==> fields_to_keep(self.entries@, mti@) is None,
    {
        let mut i: usize = 0;
        assert(self.entries@.skip(0) == self.entries@);
        while i < self.entries.len()
            invariant
                i <= self.entries@.len(),
                fields_to_keep(self.entries@, mti@) == fields_to_keep(
                    self.entries@.skip(i as int),
                    mti@,
                ),
            decreases self.entries@.len() - i,
        {
            let entry = &self.entries[i];
            assert(self.entries@.skip(i as int)[0] == *entry);
            assert(self.entries@.skip(i as int).drop_first() == self.entries@.skip(i + 1));
            if str_equal(entry.0.as_str(), mti) {
                return Some(&entry.1);
            }
            i = i + 1;
        }
        None
    }
}

} // verus!
