use crate::encoding::distinct_texts;
use crate::iso_message::{data_keys, data_view, IsoMessage};
use crate::spec::IsoSpec;
use vstd::prelude::*;

verus! {

/// Messages of the Mastercard authorization spec of 1987.
pub struct McAuthIsoMessage;

impl McAuthIsoMessage {
    /// A message with the given data, read and set with `spec`, which the
    /// caller supplies as the Mastercard authorization spec.
    pub fn new<'a>(spec: &'a IsoSpec<'a>, data: Vec<(String, String)>) -> (r: IsoMessage<'a>)
        requires
            distinct_texts(data_keys(data@)),
        ensures
            r.data() == data_view(data@),
            r.spec_entries() == spec.map.entries(),
    {
        IsoMessage::new(spec, data)
    }

    /// A message of the Mastercard authorization spec as `new` makes it, or
    /// `None` where two of the pairs have the same key.
    pub fn try_new<'a>(spec: &'a IsoSpec<'a>, data: Vec<(String, String)>) -> (r: Option<
        IsoMessage<'a>,
    >)
        ensures
            r is Some <==> distinct_texts(data_keys(data@)),
            r matches Some(m) ==> m.data() == data_view(data@) && m.spec_entries()
                == spec.map.entries(),
    {
        IsoMessage::try_new(spec, data)
    }
}

} // verus!
