use vstd::prelude::*;

pub mod content_type;
pub mod data_element;
pub mod iso_map;
pub mod length;
pub mod redaction_level;

use iso_map::IsoSpecMap;

verus! {

/// A message spec: its name, version, and data elements.
#[derive(Debug)]
pub struct IsoSpec<'a> {
    pub name: &'a str,
    pub version: u16,
    pub map: IsoSpecMap<'a>,
}

} // verus!
