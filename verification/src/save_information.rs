use vstd::prelude::*;

use crate::save_type::SaveType;

verus! {

/// One parsed save folder.  `character_name` is the part of `file_name`
/// before its first `-` (which is never at index 0), and `save_number` is the
/// last `_`-delimited token of `file_name` read as a 16-bit number.
#[derive(Debug, Clone)]
pub struct SaveInformation {
    pub file_name: String,
    pub character_name: String,
    pub save_type: SaveType,
    pub save_number: u16,
}

impl SaveInformation {
    pub fn new(
        file_name: String,
        character_name: String,
        save_type: SaveType,
        save_number: u16,
    ) -> (r: Self)
        ensures
            r.file_name == file_name,
            r.character_name == character_name,
            r.save_type == save_type,
            r.save_number == save_number,
    {
        SaveInformation { file_name, character_name, save_type, save_number }
    }
}

impl PartialEq for SaveInformation {
    fn eq(&self, other: &Self) -> (r: bool) {
        self.file_name == other.file_name && self.character_name == other.character_name
            && self.save_type == other.save_type && self.save_number == other.save_number
    }
}

impl vstd::std_specs::cmp::PartialEqSpecImpl for SaveInformation {
    open spec fn obeys_eq_spec() -> bool {
        true
    }

    open spec fn eq_spec(&self, other: &Self) -> bool {
        self.file_name@ == other.file_name@ && self.character_name@ == other.character_name@
            && self.save_type == other.save_type && self.save_number == other.save_number
    }
}

} // verus!
