use vstd::prelude::*;

use crate::save_information::SaveInformation;
use crate::save_type::SaveType;

verus! {

/// One character's saves, split by category.  Unrecognized records are never
/// stored here.
#[derive(Debug, Clone)]
pub struct Saves {
    pub quick_saves: Vec<SaveInformation>,
    pub auto_saves: Vec<SaveInformation>,
}

impl Saves {
    pub fn new() -> (r: Self)
        ensures
            r.quick_saves@ == Seq::<SaveInformation>::empty(),
            r.auto_saves@ == Seq::<SaveInformation>::empty(),
    {
        Saves { quick_saves: Vec::new(), auto_saves: Vec::new() }
    }

    /// Every record stored under this group carries the given character name
    /// and the category of the list that holds it.
    pub open spec fn wf(self, name: Seq<char>) -> bool {
        &&& forall|i: int|
            0 <= i < self.quick_saves@.len() ==> (#[trigger] self.quick_saves@[i]).character_name@
                == name && self.quick_saves@[i].save_type == SaveType::Quick
        &&& forall|i: int|
            0 <= i < self.auto_saves@.len() ==> (#[trigger] self.auto_saves@[i]).character_name@
                == name && self.auto_saves@[i].save_type == SaveType::Auto
    }
}

} // verus!
