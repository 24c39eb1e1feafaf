use vstd::prelude::*;

verus! {

/// The category of a save folder, recognised by a case-insensitive substring
/// of its name: "quicksave" wins over "autosave"; anything else is
/// `Unrecognized` and never enters a retention group.
#[derive(Debug, Clone, Copy, PartialEq, Eq, Structural)]
pub enum SaveType {
    Quick,
    Auto,
    Unrecognized,
}

} // verus!
