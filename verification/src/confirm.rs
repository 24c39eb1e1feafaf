use vstd::prelude::*;
use vstd::string::*;

verus! {

/// The user's answer confirms the deletion exactly when the trimmed line is
/// `y` or `Y` — one character, nothing else.  Any other input aborts.
pub open spec fn spec_confirmed(input: Seq<char>) -> bool {
    input.len() == 1 && (input[0] == 'y' || input[0] == 'Y')
}

/// Whether a confirmation line answers yes: a case-insensitive match of
/// exactly "y".
pub fn user_confirmed(user_input: &str) -> (r: bool)
    ensures
        r == spec_confirmed(user_input@),
{
    let n = user_input.unicode_len();
    if n != 1 {
        proof {
            assert(!spec_confirmed(user_input@));
        }
        return false;
    }
    let c = user_input.get_char(0);
    c == 'y' || c == 'Y'
}

} // verus!

