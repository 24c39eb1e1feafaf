use vstd::prelude::*;

use crate::grouping::{GroupEntry, GroupTable};
use crate::save_information::SaveInformation;
use crate::sorting::sorted_desc;

verus! {

/// What remains of a list once its first `preserve` entries are kept back:
/// the deletion candidates it contributes.
pub open spec fn past_preserve(s: Seq<SaveInformation>, preserve: int) -> Seq<SaveInformation> {
    if preserve >= s.len() {
        Seq::empty()
    } else {
        s.subrange(preserve, s.len() as int)
    }
}

/// All deletion candidates of a table, slot by slot, each slot contributing
/// its quick candidates before its auto candidates.
pub open spec fn delete_list(entries: Seq<GroupEntry>, preserve: int) -> Seq<SaveInformation>
    decreases entries.len(),
{
    if entries.len() == 0 {
        Seq::empty()
    } else {
        delete_list(entries.drop_last(), preserve) + past_preserve(
            entries.last().saves.quick_saves@,
            preserve,
        ) + past_preserve(entries.last().saves.auto_saves@, preserve)
    }
}

/// Everything past the `number_to_preserve` most recent entries of one
/// (descending-sorted) list.
pub fn deletable_saves(saves: Vec<SaveInformation>, number_to_preserve: usize) -> (r: Vec<
    SaveInformation,
>)
    ensures
        r@ == past_preserve(saves@, number_to_preserve as int),
{
    let ghost orig = saves@;
    let mut r = saves;
    let mut count: usize = 0;
    while count < number_to_preserve && r.len() > 0
        invariant
            0 <= count <= number_to_preserve,
            count <= orig.len(),
            r@ == past_preserve(orig, count as int),
        decreases r@.len(),
    {
        r.remove(0);
        count += 1;
        proof {
            assert(r@ =~= past_preserve(orig, count as int));
        }
    }
    proof {
        if count < number_to_preserve {
            // the list ran out first: everything past `count` is already gone
            assert(past_preserve(orig, count as int).len() == 0);
            assert(count >= orig.len());
            assert(past_preserve(orig, number_to_preserve as int) =~= r@);
        }
    }
    r
}

/// Walk the table and collect, per character, the quick then the auto
/// candidates, each list past its `number_to_preserve` newest entries.
pub fn get_delete_vec(map: GroupTable, number_to_preserve: usize) -> (r: Vec<SaveInformation>)
    ensures
        r@ == delete_list(map.entries@, number_to_preserve as int),
{
    let ghost orig = map.entries@;
    let total = map.entries.len();
    let mut input = map.entries;
    let mut out: Vec<SaveInformation> = Vec::new();
    let mut i: usize = 0;
    while input.len() > 0
        invariant
            orig.len() == total,
            i + input@.len() == orig.len(),
            input@ == orig.subrange(i as int, orig.len() as int),
            out@ == delete_list(orig.subrange(0, i as int), number_to_preserve as int),
        decreases input@.len(),
    {
        let e = input.remove(0);
        proof {
            assert(e == orig[i as int]);
            assert(input@ =~= orig.subrange(i as int + 1, orig.len() as int));
        }
        let GroupEntry { name: _, saves } = e;
        let crate::saves::Saves { quick_saves, auto_saves } = saves;
        let mut dq = deletable_saves(quick_saves, number_to_preserve);
        let mut da = deletable_saves(auto_saves, number_to_preserve);
        out.append(&mut dq);
        out.append(&mut da);
        proof {
            let prefix = orig.subrange(0, i as int);
            let prefix1 = orig.subrange(0, i as int + 1);
            assert(prefix1.drop_last() =~= prefix);
            assert(prefix1.last() == orig[i as int]);
            assert(out@ =~= delete_list(prefix1, number_to_preserve as int));
        }
        i += 1;
    }
    proof {
        assert(orig.subrange(0, orig.len() as int) =~= orig);
    }
    out
}

// ---------------------------------------------------------------------------
// Retention law
// ---------------------------------------------------------------------------
/// On a descending-sorted list of length L with preserve count P, the
/// candidates are exactly the entries from position P on — the L - P (or
/// zero) lowest-numbered ones.  P at least L keeps everything; P of zero
/// deletes everything; and no kept entry has a smaller number than any
/// candidate.
pub proof fn lemma_retention_selection(s: Seq<SaveInformation>, preserve: int)
    requires
        0 <= preserve,
        sorted_desc(s),
    ensures
        past_preserve(s, preserve).len() == (if s.len() >= preserve {
            s.len() - preserve
        } else {
            0int
        }),
        preserve == 0 ==> past_preserve(s, preserve) == s,
        preserve >= s.len() ==> past_preserve(s, preserve) == Seq::<SaveInformation>::empty(),
        forall|j: int|
            0 <= j < past_preserve(s, preserve).len() ==> #[trigger] past_preserve(s, preserve)[j]
                == s[preserve + j],
        forall|i: int, j: int|
            0 <= i < preserve && 0 <= j < past_preserve(s, preserve).len() ==> (
            #[trigger] s[i]).save_number >= (#[trigger] past_preserve(s, preserve)[j]).save_number,
{
    if preserve == 0 {
        assert(past_preserve(s, preserve) =~= s);
    }
}

} // verus!
