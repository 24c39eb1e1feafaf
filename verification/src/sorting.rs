use vstd::prelude::*;
use vstd::seq_lib::lemma_multiset_commutative;

use crate::save_information::SaveInformation;
use crate::seq_facts::{lemma_filter_at_most_one, lemma_filter_none, lemma_filter_two};

verus! {

broadcast use vstd::seq_lib::group_to_multiset_ensures;

/// Sequence numbers never increase along the list.
pub open spec fn sorted_desc(s: Seq<SaveInformation>) -> bool {
    forall|i: int, j: int| 0 <= i <= j < s.len() ==> s[i].save_number >= s[j].save_number
}

/// Insert `x` behind every element whose sequence number is at least
/// `x.save_number`.  Inserting behind equal numbers is what keeps the sort
/// stable.
pub open spec fn insert_desc(s: Seq<SaveInformation>, x: SaveInformation) -> Seq<SaveInformation>
    decreases s.len(),
{
    if s.len() == 0 {
        seq![x]
    } else if s[0].save_number >= x.save_number {
        seq![s[0]] + insert_desc(s.drop_first(), x)
    } else {
        seq![x] + s
    }
}

/// Insertion sort of the whole list, descending by sequence number, stable.
pub open spec fn sort_desc(s: Seq<SaveInformation>) -> Seq<SaveInformation>
    decreases s.len(),
{
    if s.len() == 0 {
        Seq::empty()
    } else {
        insert_desc(sort_desc(s.drop_last()), s.last())
    }
}

pub proof fn lemma_insert_desc_len(s: Seq<SaveInformation>, x: SaveInformation)
    ensures
        insert_desc(s, x).len() == s.len() + 1,
    decreases s.len(),
{
    if s.len() > 0 && s[0].save_number >= x.save_number {
        lemma_insert_desc_len(s.drop_first(), x);
    }
}

pub proof fn lemma_insert_desc_sorted(s: Seq<SaveInformation>, x: SaveInformation)
    requires
        sorted_desc(s),
    ensures
        sorted_desc(insert_desc(s, x)),
    decreases s.len(),
{
    if s.len() == 0 {
    } else if s[0].save_number >= x.save_number {
        assert(sorted_desc(s.drop_first()));
        lemma_insert_desc_sorted(s.drop_first(), x);
        lemma_insert_desc_len(s.drop_first(), x);
        let r = seq![s[0]] + insert_desc(s.drop_first(), x);
        // every element of the inserted tail is at most s[0]'s number
        assert forall|i: int, j: int| 0 <= i <= j < r.len() implies r[i].save_number
            >= r[j].save_number by {
            if i == 0 && j > 0 {
                let t = insert_desc(s.drop_first(), x);
                assert(r[j] == t[j - 1]);
                lemma_insert_desc_element(s.drop_first(), x, j - 1);
            }
        }
    } else {
    }
}

/// Every element of `insert_desc(s, x)` is either `x` or an element of `s`.
pub proof fn lemma_insert_desc_element(s: Seq<SaveInformation>, x: SaveInformation, i: int)
    requires
        0 <= i < insert_desc(s, x).len(),
    ensures
        insert_desc(s, x)[i] == x || s.contains(insert_desc(s, x)[i]),
    decreases s.len(),
{
    if s.len() == 0 {
    } else if s[0].save_number >= x.save_number {
        if i > 0 {
            lemma_insert_desc_element(s.drop_first(), x, i - 1);
            let e = insert_desc(s, x)[i];
            if e != x {
                let k = choose|k: int| 0 <= k < s.drop_first().len() && s.drop_first()[k] == e;
                assert(s[k + 1] == e);
            }
        }
    } else {
        if i > 0 {
            assert(insert_desc(s, x)[i] == s[i - 1]);
        }
    }
}

pub proof fn lemma_sort_desc_sorted(s: Seq<SaveInformation>)
    ensures
        sorted_desc(sort_desc(s)),
        sort_desc(s).len() == s.len(),
    decreases s.len(),
{
    if s.len() > 0 {
        lemma_sort_desc_sorted(s.drop_last());
        lemma_insert_desc_sorted(sort_desc(s.drop_last()), s.last());
        lemma_insert_desc_len(sort_desc(s.drop_last()), s.last());
    }
}

pub proof fn lemma_insert_desc_multiset(s: Seq<SaveInformation>, x: SaveInformation)
    ensures
        insert_desc(s, x).to_multiset() =~= s.to_multiset().insert(x),
    decreases s.len(),
{
    if s.len() == 0 {
        assert(seq![x] =~= Seq::<SaveInformation>::empty().push(x));
    } else if s[0].save_number >= x.save_number {
        lemma_insert_desc_multiset(s.drop_first(), x);
        lemma_multiset_commutative(seq![s[0]], insert_desc(s.drop_first(), x));
        lemma_multiset_commutative(seq![s[0]], s.drop_first());
        assert(s =~= seq![s[0]] + s.drop_first());
        assert(seq![s[0]] =~= Seq::<SaveInformation>::empty().push(s[0]));
    } else {
        lemma_multiset_commutative(seq![x], s);
        assert(seq![x] =~= Seq::<SaveInformation>::empty().push(x));
    }
}

/// The sorted list holds exactly the input records, multiplicities included:
/// the sort loses and invents nothing.
pub proof fn lemma_sort_desc_multiset(s: Seq<SaveInformation>)
    ensures
        sort_desc(s).to_multiset() =~= s.to_multiset(),
    decreases s.len(),
{
    if s.len() > 0 {
        lemma_sort_desc_multiset(s.drop_last());
        lemma_insert_desc_multiset(sort_desc(s.drop_last()), s.last());
        assert(s =~= s.drop_last().push(s.last()));
    }
}

proof fn lemma_insert_desc_filter(s: Seq<SaveInformation>, x: SaveInformation, k: u16)
    requires
        sorted_desc(s),
    ensures
        insert_desc(s, x).filter(|r: SaveInformation| r.save_number == k) == (if x.save_number
            == k {
            s.filter(|r: SaveInformation| r.save_number == k).push(x)
        } else {
            s.filter(|r: SaveInformation| r.save_number == k)
        }),
    decreases s.len(),
{
    broadcast use vstd::seq_lib::group_seq_lib_default;

    let pred = |r: SaveInformation| r.save_number == k;
    reveal(Seq::filter);
    if s.len() == 0 {
        assert(seq![x] =~= Seq::<SaveInformation>::empty().push(x));
        assert(Seq::<SaveInformation>::empty().push(x).drop_last()
            =~= Seq::<SaveInformation>::empty());
    } else if s[0].save_number >= x.save_number {
        assert(sorted_desc(s.drop_first()));
        lemma_insert_desc_filter(s.drop_first(), x, k);
        assert(s =~= seq![s[0]] + s.drop_first());
        assert(Seq::<SaveInformation>::empty().filter(pred)
            == Seq::<SaveInformation>::empty());
        assert(seq![s[0]].drop_last() =~= Seq::<SaveInformation>::empty());
        assert(seq![s[0]].filter(pred) =~= (if pred(s[0]) {
            seq![s[0]]
        } else {
            Seq::<SaveInformation>::empty()
        }));
        assert((seq![s[0]] + s.drop_first()).filter(pred) == seq![s[0]].filter(pred)
            + s.drop_first().filter(pred));
        assert((seq![s[0]] + insert_desc(s.drop_first(), x)).filter(pred) == seq![s[0]].filter(
            pred,
        ) + insert_desc(s.drop_first(), x).filter(pred));
        if x.save_number == k {
            assert(seq![s[0]].filter(pred) + s.drop_first().filter(pred).push(x) =~= (seq![s[0]].filter(
                pred,
            ) + s.drop_first().filter(pred)).push(x));
        }
    } else {
        // x goes first; everything in s has a smaller number than x's
        assert((seq![x] + s).filter(pred) == seq![x].filter(pred) + s.filter(pred));
        assert(Seq::<SaveInformation>::empty().filter(pred)
            == Seq::<SaveInformation>::empty());
        assert(seq![x].drop_last() =~= Seq::<SaveInformation>::empty());
        assert(seq![x].filter(pred) =~= (if pred(x) {
            seq![x]
        } else {
            Seq::<SaveInformation>::empty()
        }));
        if x.save_number == k {
            // no element of s can carry number k, so both sides reduce to [x]
            assert forall|j: int| 0 <= j < s.len() implies !pred(#[trigger] s[j]) by {
                assert(s[0].save_number >= s[j].save_number);
            }
            lemma_filter_none(s, pred);
            assert(seq![x] + s.filter(pred) =~= s.filter(pred).push(x));
        }
    }
}

/// Stability: sorting never reorders records that share a sequence number.
/// The subsequence of records with any given number is exactly the same,
/// in the same order, before and after the sort.
pub proof fn lemma_sort_desc_stable(s: Seq<SaveInformation>, k: u16)
    ensures
        sort_desc(s).filter(|r: SaveInformation| r.save_number == k) == s.filter(
            |r: SaveInformation| r.save_number == k,
        ),
    decreases s.len(),
{
    let pred = |r: SaveInformation| r.save_number == k;
    reveal(Seq::filter);
    if s.len() > 0 {
        lemma_sort_desc_stable(s.drop_last(), k);
        lemma_sort_desc_sorted(s.drop_last());
        lemma_insert_desc_filter(sort_desc(s.drop_last()), s.last(), k);
    }
}

/// With pairwise distinct sequence numbers, the sorted list is strictly
/// descending.
pub proof fn lemma_sort_desc_strict(s: Seq<SaveInformation>)
    requires
        forall|i: int, j: int|
            0 <= i < j < s.len() ==> (#[trigger] s[i]).save_number != (#[trigger] s[j]).save_number,
    ensures
        sort_desc(s).len() == s.len(),
        forall|i: int, j: int|
            0 <= i < j < sort_desc(s).len() ==> (#[trigger] sort_desc(s)[i]).save_number
                > (#[trigger] sort_desc(s)[j]).save_number,
{
    lemma_sort_desc_sorted(s);
    let r = sort_desc(s);
    assert forall|i: int, j: int|
        0 <= i < j < r.len() implies (#[trigger] r[i]).save_number
        > (#[trigger] r[j]).save_number by {
        assert(r[i].save_number >= r[j].save_number);
        if r[i].save_number == r[j].save_number {
            let k = r[i].save_number;
            let pred = |rec: SaveInformation| rec.save_number == k;
            lemma_sort_desc_stable(s, k);
            lemma_filter_two(r, pred, i, j);
            assert forall|a: int, b: int| 0 <= a < b < s.len() implies !(pred(s[a]) && pred(
                s[b],
            )) by {
                assert(s[a].save_number != s[b].save_number);
            }
            lemma_filter_at_most_one(s, pred);
        }
    }
}

// ---------------------------------------------------------------------------
// Executable sort
// ---------------------------------------------------------------------------
/// Where the spec inserts `x` into the sorted list `s`: past every element
/// with a number at least `x`'s, i.e. at the first strictly smaller one.
proof fn lemma_insert_desc_at(s: Seq<SaveInformation>, x: SaveInformation, j: int)
    requires
        sorted_desc(s),
        0 <= j <= s.len(),
        forall|t: int| 0 <= t < j ==> s[t].save_number >= x.save_number,
        j < s.len() ==> s[j].save_number < x.save_number,
    ensures
        insert_desc(s, x) == s.subrange(0, j) + seq![x] + s.subrange(j, s.len() as int),
    decreases j,
{
    if s.len() == 0 {
        assert(insert_desc(s, x) =~= s.subrange(0, j) + seq![x] + s.subrange(j, s.len() as int));
    } else if s[0].save_number >= x.save_number {
        assert(j >= 1);
        assert(sorted_desc(s.drop_first()));
        lemma_insert_desc_at(s.drop_first(), x, j - 1);
        let d = s.drop_first();
        assert(insert_desc(s, x) == seq![s[0]] + (d.subrange(0, j - 1) + seq![x] + d.subrange(
            j - 1,
            d.len() as int,
        )));
        assert(seq![s[0]] + (d.subrange(0, j - 1) + seq![x] + d.subrange(j - 1, d.len() as int))
            =~= s.subrange(0, j) + seq![x] + s.subrange(j, s.len() as int));
    } else {
        assert(j == 0);
        assert(seq![x] + s =~= s.subrange(0, 0) + seq![x] + s.subrange(0, s.len() as int));
    }
}

/// The list reordered so that sequence numbers descend; records with equal
/// numbers keep their relative order.
pub fn sort_saves(saves: Vec<SaveInformation>) -> (r: Vec<SaveInformation>)
    ensures
        r@ == sort_desc(saves@),
{
    let ghost orig = saves@;
    let total = saves.len();
    proof {
        assert(orig.len() == total);
    }
    let mut input = saves;
    let mut out: Vec<SaveInformation> = Vec::new();
    let mut i: usize = 0;
    while input.len() > 0
        invariant
            orig.len() <= usize::MAX,
            i + input@.len() == orig.len(),
            input@ == orig.subrange(i as int, orig.len() as int),
            out@ == sort_desc(orig.subrange(0, i as int)),
        decreases input@.len(),
    {
        let x = input.remove(0);
        proof {
            assert(x == orig[i as int]);
            assert(input@ =~= orig.subrange(i as int + 1, orig.len() as int));
        }
        let mut pos: usize = 0;
        while pos < out.len() && out[pos].save_number >= x.save_number
            invariant
                0 <= pos <= out@.len(),
                forall|t: int| 0 <= t < pos ==> out@[t].save_number >= x.save_number,
            decreases out@.len() - pos,
        {
            pos += 1;
        }
        proof {
            lemma_sort_desc_sorted(orig.subrange(0, i as int));
            lemma_insert_desc_at(out@, x, pos as int);
            let p1 = orig.subrange(0, i as int + 1);
            assert(p1.drop_last() =~= orig.subrange(0, i as int));
            assert(p1.last() == orig[i as int]);
            assert(out@.insert(pos as int, x) =~= out@.subrange(0, pos as int) + seq![x]
                + out@.subrange(pos as int, out@.len() as int));
        }
        out.insert(pos, x);
        i += 1;
    }
    proof {
        assert(orig.subrange(0, orig.len() as int) =~= orig);
    }
    out
}

} // verus!
