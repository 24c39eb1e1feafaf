use vstd::prelude::*;

verus! {

/// Filtering a sequence with no matching element yields the empty sequence.
pub proof fn lemma_filter_none<A>(s: Seq<A>, pred: spec_fn(A) -> bool)
    requires
        forall|j: int| 0 <= j < s.len() ==> !pred(#[trigger] s[j]),
    ensures
        s.filter(pred) == Seq::<A>::empty(),
    decreases s.len(),
{
    reveal(Seq::filter);
    if s.len() > 0 {
        assert forall|j: int| 0 <= j < s.drop_last().len() implies !pred(
            #[trigger] s.drop_last()[j],
        ) by {
            assert(s.drop_last()[j] == s[j]);
        }
        lemma_filter_none(s.drop_last(), pred);
    }
    assert(s.filter(pred) =~= Seq::<A>::empty());
}

/// Filtering commutes with appending one element.
pub proof fn lemma_filter_push<A>(s: Seq<A>, pred: spec_fn(A) -> bool, x: A)
    ensures
        s.push(x).filter(pred) == (if pred(x) {
            s.filter(pred).push(x)
        } else {
            s.filter(pred)
        }),
{
    reveal(Seq::filter);
    assert(s.push(x).drop_last() =~= s);
    assert(s.push(x).last() == x);
}

/// If no two positions both match, the filtered sequence has at most one
/// element.
pub proof fn lemma_filter_at_most_one<A>(s: Seq<A>, pred: spec_fn(A) -> bool)
    requires
        forall|i: int, j: int| 0 <= i < j < s.len() ==> !(pred(s[i]) && pred(s[j])),
    ensures
        s.filter(pred).len() <= 1,
    decreases s.len(),
{
    reveal(Seq::filter);
    if s.len() > 0 {
        let d = s.drop_last();
        assert forall|i: int, j: int| 0 <= i < j < d.len() implies !(pred(d[i]) && pred(
            d[j],
        )) by {
            assert(d[i] == s[i] && d[j] == s[j]);
        }
        lemma_filter_at_most_one(d, pred);
        if pred(s.last()) {
            assert forall|j: int| 0 <= j < d.len() implies !pred(#[trigger] d[j]) by {
                assert(d[j] == s[j]);
                assert(!(pred(s[j]) && pred(s[s.len() - 1])));
            }
            lemma_filter_none(d, pred);
        }
    }
}

/// Two matching positions force at least two filtered elements.
pub proof fn lemma_filter_two<A>(s: Seq<A>, pred: spec_fn(A) -> bool, i: int, j: int)
    requires
        0 <= i < j < s.len(),
        pred(s[i]),
        pred(s[j]),
    ensures
        s.filter(pred).len() >= 2,
    decreases s.len(),
{
    broadcast use vstd::seq_lib::group_filter_ensures;

    reveal(Seq::filter);
    let d = s.drop_last();
    if j == s.len() - 1 {
        assert(d[i] == s[i]);
        assert(d.filter(pred).contains(d[i]));
        assert(d.filter(pred).len() >= 1);
    } else {
        assert(d[i] == s[i] && d[j] == s[j]);
        lemma_filter_two(d, pred, i, j);
    }
}

} // verus!
