//! General facts about `Seq::filter` used by the sorting proofs.

use vstd::prelude::*;

verus! {

/// Filtering a sequence none of whose elements passes gives the empty sequence.
pub proof fn lemma_filter_none<A>(s: Seq<A>, pred: spec_fn(A) -> bool)
    requires
        forall|i: int| 0 <= i < s.len() ==> !pred(#[trigger] s[i]),
    ensures
        s.filter(pred) == Seq::<A>::empty(),
    decreases s.len(),
{
    reveal(Seq::filter);
    if s.len() > 0 {
        lemma_filter_none(s.drop_last(), pred);
    }
}

/// Filtering a one-element sequence.
pub proof fn lemma_filter_single<A>(a: A, pred: spec_fn(A) -> bool)
    ensures
        seq![a].filter(pred) == (if pred(a) { seq![a] } else { Seq::<A>::empty() }),
{
    reveal_with_fuel(Seq::filter, 2);
    assert(seq![a].drop_last() =~= Seq::<A>::empty());
}

/// Filtering distributes over concatenation.
pub proof fn lemma_filter_add<A>(a: Seq<A>, b: Seq<A>, pred: spec_fn(A) -> bool)
    ensures
        (a + b).filter(pred) == a.filter(pred) + b.filter(pred),
{
    Seq::filter_distributes_over_add(a, b, pred);
}

} // verus!
