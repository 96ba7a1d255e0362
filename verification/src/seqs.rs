//! Facts about sequences that several modules use.

use vstd::prelude::*;

verus! {

/// Filtering one element more keeps what was kept and adds the element
/// exactly if it passes.
pub proof fn lemma_filter_take_step<A>(s: Seq<A>, k: int, pred: spec_fn(A) -> bool)
    requires
        0 <= k < s.len(),
    ensures
        s.take(k + 1).filter(pred) == if pred(s[k]) {
            s.take(k).filter(pred).push(s[k])
        } else {
            s.take(k).filter(pred)
        },
        s.take(k).filter(pred).len() <= k,
{
    reveal(Seq::filter);
    assert(s.take(k + 1).drop_last() =~= s.take(k));
    s.take(k).lemma_filter_len(pred);
}

/// Filtering nothing keeps nothing.
pub proof fn lemma_filter_empty<A>(pred: spec_fn(A) -> bool)
    ensures
        Seq::<A>::empty().filter(pred) == Seq::<A>::empty(),
{
    reveal(Seq::filter);
}

/// Filtering keeps nothing where nothing passes.
pub proof fn lemma_filter_none<A>(s: Seq<A>, pred: spec_fn(A) -> bool)
    requires
        forall|i: int| 0 <= i < s.len() ==> !pred(s[i]),
    ensures
        s.filter(pred) == Seq::<A>::empty(),
    decreases s.len(),
{
    reveal(Seq::filter);
    if s.len() > 0 {
        let earlier = s.drop_last();
        assert forall|i: int| 0 <= i < earlier.len() implies !pred(earlier[i]) by {
            assert(earlier[i] == s[i]);
        }
        lemma_filter_none(earlier, pred);
    }
}

/// Filtering an insertion is the filtering of what comes before, of the new
/// element, and of what comes after.
pub proof fn lemma_filter_insert<A>(s: Seq<A>, at: int, x: A, pred: spec_fn(A) -> bool)
    requires
        0 <= at <= s.len(),
    ensures
        s.insert(at, x).filter(pred) == s.take(at).filter(pred) + seq![x].filter(pred) + s.skip(
            at,
        ).filter(pred),
        s.filter(pred) == s.take(at).filter(pred) + s.skip(at).filter(pred),
        seq![x].filter(pred) == if pred(x) {
            seq![x]
        } else {
            Seq::<A>::empty()
        },
{
    assert(s.insert(at, x) =~= s.take(at) + seq![x] + s.skip(at));
    assert(s =~= s.take(at) + s.skip(at));
    Seq::filter_distributes_over_add(s.take(at) + seq![x], s.skip(at), pred);
    Seq::filter_distributes_over_add(s.take(at), seq![x], pred);
    Seq::filter_distributes_over_add(s.take(at), s.skip(at), pred);
    reveal_with_fuel(Seq::filter, 2);
    assert(seq![x].drop_last() =~= Seq::<A>::empty());
    assert(seq![x].last() == x);
    if pred(x) {
        assert(seq![x].filter(pred) =~= seq![x]);
    } else {
        assert(seq![x].filter(pred) =~= Seq::<A>::empty());
    }
}

/// Inserting an element adds it once and changes nothing else.
pub proof fn lemma_insert_to_multiset<A>(s: Seq<A>, at: int, x: A)
    requires
        0 <= at <= s.len(),
    ensures
        s.insert(at, x).to_multiset() == s.to_multiset().insert(x),
{
    let out = s.insert(at, x);
    assert(out.remove(at) =~= s);
    assert(out[at] == x);
    vstd::seq_lib::to_multiset_remove(out, at);
    out.to_multiset_ensures();
    assert(out.to_multiset() =~= s.to_multiset().insert(x));
}

} // verus!
