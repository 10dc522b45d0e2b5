use vstd::prelude::*;

verus! {

/// Filtering keeps everything when every element satisfies the predicate.
pub proof fn lemma_filter_all_true<T>(s: Seq<T>, pred: spec_fn(T) -> bool)
    requires
        forall|i: int| 0 <= i < s.len() ==> pred(#[trigger] s[i]),
    ensures
        s.filter(pred) == s,
    decreases s.len(),
{
    reveal(Seq::filter);
    if s.len() > 0 {
        lemma_filter_all_true(s.drop_last(), pred);
        assert(s.drop_last().push(s.last()) =~= s);
    }
}

/// Filtering keeps nothing when no element satisfies the predicate.
pub proof fn lemma_filter_all_false<T>(s: Seq<T>, pred: spec_fn(T) -> bool)
    requires
        forall|i: int| 0 <= i < s.len() ==> !pred(#[trigger] s[i]),
    ensures
        s.filter(pred) == Seq::<T>::empty(),
    decreases s.len(),
{
    reveal(Seq::filter);
    if s.len() > 0 {
        lemma_filter_all_false(s.drop_last(), pred);
    }
}

/// When the elements satisfying `pred` form exactly the contiguous index
/// range `[a, b)`, filtering by `pred` yields that range, and filtering by
/// its negation yields the two flanks joined.
pub proof fn lemma_contiguous_filter<T>(s: Seq<T>, pred: spec_fn(T) -> bool, a: int, b: int)
    requires
        0 <= a <= b <= s.len(),
        forall|i: int| 0 <= i < a ==> !pred(#[trigger] s[i]),
        forall|i: int| a <= i < b ==> pred(#[trigger] s[i]),
        forall|i: int| b <= i < s.len() ==> !pred(#[trigger] s[i]),
    ensures
        s.filter(pred) == s.subrange(a, b),
        s.filter(|x: T| !pred(x)) == s.subrange(0, a) + s.subrange(b, s.len() as int),
{
    let s0 = s.subrange(0, a);
    let s1 = s.subrange(a, b);
    let s2 = s.subrange(b, s.len() as int);
    assert(s =~= (s0 + s1) + s2);
    Seq::filter_distributes_over_add(s0 + s1, s2, pred);
    Seq::filter_distributes_over_add(s0, s1, pred);
    lemma_filter_all_false(s0, pred);
    lemma_filter_all_true(s1, pred);
    lemma_filter_all_false(s2, pred);
    assert(s.filter(pred) =~= s1);

    let npred = |x: T| !pred(x);
    Seq::filter_distributes_over_add(s0 + s1, s2, npred);
    Seq::filter_distributes_over_add(s0, s1, npred);
    lemma_filter_all_true(s0, npred);
    lemma_filter_all_false(s1, npred);
    lemma_filter_all_true(s2, npred);
    assert(s.filter(npred) =~= s0 + s2);
}

/// Removing one element from a sequence shrinks a filtered view by that
/// element's own contribution.
pub proof fn lemma_filter_remove<T>(s: Seq<T>, pred: spec_fn(T) -> bool, i: int)
    requires
        0 <= i < s.len(),
    ensures
        s.remove(i).filter(pred).len() == s.filter(pred).len() - (if pred(s[i]) {
            1int
        } else {
            0int
        }),
{
    let s0 = s.subrange(0, i);
    let s1 = s.subrange(i, i + 1);
    let s2 = s.subrange(i + 1, s.len() as int);
    assert(s =~= (s0 + s1) + s2);
    assert(s.remove(i) =~= s0 + s2);
    Seq::filter_distributes_over_add(s0 + s1, s2, pred);
    Seq::filter_distributes_over_add(s0, s1, pred);
    Seq::filter_distributes_over_add(s0, s2, pred);
    reveal_with_fuel(Seq::filter, 2);
    assert(s1 =~= Seq::<T>::empty().push(s[i]));
    assert(s1.drop_last() =~= Seq::<T>::empty());
    assert(s1.filter(pred).len() == (if pred(s[i]) { 1int } else { 0int }));
}

/// Splitting out a contiguous range splits the multiset: the flanks joined,
/// plus the range, hold exactly the original elements.
pub proof fn lemma_split_multiset<T>(s: Seq<T>, a: int, b: int)
    requires
        0 <= a <= b <= s.len(),
    ensures
        (s.subrange(0, a) + s.subrange(b, s.len() as int)).to_multiset().add(
            s.subrange(a, b).to_multiset(),
        ) == s.to_multiset(),
{
    broadcast use vstd::multiset::group_multiset_axioms;

    let s0 = s.subrange(0, a);
    let s1 = s.subrange(a, b);
    let s2 = s.subrange(b, s.len() as int);
    vstd::seq_lib::lemma_multiset_commutative(s0, s2);
    vstd::seq_lib::lemma_multiset_commutative(s0 + s1, s2);
    vstd::seq_lib::lemma_multiset_commutative(s0, s1);
    assert(s =~= (s0 + s1) + s2);
    assert((s0 + s2).to_multiset().add(s1.to_multiset()) =~= s.to_multiset());
}

/// The subsequence of `s` selected by the boolean mask `keep`: element `i`
/// stays exactly when `keep[i]` holds, and survivors keep their relative
/// order.
pub open spec fn masked<T>(s: Seq<T>, keep: Seq<bool>) -> Seq<T>
    recommends
        s.len() == keep.len(),
    decreases s.len(),
{
    if s.len() == 0 || keep.len() == 0 {
        Seq::<T>::empty()
    } else if keep.last() {
        masked(s.drop_last(), keep.drop_last()).push(s.last())
    } else {
        masked(s.drop_last(), keep.drop_last())
    }
}

/// Every element of a masked sequence comes from the source sequence.
pub proof fn lemma_masked_membership<T>(s: Seq<T>, keep: Seq<bool>)
    requires
        s.len() == keep.len(),
    ensures
        forall|p: int|
            0 <= p < masked(s, keep).len() ==> s.contains(#[trigger] masked(s, keep)[p]),
    decreases s.len(),
{
    if s.len() > 0 {
        let dl = s.drop_last();
        let kdl = keep.drop_last();
        let prev = masked(dl, kdl);
        lemma_masked_membership(dl, kdl);
        assert forall|p: int| 0 <= p < masked(s, keep).len() implies s.contains(
            #[trigger] masked(s, keep)[p],
        ) by {
            if p < prev.len() {
                assert(masked(s, keep)[p] == prev[p]);
                assert(dl.contains(prev[p]));
                let i = choose|i: int| 0 <= i < dl.len() && dl[i] == prev[p];
                assert(s[i] == prev[p]);
            } else {
                assert(masked(s, keep)[p] == s[s.len() - 1]);
            }
        }
    }
}

/// Filtering by a predicate and by its negation partitions the multiset of
/// elements.
pub proof fn lemma_filter_partition_multiset<T>(s: Seq<T>, pred: spec_fn(T) -> bool)
    ensures
        s.filter(pred).to_multiset().add(s.filter(|x: T| !pred(x)).to_multiset())
            == s.to_multiset(),
    decreases s.len(),
{
    broadcast use vstd::multiset::group_multiset_axioms;

    reveal(Seq::filter);
    let npred = |x: T| !pred(x);
    if s.len() == 0 {
        vstd::seq_lib::to_multiset_len(s);
        assert(s.filter(pred).to_multiset().add(s.filter(npred).to_multiset())
            =~= s.to_multiset());
    } else {
        let dl = s.drop_last();
        let x = s.last();
        lemma_filter_partition_multiset(dl, pred);
        assert(s =~= dl.push(x));
        vstd::seq_lib::to_multiset_build(dl, x);
        if pred(x) {
            vstd::seq_lib::to_multiset_build(dl.filter(pred), x);
            assert(s.filter(pred) == dl.filter(pred).push(x));
            assert(s.filter(npred) == dl.filter(npred));
        } else {
            vstd::seq_lib::to_multiset_build(dl.filter(npred), x);
            assert(s.filter(pred) == dl.filter(pred));
            assert(s.filter(npred) == dl.filter(npred).push(x));
        }
        assert(s.filter(pred).to_multiset().add(s.filter(npred).to_multiset())
            =~= s.to_multiset());
    }
}

/// A filtered view's length depends only on the multiset of elements, not on
/// their arrangement.
pub proof fn lemma_filter_len_multiset<T>(s1: Seq<T>, s2: Seq<T>, pred: spec_fn(T) -> bool)
    requires
        s1.to_multiset() == s2.to_multiset(),
    ensures
        s1.filter(pred).len() == s2.filter(pred).len(),
    decreases s1.len(),
{
    broadcast use vstd::seq_lib::group_to_multiset_ensures;
    broadcast use vstd::multiset::group_multiset_axioms;

    vstd::seq_lib::to_multiset_len(s1);
    vstd::seq_lib::to_multiset_len(s2);
    if s1.len() == 0 {
        lemma_filter_all_false(s1, pred);
        lemma_filter_all_false(s2, pred);
    } else {
        let x = s1.last();
        vstd::seq_lib::to_multiset_contains(s1, x);
        vstd::seq_lib::to_multiset_contains(s2, x);
        assert(s2.contains(x));
        let j = choose|j: int| 0 <= j < s2.len() && s2[j] == x;
        let i = s1.len() - 1;
        vstd::seq_lib::to_multiset_remove(s1, i);
        vstd::seq_lib::to_multiset_remove(s2, j);
        lemma_filter_len_multiset(s1.remove(i), s2.remove(j), pred);
        lemma_filter_remove(s1, pred, i);
        lemma_filter_remove(s2, pred, j);
    }
}

} // verus!
