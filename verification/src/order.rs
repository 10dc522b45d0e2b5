use vstd::prelude::*;
use core::cmp::Ordering;

verus! {

/// The capability of comparing two values under a possibly *weak* ordering:
/// two distinct values may compare `Equal`, which groups them into one
/// equivalence class, while the relation still behaves like a valid ordering
/// (trichotomous per pair, transitive) over every pair that is compared.
///
/// Implementations must discharge the three lemma obligations below; they are
/// exactly the strict-weak-ordering laws that `OrdBySet` relies on.
pub trait Order<T>: Sized {
    /// The mathematical comparison this orderer computes.
    spec fn ord_spec(&self, left: T, right: T) -> Ordering;

    /// Every value is order-equivalent to itself.
    proof fn lemma_reflexive(&self, a: T)
        ensures
            self.ord_spec(a, a) == Ordering::Equal,
    ;

    /// Swapping the operands swaps `Less` and `Greater`.
    proof fn lemma_dual(&self, a: T, b: T)
        ensures
            (self.ord_spec(a, b) == Ordering::Less) <==> (self.ord_spec(b, a)
                == Ordering::Greater),
    ;

    /// `Less`/`Equal` chains compose: not-greater is transitive, and the
    /// composition is strict whenever one link is strict.
    proof fn lemma_transitive(&self, a: T, b: T, c: T)
        requires
            self.ord_spec(a, b) != Ordering::Greater,
            self.ord_spec(b, c) != Ordering::Greater,
        ensures
            self.ord_spec(a, c) != Ordering::Greater,
            (self.ord_spec(a, b) == Ordering::Less || self.ord_spec(b, c) == Ordering::Less)
                ==> self.ord_spec(a, c) == Ordering::Less,
            (self.ord_spec(a, b) == Ordering::Equal && self.ord_spec(b, c) == Ordering::Equal)
                ==> self.ord_spec(a, c) == Ordering::Equal,
    ;

    /// Compares `left` and `right`, returning whether the first is less than,
    /// order-equivalent to, or greater than the second.
    fn order_of(&self, left: &T, right: &T) -> (r: Ordering)
        ensures
            r == self.ord_spec(*left, *right),
    ;

}

/// `s` is sorted non-decreasingly under the orderer `o`: no earlier element
/// compares `Greater` to a later one.
pub open spec fn ordered_by<T, O: Order<T>>(o: O, s: Seq<T>) -> bool {
    forall|i: int, j: int|
        0 <= i < j < s.len() ==> #[trigger] o.ord_spec(s[i], s[j]) != Ordering::Greater
}

/// Order-equivalence is symmetric (derived from duality).
pub proof fn lemma_eqv_symmetric<T, O: Order<T>>(o: &O, a: T, b: T)
    ensures
        (o.ord_spec(a, b) == Ordering::Equal) <==> (o.ord_spec(b, a) == Ordering::Equal),
{
    o.lemma_dual(a, b);
    o.lemma_dual(b, a);
}

/// Removing one element from a sorted sequence keeps it sorted.
pub proof fn lemma_ordered_remove<T, O: Order<T>>(o: O, s: Seq<T>, i: int)
    requires
        ordered_by(o, s),
        0 <= i < s.len(),
    ensures
        ordered_by(o, s.remove(i)),
{
    let out = s.remove(i);
    s.remove_ensures(i);
    assert forall|p: int, q: int|
        0 <= p < q < out.len() implies #[trigger] o.ord_spec(out[p], out[q])
        != Ordering::Greater by {
        if p < i {
            if q < i {
                assert(out[p] == s[p] && out[q] == s[q]);
            } else {
                assert(out[p] == s[p] && out[q] == s[q + 1]);
            }
        } else {
            assert(out[p] == s[p + 1] && out[q] == s[q + 1]);
        }
    }
}

/// Selecting a subsequence of a sorted sequence keeps it sorted.
pub proof fn lemma_masked_ordered<T, O: Order<T>>(o: O, s: Seq<T>, keep: Seq<bool>)
    requires
        ordered_by(o, s),
        s.len() == keep.len(),
    ensures
        ordered_by(o, crate::seq_facts::masked(s, keep)),
    decreases s.len(),
{
    if s.len() > 0 {
        let dl = s.drop_last();
        let out = crate::seq_facts::masked(s, keep);
        let prev = crate::seq_facts::masked(dl, keep.drop_last());
        lemma_masked_ordered(o, dl, keep.drop_last());
        crate::seq_facts::lemma_masked_membership(dl, keep.drop_last());
        if keep.last() {
            assert forall|p: int, q: int|
                0 <= p < q < out.len() implies #[trigger] o.ord_spec(out[p], out[q])
                != Ordering::Greater by {
                if q == out.len() - 1 {
                    assert(out[p] == prev[p]);
                    assert(dl.contains(prev[p]));
                    let i = choose|i: int| 0 <= i < dl.len() && dl[i] == prev[p];
                    assert(prev[p] == s[i]);
                    assert(out[q] == s[s.len() - 1]);
                    assert(o.ord_spec(s[i], s[s.len() - 1]) != Ordering::Greater);
                } else {
                    assert(out[p] == prev[p] && out[q] == prev[q]);
                }
            }
        }
    }
}

/// Insertion-order independence: under an orderer whose equivalence implies
/// real equality (a total order), any two sorted arrangements of the same
/// multiset of values are one and the same sequence — so inserting values one
/// at a time and bulk-sorting them must yield the same storage.
pub proof fn lemma_sorted_arrangement_unique<T, O: Order<T>>(o: O, s1: Seq<T>, s2: Seq<T>)
    requires
        ordered_by(o, s1),
        ordered_by(o, s2),
        s1.to_multiset() == s2.to_multiset(),
        forall|a: T, b: T| #[trigger] o.ord_spec(a, b) == Ordering::Equal ==> a == b,
    ensures
        s1 == s2,
{
    let leq = |a: T, b: T| o.ord_spec(a, b) != Ordering::Greater;
    assert(vstd::relations::total_ordering(leq)) by {
        assert forall|a: T| #[trigger] leq(a, a) by {
            o.lemma_reflexive(a);
        }
        assert forall|a: T, b: T| #[trigger] leq(a, b) && #[trigger] leq(b, a) implies a == b by {
            o.lemma_dual(a, b);
            o.lemma_dual(b, a);
            assert(o.ord_spec(a, b) == Ordering::Equal);
        }
        assert forall|a: T, b: T, c: T| #[trigger] leq(a, b) && #[trigger] leq(b, c) implies leq(
            a,
            c,
        ) by {
            o.lemma_transitive(a, b, c);
        }
        assert forall|a: T, b: T| !(#[trigger] leq(a, b)) implies leq(b, a) by {
            o.lemma_dual(b, a);
        }
    }
    assert(vstd::relations::sorted_by(s1, leq));
    assert(vstd::relations::sorted_by(s2, leq));
    vstd::seq_lib::lemma_sorted_unique(s1, s2, leq);
}

/// An ordering implementation that just defers to the value's natural total
/// order; provided here for the primitive integer widths the crate's examples
/// and tests use.
#[derive(Clone, Copy, Default, PartialEq, Eq, Structural, Debug)]
pub struct FullOrd;

impl Order<u64> for FullOrd {
    open spec fn ord_spec(&self, left: u64, right: u64) -> Ordering {
        if left < right {
            Ordering::Less
        } else if left == right {
            Ordering::Equal
        } else {
            Ordering::Greater
        }
    }

    proof fn lemma_reflexive(&self, a: u64) {
    }

    proof fn lemma_dual(&self, a: u64, b: u64) {
    }

    proof fn lemma_transitive(&self, a: u64, b: u64, c: u64) {
    }

    fn order_of(&self, left: &u64, right: &u64) -> (r: Ordering) {
        if *left < *right {
            Ordering::Less
        } else if *left == *right {
            Ordering::Equal
        } else {
            Ordering::Greater
        }
    }
}

impl Order<i32> for FullOrd {
    open spec fn ord_spec(&self, left: i32, right: i32) -> Ordering {
        if left < right {
            Ordering::Less
        } else if left == right {
            Ordering::Equal
        } else {
            Ordering::Greater
        }
    }

    proof fn lemma_reflexive(&self, a: i32) {
    }

    proof fn lemma_dual(&self, a: i32, b: i32) {
    }

    proof fn lemma_transitive(&self, a: i32, b: i32, c: i32) {
    }

    fn order_of(&self, left: &i32, right: &i32) -> (r: Ordering) {
        if *left < *right {
            Ordering::Less
        } else if *left == *right {
            Ordering::Equal
        } else {
            Ordering::Greater
        }
    }
}

impl Order<usize> for FullOrd {
    open spec fn ord_spec(&self, left: usize, right: usize) -> Ordering {
        if left < right {
            Ordering::Less
        } else if left == right {
            Ordering::Equal
        } else {
            Ordering::Greater
        }
    }

    proof fn lemma_reflexive(&self, a: usize) {
    }

    proof fn lemma_dual(&self, a: usize, b: usize) {
    }

    proof fn lemma_transitive(&self, a: usize, b: usize, c: usize) {
    }

    fn order_of(&self, left: &usize, right: &usize) -> (r: Ordering) {
        if *left < *right {
            Ordering::Less
        } else if *left == *right {
            Ordering::Equal
        } else {
            Ordering::Greater
        }
    }
}

/// Returns an index of a minimal element of `items` under the orderer: one
/// that compares `Greater` to no element.
fn min_index<T, O: Order<T>>(orderer: &O, items: &Vec<T>) -> (r: usize)
    requires
        items@.len() > 0,
    ensures
        r < items@.len(),
        forall|j: int|
            0 <= j < items@.len() ==> #[trigger] orderer.ord_spec(items@[r as int], items@[j])
                != Ordering::Greater,
{
    let mut best: usize = 0;
    let mut j: usize = 1;
    proof {
        orderer.lemma_reflexive(items@[0]);
    }
    while j < items.len()
        invariant
            1 <= j <= items@.len(),
            best < j,
            forall|k: int|
                0 <= k < j ==> #[trigger] orderer.ord_spec(items@[best as int], items@[k])
                    != Ordering::Greater,
        decreases items@.len() - j,
    {
        let c = orderer.order_of(&items[j], &items[best]);
        match c {
            Ordering::Less => {
                proof {
                    assert forall|k: int| 0 <= k < j + 1 implies #[trigger] orderer.ord_spec(
                        items@[j as int],
                        items@[k],
                    ) != Ordering::Greater by {
                        if k < j {
                            orderer.lemma_transitive(items@[j as int], items@[best as int], items@[k]);
                        } else {
                            orderer.lemma_reflexive(items@[j as int]);
                        }
                    }
                }
                best = j;
            },
            _ => {
                proof {
                    orderer.lemma_dual(items@[j as int], items@[best as int]);
                    lemma_eqv_symmetric(orderer, items@[j as int], items@[best as int]);
                }
            },
        }
        j = j + 1;
    }
    best
}

/// Sorts `items` into ascending order per the orderer by repeatedly moving a
/// minimal remaining element to the end of the sorted output.
pub fn sort_by_order<T, O: Order<T>>(orderer: &O, items: &mut Vec<T>)
    ensures
        ordered_by(*orderer, final(items)@),
        final(items)@.to_multiset() == old(items)@.to_multiset(),
{
    broadcast use vstd::seq_lib::group_to_multiset_ensures;
    broadcast use vstd::multiset::group_multiset_axioms;

    let ghost orig = items@;
    let mut rest: Vec<T> = Vec::new();
    while items.len() > 0
        invariant
            items@.to_multiset().add(rest@.to_multiset()) == orig.to_multiset(),
        decreases items@.len(),
    {
        let ghost before = items@;
        let x = items.pop().unwrap();
        proof {
            assert(before =~= items@.push(x));
            vstd::seq_lib::to_multiset_build(items@, x);
            vstd::seq_lib::to_multiset_build(rest@, x);
            assert(items@.to_multiset().add(rest@.to_multiset().insert(x)) =~= items@.to_multiset()
                .insert(x).add(rest@.to_multiset()));
        }
        rest.push(x);
    }
    while rest.len() > 0
        invariant
            items@.to_multiset().add(rest@.to_multiset()) == orig.to_multiset(),
            ordered_by(*orderer, items@),
            forall|i: int, j: int|
                0 <= i < items@.len() && 0 <= j < rest@.len() ==> #[trigger] orderer.ord_spec(
                    items@[i],
                    rest@[j],
                ) != Ordering::Greater,
        decreases rest@.len(),
    {
        let m = min_index(orderer, &rest);
        let ghost rest_before = rest@;
        let x = rest.remove(m);
        proof {
            vstd::seq_lib::to_multiset_remove(rest_before, m as int);
            vstd::seq_lib::to_multiset_contains(rest_before, x);
            vstd::seq_lib::to_multiset_build(items@, x);
            assert(rest_before.contains(x));
            assert(items@.push(x).to_multiset().add(rest@.to_multiset()) =~= items@.to_multiset()
                .add(rest_before.to_multiset()));
        }
        items.push(x);
    }
}

} // verus!
