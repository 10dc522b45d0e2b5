//! A weakly ordered multi-set with a configurable ordering scheme.
//!
//! An [`OrdBySet`] stores its values contiguously in sort order according to a
//! caller-supplied [`Order`], a comparison that may legitimately consider
//! distinct values order-equivalent for grouping purposes. Callers can then
//! retrieve every value equivalent to a probe value at once, query inclusive
//! ranges, and disambiguate among equivalent values by exact equality.

pub mod mut_ref_guard;
pub mod order;
pub mod seq_facts;
pub mod slice_guard;

use vstd::prelude::*;
use core::cmp::Ordering;
use core::ops::Range;

pub use crate::mut_ref_guard::MutRefGuard;
pub use crate::order::{FullOrd, Order};
pub use crate::slice_guard::SliceGuard;

verus! {

use crate::order::ordered_by;
use vstd::std_specs::cmp::PartialEqSpec;

/// A multi-set backed by a sorted list of items while allowing for a custom
/// ordering scheme.
#[derive(Clone, Debug, Hash)]
pub struct OrdBySet<T, Orderer = FullOrd> where Orderer: Order<T> {
    pub(crate) storage: Vec<T>,
    pub(crate) orderer: Orderer,
}

impl<T, Orderer: Order<T>> View for OrdBySet<T, Orderer> {
    type V = Seq<T>;

    closed spec fn view(&self) -> Seq<T> {
        self.storage@
    }
}

impl<T, Orderer: Order<T>> OrdBySet<T, Orderer> {
    /// The orderer this set was built with.
    pub closed spec fn ord(&self) -> Orderer {
        self.orderer
    }

    /// `a` comes strictly before `b` under this set's orderer.
    pub open spec fn comes_before(&self, a: T, b: T) -> bool {
        self.ord().ord_spec(a, b) == Ordering::Less
    }

    /// `a` and `b` are order-equivalent under this set's orderer.
    pub open spec fn eqv(&self, a: T, b: T) -> bool {
        self.ord().ord_spec(a, b) == Ordering::Equal
    }

    /// `a` comes strictly after `b` under this set's orderer.
    pub open spec fn comes_after(&self, a: T, b: T) -> bool {
        self.ord().ord_spec(a, b) == Ordering::Greater
    }

    /// The storage invariant: outside of an active mutation guard, the
    /// contents are sorted non-decreasingly per the orderer.
    pub open spec fn well_formed(&self) -> bool {
        ordered_by(self.ord(), self@)
    }

    /// The stored values that are order-equivalent to `item`.
    pub open spec fn eqv_seq(&self, item: T) -> Seq<T> {
        self@.filter(|x: T| self.ord().ord_spec(x, item) == Ordering::Equal)
    }

    /// The stored values that are not order-equivalent to `item`.
    pub open spec fn rest_seq(&self, item: T) -> Seq<T> {
        self@.filter(|x: T| !(self.ord().ord_spec(x, item) == Ordering::Equal))
    }

    /// How many stored values are order-equivalent to `item`.
    pub open spec fn count_spec(&self, item: T) -> nat {
        self.eqv_seq(item).len()
    }

    /// Bridges the equal range of `item` to the filtered views: the run
    /// `[a, b)` of order-equivalent elements is `eqv_seq`, and the flanks
    /// joined are `rest_seq`.
    proof fn lemma_range_filter(&self, item: T, a: int, b: int)
        requires
            0 <= a <= b <= self@.len(),
            forall|i: int| 0 <= i < a ==> !self.eqv(#[trigger] self@[i], item),
            forall|i: int| a <= i < b ==> self.eqv(#[trigger] self@[i], item),
            forall|i: int| b <= i < self@.len() ==> !self.eqv(#[trigger] self@[i], item),
        ensures
            self.eqv_seq(item) == self@.subrange(a, b),
            self.rest_seq(item) == self@.subrange(0, a) + self@.subrange(b, self@.len() as int),
    {
        let pred = |x: T| self.ord().ord_spec(x, item) == Ordering::Equal;
        crate::seq_facts::lemma_contiguous_filter(self@, pred, a, b);
        assert((|x: T| !pred(x)) =~= (|x: T| !(self.ord().ord_spec(x, item) == Ordering::Equal)));
    }

    /// Create an empty `OrdBySet` with a custom ordering scheme.
    pub fn new_with_order(orderer: Orderer) -> (r: Self)
        ensures
            r@ == Seq::<T>::empty(),
            r.ord() == orderer,
            r.well_formed(),
    {
        Self { storage: Vec::new(), orderer }
    }

    /// Get the number of items in the set.
    pub fn len(&self) -> (r: usize)
        ensures
            r == self@.len(),
    {
        self.storage.len()
    }

    /// Checks if there are any items inside the set.
    pub fn is_empty(&self) -> (r: bool)
        ensures
            r <==> self@.len() == 0,
    {
        self.storage.is_empty()
    }

    /// The first index whose element is not less than `item`; every earlier
    /// element is strictly less, every element from it on is not.
    fn first_not_less(&self, item: &T) -> (r: usize)
        requires
            self.well_formed(),
        ensures
            r <= self@.len(),
            forall|i: int| 0 <= i < r ==> self.comes_before(#[trigger] self@[i], *item),
            forall|i: int| r <= i < self@.len() ==> !self.comes_before(#[trigger] self@[i], *item),
    {
        let mut lo: usize = 0;
        let mut hi: usize = self.storage.len();
        while lo < hi
            invariant
                lo <= hi <= self@.len(),
                self.well_formed(),
                forall|i: int| 0 <= i < lo ==> self.comes_before(#[trigger] self@[i], *item),
                forall|i: int|
                    hi <= i < self@.len() ==> !self.comes_before(#[trigger] self@[i], *item),
            decreases hi - lo,
        {
            let mid = lo + (hi - lo) / 2;
            let c = self.orderer.order_of(&self.storage[mid], item);
            match c {
                Ordering::Less => {
                    proof {
                        assert forall|i: int| 0 <= i < mid + 1 implies self.comes_before(
                            #[trigger] self@[i],
                            *item,
                        ) by {
                            if i < mid {
                                assert(self.ord().ord_spec(self@[i], self@[mid as int])
                                    != Ordering::Greater);
                                self.orderer.lemma_transitive(self@[i], self@[mid as int], *item);
                            }
                        }
                    }
                    lo = mid + 1;
                },
                _ => {
                    proof {
                        assert forall|i: int| mid <= i < self@.len() implies !self.comes_before(
                            #[trigger] self@[i],
                            *item,
                        ) by {
                            if i > mid && self.comes_before(self@[i], *item) {
                                assert(self.ord().ord_spec(self@[mid as int], self@[i])
                                    != Ordering::Greater);
                                self.orderer.lemma_transitive(self@[mid as int], self@[i], *item);
                            }
                        }
                    }
                    hi = mid;
                },
            }
        }
        lo
    }

    /// The length of the run of elements order-equivalent to `item` that
    /// starts at `start`, given that no element from `start` on is less than
    /// `item`; everything past the run is strictly greater.
    fn eqv_run_len(&self, start: usize, item: &T) -> (r: usize)
        requires
            self.well_formed(),
            start <= self@.len(),
            forall|i: int|
                start <= i < self@.len() ==> !self.comes_before(#[trigger] self@[i], *item),
        ensures
            start + r <= self@.len(),
            forall|i: int| start <= i < start + r ==> self.eqv(#[trigger] self@[i], *item),
            forall|i: int|
                start + r <= i < self@.len() ==> self.comes_after(#[trigger] self@[i], *item),
    {
        let mut lo: usize = start;
        let mut hi: usize = self.storage.len();
        while lo < hi
            invariant
                start <= lo <= hi <= self@.len(),
                self.well_formed(),
                forall|i: int|
                    start <= i < self@.len() ==> !self.comes_before(#[trigger] self@[i], *item),
                forall|i: int| start <= i < lo ==> self.eqv(#[trigger] self@[i], *item),
                forall|i: int| hi <= i < self@.len() ==> !self.eqv(#[trigger] self@[i], *item),
            decreases hi - lo,
        {
            let mid = lo + (hi - lo) / 2;
            let c = self.orderer.order_of(&self.storage[mid], item);
            match c {
                Ordering::Equal => {
                    proof {
                        assert forall|i: int| start <= i < mid + 1 implies self.eqv(
                            #[trigger] self@[i],
                            *item,
                        ) by {
                            if i < mid && self.comes_after(self@[i], *item) {
                                self.orderer.lemma_dual(*item, self@[i]);
                                assert(self.ord().ord_spec(self@[i], self@[mid as int])
                                    != Ordering::Greater);
                                self.orderer.lemma_transitive(*item, self@[i], self@[mid as int]);
                                self.orderer.lemma_dual(*item, self@[mid as int]);
                            }
                        }
                    }
                    lo = mid + 1;
                },
                _ => {
                    proof {
                        assert forall|i: int| mid <= i < self@.len() implies !self.eqv(
                            #[trigger] self@[i],
                            *item,
                        ) by {
                            if i > mid && self.eqv(self@[i], *item) {
                                assert(self.ord().ord_spec(self@[mid as int], self@[i])
                                    != Ordering::Greater);
                                self.orderer.lemma_transitive(self@[mid as int], self@[i], *item);
                            }
                        }
                    }
                    hi = mid;
                },
            }
        }
        lo - start
    }

    /// The length of the run of elements not greater than `high` that starts
    /// at `start`; everything past the run is strictly greater than `high`.
    fn le_run_len(&self, start: usize, high: &T) -> (r: usize)
        requires
            self.well_formed(),
            start <= self@.len(),
        ensures
            start + r <= self@.len(),
            forall|i: int| start <= i < start + r ==> !self.comes_after(#[trigger] self@[i], *high),
            forall|i: int|
                start + r <= i < self@.len() ==> self.comes_after(#[trigger] self@[i], *high),
    {
        let mut lo: usize = start;
        let mut hi: usize = self.storage.len();
        while lo < hi
            invariant
                start <= lo <= hi <= self@.len(),
                self.well_formed(),
                forall|i: int| start <= i < lo ==> !self.comes_after(#[trigger] self@[i], *high),
                forall|i: int| hi <= i < self@.len() ==> self.comes_after(#[trigger] self@[i], *high),
            decreases hi - lo,
        {
            let mid = lo + (hi - lo) / 2;
            let c = self.orderer.order_of(&self.storage[mid], high);
            match c {
                Ordering::Greater => {
                    proof {
                        assert forall|i: int| mid <= i < self@.len() implies self.comes_after(
                            #[trigger] self@[i],
                            *high,
                        ) by {
                            if i > mid && !self.comes_after(self@[i], *high) {
                                assert(self.ord().ord_spec(self@[mid as int], self@[i])
                                    != Ordering::Greater);
                                self.orderer.lemma_transitive(self@[mid as int], self@[i], *high);
                            }
                        }
                    }
                    hi = mid;
                },
                _ => {
                    proof {
                        assert forall|i: int| start <= i < mid + 1 implies !self.comes_after(
                            #[trigger] self@[i],
                            *high,
                        ) by {
                            if i < mid {
                                assert(self.ord().ord_spec(self@[i], self@[mid as int])
                                    != Ordering::Greater);
                                self.orderer.lemma_transitive(self@[i], self@[mid as int], *high);
                            }
                        }
                    }
                    lo = mid + 1;
                },
            }
        }
        lo - start
    }

    /// The maximal contiguous index range of elements order-equivalent to
    /// `item`, or `None` if there is no such element. Everything before the
    /// range is strictly less than `item`, everything after strictly greater.
    pub fn get_index_range_of(&self, item: &T) -> (r: Option<Range<usize>>)
        requires
            self.well_formed(),
        ensures
            match r {
                Some(rng) => {
                    &&& rng.start < rng.end <= self@.len()
                    &&& forall|i: int|
                        0 <= i < rng.start ==> self.comes_before(#[trigger] self@[i], *item)
                    &&& forall|i: int|
                        rng.start <= i < rng.end ==> self.eqv(#[trigger] self@[i], *item)
                    &&& forall|i: int|
                        rng.end <= i < self@.len() ==> self.comes_after(#[trigger] self@[i], *item)
                },
                None => forall|i: int| 0 <= i < self@.len() ==> !self.eqv(#[trigger] self@[i], *item),
            },
    {
        let total = self.storage.len();
        let start = self.first_not_less(item);
        let len = self.eqv_run_len(start, item);
        if len > 0 {
            assert(start + len <= total);
            Some(Range { start, end: start + len })
        } else {
            None
        }
    }

    /// Get a slice of all items order-equivalent to `item`, or `None` if
    /// there are none.
    pub fn get(&self, item: &T) -> (r: Option<&[T]>)
        requires
            self.well_formed(),
        ensures
            match r {
                Some(sl) => sl@.len() > 0 && sl@ == self.eqv_seq(*item),
                None => self.eqv_seq(*item) == Seq::<T>::empty(),
            },
    {
        match self.get_index_range_of(item) {
            Some(rng) => {
                proof {
                    self.lemma_range_filter(*item, rng.start as int, rng.end as int);
                }
                Some(
                    vstd::slice::slice_subrange(self.storage.as_slice(), rng.start, rng.end),
                )
            },
            None => {
                proof {
                    self.lemma_range_filter(*item, 0, 0);
                }
                None
            },
        }
    }

    /// Check the number of items order-equivalent to `item` contained in the
    /// set.
    pub fn count(&self, item: &T) -> (r: usize)
        requires
            self.well_formed(),
        ensures
            r == self.count_spec(*item),
    {
        match self.get_index_range_of(item) {
            Some(rng) => {
                proof {
                    self.lemma_range_filter(*item, rng.start as int, rng.end as int);
                }
                rng.end - rng.start
            },
            None => {
                proof {
                    self.lemma_range_filter(*item, 0, 0);
                }
                0
            },
        }
    }

    /// Check if an item order-equivalent to `item` is contained in the set.
    pub fn contains(&self, item: &T) -> (r: bool)
        requires
            self.well_formed(),
        ensures
            r <==> exists|i: int| 0 <= i < self@.len() && self.eqv(#[trigger] self@[i], *item),
            r <==> self.count_spec(*item) > 0,
    {
        match self.get_index_range_of(item) {
            Some(rng) => {
                proof {
                    self.lemma_range_filter(*item, rng.start as int, rng.end as int);
                    assert(self.eqv(self@[rng.start as int], *item));
                }
                true
            },
            None => {
                proof {
                    self.lemma_range_filter(*item, 0, 0);
                }
                false
            },
        }
    }

    /// Get some item order-equivalent to `item`: the one the search lands on,
    /// with no guarantee about its position among its equivalents.
    pub fn get_first(&self, item: &T) -> (r: Option<&T>)
        requires
            self.well_formed(),
        ensures
            match r {
                Some(x) => exists|i: int|
                    0 <= i < self@.len() && *x == self@[i] && self.eqv(self@[i], *item),
                None => forall|i: int|
                    0 <= i < self@.len() ==> !self.eqv(#[trigger] self@[i], *item),
            },
    {
        let i = self.first_not_less(item);
        if i < self.storage.len() {
            let c = self.orderer.order_of(&self.storage[i], item);
            match c {
                Ordering::Equal => Some(&self.storage[i]),
                _ => {
                    proof {
                        assert forall|j: int| 0 <= j < self@.len() implies !self.eqv(
                            #[trigger] self@[j],
                            *item,
                        ) by {
                            if j > i && self.eqv(self@[j], *item) {
                                assert(self.ord().ord_spec(self@[i as int], self@[j])
                                    != Ordering::Greater);
                                self.orderer.lemma_transitive(self@[i as int], self@[j], *item);
                            }
                        }
                    }
                    None
                },
            }
        } else {
            None
        }
    }

    /// Get a mutable reference to some item order-equivalent to `item`.
    /// Mutating order-relevant state through it does not re-sort the set:
    /// the caller is left with exactly the recorded update.
    pub fn get_first_mut(&mut self, item: &T) -> (r: Option<&mut T>)
        requires
            old(self).well_formed(),
        ensures
            final(self).ord() == old(self).ord(),
            match r {
                Some(m) => exists|i: int|
                    0 <= i < old(self)@.len() && *m == old(self)@[i] && old(self).eqv(
                        old(self)@[i],
                        *item,
                    ) && final(self)@ == old(self)@.update(i, *final(m)),
                None => final(self)@ == old(self)@ && forall|i: int|
                    0 <= i < old(self)@.len() ==> !old(self).eqv(#[trigger] old(self)@[i], *item),
            },
    {
        let i = self.first_not_less(item);
        if i < self.storage.len() {
            let c = self.orderer.order_of(&self.storage[i], item);
            match c {
                Ordering::Equal => Some(&mut self.storage[i]),
                _ => {
                    proof {
                        assert forall|j: int| 0 <= j < self@.len() implies !self.eqv(
                            #[trigger] self@[j],
                            *item,
                        ) by {
                            if j > i && self.eqv(self@[j], *item) {
                                assert(self.ord().ord_spec(self@[i as int], self@[j])
                                    != Ordering::Greater);
                                self.orderer.lemma_transitive(self@[i as int], self@[j], *item);
                            }
                        }
                    }
                    None
                },
            }
        } else {
            None
        }
    }

    /// Inserts an item into the set, keeping the contents sorted: the item is
    /// placed at some position where every earlier element is not greater and
    /// every later element is not less.
    pub fn insert(&mut self, item: T)
        requires
            old(self).well_formed(),
        ensures
            final(self).well_formed(),
            final(self).ord() == old(self).ord(),
            exists|k: int|
                {
                    &&& 0 <= k <= old(self)@.len()
                    &&& forall|j: int|
                        0 <= j < k ==> old(self).comes_before(#[trigger] old(self)@[j], item)
                    &&& forall|j: int|
                        k <= j < old(self)@.len() ==> !old(self).comes_before(
                            #[trigger] old(self)@[j],
                            item,
                        )
                    &&& final(self)@ == old(self)@.insert(k, item)
                },
            final(self)@.to_multiset() == old(self)@.to_multiset().insert(item),
            final(self)@.len() == old(self)@.len() + 1,
    {
        let k = self.first_not_less(&item);
        let ghost before = self@;
        self.storage.insert(k, item);
        proof {
            before.insert_ensures(k as int, item);
            vstd::seq_lib::to_multiset_insert(before, k as int, item);
            assert forall|i: int, j: int|
                0 <= i < j < self@.len() implies #[trigger] self.ord().ord_spec(self@[i], self@[j])
                != Ordering::Greater by {
                if j < k {
                    assert(self@[i] == before[i] && self@[j] == before[j]);
                } else if j == k {
                    assert(self.comes_before(before[i], item));
                } else if i == k {
                    assert(!self.comes_before(before[j - 1], item));
                    self.orderer.lemma_dual(before[j - 1], item);
                    crate::order::lemma_eqv_symmetric(&self.orderer, before[j - 1], item);
                } else if i < k {
                    assert(self@[i] == before[i] && self@[j] == before[j - 1]);
                } else {
                    assert(self@[i] == before[i - 1] && self@[j] == before[j - 1]);
                }
            }
        }
    }

    /// Removes the contiguous index range `[start, end)` from storage,
    /// returning the removed elements in their stored order.
    fn remove_range(&mut self, start: usize, end: usize) -> (r: Vec<T>)
        requires
            old(self).well_formed(),
            start <= end <= old(self)@.len(),
        ensures
            final(self).well_formed(),
            final(self).ord() == old(self).ord(),
            r@ == old(self)@.subrange(start as int, end as int),
            final(self)@ == old(self)@.subrange(0, start as int) + old(self)@.subrange(
                end as int,
                old(self)@.len() as int,
            ),
    {
        let ghost before = self@;
        let total = end - start;
        let mut out: Vec<T> = Vec::new();
        let mut t: usize = 0;
        while t < total
            invariant
                t <= total,
                total == end - start,
                start <= end <= before.len(),
                self.ord() == old(self).ord(),
                self@ == before.subrange(0, start as int) + before.subrange(
                    start + t,
                    before.len() as int,
                ),
                out@ == before.subrange(start as int, start + t),
            decreases total - t,
        {
            let x = self.storage.remove(start);
            out.push(x);
            proof {
                assert(self@ =~= before.subrange(0, start as int) + before.subrange(
                    start + t + 1,
                    before.len() as int,
                ));
                assert(out@ =~= before.subrange(start as int, start + t + 1));
            }
            t = t + 1;
        }
        proof {
            assert forall|i: int, j: int|
                0 <= i < j < self@.len() implies #[trigger] self.ord().ord_spec(self@[i], self@[j])
                != Ordering::Greater by {
                let gap = end - start;
                if i < start {
                    if j < start {
                        assert(self@[i] == before[i] && self@[j] == before[j]);
                    } else {
                        assert(self@[i] == before[i] && self@[j] == before[j + gap]);
                    }
                } else {
                    assert(self@[i] == before[i + gap] && self@[j] == before[j + gap]);
                }
            }
        }
        out
    }

    /// Removes all values from the set that the orderer considers equal to
    /// `item`. Returns `true` exactly when any items were removed.
    pub fn remove_all(&mut self, item: &T) -> (r: bool)
        requires
            old(self).well_formed(),
        ensures
            final(self).well_formed(),
            final(self).ord() == old(self).ord(),
            final(self)@ == old(self).rest_seq(*item),
            r <==> old(self).count_spec(*item) > 0,
    {
        match self.get_index_range_of(item) {
            Some(rng) => {
                proof {
                    self.lemma_range_filter(*item, rng.start as int, rng.end as int);
                }
                let _removed = self.remove_range(rng.start, rng.end);
                true
            },
            None => {
                proof {
                    self.lemma_range_filter(*item, 0, 0);
                    assert(self@ =~= self@.subrange(0, 0) + self@.subrange(0, self@.len() as int));
                }
                false
            },
        }
    }

    /// Removes the first stored value (by memory position) that the orderer
    /// considers equal to `item`, returning it if one was present.
    pub fn remove_first(&mut self, item: &T) -> (r: Option<T>)
        requires
            old(self).well_formed(),
        ensures
            final(self).well_formed(),
            final(self).ord() == old(self).ord(),
            match r {
                Some(x) => exists|i: int|
                    {
                        &&& 0 <= i < old(self)@.len()
                        &&& old(self).eqv(old(self)@[i], *item)
                        &&& forall|j: int|
                            0 <= j < i ==> !old(self).eqv(#[trigger] old(self)@[j], *item)
                        &&& x == old(self)@[i]
                        &&& final(self)@ == old(self)@.remove(i)
                    },
                None => final(self)@ == old(self)@ && old(self).count_spec(*item) == 0,
            },
    {
        match self.get_index_range_of(item) {
            Some(rng) => {
                let ghost before = self@;
                let x = self.storage.remove(rng.start);
                proof {
                    before.remove_ensures(rng.start as int);
                    crate::order::lemma_ordered_remove(self.ord(), before, rng.start as int);
                }
                Some(x)
            },
            None => {
                proof {
                    self.lemma_range_filter(*item, 0, 0);
                }
                None
            },
        }
    }

    /// Removes all values the orderer considers equal to `item`, returning
    /// them in their stored order.
    pub fn drain(&mut self, item: &T) -> (r: Vec<T>)
        requires
            old(self).well_formed(),
        ensures
            final(self).well_formed(),
            final(self).ord() == old(self).ord(),
            r@ == old(self).eqv_seq(*item),
            final(self)@ == old(self).rest_seq(*item),
            final(self)@.to_multiset().add(r@.to_multiset()) == old(self)@.to_multiset(),
    {
        match self.get_index_range_of(item) {
            Some(rng) => {
                proof {
                    self.lemma_range_filter(*item, rng.start as int, rng.end as int);
                }
                let ghost before = self@;
                let removed = self.remove_range(rng.start, rng.end);
                proof {
                    crate::seq_facts::lemma_split_multiset(before, rng.start as int, rng.end as int);
                }
                removed
            },
            None => {
                proof {
                    self.lemma_range_filter(*item, 0, 0);
                    assert(self@ =~= self@.subrange(0, 0) + self@.subrange(0, self@.len() as int));
                    crate::seq_facts::lemma_split_multiset(self@, 0, 0);
                    assert(Seq::<T>::empty() =~= self@.subrange(0, 0));
                }
                Vec::new()
            },
        }
    }

    /// Remove all items in the set.
    pub fn clear(&mut self)
        ensures
            final(self)@ == Seq::<T>::empty(),
            final(self).ord() == old(self).ord(),
            final(self).well_formed(),
    {
        self.storage.clear();
    }

    /// The stored values lying inclusively between `low` and `high` under the
    /// orderer.
    pub open spec fn between_seq(&self, low: T, high: T) -> Seq<T> {
        self@.filter(
            |x: T|
                self.ord().ord_spec(x, low) != Ordering::Less && self.ord().ord_spec(x, high)
                    != Ordering::Greater,
        )
    }

    /// Bridges the bounded window `[a, b)` to `between_seq`: when everything
    /// before it is less than `low` and everything after it greater than
    /// `high`, the window is exactly the in-bounds view.
    proof fn lemma_window_filter(&self, low: T, high: T, a: int, b: int)
        requires
            0 <= a <= b <= self@.len(),
            forall|i: int| 0 <= i < a ==> self.comes_before(#[trigger] self@[i], low),
            forall|i: int|
                a <= i < b ==> !self.comes_before(#[trigger] self@[i], low) && !self.comes_after(
                    self@[i],
                    high,
                ),
            forall|i: int| b <= i < self@.len() ==> self.comes_after(#[trigger] self@[i], high),
        ensures
            self.between_seq(low, high) == self@.subrange(a, b),
    {
        let pred = |x: T|
            self.ord().ord_spec(x, low) != Ordering::Less && self.ord().ord_spec(x, high)
                != Ordering::Greater;
        crate::seq_facts::lemma_contiguous_filter(self@, pred, a, b);
    }

    /// When every element falls outside the bounds, the in-bounds view is
    /// empty.
    proof fn lemma_window_empty(&self, low: T, high: T)
        requires
            forall|i: int|
                0 <= i < self@.len() ==> (self.comes_before(#[trigger] self@[i], low)
                    || self.comes_after(self@[i], high)),
        ensures
            self.between_seq(low, high) == Seq::<T>::empty(),
    {
        crate::seq_facts::lemma_filter_all_false(
            self@,
            |x: T|
                self.ord().ord_spec(x, low) != Ordering::Less && self.ord().ord_spec(x, high)
                    != Ordering::Greater,
        );
    }

    /// The maximal contiguous index range of elements lying inclusively
    /// between `low` and `high` under the orderer, or `None` if `low` does
    /// not come strictly before `high` or no element lies between them.
    pub fn range_to_index_range(&self, low: &T, high: &T) -> (r: Option<Range<usize>>)
        requires
            self.well_formed(),
        ensures
            match r {
                Some(rng) => {
                    &&& self.comes_before(*low, *high)
                    &&& rng.start < rng.end <= self@.len()
                    &&& forall|i: int|
                        0 <= i < rng.start ==> self.comes_before(#[trigger] self@[i], *low)
                    &&& forall|i: int|
                        rng.start <= i < rng.end ==> !self.comes_before(#[trigger] self@[i], *low)
                            && !self.comes_after(self@[i], *high)
                    &&& forall|i: int|
                        rng.end <= i < self@.len() ==> self.comes_after(#[trigger] self@[i], *high)
                },
                None => !self.comes_before(*low, *high) || forall|i: int|
                    0 <= i < self@.len() ==> (self.comes_before(#[trigger] self@[i], *low)
                        || self.comes_after(self@[i], *high)),
            },
    {
        let c = self.orderer.order_of(low, high);
        match c {
            Ordering::Less => {
                let total = self.storage.len();
                let start = self.first_not_less(low);
                let wlen = self.le_run_len(start, high);
                if wlen > 0 {
                    assert(start + wlen <= total);
                    Some(Range { start, end: start + wlen })
                } else {
                    None
                }
            },
            _ => None,
        }
    }

    /// Gets a slice of all elements inclusively between two bounds, or `None`
    /// if `low` does not come strictly before `high` or nothing lies between
    /// them.
    pub fn range(&self, low: &T, high: &T) -> (r: Option<&[T]>)
        requires
            self.well_formed(),
        ensures
            match r {
                Some(sl) => sl@.len() > 0 && self.comes_before(*low, *high) && sl@
                    == self.between_seq(*low, *high),
                None => !self.comes_before(*low, *high) || self.between_seq(*low, *high)
                    == Seq::<T>::empty(),
            },
    {
        match self.range_to_index_range(low, high) {
            Some(rng) => {
                proof {
                    self.lemma_window_filter(*low, *high, rng.start as int, rng.end as int);
                }
                Some(
                    vstd::slice::slice_subrange(self.storage.as_slice(), rng.start, rng.end),
                )
            },
            None => {
                proof {
                    if self.comes_before(*low, *high) {
                        self.lemma_window_empty(*low, *high);
                    }
                }
                None
            },
        }
    }

    /// Gets a mutation guard over all elements inclusively between two
    /// bounds, or the set back unchanged if the window is empty.
    pub fn range_mut(self, low: &T, high: &T) -> (r: Result<SliceGuard<T, Orderer>, Self>)
        requires
            self.well_formed(),
        ensures
            match r {
                Ok(g) => {
                    &&& g.wf()
                    &&& g.full_seq() == self@
                    &&& g.ord() == self.ord()
                    &&& g.window().len() > 0
                    &&& self.comes_before(*low, *high)
                    &&& g.window() == self.between_seq(*low, *high)
                },
                Err(s) => s == self && (!self.comes_before(*low, *high) || self.between_seq(
                    *low,
                    *high,
                ) == Seq::<T>::empty()),
            },
    {
        match self.range_to_index_range(low, high) {
            Some(rng) => {
                proof {
                    self.lemma_window_filter(*low, *high, rng.start as int, rng.end as int);
                }
                Ok(SliceGuard::new(self, rng.start, rng.end))
            },
            None => {
                proof {
                    if self.comes_before(*low, *high) {
                        self.lemma_window_empty(*low, *high);
                    }
                }
                Err(self)
            },
        }
    }

    /// Gets a mutation guard over all items order-equivalent to `item`, or
    /// the set back unchanged if there are none.
    pub fn get_mut(self, item: &T) -> (r: Result<SliceGuard<T, Orderer>, Self>)
        requires
            self.well_formed(),
        ensures
            match r {
                Ok(g) => {
                    &&& g.wf()
                    &&& g.full_seq() == self@
                    &&& g.ord() == self.ord()
                    &&& g.window().len() > 0
                    &&& g.window() == self.eqv_seq(*item)
                },
                Err(s) => s == self && self.eqv_seq(*item) == Seq::<T>::empty(),
            },
    {
        match self.get_index_range_of(item) {
            Some(rng) => {
                proof {
                    self.lemma_range_filter(*item, rng.start as int, rng.end as int);
                }
                Ok(SliceGuard::new(self, rng.start, rng.end))
            },
            None => {
                proof {
                    self.lemma_range_filter(*item, 0, 0);
                }
                Err(self)
            },
        }
    }

    /// Retains only the elements accepted by the predicate, removing every
    /// element on which it returns `false`. Survivors keep their relative
    /// order, so no re-sort is needed.
    pub fn retain<F: Fn(&T) -> bool>(&mut self, f: F)
        requires
            old(self).well_formed(),
            forall|x: T| #[trigger] f.requires((&x,)),
        ensures
            final(self).well_formed(),
            final(self).ord() == old(self).ord(),
            exists|keep: Seq<bool>|
                {
                    &&& keep.len() == old(self)@.len()
                    &&& final(self)@ == crate::seq_facts::masked(old(self)@, keep)
                    &&& forall|p: int|
                        0 <= p < keep.len() ==> #[trigger] f.ensures((&old(self)@[p],), keep[p])
                },
    {
        let ghost before = self@;
        let mut src: Vec<T> = Vec::new();
        core::mem::swap(&mut self.storage, &mut src);
        let mut kept: Vec<T> = Vec::new();
        let ghost mut keep: Seq<bool> = Seq::empty();
        while src.len() > 0
            invariant
                keep.len() + src@.len() == before.len(),
                src@ == before.subrange(keep.len() as int, before.len() as int),
                kept@ == crate::seq_facts::masked(before.subrange(0, keep.len() as int), keep),
                forall|p: int|
                    0 <= p < keep.len() ==> #[trigger] f.ensures((&before[p],), keep[p]),
                forall|x: T| #[trigger] f.requires((&x,)),
            decreases src@.len(),
        {
            let ghost t = keep.len() as int;
            let ghost keep_prev = keep;
            let x = src.remove(0);
            let b = f(&x);
            proof {
                keep = keep_prev.push(b);
                assert(x == before[t]);
                assert(src@ =~= before.subrange(t + 1, before.len() as int));
                let cur = before.subrange(0, t + 1);
                assert(cur.drop_last() =~= before.subrange(0, t));
                assert(keep.drop_last() =~= keep_prev);
                assert(cur.last() == before[t]);
                assert(keep.last() == b);
                if b {
                    assert(crate::seq_facts::masked(cur, keep) == crate::seq_facts::masked(
                        before.subrange(0, t),
                        keep_prev,
                    ).push(before[t]));
                } else {
                    assert(crate::seq_facts::masked(cur, keep) == crate::seq_facts::masked(
                        before.subrange(0, t),
                        keep_prev,
                    ));
                }
            }
            if b {
                kept.push(x);
            }
        }
        proof {
            assert(before.subrange(0, keep.len() as int) =~= before);
            crate::order::lemma_masked_ordered(self.ord(), before, keep);
        }
        self.storage = kept;
    }

    /// Two well-formed sets over one orderer holding the same multiset of
    /// values agree on every count: how many values match a probe depends
    /// only on which values are stored, not on how they are arranged.
    pub proof fn lemma_count_multiset(&self, other: &Self, item: T)
        requires
            self@.to_multiset() == other@.to_multiset(),
            self.ord() == other.ord(),
        ensures
            self.count_spec(item) == other.count_spec(item),
    {
        let pred = |x: T| self.ord().ord_spec(x, item) == Ordering::Equal;
        assert(pred =~= (|x: T| other.ord().ord_spec(x, item) == Ordering::Equal));
        crate::seq_facts::lemma_filter_len_multiset(self@, other@, pred);
    }

    /// Round trip: a set holding the values `drain(item)` left behind plus
    /// the values it returned holds the original multiset of values again,
    /// and with it the original count for every probe.
    pub proof fn lemma_drain_round_trip(&self, after: &Self, item: T)
        requires
            self.ord() == after.ord(),
            after@.to_multiset() == self.rest_seq(item).to_multiset().add(
                self.eqv_seq(item).to_multiset(),
            ),
        ensures
            after@.to_multiset() == self@.to_multiset(),
            forall|probe: T| #[trigger] after.count_spec(probe) == self.count_spec(probe),
    {
        broadcast use vstd::multiset::group_multiset_axioms;

        let pred = |x: T| self.ord().ord_spec(x, item) == Ordering::Equal;
        crate::seq_facts::lemma_filter_partition_multiset(self@, pred);
        assert((|x: T| !pred(x)) =~= (|x: T| !(self.ord().ord_spec(x, item) == Ordering::Equal)));
        assert(after@.to_multiset() =~= self@.to_multiset());
        assert forall|probe: T| #[trigger] after.count_spec(probe) == self.count_spec(probe) by {
            after.lemma_count_multiset(self, probe);
        }
    }

    /// Replaces the contents of the set with the contents of a `Vec`,
    /// bulk-sorting them with this set's orderer.
    pub fn with_items(self, items: Vec<T>) -> (r: Self)
        ensures
            r.well_formed(),
            r.ord() == self.ord(),
            r@.to_multiset() == items@.to_multiset(),
    {
        let OrdBySet { storage: _, orderer } = self;
        let mut storage = items;
        crate::order::sort_by_order(&orderer, &mut storage);
        OrdBySet { storage, orderer }
    }

    /// All stored values in storage order.
    pub fn iter(&self) -> (r: &Vec<T>)
        ensures
            r@ == self@,
    {
        &self.storage
    }

    /// Mutable access to all stored values in storage order. Mutating
    /// order-relevant state through it does not re-sort the set: the caller
    /// is left with exactly the recorded updates.
    pub fn iter_mut(&mut self) -> (r: &mut Vec<T>)
        ensures
            r@ == old(self)@,
            final(self)@ == final(r)@,
            final(self).ord() == old(self).ord(),
    {
        &mut self.storage
    }

    /// Consumes the set, yielding its owned values in storage order.
    pub fn into_items(self) -> (r: Vec<T>)
        ensures
            r@ == self@,
    {
        self.storage
    }

    /// Returns the number of elements the set can hold without reallocating.
    pub fn capacity(&self) -> (r: usize)
        ensures
            r >= self@.len(),
    {
        vec_capacity(&self.storage)
    }
}

impl<T: PartialEq, Orderer: Order<T>> OrdBySet<T, Orderer> {
    /// The contract the disambiguated accessors rely on: values that are
    /// exactly equal must also be order-equivalent, so that an exact match
    /// can never hide outside the probe's equal range.
    pub open spec fn eq_refines_order(&self) -> bool {
        forall|a: T, b: T| #[trigger] a.eq_spec(&b) ==> self.eqv(a, b)
    }

    /// Scans the equal range of `val` for the first element exactly equal to
    /// it, returning that element's storage index.
    fn find_specific(&self, val: &T) -> (r: Option<usize>)
        requires
            self.well_formed(),
            T::obeys_eq_spec(),
            self.eq_refines_order(),
        ensures
            match r {
                Some(i) => {
                    &&& 0 <= i < self@.len()
                    &&& self@[i as int].eq_spec(val)
                    &&& forall|j: int| 0 <= j < i ==> !(#[trigger] self@[j].eq_spec(val))
                },
                None => forall|i: int| 0 <= i < self@.len() ==> !(#[trigger] self@[i].eq_spec(val)),
            },
    {
        match self.get_index_range_of(val) {
            Some(rng) => {
                let mut i = rng.start;
                while i < rng.end
                    invariant
                        rng.start <= i <= rng.end <= self@.len(),
                        T::obeys_eq_spec(),
                        self.eq_refines_order(),
                        forall|j: int|
                            rng.start <= j < i ==> !(#[trigger] self@[j].eq_spec(val)),
                        forall|j: int|
                            0 <= j < rng.start ==> self.comes_before(#[trigger] self@[j], *val),
                    decreases rng.end - i,
                {
                    let x: &T = &self.storage[i];
                    if x.eq(val) {
                        return Some(i);
                    }
                    i = i + 1;
                }
                proof {
                    assert forall|j: int| 0 <= j < self@.len() implies !(#[trigger] self@[j].eq_spec(
                        val,
                    )) by {
                        if self@[j].eq_spec(val) {
                            assert(self.eqv(self@[j], *val));
                        }
                    }
                }
                None
            },
            None => {
                proof {
                    assert forall|i: int| 0 <= i < self@.len() implies !(#[trigger] self@[i].eq_spec(
                        val,
                    )) by {
                        if self@[i].eq_spec(val) {
                            assert(self.eqv(self@[i], *val));
                        }
                    }
                }
                None
            },
        }
    }

    /// Check if a specific item (by exact equality) is contained in the set.
    pub fn contains_specific(&self, val: &T) -> (r: bool)
        requires
            self.well_formed(),
            T::obeys_eq_spec(),
            self.eq_refines_order(),
        ensures
            r <==> exists|i: int| 0 <= i < self@.len() && #[trigger] self@[i].eq_spec(val),
    {
        self.find_specific(val).is_some()
    }

    /// Searches for a specific item (by exact equality) and returns a
    /// reference to it. If multiple exist, the first found in memory order is
    /// returned.
    pub fn get_specific(&self, val: &T) -> (r: Option<&T>)
        requires
            self.well_formed(),
            T::obeys_eq_spec(),
            self.eq_refines_order(),
        ensures
            match r {
                Some(x) => exists|i: int|
                    {
                        &&& 0 <= i < self@.len()
                        &&& *x == self@[i]
                        &&& self@[i].eq_spec(val)
                        &&& forall|j: int| 0 <= j < i ==> !(#[trigger] self@[j].eq_spec(val))
                    },
                None => forall|i: int| 0 <= i < self@.len() ==> !(#[trigger] self@[i].eq_spec(val)),
            },
    {
        match self.find_specific(val) {
            Some(i) => Some(&self.storage[i]),
            None => None,
        }
    }

    /// Searches for a specific item (by exact equality) and returns a mutable
    /// reference to it. If multiple exist, the first found in memory order is
    /// returned. Mutating order-relevant state through it does not re-sort
    /// the set: the caller is left with exactly the recorded update.
    pub fn get_specific_mut(&mut self, val: &T) -> (r: Option<&mut T>)
        requires
            old(self).well_formed(),
            T::obeys_eq_spec(),
            old(self).eq_refines_order(),
        ensures
            final(self).ord() == old(self).ord(),
            match r {
                Some(m) => exists|i: int|
                    {
                        &&& 0 <= i < old(self)@.len()
                        &&& *m == old(self)@[i]
                        &&& old(self)@[i].eq_spec(val)
                        &&& forall|j: int| 0 <= j < i ==> !(#[trigger] old(self)@[j].eq_spec(val))
                        &&& final(self)@ == old(self)@.update(i, *final(m))
                    },
                None => final(self)@ == old(self)@ && forall|i: int|
                    0 <= i < old(self)@.len() ==> !(#[trigger] old(self)@[i].eq_spec(val)),
            },
    {
        match self.find_specific(val) {
            Some(i) => Some(&mut self.storage[i]),
            None => None,
        }
    }

    /// Searches for a specific item (by exact equality) and removes it,
    /// returning it if it was present. If multiple exist, the first found in
    /// memory order is removed.
    pub fn remove_specific(&mut self, val: &T) -> (r: Option<T>)
        requires
            old(self).well_formed(),
            T::obeys_eq_spec(),
            old(self).eq_refines_order(),
        ensures
            final(self).well_formed(),
            final(self).ord() == old(self).ord(),
            match r {
                Some(x) => exists|i: int|
                    {
                        &&& 0 <= i < old(self)@.len()
                        &&& x == old(self)@[i]
                        &&& old(self)@[i].eq_spec(val)
                        &&& forall|j: int| 0 <= j < i ==> !(#[trigger] old(self)@[j].eq_spec(val))
                        &&& final(self)@ == old(self)@.remove(i)
                    },
                None => final(self)@ == old(self)@ && forall|i: int|
                    0 <= i < old(self)@.len() ==> !(#[trigger] old(self)@[i].eq_spec(val)),
            },
    {
        match self.find_specific(val) {
            Some(i) => {
                let ghost before = self@;
                let x = self.storage.remove(i);
                proof {
                    before.remove_ensures(i as int);
                    crate::order::lemma_ordered_remove(self.ord(), before, i as int);
                }
                Some(x)
            },
            None => None,
        }
    }
}

/// Relies on `Vec::capacity`: a vector's length never exceeds its capacity.
#[verifier::external_body]
fn vec_capacity<T>(v: &Vec<T>) -> (r: usize)
    ensures
        r >= v@.len(),
{
    v.capacity()
}

impl<T, Orderer: Order<T> + Default> OrdBySet<T, Orderer> {
    /// Create an empty `OrdBySet` with a default-initialized orderer.
    pub fn new() -> (r: Self)
        ensures
            r@ == Seq::<T>::empty(),
            r.well_formed(),
    {
        Self { storage: Vec::new(), orderer: Orderer::default() }
    }
}

impl<T, Orderer: Order<T> + Default> Default for OrdBySet<T, Orderer> {
    /// An empty `OrdBySet` with a default-initialized orderer.
    fn default() -> (r: Self)
        ensures
            r@ == Seq::<T>::empty(),
            r.well_formed(),
    {
        Self { storage: Vec::new(), orderer: Orderer::default() }
    }
}

impl<T> OrdBySet<T, FullOrd> where FullOrd: Order<T> {
    /// Create an empty `OrdBySet` where the set is fully ordered by the
    /// values' natural total order.
    pub fn fully_ordered() -> (r: Self)
        ensures
            r@ == Seq::<T>::empty(),
            r.well_formed(),
            r.ord() == FullOrd,
    {
        Self::new_with_order(FullOrd)
    }
}

} // verus!
