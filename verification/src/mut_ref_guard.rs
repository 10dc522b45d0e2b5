use vstd::prelude::*;

use crate::OrdBySet;
use crate::order::Order;

verus! {

/// A scoped-mutation guard over a single element of an [`OrdBySet`]'s
/// storage. Like [`crate::SliceGuard`] it owns the set while edits are in
/// flight, and [`MutRefGuard::release`] re-sorts the whole storage sequence
/// before handing the set back.
pub struct MutRefGuard<T, Orderer: Order<T>> {
    pub(crate) container: OrdBySet<T, Orderer>,
    pub(crate) index: usize,
}

impl<T, Orderer: Order<T>> MutRefGuard<T, Orderer> {
    /// The whole storage sequence of the guarded set.
    pub closed spec fn full_seq(&self) -> Seq<T> {
        self.container@
    }

    /// The orderer of the guarded set.
    pub closed spec fn ord(&self) -> Orderer {
        self.container.ord()
    }

    /// Where the guarded element sits in storage.
    pub closed spec fn index_spec(&self) -> int {
        self.index as int
    }

    /// The guarded index lies within storage.
    pub open spec fn wf(&self) -> bool {
        0 <= self.index_spec() < self.full_seq().len()
    }

    /// The guarded element itself.
    pub open spec fn target(&self) -> T {
        self.full_seq()[self.index_spec()]
    }

    /// Wraps a set in a guard over the element at `index` of its storage.
    pub fn new(container: OrdBySet<T, Orderer>, index: usize) -> (r: Self)
        requires
            index < container@.len(),
        ensures
            r.full_seq() == container@,
            r.ord() == container.ord(),
            r.index_spec() == index,
            r.wf(),
    {
        MutRefGuard { container, index }
    }

    /// Read the guarded element.
    pub fn get(&self) -> (r: &T)
        requires
            self.wf(),
        ensures
            *r == self.target(),
    {
        &self.container.storage[self.index]
    }

    /// Mutable access to the guarded element. Whatever is written through the
    /// returned reference lands in storage; the sortedness invariant is
    /// re-established only on `release`.
    pub fn get_mut(&mut self) -> (r: &mut T)
        requires
            old(self).wf(),
        ensures
            *r == old(self).target(),
            final(self).wf(),
            final(self).index_spec() == old(self).index_spec(),
            final(self).ord() == old(self).ord(),
            final(self).full_seq() == old(self).full_seq().update(
                old(self).index_spec(),
                *final(r),
            ),
            final(self).target() == *final(r),
    {
        let idx = self.index;
        &mut self.container.storage[idx]
    }

    /// Releases the guard: re-sorts the whole storage sequence with the
    /// orderer and hands the set back, its invariant restored and its
    /// contents exactly those left behind by the guarded edit.
    pub fn release(self) -> (r: OrdBySet<T, Orderer>)
        ensures
            r.well_formed(),
            r.ord() == self.ord(),
            r@.to_multiset() == self.full_seq().to_multiset(),
    {
        let MutRefGuard { container: c, index: _ } = self;
        let OrdBySet { mut storage, orderer } = c;
        crate::order::sort_by_order(&orderer, &mut storage);
        OrdBySet { storage, orderer }
    }
}

} // verus!
