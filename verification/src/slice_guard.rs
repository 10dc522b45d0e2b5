use vstd::prelude::*;

use crate::OrdBySet;
use crate::order::Order;

verus! {

/// A scoped-mutation guard over a contiguous window of an [`OrdBySet`]'s
/// storage. The guard owns the set for its whole lifetime, so no other access
/// can happen while edits are in flight, and [`SliceGuard::release`] gives the
/// set back after unconditionally re-sorting it, restoring the sortedness
/// invariant no matter what was written through the guard.
pub struct SliceGuard<T, Orderer: Order<T>> {
    pub(crate) container: OrdBySet<T, Orderer>,
    pub(crate) start: usize,
    pub(crate) end: usize,
}

impl<T, Orderer: Order<T>> SliceGuard<T, Orderer> {
    /// The whole storage sequence of the guarded set.
    pub closed spec fn full_seq(&self) -> Seq<T> {
        self.container@
    }

    /// The orderer of the guarded set.
    pub closed spec fn ord(&self) -> Orderer {
        self.container.ord()
    }

    /// Where the guarded window starts in storage.
    pub closed spec fn start_spec(&self) -> int {
        self.start as int
    }

    /// Where the guarded window ends in storage.
    pub closed spec fn end_spec(&self) -> int {
        self.end as int
    }

    /// The window bounds lie within storage.
    pub open spec fn wf(&self) -> bool {
        0 <= self.start_spec() <= self.end_spec() <= self.full_seq().len()
    }

    /// The guarded window itself.
    pub open spec fn window(&self) -> Seq<T> {
        self.full_seq().subrange(self.start_spec(), self.end_spec())
    }

    /// Wraps a set in a guard over the window `[start, end)` of its storage.
    pub fn new(container: OrdBySet<T, Orderer>, start: usize, end: usize) -> (r: Self)
        requires
            start <= end <= container@.len(),
        ensures
            r.full_seq() == container@,
            r.ord() == container.ord(),
            r.start_spec() == start,
            r.end_spec() == end,
            r.wf(),
    {
        SliceGuard { container, start, end }
    }

    /// How many elements the guarded window holds.
    pub fn len(&self) -> (r: usize)
        requires
            self.wf(),
        ensures
            r == self.window().len(),
    {
        self.end - self.start
    }

    /// Read the window element at `i`.
    pub fn get_at(&self, i: usize) -> (r: &T)
        requires
            self.wf(),
            i < self.window().len(),
        ensures
            *r == self.window()[i as int],
    {
        &self.container.storage[self.start + i]
    }

    /// Mutable access to the window element at `i`. Whatever is written
    /// through the returned reference lands in the window; the sortedness
    /// invariant is re-established only on `release`.
    pub fn get_mut_at(&mut self, i: usize) -> (r: &mut T)
        requires
            old(self).wf(),
            i < old(self).window().len(),
        ensures
            *r == old(self).window()[i as int],
            final(self).wf(),
            final(self).start_spec() == old(self).start_spec(),
            final(self).end_spec() == old(self).end_spec(),
            final(self).ord() == old(self).ord(),
            final(self).full_seq() == old(self).full_seq().update(
                old(self).start_spec() + i,
                *final(r),
            ),
            final(self).window() == old(self).window().update(i as int, *final(r)),
    {
        let idx = self.start + i;
        &mut self.container.storage[idx]
    }

    /// Releases the guard: re-sorts the whole storage sequence with the
    /// orderer and hands the set back, its invariant restored and its
    /// contents exactly those left behind by the guarded edits.
    pub fn release(self) -> (r: OrdBySet<T, Orderer>)
        ensures
            r.well_formed(),
            r.ord() == self.ord(),
            r@.to_multiset() == self.full_seq().to_multiset(),
    {
        let SliceGuard { container: c, start: _, end: _ } = self;
        let OrdBySet { mut storage, orderer } = c;
        crate::order::sort_by_order(&orderer, &mut storage);
        OrdBySet { storage, orderer }
    }
}

} // verus!
