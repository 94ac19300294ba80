//! A heap layer for shared use: every call goes through to the heap below.
use vstd::prelude::*;

use crate::heap_layers::stl::allocator::RawAllocator;
use crate::heap_layers::stl::FlexableAllocator;

verus! {

/// The heap `Super`, for shared use. Exclusive access (`&mut`) to the heap
/// stands in for the lock of a shared one.
pub struct LockedHeap<Super: FlexableAllocator>(Super);

impl<Super: FlexableAllocator> LockedHeap<Super> {
    /// The heap below.
    pub closed spec fn inner(&self) -> Super {
        self.0
    }

    /// `inner`, for shared use.
    pub fn new(inner: Super) -> (r: Self)
        ensures
            r.inner() == inner,
    {
        Self(inner)
    }
}

impl<Super: FlexableAllocator> RawAllocator for LockedHeap<Super> {
    const ALLIGNMENT: usize = Super::ALLIGNMENT;

    open spec fn well_formed(&self) -> bool {
        self.inner().well_formed()
    }

    open spec fn malloc_outcome(&self, n: usize, r: usize, after: &Self) -> bool {
        self.inner().malloc_outcome(n, r, &after.inner())
    }

    open spec fn free_outcome(&self, ptr: usize, sz: usize, after: &Self) -> bool {
        self.inner().free_outcome(ptr, sz, &after.inner())
    }

    open spec fn memalign_outcome(&self, alignment: usize, sz: usize, r: usize, after: &Self) -> bool {
        self.inner().memalign_outcome(alignment, sz, r, &after.inner())
    }

    open spec fn get_size_outcome(&self, ptr: usize, r: usize, after: &Self) -> bool {
        self.inner().get_size_outcome(ptr, r, &after.inner())
    }

    fn malloc(&mut self, n: usize) -> (r: usize) {
        self.0.malloc(n)
    }

    fn free(&mut self, ptr: usize, sz: usize) {
        self.0.free(ptr, sz);
    }

    fn memalign(&mut self, alignment: usize, sz: usize) -> (r: usize) {
        self.0.memalign(alignment, sz)
    }

    fn get_size(&mut self, ptr: usize) -> (r: usize) {
        self.0.get_size(ptr)
    }
}

impl<Super: FlexableAllocator> FlexableAllocator for LockedHeap<Super> {

}

} // verus!
