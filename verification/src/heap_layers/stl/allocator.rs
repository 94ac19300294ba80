//! Raw allocators: sources of blocks named by their addresses.
use vstd::prelude::*;

verus! {

/// A source of raw memory blocks, named by their addresses; 0 means "no
/// block". Every block handed out is aligned to `ALLIGNMENT`, and blocks
/// given back are ones it handed out.
pub trait RawAllocator {
    /// Alignment of every block handed out.
    const ALLIGNMENT: usize;

    /// The allocator's own bookkeeping is consistent; an allocator with
    /// nothing to keep consistent need not say more.
    open spec fn well_formed(&self) -> bool {
        true
    }

    /// What `malloc(n)` on this allocator may give: the block `r` and the
    /// allocator `after`. An allocator that says no more admits every
    /// outcome.
    open spec fn malloc_outcome(&self, n: usize, r: usize, after: &Self) -> bool {
        true
    }

    /// What `free(ptr, sz)` on this allocator may leave: the allocator
    /// `after`.
    open spec fn free_outcome(&self, ptr: usize, sz: usize, after: &Self) -> bool {
        true
    }

    /// What `memalign(alignment, sz)` on this allocator may give.
    open spec fn memalign_outcome(&self, alignment: usize, sz: usize, r: usize, after: &Self) -> bool {
        true
    }

    /// What `get_size(ptr)` on this allocator may give.
    open spec fn get_size_outcome(&self, ptr: usize, r: usize, after: &Self) -> bool {
        true
    }

    /// A block of at least `n` bytes, or 0.
    fn malloc(&mut self, n: usize) -> (r: usize)
        requires
            old(self).well_formed(),
        ensures
            final(self).well_formed(),
            Self::ALLIGNMENT > 0 ==> r % Self::ALLIGNMENT == 0,
            old(self).malloc_outcome(n, r, final(self)),
    ;

    /// Give back the block at `ptr`, of `sz` bytes.
    fn free(&mut self, ptr: usize, sz: usize)
        requires
            old(self).well_formed(),
            Self::ALLIGNMENT > 0 ==> ptr % Self::ALLIGNMENT == 0,
        ensures
            final(self).well_formed(),
            old(self).free_outcome(ptr, sz, final(self)),
    ;

    /// A block of `sz` bytes aligned to `alignment`, or 0.
    fn memalign(&mut self, alignment: usize, sz: usize) -> (r: usize)
        requires
            old(self).well_formed(),
        ensures
            final(self).well_formed(),
            old(self).memalign_outcome(alignment, sz, r, final(self)),
    ;

    /// The size of the block at `ptr`; 0 when not known.
    fn get_size(&mut self, ptr: usize) -> (r: usize)
        requires
            old(self).well_formed(),
        ensures
            final(self).well_formed(),
            old(self).get_size_outcome(ptr, r, final(self)),
    ;
}

} // verus!
