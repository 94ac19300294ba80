//! A heap for one size class that keeps freed blocks on a list and hands
//! them out again before asking its source for more.
use vstd::prelude::*;

use crate::heap_layers::stl::allocator::RawAllocator;
use crate::heap_layers::stl::FlexableAllocator;
use crate::heap_layers::utilities::free_sl_list::{FreeSLList, Node};

verus! {

/// `states` are the source `src` and its states after each of `blocks`
/// has been given back to it with `free(block, 0)`, the last of `blocks`
/// first, ending in `after`; each call has an outcome that the source's
/// `free_outcome` admits.
pub open spec fn frees_through<A: RawAllocator>(src: A, blocks: Seq<usize>, after: A, states: Seq<A>) -> bool {
    let n = blocks.len();
    &&& states.len() == n + 1
    &&& states[0] == src
    &&& states[n as int] == after
    &&& forall|k: int|
        0 <= k < n ==> #[trigger] states[k].free_outcome(blocks[n - 1 - k], 0, &states[k + 1])
}

/// `after` is the source `src` once each of `blocks` has been given back
/// to it, the last first, as `frees_through` says.
pub open spec fn frees_in_turn<A: RawAllocator>(src: A, blocks: Seq<usize>, after: A) -> bool {
    exists|states: Seq<A>| #[trigger] frees_through(src, blocks, after, states)
}

/// Freed blocks on a list, in front of the source `A`.
pub struct FreeListHeap<A: FlexableAllocator> {
    _free_list: FreeSLList<usize, A>,
}

impl<A: FlexableAllocator> FreeListHeap<A> {
    /// The freed blocks, oldest first: the last one is handed out next.
    pub closed spec fn free_blocks(&self) -> Seq<usize> {
        self._free_list.contents()
    }

    /// The source of new blocks.
    pub closed spec fn source(&self) -> A {
        self._free_list.alloc
    }

    /// Every freed block is a block (not 0), and the source is consistent.
    pub open spec fn well_formed(&self) -> bool {
        &&& self.source().well_formed()
        &&& forall|i: int| 0 <= i < self.free_blocks().len() ==> #[trigger] self.free_blocks()[i] != 0
    }

    /// Every freed block is aligned as the source aligns its blocks.
    pub open spec fn blocks_aligned(&self) -> bool {
        forall|i: int|
            0 <= i < self.free_blocks().len() ==> (A::ALLIGNMENT > 0 ==> #[trigger] self.free_blocks()[i]
                % A::ALLIGNMENT == 0)
    }

    /// No freed block yet, over the source `alloc`.
    pub fn new(alloc: A) -> (r: Self)
        ensures
            r.free_blocks() == Seq::<usize>::empty(),
            r.source() == alloc,
    {
        Self { _free_list: FreeSLList::new(alloc) }
    }

    /// The last freed block, taken off the list; with none freed, a new
    /// block of `sz` bytes from the source.
    pub fn malloc(&mut self, sz: usize) -> (r: usize)
        requires
            old(self).well_formed(),
        ensures
            final(self).well_formed(),
            old(self).blocks_aligned() ==> final(self).blocks_aligned() && (A::ALLIGNMENT > 0 ==> r
                % A::ALLIGNMENT == 0),
            old(self).free_blocks().len() > 0 ==> {
                &&& r == old(self).free_blocks().last()
                &&& final(self).free_blocks() == old(self).free_blocks().drop_last()
                &&& final(self).source() == old(self).source()
            },
            old(self).free_blocks().len() == 0 ==> final(self).free_blocks() == old(
                self,
            ).free_blocks() && old(self).source().malloc_outcome(sz, r, &final(self).source()),
    {
        if let Some(free) = self._free_list.get() {
            let r = Node::into_element(free);
            proof {
                let b = old(self).free_blocks();
                assert(b[b.len() - 1] == b.last());
                assert forall|i: int| 0 <= i < self.free_blocks().len() implies #[trigger] self.free_blocks()[i]
                    == b[i] by {}
            }
            return r;
        }
        self._free_list.alloc.malloc(sz)
    }

    /// Put the block at `ptr` on the list; 0 is not a block and is ignored.
    pub fn free(&mut self, ptr: usize)
        requires
            old(self).well_formed(),
        ensures
            final(self).well_formed(),
            final(self).source() == old(self).source(),
            ptr == 0 ==> final(self).free_blocks() == old(self).free_blocks(),
            ptr != 0 ==> final(self).free_blocks() == old(self).free_blocks().push(ptr),
            old(self).blocks_aligned() && (A::ALLIGNMENT > 0 ==> ptr % A::ALLIGNMENT == 0)
                ==> final(self).blocks_aligned(),
    {
        if ptr == 0 {
            return;
        }
        self._free_list.insert(ptr);
        proof {
            let b = self.free_blocks();
            assert forall|i: int| 0 <= i < b.len() - 1 implies #[trigger] b[i] == old(self).free_blocks()[i] by {}
            assert(b[b.len() - 1] == ptr);
        }
    }

    /// Give every freed block back to the source with `free(block, 0)`,
    /// the last freed first.
    pub fn clear(&mut self)
        requires
            old(self).well_formed(),
            old(self).blocks_aligned(),
        ensures
            final(self).well_formed(),
            final(self).free_blocks() == Seq::<usize>::empty(),
            frees_in_turn(old(self).source(), old(self).free_blocks(), final(self).source()),
    {
        let ghost src0 = self.source();
        let ghost b0 = self.free_blocks();
        let ghost n = b0.len();
        let ghost mut states: Seq<A> = seq![src0];
        loop
            invariant
                self.well_formed(),
                self.blocks_aligned(),
                n == b0.len(),
                self.free_blocks().len() <= n,
                self.free_blocks() == b0.take(self.free_blocks().len() as int),
                states.len() == n - self.free_blocks().len() + 1,
                states[0] == src0,
                states.last() == self.source(),
                forall|k: int|
                    0 <= k < states.len() - 1 ==> #[trigger] states[k].free_outcome(
                        b0[n - 1 - k],
                        0,
                        &states[k + 1],
                    ),
            ensures
                self.well_formed(),
                self.free_blocks() == Seq::<usize>::empty(),
                frees_in_turn(src0, b0, self.source()),
            decreases self.free_blocks().len(),
        {
            let ghost b = self.free_blocks();
            let ghost s = self.source();
            match self._free_list.get() {
                None => {
                    proof {
                        assert(frees_through(src0, b0, self.source(), states));
                    }
                    break;
                },
                Some(node) => {
                    let ptr = Node::into_element(node);
                    proof {
                        assert(b[b.len() - 1] == b.last());
                    }
                    self._free_list.alloc.free(ptr, 0);
                    proof {
                        assert forall|i: int| 0 <= i < self.free_blocks().len() implies #[trigger] self.free_blocks()[i]
                            == b[i] by {}
                        let m = states.len() - 1;
                        assert(b0[n - 1 - m] == ptr);
                        let st2 = states.push(self.source());
                        assert forall|k: int| 0 <= k < st2.len() - 1 implies #[trigger] st2[k].free_outcome(
                            b0[n - 1 - k],
                            0,
                            &st2[k + 1],
                        ) by {
                            if k < m {
                                assert(st2[k] == states[k] && st2[k + 1] == states[k + 1]);
                            } else {
                                assert(st2[k] == s);
                            }
                        }
                        assert(self.free_blocks() =~= b0.take(self.free_blocks().len() as int));
                        states = st2;
                    }
                },
            }
        }
    }
}

/// A free-list heap for shared use. Exclusive access (`&mut`) to the heap
/// stands in for the lock of a shared one.
pub struct LockedFreeListHeap<A: FlexableAllocator>(FreeListHeap<A>);

impl<A: FlexableAllocator> LockedFreeListHeap<A> {
    /// The heap inside.
    pub closed spec fn inner(&self) -> FreeListHeap<A> {
        self.0
    }

    /// A free-list heap over `alloc`.
    pub fn new(alloc: A) -> (r: Self)
        ensures
            r.inner().free_blocks() == Seq::<usize>::empty(),
            r.inner().source() == alloc,
    {
        Self(FreeListHeap::new(alloc))
    }
}

impl<A: FlexableAllocator> RawAllocator for LockedFreeListHeap<A> {
    const ALLIGNMENT: usize = A::ALLIGNMENT;

    open spec fn well_formed(&self) -> bool {
        self.inner().well_formed() && self.inner().blocks_aligned()
    }

    /// The last freed block, taken off the list; with none freed, a block
    /// of `n` bytes as the source gives it.
    open spec fn malloc_outcome(&self, n: usize, r: usize, after: &Self) -> bool {
        let blocks = self.inner().free_blocks();
        &&& blocks.len() > 0 ==> {
            &&& r == blocks.last()
            &&& after.inner().free_blocks() == blocks.drop_last()
            &&& after.inner().source() == self.inner().source()
        }
        &&& blocks.len() == 0 ==> {
            &&& after.inner().free_blocks() == blocks
            &&& self.inner().source().malloc_outcome(n, r, &after.inner().source())
        }
    }

    /// The block goes on the list; 0 is ignored.
    open spec fn free_outcome(&self, ptr: usize, sz: usize, after: &Self) -> bool {
        &&& after.inner().source() == self.inner().source()
        &&& ptr == 0 ==> after.inner().free_blocks() == self.inner().free_blocks()
        &&& ptr != 0 ==> after.inner().free_blocks() == self.inner().free_blocks().push(ptr)
    }

    /// No aligned block is offered.
    open spec fn memalign_outcome(&self, alignment: usize, sz: usize, r: usize, after: &Self) -> bool {
        r == 0 && *after == *self
    }

    /// Sizes are not recorded.
    open spec fn get_size_outcome(&self, ptr: usize, r: usize, after: &Self) -> bool {
        r == 0 && *after == *self
    }

    /// The last freed block, or a new one from the source.
    fn malloc(&mut self, n: usize) -> (r: usize)
        ensures
            old(self).inner().free_blocks().len() > 0 ==> {
                &&& r == old(self).inner().free_blocks().last()
                &&& final(self).inner().free_blocks() == old(self).inner().free_blocks().drop_last()
            },
            old(self).inner().free_blocks().len() == 0 ==> final(self).inner().free_blocks() == old(
                self,
            ).inner().free_blocks(),
    {
        self.0.malloc(n)
    }

    /// Put the block on the list; 0 is ignored.
    fn free(&mut self, ptr: usize, _sz: usize)
        ensures
            ptr == 0 ==> final(self).inner().free_blocks() == old(self).inner().free_blocks(),
            ptr != 0 ==> final(self).inner().free_blocks() == old(self).inner().free_blocks().push(
                ptr,
            ),
    {
        self.0.free(ptr);
    }

    /// No aligned block is offered: always 0.
    fn memalign(&mut self, _alignment: usize, _sz: usize) -> (r: usize)
        ensures
            r == 0,
    {
        0
    }

    /// Sizes are not recorded: always 0.
    fn get_size(&mut self, _ptr: usize) -> (r: usize)
        ensures
            r == 0,
    {
        0
    }
}

impl<A: FlexableAllocator> FlexableAllocator for LockedFreeListHeap<A> {

}

} // verus!
