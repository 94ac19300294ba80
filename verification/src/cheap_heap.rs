//! Fast allocation of one size of object out of a fixed arena, with a
//! stack of freed objects reused first.
use vstd::prelude::*;

use crate::slab::Slab;

verus! {

/// Address of object `off` of an arena at `arena` of `size`-byte objects.
pub open spec fn slot_address(arena: int, off: int, size: int) -> int {
    arena + off * size
}

/// Objects of `ALLOC_SIZE` bytes carved from an arena of `MAX_COUNT` of them.
pub struct CheapHeap<const ALLOC_SIZE: usize, const MAX_COUNT: usize> {
    arena: usize,
    free_list: Slab<usize>,
    arena_offset: usize,
    free_list_off: Option<usize>,
}

impl<const ALLOC_SIZE: usize, const MAX_COUNT: usize> CheapHeap<ALLOC_SIZE, MAX_COUNT> {
    /// Start of the arena.
    pub closed spec fn arena_start(&self) -> int {
        self.arena as int
    }

    /// Number of objects handed out from the arena so far.
    pub closed spec fn arena_used(&self) -> int {
        self.arena_offset as int
    }

    /// The freed objects, the most recently freed last.
    pub closed spec fn freed(&self) -> Seq<usize> {
        match self.free_list_off {
            None => Seq::empty(),
            Some(o) => Seq::new(
                (o + 1) as nat,
                |k: int| self.free_list.contents()[k]->Some_0,
            ),
        }
    }

    /// The arena fits in the address space, the stack of freed objects
    /// lies within the slab, and the slab holds exactly the arena's count.
    pub closed spec fn well_formed(&self) -> bool {
        &&& self.free_list.well_formed()
        &&& self.free_list.slot_count() == MAX_COUNT
        &&& self.arena + ALLOC_SIZE * MAX_COUNT <= usize::MAX
        &&& self.arena_offset <= MAX_COUNT
        &&& match self.free_list_off {
            None => true,
            Some(o) => {
                &&& o < MAX_COUNT
                &&& forall|k: int| 0 <= k <= o ==> #[trigger] self.free_list.contents()[k] is Some
            },
        }
    }

    /// A heap over the arena at `arena`, keeping freed objects in `free_list`.
    pub fn new(arena: usize, free_list: Slab<usize>) -> (r: Self)
        requires
            free_list.well_formed(),
            free_list.slot_count() == MAX_COUNT,
            arena + ALLOC_SIZE * MAX_COUNT <= usize::MAX,
        ensures
            r.well_formed(),
            r.arena_start() == arena,
            r.arena_used() == 0,
            r.freed() == Seq::<usize>::empty(),
    {
        Self { arena, free_list, arena_offset: 0, free_list_off: None }
    }

    /// Hand out an object: the most recently freed one, else the next one of
    /// the arena (object `k` of the arena, at `arena + k * ALLOC_SIZE`, for
    /// the `k`-th handed out from it, counting from 0).
    pub fn allocate(&mut self) -> (r: usize)
        requires
            old(self).well_formed(),
            old(self).freed().len() > 0 || old(self).arena_used() < MAX_COUNT,
        ensures
            final(self).well_formed(),
            final(self).arena_start() == old(self).arena_start(),
            old(self).freed().len() > 0 ==> {
                &&& r == old(self).freed().last()
                &&& final(self).freed() == old(self).freed().drop_last()
                &&& final(self).arena_used() == old(self).arena_used()
            },
            old(self).freed().len() == 0 ==> {
                &&& r == slot_address(
                    old(self).arena_start(),
                    old(self).arena_used(),
                    ALLOC_SIZE as int,
                )
                &&& old(self).arena_start() <= r
                &&& ALLOC_SIZE > 0 ==> r < old(self).arena_start() + ALLOC_SIZE * MAX_COUNT
                &&& final(self).freed() == old(self).freed()
                &&& final(self).arena_used() == old(self).arena_used() + 1
            },
    {
        if let Some(offset) = self.free_list_off {
            self.free_list_off = None;
            let ptr = *self.free_list.get(offset).unwrap();
            self.free_list_off = offset.checked_sub(1);
            proof {
                assert(self.freed() =~= old(self).freed().drop_last());
            }
            return ptr;
        }
        let off = self.arena_offset;
        self.arena_offset = off + 1;
        assert(0 <= off * ALLOC_SIZE && off * ALLOC_SIZE + ALLOC_SIZE <= ALLOC_SIZE * MAX_COUNT) by (
        nonlinear_arith)
            requires
                off < MAX_COUNT,
        ;
        let ptr = self.ptr_from_offset(off);
        ptr
    }

    /// Bytes of each object.
    pub fn get_size(&self, _ptr: usize) -> (r: usize)
        ensures
            r == ALLOC_SIZE,
    {
        ALLOC_SIZE
    }

    /// Give object `ptr` back; it is the next one handed out.
    pub fn free(&mut self, ptr: usize)
        requires
            old(self).well_formed(),
            old(self).arena_start() <= ptr,
            (ptr as int) < old(self).arena_start() + ALLOC_SIZE * MAX_COUNT,
            old(self).freed().len() < MAX_COUNT,
        ensures
            final(self).well_formed(),
            final(self).arena_start() == old(self).arena_start(),
            final(self).arena_used() == old(self).arena_used(),
            final(self).freed() == old(self).freed().push(ptr),
    {
        let next = match self.free_list_off {
            Some(current) => current + 1,
            None => 0,
        };
        let ghost before = self.free_list.contents();
        assert(before.len() == MAX_COUNT);
        assert(next < MAX_COUNT);
        self.free_list.set(next, ptr).unwrap();
        self.free_list_off = Some(next);
        proof {
            let after = self.free_list.contents();
            assert(after == before.update(next as int, Some(ptr)));
            assert forall|k: int| 0 <= k <= next implies #[trigger] after[k] is Some by {
                if k < next {
                    assert(after[k] == before[k]);
                }
            }
            let f = self.freed();
            let g = old(self).freed().push(ptr);
            assert(f.len() == g.len());
            assert forall|k: int| 0 <= k < f.len() implies f[k] == g[k] by {
                if k < next {
                    assert(after[k] == before[k]);
                }
            }
            assert(f =~= g);
        }
    }

    /// Index of the object at `ptr`.
    pub fn offset_for(&self, ptr: usize) -> (r: usize)
        requires
            self.arena_start() <= ptr,
            ALLOC_SIZE > 0,
        ensures
            r == (ptr - self.arena_start()) / (ALLOC_SIZE as int),
    {
        let ptr_val = ptr;
        let arena = self.arena;
        (ptr_val - arena) / ALLOC_SIZE
    }

    /// Address of the object of index `off`.
    pub fn ptr_from_offset(&self, off: usize) -> (r: usize)
        requires
            self.arena_start() + off * ALLOC_SIZE <= usize::MAX,
        ensures
            r == slot_address(self.arena_start(), off as int, ALLOC_SIZE as int),
    {
        assert(off * ALLOC_SIZE <= usize::MAX) by (nonlinear_arith)
            requires
                self.arena + off * ALLOC_SIZE <= usize::MAX,
        ;
        self.arena + off * ALLOC_SIZE
    }

    /// The end of the arena: one past its last byte.
    pub fn offset_after_arena(&self) -> (r: usize)
        requires
            self.well_formed(),
        ensures
            r == self.arena_start() + ALLOC_SIZE * MAX_COUNT,
    {
        assert(ALLOC_SIZE * MAX_COUNT <= usize::MAX) by (nonlinear_arith)
            requires
                self.arena + ALLOC_SIZE * MAX_COUNT <= usize::MAX,
        ;
        let arena = self.arena;
        arena + (ALLOC_SIZE * MAX_COUNT)
    }
}

/// Freeing an object and handing one out again gives back the same object
/// and the same stack of freed objects.
pub proof fn law_free_then_alloc(freed: Seq<usize>, ptr: usize)
    ensures
        freed.push(ptr).len() > 0,
        freed.push(ptr).last() == ptr,
        freed.push(ptr).drop_last() == freed,
{
    assert(freed.push(ptr).drop_last() =~= freed);
}

/// Objects carved from the arena at distinct indices have distinct
/// addresses, and the index of an object's address is its index.
pub proof fn law_arena_slots(arena: int, size: int, i: int, j: int)
    requires
        size > 0,
        0 <= i,
        0 <= j,
    ensures
        i != j ==> slot_address(arena, i, size) != slot_address(arena, j, size),
        (slot_address(arena, i, size) - arena) / size == i,
{
    assert(i != j ==> i * size != j * size) by (nonlinear_arith)
        requires
            size > 0,
    ;
    assert((i * size) / size == i) by (nonlinear_arith)
        requires
            size > 0,
            0 <= i,
    ;
}

/// `offset_for` undoes `ptr_from_offset`: on any heap, the offset of the
/// address of the object of index `k` is `k`.
pub proof fn law_offset_for_ptr_from_offset<const ALLOC_SIZE: usize, const MAX_COUNT: usize>(
    h: CheapHeap<ALLOC_SIZE, MAX_COUNT>,
    k: usize,
)
    requires
        ALLOC_SIZE > 0,
        h.arena_start() + k * ALLOC_SIZE <= usize::MAX,
    ensures
        h.arena_start() <= slot_address(h.arena_start() as int, k as int, ALLOC_SIZE as int),
        (slot_address(h.arena_start() as int, k as int, ALLOC_SIZE as int) - h.arena_start()) / (
        ALLOC_SIZE as int) == k,
{
    law_arena_slots(h.arena_start() as int, ALLOC_SIZE as int, k as int, k as int);
    assert(0 <= k * ALLOC_SIZE) by (nonlinear_arith);
}

} // verus!
