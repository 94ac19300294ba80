//! The allocator front end: miniheaps that carve a span into equally sized
//! slots handed out in random order, a local heap that keeps one miniheap per
//! size class, and a global heap that hands out miniheaps, remembers every
//! span it created and counts the pairs of miniheaps that could be meshed.
//!
//! Addresses are plain `usize` values. Obtaining the memory of a span from
//! the system, and giving it back, is the caller's part: the local heap says
//! when it needs a fresh span, and the caller hands one in.
use vstd::prelude::*;

use crate::bitmap::{
    bit_at, count_set, get_mask, law_clear_bit, law_set_bit, law_set_clear_count, law_zero_words,
    lemma_bit_mask_test, lemma_set_slots_len, lemma_slot_split, set_slots, with_bit_cleared,
    with_bit_set,
};
use crate::common::PAGE_SIZE;
use crate::shuffle_vec::ShuffleVector;
use std::collections::{HashMap, VecDeque};

verus! {

/// Number of size classes a local heap has room for.
pub const MAX_SIZE_CLASS: usize = 256;

/// Fewest miniheaps worth meshing together.
pub const MIN_MESH_THRESHOLD: usize = 2;

/// Bytes in the span of a new miniheap.
pub const SPAN_SIZE: usize = PAGE_SIZE * 4;

/// `rand`'s `SmallRng`: the generator a miniheap shuffles its slots with.
#[verifier::external_type_specification]
#[verifier::external_body]
pub struct ExSmallRng(rand::rngs::SmallRng);

/// `rand`'s `SeedableRng::try_from_os_rng` for `SmallRng`: a generator seeded
/// from the operating system's entropy, or none when the operating system
/// gives none. Nothing is claimed of the seed: it comes from the machine.
#[verifier::external_body]
fn seeded_rng() -> Option<rand::rngs::SmallRng> {
    <rand::rngs::SmallRng as rand::SeedableRng>::try_from_os_rng().ok()
}

/// Object size of a size class: 8 bytes doubled once per class, up to 256.
pub open spec fn class_size(size_class: int) -> int {
    if size_class <= 0 {
        8
    } else if size_class == 1 {
        16
    } else if size_class == 2 {
        32
    } else if size_class == 3 {
        64
    } else if size_class == 4 {
        128
    } else {
        256
    }
}

/// A miniheap, as a value: where its span starts, how its slots are sized,
/// which slots are in use, and the free slots in the order they will be
/// handed out.
pub struct MiniHeapModel {
    pub span: int,
    pub size_class: int,
    pub object_size: int,
    pub max_objects: int,
    pub allocated: int,
    pub in_use: Set<int>,
    pub free_order: Seq<int>,
}

impl MiniHeapModel {
    /// Address of slot `i`.
    pub open spec fn slot_address(self, i: int) -> int {
        self.span + i * self.object_size
    }

    /// `ptr` lies in the slots of the span.
    pub open spec fn contains(self, ptr: int) -> bool {
        self.span <= ptr < self.span + self.max_objects * self.object_size
    }

    /// The slot that `ptr` falls in.
    pub open spec fn slot_of(self, ptr: int) -> int {
        (ptr - self.span) / self.object_size
    }

    /// `ptr` falls in a slot of the span that is in use.
    pub open spec fn owns(self, ptr: int) -> bool {
        self.contains(ptr) && self.in_use.contains(self.slot_of(ptr))
    }

    /// The slot handed out next.
    pub open spec fn next_slot(self) -> int {
        self.free_order[0]
    }

    /// Some slot is free.
    pub open spec fn has_room(self) -> bool {
        self.allocated < self.max_objects
    }

    /// The miniheap after handing out its next slot.
    pub open spec fn after_allocate(self) -> MiniHeapModel {
        MiniHeapModel {
            allocated: self.allocated + 1,
            in_use: self.in_use.insert(self.next_slot()),
            free_order: self.free_order.drop_first(),
            ..self
        }
    }

    /// The miniheap after the slot that `ptr` falls in is given back: that
    /// slot is the next one handed out.
    pub open spec fn after_free(self, ptr: int) -> MiniHeapModel {
        MiniHeapModel {
            allocated: self.allocated - 1,
            in_use: self.in_use.remove(self.slot_of(ptr)),
            free_order: seq![self.slot_of(ptr)] + self.free_order,
            ..self
        }
    }

    /// Two miniheaps of one size class whose objects together fit in the
    /// slots of the first.
    pub open spec fn can_mesh_with(self, other: MiniHeapModel) -> bool {
        self.size_class == other.size_class && self.allocated + other.allocated
            <= self.max_objects
    }

    /// The slots in use and the free slots waiting to be handed out share
    /// no slot, lie in the span, and account for every slot.
    pub open spec fn consistent(self) -> bool {
        &&& self.span > 0
        &&& self.object_size == class_size(self.size_class)
        &&& self.span + self.max_objects * self.object_size <= usize::MAX
        &&& 0 <= self.allocated
        &&& self.allocated + self.free_order.len() == self.max_objects
        &&& self.free_order.no_duplicates()
        &&& forall|k: int|
            0 <= k < self.free_order.len() ==> 0 <= #[trigger] self.free_order[k]
                < self.max_objects && !self.in_use.contains(self.free_order[k])
        &&& forall|i: int| #[trigger] self.in_use.contains(i) ==> 0 <= i < self.max_objects
    }
}

/// A span carved into equally sized slots, with a bitmap of the slots in use
/// and a shuffle vector of the free slots.
#[derive(Debug, Clone)]
pub struct MiniHeap {
    span: usize,
    size_class: usize,
    object_size: usize,
    max_objects: usize,
    allocated_objects: usize,
    bitmap: Vec<u64>,
    shuffle_vector: ShuffleVector<usize, rand::rngs::SmallRng>,
}

impl View for MiniHeap {
    type V = MiniHeapModel;

    closed spec fn view(&self) -> MiniHeapModel {
        let pool = self.shuffle_vector.pool();
        MiniHeapModel {
            span: self.span as int,
            size_class: self.size_class as int,
            object_size: self.object_size as int,
            max_objects: self.max_objects as int,
            allocated: self.allocated_objects as int,
            in_use: Set::new(
                |i: int| 0 <= i < self.max_objects && bit_at(self.bitmap@, i),
            ),
            free_order: pool.subrange(self.shuffle_vector.cursor(), pool.len() as int).map_values(
                |x: usize| x as int,
            ),
        }
    }
}

impl MiniHeap {
    /// The bitmap counts exactly the handed-out slots, and every slot not
    /// handed out yet is free, inside the span and listed once.
    pub closed spec fn well_formed(&self) -> bool {
        let pool = self.shuffle_vector.pool();
        let cursor = self.shuffle_vector.cursor();
        &&& self.span != 0
        &&& self.object_size as int == class_size(self.size_class as int)
        &&& self.span + self.max_objects * self.object_size <= usize::MAX
        &&& self.max_objects <= self.bitmap@.len() * 64
        &&& self.shuffle_vector.well_formed()
        &&& pool.len() == self.max_objects
        &&& cursor == self.allocated_objects
        &&& self.allocated_objects <= self.max_objects
        &&& count_set(self.bitmap@) == self.allocated_objects
        &&& forall|i: int|
            self.max_objects <= i < self.bitmap@.len() * 64 ==> !#[trigger] bit_at(self.bitmap@, i)
        &&& forall|k: int|
            cursor <= k < pool.len() ==> #[trigger] pool[k] < self.max_objects && !bit_at(
                self.bitmap@,
                pool[k] as int,
            )
        &&& forall|k1: int, k2: int|
            cursor <= k1 < pool.len() && cursor <= k2 < pool.len() && k1 != k2
                ==> #[trigger] pool[k1] != #[trigger] pool[k2]
    }

    /// A well-formed miniheap is consistent as a value.
    pub proof fn lemma_consistent(&self)
        requires
            self.well_formed(),
        ensures
            self@.consistent(),
    {
        let m = self@;
        let pool = self.shuffle_vector.pool();
        let cursor = self.shuffle_vector.cursor();
        assert(m.free_order.len() == pool.len() - cursor);
        assert forall|k: int| 0 <= k < m.free_order.len() implies 0 <= #[trigger] m.free_order[k]
            < m.max_objects && !m.in_use.contains(m.free_order[k]) by {
            assert(m.free_order[k] == pool[cursor + k] as int);
        }
        assert forall|a: int, b: int|
            0 <= a < m.free_order.len() && 0 <= b < m.free_order.len() && a != b implies m.free_order[a]
            != m.free_order[b] by {
            assert(m.free_order[a] == pool[cursor + a] as int);
            assert(m.free_order[b] == pool[cursor + b] as int);
        }
        assert(self.object_size >= 8);
        assert(m.allocated + m.free_order.len() == m.max_objects);
    }

    /// A miniheap over the `span_size` bytes at `span`, for objects of
    /// `size_class`: as many slots as whole objects fit, none in use, the
    /// free slots shuffled with `rng`.
    pub fn new(span: usize, size_class: usize, span_size: usize, rng: rand::rngs::SmallRng) -> (r:
        Self)
        requires
            span != 0,
            span + span_size <= usize::MAX,
            class_size(size_class as int) <= span_size,
        ensures
            r.well_formed(),
            r@.consistent(),
            r@.span == span,
            r@.size_class == size_class,
            r@.object_size == class_size(size_class as int),
            r@.max_objects == span_size as int / class_size(size_class as int),
            r@.allocated == 0,
            r@.in_use == Set::<int>::empty(),
    {
        let object_size = Self::size_class_to_size(size_class);
        let max_objects = span_size / object_size;
        proof {
            assert(max_objects * object_size <= span_size) by (nonlinear_arith)
                requires
                    max_objects == span_size / object_size,
                    object_size > 0,
            ;
            assert(max_objects >= 1) by (nonlinear_arith)
                requires
                    max_objects == span_size / object_size,
                    object_size > 0,
                    object_size <= span_size,
            ;
        }
        let bitmap_size = (max_objects + 64 - 1) / 64;
        let mut slots: Vec<usize> = Vec::new();
        let mut i: usize = 0;
        while i < max_objects
            invariant
                i <= max_objects,
                slots@.len() == i,
                forall|k: int| 0 <= k < i ==> #[trigger] slots@[k] == k,
            decreases max_objects - i,
        {
            slots.push(i);
            i = i + 1;
        }
        let mut bitmap: Vec<u64> = Vec::new();
        let mut j: usize = 0;
        while j < bitmap_size
            invariant
                j <= bitmap_size,
                bitmap@.len() == j,
                forall|k: int| 0 <= k < j ==> #[trigger] bitmap@[k] == 0u64,
            decreases bitmap_size - j,
        {
            bitmap.push(0u64);
            j = j + 1;
        }
        proof {
            assert(slots@.no_duplicates());
            slots@.lemma_multiset_has_no_duplicates();
        }
        let ghost elements = slots@;
        let shuffle_vector = ShuffleVector::from_parts(slots, rng);
        let r = Self {
            span,
            size_class,
            object_size,
            max_objects,
            allocated_objects: 0,
            bitmap,
            shuffle_vector,
        };
        proof {
            broadcast use vstd::seq_lib::group_to_multiset_ensures;

            let pool = r.shuffle_vector.pool();
            let zeros = Seq::new(bitmap_size as nat, |_k: int| 0u64);
            assert(r.bitmap@ =~= zeros);
            assert(max_objects <= bitmap_size * 64);
            law_zero_words(bitmap_size as nat, 0);
            assert forall|k: int| 0 <= k < pool.len() implies #[trigger] pool[k] < max_objects
                && !bit_at(r.bitmap@, pool[k] as int) by {
                assert(pool.to_multiset().count(pool[k]) > 0);
                assert(elements.to_multiset().count(pool[k]) > 0);
                assert(elements.contains(pool[k]));
                law_zero_words(bitmap_size as nat, pool[k] as int);
            }
            assert forall|x: usize| pool.to_multiset().contains(x) implies pool.to_multiset().count(
                x,
            ) == 1 by {
                assert(elements.to_multiset().contains(x));
            }
            pool.lemma_multiset_has_no_duplicates_conv();
            assert forall|i: int| max_objects <= i < r.bitmap@.len() * 64 implies !#[trigger] bit_at(
                r.bitmap@,
                i,
            ) by {
                law_zero_words(bitmap_size as nat, i);
            }
            assert(r.well_formed());
            r.lemma_consistent();
            assert(r@.in_use =~= Set::<int>::empty()) by {
                assert forall|x: int| !r@.in_use.contains(x) by {
                    if 0 <= x < max_objects {
                        law_zero_words(bitmap_size as nat, x);
                    }
                }
            }
        }
        r
    }

    /// Hand out the next free slot: its address, or none when every slot is
    /// in use.
    pub fn allocate(&mut self) -> (r: Option<usize>)
        requires
            old(self).well_formed(),
        ensures
            final(self).well_formed(),
            old(self)@.has_room() ==> {
                &&& r == Some(old(self)@.slot_address(old(self)@.next_slot()) as usize)
                &&& final(self)@ == old(self)@.after_allocate()
            },
            !old(self)@.has_room() ==> r is None && *final(self) == *old(self),
    {
        if self.allocated_objects >= self.max_objects {
            return None;
        }
        let ghost old_self = *self;
        let ghost pool = self.shuffle_vector.pool();
        let ghost cursor = self.shuffle_vector.cursor();
        if let Some(next) = self.shuffle_vector.get() {
            let index: usize = *next;
            let word_index = index / 64;
            let bit_index = index % 64;
            let mask = get_mask(bit_index);
            let word = self.bitmap[word_index];
            proof {
                lemma_slot_split(index as int);
                lemma_bit_mask_test(word, bit_index as u64);
            }
            if word & mask == 0 {
                self.bitmap.set(word_index, word | mask);
                self.allocated_objects = self.allocated_objects + 1;
                proof {
                    let max = self.max_objects;
                    let os = self.object_size;
                    assert(index * os <= max * os) by (nonlinear_arith)
                        requires
                            index < max,
                    ;
                }
                let offset = index * self.object_size;
                proof {
                    let max = self.max_objects;
                    let w0 = old_self.bitmap@;
                    assert(self.bitmap@ == with_bit_set(w0, index as int));
                    law_set_clear_count(w0, index as int);
                    assert forall|k: int|
                        self.shuffle_vector.cursor() <= k < pool.len() implies #[trigger] pool[k]
                        < max && !bit_at(self.bitmap@, pool[k] as int) by {
                        law_set_bit(w0, index as int, pool[k] as int);
                    }
                    assert forall|i: int| max <= i < self.bitmap@.len() * 64 implies !#[trigger] bit_at(
                        self.bitmap@,
                        i,
                    ) by {
                        law_set_bit(w0, index as int, i);
                    }
                    let m0 = old_self@;
                    let m1 = self@;
                    assert(m1.in_use =~= m0.in_use.insert(index as int)) by {
                        assert forall|x: int| 0 <= x < max implies bit_at(self.bitmap@, x) == (x
                            == index || bit_at(w0, x)) by {
                            law_set_bit(w0, index as int, x);
                        }
                    }
                    assert(m0.free_order[0] == index);
                    assert(m1.free_order =~= m0.free_order.drop_first());
                }
                return Some(self.span + offset);
            }
        }
        None
    }

    /// Give back the slot that `ptr` falls in. Whether the slot was in use
    /// here: a pointer outside the span, or into a free slot, changes
    /// nothing.
    pub fn deallocate(&mut self, ptr: usize) -> (r: bool)
        requires
            old(self).well_formed(),
        ensures
            final(self).well_formed(),
            r == old(self)@.owns(ptr as int),
            r ==> final(self)@ == old(self)@.after_free(ptr as int),
            !r ==> *final(self) == *old(self),
    {
        let span_start = self.span;
        let ptr_addr = ptr;
        if ptr_addr < span_start || ptr_addr >= span_start + (self.max_objects * self.object_size) {
            return false;
        }
        let offset = ptr_addr - span_start;
        let index = offset / self.object_size;
        proof {
            let max = self.max_objects as int;
            let os = self.object_size as int;
            assert(index < max) by (nonlinear_arith)
                requires
                    index == offset as int / os,
                    offset < max * os,
                    os > 0,
            ;
        }
        if index >= self.max_objects {
            return false;
        }
        let word_index = index / 64;
        let bit_index = index % 64;
        let mask = get_mask(bit_index);
        let word = self.bitmap[word_index];
        proof {
            lemma_slot_split(index as int);
            lemma_bit_mask_test(word, bit_index as u64);
        }
        if word & mask != 0 {
            let ghost old_self = *self;
            let ghost w0 = self.bitmap@;
            self.bitmap.set(word_index, word & !mask);
            proof {
                assert(self.bitmap@ == with_bit_cleared(w0, index as int));
                law_set_clear_count(w0, index as int);
            }
            self.allocated_objects = self.allocated_objects - 1;
            let ghost pool0 = self.shuffle_vector.pool();
            let ghost cursor0 = self.shuffle_vector.cursor();
            let _ = self.shuffle_vector.put(index);
            proof {
                let max = self.max_objects;
                let pool = self.shuffle_vector.pool();
                let cursor = self.shuffle_vector.cursor();
                assert(pool == pool0.update(cursor0 - 1, index));
                assert(cursor == cursor0 - 1);
                assert forall|k: int| cursor <= k < pool.len() implies #[trigger] pool[k] < max
                    && !bit_at(self.bitmap@, pool[k] as int) by {
                    law_clear_bit(w0, index as int, pool[k] as int);
                }
                assert forall|i: int| max <= i < self.bitmap@.len() * 64 implies !#[trigger] bit_at(
                    self.bitmap@,
                    i,
                ) by {
                    law_clear_bit(w0, index as int, i);
                }
                assert forall|k1: int, k2: int|
                    cursor <= k1 < pool.len() && cursor <= k2 < pool.len() && k1 != k2
                        implies #[trigger] pool[k1] != #[trigger] pool[k2] by {
                    if k1 == cursor {
                        assert(!bit_at(w0, pool0[k2] as int));
                    } else if k2 == cursor {
                        assert(!bit_at(w0, pool0[k1] as int));
                    }
                }
                let m0 = old_self@;
                let m1 = self@;
                assert(m0.slot_of(ptr as int) == index);
                assert(m1.in_use =~= m0.in_use.remove(index as int)) by {
                    assert forall|x: int| 0 <= x < max implies bit_at(self.bitmap@, x) == (x
                        != index && bit_at(w0, x)) by {
                        law_clear_bit(w0, index as int, x);
                    }
                }
                assert(m1.free_order =~= seq![index as int] + m0.free_order);
            }
            return true;
        }
        false
    }

    /// The slots in use of a well-formed miniheap are as many as its count
    /// of allocated objects.
    pub proof fn lemma_in_use_count(&self)
        requires
            self.well_formed(),
        ensures
            self@.in_use.finite(),
            self@.in_use.len() == self@.allocated,
    {
        lemma_set_slots_len(self.bitmap@);
        assert(self@.in_use =~= set_slots(self.bitmap@)) by {
            assert forall|i: int| #[trigger] set_slots(self.bitmap@).contains(i) implies 0 <= i
                < self.max_objects by {
                if i >= self.max_objects {
                    assert(!bit_at(self.bitmap@, i));
                }
            }
        }
    }

    /// Whether `other` holds objects of the same size class and few enough
    /// that both sets fit in the slots of this miniheap.
    pub fn can_mesh_with(&self, other: &Self) -> (r: bool)
        requires
            self.well_formed(),
            other.well_formed(),
        ensures
            r == self@.can_mesh_with(other@),
            r == (self@.size_class == other@.size_class && self@.in_use.len() + other@.in_use.len()
                <= self@.max_objects),
    {
        proof {
            self.lemma_in_use_count();
            other.lemma_in_use_count();
        }
        if self.size_class != other.size_class {
            return false;
        }
        proof {
            assert(self.max_objects * 8 <= self.max_objects * self.object_size) by (nonlinear_arith)
                requires
                    self.object_size >= 8,
            ;
            assert(other.max_objects * 8 <= other.max_objects * other.object_size)
                by (nonlinear_arith)
                requires
                    other.object_size >= 8,
            ;
        }
        let total_allocated = self.allocated_objects + other.allocated_objects;
        total_allocated <= self.max_objects
    }

    /// A copy of this miniheap, equal to it as a value.
    pub fn duplicate(&self) -> (r: Self)
        ensures
            r@ == self@,
            r.well_formed() == self.well_formed(),
    {
        let r = MiniHeap {
            span: self.span,
            size_class: self.size_class,
            object_size: self.object_size,
            max_objects: self.max_objects,
            allocated_objects: self.allocated_objects,
            bitmap: self.bitmap.clone(),
            shuffle_vector: self.shuffle_vector.duplicate(),
        };
        assert(r@.in_use =~= self@.in_use);
        r
    }

    /// Object size of a size class: 8, 16, 32, 64, 128, then 256 for every
    /// larger class.
    pub fn size_class_to_size(size_class: usize) -> (r: usize)
        ensures
            r as int == class_size(size_class as int),
    {
        match size_class {
            0 => 8,
            1 => 16,
            2 => 32,
            3 => 64,
            4 => 128,
            5 => 256,
            _ => 256,
        }
    }
}

} // verus!

verus! {

/// A span the global heap set up, with the copy of its miniheap taken at
/// that moment.
#[derive(Debug, Clone)]
pub struct Span {
    pub start: usize,
    pub size: usize,
    pub mini_heap: Option<MiniHeap>,
}

/// Counters of the global heap; each wraps around past `usize::MAX`. Every
/// meshing accounts for one page, so the memory meshed in all is
/// `mesh_count` pages.
#[derive(Debug, Clone, Copy)]
pub struct MeshStats {
    pub mesh_count: usize,
    pub meshed_pages_hwm: usize,
    pub alloc_count: usize,
    pub free_count: usize,
}

impl Default for MeshStats {
    fn default() -> (r: Self)
        ensures
            r.mesh_count == 0,
            r.meshed_pages_hwm == 0,
            r.alloc_count == 0,
            r.free_count == 0,
    {
        MeshStats { mesh_count: 0, meshed_pages_hwm: 0, alloc_count: 0, free_count: 0 }
    }
}

/// A tracked span, as a value.
pub struct SpanModel {
    pub start: int,
    pub size: int,
    pub mini_heap: Option<MiniHeapModel>,
}

/// The global heap, as a value: its spans in the order they were set up,
/// the miniheaps queued per size class, and its counters.
pub struct GlobalHeapModel {
    pub spans: Seq<SpanModel>,
    pub queued: Map<usize, Seq<MiniHeapModel>>,
    pub stats: MeshStats,
}

/// The miniheaps of a sequence of spans.
pub open spec fn heaps_of(spans: Seq<SpanModel>) -> Seq<Option<MiniHeapModel>> {
    spans.map_values(|s: SpanModel| s.mini_heap)
}

/// `h` is a miniheap that has `ptr` in one of its slots in use.
pub open spec fn heap_owns(h: Option<MiniHeapModel>, ptr: int) -> bool {
    h matches Some(m) && m.owns(ptr)
}

/// Index of the first miniheap at or after `k` that owns `ptr`, or the
/// number of miniheaps when none does.
pub open spec fn first_owner(hs: Seq<Option<MiniHeapModel>>, ptr: int, k: int) -> int
    decreases hs.len() - k,
{
    if k >= hs.len() {
        hs.len() as int
    } else if heap_owns(hs[k], ptr) {
        k
    } else {
        first_owner(hs, ptr, k + 1)
    }
}

/// Miniheaps `i` and `j` are both present and `i` can take the objects of
/// `j`.
pub open spec fn meshable(hs: Seq<Option<MiniHeapModel>>, i: int, j: int) -> bool {
    &&& hs[i] is Some
    &&& hs[j] is Some
    &&& hs[i]->0.can_mesh_with(hs[j]->0)
}

/// The meshable pairs `(i, k)` with `i < k < j`, in order of `k`.
pub open spec fn row_pairs(hs: Seq<Option<MiniHeapModel>>, i: int, j: int) -> Seq<(int, int)>
    decreases j - i,
{
    if j <= i + 1 {
        seq![]
    } else {
        row_pairs(hs, i, j - 1) + if meshable(hs, i, j - 1) {
            seq![(i, j - 1)]
        } else {
            seq![]
        }
    }
}

/// The meshable pairs whose first miniheap comes before `i`, row by row.
pub open spec fn mesh_pairs_before(hs: Seq<Option<MiniHeapModel>>, i: int) -> Seq<(int, int)>
    decreases i,
{
    if i <= 0 {
        seq![]
    } else {
        mesh_pairs_before(hs, i - 1) + row_pairs(hs, i - 1, hs.len() as int)
    }
}

/// Every meshable pair `(i, j)` with `i < j`, ordered by `i` then `j`.
pub open spec fn mesh_pairs(hs: Seq<Option<MiniHeapModel>>) -> Seq<(int, int)> {
    mesh_pairs_before(hs, hs.len() as int)
}

/// `x + n`, wrapped around as a `usize` counter does.
pub open spec fn wrap_add(x: int, n: int) -> int {
    (x + n) % (usize::MAX + 1)
}

impl GlobalHeapModel {
    /// Some tracked miniheap owns `ptr`.
    pub open spec fn owner(self, ptr: int) -> bool {
        first_owner(heaps_of(self.spans), ptr, 0) < self.spans.len()
    }

    /// The counters after one meshing per meshable pair of `spans`.
    pub open spec fn meshed(self) -> GlobalHeapModel {
        GlobalHeapModel {
            stats: MeshStats {
                mesh_count: wrap_add(
                    self.stats.mesh_count as int,
                    mesh_pairs(heaps_of(self.spans)).len() as int,
                ) as usize,
                ..self.stats
            },
            ..self
        }
    }

    /// The global heap after it set up the miniheap `m` over `span`: the span
    /// is tracked with a copy of `m`, and one more miniheap is counted.
    pub open spec fn after_create(self, m: MiniHeapModel, span: int) -> GlobalHeapModel {
        GlobalHeapModel {
            spans: self.spans.push(
                SpanModel { start: span, size: SPAN_SIZE as int, mini_heap: Some(m) },
            ),
            stats: MeshStats {
                alloc_count: wrap_add(self.stats.alloc_count as int, 1) as usize,
                ..self.stats
            },
            ..self
        }
    }

    /// The global heap after `ptr` is given back: the first tracked
    /// miniheap that owns it frees the slot and every meshable pair is
    /// meshed once; with no owner nothing changes.
    pub open spec fn after_deallocate(self, ptr: int) -> GlobalHeapModel {
        let k = first_owner(heaps_of(self.spans), ptr, 0);
        if k < self.spans.len() {
            let s = self.spans[k];
            GlobalHeapModel {
                spans: self.spans.update(
                    k,
                    SpanModel { mini_heap: Some(s.mini_heap->0.after_free(ptr)), ..s },
                ),
                ..self
            }.meshed()
        } else {
            self
        }
    }
}

/// Adding one to a wrapping counter.
pub proof fn lemma_wrap_add_one(x: usize)
    ensures
        (if x == usize::MAX { 0 } else { x + 1 }) == wrap_add(x as int, 1),
{
    if x == usize::MAX {
        vstd::arithmetic::div_mod::lemma_mod_self_0(usize::MAX + 1);
    } else {
        vstd::arithmetic::div_mod::lemma_small_mod((x + 1) as nat, (usize::MAX + 1) as nat);
    }
}

/// A miniheap just set up over `span` for `size_class`: a span of
/// `SPAN_SIZE` bytes, no slot in use.
pub open spec fn fresh_heap(m: MiniHeapModel, span: int, size_class: int) -> bool {
    &&& m.consistent()
    &&& m.span == span
    &&& m.size_class == size_class
    &&& m.object_size == class_size(size_class)
    &&& m.max_objects == SPAN_SIZE as int / class_size(size_class)
    &&& m.allocated == 0
    &&& m.in_use == Set::<int>::empty()
}

} // verus!

verus! {

/// The spans handed out so far, the miniheaps waiting per size class, and
/// the meshing counters.
pub struct GlobalHeap {
    spans: Vec<Span>,
    mini_heaps: HashMap<usize, VecDeque<MiniHeap>>,
    stats: MeshStats,
}

/// The model of an optional miniheap.
pub open spec fn heap_model(h: Option<MiniHeap>) -> Option<MiniHeapModel> {
    match h {
        Some(m) => Some(m@),
        None => None,
    }
}

impl View for GlobalHeap {
    type V = GlobalHeapModel;

    closed spec fn view(&self) -> GlobalHeapModel {
        GlobalHeapModel {
            spans: self.spans@.map_values(
                |s: Span|
                    SpanModel {
                        start: s.start as int,
                        size: s.size as int,
                        mini_heap: heap_model(s.mini_heap),
                    },
            ),
            queued: Map::new(
                |k: usize| self.mini_heaps@.contains_key(k),
                |k: usize| self.mini_heaps@[k]@.map_values(|m: MiniHeap| m@),
            ),
            stats: self.stats,
        }
    }
}

impl GlobalHeap {
    /// Every miniheap it holds, tracked or queued, is well formed.
    pub closed spec fn well_formed(&self) -> bool {
        &&& forall|i: int|
            0 <= i < self.spans@.len() ==> (#[trigger] self.spans@[i].mini_heap matches Some(
                m,
            ) ==> m.well_formed())
        &&& forall|k: usize, i: int|
            self.mini_heaps@.contains_key(k) && 0 <= i < self.mini_heaps@[k]@.len()
                ==> #[trigger] self.mini_heaps@[k]@[i].well_formed()
    }

    /// No span, no queued miniheap, every counter at zero.
    pub fn new() -> (r: Self)
        ensures
            r.well_formed(),
            r@.spans == Seq::<SpanModel>::empty(),
            r@.queued == Map::<usize, Seq<MiniHeapModel>>::empty(),
            r@.stats == (MeshStats { mesh_count: 0, meshed_pages_hwm: 0, alloc_count: 0, free_count: 0 }),
    {
        let r = Self { spans: Vec::new(), mini_heaps: HashMap::new(), stats: MeshStats::default() };
        assert(r@.spans =~= Seq::<SpanModel>::empty());
        assert(r@.queued =~= Map::<usize, Seq<MiniHeapModel>>::empty());
        r
    }

    /// The counters.
    pub fn stats(&self) -> (r: MeshStats)
        ensures
            r == self@.stats,
    {
        self.stats
    }

    /// The first miniheap queued for `size_class`, taken off its queue; none
    /// when the queue is empty or absent, in which case a new span is
    /// needed.
    pub fn get_mini_heap(&mut self, size_class: usize) -> (r: Option<MiniHeap>)
        requires
            old(self).well_formed(),
        ensures
            final(self).well_formed(),
            r matches Some(m) ==> m.well_formed(),
            ({
                let q = old(self)@.queued;
                if q.contains_key(size_class) && q[size_class].len() > 0 {
                    &&& r matches Some(m) && m@ == q[size_class][0]
                    &&& final(self)@ == (GlobalHeapModel {
                        queued: q.insert(size_class, q[size_class].drop_first()),
                        ..old(self)@
                    })
                } else {
                    r is None && final(self)@ == old(self)@
                }
            }),
    {
        broadcast use vstd::std_specs::hash::group_hash_axioms;

        let ghost m0 = self.mini_heaps@;
        match self.mini_heaps.remove(&size_class) {
            Some(mut queue) => {
                let ghost q0 = queue@;
                let popped = queue.pop_front();
                self.mini_heaps.insert(size_class, queue);
                proof {
                    assert(m0.contains_key(size_class) && m0[size_class]@ == q0);
                    assert(self.mini_heaps@ == m0.insert(size_class, queue));
                    assert forall|k: usize, i: int|
                        self.mini_heaps@.contains_key(k) && 0 <= i < self.mini_heaps@[k]@.len()
                            implies #[trigger] self.mini_heaps@[k]@[i].well_formed() by {
                        if k == size_class {
                            assert(q0[i + 1].well_formed());
                        }
                    }
                    if q0.len() > 0 {
                        assert(queue@.map_values(|m: MiniHeap| m@) =~= q0.map_values(
                            |m: MiniHeap| m@,
                        ).drop_first());
                        assert(self@.queued =~= old(self)@.queued.insert(
                            size_class,
                            old(self)@.queued[size_class].drop_first(),
                        ));
                    } else {
                        assert(queue@.map_values(|m: MiniHeap| m@) =~= q0.map_values(
                            |m: MiniHeap| m@,
                        ));
                        assert(self@.queued =~= old(self)@.queued);
                    }
                }
                if let Some(mini_heap) = popped {
                    return Some(mini_heap);
                }
            },
            None => {
                proof {
                    assert(self.mini_heaps@ =~= m0);
                }
            },
        }
        None
    }

    /// Set up a miniheap for `size_class` over the span the caller obtained
    /// at `span` (0 when it could not obtain one), shuffling its slots with
    /// `rng`, and track the span with a copy of the miniheap.
    pub fn create_mini_heap_with(&mut self, size_class: usize, span: usize, rng: rand::rngs::SmallRng) -> (r:
        Option<MiniHeap>)
        requires
            old(self).well_formed(),
            span + SPAN_SIZE <= usize::MAX,
        ensures
            final(self).well_formed(),
            r is None <==> span == 0,
            r is None ==> *final(self) == *old(self),
            r matches Some(m) ==> {
                &&& m.well_formed()
                &&& fresh_heap(m@, span as int, size_class as int)
                &&& final(self)@ == old(self)@.after_create(m@, span as int)
            },
    {
        let span_size = SPAN_SIZE;
        if span == 0 {
            return None;
        }
        let mini_heap = MiniHeap::new(span, size_class, span_size, rng);
        let copy = mini_heap.duplicate();
        let ghost spans0 = self.spans@;
        self.spans.push(Span { start: span, size: span_size, mini_heap: Some(copy) });
        proof {
            lemma_wrap_add_one(self.stats.alloc_count);
        }
        self.stats.alloc_count = self.stats.alloc_count.wrapping_add(1);
        proof {
            assert forall|i: int| 0 <= i < self.spans@.len() implies (
            #[trigger] self.spans@[i].mini_heap matches Some(m) ==> m.well_formed()) by {
                if i < spans0.len() {
                    assert(self.spans@[i] == spans0[i]);
                }
            }
            assert(self@.spans =~= old(self)@.spans.push(
                SpanModel { start: span as int, size: SPAN_SIZE as int, mini_heap: Some(mini_heap@) },
            ));
        }
        Some(mini_heap)
    }

    /// Set up a miniheap for `size_class` over the span the caller obtained
    /// at `span` (0 when it could not obtain one), with a generator seeded by
    /// the operating system. None when there is no span, or when the
    /// operating system gives no seed; then nothing changes.
    pub fn create_mini_heap(&mut self, size_class: usize, span: usize) -> (r: Option<MiniHeap>)
        requires
            old(self).well_formed(),
            span + SPAN_SIZE <= usize::MAX,
        ensures
            final(self).well_formed(),
            span == 0 ==> r is None,
            r is None ==> *final(self) == *old(self),
            r matches Some(m) ==> {
                &&& m.well_formed()
                &&& fresh_heap(m@, span as int, size_class as int)
                &&& final(self)@ == old(self)@.after_create(m@, span as int)
            },
    {
        if span == 0 {
            return None;
        }
        match seeded_rng() {
            Some(rng) => self.create_mini_heap_with(size_class, span, rng),
            None => None,
        }
    }

    /// Give back `ptr` to the first tracked miniheap that has it in use,
    /// then look for meshing opportunities. Whether some tracked miniheap
    /// had it.
    pub fn deallocate(&mut self, ptr: usize) -> (r: bool)
        requires
            old(self).well_formed(),
        ensures
            final(self).well_formed(),
            r == old(self)@.owner(ptr as int),
            final(self)@ == old(self)@.after_deallocate(ptr as int),
    {
        let ghost hs = heaps_of(self@.spans);
        let n = self.spans.len();
        let mut i: usize = 0;
        while i < n
            invariant
                n == self.spans@.len(),
                i <= n,
                self.well_formed(),
                self@ == old(self)@,
                self.spans@ == old(self).spans@,
                self.mini_heaps == old(self).mini_heaps,
                self.stats == old(self).stats,
                hs == heaps_of(self@.spans),
                hs.len() == n,
                first_owner(hs, ptr as int, 0) == first_owner(hs, ptr as int, i as int),
            decreases n - i,
        {
            let ghost before = *self;
            let done = match &mut self.spans[i].mini_heap {
                Some(mh) => mh.deallocate(ptr),
                None => false,
            };
            if done {
                proof {
                    assert(hs[i as int] == heap_model(before.spans@[i as int].mini_heap));
                    assert(heap_owns(hs[i as int], ptr as int));
                    let k = i as int;
                    let s = old(self)@.spans[k];
                    assert(self@.spans =~= old(self)@.spans.update(
                        k,
                        SpanModel { mini_heap: Some(s.mini_heap->0.after_free(ptr as int)), ..s },
                    ));
                    assert forall|j: int| 0 <= j < self.spans@.len() implies (
                    #[trigger] self.spans@[j].mini_heap matches Some(m) ==> m.well_formed()) by {
                        if j != k {
                            assert(self.spans@[j] == before.spans@[j]);
                        }
                    }
                }
                self.try_mesh();
                return true;
            }
            proof {
                assert(self.spans@ =~= before.spans@);
                assert(!heap_owns(hs[i as int], ptr as int));
            }
            i = i + 1;
        }
        false
    }

    /// Count one meshing per pair of tracked miniheaps `(i, j)`, `i < j`,
    /// where miniheap `i` can take the objects of miniheap `j`.
    fn try_mesh(&mut self)
        requires
            old(self).well_formed(),
        ensures
            final(self).well_formed(),
            final(self)@ == old(self)@.meshed(),
    {
        let ghost hs = heaps_of(self@.spans);
        let mut meshable_pairs: Vec<(usize, usize)> = Vec::new();
        let n = self.spans.len();
        let mut i: usize = 0;
        while i < n
            invariant
                n == self.spans@.len(),
                i <= n,
                self.well_formed(),
                hs == heaps_of(self@.spans),
                hs.len() == n,
                pairs_model(meshable_pairs@) == mesh_pairs_before(hs, i as int),
            decreases n - i,
        {
            match &self.spans[i].mini_heap {
                Some(mh1) => {
                    let mut j: usize = i + 1;
                    while j < n
                        invariant
                            n == self.spans@.len(),
                            i < j <= n,
                            self.well_formed(),
                            hs == heaps_of(self@.spans),
                            hs.len() == n,
                            self.spans@[i as int].mini_heap == Some(*mh1),
                            pairs_model(meshable_pairs@) == mesh_pairs_before(hs, i as int)
                                + row_pairs(hs, i as int, j as int),
                        decreases n - j,
                    {
                        let ghost p0 = meshable_pairs@;
                        match &self.spans[j].mini_heap {
                            Some(mh2) => {
                                if mh1.can_mesh_with(mh2) {
                                    meshable_pairs.push((i, j));
                                    proof {
                                        assert(pairs_model(meshable_pairs@) =~= pairs_model(p0).push(
                                            (i as int, j as int),
                                        ));
                                    }
                                }
                            },
                            None => {},
                        }
                        proof {
                            assert(hs[j as int] == heap_model(self.spans@[j as int].mini_heap));
                            assert(hs[i as int] == heap_model(self.spans@[i as int].mini_heap));
                            assert(row_pairs(hs, i as int, j + 1) =~= row_pairs(hs, i as int, j as int)
                                + if meshable(hs, i as int, j as int) {
                                seq![(i as int, j as int)]
                            } else {
                                seq![]
                            });
                        }
                        j = j + 1;
                    }
                },
                None => {
                    proof {
                        assert(hs[i as int] is None);
                        lemma_row_pairs_none(hs, i as int, n as int);
                    }
                },
            }
            proof {
                assert(mesh_pairs_before(hs, i + 1) == mesh_pairs_before(hs, i as int) + row_pairs(
                    hs,
                    i as int,
                    n as int,
                ));
            }
            i = i + 1;
        }
        let count = meshable_pairs.len();
        let ghost stats0 = self.stats;
        proof {
            vstd::arithmetic::div_mod::lemma_small_mod(
                stats0.mesh_count as nat,
                (usize::MAX + 1) as nat,
            );
        }
        let mut k: usize = 0;
        while k < count
            invariant
                count == meshable_pairs@.len(),
                k <= count,
                self.well_formed(),
                self.spans@ == old(self).spans@,
                self.mini_heaps == old(self).mini_heaps,
                self.stats == (MeshStats {
                    mesh_count: wrap_add(stats0.mesh_count as int, k as int) as usize,
                    ..stats0
                }),
            decreases count - k,
        {
            let pair = meshable_pairs[k];
            proof {
                lemma_wrap_add_step(stats0.mesh_count as int, k as int);
            }
            self.mesh_spans(pair.0, pair.1);
            k = k + 1;
        }
        proof {
            assert(pairs_model(meshable_pairs@).len() == meshable_pairs@.len());
            assert(self@.spans =~= old(self)@.spans);
            assert(self@.queued =~= old(self)@.queued);
        }
    }

    /// Count one meshing of the miniheaps of spans `i` and `j`. Moving the
    /// objects of one span into the other is not done here.
    fn mesh_spans(&mut self, _span1_idx: usize, _span2_idx: usize)
        ensures
            final(self).spans@ == old(self).spans@,
            final(self).mini_heaps == old(self).mini_heaps,
            final(self).stats == (MeshStats {
                mesh_count: (if old(self).stats.mesh_count == usize::MAX {
                    0
                } else {
                    old(self).stats.mesh_count + 1
                }) as usize,
                ..old(self).stats
            }),
    {
        self.stats.mesh_count = self.stats.mesh_count.wrapping_add(1);
    }
}

/// The pairs of indices, as integers.
pub open spec fn pairs_model(v: Seq<(usize, usize)>) -> Seq<(int, int)> {
    v.map_values(|p: (usize, usize)| (p.0 as int, p.1 as int))
}

/// With miniheap `i` absent there is no meshable pair in its row.
pub proof fn lemma_row_pairs_none(hs: Seq<Option<MiniHeapModel>>, i: int, j: int)
    requires
        0 <= i < hs.len(),
        hs[i] is None,
    ensures
        row_pairs(hs, i, j) == Seq::<(int, int)>::empty(),
    decreases j - i,
{
    if j > i + 1 {
        lemma_row_pairs_none(hs, i, j - 1);
        assert(row_pairs(hs, i, j) =~= Seq::<(int, int)>::empty());
    }
}

/// One more step of a wrapping counter.
pub proof fn lemma_wrap_add_step(x: int, k: int)
    requires
        0 <= x,
        0 <= k,
    ensures
        wrap_add(x, k) < usize::MAX + 1,
        0 <= wrap_add(x, k),
        (if wrap_add(x, k) == usize::MAX { 0 } else { wrap_add(x, k) + 1 }) == wrap_add(x, k + 1),
{
    let m = usize::MAX + 1;
    vstd::arithmetic::div_mod::lemma_mod_bound(x + k, m);
    vstd::arithmetic::div_mod::lemma_add_mod_noop(x + k, 1, m);
    vstd::arithmetic::div_mod::lemma_small_mod(1, m as nat);
    let w = wrap_add(x, k);
    if w == usize::MAX {
        vstd::arithmetic::div_mod::lemma_mod_self_0(m);
    } else {
        vstd::arithmetic::div_mod::lemma_small_mod((w + 1) as nat, m as nat);
    }
}

} // verus!

verus! {

/// Size class of a request of `size` bytes: the smallest class whose
/// objects hold it, the largest class for anything bigger.
pub open spec fn class_for_size(size: int) -> int {
    if size <= 8 {
        0
    } else if size <= 16 {
        1
    } else if size <= 32 {
        2
    } else if size <= 64 {
        3
    } else if size <= 128 {
        4
    } else {
        5
    }
}

/// What one step of an allocation came to.
#[derive(Debug, Clone, Copy, PartialEq, Eq, Structural)]
pub enum AllocStep {
    /// An object at this address.
    Allocated(usize),
    /// The miniheap at hand had no free slot.
    Exhausted,
    /// No miniheap is at hand for this size class: the caller obtains a
    /// span of `SPAN_SIZE` bytes and continues with `allocate_in_new_span`.
    NeedsSpan(usize),
}

/// One allocation step of `size` bytes, from the local miniheaps `local`
/// and the global heap `global` to `local2`, `global2` and the outcome `r`:
/// the local miniheap of the size class hands out its next slot if it has
/// one; otherwise the first miniheap queued for the class replaces it and
/// serves the request; with none queued, a span is asked for.
pub open spec fn allocate_step(
    local: Seq<Option<MiniHeapModel>>,
    global: GlobalHeapModel,
    size: int,
    r: AllocStep,
    local2: Seq<Option<MiniHeapModel>>,
    global2: GlobalHeapModel,
) -> bool {
    let sc = class_for_size(size);
    let q = global.queued;
    if local[sc] is Some && local[sc]->0.has_room() {
        let m = local[sc]->0;
        &&& r == AllocStep::Allocated(m.slot_address(m.next_slot()) as usize)
        &&& local2 == local.update(sc, Some(m.after_allocate()))
        &&& global2 == global
    } else if q.contains_key(sc as usize) && q[sc as usize].len() > 0 {
        let f = q[sc as usize][0];
        &&& global2 == GlobalHeapModel {
            queued: q.insert(sc as usize, q[sc as usize].drop_first()),
            ..global
        }
        &&& f.has_room() ==> r == AllocStep::Allocated(f.slot_address(f.next_slot()) as usize)
            && local2 == local.update(sc, Some(f.after_allocate()))
        &&& !f.has_room() ==> r == AllocStep::Exhausted && local2 == local.update(sc, Some(f))
    } else {
        &&& r == AllocStep::NeedsSpan(sc as usize)
        &&& local2 == local
        &&& global2 == global
    }
}

/// Allocating from a new miniheap over `span` for `size_class`: with a
/// miniheap set up, it becomes the local one of the class and hands out its
/// first slot; otherwise nothing changes and there is no object.
pub open spec fn new_span_step(
    local: Seq<Option<MiniHeapModel>>,
    global: GlobalHeapModel,
    size_class: int,
    span: int,
    r: Option<usize>,
    local2: Seq<Option<MiniHeapModel>>,
    global2: GlobalHeapModel,
) -> bool {
    match r {
        Some(a) => {
            let m = global2.spans.last().mini_heap->0;
            &&& global2.spans.len() > 0
            &&& global2.spans.last().mini_heap is Some
            &&& fresh_heap(m, span, size_class)
            &&& global2 == global.after_create(m, span)
            &&& local2 == local.update(size_class, Some(m.after_allocate()))
            &&& a == m.slot_address(m.next_slot())
        },
        None => local2 == local && global2 == global,
    }
}

/// Giving back `ptr`: the first local miniheap that owns it frees it;
/// with none, the global heap is asked, and its answer is the outcome.
pub open spec fn deallocate_step(
    local: Seq<Option<MiniHeapModel>>,
    global: GlobalHeapModel,
    ptr: int,
    r: bool,
    local2: Seq<Option<MiniHeapModel>>,
    global2: GlobalHeapModel,
) -> bool {
    let k = first_owner(local, ptr, 0);
    if k < local.len() {
        &&& r
        &&& local2 == local.update(k, Some(local[k]->0.after_free(ptr)))
        &&& global2 == global
    } else {
        &&& r == global.owner(ptr)
        &&& local2 == local
        &&& global2 == global.after_deallocate(ptr)
    }
}

/// One miniheap slot per size class, filled as the classes are used.
pub struct LocalHeap {
    mini_heaps: Vec<Option<MiniHeap>>,
}

impl View for LocalHeap {
    type V = Seq<Option<MiniHeapModel>>;

    closed spec fn view(&self) -> Seq<Option<MiniHeapModel>> {
        self.mini_heaps@.map_values(|h: Option<MiniHeap>| heap_model(h))
    }
}

impl LocalHeap {
    /// A slot per size class, each holding a well-formed miniheap or none.
    pub closed spec fn well_formed(&self) -> bool {
        &&& self.mini_heaps@.len() == MAX_SIZE_CLASS
        &&& forall|i: int|
            0 <= i < self.mini_heaps@.len() ==> (#[trigger] self.mini_heaps@[i] matches Some(m)
                ==> m.well_formed())
    }

    /// Every slot empty.
    pub fn new() -> (r: Self)
        ensures
            r.well_formed(),
            r@ == Seq::new(MAX_SIZE_CLASS as nat, |_i: int| None::<MiniHeapModel>),
    {
        let mut mini_heaps: Vec<Option<MiniHeap>> = Vec::new();
        let mut i: usize = 0;
        while i < MAX_SIZE_CLASS
            invariant
                i <= MAX_SIZE_CLASS,
                mini_heaps@.len() == i,
                forall|k: int| 0 <= k < i ==> #[trigger] mini_heaps@[k] is None,
            decreases MAX_SIZE_CLASS - i,
        {
            mini_heaps.push(None);
            i = i + 1;
        }
        let r = Self { mini_heaps };
        assert(r@ =~= Seq::new(MAX_SIZE_CLASS as nat, |_i: int| None::<MiniHeapModel>));
        r
    }

    /// Size class of a request of `size` bytes: up to 8 bytes class 0, up
    /// to 16 class 1, then 32, 64, 128; anything larger class 5.
    pub fn size_to_class(&self, size: usize) -> (r: usize)
        ensures
            r == class_for_size(size as int),
    {
        match size {
            0..=8 => 0,
            9..=16 => 1,
            17..=32 => 2,
            33..=64 => 3,
            65..=128 => 4,
            129..=256 => 5,
            _ => 5,
        }
    }

    /// One allocation step of `size` bytes; see `allocate_step`.
    pub fn allocate(&mut self, global: &mut GlobalHeap, size: usize) -> (r: AllocStep)
        requires
            old(self).well_formed(),
            old(global).well_formed(),
        ensures
            final(self).well_formed(),
            final(global).well_formed(),
            allocate_step(old(self)@, old(global)@, size as int, r, final(self)@, final(global)@),
    {
        let size_class = self.size_to_class(size);
        let ghost sc = size_class as int;
        let ghost before = self.mini_heaps@;
        match &mut self.mini_heaps[size_class] {
            Some(mini_heap) => {
                if let Some(ptr) = mini_heap.allocate() {
                    proof {
                        assert(self@ =~= old(self)@.update(sc, Some(old(self)@[sc]->0.after_allocate())));
                        assert forall|i: int| 0 <= i < self.mini_heaps@.len() implies (
                        #[trigger] self.mini_heaps@[i] matches Some(m) ==> m.well_formed()) by {
                            if i != sc {
                                assert(self.mini_heaps@[i] == before[i]);
                            }
                        }
                    }
                    return AllocStep::Allocated(ptr);
                }
            },
            None => {},
        }
        proof {
            assert(self.mini_heaps@ =~= before);
            assert(self@ == old(self)@);
        }
        match global.get_mini_heap(size_class) {
            None => AllocStep::NeedsSpan(size_class),
            Some(mut new_mini_heap) => {
                let result = new_mini_heap.allocate();
                let ghost installed = new_mini_heap;
                self.mini_heaps.set(size_class, Some(new_mini_heap));
                proof {
                    assert(self@ =~= old(self)@.update(sc, Some(installed@)));
                    assert forall|i: int| 0 <= i < self.mini_heaps@.len() implies (
                    #[trigger] self.mini_heaps@[i] matches Some(m) ==> m.well_formed()) by {
                        if i != sc {
                            assert(self.mini_heaps@[i] == before[i]);
                        }
                    }
                }
                match result {
                    Some(ptr) => AllocStep::Allocated(ptr),
                    None => AllocStep::Exhausted,
                }
            },
        }
    }

    /// Allocation from a new miniheap for `size_class` over the span the
    /// caller obtained at `span` (0 when it could not); see `new_span_step`.
    pub fn allocate_in_new_span(&mut self, global: &mut GlobalHeap, size_class: usize, span: usize) -> (r:
        Option<usize>)
        requires
            old(self).well_formed(),
            old(global).well_formed(),
            size_class < MAX_SIZE_CLASS,
            span + SPAN_SIZE <= usize::MAX,
        ensures
            final(self).well_formed(),
            final(global).well_formed(),
            span == 0 ==> r is None,
            new_span_step(
                old(self)@,
                old(global)@,
                size_class as int,
                span as int,
                r,
                final(self)@,
                final(global)@,
            ),
    {
        match global.create_mini_heap(size_class, span) {
            Some(m) => {
                proof {
                    assert(global@.spans.last().mini_heap == Some(m@));
                }
                self.install_and_allocate(size_class, span, m)
            },
            None => None,
        }
    }

    /// Allocation from a new miniheap for `size_class` over the span the
    /// caller obtained at `span` (0 when it could not), its slots shuffled
    /// with `rng`; see `new_span_step`. There is an allocation exactly when
    /// there is a span.
    pub fn allocate_in_new_span_with(
        &mut self,
        global: &mut GlobalHeap,
        size_class: usize,
        span: usize,
        rng: rand::rngs::SmallRng,
    ) -> (r: Option<usize>)
        requires
            old(self).well_formed(),
            old(global).well_formed(),
            size_class < MAX_SIZE_CLASS,
            span + SPAN_SIZE <= usize::MAX,
        ensures
            final(self).well_formed(),
            final(global).well_formed(),
            r is None <==> span == 0,
            new_span_step(
                old(self)@,
                old(global)@,
                size_class as int,
                span as int,
                r,
                final(self)@,
                final(global)@,
            ),
    {
        match global.create_mini_heap_with(size_class, span, rng) {
            Some(m) => {
                proof {
                    assert(global@.spans.last().mini_heap == Some(m@));
                }
                self.install_and_allocate(size_class, span, m)
            },
            None => None,
        }
    }

    /// Put the fresh miniheap `mini_heap` in place for `size_class` and
    /// allocate its first slot.
    fn install_and_allocate(&mut self, size_class: usize, span: usize, mini_heap: MiniHeap) -> (r:
        Option<usize>)
        requires
            old(self).well_formed(),
            mini_heap.well_formed(),
            fresh_heap(mini_heap@, span as int, size_class as int),
            size_class < MAX_SIZE_CLASS,
            span + SPAN_SIZE <= usize::MAX,
        ensures
            final(self).well_formed(),
            r is Some,
            r->0 == mini_heap@.slot_address(mini_heap@.next_slot()),
            final(self)@ == old(self)@.update(size_class as int, Some(mini_heap@.after_allocate())),
    {
        let ghost before = self.mini_heaps@;
        let mut mini_heap = mini_heap;
        let ghost created = mini_heap@;
        proof {
            let os = class_size(size_class as int);
            assert(SPAN_SIZE as int / os >= 1) by (nonlinear_arith)
                requires
                    0 < os <= 256,
            ;
        }
        let result = mini_heap.allocate();
        let ghost installed = mini_heap;
        self.mini_heaps.set(size_class, Some(mini_heap));
        proof {
            let m = created;
            assert(m.free_order.len() > 0);
            let nx = m.next_slot();
            assert(0 <= nx < m.max_objects);
            assert(0 <= nx * m.object_size <= m.max_objects * m.object_size) by (nonlinear_arith)
                requires
                    0 <= nx < m.max_objects,
                    m.object_size > 0,
            ;
            assert(self@ =~= old(self)@.update(size_class as int, Some(installed@)));
            assert forall|i: int| 0 <= i < self.mini_heaps@.len() implies (
            #[trigger] self.mini_heaps@[i] matches Some(m) ==> m.well_formed()) by {
                if i != size_class {
                    assert(self.mini_heaps@[i] == before[i]);
                }
            }
        }
        result
    }

    /// Give back `ptr`; see `deallocate_step`.
    pub fn deallocate(&mut self, global: &mut GlobalHeap, ptr: usize) -> (r: bool)
        requires
            old(self).well_formed(),
            old(global).well_formed(),
        ensures
            final(self).well_formed(),
            final(global).well_formed(),
            deallocate_step(old(self)@, old(global)@, ptr as int, r, final(self)@, final(global)@),
    {
        let n = self.mini_heaps.len();
        let mut i: usize = 0;
        while i < n
            invariant
                n == self.mini_heaps@.len(),
                i <= n,
                self.well_formed(),
                self.mini_heaps@ == old(self).mini_heaps@,
                self@ == old(self)@,
                self@.len() == n,
                global.well_formed(),
                *global == *old(global),
                first_owner(self@, ptr as int, 0) == first_owner(self@, ptr as int, i as int),
            decreases n - i,
        {
            let ghost before = self.mini_heaps@;
            let done = match &mut self.mini_heaps[i] {
                Some(mini_heap) => mini_heap.deallocate(ptr),
                None => false,
            };
            if done {
                proof {
                    let k = i as int;
                    assert(old(self)@[k] == heap_model(before[k]));
                    assert(heap_owns(old(self)@[k], ptr as int));
                    assert(self@ =~= old(self)@.update(
                        k,
                        Some(old(self)@[k]->0.after_free(ptr as int)),
                    ));
                    assert forall|j: int| 0 <= j < self.mini_heaps@.len() implies (
                    #[trigger] self.mini_heaps@[j] matches Some(m) ==> m.well_formed()) by {
                        if j != k {
                            assert(self.mini_heaps@[j] == before[j]);
                        }
                    }
                }
                return true;
            }
            proof {
                assert(self.mini_heaps@ =~= before);
                assert(old(self)@[i as int] == heap_model(before[i as int]));
                assert(!heap_owns(old(self)@[i as int], ptr as int));
            }
            i = i + 1;
        }
        global.deallocate(ptr)
    }
}

} // verus!

verus! {

/// The allocator: a global heap and the local heap that draws on it.
pub struct MeshAllocator {
    global_heap: GlobalHeap,
    local_heap: LocalHeap,
}

impl MeshAllocator {
    /// The local miniheaps, one slot per size class.
    pub closed spec fn local(&self) -> Seq<Option<MiniHeapModel>> {
        self.local_heap@
    }

    /// The global heap.
    pub closed spec fn global(&self) -> GlobalHeapModel {
        self.global_heap@
    }

    /// Both heaps are well formed.
    pub closed spec fn well_formed(&self) -> bool {
        self.global_heap.well_formed() && self.local_heap.well_formed()
    }

    /// An allocator with no miniheap and no span.
    pub fn new() -> (r: Self)
        ensures
            r.well_formed(),
            r.local() == Seq::new(MAX_SIZE_CLASS as nat, |_i: int| None::<MiniHeapModel>),
            r.global().spans == Seq::<SpanModel>::empty(),
            r.global().queued == Map::<usize, Seq<MiniHeapModel>>::empty(),
            r.global().stats == (MeshStats {
                mesh_count: 0,
                meshed_pages_hwm: 0,
                alloc_count: 0,
                free_count: 0,
            }),
    {
        MeshAllocator { global_heap: GlobalHeap::new(), local_heap: LocalHeap::new() }
    }

    /// The counters of the global heap.
    pub fn stats(&self) -> (r: MeshStats)
        ensures
            r == self.global().stats,
    {
        self.global_heap.stats()
    }

    /// One allocation step of `size` bytes on the local heap; see
    /// `allocate_step`.
    pub fn allocate_local(&mut self, size: usize) -> (r: AllocStep)
        requires
            old(self).well_formed(),
        ensures
            final(self).well_formed(),
            allocate_step(
                old(self).local(),
                old(self).global(),
                size as int,
                r,
                final(self).local(),
                final(self).global(),
            ),
    {
        self.local_heap.allocate(&mut self.global_heap, size)
    }

    /// Allocation from a new miniheap for `size_class` over the span the
    /// caller obtained at `span` (0 when it could not); see `new_span_step`.
    pub fn allocate_in_new_span(&mut self, size_class: usize, span: usize) -> (r: Option<usize>)
        requires
            old(self).well_formed(),
            size_class < MAX_SIZE_CLASS,
            span + SPAN_SIZE <= usize::MAX,
        ensures
            final(self).well_formed(),
            span == 0 ==> r is None,
            new_span_step(
                old(self).local(),
                old(self).global(),
                size_class as int,
                span as int,
                r,
                final(self).local(),
                final(self).global(),
            ),
    {
        self.local_heap.allocate_in_new_span(&mut self.global_heap, size_class, span)
    }

    /// Allocation from a new miniheap for `size_class` over the span the
    /// caller obtained at `span` (0 when it could not), its slots shuffled
    /// with `rng`; see `new_span_step`. There is an allocation exactly when
    /// there is a span.
    pub fn allocate_in_new_span_with(&mut self, size_class: usize, span: usize, rng: rand::rngs::SmallRng) -> (r:
        Option<usize>)
        requires
            old(self).well_formed(),
            size_class < MAX_SIZE_CLASS,
            span + SPAN_SIZE <= usize::MAX,
        ensures
            final(self).well_formed(),
            r is None <==> span == 0,
            new_span_step(
                old(self).local(),
                old(self).global(),
                size_class as int,
                span as int,
                r,
                final(self).local(),
                final(self).global(),
            ),
    {
        self.local_heap.allocate_in_new_span_with(&mut self.global_heap, size_class, span, rng)
    }

    /// Give back `ptr` on the local heap; see `deallocate_step`.
    pub fn deallocate_local(&mut self, ptr: usize) -> (r: bool)
        requires
            old(self).well_formed(),
        ensures
            final(self).well_formed(),
            deallocate_step(
                old(self).local(),
                old(self).global(),
                ptr as int,
                r,
                final(self).local(),
                final(self).global(),
            ),
    {
        self.local_heap.deallocate(&mut self.global_heap, ptr)
    }
}

impl Default for MeshAllocator {
    fn default() -> (r: Self)
        ensures
            r.well_formed(),
            r.local() == Seq::new(MAX_SIZE_CLASS as nat, |_i: int| None::<MiniHeapModel>),
            r.global().spans == Seq::<SpanModel>::empty(),
    {
        Self::new()
    }
}

} // verus!

verus! {

/// The slot of the address of slot `i` is `i`, and that address lies in the
/// span.
pub proof fn lemma_slot_of_address(m: MiniHeapModel, i: int)
    requires
        m.consistent(),
        0 <= i < m.max_objects,
    ensures
        m.slot_of(m.slot_address(i)) == i,
        m.contains(m.slot_address(i)),
{
    let os = m.object_size;
    assert(os >= 8);
    assert((i * os) / os == i) by (nonlinear_arith)
        requires
            os > 0,
    ;
    assert(i * os < m.max_objects * os) by (nonlinear_arith)
        requires
            os > 0,
            i < m.max_objects,
    ;
    assert(0 <= i * os) by (nonlinear_arith)
        requires
            os > 0,
            i >= 0,
    ;
}

/// Handing out a slot keeps a miniheap consistent, and the slot handed out
/// was free.
pub proof fn law_allocate_consistent(m: MiniHeapModel)
    requires
        m.consistent(),
        m.has_room(),
    ensures
        !m.in_use.contains(m.next_slot()),
        0 <= m.next_slot() < m.max_objects,
        m.after_allocate().consistent(),
        m.after_allocate().in_use.contains(m.next_slot()),
{
    let m2 = m.after_allocate();
    assert(m.free_order.len() > 0);
    assert forall|k: int| 0 <= k < m2.free_order.len() implies 0 <= #[trigger] m2.free_order[k]
        < m2.max_objects && !m2.in_use.contains(m2.free_order[k]) by {
        assert(m2.free_order[k] == m.free_order[k + 1]);
    }
    assert forall|a: int, b: int|
        0 <= a < m2.free_order.len() && 0 <= b < m2.free_order.len() && a != b implies m2.free_order[a]
        != m2.free_order[b] by {
        assert(m2.free_order[a] == m.free_order[a + 1]);
        assert(m2.free_order[b] == m.free_order[b + 1]);
    }
}

/// Giving back an object keeps a miniheap consistent, and its slot is the
/// next one handed out.
pub proof fn law_free_consistent(m: MiniHeapModel, ptr: int)
    requires
        m.consistent(),
        m.owns(ptr),
    ensures
        m.after_free(ptr).consistent(),
        m.after_free(ptr).has_room(),
        m.after_free(ptr).next_slot() == m.slot_of(ptr),
        !m.after_free(ptr).in_use.contains(m.slot_of(ptr)),
{
    let i = m.slot_of(ptr);
    let m2 = m.after_free(ptr);
    assert(0 <= i < m.max_objects);
    assert(m.allocated > 0) by {
        if m.allocated == 0 {
            lemma_all_free_listed(m, i);
        }
    }
    assert forall|k: int| 0 <= k < m2.free_order.len() implies 0 <= #[trigger] m2.free_order[k]
        < m2.max_objects && !m2.in_use.contains(m2.free_order[k]) by {
        if k > 0 {
            assert(m2.free_order[k] == m.free_order[k - 1]);
        }
    }
    assert forall|a: int, b: int|
        0 <= a < m2.free_order.len() && 0 <= b < m2.free_order.len() && a != b implies m2.free_order[a]
        != m2.free_order[b] by {
        if a > 0 {
            assert(m2.free_order[a] == m.free_order[a - 1]);
        }
        if b > 0 {
            assert(m2.free_order[b] == m.free_order[b - 1]);
        }
    }
}

/// With no slot in use, the free slots waiting to be handed out are all the
/// slots: each slot is listed.
proof fn lemma_all_free_listed(m: MiniHeapModel, i: int)
    requires
        m.consistent(),
        m.allocated == 0,
        0 <= i < m.max_objects,
    ensures
        m.free_order.contains(i),
{
    let n = m.max_objects;
    let f = m.free_order;
    if !f.contains(i) {
        let g = f.map_values(|x: int| if x > i { x - 1 } else { x });
        assert forall|k: int| 0 <= k < g.len() implies 0 <= #[trigger] g[k] < n - 1 by {
            assert(f[k] != i);
        }
        assert(g.no_duplicates()) by {
            assert forall|a: int, b: int| 0 <= a < g.len() && 0 <= b < g.len() && a != b implies g[a]
                != g[b] by {
                assert(f[a] != i && f[b] != i);
            }
        }
        lemma_pigeonhole(g, n - 1);
    }
}

/// A sequence without repeats, drawn from `0..n`, has at most `n` elements.
proof fn lemma_pigeonhole(s: Seq<int>, n: int)
    requires
        0 <= n,
        s.no_duplicates(),
        forall|k: int| 0 <= k < s.len() ==> 0 <= #[trigger] s[k] < n,
    ensures
        s.len() <= n,
    decreases s.len(),
{
    if s.len() > 0 {
        let last = s.last();
        let t = s.drop_last().map_values(|x: int| if x > last { x - 1 } else { x });
        assert forall|k: int| 0 <= k < t.len() implies 0 <= #[trigger] t[k] < n - 1 by {
            assert(s[k] != last);
        }
        assert(t.no_duplicates()) by {
            assert forall|a: int, b: int| 0 <= a < t.len() && 0 <= b < t.len() && a != b implies t[a]
                != t[b] by {
                assert(s[a] != last && s[b] != last);
                assert(s[a] != s[b]);
            }
        }
        assert(s[0] < n);
        lemma_pigeonhole(t, n - 1);
    }
}

/// Handing out a slot and giving its object back restores the miniheap.
pub proof fn law_allocate_then_free(m: MiniHeapModel)
    requires
        m.consistent(),
        m.has_room(),
    ensures
        m.after_allocate().owns(m.slot_address(m.next_slot())),
        m.after_allocate().after_free(m.slot_address(m.next_slot())) == m,
{
    let i = m.next_slot();
    law_allocate_consistent(m);
    lemma_slot_of_address(m, i);
    let m2 = m.after_allocate();
    let m3 = m2.after_free(m.slot_address(i));
    assert(m3.in_use =~= m.in_use);
    assert(m3.free_order =~= m.free_order);
}

/// Giving back an object and allocating again hands out the same slot and
/// restores the miniheap.
pub proof fn law_free_then_allocate(m: MiniHeapModel, ptr: int)
    requires
        m.consistent(),
        m.owns(ptr),
    ensures
        m.after_free(ptr).slot_address(m.after_free(ptr).next_slot()) == m.slot_address(
            m.slot_of(ptr),
        ),
        m.after_free(ptr).after_allocate() == m,
{
    law_free_consistent(m, ptr);
    let m3 = m.after_free(ptr).after_allocate();
    assert(m3.in_use =~= m.in_use);
    assert(m3.free_order =~= m.free_order);
}

/// Two slots handed out one after the other have different addresses.
pub proof fn law_allocations_differ(m: MiniHeapModel)
    requires
        m.consistent(),
        m.allocated + 2 <= m.max_objects,
    ensures
        m.slot_address(m.next_slot()) != m.after_allocate().slot_address(
            m.after_allocate().next_slot(),
        ),
{
    law_allocate_consistent(m);
    let m2 = m.after_allocate();
    law_allocate_consistent(m2);
    lemma_slot_of_address(m, m.next_slot());
    lemma_slot_of_address(m, m2.next_slot());
}

/// Every request of at most 256 bytes gets the smallest size class whose
/// objects hold it.
pub proof fn law_size_class_fits(size: int)
    requires
        0 <= size <= 256,
    ensures
        size <= class_size(class_for_size(size)),
        class_for_size(size) == 0 || class_size(class_for_size(size) - 1) < size,
{
}

} // verus!

verus! {

/// The first owner from `j` on is `k` when nothing between `j` and `k` owns
/// `ptr` and `k` does.
proof fn lemma_first_owner_is(hs: Seq<Option<MiniHeapModel>>, ptr: int, j: int, k: int)
    requires
        0 <= j <= k < hs.len(),
        heap_owns(hs[k], ptr),
        forall|i: int| j <= i < k ==> !heap_owns(#[trigger] hs[i], ptr),
    ensures
        first_owner(hs, ptr, j) == k,
    decreases k - j,
{
    if j < k {
        lemma_first_owner_is(hs, ptr, j + 1, k);
    }
}

/// An object handed out by the local miniheap of its size class is given
/// back by the next deallocation of its address, which restores both heaps,
/// provided no local miniheap of a smaller class has that address in use.
pub proof fn law_allocate_then_deallocate(
    local: Seq<Option<MiniHeapModel>>,
    global: GlobalHeapModel,
    size: int,
    a: usize,
    local2: Seq<Option<MiniHeapModel>>,
    global2: GlobalHeapModel,
    r: bool,
    local3: Seq<Option<MiniHeapModel>>,
    global3: GlobalHeapModel,
)
    requires
        0 <= class_for_size(size) < local.len(),
        local[class_for_size(size)] is Some,
        local[class_for_size(size)]->0.consistent(),
        local[class_for_size(size)]->0.has_room(),
        forall|k: int| 0 <= k < class_for_size(size) ==> !heap_owns(#[trigger] local[k], a as int),
        allocate_step(local, global, size, AllocStep::Allocated(a), local2, global2),
        deallocate_step(local2, global2, a as int, r, local3, global3),
    ensures
        r,
        local3 == local,
        global3 == global,
{
    let sc = class_for_size(size);
    let m = local[sc]->0;
    law_allocate_then_free(m);
    law_allocate_consistent(m);
    lemma_slot_of_address(m, m.next_slot());
    assert(a as int == m.slot_address(m.next_slot()));
    assert(local2[sc] == Some(m.after_allocate()));
    assert forall|i: int| 0 <= i < sc implies !heap_owns(#[trigger] local2[i], a as int) by {
        assert(local2[i] == local[i]);
    }
    lemma_first_owner_is(local2, a as int, 0, sc);
    assert(local3 =~= local);
}

/// Two miniheaps can be meshed exactly when they are of one size class and
/// the objects in use in both, counted by their slots in use, fit in the
/// slots of the first.
pub proof fn law_can_mesh_with(a: MiniHeap, b: MiniHeap)
    requires
        a.well_formed(),
        b.well_formed(),
    ensures
        a@.in_use.finite(),
        b@.in_use.finite(),
        a@.can_mesh_with(b@) == (a@.size_class == b@.size_class && a@.in_use.len() + b@.in_use.len()
            <= a@.max_objects),
{
    a.lemma_in_use_count();
    b.lemma_in_use_count();
}

} // verus!
