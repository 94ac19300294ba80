//! Per-miniheap flags packed into one 32-bit word.
use vstd::prelude::*;

use crate::bitmap::{
    bit_at, count_set, lemma_count_set_bound, with_bit_cleared, with_bit_set, Bitmap, Bitmapper,
    RelaxedFixedBitmap,
};
use crate::common::PAGE_SIZE;
use crate::internal::list;
use crate::internal::{ListEntry, MiniHeapId, Span};

verus! {

/// Size class field: bits 0..6.
pub open spec fn size_class_field(v: u32) -> u32 {
    v & 0x3fu32
}

/// Free list id field: bits 6..8.
pub open spec fn free_list_id_field(v: u32) -> u32 {
    (v >> 6u32) & 0x3u32
}

/// The word with its free list id field replaced by `id`.
pub open spec fn with_free_list_id(v: u32, id: u32) -> u32 {
    (v & !(0x3u32 << 6u32)) | (id << 6u32)
}

/// Replacing the free list id field by `id` makes it read `id`.
pub proof fn lemma_with_free_list_id(v: u32, id: u32)
    requires
        id < 4,
    ensures
        free_list_id_field(with_free_list_id(v, id)) == id,
{
    assert(((((v & !(0x3u32 << 6u32)) | (id << 6u32)) >> 6u32) & 0x3u32) == id) by (bit_vector)
        requires
            id < 4,
    ;
}

/// Shuffle vector offset field: bits 8..16.
pub open spec fn sv_offset_field(v: u32) -> u32 {
    (v >> 8u32) & 0xffu32
}

/// Maximum object count field: bits 16..25.
pub open spec fn max_count_field(v: u32) -> u32 {
    (v >> 16u32) & 0x1ffu32
}

/// The meshed flag: bit 30.
pub open spec fn meshed_field(v: u32) -> bool {
    v & (1u32 << 30u32) == (1u32 << 30u32)
}

/// Packed state of a miniheap: size class, free list id, shuffle vector
/// offset, maximum object count and the meshed flag.
pub struct Flags(u32);

impl Flags {
    /// The packed word.
    pub closed spec fn word(&self) -> u32 {
        self.0
    }

    const SIZE_CLASS_SHIFT: u32 = 0;

    const FREE_LIST_ID_SHIFT: u32 = 6;

    const SHUFFLE_VECTOR_OFFSET_SHIFT: u32 = 8;

    const MAX_COUNT_SHIFT: u32 = 16;

    const MESHED_OFFSET: u32 = 30;

    fn get_single_bit_mask(pos: u32) -> (r: u32)
        requires
            pos < 32,
        ensures
            r == 1u32 << pos,
    {
        1u32 << pos
    }

    /// Keep the bits selected by `mask` and add `new_val`.
    fn set_masked(&mut self, mask: u32, new_val: u32)
        ensures
            final(self).word() == (old(self).word() & mask) | new_val,
    {
        let old = self.0;
        self.0 = (old & mask) | new_val;
    }

    /// Flags for a fresh miniheap.
    pub fn new(max_count: u32, size_class: u32, sv_offset: u32, free_list_id: u32) -> (r: Self)
        requires
            free_list_id & 0x3 == free_list_id,
            size_class & 0x3f == size_class,
            sv_offset < 255,
            max_count <= 256,
        ensures
            max_count_field(r.word()) == max_count,
            size_class_field(r.word()) == size_class,
            sv_offset_field(r.word()) == sv_offset,
            free_list_id_field(r.word()) == free_list_id,
            !meshed_field(r.word()),
    {
        assert((max_count << 16u32) + (size_class << 0u32) + (sv_offset << 8u32) + (free_list_id
            << 6u32) <= u32::MAX && (max_count << 16u32) + (size_class << 0u32) <= u32::MAX && (
        max_count << 16u32) + (size_class << 0u32) + (sv_offset << 8u32) <= u32::MAX)
            by (bit_vector)
            requires
                free_list_id & 0x3 == free_list_id,
                size_class & 0x3f == size_class,
                sv_offset < 255,
                max_count <= 256,
        ;
        let flags = (max_count << Self::MAX_COUNT_SHIFT) + (size_class << Self::SIZE_CLASS_SHIFT) + (
        sv_offset << Self::SHUFFLE_VECTOR_OFFSET_SHIFT) + (free_list_id << Self::FREE_LIST_ID_SHIFT);
        assert({
            &&& (flags >> 16u32) & 0x1ffu32 == max_count
            &&& flags & 0x3fu32 == size_class
            &&& (flags >> 8u32) & 0xffu32 == sv_offset
            &&& (flags >> 6u32) & 0x3u32 == free_list_id
            &&& flags & (1u32 << 30u32) != (1u32 << 30u32)
        }) by (bit_vector)
            requires
                free_list_id & 0x3 == free_list_id,
                size_class & 0x3f == size_class,
                sv_offset < 255,
                max_count <= 256,
                flags == (max_count << 16u32) + (size_class << 0u32) + (sv_offset << 8u32) + (
                free_list_id << 6u32),
        ;
        Flags(flags)
    }

    /// The free list the miniheap is on.
    pub fn free_list_id(&self) -> (r: u32)
        ensures
            r == free_list_id_field(self.word()),
    {
        self.0 >> Self::FREE_LIST_ID_SHIFT & 0x3
    }

    /// Move the miniheap to free list `id`; the other fields are kept.
    pub fn set_free_list_id(&mut self, id: u32)
        requires
            id < list::MAX as u32,
        ensures
            final(self).word() == with_free_list_id(old(self).word(), id),
            free_list_id_field(final(self).word()) == id,
            size_class_field(final(self).word()) == size_class_field(old(self).word()),
            sv_offset_field(final(self).word()) == sv_offset_field(old(self).word()),
            max_count_field(final(self).word()) == max_count_field(old(self).word()),
            meshed_field(final(self).word()) == meshed_field(old(self).word()),
    {
        let mask: u32 = !(0x3u32 << Self::FREE_LIST_ID_SHIFT);
        let new_val = id << Self::FREE_LIST_ID_SHIFT;
        let ghost v = self.0;
        self.set_masked(mask, new_val);
        assert({
            let n = (v & !(0x3u32 << 6u32)) | (id << 6u32);
            &&& (n >> 6u32) & 0x3u32 == id
            &&& n & 0x3fu32 == v & 0x3fu32
            &&& (n >> 8u32) & 0xffu32 == (v >> 8u32) & 0xffu32
            &&& (n >> 16u32) & 0x1ffu32 == (v >> 16u32) & 0x1ffu32
            &&& (n & (1u32 << 30u32) == (1u32 << 30u32)) == (v & (1u32 << 30u32) == (1u32
                << 30u32))
        }) by (bit_vector)
            requires
                id < 4,
        ;
    }

    /// The object capacity of the miniheap.
    pub fn max_count(&self) -> (r: u32)
        ensures
            r == max_count_field(self.word()),
    {
        (self.0 >> Self::MAX_COUNT_SHIFT) & 0x1ff
    }

    /// The size class of the miniheap.
    pub fn size_class(&self) -> (r: u32)
        ensures
            r == size_class_field(self.word()),
    {
        let w = self.0;
        assert((w >> 0u32) & 0x3fu32 == w & 0x3fu32) by (bit_vector);
        (w >> Self::SIZE_CLASS_SHIFT) & 0x3f
    }

    /// The shuffle vector offset of the miniheap.
    pub fn sv_offset(&self) -> (r: u8)
        ensures
            r == sv_offset_field(self.word()),
    {
        let w = self.0;
        let v = (w >> Self::SHUFFLE_VECTOR_OFFSET_SHIFT) & 0xff;
        assert(((w >> 8u32) & 0xffu32) <= 255) by (bit_vector);
        v as u8
    }

    /// Record shuffle vector offset `off`; the other fields are kept.
    pub fn set_sv_offet(&mut self, off: u8)
        requires
            off < 255,
        ensures
            sv_offset_field(final(self).word()) == off,
            size_class_field(final(self).word()) == size_class_field(old(self).word()),
            free_list_id_field(final(self).word()) == free_list_id_field(old(self).word()),
            max_count_field(final(self).word()) == max_count_field(old(self).word()),
            meshed_field(final(self).word()) == meshed_field(old(self).word()),
    {
        let mask: u32 = !(0xffu32 << Self::SHUFFLE_VECTOR_OFFSET_SHIFT);
        let new_val = (off as u32) << Self::SHUFFLE_VECTOR_OFFSET_SHIFT;
        let ghost v = self.0;
        let ghost o = off as u32;
        self.set_masked(mask, new_val);
        assert({
            let n = (v & !(0xffu32 << 8u32)) | (o << 8u32);
            &&& (n >> 8u32) & 0xffu32 == o
            &&& n & 0x3fu32 == v & 0x3fu32
            &&& (n >> 6u32) & 0x3u32 == (v >> 6u32) & 0x3u32
            &&& (n >> 16u32) & 0x1ffu32 == (v >> 16u32) & 0x1ffu32
            &&& (n & (1u32 << 30u32) == (1u32 << 30u32)) == (v & (1u32 << 30u32) == (1u32
                << 30u32))
        }) by (bit_vector)
            requires
                o < 255,
        ;
    }

    /// Mark the miniheap as meshed; the other fields are kept.
    pub fn set_meshed(&mut self)
        ensures
            meshed_field(final(self).word()),
            Self::same_fields(old(self).word(), final(self).word()),
    {
        let ghost v = self.0;
        self.set(Self::MESHED_OFFSET);
        assert({
            let n = v | (1u32 << 30u32);
            &&& n & (1u32 << 30u32) == (1u32 << 30u32)
            &&& n & 0x3fu32 == v & 0x3fu32
            &&& (n >> 6u32) & 0x3u32 == (v >> 6u32) & 0x3u32
            &&& (n >> 8u32) & 0xffu32 == (v >> 8u32) & 0xffu32
            &&& (n >> 16u32) & 0x1ffu32 == (v >> 16u32) & 0x1ffu32
        }) by (bit_vector);
    }

    /// Clear the meshed mark; the other fields are kept.
    pub fn unset_meshed(&mut self)
        ensures
            !meshed_field(final(self).word()),
            Self::same_fields(old(self).word(), final(self).word()),
    {
        let ghost v = self.0;
        self.unset(Self::MESHED_OFFSET);
        assert({
            let n = v & !(1u32 << 30u32);
            &&& n & (1u32 << 30u32) != (1u32 << 30u32)
            &&& n & 0x3fu32 == v & 0x3fu32
            &&& (n >> 6u32) & 0x3u32 == (v >> 6u32) & 0x3u32
            &&& (n >> 8u32) & 0xffu32 == (v >> 8u32) & 0xffu32
            &&& (n >> 16u32) & 0x1ffu32 == (v >> 16u32) & 0x1ffu32
        }) by (bit_vector);
    }

    /// Whether the miniheap is meshed.
    pub fn is_meshed(&self) -> (r: bool)
        ensures
            r == meshed_field(self.word()),
    {
        self.is(Self::MESHED_OFFSET)
    }

    /// The size class, free list id, shuffle vector offset and maximum count
    /// of `a` and `b` agree.
    pub open spec fn same_fields(a: u32, b: u32) -> bool {
        &&& size_class_field(a) == size_class_field(b)
        &&& free_list_id_field(a) == free_list_id_field(b)
        &&& sv_offset_field(a) == sv_offset_field(b)
        &&& max_count_field(a) == max_count_field(b)
    }

    fn is(&self, offset: u32) -> (r: bool)
        requires
            offset < 32,
        ensures
            r == (self.word() & (1u32 << offset) == (1u32 << offset)),
    {
        let mask = Self::get_single_bit_mask(offset);
        (self.0 & mask) == mask
    }

    fn set(&mut self, offset: u32)
        requires
            offset < 32,
        ensures
            final(self).word() == old(self).word() | (1u32 << offset),
    {
        let mask = Self::get_single_bit_mask(offset);
        let old_flags = self.0;
        self.0 = old_flags | mask;
    }

    fn unset(&mut self, offset: u32)
        requires
            offset < 32,
        ensures
            final(self).word() == old(self).word() & !(1u32 << offset),
    {
        let mask = Self::get_single_bit_mask(offset);
        let old_flags = self.0;
        self.0 = old_flags & !mask;
    }
}

/// The bookkeeping of one span of objects: which slots are in use, where
/// the span lies in the arena, the packed flags, the thread it is attached
/// to, the size of its objects, its links in a free list and the next
/// miniheap meshed with it.
pub struct MiniHeap {
    _bitmap: Bitmap,
    span: Span,
    free_list: ListEntry,
    _current: usize,
    _flags: Flags,
    object_size: usize,
    _next_meshed: MiniHeapId,
}

impl MiniHeap {
    /// The words of the slot bitmap.
    pub closed spec fn slots(&self) -> Seq<u64> {
        self._bitmap.view_words()
    }

    /// The span of pages the objects live in.
    pub closed spec fn span_of(&self) -> Span {
        self.span
    }

    /// The packed flags.
    pub closed spec fn flags_word(&self) -> u32 {
        self._flags.word()
    }

    /// The attached thread, 0 when detached.
    pub closed spec fn attached_to(&self) -> usize {
        self._current
    }

    /// Bytes of each object, for a miniheap of several objects.
    pub closed spec fn object_bytes(&self) -> usize {
        self.object_size
    }

    /// The next miniheap meshed with this one.
    pub closed spec fn next_meshed(&self) -> MiniHeapId {
        self._next_meshed
    }

    /// The links in its free list.
    pub closed spec fn free_list_links(&self) -> ListEntry {
        self.free_list
    }

    /// The bitmap is well formed and objects have a size.
    pub closed spec fn well_formed(&self) -> bool {
        &&& self._bitmap.well_formed()
        &&& self._bitmap.view_words().len() == 4
        &&& self.object_size > 0
    }

    /// A miniheap over `span` for `object_count` objects of `object_size`
    /// bytes of size class `size_class` (class 1 for a single large
    /// object), attached, no slot in use, nothing meshed, on no list.
    pub fn new(span: Span, object_count: u32, object_size: usize, size_class: u32) -> (r: Self)
        requires
            object_count <= 256,
            object_size > 0,
            size_class & 0x3f == size_class,
        ensures
            r.well_formed(),
            r.slots() == Seq::new(4, |_i: int| 0u64),
            r.span_of() == span,
            r.object_bytes() == object_size,
            max_count_field(r.flags_word()) == object_count,
            size_class_field(r.flags_word()) == if object_count > 1 {
                size_class
            } else {
                1
            },
            sv_offset_field(r.flags_word()) == 0,
            free_list_id_field(r.flags_word()) == list::ATTACHED,
            !meshed_field(r.flags_word()),
            r.attached_to() == 0,
            r.next_meshed().0 == 0,
            r.free_list_links() == (ListEntry { prev: MiniHeapId(0), next: MiniHeapId(0) }),
    {
        let class = if object_count > 1 {
            size_class
        } else {
            1
        };
        assert(3u32 & 0x3u32 == 3u32 && 1u32 & 0x3fu32 == 1u32) by (bit_vector);
        MiniHeap {
            _bitmap: Bitmap::new_atomic(),
            span,
            free_list: ListEntry::new(MiniHeapId::new(0), MiniHeapId::new(0)),
            _current: 0,
            _flags: Flags::new(object_count, class, 0, list::ATTACHED as u32),
            object_size,
            _next_meshed: MiniHeapId::new(0),
        }
    }

    /// Give back the object in slot `off`.
    pub fn free_off(&mut self, off: usize)
        requires
            old(self).well_formed(),
            off < 256,
        ensures
            final(self).well_formed(),
            final(self).slots() == with_bit_cleared(old(self).slots(), off as int),
    {
        let _ = self._bitmap.try_unset(off);
    }

    /// The number of objects.
    pub fn max_count(&self) -> (r: u32)
        ensures
            r == max_count_field(self.flags_word()),
    {
        self._flags.max_count()
    }

    /// Whether the miniheap holds a single large object.
    pub fn is_large_alloc(&self) -> (r: bool)
        ensures
            r == (max_count_field(self.flags_word()) == 1),
    {
        self.max_count() == 1
    }

    /// Bytes of each object: the object size, or the whole span for a
    /// single large object.
    pub fn object_size(&self) -> (r: usize)
        requires
            self.span_of().length * PAGE_SIZE <= usize::MAX,
        ensures
            max_count_field(self.flags_word()) != 1 ==> r == self.object_bytes(),
            max_count_field(self.flags_word()) == 1 ==> r == self.span_of().length * PAGE_SIZE,
    {
        if !self.is_large_alloc() {
            self.object_size
        } else {
            self.span.byte_length()
        }
    }

    /// The size class.
    pub fn size_class(&self) -> (r: u32)
        ensures
            r == size_class_field(self.flags_word()),
    {
        self._flags.size_class()
    }

    /// Bytes of the span.
    pub fn span_size(&self) -> (r: usize)
        requires
            self.span_of().length * PAGE_SIZE <= usize::MAX,
        ensures
            r == self.span_of().length * PAGE_SIZE,
    {
        self.span.byte_length()
    }

    /// Address of the span in an arena starting at `arena_begin`.
    pub fn get_span_start(&self, arena_begin: usize) -> (r: usize)
        requires
            arena_begin + self.span_of().offset * PAGE_SIZE <= usize::MAX,
        ensures
            r == arena_begin + self.span_of().offset * PAGE_SIZE,
    {
        arena_begin + self.span.offset as usize * PAGE_SIZE
    }

    /// Whether no slot is in use.
    pub fn is_empty(&self) -> (r: bool)
        requires
            self.well_formed(),
        ensures
            r == (count_set(self.slots()) == 0),
    {
        self._bitmap.in_use_ct() == 0
    }

    /// Whether every object is in use.
    pub fn is_full(&self) -> (r: bool)
        requires
            self.well_formed(),
        ensures
            r == (count_set(self.slots()) == max_count_field(self.flags_word())),
    {
        self.in_use_ct() == self.max_count()
    }

    /// The number of slots in use.
    pub fn in_use_ct(&self) -> (r: u32)
        requires
            self.well_formed(),
        ensures
            r == count_set(self.slots()),
    {
        proof {
            lemma_count_set_bound(self.slots());
        }
        self._bitmap.in_use_ct() as u32
    }

    /// Bytes of the objects not in use.
    pub fn bytes_free(&self) -> (r: u32)
        requires
            self.well_formed(),
            count_set(self.slots()) <= max_count_field(self.flags_word()),
            (max_count_field(self.flags_word()) - count_set(self.slots())) * self.object_bytes()
                <= u32::MAX,
            max_count_field(self.flags_word()) != 1,
            self.object_bytes() <= u32::MAX,
            self.span_of().length * PAGE_SIZE <= usize::MAX,
        ensures
            r == (max_count_field(self.flags_word()) - count_set(self.slots())) * self.object_bytes(),
    {
        let free = self.max_count() - self.in_use_ct();
        free * (self.object_size() as u32)
    }

    /// Mark as meshed.
    pub fn set_meshed(&mut self)
        ensures
            meshed_field(final(self).flags_word()),
            Flags::same_fields(old(self).flags_word(), final(self).flags_word()),
            final(self).slots() == old(self).slots(),
            final(self).well_formed() == old(self).well_formed(),
    {
        self._flags.set_meshed();
    }

    /// The shuffle vector offset.
    pub fn sv_offset(&self) -> (r: u8)
        ensures
            r == sv_offset_field(self.flags_word()),
    {
        self._flags.sv_offset()
    }

    /// Set the shuffle vector offset.
    pub fn set_sv_offset(&mut self, off: u8)
        requires
            off < 255,
        ensures
            sv_offset_field(final(self).flags_word()) == off,
            max_count_field(final(self).flags_word()) == max_count_field(old(self).flags_word()),
            free_list_id_field(final(self).flags_word()) == free_list_id_field(
                old(self).flags_word(),
            ),
            final(self).slots() == old(self).slots(),
            final(self).well_formed() == old(self).well_formed(),
    {
        self._flags.set_sv_offet(off);
    }

    /// The free list it is on.
    pub fn free_list_id(&self) -> (r: u32)
        ensures
            r == free_list_id_field(self.flags_word()),
    {
        self._flags.free_list_id()
    }

    /// Move to free list `id`.
    pub fn set_free_list_id(&mut self, id: u32)
        requires
            id < list::MAX as u32,
        ensures
            free_list_id_field(final(self).flags_word()) == id,
            max_count_field(final(self).flags_word()) == max_count_field(old(self).flags_word()),
            final(self).slots() == old(self).slots(),
            final(self).well_formed() == old(self).well_formed(),
    {
        self._flags.set_free_list_id(id);
    }

    /// The thread it is attached to, 0 when detached.
    pub fn current(&self) -> (r: usize)
        ensures
            r == self.attached_to(),
    {
        self._current
    }

    /// Detach from its thread.
    pub fn unset_attached(&mut self)
        ensures
            final(self).attached_to() == 0,
            final(self).slots() == old(self).slots(),
            final(self).flags_word() == old(self).flags_word(),
            final(self).well_formed() == old(self).well_formed(),
    {
        self._current = 0;
    }

    /// Whether attached to a thread.
    pub fn is_attached(&self) -> (r: bool)
        ensures
            r == (self.attached_to() != 0),
    {
        self.current() != 0
    }

    /// Whether meshed into another miniheap.
    pub fn is_meshed(&self) -> (r: bool)
        ensures
            r == meshed_field(self.flags_word()),
    {
        self._flags.is_meshed()
    }

    /// Whether another miniheap is meshed into this one.
    pub fn has_meshed(&self) -> (r: bool)
        ensures
            r == (self.next_meshed().0 != 0),
    {
        self._next_meshed.has_value()
    }

    /// Whether it may be meshed: detached, with objects smaller than a
    /// page.
    pub fn is_meshing_candidate(&self) -> (r: bool)
        requires
            self.span_of().length * PAGE_SIZE <= usize::MAX,
        ensures
            r == (self.attached_to() == 0 && (if max_count_field(self.flags_word()) == 1 {
                self.span_of().length * PAGE_SIZE
            } else {
                self.object_bytes() as int
            }) < PAGE_SIZE),
    {
        !self.is_attached() && self.object_size() < PAGE_SIZE
    }

    /// Take the bitmap's words out into a new bitmap, leaving it cleared;
    /// the atomic store exchanges them.
    pub fn take_bitmap(&mut self) -> (r: RelaxedFixedBitmap)
        requires
            old(self).well_formed(),
        ensures
            final(self).well_formed(),
            final(self).slots() == Seq::new(4, |_i: int| 0u64),
            r.view_words() == old(self).slots(),
    {
        let zero = Bitmap::new_relaxed_fixed();
        let mut result = Bitmap::new_relaxed_fixed();
        self._bitmap.set_and_exchange_all(result.bits_mut(), zero.bits());
        proof {
            assert(result.view_words() =~= old(self).slots());
            assert(self.slots() =~= Seq::new(4, |_i: int| 0u64));
        }
        result
    }

    /// The bitmap.
    pub fn bitmap(&self) -> (r: &Bitmap)
        ensures
            r.view_words() == self.slots(),
    {
        &self._bitmap
    }

    /// The bitmap, writable.
    pub fn writable_bitmap(&mut self) -> (r: &mut Bitmap)
        ensures
            r.view_words() == old(self).slots(),
            final(self).slots() == final(r).view_words(),
    {
        &mut self._bitmap
    }

    /// Its links in a free list.
    pub fn get_free_list(&self) -> (r: &ListEntry)
        ensures
            *r == self.free_list_links(),
    {
        &self.free_list
    }

    /// The address of slot `off`, in an arena starting at `arena_begin`.
    pub fn ptr_from_offset(&self, arena_begin: usize, off: usize) -> (r: usize)
        requires
            self.span_of().length * PAGE_SIZE <= usize::MAX,
            max_count_field(self.flags_word()) != 1,
            arena_begin + self.span_of().offset * PAGE_SIZE + off * self.object_bytes() <= usize::MAX,
        ensures
            r == arena_begin + self.span_of().offset * PAGE_SIZE + off * self.object_bytes(),
    {
        let start = self.get_span_start(arena_begin);
        let size = self.object_size();
        assert(off * size <= usize::MAX) by (nonlinear_arith)
            requires
                start + off * size <= usize::MAX,
                start >= 0,
        ;
        start + off * size
    }

    /// Claim slot `off` and give its address; 0 when it was in use.
    pub fn malloc_at(&mut self, arena_begin: usize, off: usize) -> (r: usize)
        requires
            old(self).well_formed(),
            off < 256,
            old(self).span_of().length * PAGE_SIZE <= usize::MAX,
            max_count_field(old(self).flags_word()) != 1,
            arena_begin + old(self).span_of().offset * PAGE_SIZE + off * old(self).object_bytes()
                <= usize::MAX,
        ensures
            final(self).well_formed(),
            final(self).slots() == with_bit_set(old(self).slots(), off as int),
            bit_at(old(self).slots(), off as int) ==> r == 0,
            !bit_at(old(self).slots(), off as int) ==> r == arena_begin + old(self).span_of().offset
                * PAGE_SIZE + off * old(self).object_bytes(),
    {
        if self._bitmap.try_set(off).is_err() {
            return 0;
        }
        self.ptr_from_offset(arena_begin, off)
    }

    /// The slot of `ptr` in the span (which must hold it), for a miniheap
    /// that is not meshed.
    pub fn get_unmeshed_off(&self, arena_begin: usize, ptr: usize) -> (r: usize)
        requires
            self.well_formed(),
            arena_begin + self.span_of().offset * PAGE_SIZE <= ptr,
        ensures
            r == (ptr - (arena_begin + self.span_of().offset * PAGE_SIZE)) / (
            self.object_bytes() as int),
    {
        let span = self.get_span_start(arena_begin);
        (ptr - span) / self.object_size
    }
}

} // verus!
