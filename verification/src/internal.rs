//! Identifiers, list links and spans shared by the allocator's parts.
use vstd::prelude::*;

use crate::common::PAGE_SIZE;
use crate::mini_heap::{free_list_id_field, lemma_with_free_list_id, with_free_list_id, Flags};

pub mod list;

verus! {

/// Number of span size classes.
pub const SPAN_CLASS_COUNT: u32 = 256;

/// State of a page in the arena.
#[derive(Debug, Clone, Copy, PartialEq, Eq, Structural)]
pub enum PageType {
    Clean,
    Dirty,
    Meshed,
    Unknown,
}

/// Identifier of a miniheap; 0 means "none".
#[derive(Debug, Clone, Copy, PartialEq, Eq, Structural)]
pub struct MiniHeapId(pub i32);

impl MiniHeapId {
    pub fn new(id: i32) -> (r: Self)
        ensures
            r.0 == id,
    {
        MiniHeapId(id)
    }

    /// Whether the id names a miniheap.
    pub fn has_value(&self) -> (r: bool)
        ensures
            r == (self.0 != 0),
    {
        self.0 != 0
    }

    pub fn value(&self) -> (r: i32)
        ensures
            r == self.0,
    {
        self.0
    }
}

/// A run of pages of the arena: `length` pages starting `offset` pages in.
#[derive(Debug, Clone, Copy, PartialEq, Eq, Structural)]
pub struct Span {
    pub offset: u32,
    pub length: u32,
}

impl Span {
    pub fn new(offset: u32, length: u32) -> (r: Self)
        ensures
            r.offset == offset,
            r.length == length,
    {
        Self { offset, length }
    }

    /// Whether the span holds no pages.
    pub fn empty(&self) -> (r: bool)
        ensures
            r == (self.length == 0),
    {
        self.length == 0
    }

    /// Shrink this span to its first `page_count` pages and return the span
    /// of the remaining pages.
    pub fn split_after(&mut self, page_count: u32) -> (r: Span)
        requires
            page_count <= old(self).length,
            old(self).offset + page_count <= u32::MAX,
        ensures
            final(self).offset == old(self).offset,
            final(self).length == page_count,
            r.offset == old(self).offset + page_count,
            r.length == old(self).length - page_count,
    {
        let rest_page_count = self.length - page_count;
        self.length = page_count;
        Span::new(self.offset + page_count, rest_page_count)
    }

    /// Size class of the span: its length in pages, capped at the class
    /// count, minus one.
    pub fn span_class(&self) -> (r: u32)
        requires
            self.length > 0,
        ensures
            r == (if self.length < SPAN_CLASS_COUNT {
                self.length
            } else {
                SPAN_CLASS_COUNT
            }) - 1,
    {
        let capped = if self.length < SPAN_CLASS_COUNT {
            self.length
        } else {
            SPAN_CLASS_COUNT
        };
        capped - 1
    }

    /// Size of the span in bytes.
    pub fn byte_length(&self) -> (r: usize)
        requires
            self.length * PAGE_SIZE <= usize::MAX,
        ensures
            r == self.length * PAGE_SIZE,
    {
        self.length as usize * PAGE_SIZE
    }
}

/// Bits of the mesh control word.
#[derive(Debug, Clone, Copy, PartialEq, Eq, Structural)]
pub enum BitType {
    MeshBit0,
    MeshBit1,
    MeshBit2,
    MeshBit3,
    MeshBitCount,
}

/// The start of the page that holds address `ptr`.
pub fn mask_to_page(ptr: usize) -> (r: usize)
    ensures
        r == ptr - ptr % PAGE_SIZE,
{
    let r = ptr & !(PAGE_SIZE - 1);
    assert(ptr & !4095usize == ptr - ptr % 4096) by (bit_vector);
    r
}

/// Links of a miniheap in a doubly linked free list: the ids of the
/// entries before and after it. The id `-1` (`list::head()`) names the list
/// head; an id without value means "on no list".
#[derive(Debug, Clone, Copy, PartialEq, Eq, Structural)]
pub struct ListEntry {
    pub prev: MiniHeapId,
    pub next: MiniHeapId,
}

/// The links of a miniheap in its free list.
pub type MiniHeapListEntry = ListEntry;

/// The free-list part of a miniheap: its links, and its flags, which hold
/// the id of the list it is on.
pub struct FreelistNode {
    pub freelist: ListEntry,
    pub flags: Flags,
}

/// `id` names the list head.
pub open spec fn is_head(id: MiniHeapId) -> bool {
    id.0 == -1
}

/// `id` names one of `n` miniheaps: miniheap `k` (from 1) is at position
/// `k - 1` of the table.
pub open spec fn names_node(id: MiniHeapId, n: int) -> bool {
    1 <= id.0 <= n
}

/// `id` names the head or a miniheap of a table of `n`.
pub open spec fn link_ok(id: MiniHeapId, n: int) -> bool {
    is_head(id) || names_node(id, n)
}

/// The links named by `id`: the head's, or those of a miniheap.
pub open spec fn entry_at(head: ListEntry, t: Seq<FreelistNode>, id: MiniHeapId) -> ListEntry {
    if is_head(id) {
        head
    } else {
        t[id.0 - 1].freelist
    }
}

/// The head and table after the entry named by `id` gets `v` as its next.
pub open spec fn set_next_at(head: ListEntry, t: Seq<FreelistNode>, id: MiniHeapId, v: MiniHeapId) -> (
    ListEntry,
    Seq<FreelistNode>,
) {
    if is_head(id) {
        (ListEntry { next: v, ..head }, t)
    } else {
        let k = id.0 - 1;
        (head, t.update(k, FreelistNode { freelist: ListEntry { next: v, ..t[k].freelist }, ..t[k] }))
    }
}

/// The head and table after the entry named by `id` gets `v` as its prev.
pub open spec fn set_prev_at(head: ListEntry, t: Seq<FreelistNode>, id: MiniHeapId, v: MiniHeapId) -> (
    ListEntry,
    Seq<FreelistNode>,
) {
    if is_head(id) {
        (ListEntry { prev: v, ..head }, t)
    } else {
        let k = id.0 - 1;
        (head, t.update(k, FreelistNode { freelist: ListEntry { prev: v, ..t[k].freelist }, ..t[k] }))
    }
}

/// Whether the links `e` are on a list: both neighbours have a value.
pub open spec fn is_linked(e: ListEntry) -> bool {
    e.prev.0 != 0 && e.next.0 != 0
}

/// The head and table after the entry with links `e` is taken out of its
/// list: its predecessor now leads to its successor and back. Links not on
/// a list change nothing.
pub open spec fn unlinked(e: ListEntry, head: ListEntry, t: Seq<FreelistNode>) -> (
    ListEntry,
    Seq<FreelistNode>,
) {
    if !is_linked(e) {
        (head, t)
    } else {
        let ht = set_next_at(head, t, e.prev, e.next);
        set_prev_at(ht.0, ht.1, e.next, e.prev)
    }
}

/// Give `v` as next to the entry named by `id`.
fn set_next_of(list_head: &mut ListEntry, table: &mut Vec<FreelistNode>, id: MiniHeapId, v: MiniHeapId)
    requires
        link_ok(id, old(table)@.len() as int),
    ensures
        (*final(list_head), final(table)@) == set_next_at(*old(list_head), old(table)@, id, v),
{
    if id.0 == -1 {
        list_head.set_next(v);
    } else {
        let k = (id.0 - 1) as usize;
        table[k].freelist.set_next(v);
        proof {
            let t0 = old(table)@;
            let j = id.0 - 1;
            assert(table@ =~= t0.update(
                j,
                FreelistNode { freelist: ListEntry { next: v, ..t0[j].freelist }, ..t0[j] },
            ));
        }
    }
}

/// Give `v` as prev to the entry named by `id`.
fn set_prev_of(list_head: &mut ListEntry, table: &mut Vec<FreelistNode>, id: MiniHeapId, v: MiniHeapId)
    requires
        link_ok(id, old(table)@.len() as int),
    ensures
        (*final(list_head), final(table)@) == set_prev_at(*old(list_head), old(table)@, id, v),
{
    if id.0 == -1 {
        list_head.set_prev(v);
    } else {
        let k = (id.0 - 1) as usize;
        table[k].freelist.set_prev(v);
        proof {
            let t0 = old(table)@;
            let j = id.0 - 1;
            assert(table@ =~= t0.update(
                j,
                FreelistNode { freelist: ListEntry { prev: v, ..t0[j].freelist }, ..t0[j] },
            ));
        }
    }
}

/// The head and table once the miniheap named by `id` has left the list it
/// was on (when it was on one): its links are cleared in the table.
pub open spec fn detached(head: ListEntry, t: Seq<FreelistNode>, id: MiniHeapId) -> (
    ListEntry,
    Seq<FreelistNode>,
) {
    let k = id.0 - 1;
    let e = t[k].freelist;
    if e.next.0 == 0 {
        (head, t)
    } else {
        let ht = unlinked(e, head, t);
        let cleared = if is_linked(e) {
            ListEntry { prev: MiniHeapId(0), next: MiniHeapId(0) }
        } else {
            e
        };
        (ht.0, ht.1.update(k, FreelistNode { freelist: cleared, ..ht.1[k] }))
    }
}

/// The head of the list appended to, the head of the miniheap's former
/// list, and the table, after appending the miniheap named by `id` to the
/// list of `head`, before its own links are written: it leaves its former
/// list, whose head is `old_head`; the last entry of the list of `head`
/// leads to it, and `head`'s prev names it.
pub open spec fn appended(head: ListEntry, old_head: ListEntry, t: Seq<FreelistNode>, id: MiniHeapId) -> (
    ListEntry,
    ListEntry,
    Seq<FreelistNode>,
) {
    let d = detached(old_head, t, id);
    let ht = set_next_at(head, d.1, head.prev, id);
    (ListEntry { prev: id, ..ht.0 }, d.0, ht.1)
}

/// `head2`, `old_head2` and `t2` are the two heads and the table after the
/// miniheap named by `id` is appended to the list of `head`, known by
/// `self_id`, as on list `list_id`, leaving the list whose head is
/// `old_head`: as `appended` says, with the miniheap's links leading from
/// the former last entry of `head`'s list to the head, and its flags
/// naming the list.
pub open spec fn add_result(
    head: ListEntry,
    old_head: ListEntry,
    t: Seq<FreelistNode>,
    list_id: u8,
    self_id: MiniHeapId,
    id: MiniHeapId,
    head2: ListEntry,
    old_head2: ListEntry,
    t2: Seq<FreelistNode>,
) -> bool {
    let k = id.0 - 1;
    let ap = appended(head, old_head, t, id);
    &&& head2 == ap.0
    &&& old_head2 == ap.1
    &&& t2.len() == t.len()
    &&& forall|j: int| 0 <= j < t.len() && j != k ==> #[trigger] t2[j] == ap.2[j]
    &&& t2[k].freelist == (ListEntry { prev: head.prev, next: self_id })
    &&& t2[k].flags.word() == with_free_list_id(t[k].flags.word(), list_id as u32)
}

/// The links of the miniheap named by `id`.
pub open spec fn links(t: Seq<FreelistNode>, id: MiniHeapId) -> ListEntry {
    t[id.0 - 1].freelist
}

/// The list of `head` holds the miniheaps `ids`, in order: the head leads
/// to the first and back from the last, each leads to the next and back to
/// the one before, and none is listed twice.
pub open spec fn is_list(head: ListEntry, t: Seq<FreelistNode>, ids: Seq<MiniHeapId>) -> bool {
    &&& ids.no_duplicates()
    &&& forall|k: int| 0 <= k < ids.len() ==> names_node(#[trigger] ids[k], t.len() as int)
    &&& head.next == if ids.len() == 0 {
        MiniHeapId(-1i32)
    } else {
        ids[0]
    }
    &&& head.prev == if ids.len() == 0 {
        MiniHeapId(-1i32)
    } else {
        ids.last()
    }
    &&& forall|k: int|
        0 <= k < ids.len() ==> #[trigger] links(t, ids[k]).next == if k + 1 < ids.len() {
            ids[k + 1]
        } else {
            MiniHeapId(-1i32)
        }
    &&& forall|k: int|
        0 <= k < ids.len() ==> #[trigger] links(t, ids[k]).prev == if k > 0 {
            ids[k - 1]
        } else {
            MiniHeapId(-1i32)
        }
}

impl ListEntry {
    /// Links to `prev` and `next`.
    pub fn new(prev: MiniHeapId, next: MiniHeapId) -> (r: Self)
        ensures
            r.prev == prev,
            r.next == next,
    {
        Self { prev, next }
    }

    /// The entry after this one.
    pub fn next(&self) -> (r: MiniHeapId)
        ensures
            r == self.next,
    {
        self.next
    }

    /// The entry before this one.
    pub fn prev(&self) -> (r: MiniHeapId)
        ensures
            r == self.prev,
    {
        self.prev
    }

    /// Link to `next` as the entry after this one.
    pub fn set_next(&mut self, next: MiniHeapId)
        ensures
            *final(self) == (ListEntry { next, ..*old(self) }),
    {
        self.next = next;
    }

    /// Link to `prev` as the entry before this one.
    pub fn set_prev(&mut self, prev: MiniHeapId)
        ensures
            *final(self) == (ListEntry { prev, ..*old(self) }),
    {
        self.prev = prev;
    }

    /// Take this entry out of its list, whose head is `list_head` and whose
    /// miniheaps are in `table`: the entry before it now leads to the entry
    /// after it and back, and this entry is on no list. An entry on no list
    /// is left alone.
    pub fn remove(&mut self, list_head: &mut ListEntry, table: &mut Vec<FreelistNode>)
        requires
            is_linked(*old(self)) ==> link_ok(old(self).prev, old(table)@.len() as int) && link_ok(
                old(self).next,
                old(table)@.len() as int,
            ),
        ensures
            (*final(list_head), final(table)@) == unlinked(*old(self), *old(list_head), old(table)@),
            is_linked(*old(self)) ==> final(self).prev.0 == 0 && final(self).next.0 == 0,
            !is_linked(*old(self)) ==> *final(self) == *old(self),
    {
        let prev_id = self.prev;
        let next_id = self.next;
        if !prev_id.has_value() || !next_id.has_value() {
            return;
        }
        set_next_of(list_head, table, prev_id, next_id);
        set_prev_of(list_head, table, next_id, prev_id);
        self.prev = MiniHeapId::new(0);
        self.next = MiniHeapId::new(0);
    }

    /// Append the miniheap named by `new_entry` to the list whose head is
    /// this entry, known by `self_id`, and mark it as on list `list_id`. A
    /// miniheap on a list leaves it first; that list's head is `list_head`.
    pub fn add(
        &mut self,
        list_head: &mut ListEntry,
        table: &mut Vec<FreelistNode>,
        list_id: u8,
        self_id: MiniHeapId,
        new_entry: MiniHeapId,
    )
        requires
            names_node(new_entry, old(table)@.len() as int),
            list_id < list::MAX,
            free_list_id_field(old(table)@[new_entry.0 - 1].flags.word()) != list_id,
            link_ok(old(self).prev, old(table)@.len() as int),
            is_linked(old(table)@[new_entry.0 - 1].freelist) ==> link_ok(
                old(table)@[new_entry.0 - 1].freelist.prev,
                old(table)@.len() as int,
            ) && link_ok(old(table)@[new_entry.0 - 1].freelist.next, old(table)@.len() as int),
        ensures
            add_result(
                *old(self),
                *old(list_head),
                old(table)@,
                list_id,
                self_id,
                new_entry,
                *final(self),
                *final(list_head),
                final(table)@,
            ),
    {
        let k = (new_entry.0 - 1) as usize;
        let _old_id = table[k].flags.free_list_id();
        let mut new_entry_free_list = table[k].freelist;
        if new_entry_free_list.next().has_value() {
            new_entry_free_list.remove(list_head, table);
            table[k].freelist = new_entry_free_list;
        }
        proof {
            let d = detached(*old(list_head), old(table)@, new_entry);
            assert(table@ =~= d.1);
            assert(*list_head == d.0);
        }
        table[k].flags.set_free_list_id(list_id as u32);
        let ghost t_flags = table@;
        let new_entry_id = new_entry;
        let last_id = self.prev();
        set_next_of(self, table, last_id, new_entry_id);
        let ghost t_linked = table@;
        table[k].freelist = ListEntry::new(last_id, self_id);
        self.set_prev(new_entry_id);
        proof {
            let t0 = old(table)@;
            let kk = new_entry.0 - 1;
            let d = detached(*old(list_head), t0, new_entry);
            let ht2 = set_next_at(*old(self), d.1, old(self).prev, new_entry);
            assert forall|j: int| 0 <= j < t0.len() && j != kk implies #[trigger] table@[j]
                == appended(*old(self), *old(list_head), t0, new_entry).2[j] by {
                assert(t_flags[j] == d.1[j]);
                assert(t_linked[j] == ht2.1[j]);
            }
        }
    }
}

/// Taking a miniheap out of a list leaves the list of the others, in
/// order; the miniheap is on no list afterwards, and no miniheap off the
/// list, nor any flags, change.
pub proof fn law_remove(head: ListEntry, t: Seq<FreelistNode>, ids: Seq<MiniHeapId>, i: int)
    requires
        is_list(head, t, ids),
        0 <= i < ids.len(),
    ensures
        ({
            let x = ids[i];
            let ht = detached(head, t, x);
            &&& is_list(ht.0, ht.1, ids.remove(i))
            &&& ht.1.len() == t.len()
            &&& links(ht.1, x).prev.0 == 0 && links(ht.1, x).next.0 == 0
            &&& forall|y: MiniHeapId|
                names_node(y, t.len() as int) && !ids.contains(y) ==> #[trigger] links(ht.1, y)
                    == links(t, y)
            &&& forall|j: int| 0 <= j < t.len() ==> #[trigger] ht.1[j].flags == t[j].flags
        }),
{
    let n = ids.len();
    let x = ids[i];
    let e = links(t, x);
    let prev_x = e.prev;
    let next_x = e.next;
    let ids2 = ids.remove(i);
    assert(prev_x == if i > 0 { ids[i - 1] } else { MiniHeapId(-1i32) });
    assert(next_x == if i + 1 < n { ids[i + 1] } else { MiniHeapId(-1i32) });
    assert(names_node(x, t.len() as int));
    let ht1 = set_next_at(head, t, prev_x, next_x);
    let ht2 = set_prev_at(ht1.0, ht1.1, next_x, prev_x);
    let ht = detached(head, t, x);
    assert(ht.0 == ht2.0);
    assert(ht.1 == ht2.1.update(
        x.0 - 1,
        FreelistNode { freelist: ListEntry { prev: MiniHeapId(0), next: MiniHeapId(0) }, ..ht2.1[x.0 - 1] },
    ));
    assert forall|k: int| 0 <= k < ids2.len() implies #[trigger] links(ht.1, ids2[k]).next == if k + 1
        < ids2.len() {
        ids2[k + 1]
    } else {
        MiniHeapId(-1i32)
    } && links(ht.1, ids2[k]).prev == if k > 0 {
        ids2[k - 1]
    } else {
        MiniHeapId(-1i32)
    } by {
        let y = ids2[k];
        if k < i {
            assert(y == ids[k]);
            assert(links(t, ids[k]).next == if k + 1 < n { ids[k + 1] } else { MiniHeapId(-1i32) });
            assert(links(t, ids[k]).prev == if k > 0 { ids[k - 1] } else { MiniHeapId(-1i32) });
        } else {
            assert(y == ids[k + 1]);
            assert(links(t, ids[k + 1]).next == if k + 2 < n { ids[k + 2] } else { MiniHeapId(-1i32) });
            assert(links(t, ids[k + 1]).prev == ids[k]);
        }
        assert(y != x);
    }
    assert forall|k: int| 0 <= k < ids2.len() implies #[trigger] links(ht.1, ids2[k]).prev == if k > 0 {
        ids2[k - 1]
    } else {
        MiniHeapId(-1i32)
    } by {
        assert(links(ht.1, ids2[k]).next == if k + 1 < ids2.len() {
            ids2[k + 1]
        } else {
            MiniHeapId(-1i32)
        });
    }
    assert forall|y: MiniHeapId|
        names_node(y, t.len() as int) && !ids.contains(y) implies #[trigger] links(ht.1, y)
        == links(t, y) by {
        assert(y != x);
        if i > 0 {
            assert(ids[i - 1] != y);
        }
        if i + 1 < n {
            assert(ids[i + 1] != y);
        }
    }
    assert forall|k: int| 0 <= k < ids2.len() implies names_node(#[trigger] ids2[k], t.len() as int) by {
        if k < i {
            assert(ids2[k] == ids[k]);
        } else {
            assert(ids2[k] == ids[k + 1]);
        }
    }
    assert(ids2.no_duplicates()) by {
        assert forall|a: int, b: int| 0 <= a < ids2.len() && 0 <= b < ids2.len() && a != b implies ids2[a]
            != ids2[b] by {
            let a1 = if a < i { a } else { a + 1 };
            let b1 = if b < i { b } else { b + 1 };
            assert(ids2[a] == ids[a1]);
            assert(ids2[b] == ids[b1]);
        }
    }
    assert(ht.0.next == if ids2.len() == 0 { MiniHeapId(-1i32) } else { ids2[0] });
    assert(ht.0.prev == if ids2.len() == 0 { MiniHeapId(-1i32) } else { ids2.last() });
    assert(links(ht.1, x).prev.0 == 0 && links(ht.1, x).next.0 == 0);
    assert(forall|j: int| 0 <= j < t.len() ==> #[trigger] ht.1[j].flags == t[j].flags);
    assert(is_list(ht.0, ht.1, ids2));
}

/// Linking a miniheap that is on no list after the last entry of a list
/// appends it to the list.
proof fn lemma_link_last(
    h: ListEntry,
    t: Seq<FreelistNode>,
    ids: Seq<MiniHeapId>,
    x: MiniHeapId,
    head2: ListEntry,
    t2: Seq<FreelistNode>,
)
    requires
        is_list(h, t, ids),
        names_node(x, t.len() as int),
        !ids.contains(x),
        head2 == (ListEntry { prev: x, ..set_next_at(h, t, h.prev, x).0 }),
        t2.len() == t.len(),
        forall|j: int|
            0 <= j < t.len() && j != x.0 - 1 ==> #[trigger] t2[j] == set_next_at(h, t, h.prev, x).1[j],
        t2[x.0 - 1].freelist == (ListEntry { prev: h.prev, next: MiniHeapId(-1i32) }),
    ensures
        is_list(head2, t2, ids.push(x)),
        forall|y: MiniHeapId|
            names_node(y, t.len() as int) && !ids.contains(y) && y != x ==> #[trigger] links(t2, y)
                == links(t, y),
{
    let n = ids.len();
    let ids2 = ids.push(x);
    let ht = set_next_at(h, t, h.prev, x);
    assert forall|k: int| 0 <= k < ids2.len() implies #[trigger] links(t2, ids2[k]).next == if k + 1
        < ids2.len() {
        ids2[k + 1]
    } else {
        MiniHeapId(-1i32)
    } && links(t2, ids2[k]).prev == if k > 0 {
        ids2[k - 1]
    } else {
        MiniHeapId(-1i32)
    } by {
        if k < n {
            assert(ids2[k] == ids[k]);
            assert(ids[k] != x);
            assert(links(t, ids[k]).next == if k + 1 < n { ids[k + 1] } else { MiniHeapId(-1i32) });
            assert(links(t, ids[k]).prev == if k > 0 { ids[k - 1] } else { MiniHeapId(-1i32) });
            if k + 1 < n {
                assert(ids[k] != ids[n - 1]);
            }
        }
    }
    assert forall|k: int| 0 <= k < ids2.len() implies #[trigger] links(t2, ids2[k]).prev == if k > 0 {
        ids2[k - 1]
    } else {
        MiniHeapId(-1i32)
    } by {
        assert(links(t2, ids2[k]).next == if k + 1 < ids2.len() {
            ids2[k + 1]
        } else {
            MiniHeapId(-1i32)
        });
    }
    assert forall|k: int| 0 <= k < ids2.len() implies names_node(#[trigger] ids2[k], t2.len() as int) by {
        if k < n {
            assert(ids2[k] == ids[k]);
        }
    }
    assert(ids2.no_duplicates()) by {
        assert forall|a: int, b: int| 0 <= a < ids2.len() && 0 <= b < ids2.len() && a != b implies ids2[a]
            != ids2[b] by {
            if a < n && b < n {
                assert(ids2[a] == ids[a] && ids2[b] == ids[b]);
            } else if a < n {
                assert(ids2[a] == ids[a]);
            } else if b < n {
                assert(ids2[b] == ids[b]);
            }
        }
    }
    assert forall|y: MiniHeapId|
        names_node(y, t.len() as int) && !ids.contains(y) && y != x implies #[trigger] links(t2, y)
        == links(t, y) by {
        if n > 0 {
            assert(ids[n - 1] != y);
        }
    }
}

/// A list stays the same list in a table where none of its miniheaps'
/// links changed.
proof fn lemma_list_frame(h: ListEntry, t: Seq<FreelistNode>, t2: Seq<FreelistNode>, ids: Seq<MiniHeapId>)
    requires
        is_list(h, t, ids),
        t2.len() == t.len(),
        forall|k: int| 0 <= k < ids.len() ==> #[trigger] links(t2, ids[k]) == links(t, ids[k]),
    ensures
        is_list(h, t2, ids),
{
    assert forall|k: int| 0 <= k < ids.len() implies #[trigger] links(t2, ids[k]).next == if k + 1
        < ids.len() {
        ids[k + 1]
    } else {
        MiniHeapId(-1i32)
    } by {
        assert(links(t2, ids[k]) == links(t, ids[k]));
    }
    assert forall|k: int| 0 <= k < ids.len() implies #[trigger] links(t2, ids[k]).prev == if k > 0 {
        ids[k - 1]
    } else {
        MiniHeapId(-1i32)
    } by {
        assert(links(t2, ids[k]) == links(t, ids[k]));
    }
}

/// Adding a miniheap that is on no list to a list appends it at the end and
/// marks it as on that list; the other head given is left alone, and no
/// miniheap off the list changes.
pub proof fn law_add_unlisted(
    head: ListEntry,
    old_head: ListEntry,
    t: Seq<FreelistNode>,
    ids: Seq<MiniHeapId>,
    x: MiniHeapId,
    list_id: u8,
    head2: ListEntry,
    old_head2: ListEntry,
    t2: Seq<FreelistNode>,
)
    requires
        is_list(head, t, ids),
        names_node(x, t.len() as int),
        !ids.contains(x),
        links(t, x).next.0 == 0,
        list_id < list::MAX,
        add_result(head, old_head, t, list_id, MiniHeapId(-1i32), x, head2, old_head2, t2),
    ensures
        is_list(head2, t2, ids.push(x)),
        old_head2 == old_head,
        free_list_id_field(t2[x.0 - 1].flags.word()) == list_id,
        forall|y: MiniHeapId|
            names_node(y, t.len() as int) && !ids.contains(y) && y != x ==> #[trigger] links(t2, y)
                == links(t, y),
{
    assert(detached(old_head, t, x) == (old_head, t));
    lemma_link_last(head, t, ids, x, head2, t2);
    lemma_with_free_list_id(t[x.0 - 1].flags.word(), list_id as u32);
}

/// Moving a miniheap from one list to another: adding the miniheap at
/// position `i` of the list of `old_head` to the list of `head` (the two
/// lists sharing no miniheap) takes it out of its former list, which keeps
/// the others in order, appends it at the end of the new list, and marks it
/// as on that list; no miniheap on neither list changes.
pub proof fn law_add_moved(
    head: ListEntry,
    old_head: ListEntry,
    t: Seq<FreelistNode>,
    ids: Seq<MiniHeapId>,
    old_ids: Seq<MiniHeapId>,
    i: int,
    list_id: u8,
    head2: ListEntry,
    old_head2: ListEntry,
    t2: Seq<FreelistNode>,
)
    requires
        is_list(head, t, ids),
        is_list(old_head, t, old_ids),
        forall|y: MiniHeapId| old_ids.contains(y) ==> !ids.contains(y),
        0 <= i < old_ids.len(),
        list_id < list::MAX,
        add_result(head, old_head, t, list_id, MiniHeapId(-1i32), old_ids[i], head2, old_head2, t2),
    ensures
        is_list(head2, t2, ids.push(old_ids[i])),
        is_list(old_head2, t2, old_ids.remove(i)),
        free_list_id_field(t2[old_ids[i].0 - 1].flags.word()) == list_id,
        forall|y: MiniHeapId|
            names_node(y, t.len() as int) && !ids.contains(y) && !old_ids.contains(y)
                ==> #[trigger] links(t2, y) == links(t, y),
{
    let x = old_ids[i];
    law_remove(old_head, t, old_ids, i);
    let d = detached(old_head, t, x);
    let rest = old_ids.remove(i);
    assert(old_ids.contains(x));
    assert(!ids.contains(x));
    assert(names_node(x, t.len() as int));
    assert forall|k: int| 0 <= k < ids.len() implies #[trigger] links(d.1, ids[k]) == links(t, ids[k]) by {
        let y = ids[k];
        assert(ids.contains(y));
        assert(!old_ids.contains(y));
    }
    lemma_list_frame(head, t, d.1, ids);
    lemma_link_last(head, d.1, ids, x, head2, t2);
    lemma_with_free_list_id(t[x.0 - 1].flags.word(), list_id as u32);
    assert forall|k: int| 0 <= k < rest.len() implies #[trigger] links(t2, rest[k]) == links(d.1, rest[k]) by {
        let y = rest[k];
        let k1 = if k < i { k } else { k + 1 };
        assert(old_ids[k1] == y);
        assert(old_ids.contains(y));
        assert(!ids.contains(y));
        assert(y != x);
        assert(names_node(y, t.len() as int));
    }
    lemma_list_frame(d.0, d.1, t2, rest);
    assert forall|y: MiniHeapId|
        names_node(y, t.len() as int) && !ids.contains(y) && !old_ids.contains(y) implies #[trigger] links(t2, y)
        == links(t, y) by {
        assert(y != x);
        assert(links(d.1, y) == links(t, y));
    }
}

} // verus!
