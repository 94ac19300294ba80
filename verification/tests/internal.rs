use mesh_alloc::internal::list;
use mesh_alloc::internal::{mask_to_page, FreelistNode, ListEntry, MiniHeapId, Span};
use mesh_alloc::mini_heap::Flags;

fn none() -> MiniHeapId {
    MiniHeapId::new(0)
}

fn node() -> FreelistNode {
    FreelistNode { freelist: ListEntry::new(none(), none()), flags: Flags::new(8, 2, 0, 3) }
}

/// Walk the list of `head` from the front.
fn walk(head: &ListEntry, table: &[FreelistNode]) -> Vec<i32> {
    let mut out = Vec::new();
    let mut id = head.next();
    while id != list::head() {
        out.push(id.value());
        id = table[(id.value() - 1) as usize].freelist.next();
    }
    out
}

/// Walk the list of `head` from the back.
fn walk_back(head: &ListEntry, table: &[FreelistNode]) -> Vec<i32> {
    let mut out = Vec::new();
    let mut id = head.prev();
    while id != list::head() {
        out.push(id.value());
        id = table[(id.value() - 1) as usize].freelist.prev();
    }
    out.reverse();
    out
}

#[test]
fn list_add_appends_and_moves_to_the_back() {
    let mut table: Vec<FreelistNode> = (0..4).map(|_| node()).collect();
    let mut head = ListEntry::new(list::head(), list::head());
    let mut other = ListEntry::new(list::head(), list::head());
    head.add(&mut other, &mut table, list::PARTIAL, list::head(), MiniHeapId::new(1));
    head.add(&mut other, &mut table, list::PARTIAL, list::head(), MiniHeapId::new(2));
    head.add(&mut other, &mut table, list::PARTIAL, list::head(), MiniHeapId::new(3));
    assert_eq!(walk(&head, &table), vec![1, 2, 3]);
    assert_eq!(walk_back(&head, &table), vec![1, 2, 3]);
    assert_eq!(other, ListEntry::new(list::head(), list::head()));
    assert_eq!(table[1].flags.free_list_id(), list::PARTIAL as u32);
    assert_eq!(table[3].freelist, ListEntry::new(none(), none()));
}

#[test]
fn list_add_moves_between_lists() {
    let mut table: Vec<FreelistNode> = (0..4).map(|_| node()).collect();
    let mut partial = ListEntry::new(list::head(), list::head());
    let mut empty = ListEntry::new(list::head(), list::head());
    for id in 1..=3 {
        partial.add(&mut empty, &mut table, list::PARTIAL, list::head(), MiniHeapId::new(id));
    }
    // the first of its list
    empty.add(&mut partial, &mut table, list::EMPTY, list::head(), MiniHeapId::new(1));
    assert_eq!(walk(&partial, &table), vec![2, 3]);
    assert_eq!(walk_back(&partial, &table), vec![2, 3]);
    assert_eq!(walk(&empty, &table), vec![1]);
    assert_eq!(walk_back(&empty, &table), vec![1]);
    assert_eq!(table[0].freelist, ListEntry::new(list::head(), list::head()));
    assert_eq!(table[0].flags.free_list_id(), list::EMPTY as u32);
    // the last of its list
    empty.add(&mut partial, &mut table, list::EMPTY, list::head(), MiniHeapId::new(3));
    assert_eq!(walk(&partial, &table), vec![2]);
    assert_eq!(walk_back(&partial, &table), vec![2]);
    assert_eq!(walk(&empty, &table), vec![1, 3]);
    assert_eq!(walk_back(&empty, &table), vec![1, 3]);
    assert_eq!(table[2].freelist, ListEntry::new(MiniHeapId::new(1), list::head()));
    assert_eq!(table[0].freelist.next(), MiniHeapId::new(3));
    // the only one of its list, back again
    partial.add(&mut empty, &mut table, list::PARTIAL, list::head(), MiniHeapId::new(1));
    assert_eq!(walk(&partial, &table), vec![2, 1]);
    assert_eq!(walk(&empty, &table), vec![3]);
    assert_eq!(walk_back(&empty, &table), vec![3]);
}

#[test]
fn list_remove_unlinks_and_clears() {
    let mut table: Vec<FreelistNode> = (0..3).map(|_| node()).collect();
    let mut head = ListEntry::new(list::head(), list::head());
    let mut other = ListEntry::new(list::head(), list::head());
    for id in 1..=3 {
        head.add(&mut other, &mut table, list::FULL, list::head(), MiniHeapId::new(id));
    }
    let mut middle = table[1].freelist;
    middle.remove(&mut head, &mut table);
    table[1].freelist = middle;
    assert_eq!(middle, ListEntry::new(none(), none()));
    assert_eq!(walk(&head, &table), vec![1, 3]);
    assert_eq!(walk_back(&head, &table), vec![1, 3]);
    let mut first = table[0].freelist;
    first.remove(&mut head, &mut table);
    table[0].freelist = first;
    let mut last = table[2].freelist;
    last.remove(&mut head, &mut table);
    table[2].freelist = last;
    assert_eq!(head, ListEntry::new(list::head(), list::head()));
    let mut unlisted = ListEntry::new(none(), none());
    unlisted.remove(&mut head, &mut table);
    assert_eq!(unlisted, ListEntry::new(none(), none()));
}

#[test]
fn list_entry_links() {
    let mut e = ListEntry::new(MiniHeapId::new(4), MiniHeapId::new(5));
    assert_eq!(e.prev(), MiniHeapId::new(4));
    assert_eq!(e.next(), MiniHeapId::new(5));
    e.set_next(MiniHeapId::new(6));
    e.set_prev(MiniHeapId::new(7));
    assert_eq!(e.next().value(), 6);
    assert_eq!(e.prev().value(), 7);
    assert!(e.next().has_value());
    assert!(!none().has_value());
}

#[test]
fn spans_split_and_size() {
    let mut s = Span::new(10, 8);
    assert!(!s.empty());
    let rest = s.split_after(3);
    assert_eq!(s, Span::new(10, 3));
    assert_eq!(rest, Span::new(13, 5));
    assert_eq!(s.span_class(), 2);
    assert_eq!(Span::new(0, 1000).span_class(), 255);
    assert_eq!(rest.byte_length(), 5 * 4096);
    assert!(Span::new(3, 0).empty());
}

#[test]
fn masking_to_a_page() {
    assert_eq!(mask_to_page(0x12345), 0x12000);
    assert_eq!(mask_to_page(0x12000), 0x12000);
    assert_eq!(mask_to_page(4095), 0);
}
