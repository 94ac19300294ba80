use mesh_alloc::internal::list;
use mesh_alloc::mini_heap::Flags;

#[test]
fn flags_pack_their_fields() {
    let f = Flags::new(200, 37, 17, list::ATTACHED as u32);
    assert_eq!(f.max_count(), 200);
    assert_eq!(f.size_class(), 37);
    assert_eq!(f.sv_offset(), 17);
    assert_eq!(f.free_list_id(), list::ATTACHED as u32);
    assert!(!f.is_meshed());
}

#[test]
fn flags_updates_keep_the_other_fields() {
    let mut f = Flags::new(64, 5, 3, list::FULL as u32);
    f.set_free_list_id(list::EMPTY as u32);
    assert_eq!(f.free_list_id(), list::EMPTY as u32);
    f.set_sv_offet(250);
    assert_eq!(f.sv_offset(), 250);
    f.set_meshed();
    assert!(f.is_meshed());
    assert_eq!(f.max_count(), 64);
    assert_eq!(f.size_class(), 5);
    f.unset_meshed();
    assert!(!f.is_meshed());
    assert_eq!(f.free_list_id(), list::EMPTY as u32);
    assert_eq!(f.sv_offset(), 250);
}

use mesh_alloc::bitmap::Bitmapper;
use mesh_alloc::internal::{MiniHeapId, Span};
use mesh_alloc::mini_heap::MiniHeap;

#[test]
fn mini_heap_slots_in_an_arena() {
    let arena = 0x100_0000;
    let mut mh = MiniHeap::new(Span::new(2, 1), 64, 64, 3);
    assert_eq!(mh.max_count(), 64);
    assert_eq!(mh.size_class(), 3);
    assert!(!mh.is_large_alloc());
    assert_eq!(mh.object_size(), 64);
    assert_eq!(mh.span_size(), 4096);
    assert_eq!(mh.get_span_start(arena), arena + 2 * 4096);
    assert!(mh.is_empty());
    assert_eq!(mh.free_list_id(), list::ATTACHED as u32);
    let p = mh.malloc_at(arena, 5);
    assert_eq!(p, arena + 2 * 4096 + 5 * 64);
    assert_eq!(mh.malloc_at(arena, 5), 0);
    assert_eq!(mh.in_use_ct(), 1);
    assert_eq!(mh.get_unmeshed_off(arena, p + 10), 5);
    assert_eq!(mh.ptr_from_offset(arena, 7), arena + 2 * 4096 + 7 * 64);
    assert_eq!(mh.bytes_free(), 63 * 64);
    mh.free_off(5);
    assert!(mh.is_empty());
    assert!(!mh.is_full());
}

#[test]
fn mini_heap_state_and_bitmap() {
    let mut mh = MiniHeap::new(Span::new(0, 2), 1, 100, 9);
    assert!(mh.is_large_alloc());
    assert_eq!(mh.size_class(), 1);
    assert_eq!(mh.object_size(), 8192);
    assert!(!mh.is_attached());
    assert!(!mh.is_meshing_candidate());
    assert!(!mh.has_meshed());
    mh.set_meshed();
    assert!(mh.is_meshed());
    mh.set_sv_offset(12);
    assert_eq!(mh.sv_offset(), 12);
    mh.set_free_list_id(list::PARTIAL as u32);
    assert_eq!(mh.free_list_id(), list::PARTIAL as u32);
    mh.unset_attached();
    assert_eq!(mh.current(), 0);
    assert_eq!(mh.get_free_list().next(), MiniHeapId::new(0));
    mh.writable_bitmap().try_set(0).unwrap();
    assert!(mh.is_full());
    let taken = mh.take_bitmap();
    assert!(taken.is_set(0));
    assert!(mh.is_empty());
    assert!(!mh.bitmap().is_set(0));
    mh.writable_bitmap().try_set(3).unwrap();
    assert_eq!(mh.in_use_ct(), 1);
    assert!(mh.writable_bitmap().try_set(3).is_err());
}

#[test]
fn flags_hold_a_full_count_of_256() {
    let f = Flags::new(256, 63, 254, 3);
    assert_eq!(f.max_count(), 256);
    assert_eq!(f.size_class(), 63);
    assert_eq!(f.sv_offset(), 254);
    assert_eq!(f.free_list_id(), 3);
    assert!(!f.is_meshed());
}
