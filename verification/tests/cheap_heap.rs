use std::collections::HashSet;

use mesh_alloc::cheap_heap::CheapHeap;
use mesh_alloc::slab::Slab;

const ARENA: usize = 0x10_0000;

fn heap<const A: usize, const M: usize>() -> CheapHeap<A, M> {
    let free_list: Slab<usize> = Slab::try_allocate(M, 0x20_0000).unwrap();
    CheapHeap::<A, M>::new(ARENA, free_list)
}

fn general_test<const A: usize, const M: usize>() {
    let mut cheap = heap::<A, M>();
    let mut ps = HashSet::with_capacity(M);
    let mut order = Vec::new();
    for i in 0..M {
        let p = cheap.allocate();
        assert!(ps.insert(p), "Allocation {i} already in use");
        assert!(ARENA <= p && p < ARENA + A * M);
        assert_eq!((p - ARENA) % A, 0);
        order.push(p);
    }
    for p in order.iter() {
        cheap.free(*p);
    }
    for p in order.iter().rev() {
        assert_eq!(cheap.allocate(), *p);
    }
}

#[test]
fn cheap_heap_hands_out_distinct_objects_16_512() {
    general_test::<16, 512>();
}

#[test]
fn cheap_heap_hands_out_distinct_objects_4096_512() {
    general_test::<4096, 512>();
}

#[test]
fn cheap_heap_addresses_and_offsets() {
    let mut cheap = heap::<64, 8>();
    assert_eq!(cheap.get_size(0), 64);
    let p1 = cheap.allocate();
    assert_eq!(p1, ARENA);
    let p2 = cheap.allocate();
    assert_eq!(p2, ARENA + 64);
    assert_eq!(cheap.offset_for(p2), 1);
    assert_eq!(cheap.ptr_from_offset(3), ARENA + 192);
    assert_eq!(cheap.offset_after_arena(), ARENA + 64 * 8);
}

#[test]
fn cheap_heap_free_then_allocate_gives_back_the_object() {
    let mut cheap = heap::<32, 4>();
    let p1 = cheap.allocate();
    let p2 = cheap.allocate();
    cheap.free(p1);
    assert_eq!(cheap.allocate(), p1);
    cheap.free(p2);
    cheap.free(p1);
    assert_eq!(cheap.allocate(), p1);
    assert_eq!(cheap.allocate(), p2);
}

#[test]
fn cheap_heap_with_one_slot_stays_in_its_arena() {
    let mut cheap = heap::<16, 1>();
    let p = cheap.allocate();
    assert_eq!(p, ARENA);
    assert!(p < cheap.offset_after_arena());
    assert_eq!(cheap.offset_after_arena(), ARENA + 16);
}
