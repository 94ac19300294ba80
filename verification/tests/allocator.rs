use mesh_alloc::allocator::{
    AllocStep, GlobalHeap, LocalHeap, MeshAllocator, MiniHeap, MAX_SIZE_CLASS, SPAN_SIZE,
};
use mesh_alloc::PAGE_SIZE;
use rand::rngs::SmallRng;
use rand::SeedableRng;

const SPAN: usize = 0x4000_0000;

fn mini_heap(size_class: usize, span_size: usize) -> MiniHeap {
    MiniHeap::new(SPAN, size_class, span_size, SmallRng::seed_from_u64(1))
}

#[test]
fn size_classes_map_to_object_sizes() {
    assert_eq!(MiniHeap::size_class_to_size(0), 8);
    assert_eq!(MiniHeap::size_class_to_size(1), 16);
    assert_eq!(MiniHeap::size_class_to_size(2), 32);
    assert_eq!(MiniHeap::size_class_to_size(3), 64);
    assert_eq!(MiniHeap::size_class_to_size(4), 128);
    assert_eq!(MiniHeap::size_class_to_size(5), 256);
    assert_eq!(MiniHeap::size_class_to_size(200), 256);
}

#[test]
fn request_sizes_map_to_classes() {
    let local = LocalHeap::new();
    assert_eq!(local.size_to_class(0), 0);
    assert_eq!(local.size_to_class(8), 0);
    assert_eq!(local.size_to_class(9), 1);
    assert_eq!(local.size_to_class(16), 1);
    assert_eq!(local.size_to_class(17), 2);
    assert_eq!(local.size_to_class(64), 3);
    assert_eq!(local.size_to_class(65), 4);
    assert_eq!(local.size_to_class(129), 5);
    assert_eq!(local.size_to_class(256), 5);
    assert_eq!(local.size_to_class(4096), 5);
}

#[test]
fn mini_heap_hands_out_every_slot_once() {
    let mut mh = mini_heap(2, PAGE_SIZE);
    let mut seen = Vec::new();
    for _ in 0..PAGE_SIZE / 32 {
        let p = mh.allocate().unwrap();
        assert!(p >= SPAN && p < SPAN + PAGE_SIZE);
        assert_eq!((p - SPAN) % 32, 0);
        seen.push(p);
    }
    assert_eq!(mh.allocate(), None);
    seen.sort();
    seen.dedup();
    assert_eq!(seen.len(), PAGE_SIZE / 32);
}

#[test]
fn test_mini_heap() {
    let mut mini_heap = mini_heap(2, PAGE_SIZE);
    let ptr1 = mini_heap.allocate().unwrap();
    let ptr2 = mini_heap.allocate().unwrap();
    assert!(mini_heap.deallocate(ptr1));
    let ptr3 = mini_heap.allocate().unwrap();
    assert_ne!(ptr2, ptr3);
    assert_eq!(ptr3, ptr1);
}

#[test]
fn mini_heap_refuses_foreign_and_free_pointers() {
    let mut mh = mini_heap(3, PAGE_SIZE);
    let p = mh.allocate().unwrap();
    assert!(!mh.deallocate(SPAN - 1));
    assert!(!mh.deallocate(SPAN + PAGE_SIZE));
    assert!(mh.deallocate(p + 5));
    assert!(!mh.deallocate(p));
}

#[test]
fn mini_heaps_mesh_when_objects_fit() {
    let mut a = mini_heap(5, PAGE_SIZE);
    let mut b = mini_heap(5, PAGE_SIZE);
    let c = mini_heap(4, PAGE_SIZE);
    assert!(a.can_mesh_with(&b));
    assert!(!a.can_mesh_with(&c));
    for _ in 0..10 {
        a.allocate().unwrap();
        b.allocate().unwrap();
    }
    assert!(!a.can_mesh_with(&b));
    for _ in 0..6 {
        a.allocate().unwrap();
    }
    assert!(!a.can_mesh_with(&b));
    let d = mini_heap(5, PAGE_SIZE);
    assert!(a.can_mesh_with(&d));
}

#[test]
fn test_single_threaded_allocator() {
    let mut allocator = MeshAllocator::new();
    let step = allocator.allocate_local(64);
    assert_eq!(step, AllocStep::NeedsSpan(3));
    let ptr1 = allocator.allocate_in_new_span(3, SPAN).unwrap();
    let ptr2 = match allocator.allocate_local(64) {
        AllocStep::Allocated(p) => p,
        other => panic!("unexpected {other:?}"),
    };
    assert_ne!(ptr1, ptr2);
    assert!(allocator.deallocate_local(ptr1));
    assert!(allocator.deallocate_local(ptr2));
    assert!(!allocator.deallocate_local(ptr2));
    assert_eq!(allocator.stats().alloc_count, 1);
}

#[test]
fn allocator_without_span_gives_nothing() {
    let mut allocator = MeshAllocator::default();
    assert_eq!(allocator.allocate_in_new_span(0, 0), None);
    assert_eq!(allocator.allocate_local(8), AllocStep::NeedsSpan(0));
    assert_eq!(allocator.stats().alloc_count, 0);
}

#[test]
fn local_heap_exhausts_and_asks_for_a_new_span() {
    let mut global = GlobalHeap::new();
    let mut local = LocalHeap::new();
    assert_eq!(local.allocate(&mut global, 256), AllocStep::NeedsSpan(5));
    let first = local.allocate_in_new_span(&mut global, 5, SPAN).unwrap();
    assert!(first >= SPAN && first < SPAN + SPAN_SIZE);
    for _ in 1..SPAN_SIZE / 256 {
        match local.allocate(&mut global, 200) {
            AllocStep::Allocated(p) => assert!(p >= SPAN && p < SPAN + SPAN_SIZE),
            other => panic!("unexpected {other:?}"),
        }
    }
    assert_eq!(local.allocate(&mut global, 200), AllocStep::NeedsSpan(5));
    assert!(MAX_SIZE_CLASS > 5);
}

#[test]
fn global_heap_tracks_a_copy_of_each_new_mini_heap() {
    let mut global = GlobalHeap::new();
    assert!(global.get_mini_heap(1).is_none());
    let mut mh = global.create_mini_heap(1, SPAN).unwrap();
    assert_eq!(global.stats().alloc_count, 1);
    let p = mh.allocate().unwrap();
    assert!(mh.deallocate(p));
    assert!(!global.deallocate(p));
    assert_eq!(global.stats().mesh_count, 0);
    assert!(global.create_mini_heap(1, 0).is_none());
    assert_eq!(global.stats().alloc_count, 1);
}

#[test]
fn global_deallocation_counts_meshable_pairs() {
    let mut global = GlobalHeap::new();
    let _a = global.create_mini_heap(2, SPAN).unwrap();
    let _b = global.create_mini_heap(2, SPAN + SPAN_SIZE).unwrap();
    let _c = global.create_mini_heap(3, SPAN + 2 * SPAN_SIZE).unwrap();
    assert_eq!(global.stats().alloc_count, 3);
    assert!(!global.deallocate(SPAN));
    assert_eq!(global.stats().mesh_count, 0);
}

#[test]
fn new_span_with_a_generator_always_allocates() {
    let mut allocator = MeshAllocator::new();
    let ptr = allocator
        .allocate_in_new_span_with(3, SPAN, SmallRng::seed_from_u64(7))
        .unwrap();
    assert!(ptr >= SPAN && ptr < SPAN + SPAN_SIZE);
    assert_eq!((ptr - SPAN) % 64, 0);
    assert_eq!(allocator.stats().alloc_count, 1);
    assert_eq!(
        allocator.allocate_in_new_span_with(3, 0, SmallRng::seed_from_u64(7)),
        None
    );
    assert_eq!(allocator.stats().alloc_count, 1);
}

#[test]
fn local_new_span_with_a_generator_installs_the_heap() {
    let mut global = GlobalHeap::new();
    let mut local = LocalHeap::new();
    let first = local
        .allocate_in_new_span_with(&mut global, 4, SPAN, SmallRng::seed_from_u64(3))
        .unwrap();
    assert!(first >= SPAN && first < SPAN + SPAN_SIZE);
    match local.allocate(&mut global, 128) {
        AllocStep::Allocated(p) => {
            assert_ne!(p, first);
            assert!(p >= SPAN && p < SPAN + SPAN_SIZE);
        }
        other => panic!("unexpected {other:?}"),
    }
    assert_eq!(
        local.allocate_in_new_span_with(&mut global, 4, 0, SmallRng::seed_from_u64(3)),
        None
    );
}
