use mesh_alloc::mmap_heap::MmapHeap;

#[test]
fn mmap_heap_records_mappings() {
    let mut heap = MmapHeap::new();
    assert_eq!(heap.arena_size(), 0);
    assert_eq!(heap.malloc(0x1000, 4096), 0x1000);
    assert_eq!(heap.malloc(0x8000, 100), 0x8000);
    assert!(heap.in_bounds(0x1000));
    assert!(!heap.in_bounds(0x2000));
    assert_eq!(heap.get_size(0x8000), 100);
    assert_eq!(heap.arena_size(), 4196);
    assert_eq!(heap.free(0x1000), 4096);
    assert!(!heap.in_bounds(0x1000));
    assert_eq!(heap.arena_size(), 100);
}

#[test]
fn default_mmap_heap_is_empty() {
    let heap = MmapHeap::default();
    assert!(!heap.in_bounds(0));
    assert_eq!(heap.arena_size(), 0);
}
