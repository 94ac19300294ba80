use mesh_alloc::heap_layers::building_blocks::free_list_heap::{FreeListHeap, LockedFreeListHeap};
use mesh_alloc::heap_layers::special::bump_alloc::BumpAlloc;
use mesh_alloc::heap_layers::stl::allocator::RawAllocator;
use mesh_alloc::heap_layers::stl::FlexableAllocator;
use mesh_alloc::heap_layers::threads::locked_heap::LockedHeap;
use mesh_alloc::heap_layers::top::mmap_heap::SizedMmapHeap;
use mesh_alloc::heap_layers::utilities::free_sl_list::{FreeSLList, Node};
use mesh_alloc::heap_layers::wrappers::mmap::MmapWrapper;
use mesh_alloc::one_way_mmap_heap::OneWayMmapHeap;

/// A source that hands out consecutive 4096-aligned blocks and remembers
/// what was given back.
struct Pages {
    next: usize,
    freed: Vec<(usize, usize)>,
}

impl Pages {
    fn new() -> Self {
        Pages { next: 0x10000, freed: Vec::new() }
    }
}

impl RawAllocator for Pages {
    const ALLIGNMENT: usize = 4096;

    fn malloc(&mut self, n: usize) -> usize {
        let r = self.next;
        self.next += ((n + 4095) / 4096).max(1) * 4096;
        r
    }

    fn free(&mut self, ptr: usize, sz: usize) {
        self.freed.push((ptr, sz));
    }

    fn memalign(&mut self, _alignment: usize, _sz: usize) -> usize {
        0
    }

    fn get_size(&mut self, _ptr: usize) -> usize {
        0
    }
}

impl FlexableAllocator for Pages {}

#[test]
fn free_sl_list_is_last_in_first_out() {
    let mut list: FreeSLList<u32, ()> = FreeSLList::new(());
    assert!(list.get().is_none());
    list.insert(1);
    list.insert(2);
    list.insert(3);
    assert_eq!(Node::into_element(list.get().unwrap()), 3);
    assert_eq!(Node::into_element(list.remove().unwrap()), 2);
    list.clear();
    assert!(list.get().is_none());
    assert_eq!(Node::into_element(Node::new(9u8)), 9);
}

#[test]
fn free_list_heap_reuses_freed_blocks_first() {
    let mut heap = FreeListHeap::new(Pages::new());
    let a = heap.malloc(100);
    let b = heap.malloc(100);
    assert_eq!(a, 0x10000);
    assert_eq!(b, 0x11000);
    heap.free(a);
    heap.free(0);
    heap.free(b);
    assert_eq!(heap.malloc(100), b);
    assert_eq!(heap.malloc(100), a);
    assert_eq!(heap.malloc(100), 0x12000);
}

#[test]
fn free_list_heap_clear_returns_blocks_to_the_source() {
    let mut heap = LockedFreeListHeap::new(Pages::new());
    let a = heap.malloc(10);
    let b = heap.malloc(10);
    heap.free(a, 10);
    heap.free(b, 10);
    assert_eq!(heap.memalign(64, 10), 0);
    assert_eq!(heap.get_size(a), 0);
    assert_eq!(heap.malloc(10), b);
}

#[test]
fn bump_alloc_bumps_through_chunks() {
    let mut bump: BumpAlloc<8192, Pages, 16> = BumpAlloc::new(Pages::new());
    let a = bump.malloc(10);
    assert_eq!(a, 0x10000);
    let b = bump.malloc(1);
    assert_eq!(b, 0x10010);
    let c = bump.malloc(32);
    assert_eq!(c, 0x10020);
    assert!(!bump.free());
    let big = bump.malloc(10000);
    assert_eq!(big, 0x12000);
    let after = bump.malloc(16);
    assert_eq!(after, 0x15000);
    assert_eq!(after % 16, 0);
    assert_eq!(bump.malloc(usize::MAX), 0);
}

#[test]
fn locked_heap_passes_calls_through() {
    let mut locked = LockedHeap::new(LockedFreeListHeap::new(Pages::new()));
    let a = locked.malloc(1);
    locked.free(a, 1);
    assert_eq!(locked.malloc(1), a);
    assert_eq!(locked.get_size(a), 0);
    assert_eq!(locked.memalign(8, 8), 0);
}

#[test]
fn mapping_lengths_are_whole_pages() {
    assert_eq!(MmapWrapper::map_length(0), 0);
    assert_eq!(MmapWrapper::map_length(1), 4096);
    assert_eq!(MmapWrapper::map_length(4096), 4096);
    assert_eq!(MmapWrapper::map_length(4097), 8192);
    assert_eq!(MmapWrapper::unmap_length(0), 0);
    assert_eq!(MmapWrapper::unmap_length(5000), 8192);
    assert!(MmapWrapper::releasable(0x3000));
    assert!(!MmapWrapper::releasable(0x3001));
    assert_eq!(SizedMmapHeap::map_length(1), 4096);
    assert_eq!(SizedMmapHeap::map_length(8192), 8192);
    assert_eq!(SizedMmapHeap::get_size(0x1000), 0);
    assert_eq!(SizedMmapHeap::ALIGNMENT, 4096);
    assert_eq!(OneWayMmapHeap::map_length(0), 0);
    assert_eq!(OneWayMmapHeap::map_length(100), 4096);
    assert_eq!(OneWayMmapHeap::get_size(0x1000), 0);
    OneWayMmapHeap::free(0x1000);
}

use mesh_alloc::heap_layers::top::mmap_heap::MmapHeap as BlockHeap;

#[test]
fn block_heap_records_sizes() {
    let mut heap = BlockHeap::new();
    assert_eq!(heap.get_size(0x4000), 0);
    assert_eq!(heap.malloc(0x4000, 100), 0x4000);
    assert_eq!(heap.malloc(0x8000, 9000), 0x8000);
    assert_eq!(heap.get_size(0x4000), 100);
    assert_eq!(heap.free(0x4000), Some(100));
    assert_eq!(heap.free(0x4000), None);
    assert_eq!(heap.get_size(0x4000), 0);
    assert_eq!(heap.get_size(0x8000), 9000);
}

/// A source that hands out consecutive 4096-aligned blocks and logs every
/// request and every block given back, in a log the test keeps too.
struct Logged {
    next: usize,
    log: std::rc::Rc<std::cell::RefCell<Vec<(&'static str, usize, usize)>>>,
}

impl RawAllocator for Logged {
    const ALLIGNMENT: usize = 4096;

    fn malloc(&mut self, n: usize) -> usize {
        let r = self.next;
        self.next += ((n + 4095) / 4096).max(1) * 4096;
        self.log.borrow_mut().push(("malloc", n, r));
        r
    }

    fn free(&mut self, ptr: usize, sz: usize) {
        self.log.borrow_mut().push(("free", ptr, sz));
    }

    fn memalign(&mut self, _alignment: usize, _sz: usize) -> usize {
        0
    }

    fn get_size(&mut self, _ptr: usize) -> usize {
        0
    }
}

impl FlexableAllocator for Logged {}

fn logged() -> (Logged, std::rc::Rc<std::cell::RefCell<Vec<(&'static str, usize, usize)>>>) {
    let log = std::rc::Rc::new(std::cell::RefCell::new(Vec::new()));
    (Logged { next: 0x10000, log: log.clone() }, log)
}

#[test]
fn free_list_heap_clear_frees_the_last_freed_first() {
    let (source, log) = logged();
    let mut heap = FreeListHeap::new(source);
    let a = heap.malloc(10);
    let b = heap.malloc(10);
    heap.free(a);
    heap.free(b);
    heap.clear();
    assert_eq!(
        *log.borrow(),
        vec![("malloc", 10, a), ("malloc", 10, b), ("free", b, 0), ("free", a, 0)]
    );
    assert_eq!(heap.malloc(10), 0x12000);
}

#[test]
fn free_list_heap_takes_any_block_back() {
    let (source, log) = logged();
    let mut heap = FreeListHeap::new(source);
    heap.free(0x1234);
    assert_eq!(heap.malloc(8), 0x1234);
    assert!(log.borrow().is_empty());
}

#[test]
fn bump_alloc_asks_the_source_for_whole_chunks() {
    let (source, log) = logged();
    let mut bump: BumpAlloc<64, Logged, 8> = BumpAlloc::new(source);
    let p1 = bump.malloc(1);
    assert_eq!(bump.malloc(1), p1.wrapping_add(8));
    assert_eq!(*log.borrow(), vec![("malloc", 64, p1)]);
    let big = bump.malloc(100);
    assert_eq!(big, 0x11000);
    assert_eq!(log.borrow().len(), 2);
    assert_eq!(log.borrow()[1], ("malloc", 104, big));
}

#[test]
fn block_heap_with_seeds_records_sizes() {
    let mut heap = BlockHeap::with_seeds(1, 2, 3, 4);
    assert_eq!(heap.malloc(0x4000, 100), 0x4000);
    assert_eq!(heap.get_size(0x4000), 100);
    assert_eq!(heap.free(0x4000), Some(100));
}
