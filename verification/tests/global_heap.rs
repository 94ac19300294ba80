use mesh_alloc::global_heap::EpochLock;

#[test]
fn epoch_lock_counts_meshes() {
    let mut lock = EpochLock::new();
    assert_eq!(lock.current(), 0);
    let start = lock.current();
    lock.lock();
    assert_eq!(lock.current(), 1);
    assert!(!lock.is_same(start));
    lock.unlock();
    assert_eq!(lock.current(), 2);
    assert!(lock.is_same(2));
}
