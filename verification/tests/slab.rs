use mesh_alloc::slab::Slab;

/// An address where the memory source placed the slab.
fn allocator(byte_ct: usize) -> usize {
    let buf: Vec<u8> = Vec::with_capacity(byte_ct);
    let start = buf.as_ptr() as usize;
    std::mem::forget(buf);
    start
}

#[test]
fn u8s() {
    const SLAB_LENGTH: usize = 1024;
    let mut slab: Slab<u8> = Slab::try_allocate(SLAB_LENGTH, allocator(SLAB_LENGTH)).unwrap();
    for i in 0..SLAB_LENGTH {
        let v = (i % 127) as u8;
        slab.set(i, v);
        let element = slab.get(i).unwrap();
        assert_eq!(element, &v);
        let v = slab.get_mut(i).unwrap();
        let updated = v.wrapping_mul(2);
        *v = updated;
        let element = slab.get(i).unwrap();
        assert_eq!(element, &updated);
    }
}

#[test]
fn ptrs() {
    const SLAB_LENGTH: usize = 1024;
    let mut slab: Slab<usize> =
        Slab::try_allocate(SLAB_LENGTH, allocator(SLAB_LENGTH * 8)).unwrap();
    for i in 0..SLAB_LENGTH {
        let v = i;
        slab.set(i, v);
        let element = slab.get(i).unwrap();
        assert_eq!(element, &v);
        let v = slab.get_mut(i).unwrap();
        let updated = v.wrapping_add(2);
        *v = updated;
        let element = slab.get(i).unwrap();
        assert_eq!(element, &updated);
    }
}

#[test]
fn slab_without_memory_is_none() {
    let slab: Option<Slab<u8>> = Slab::try_allocate(16, 0);
    assert!(slab.is_none());
}

#[test]
fn slab_slots_start_empty_and_end_at_capacity() {
    let mut slab: Slab<u32> = Slab::try_allocate(4, 4096).unwrap();
    assert_eq!(slab.capacity, 4);
    for i in 0..4 {
        assert_eq!(slab.get(i), None);
        assert!(slab.get_mut(i).is_none());
    }
    assert_eq!(slab.set(4, 7), None);
    assert_eq!(slab.get(4), None);
    assert_eq!(slab.set(3, 7), Some(()));
    assert_eq!(slab.get(3), Some(&7));
}

#[test]
fn slab_capacity_is_its_size() {
    let slab: Slab<u16> = Slab::try_allocate(24, 4096).unwrap();
    assert_eq!(slab.capacity, 24);
    assert_eq!(slab.get(23), None);
}
