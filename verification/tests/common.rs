use mesh_alloc::common::power_of_two::{byte_size_for_class, class_for_byte_size};
use mesh_alloc::common::{
    arena_size, ilog2, map_shared, page_count, round_up_to_page, static_log, MapSharing,
};

#[test]
fn page_rounding() {
    assert_eq!(page_count(0), 0);
    assert_eq!(page_count(1), 1);
    assert_eq!(page_count(4096), 1);
    assert_eq!(page_count(4097), 2);
    assert_eq!(round_up_to_page(1), 4096);
    assert_eq!(round_up_to_page(8192), 8192);
    assert_eq!(round_up_to_page(8193), 12288);
}

#[test]
fn logarithms() {
    assert_eq!(static_log(1), 0);
    assert_eq!(static_log(2), 1);
    assert_eq!(static_log(8), 3);
    assert_eq!(static_log(9), 3);
    assert_eq!(static_log(4096), 12);
    assert_eq!(ilog2(1), 0);
    assert_eq!(ilog2(2), 1);
    assert_eq!(ilog2(3), 2);
    assert_eq!(ilog2(8), 3);
    assert_eq!(ilog2(9), 4);
}

#[test]
fn power_of_two_classes() {
    assert_eq!(byte_size_for_class(0), 8);
    assert_eq!(byte_size_for_class(1), 16);
    assert_eq!(byte_size_for_class(5), 256);
    assert_eq!(class_for_byte_size(1), 0);
    assert_eq!(class_for_byte_size(8), 0);
    assert_eq!(class_for_byte_size(9), 1);
    assert_eq!(class_for_byte_size(16), 1);
    assert_eq!(class_for_byte_size(17), 2);
    assert_eq!(class_for_byte_size(256), 5);
    for i in 0..20u32 {
        assert_eq!(class_for_byte_size(byte_size_for_class(i)), i);
    }
}

#[test]
fn arena_and_mapping() {
    assert_eq!(arena_size(), 64 * 1024 * 1024 * 1024);
    assert_eq!(map_shared(), MapSharing::Shared);
}
