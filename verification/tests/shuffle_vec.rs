use mesh_alloc::shuffle_vec::ShuffleVector;
use rand::rngs::SmallRng;
use rand::SeedableRng;

#[test]
fn test_shuffle_vector() {
    let rng = rand::rng();
    let mut sv = ShuffleVector::from_parts((0usize..10).collect(), rng);

    let mut allocated = Vec::new();
    for _ in 0..10 {
        allocated.push(*sv.get().unwrap());
    }

    assert_eq!(sv.get(), None);

    sv.put(allocated[0]);
    sv.put(allocated[1]);

    sv.get().unwrap();
    sv.get().unwrap();
    assert_eq!(sv.get(), None);
}

#[test]
fn shuffled_pool_is_a_permutation() {
    let rng = SmallRng::seed_from_u64(7);
    let mut sv = ShuffleVector::from_parts((0usize..64).collect(), rng);
    let mut seen = Vec::new();
    while let Some(x) = sv.get() {
        seen.push(*x);
    }
    seen.sort();
    assert_eq!(seen, (0usize..64).collect::<Vec<_>>());
    assert!(sv.is_empty());
    assert_eq!(sv.len(), 0);
}

#[test]
fn put_hands_back_the_same_element_next() {
    let rng = SmallRng::seed_from_u64(3);
    let mut sv = ShuffleVector::from_parts(vec![5usize, 6, 7], rng);
    let first = *sv.get().unwrap();
    assert!(!sv.is_empty());
    assert_eq!(sv.put(42), None);
    assert_eq!(sv.get(), Some(&42));
    let _ = first;
}

#[test]
fn put_with_nothing_handed_out_returns_the_element() {
    let rng = SmallRng::seed_from_u64(11);
    let mut sv = ShuffleVector::from_parts(vec![1usize, 2], rng);
    assert_eq!(sv.put(9), Some(9));
}

#[test]
fn shuffle_leaves_the_last_element_in_place() {
    for seed in 0..16u64 {
        let mut sv = ShuffleVector::from_parts((0usize..12).collect(), SmallRng::seed_from_u64(seed));
        let mut seen = Vec::new();
        while let Some(x) = sv.get() {
            seen.push(*x);
        }
        assert_eq!(seen.len(), 12);
        assert_eq!(seen[11], 11);
    }
}

#[test]
fn shuffle_of_two_elements_keeps_their_order() {
    let mut sv = ShuffleVector::from_parts(vec![5usize, 9], SmallRng::seed_from_u64(1));
    assert_eq!(sv.get(), Some(&5));
    assert_eq!(sv.get(), Some(&9));
    assert_eq!(sv.get(), None);
}
