use std::collections::HashMap;

use mesh_alloc::bitmap::{
    chunks_for, compute_item_position, rep_size, word_bits, word_bytes, BaseBitmapper, Bitmap,
    Bitmapper, Error, ItemPosition,
};
use rand::Rng;

#[test]
fn rep_sizes() {
    assert_eq!(0, rep_size(0));
    assert_eq!(word_bytes(), rep_size(1));
    assert_eq!(word_bytes(), rep_size(word_bits()));
    assert_eq!(word_bytes() * 2, rep_size(word_bits() + 1));
    assert_eq!(word_bytes() * 2, rep_size(word_bits() * 2));
    assert_eq!(word_bytes() * 3, rep_size(word_bits() * 2 + 1));
    assert_eq!(word_bytes() * 3, rep_size(word_bits() * 3));
    assert_eq!(word_bytes() * 4, rep_size(word_bits() * 3 + 1));
    assert_eq!(word_bytes() * 4, rep_size(word_bits() * 4));
    assert_eq!(word_bytes() * 5, rep_size(word_bits() * 4 + 1));
    assert_eq!(word_bytes() * 5, rep_size(word_bits() * 5));
    assert_eq!(word_bytes() * 6, rep_size(word_bits() * 5 + 1));
    assert_eq!(word_bytes() * 6, rep_size(word_bits() * 6));
    assert_eq!(word_bytes() * 7, rep_size(word_bits() * 6 + 1));
    assert_eq!(word_bytes() * 7, rep_size(word_bits() * 7));
    assert_eq!(word_bytes() * 8, rep_size(word_bits() * 7 + 1));
    assert_eq!(word_bytes() * 8, rep_size(word_bits() * 8));
}

#[test]
fn compute_item_position_tests() {
    for i in 0..10 {
        let min = i * word_bits();
        for j in 0..word_bits() {
            assert_eq!(ItemPosition { item: i, pos: j }, compute_item_position(min + j));
        }
    }
}

#[test]
fn lowest_bit_set_at() {
    let mut bits = Bitmap::new_relaxed(128);
    bits.try_set(6).unwrap();
    assert_eq!(6, bits.lowest_bit_set());
    assert_eq!(6, bits.lowest_bit_set_with(5));
    assert_eq!(6, bits.lowest_bit_set_with(6));
    assert_eq!(128, bits.lowest_bit_set_with(7));
    bits.try_set(123).unwrap();
    assert_eq!(123, bits.lowest_bit_set_with(7));
}

#[test]
fn highest_bit_set_at() {
    let mut bits = Bitmap::new_relaxed(128);
    bits.try_set(6).unwrap();
    assert_eq!(0, bits.highest_bit_set_with(0));
    assert_eq!(0, bits.highest_bit_set_with(5));
    assert_eq!(6, bits.highest_bit_set_with(6));
    assert_eq!(6, bits.highest_bit_set_with(7));
    assert_eq!(6, bits.highest_bit_set_with(127));
    bits.try_set(123).unwrap();
    println!("{bits:#?}");
    assert_eq!(123, bits.highest_bit_set_with(127));
}

#[test]
fn set_and_exchange_all() {
    const SIZE: usize = 2;
    assert_eq!(SIZE, 128 / word_bits());
    let mut bitmap = Bitmap::new_atomic_sized::<SIZE>();
    bitmap.try_set(3).unwrap();
    bitmap.try_set(4).unwrap();
    bitmap.try_set(127).unwrap();

    let mut new_bitmap = Bitmap::new_relaxed_fixed_sized::<SIZE>();
    new_bitmap.set_all().unwrap();
    let mut local_bitmap = Bitmap::new_relaxed_fixed_sized::<SIZE>();
    bitmap.set_and_exchange_all(local_bitmap.bits_mut(), new_bitmap.bits());
    local_bitmap.0.invert();
    for i in 0..bitmap.bit_ct() {
        assert!(bitmap.is_set(i), "bitmap index {i} was unset: {bitmap:#?}");
        assert!(new_bitmap.is_set(i), "new_bitmap index {i} was unset: {new_bitmap:#?}");
        match i {
            3 | 4 | 127 => {
                assert!(
                    !local_bitmap.is_set(i),
                    "expected local_bitmap index {i} to be unset: {local_bitmap:#?}"
                );
            }
            _ => {
                assert!(
                    local_bitmap.is_set(i),
                    "expected local_bitmap index {i} to be set: {local_bitmap:#?}"
                );
            }
        }
    }
}

#[test]
fn set_all() {
    let size: usize = 88 / word_bits();
    let mut bitmap1 = Bitmap::new_relaxed(size);
    for i in 0..size {
        bitmap1.try_set(i).unwrap();
    }
    let mut bitmap2 = Bitmap::new_relaxed(size);
    bitmap2.set_all().unwrap();
    for i in 0..size {
        assert!(bitmap1.is_set(i), "Expected bitmap1 index {i} to be set: {bitmap1:#?}");
        assert!(bitmap2.is_set(i), "Expected bitmap2 index {i} to be set: {bitmap2:#?}");
    }
}

fn run_get_set_test<T>(mut bm: Bitmap<T>, rng: &mut rand::rngs::ThreadRng)
where
    T: BaseBitmapper + std::fmt::Debug,
{
    const NTRIALS: usize = 1000;
    let choices: Vec<bool> = (0..bm.bit_ct()).map(|_| rng.random::<bool>()).collect();
    for _trial in 0..NTRIALS {
        for (i, b) in choices.iter().copied().enumerate() {
            if b {
                bm.try_set(i)
                    .unwrap_or_else(|e| panic!("failed to set index {i} {e:?}: {bm:#?}"));
            } else {
                assert!(!bm.is_set(i), "expected index {i} to be unset for {bm:#?}");
            }
        }
        for (i, b) in choices.iter().copied().enumerate() {
            if b {
                assert!(bm.is_set(i));
                bm.try_unset(i).unwrap();
            } else {
                assert!(!bm.is_set(i));
            }
        }
    }
}

const TWO: usize = 1;
const FOUR: usize = 1;
const EIGHT: usize = 1;
const SIXTEEN: usize = 1;
const THIRTY_TWO: usize = 1;
const SIXTY_FOUR: usize = 1;
const ONE_TWENTY_EIGHT: usize = 2;
const TWO_FIFTY_SIX: usize = 4;

fn check_chunk_counts() {
    assert_eq!(chunks_for(2), TWO);
    assert_eq!(chunks_for(4), FOUR);
    assert_eq!(chunks_for(8), EIGHT);
    assert_eq!(chunks_for(16), SIXTEEN);
    assert_eq!(chunks_for(32), THIRTY_TWO);
    assert_eq!(chunks_for(64), SIXTY_FOUR);
    assert_eq!(chunks_for(128), ONE_TWENTY_EIGHT);
    assert_eq!(chunks_for(256), TWO_FIFTY_SIX);
}

#[test]
fn set_get() {
    check_chunk_counts();
    let mut rng = rand::rng();
    run_get_set_test(Bitmap::new_atomic_sized::<TWO>(), &mut rng);
    run_get_set_test(Bitmap::new_atomic_sized::<FOUR>(), &mut rng);
    run_get_set_test(Bitmap::new_atomic_sized::<EIGHT>(), &mut rng);
    run_get_set_test(Bitmap::new_atomic_sized::<SIXTEEN>(), &mut rng);
    run_get_set_test(Bitmap::new_atomic_sized::<THIRTY_TWO>(), &mut rng);
    run_get_set_test(Bitmap::new_atomic_sized::<SIXTY_FOUR>(), &mut rng);
    run_get_set_test(Bitmap::new_atomic_sized::<ONE_TWENTY_EIGHT>(), &mut rng);
    run_get_set_test(Bitmap::new_atomic_sized::<TWO_FIFTY_SIX>(), &mut rng);
}

#[test]
fn set_get_relaxed() {
    let mut rng = rand::rng();
    run_get_set_test(Bitmap::new_relaxed(2), &mut rng);
    run_get_set_test(Bitmap::new_relaxed(4), &mut rng);
    run_get_set_test(Bitmap::new_relaxed(8), &mut rng);
    run_get_set_test(Bitmap::new_relaxed(16), &mut rng);
    run_get_set_test(Bitmap::new_relaxed(32), &mut rng);
    run_get_set_test(Bitmap::new_relaxed(64), &mut rng);
    run_get_set_test(Bitmap::new_relaxed(128), &mut rng);
    run_get_set_test(Bitmap::new_relaxed(256), &mut rng);
}

#[test]
fn set_get_relaxed_fixed() {
    check_chunk_counts();
    let mut rng = rand::rng();
    run_get_set_test(Bitmap::new_relaxed_fixed_sized::<TWO>(), &mut rng);
    run_get_set_test(Bitmap::new_relaxed_fixed_sized::<FOUR>(), &mut rng);
    run_get_set_test(Bitmap::new_relaxed_fixed_sized::<EIGHT>(), &mut rng);
    run_get_set_test(Bitmap::new_relaxed_fixed_sized::<SIXTEEN>(), &mut rng);
    run_get_set_test(Bitmap::new_relaxed_fixed_sized::<THIRTY_TWO>(), &mut rng);
    run_get_set_test(Bitmap::new_relaxed_fixed_sized::<SIXTY_FOUR>(), &mut rng);
    run_get_set_test(Bitmap::new_relaxed_fixed_sized::<ONE_TWENTY_EIGHT>(), &mut rng);
    run_get_set_test(Bitmap::new_relaxed_fixed_sized::<TWO_FIFTY_SIX>(), &mut rng);
}

#[test]
fn test_builtins() {
    let mut b = Bitmap::new_atomic();
    let i = b.set_first_empty().unwrap();
    assert_eq!(i, 0);
    b.try_unset(i).unwrap();
    const LOOP_TOP: usize = 66;
    for i in 0..LOOP_TOP {
        let _ = b.try_set(i);
    }
    let i2 = b.set_first_empty().unwrap();
    assert_eq!(i2, LOOP_TOP);
    for i in 0..LOOP_TOP {
        b.try_unset(i).unwrap();
    }
    let i3 = b.set_first_empty().unwrap();
    assert_eq!(i3, 0);
    let i4 = b.set_first_empty_with(4).unwrap();
    assert_eq!(i4, 4);
    let i5 = b.set_first_empty_with(111).unwrap();
    assert_eq!(i5, 111);
}

#[test]
fn iter() {
    let mut b = Bitmap::new_relaxed(512);
    b.try_set(0).unwrap();
    b.try_set(200).unwrap();
    b.try_set(500).unwrap();
    let mut bits = HashMap::new();
    let mut n = 0;
    let mut it = b.into_iter();
    while let Some(bit_idx) = it.next() {
        bits.insert(bit_idx, true);
        n += 1;
    }
    assert_eq!(n, 3);
    assert_eq!(bits.len(), 3);
    assert_eq!(bits.get(&0), Some(&true));
    assert_eq!(bits.get(&200), Some(&true));
    assert_eq!(bits.get(&500), Some(&true));
    assert_eq!(bits.get(&1), None);
}

#[test]
fn iter2() {
    let mut b = Bitmap::new_relaxed(512);
    b.try_set(200).unwrap();
    b.try_set(500).unwrap();
    let mut bits = HashMap::new();
    let mut n = 0;
    let mut it = b.into_iter();
    while let Some(off) = it.next() {
        bits.insert(off, true);
        n += 1;
    }
    assert_eq!(n, 2);
    assert_eq!(bits.len(), 2);
    assert_eq!(bits.get(&200), Some(&true));
    assert_eq!(bits.get(&500), Some(&true));
    assert_eq!(bits.iter().find(|(_, b)| !**b), None);
}

#[test]
fn set_half() {
    let mut i = 2;
    while i <= 2048 {
        let n_bits = i;
        let mut bm = Bitmap::new_relaxed(n_bits);
        assert!(bm.byte_ct() >= n_bits / 8);
        for i in 0..(n_bits / 2) {
            bm.try_set(i).unwrap();
            assert!(bm.is_set(i));
            assert!(bm.in_use_ct() == i + 1);
        }
        assert!(bm.is_set(0));
        assert!(bm.in_use_ct() == n_bits / 2);
        i *= 2;
    }
}

#[test]
fn try_set_twice_reports_the_slot() {
    let mut b = Bitmap::new_relaxed(128);
    assert_eq!(b.try_set(70), Ok(()));
    assert_eq!(b.try_set(70), Err(Error::SetFailed(1, 6)));
    assert_eq!(b.0.bits_at_index(1), 1 << 6);
}

#[test]
fn unset_of_a_clear_slot_fails_in_every_store() {
    let mut a = Bitmap::new_atomic();
    assert_eq!(a.try_unset(5), Err(Error::UnsetFailed(0, 5)));
    let mut r = Bitmap::new_relaxed(64);
    assert_eq!(r.try_unset(5), Err(Error::UnsetFailed(0, 5)));
    assert_eq!(r.0.bits(), &[0]);
}

#[test]
fn low_fill_and_invert() {
    let mut b = Bitmap::new_relaxed(256);
    b.0.set_all(3);
    assert_eq!(b.0.bits(), &[0b111, 0, 0, 0]);
    b.0.set_all(70);
    assert_eq!(b.0.bits(), &[u64::MAX, 0x3F, 0, 0]);
    b.0.set_all(128);
    assert_eq!(b.0.bits(), &[u64::MAX, u64::MAX, 0, 0]);
    b.0.set_all(256);
    assert_eq!(b.0.bits(), &[u64::MAX; 4]);
    b.0.set_all(3);
    b.0.invert();
    assert_eq!(b.0.bits_at_index(0), !0b111u64);
    assert_eq!(b.in_use_ct(), 256 - 3);
}

#[test]
fn clear_of_growable_store_drops_words() {
    let mut b = Bitmap::new_relaxed(128);
    b.0.clear();
    assert_eq!(b.bit_ct(), 0);
    let mut f = Bitmap::new_relaxed_fixed();
    f.set_all().unwrap();
    f.0.clear();
    assert_eq!(f.bit_ct(), 256);
    assert_eq!(f.in_use_ct(), 0);
}
