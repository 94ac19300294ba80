//! Power-of-two size classes.
use vstd::prelude::*;
use crate::bitmap::word_bit;
use super::{ilog2, static_log, static_log_spec};

verus! {

pub const MIN_OBJECT_SIZE: usize = 8;

/// Object size of power-of-two class `i`: `8 << i`.
pub fn byte_size_for_class(i: u32) -> (r: usize)
    requires
        i + 3 < usize::BITS,
    ensures
        r == (1usize << ((i + 3) as usize)),
        r == vstd::arithmetic::power2::pow2((i + 3) as nat),
{
    proof {
        reveal_with_fuel(static_log_spec, 4);
        vstd::bits::lemma_usize_pow2_no_overflow((i + 3) as nat);
        vstd::bits::lemma_usize_shl_is_mul(1, (i + 3) as usize);
    }
    1usize << ((i as usize) + static_log(MIN_OBJECT_SIZE))
}

/// `r` is the power-of-two class of `sz`: bit `r + 3` is the highest set
/// bit of `2 * max(sz, 8) - 1`.
pub open spec fn is_class_of(sz: usize, r: u32) -> bool {
    &&& r + 3 < 64
    &&& word_bit(class_word(sz), (r + 3) as u64)
    &&& forall|j: u64| r + 3 < j < 64 ==> !#[trigger] word_bit(class_word(sz), j)
}

/// `2 * max(sz, 8) - 1`, whose highest set bit places `sz` in its class.
pub open spec fn class_word(sz: usize) -> u64 {
    (2 * (if sz < 8 {
        8
    } else {
        sz
    }) - 1) as u64
}

/// The highest set bit `h` of `x` places it between `2^h` and `2^(h+1)`.
proof fn lemma_highest_bit(x: u64, h: u64)
    requires
        h < 64,
        word_bit(x, h),
        forall|j: u64| h < j < 64 ==> !#[trigger] word_bit(x, j),
    ensures
        vstd::arithmetic::power2::pow2(h as nat) <= x,
        x < vstd::arithmetic::power2::pow2((h + 1) as nat),
{
    assert(x != 0) by {
        if x == 0 {
            assert((0u64 >> h) & 1u64 == 0u64) by (bit_vector);
        }
    }
    vstd::std_specs::bits::axiom_u64_leading_zeros(x);
    let lz = vstd::std_specs::bits::u64_leading_zeros(x);
    let top = (63 - lz) as u64;
    assert(word_bit(x, top)) by {
        assert(((x >> top) & 1u64 != 0u64) ==> ((x >> top) & 1u64 == 1u64)) by (bit_vector);
    }
    if h < top {
        assert(!word_bit(x, top));
    }
    if h > top {
        assert((x >> h) & 1u64 == 0u64);
    }
    assert(h == top);
    vstd::bits::lemma_u64_pow2_no_overflow(h as nat);
    vstd::bits::lemma_u64_shl_is_mul(1, h);
    assert((1u64 << h) <= x) by (bit_vector)
        requires
            h < 64,
            (x >> h) & 1u64 == 1u64,
    ;
    if h < 63 {
        vstd::bits::lemma_u64_pow2_no_overflow((h + 1) as nat);
        vstd::bits::lemma_u64_shl_is_mul(1, (h + 1) as u64);
        assert(x >> ((h + 1) as u64) == 0u64);
        assert(x < (1u64 << ((h + 1) as u64))) by (bit_vector)
            requires
                h < 63,
                x >> ((h + 1) as u64) == 0u64,
        ;
    } else {
        vstd::arithmetic::power2::lemma2_to64_rest();
    }
}

/// The class of a size is the smallest whose objects hold it: for `sz`
/// from 1 up to the object size of class 24, objects of class `c` hold
/// `sz` bytes and, unless `c` is 0, objects of class `c - 1` do not.
pub proof fn law_class_for_byte_size(sz: usize, c: u32)
    requires
        1 <= sz <= vstd::arithmetic::power2::pow2(27),
        is_class_of(sz, c),
    ensures
        vstd::arithmetic::power2::pow2((c + 3) as nat) >= sz,
        c == 0 || vstd::arithmetic::power2::pow2((c + 2) as nat) < sz,
{
    let s: int = if sz < 8 { 8 } else { sz as int };
    vstd::arithmetic::power2::lemma2_to64();
    vstd::arithmetic::power2::lemma2_to64_rest();
    let x = class_word(sz);
    assert(x == 2 * s - 1);
    let h = (c + 3) as u64;
    lemma_highest_bit(x, h);
    vstd::arithmetic::power2::lemma_pow2_unfold(h as nat + 1);
    if c > 0 {
        vstd::arithmetic::power2::lemma_pow2_unfold(h as nat);
    }
    if sz < 8 {
        assert(x == 15);
        if c > 0 {
            vstd::arithmetic::power2::lemma_pow2_strictly_increases(4, h as nat);
        }
    }
}

/// The class of the object size of class `i` (up to 24) is `i`.
pub proof fn law_class_of_class_size(i: u32, c: u32)
    requires
        i <= 24,
        is_class_of(vstd::arithmetic::power2::pow2((i + 3) as nat) as usize, c),
    ensures
        c == i,
{
    vstd::arithmetic::power2::lemma2_to64();
    vstd::arithmetic::power2::lemma2_to64_rest();
    let sz = vstd::arithmetic::power2::pow2((i + 3) as nat);
    if i < 24 {
        vstd::arithmetic::power2::lemma_pow2_strictly_increases((i + 3) as nat, 27);
    }
    law_class_for_byte_size(sz as usize, c);
    if c < i {
        vstd::arithmetic::power2::lemma_pow2_strictly_increases((c + 3) as nat, (i + 3) as nat);
    }
    if c > i {
        if (c + 2) as nat > (i + 3) as nat {
            vstd::arithmetic::power2::lemma_pow2_strictly_increases((i + 3) as nat, (c + 2) as nat);
        }
    }
}

/// Power-of-two class of an object of `sz` bytes (sizes below 8 share
/// class 0): `ceil(log2(max(sz, 8))) - 3`.
pub fn class_for_byte_size(sz: usize) -> (r: u32)
    requires
        2 * sz <= u64::MAX,
        2 * sz <= usize::MAX,
    ensures
        is_class_of(sz, r),
{
    let sz2 = if sz < 8 {
        8
    } else {
        sz
    };
    let l = ilog2(sz2);
    proof {
        reveal_with_fuel(static_log_spec, 4);
        let x = (2 * sz2 - 1) as u64;
        if l < 3 {
            assert(!word_bit(x, 3) && !word_bit(x, 4) && !word_bit(x, 5) && !word_bit(x, 6));
            assert forall|j: u64| 3 <= j < 64 implies !#[trigger] word_bit(x, j) by {}
            assert(x >= 15);
            assert(false) by {
                lemma_high_bits_clear(x);
            }
        }
    }
    l - (static_log(MIN_OBJECT_SIZE) as u32)
}

proof fn lemma_high_bits_clear(x: u64)
    requires
        x >= 8,
    ensures
        exists|j: u64| 3 <= j < 64 && #[trigger] word_bit(x, j),
{
    vstd::std_specs::bits::axiom_u64_leading_zeros(x);
    let hi = (63 - vstd::std_specs::bits::u64_leading_zeros(x)) as u64;
    assert(x >> (64 - vstd::std_specs::bits::u64_leading_zeros(x)) as u64 == 0);
    assert(hi >= 3) by {
        if hi < 3 {
            let s = (64 - vstd::std_specs::bits::u64_leading_zeros(x)) as u64;
            assert(s <= 3);
            assert((x >> s == 0u64 && s <= 3) ==> x < 8) by (bit_vector);
        }
    }
    assert((x >> hi) & 1u64 != 0u64);
    assert(((x >> hi) & 1u64 != 0u64) ==> ((x >> hi) & 1u64 == 1u64)) by (bit_vector);
    assert(word_bit(x, hi));
}

} // verus!
