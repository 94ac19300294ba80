//! Allocator-wide constants and size arithmetic.
use vstd::prelude::*;

use crate::bitmap::{leading_zeros, word_bit};

pub mod power_of_two;

verus! {

/// Meshing (merging of sparsely used spans) is on.
pub const MESHING_ENABLED: bool = true;

/// Size of the bookkeeping record of one miniheap.
pub const MINI_HEAP_SIZE: usize = 64;

pub const MIN_OBJECT_SIZE: usize = 16;

pub const MAX_SIZE: usize = 16_384;

pub const CLASS_SIZE_MAX: usize = 25;

pub const ALIGNMENT: usize = 8;

pub const MIN_ALIGN: usize = 16;

pub const PAGE_SIZE: usize = 4096;

pub const MAX_FAST_LARGE_SIZE: usize = 262_144;

pub const MAX_SPLIT_LIST_SIZE: usize = 16_384;

pub const MAX_MERGE_SETS: usize = 4096;

pub const DEFAULT_MAX_MESH_COUNT: usize = 30_000;

pub const MAX_MESHES_PER_ITERATION: usize = 2_500;

/// Dirty pages held before they are returned to the OS (64 MB in pages).
pub const MAX_DIRTY_PAGE_THRESHOLD: usize = 16_384;

/// 128 KB in pages.
pub const MIN_DIRTY_PAGE_THRESHOLD: usize = 32;

pub const SPAN_CLASS_COUNT: usize = 256;

/// Number of size classes (16 KB largest object).
pub const NUM_BINS: usize = 25;

pub const DEFAULT_MESH_PERIOD: usize = 10_000;

/// 16 MB in pages.
pub const MIN_ARENA_EXPANSION: usize = 4096;

pub const MIN_STRING_LEN: usize = 8;

pub const MINIHEAP_REFILL_GOAL_SIZE: usize = 4096;

pub const MAX_MINIHEAPS_PER_SHUFFLE_VECTOR: usize = 24;

pub const MAX_SHUFFLE_VECTOR_LENGTH: usize = 256;

pub const ENABLE_SHUFFLE_ON_INIT: bool = false;

pub const ENABLE_SHUFFLE_ON_FREE: bool = false;

pub const ADVISE_DUMP: bool = false;

/// Time between meshing passes, in milliseconds.
pub const MESH_PERIOD_MILLIS: u64 = 100;

/// One mesh per bit of a byte-wide counter.
pub const MAX_MESHES: usize = 256;

/// 16 KB signal stacks.
pub const ALT_STACK_SIZE: usize = 16_384;

pub const BINNED_TRACKER_BIN_COUNT: usize = 1;

pub const BINNED_TRACKER_MAX_EMPTY: usize = 128;

pub const CACHELINE_SIZE: usize = 64;

/// How spans are mapped: shared (so that meshing can alias pages) or
/// private and unreserved.
#[derive(Debug, Clone, Copy, PartialEq, Eq, Structural)]
pub enum MapSharing {
    Shared,
    PrivateNoReserve,
}

/// How spans are mapped: shared whenever meshing is enabled.
pub fn map_shared() -> (r: MapSharing)
    ensures
        r == (if MESHING_ENABLED {
            MapSharing::Shared
        } else {
            MapSharing::PrivateNoReserve
        }),
{
    if MESHING_ENABLED {
        return MapSharing::Shared;
    }
    MapSharing::PrivateNoReserve
}

/// Size of the address space reserved for the arena: 64 GB.
pub fn arena_size() -> (r: usize)
    requires
        usize::BITS == 64,
    ensures
        r == 64 * 1024 * 1024 * 1024,
{
    let base: usize = 64;
    base * 1024 * 1024 * 1024
}

/// Number of pages needed to hold `sz` bytes.
pub fn page_count(sz: usize) -> (r: usize)
    requires
        sz + (PAGE_SIZE - 1) <= usize::MAX,
    ensures
        r == (sz + PAGE_SIZE - 1) / PAGE_SIZE as int,
{
    (sz + (PAGE_SIZE - 1)) / PAGE_SIZE
}

/// `sz` rounded up to a whole number of pages.
pub fn round_up_to_page(sz: usize) -> (r: usize)
    requires
        sz + (PAGE_SIZE - 1) <= usize::MAX,
    ensures
        r == PAGE_SIZE * ((sz + PAGE_SIZE - 1) / PAGE_SIZE as int),
        r % PAGE_SIZE == 0,
        sz <= r < sz + PAGE_SIZE,
{
    let n = page_count(sz);
    assert(PAGE_SIZE * n <= sz + (PAGE_SIZE - 1) && sz <= PAGE_SIZE * n) by (nonlinear_arith)
        requires
            n == (sz + 4095) / 4096,
            PAGE_SIZE == 4096,
    ;
    assert((PAGE_SIZE * n) % 4096 == 0) by (nonlinear_arith)
        requires
            PAGE_SIZE == 4096,
    ;
    PAGE_SIZE * n
}

/// The base-2 logarithm of `v`, rounded down (0 for 0 and 1).
pub open spec fn static_log_spec(v: nat) -> nat
    decreases v,
{
    if v == 1 {
        0
    } else if v == 2 {
        1
    } else if v > 1 {
        static_log_spec(v / 2) + 1
    } else {
        0
    }
}

proof fn lemma_static_log_bound(v: nat)
    ensures
        static_log_spec(v) <= v,
    decreases v,
{
    if v > 2 {
        lemma_static_log_bound(v / 2);
    }
}

/// `static_log` is the base-2 logarithm rounded down: for `v >= 1`,
/// `2^static_log(v) <= v < 2^(static_log(v) + 1)`.
pub proof fn law_static_log_floor(v: nat)
    requires
        v >= 1,
    ensures
        vstd::arithmetic::power2::pow2(static_log_spec(v)) <= v < vstd::arithmetic::power2::pow2(
            static_log_spec(v) + 1,
        ),
    decreases v,
{
    let r = static_log_spec(v);
    vstd::arithmetic::power2::lemma_pow2_unfold(r + 1);
    if v == 1 {
        vstd::arithmetic::power2::lemma2_to64();
    } else if v == 2 {
        vstd::arithmetic::power2::lemma2_to64();
    } else {
        law_static_log_floor(v / 2);
        let r1 = static_log_spec(v / 2);
        assert(r == r1 + 1);
        vstd::arithmetic::power2::lemma_pow2_unfold(r1 + 1);
        vstd::arithmetic::power2::lemma_pow2_unfold(r1 + 2);
    }
}

/// The base-2 logarithm of `v`, rounded down (0 for 0 and 1).
pub fn static_log(v: usize) -> (r: usize)
    ensures
        r == static_log_spec(v as nat),
    decreases v,
{
    if v == 1 {
        0
    } else if v == 2 {
        1
    } else if v > 1 {
        proof {
            lemma_static_log_bound((v / 2) as nat);
        }
        static_log(v / 2) + 1
    } else {
        0
    }
}

/// The base-2 logarithm of `sz`, rounded up: the index of the highest set
/// bit of `2 * sz - 1`.
pub fn ilog2(sz: usize) -> (r: u32)
    requires
        1 <= sz,
        2 * sz <= u64::MAX,
        2 * sz <= usize::MAX,
    ensures
        r < 64,
        word_bit((2 * sz - 1) as u64, r as u64),
        forall|j: u64| r < j < 64 ==> !#[trigger] word_bit((2 * sz - 1) as u64, j),
{
    let szx8: u32 = 64;
    let sz_shift = (sz as u64) << 1u64;
    assert(sz_shift == 2 * sz) by (bit_vector)
        requires
            sz_shift == (sz as u64) << 1u64,
            2 * sz <= u64::MAX,
    ;
    let shift_sub1 = sz_shift - 1;
    let lz = leading_zeros(shift_sub1);
    szx8 - lz - 1
}


} // verus!
