//! A heap that obtains memory in chunks and bumps a pointer through each
//! chunk; it never reclaims.
use vstd::prelude::*;

use crate::heap_layers::stl::allocator::RawAllocator;
use crate::heap_layers::stl::FlexableAllocator;

verus! {

/// `a` is a power of two, `2^k` for a `k` below the width of `usize`.
pub open spec fn is_pow2(a: usize) -> bool {
    exists|k: usize| k < usize::BITS && a == (1usize << k)
}

/// For a power of two `a`: `a - 1` masks the remainder by `a`.
pub proof fn lemma_pow2_mask(a: usize, x: usize)
    requires
        is_pow2(a),
    ensures
        a > 0,
        a & ((a - 1) as usize) == 0,
        x & ((a - 1) as usize) == x % a,
{
    let k = choose|k: usize| k < usize::BITS && a == (1usize << k);
    assert(a > 0 && a & ((a - 1) as usize) == 0) by (bit_vector)
        requires
            k < usize::BITS,
            a == (1usize << k),
    ;
    vstd::bits::lemma_usize_pow2_no_overflow(k as nat);
    vstd::bits::lemma_usize_shl_is_mul(1, k);
    vstd::bits::lemma_usize_low_bits_mask_is_mod(x, k as nat);
}

/// `sz` rounded up to a multiple of `a`.
pub open spec fn round_up(sz: int, a: int) -> int {
    ((sz + a - 1) / a) * a
}

/// Rounding by masking: `(sz + a - 1) & !(a - 1)` is `sz` rounded up to a
/// multiple of the power of two `a`.
proof fn lemma_mask_round_up(sz: usize, a: usize, y: usize)
    requires
        is_pow2(a),
        y == sz + a - 1,
    ensures
        y & !((a - 1) as usize) == round_up(sz as int, a as int),
        round_up(sz as int, a as int) % (a as int) == 0,
        sz <= round_up(sz as int, a as int) < sz + a,
{
    lemma_pow2_mask(a, y);
    let m = (a - 1) as usize;
    assert(y & !m == y - (y & m)) by (bit_vector);
    vstd::arithmetic::div_mod::lemma_fundamental_div_mod(y as int, a as int);
    vstd::arithmetic::div_mod::lemma_mod_multiples_basic((y as int) / (a as int), a as int);
    assert(((y as int) / (a as int)) * (a as int) == (a as int) * ((y as int) / (a as int))) by (
    nonlinear_arith);
}

/// A multiple of a power of two, moved by a multiple of it with wrapping,
/// stays a multiple.
proof fn lemma_wrapping_add_aligned(b: usize, n: usize, a: usize)
    requires
        is_pow2(a),
        b % a == 0,
        n % a == 0,
    ensures
        (if b + n > usize::MAX { b + n - (usize::MAX + 1) } else { b + n }) % (a as int) == 0,
{
    let k = choose|k: usize| k < usize::BITS && a == (1usize << k);
    vstd::bits::lemma_usize_pow2_no_overflow(k as nat);
    vstd::bits::lemma_usize_shl_is_mul(1, k);
    vstd::layout::unsigned_int_max_values();
    vstd::arithmetic::power2::lemma_pow2_adds(k as nat, (usize::BITS - k) as nat);
    let q = vstd::arithmetic::power2::pow2((usize::BITS - k) as nat) as int;
    let ai = a as int;
    assert(usize::MAX + 1 == ai * q);
    vstd::arithmetic::div_mod::lemma_add_mod_noop(b as int, n as int, ai);
    vstd::arithmetic::div_mod::lemma_small_mod(0, ai as nat);
    assert((b + n) % ai == 0);
    if b + n > usize::MAX {
        vstd::arithmetic::div_mod::lemma_mod_multiples_vanish(-q, b + n, ai);
        assert(ai * (-q) == -(ai * q)) by (nonlinear_arith);
        assert(b + n - (usize::MAX + 1) == ai * (-q) + (b + n));
    }
}

/// Bump allocation in chunks of at least `CHUNK_SIZE` bytes taken from
/// `SuperHeap`, every block aligned to `ALLIGNMENT`.
pub struct BumpAlloc<const CHUNK_SIZE: usize, SuperHeap, const ALLIGNMENT: usize> {
    _bump: usize,
    _remaining: usize,
    alloc: SuperHeap,
}

impl<const CHUNK_SIZE: usize, SuperHeap: RawAllocator, const ALLIGNMENT: usize> BumpAlloc<
    CHUNK_SIZE,
    SuperHeap,
    ALLIGNMENT,
> {
    /// The next address handed out.
    pub closed spec fn bump(&self) -> usize {
        self._bump
    }

    /// Bytes left in the current chunk.
    pub closed spec fn remaining(&self) -> usize {
        self._remaining
    }

    /// The source of chunks.
    pub closed spec fn source(&self) -> SuperHeap {
        self.alloc
    }

    /// The alignment is a power of two that divides the chunk size and the
    /// source's alignment.
    pub open spec fn layout_ok() -> bool {
        &&& is_pow2(ALLIGNMENT)
        &&& CHUNK_SIZE % ALLIGNMENT == 0
        &&& SuperHeap::ALLIGNMENT > 0
        &&& SuperHeap::ALLIGNMENT % ALLIGNMENT == 0
    }

    /// The bump pointer is aligned and the source is consistent.
    pub open spec fn well_formed(&self) -> bool {
        &&& Self::layout_ok()
        &&& self.bump() % ALLIGNMENT == 0
        &&& self.source().well_formed()
    }

    /// No chunk yet: nothing left, the bump pointer at 0.
    pub fn new(alloc: SuperHeap) -> (r: Self)
        ensures
            r.bump() == 0,
            r.remaining() == 0,
            r.source() == alloc,
    {
        Self { _bump: 0, _remaining: 0, alloc }
    }

    /// A block of `sz` bytes, rounded up to the alignment, cut from the
    /// current chunk; when the chunk has too little left, from a new chunk
    /// of the rounded size or `CHUNK_SIZE`, whichever is larger. A size too
    /// large to round gets no block (0).
    pub fn malloc(&mut self, sz: usize) -> (r: usize)
        requires
            old(self).well_formed(),
        ensures
            final(self).well_formed(),
            r % ALLIGNMENT == 0,
            sz + ALLIGNMENT > usize::MAX ==> r == 0 && *final(self) == *old(self),
            sz + ALLIGNMENT <= usize::MAX ==> {
                let ns = round_up(sz as int, ALLIGNMENT as int);
                &&& old(self).remaining() >= ns ==> {
                    &&& r == old(self).bump()
                    &&& final(self).remaining() == old(self).remaining() - ns
                    &&& final(self).source() == old(self).source()
                }
                &&& old(self).remaining() < ns ==> final(self).remaining() == (if ns
                    < CHUNK_SIZE {
                    CHUNK_SIZE as int
                } else {
                    ns
                }) - ns
                &&& old(self).remaining() < ns ==> old(self).source().malloc_outcome(
                    (if ns < CHUNK_SIZE {
                        CHUNK_SIZE as int
                    } else {
                        ns
                    }) as usize,
                    r,
                    &final(self).source(),
                )
                &&& final(self).bump() == (if r + ns > usize::MAX {
                    r + ns - (usize::MAX + 1)
                } else {
                    r + ns
                })
            },
    {
        proof {
            lemma_pow2_mask(ALLIGNMENT, 0);
        }
        if sz > usize::MAX - ALLIGNMENT {
            return 0;
        }
        let y = sz + ALLIGNMENT - 1;
        let new_size = y & !(ALLIGNMENT - 1);
        proof {
            lemma_mask_round_up(sz, ALLIGNMENT, y);
        }
        if self._remaining < new_size {
            self.refill(new_size);
        }
        let old = self._bump;
        self._bump = self._bump.wrapping_add(new_size);
        proof {
            lemma_wrapping_add_aligned(old, new_size, ALLIGNMENT);
        }
        self._remaining = self._remaining - new_size;
        old
    }

    /// Blocks are never reclaimed.
    pub fn free(&self) -> (r: bool)
        ensures
            !r,
    {
        false
    }

    /// Take a new chunk of `sz` bytes, or `CHUNK_SIZE` if that is larger.
    fn refill(&mut self, sz: usize)
        requires
            old(self).well_formed(),
        ensures
            final(self).well_formed(),
            final(self).remaining() == if sz < CHUNK_SIZE {
                CHUNK_SIZE
            } else {
                sz
            },
            old(self).source().malloc_outcome(
                if sz < CHUNK_SIZE {
                    CHUNK_SIZE
                } else {
                    sz
                },
                final(self).bump(),
                &final(self).source(),
            ),
    {
        let sz = if sz < CHUNK_SIZE {
            CHUNK_SIZE
        } else {
            sz
        };
        let chunk = self.alloc.malloc(sz);
        proof {
            lemma_pow2_mask(ALLIGNMENT, 0);
            assert(SuperHeap::ALLIGNMENT / ALLIGNMENT > 0) by (nonlinear_arith)
                requires
                    SuperHeap::ALLIGNMENT % ALLIGNMENT == 0,
                    SuperHeap::ALLIGNMENT > 0,
                    ALLIGNMENT > 0,
            ;
            vstd::arithmetic::div_mod::lemma_mod_mod(
                chunk as int,
                ALLIGNMENT as int,
                (SuperHeap::ALLIGNMENT / ALLIGNMENT) as int,
            );
            lemma_pow2_mask(ALLIGNMENT, 0);
            assert(SuperHeap::ALLIGNMENT == ALLIGNMENT * (SuperHeap::ALLIGNMENT / ALLIGNMENT))
                by (nonlinear_arith)
                requires
                    SuperHeap::ALLIGNMENT % ALLIGNMENT == 0,
                    ALLIGNMENT > 0,
            ;
        }
        self._bump = chunk;
        self._remaining = sz;
    }
}

impl<const CHUNK_SIZE: usize, SuperHeap: RawAllocator, const ALLIGNMENT: usize> RawAllocator for BumpAlloc<
    CHUNK_SIZE,
    SuperHeap,
    ALLIGNMENT,
> {
    const ALLIGNMENT: usize = ALLIGNMENT;

    open spec fn well_formed(&self) -> bool {
        BumpAlloc::<CHUNK_SIZE, SuperHeap, ALLIGNMENT>::well_formed(self)
    }

    /// As the inherent `malloc`: the next block of the current chunk, or of
    /// a new chunk when too little is left; no block for a size too large
    /// to round.
    open spec fn malloc_outcome(&self, n: usize, r: usize, after: &Self) -> bool {
        &&& n + ALLIGNMENT > usize::MAX ==> r == 0 && *after == *self
        &&& n + ALLIGNMENT <= usize::MAX ==> {
            let ns = round_up(n as int, ALLIGNMENT as int);
            &&& self.remaining() >= ns ==> {
                &&& r == self.bump()
                &&& after.remaining() == self.remaining() - ns
                &&& after.source() == self.source()
            }
            &&& self.remaining() < ns ==> after.remaining() == (if ns < CHUNK_SIZE {
                CHUNK_SIZE as int
            } else {
                ns
            }) - ns
            &&& self.remaining() < ns ==> self.source().malloc_outcome(
                (if ns < CHUNK_SIZE {
                    CHUNK_SIZE as int
                } else {
                    ns
                }) as usize,
                r,
                &after.source(),
            )
            &&& after.bump() == (if r + ns > usize::MAX {
                r + ns - (usize::MAX + 1)
            } else {
                r + ns
            })
        }
    }

    /// Nothing is reclaimed.
    open spec fn free_outcome(&self, ptr: usize, sz: usize, after: &Self) -> bool {
        *after == *self
    }

    /// No aligned block is offered.
    open spec fn memalign_outcome(&self, alignment: usize, sz: usize, r: usize, after: &Self) -> bool {
        r == 0 && *after == *self
    }

    /// Sizes are not recorded.
    open spec fn get_size_outcome(&self, ptr: usize, r: usize, after: &Self) -> bool {
        r == 0 && *after == *self
    }

    /// The next block of the current chunk, as the inherent `malloc`.
    fn malloc(&mut self, n: usize) -> (r: usize)
        ensures
            n + ALLIGNMENT > usize::MAX ==> r == 0,
            n + ALLIGNMENT <= usize::MAX && old(self).remaining() >= round_up(
                n as int,
                ALLIGNMENT as int,
            ) ==> r == old(self).bump(),
    {
        BumpAlloc::<CHUNK_SIZE, SuperHeap, ALLIGNMENT>::malloc(self, n)
    }

    /// Nothing is reclaimed.
    fn free(&mut self, _ptr: usize, _sz: usize)
        ensures
            *final(self) == *old(self),
    {
        let _ = BumpAlloc::<CHUNK_SIZE, SuperHeap, ALLIGNMENT>::free(self);
    }

    /// No aligned block is offered: always 0.
    fn memalign(&mut self, _alignment: usize, _sz: usize) -> (r: usize)
        ensures
            r == 0,
    {
        0
    }

    /// Sizes are not recorded: always 0.
    fn get_size(&mut self, _ptr: usize) -> (r: usize)
        ensures
            r == 0,
    {
        0
    }
}

impl<const CHUNK_SIZE: usize, SuperHeap: RawAllocator, const ALLIGNMENT: usize> FlexableAllocator for BumpAlloc<
    CHUNK_SIZE,
    SuperHeap,
    ALLIGNMENT,
> {

}

} // verus!
