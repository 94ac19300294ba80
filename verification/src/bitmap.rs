//! Bitmaps of object slots: one bit per slot, packed into 64-bit words.
//!
//! Slot `i` lives in word `i / 64` at bit `i % 64`. Three word stores are
//! offered (`AtomicBitmap`, `RelaxedFixedBitmapBase`, `RelaxedBitmapBase`);
//! `Bitmap` builds the slot-level operations on top of any of them.
use vstd::prelude::*;

verus! {

// ---------------------------------------------------------------------
// Mathematical model of words and bits
// ---------------------------------------------------------------------

/// Bit `p` of the word `w` (the bit of weight `2^p`).
pub open spec fn word_bit(w: u64, p: u64) -> bool {
    (w >> p) & 1u64 == 1u64
}

/// Slot `i` of a bitmap whose words are `words`.
pub open spec fn bit_at(words: Seq<u64>, i: int) -> bool {
    word_bit(words[i / 64], (i % 64) as u64)
}

/// The number of set bits among the `n` lowest bits of `w`.
pub open spec fn ones_below(w: u64, n: nat) -> nat
    decreases n,
{
    if n == 0 {
        0
    } else {
        ones_below(w, (n - 1) as nat) + if word_bit(w, (n - 1) as u64) {
            1nat
        } else {
            0nat
        }
    }
}

/// The number of set bits of `w`.
pub open spec fn popcount(w: u64) -> nat {
    ones_below(w, 64)
}

/// The number of set slots of a bitmap whose words are `words`.
pub open spec fn count_set(words: Seq<u64>) -> nat
    decreases words.len(),
{
    if words.len() == 0 {
        0
    } else {
        count_set(words.drop_last()) + popcount(words.last())
    }
}

/// `r` is the index of the lowest set bit of `w`, or 64 when `w` is zero.
pub open spec fn is_trailing_zeros(w: u64, r: int) -> bool {
    &&& 0 <= r <= 64
    &&& (r == 64 <==> w == 0)
    &&& r < 64 ==> word_bit(w, r as u64)
    &&& forall|j: u64| j < r ==> !#[trigger] word_bit(w, j)
}

/// `r` is the number of leading zeros of `w`: the highest set bit of a
/// nonzero `w` is bit `63 - r`.
pub open spec fn is_leading_zeros(w: u64, r: int) -> bool {
    &&& 0 <= r <= 64
    &&& (r == 64 <==> w == 0)
    &&& r < 64 ==> word_bit(w, (63 - r) as u64)
    &&& forall|j: u64| 63 - r < j < 64 ==> !#[trigger] word_bit(w, j)
}

/// The words after slot `i` is set.
pub open spec fn with_bit_set(words: Seq<u64>, i: int) -> Seq<u64> {
    words.update(i / 64, words[i / 64] | (1u64 << ((i % 64) as u64)))
}

/// The words after slot `i` is cleared.
pub open spec fn with_bit_cleared(words: Seq<u64>, i: int) -> Seq<u64> {
    words.update(i / 64, words[i / 64] & !(1u64 << ((i % 64) as u64)))
}

/// `n` words with every bit set.
pub open spec fn full_words(n: nat) -> Seq<u64> {
    Seq::new(n, |_i: int| u64::MAX)
}

/// Some slot at or after `start` is free.
pub open spec fn has_free_from(words: Seq<u64>, start: int) -> bool {
    exists|j: int| start <= j < words.len() * 64 && !#[trigger] bit_at(words, j)
}

/// `k` is the lowest free slot at or after `start`.
pub open spec fn is_first_free_from(words: Seq<u64>, start: int, k: int) -> bool {
    &&& start <= k < words.len() * 64
    &&& !bit_at(words, k)
    &&& forall|j: int| start <= j < k ==> #[trigger] bit_at(words, j)
}

/// `r` is the lowest set slot at or after `start`, or the slot count when
/// no slot at or after `start` is set.
pub open spec fn is_lowest_set_from(words: Seq<u64>, start: int, r: int) -> bool {
    &&& start <= r <= words.len() * 64
    &&& r < words.len() * 64 ==> bit_at(words, r)
    &&& forall|j: int| start <= j < r ==> !#[trigger] bit_at(words, j)
}

/// `r` is the highest set slot at or before `start`, or 0 when none is set.
pub open spec fn is_highest_set_upto(words: Seq<u64>, start: int, r: int) -> bool {
    &&& 0 <= r <= start
    &&& bit_at(words, r) || r == 0
    &&& forall|j: int| r < j <= start ==> !#[trigger] bit_at(words, j)
}

// ---------------------------------------------------------------------
// Facts about single words
// ---------------------------------------------------------------------

pub proof fn lemma_bit_or(w: u64, p: u64, q: u64)
    by (bit_vector)
    requires
        p < 64,
        q < 64,
    ensures
        word_bit(w | (1u64 << p), q) == (q == p || word_bit(w, q)),
{
}

pub proof fn lemma_bit_and_not(w: u64, p: u64, q: u64)
    by (bit_vector)
    requires
        p < 64,
        q < 64,
    ensures
        word_bit(w & !(1u64 << p), q) == (q != p && word_bit(w, q)),
{
}

pub proof fn lemma_bit_mask_test(w: u64, p: u64)
    by (bit_vector)
    requires
        p < 64,
    ensures
        ((w & (1u64 << p)) > 0) == word_bit(w, p),
        ((w & (1u64 << p)) != 0) == word_bit(w, p),
{
}

pub proof fn lemma_bit_full_empty(q: u64)
    by (bit_vector)
    requires
        q < 64,
    ensures
        word_bit(u64::MAX, q),
        !word_bit(0u64, q),
{
}

pub proof fn lemma_bit_not(w: u64, q: u64)
    by (bit_vector)
    requires
        q < 64,
    ensures
        word_bit(!w, q) == !word_bit(w, q),
{
}

pub proof fn lemma_bit_free_at_or_above(w: u64, pos: u64, q: u64)
    by (bit_vector)
    requires
        pos < 64,
        q < 64,
    ensures
        word_bit(!w & !(((1u64 << pos) - 1u64) as u64), q) == (q >= pos && !word_bit(w, q)),
{
}

pub proof fn lemma_bit_set_at_or_above(w: u64, pos: u64, q: u64)
    by (bit_vector)
    requires
        pos < 64,
        q < 64,
    ensures
        word_bit(w & !(((1u64 << pos) - 1u64) as u64), q) == (q >= pos && word_bit(w, q)),
{
}

pub proof fn lemma_bit_set_at_or_below(w: u64, pos: u64, q: u64)
    by (bit_vector)
    requires
        pos < 63,
        q < 64,
    ensures
        word_bit(w & (((1u64 << ((pos + 1) as u64)) - 1u64) as u64), q) == (q <= pos && word_bit(w, q)),
{
}

pub proof fn lemma_shl_ge_one(p: u64)
    by (bit_vector)
    requires
        p < 64,
    ensures
        (1u64 << p) >= 1u64,
{
}

pub proof fn lemma_bit_and_full(w: u64, q: u64)
    by (bit_vector)
    requires
        q < 64,
    ensures
        word_bit(w & u64::MAX, q) == word_bit(w, q),
        w & u64::MAX == w,
{
}

/// Slot `i` of `words` names bit `i % 64` of word `i / 64`.
pub proof fn lemma_slot_split(i: int)
    requires
        0 <= i,
    ensures
        i == 64 * (i / 64) + i % 64,
        0 <= i % 64 < 64,
{
}

// ---------------------------------------------------------------------
// Word-level helpers
// ---------------------------------------------------------------------

/// Number of bytes in a bitmap word.
pub fn word_bytes() -> (r: usize)
    ensures
        r == 8,
{
    proof {
        broadcast use vstd::layout::layout_of_primitives;
    }
    core::mem::size_of::<u64>()
}

/// Number of bits in a bitmap word.
pub fn word_bits() -> (r: usize)
    ensures
        r == 64,
{
    word_bytes() * 8
}

/// Index of the lowest set bit of `v` (64 for zero).
pub fn ffsll(v: u64) -> (r: u32)
    ensures
        is_trailing_zeros(v, r as int),
{
    let r = v.trailing_zeros();
    proof {
        vstd::std_specs::bits::axiom_u64_trailing_zeros(v);
    }
    r
}

/// Number of leading zero bits of `v` (64 for zero).
pub fn leading_zeros(v: u64) -> (r: u32)
    ensures
        is_leading_zeros(v, r as int),
{
    let r = v.leading_zeros();
    proof {
        vstd::std_specs::bits::axiom_u64_leading_zeros(v);
        if r < 64 {
            let s: u64 = (63 - r) as u64;
            assert((v >> s) & 1u64 != 0u64);
            assert(((v >> s) & 1u64 != 0u64) ==> ((v >> s) & 1u64 == 1u64)) by (bit_vector);
        }
        assert forall|j: u64| 63 - r < j < 64 implies !#[trigger] word_bit(v, j) by {
            assert(64 - vstd::std_specs::bits::u64_leading_zeros(v) <= j);
        }
    }
    r
}

/// `std`'s `u64::count_ones`: the number of ones in the binary
/// representation of `v`.
#[verifier::external_body]
fn count_ones(v: u64) -> (r: u32)
    ensures
        r == popcount(v),
{
    v.count_ones()
}

/// The base-2 logarithm of `v`, rounded down (0 for 0 and 1).
pub open spec fn static_log_spec(v: nat) -> nat
    decreases v,
{
    if v == 1 {
        0
    } else if v == 2 {
        1
    } else if v > 1 {
        static_log_spec(v / 2) + 1
    } else {
        0
    }
}

pub proof fn lemma_static_log_bound(v: nat)
    ensures
        static_log_spec(v) <= v,
    decreases v,
{
    if v > 2 {
        lemma_static_log_bound(v / 2);
    }
}

/// The base-2 logarithm of `v`, rounded down (0 for 0 and 1).
pub fn static_log(v: usize) -> (r: usize)
    ensures
        r == static_log_spec(v as nat),
    decreases v,
{
    if v == 1 {
        0
    } else if v == 2 {
        1
    } else if v > 1 {
        proof {
            lemma_static_log_bound((v / 2) as nat);
        }
        static_log(v / 2) + 1
    } else {
        0
    }
}

/// log2 of the number of bits in a word.
pub fn word_bit_shift() -> (r: usize)
    ensures
        r == 6,
{
    let bits = word_bits();
    proof {
        reveal_with_fuel(static_log_spec, 7);
    }
    static_log(bits)
}

/// Bytes needed to hold `bit_ct` bits in whole words.
pub fn rep_size(bit_ct: usize) -> (r: usize)
    requires
        bit_ct + 64 <= usize::MAX,
    ensures
        r == 8 * ((bit_ct + 63) / 64),
{
    let wb = word_bits();
    let words = (bit_ct + wb - 1) / wb;
    assert(wb * words <= bit_ct + 63) by (nonlinear_arith)
        requires
            wb == 64,
            words == (bit_ct + 63) / 64,
    ;
    wb * words / 8
}

/// Number of words in `byte_ct` bytes.
pub fn word_count(byte_ct: usize) -> (r: usize)
    ensures
        r == byte_ct / 8,
{
    byte_ct / word_bytes()
}

/// Mask selecting bit `pos` of a word.
pub fn get_mask(pos: usize) -> (r: u64)
    requires
        pos < 64,
    ensures
        r == 1u64 << (pos as u64),
{
    1u64 << (pos as u64)
}

/// Number of words needed to hold `bits` bits.
pub fn chunks_for(bits: usize) -> (r: usize)
    requires
        bits + 64 <= usize::MAX,
    ensures
        r == (bits + 63) / 64,
{
    rep_size(bits) / word_bytes()
}

/// Where slot `index` lives: its word and its bit within the word.
#[derive(Debug, Clone, Copy, PartialEq, Eq, Structural)]
pub struct ItemPosition {
    pub item: usize,
    pub pos: usize,
}

/// Compute the position of a slot in a bitmap: the index of its word and
/// the bit within that word.
pub fn compute_item_position(index: usize) -> (r: ItemPosition)
    ensures
        r.item == index / 64,
        r.pos == index % 64,
{
    let shift = word_bit_shift();
    let item = index >> shift;
    let pos = index & (word_bits() - 1);
    assert(index >> 6usize == index / 64) by (bit_vector);
    assert(index & 63usize == index % 64) by (bit_vector);
    ItemPosition { item, pos }
}

/// Why a single-slot update did not take effect as asked.
#[derive(Debug, Clone, Copy, PartialEq, Eq, Structural)]
pub enum Error {
    /// The slot at (word, bit) was already clear.
    UnsetFailed(usize, usize),
    /// The slot at (word, bit) was already set.
    SetFailed(usize, usize),
}


// ---------------------------------------------------------------------
// Counting set bits
// ---------------------------------------------------------------------

pub proof fn lemma_ones_below_bound(w: u64, n: nat)
    ensures
        ones_below(w, n) <= n,
    decreases n,
{
    if n > 0 {
        lemma_ones_below_bound(w, (n - 1) as nat);
    }
}

pub proof fn lemma_ones_below_const(n: nat)
    requires
        n <= 64,
    ensures
        ones_below(u64::MAX, n) == n,
        ones_below(0u64, n) == 0,
    decreases n,
{
    if n > 0 {
        lemma_ones_below_const((n - 1) as nat);
        lemma_bit_full_empty((n - 1) as u64);
    }
}

pub proof fn lemma_ones_below_set(w: u64, p: u64, n: nat)
    requires
        p < 64,
        n <= 64,
        !word_bit(w, p),
    ensures
        ones_below(w | (1u64 << p), n) == ones_below(w, n) + if p < n {
            1nat
        } else {
            0nat
        },
    decreases n,
{
    if n > 0 {
        lemma_ones_below_set(w, p, (n - 1) as nat);
        lemma_bit_or(w, p, (n - 1) as u64);
    }
}

pub proof fn lemma_ones_below_clear(w: u64, p: u64, n: nat)
    requires
        p < 64,
        n <= 64,
        word_bit(w, p),
    ensures
        ones_below(w & !(1u64 << p), n) + (if p < n {
            1nat
        } else {
            0nat
        }) == ones_below(w, n),
    decreases n,
{
    if n > 0 {
        lemma_ones_below_clear(w, p, (n - 1) as nat);
        lemma_bit_and_not(w, p, (n - 1) as u64);
    }
}

pub proof fn lemma_ones_below_not(w: u64, n: nat)
    requires
        n <= 64,
    ensures
        ones_below(!w, n) + ones_below(w, n) == n,
    decreases n,
{
    if n > 0 {
        lemma_ones_below_not(w, (n - 1) as nat);
        lemma_bit_not(w, (n - 1) as u64);
    }
}

pub proof fn lemma_count_set_bound(words: Seq<u64>)
    ensures
        count_set(words) <= 64 * words.len(),
    decreases words.len(),
{
    if words.len() > 0 {
        lemma_count_set_bound(words.drop_last());
        lemma_ones_below_bound(words.last(), 64);
    }
}

pub proof fn lemma_count_set_take(words: Seq<u64>, i: int)
    requires
        0 <= i < words.len(),
    ensures
        count_set(words.take(i + 1)) == count_set(words.take(i)) + popcount(words[i]),
{
    assert(words.take(i + 1).drop_last() =~= words.take(i));
}

pub proof fn lemma_count_set_update(words: Seq<u64>, k: int, w: u64)
    requires
        0 <= k < words.len(),
    ensures
        count_set(words.update(k, w)) + popcount(words[k]) == count_set(words) + popcount(w),
    decreases words.len(),
{
    let u = words.update(k, w);
    if k == words.len() - 1 {
        assert(u.drop_last() =~= words.drop_last());
    } else {
        assert(u.drop_last() =~= words.drop_last().update(k, w));
        lemma_count_set_update(words.drop_last(), k, w);
    }
}

pub proof fn lemma_count_set_const(words: Seq<u64>, v: u64)
    requires
        v == 0 || v == u64::MAX,
        forall|i: int| 0 <= i < words.len() ==> words[i] == v,
    ensures
        count_set(words) == if v == 0 {
            0
        } else {
            64 * words.len()
        },
    decreases words.len(),
{
    if words.len() > 0 {
        lemma_count_set_const(words.drop_last(), v);
        lemma_ones_below_const(64);
    }
}

// ---------------------------------------------------------------------
// Word stores
// ---------------------------------------------------------------------

/// Words small enough that every slot index fits in a `usize`.
pub open spec fn words_fit(n: nat) -> bool {
    (n + 1) * 64 <= usize::MAX
}

/// Word `i` after `set_all(bit_ct)`: the `bit_ct` lowest slots are set
/// and every other slot is clear.
pub open spec fn low_fill_word(bit_ct: int, i: int) -> u64 {
    if bit_ct >= 64 * (i + 1) {
        u64::MAX
    } else if bit_ct > 64 * i {
        ((1u64 << ((bit_ct - 64 * i) as u64)) - 1u64) as u64
    } else {
        0u64
    }
}

/// The words after `set_all(bit_ct)`: exactly the `bit_ct` lowest slots
/// set.
pub open spec fn low_filled(words: Seq<u64>, bit_ct: int) -> Seq<u64> {
    Seq::new(words.len(), |i: int| low_fill_word(bit_ct, i))
}

/// `set_all(bit_ct)` takes a count of slots up to the number of slots.
pub open spec fn low_fill_ok(len: nat, bit_ct: int) -> bool {
    0 <= bit_ct <= len * 64
}

/// The words with every bit flipped.
pub open spec fn inverted(words: Seq<u64>) -> Seq<u64> {
    Seq::new(words.len(), |i: int| !words[i])
}

/// The caller's buffer after an exchange: its first `n` words replaced by
/// `prev`.
pub open spec fn exchanged_out(buf: Seq<u64>, prev: Seq<u64>) -> Seq<u64> {
    prev + buf.skip(prev.len() as int)
}

fn vec_set_at(v: &mut Vec<u64>, item: usize, pos: usize) -> (was_set: bool)
    requires
        item < old(v)@.len(),
        pos < 64,
    ensures
        final(v)@ == old(v)@.update(item as int, old(v)@[item as int] | (1u64 << (pos as u64))),
        was_set == word_bit(old(v)@[item as int], pos as u64),
{
    let mask = get_mask(pos);
    let old_value = v[item];
    v[item] = old_value | mask;
    proof {
        lemma_bit_mask_test(old_value, pos as u64);
    }
    (old_value & mask) != 0
}

fn vec_unset_at(v: &mut Vec<u64>, item: usize, pos: usize) -> (was_set: bool)
    requires
        item < old(v)@.len(),
        pos < 64,
    ensures
        final(v)@ == old(v)@.update(item as int, old(v)@[item as int] & !(1u64 << (pos as u64))),
        was_set == word_bit(old(v)@[item as int], pos as u64),
{
    let mask = get_mask(pos);
    let old_value = v[item];
    v[item] = old_value & !mask;
    proof {
        lemma_bit_mask_test(old_value, pos as u64);
    }
    (old_value & mask) != 0
}

fn vec_fill(v: &mut Vec<u64>, val: u64)
    ensures
        final(v)@ == Seq::new(old(v)@.len(), |_i: int| val),
{
    let n = v.len();
    let mut i: usize = 0;
    while i < n
        invariant
            n == v@.len(),
            n == old(v)@.len(),
            i <= n,
            forall|j: int| 0 <= j < i ==> v@[j] == val,
        decreases n - i,
    {
        v[i] = val;
        i = i + 1;
    }
    assert(v@ =~= Seq::new(old(v)@.len(), |_i: int| val));
}

fn vec_invert(v: &mut Vec<u64>)
    ensures
        final(v)@ == inverted(old(v)@),
{
    let n = v.len();
    let mut i: usize = 0;
    while i < n
        invariant
            n == v@.len(),
            n == old(v)@.len(),
            i <= n,
            forall|j: int| 0 <= j < i ==> v@[j] == !old(v)@[j],
            forall|j: int| i <= j < n ==> v@[j] == old(v)@[j],
        decreases n - i,
    {
        let w = v[i];
        v[i] = !w;
        i = i + 1;
    }
    assert(v@ =~= inverted(old(v)@));
}

fn vec_low_fill(v: &mut Vec<u64>, bit_ct: usize)
    requires
        low_fill_ok(old(v)@.len(), bit_ct as int),
    ensures
        final(v)@ == low_filled(old(v)@, bit_ct as int),
{
    let mut remaining = bit_ct;
    let n = v.len();
    let mut i: usize = 0;
    while i < n
        invariant
            low_fill_ok(old(v)@.len(), bit_ct as int),
            n == old(v)@.len(),
            v@.len() == n,
            i <= n,
            remaining == if bit_ct > 64 * i { bit_ct - 64 * i } else { 0 },
            forall|j: int| 0 <= j < i ==> v@[j] == low_fill_word(bit_ct as int, j),
        decreases n - i,
    {
        if remaining >= 64 {
            v.set(i, u64::MAX);
            remaining = remaining - 64;
        } else {
            let r64 = remaining as u64;
            assert(r64 < 64 ==> (1u64 << r64) >= 1u64) by (bit_vector);
            assert((1u64 << 0u64) - 1u64 == 0u64) by (bit_vector);
            v.set(i, (1u64 << r64) - 1);
            remaining = 0;
        }
        i = i + 1;
    }
    assert(v@ =~= low_filled(old(v)@, bit_ct as int));
}

fn vec_count(v: &Vec<u64>) -> (r: usize)
    requires
        words_fit(v@.len()),
    ensures
        r == count_set(v@),
{
    let n = v.len();
    let mut sum: usize = 0;
    let mut i: usize = 0;
    while i < n
        invariant
            n == v@.len(),
            words_fit(v@.len()),
            i <= n,
            sum == count_set(v@.take(i as int)),
        decreases n - i,
    {
        proof {
            lemma_count_set_take(v@, i as int);
            lemma_count_set_bound(v@.take(i as int + 1));
        }
        let c = count_ones(v[i]);
        sum = sum + c as usize;
        i = i + 1;
    }
    assert(v@.take(n as int) =~= v@);
    sum
}

fn vec_exchange(v: &mut Vec<u64>, old_bits: &mut [u64], new_bits: &[u64])
    requires
        old(old_bits)@.len() >= old(v)@.len(),
        new_bits@.len() >= old(v)@.len(),
    ensures
        final(v)@ == new_bits@.take(old(v)@.len() as int),
        final(old_bits)@ == exchanged_out(old(old_bits)@, old(v)@),
{
    let n = v.len();
    let mut i: usize = 0;
    while i < n
        invariant
            n == v@.len(),
            n == old(v)@.len(),
            i <= n,
            old_bits@.len() == old(old_bits)@.len(),
            old(old_bits)@.len() >= n,
            new_bits@.len() >= n,
            forall|j: int| 0 <= j < i ==> v@[j] == new_bits@[j],
            forall|j: int| i <= j < n ==> v@[j] == old(v)@[j],
            forall|j: int| 0 <= j < i ==> old_bits@[j] == old(v)@[j],
            forall|j: int| i <= j < old_bits@.len() ==> old_bits@[j] == old(old_bits)@[j],
        decreases n - i,
    {
        let prev = v[i];
        v[i] = new_bits[i];
        old_bits[i] = prev;
        i = i + 1;
    }
    assert(v@ =~= new_bits@.take(old(v)@.len() as int));
    assert(old_bits@ =~= exchanged_out(old(old_bits)@, old(v)@));
}


// ---------------------------------------------------------------------
// The word-store interfaces
// ---------------------------------------------------------------------

/// Slot operations answered with a flag (kept for stores that report a
/// `bool` rather than an `Error`).
pub trait BitmapBase {
    fn invert(&mut self);

    fn set_all(&mut self, bit_ct: usize);

    fn set_at(&mut self, item: usize, pos: usize) -> bool;

    fn unset_at(&mut self, item: usize, pos: usize) -> bool;

    fn in_use_ct(&self) -> u32;
}

/// Slot-level operations over a `BitmapBase`.
pub trait MapBits: BitmapBase {
    fn byte_ct(&self) -> usize;

    fn bit_ct(&self) -> usize;

    /// What claiming the first empty slot at or after `start` may give: the
    /// slot `r` and the store `after`, as the implementing store defines it.
    spec fn first_empty_claimed(&self, start: usize, r: usize, after: &Self) -> bool;

    /// Claim the first empty slot at or after `starting_at`.
    fn set_first_empty_with(&mut self, starting_at: usize) -> (r: usize)
        ensures
            old(self).first_empty_claimed(starting_at, r, final(self)),
    ;

    /// Claim the first empty slot, searching from slot 0.
    fn set_first_empty(&mut self) -> (r: usize)
        ensures
            old(self).first_empty_claimed(0, r, final(self)),
    {
        self.set_first_empty_with(0)
    }
}

/// A store of bitmap words.
pub trait BaseBitmapper: Sized {
    /// The words held by the store.
    spec fn words(&self) -> Seq<u64>;

    /// The store's invariant.
    spec fn well_formed(&self) -> bool;

    /// Whether `set_and_exchange_all` swaps words with the caller's buffers
    /// (only the atomic store does).
    spec fn exchanges() -> bool;

    proof fn lemma_words_fit(&self)
        requires
            self.well_formed(),
        ensures
            words_fit(self.words().len()),
    ;

    /// Clear every slot.
    fn clear(&mut self)
        requires
            old(self).well_formed(),
        ensures
            final(self).well_formed(),
            final(self).words().len() <= old(self).words().len(),
            forall|i: int| 0 <= i < final(self).words().len() ==> final(self).words()[i] == 0,
    ;

    /// Number of slots.
    fn bit_ct(&self) -> (r: usize)
        requires
            self.well_formed(),
        ensures
            r == self.words().len() * 64,
    ;

    /// Set bit `offset` of word `item`; an error when it was already set.
    fn set_at(&mut self, item: usize, offset: usize) -> (r: Result<(), Error>)
        requires
            old(self).well_formed(),
            item < old(self).words().len(),
            offset < 64,
        ensures
            final(self).well_formed(),
            final(self).words() == old(self).words().update(
                item as int,
                old(self).words()[item as int] | (1u64 << (offset as u64)),
            ),
            r == if word_bit(old(self).words()[item as int], offset as u64) {
                Err(Error::SetFailed(item, offset))
            } else {
                Ok(())
            },
    ;

    /// Set every slot.
    fn set_all(&mut self) -> (r: Result<(), Error>)
        requires
            old(self).well_formed(),
        ensures
            final(self).well_formed(),
            final(self).words() == full_words(old(self).words().len()),
            r == Ok::<(), Error>(()),
    ;

    /// Clear bit `offset` of word `item`; an error when it was already clear.
    fn unset_at(&mut self, item: usize, offset: usize) -> (r: Result<(), Error>)
        requires
            old(self).well_formed(),
            item < old(self).words().len(),
            offset < 64,
        ensures
            final(self).well_formed(),
            final(self).words() == old(self).words().update(
                item as int,
                old(self).words()[item as int] & !(1u64 << (offset as u64)),
            ),
            r is Ok <==> word_bit(old(self).words()[item as int], offset as u64),
    ;

    /// The words, read-only.
    fn bits(&self) -> (r: &[u64])
        ensures
            r@ == self.words(),
    ;

    /// The words, writable.
    fn bits_mut(&mut self) -> (r: &mut [u64])
        ensures
            r@ == old(self).words(),
            final(self).words() == final(r)@,
    ;

    /// Word `idx`.
    fn bits_at_index(&self, idx: usize) -> (r: u64)
        requires
            idx < self.words().len(),
        ensures
            r == self.words()[idx as int],
    ;

    /// Put `new` into the store and the previous words into `old`.
    fn set_and_exchange_all(&mut self, old_bits: &mut [u64], new_bits: &[u64])
        requires
            old(self).well_formed(),
            Self::exchanges() ==> old(old_bits)@.len() >= old(self).words().len(),
            Self::exchanges() ==> new_bits@.len() >= old(self).words().len(),
        ensures
            final(self).well_formed(),
            Self::exchanges() ==> final(self).words() == new_bits@.take(
                old(self).words().len() as int,
            ),
            Self::exchanges() ==> final(old_bits)@ == exchanged_out(
                old(old_bits)@,
                old(self).words(),
            ),
            !Self::exchanges() ==> final(self).words() == old(self).words(),
            !Self::exchanges() ==> final(old_bits)@ == old(old_bits)@,
    ;

    /// Number of set slots.
    fn in_use_ct(&self) -> (r: usize)
        requires
            self.well_formed(),
        ensures
            r == count_set(self.words()),
    ;
}

// ---------------------------------------------------------------------
// Atomic word store
// ---------------------------------------------------------------------

/// A fixed number of words, updated in place with exclusive access.
#[derive(Debug)]
pub struct AtomicBitmap<const SIZE: usize>(Vec<u64>);

impl<const SIZE: usize> AtomicBitmap<SIZE> {
    /// A store of `SIZE` cleared words.
    pub fn new() -> (r: Self)
        requires
            words_fit(SIZE as nat),
        ensures
            r.well_formed(),
            r.words() == Seq::new(SIZE as nat, |_i: int| 0u64),
    {
        let inner = vec![0u64; SIZE];
        AtomicBitmap(inner)
    }
}

impl<const SIZE: usize> BaseBitmapper for AtomicBitmap<SIZE> {
    closed spec fn words(&self) -> Seq<u64> {
        self.0@
    }

    closed spec fn well_formed(&self) -> bool {
        self.0@.len() == SIZE && words_fit(SIZE as nat)
    }

    open spec fn exchanges() -> bool {
        true
    }

    proof fn lemma_words_fit(&self) {
    }

    fn clear(&mut self)
        ensures
            final(self).words() == Seq::new(old(self).words().len(), |_i: int| 0u64),
    {
        vec_fill(&mut self.0, 0);
    }

    fn bit_ct(&self) -> (r: usize) {
        SIZE * word_bits()
    }

    fn set_at(&mut self, item: usize, offset: usize) -> (r: Result<(), Error>) {
        if vec_set_at(&mut self.0, item, offset) {
            return Err(Error::SetFailed(item, offset));
        }
        Ok(())
    }

    fn set_all(&mut self) -> (r: Result<(), Error>) {
        vec_fill(&mut self.0, u64::MAX);
        Ok(())
    }

    fn unset_at(&mut self, item: usize, offset: usize) -> (r: Result<(), Error>)
        ensures
            r == if word_bit(old(self).words()[item as int], offset as u64) {
                Ok::<(), Error>(())
            } else {
                Err(Error::UnsetFailed(item, offset))
            },
    {
        if !vec_unset_at(&mut self.0, item, offset) {
            return Err(Error::UnsetFailed(item, offset));
        }
        Ok(())
    }

    fn bits(&self) -> (r: &[u64]) {
        self.0.as_slice()
    }

    fn bits_mut(&mut self) -> (r: &mut [u64]) {
        self.0.as_mut_slice()
    }

    fn bits_at_index(&self, idx: usize) -> (r: u64) {
        self.0[idx]
    }

    fn set_and_exchange_all(&mut self, old_bits: &mut [u64], new_bits: &[u64]) {
        vec_exchange(&mut self.0, old_bits, new_bits);
    }

    fn in_use_ct(&self) -> (r: usize) {
        vec_count(&self.0)
    }
}


// ---------------------------------------------------------------------
// Plain fixed-size word store
// ---------------------------------------------------------------------

/// A fixed number of words owned by one thread.
#[derive(Debug)]
pub struct RelaxedFixedBitmapBase<const SIZE: usize>(Vec<u64>);

impl<const SIZE: usize> RelaxedFixedBitmapBase<SIZE> {
    /// A store of `SIZE` cleared words.
    pub fn new() -> (r: Self)
        requires
            words_fit(SIZE as nat),
        ensures
            r.well_formed(),
            r.words() == Seq::new(SIZE as nat, |_i: int| 0u64),
    {
        RelaxedFixedBitmapBase(vec![0u64; SIZE])
    }

    /// Flip every slot.
    pub fn invert(&mut self)
        requires
            old(self).well_formed(),
        ensures
            final(self).well_formed(),
            final(self).words() == inverted(old(self).words()),
    {
        vec_invert(&mut self.0);
    }

    /// Set exactly the `bit_ct` lowest slots, up to every slot, and clear
    /// the rest.
    pub fn set_all(&mut self, bit_ct: usize)
        requires
            old(self).well_formed(),
            low_fill_ok(old(self).words().len(), bit_ct as int),
        ensures
            final(self).well_formed(),
            final(self).words() == low_filled(old(self).words(), bit_ct as int),
    {
        vec_low_fill(&mut self.0, bit_ct);
    }

    /// Number of set slots, as a `u32`.
    pub fn in_use_ct(&self) -> (r: u32)
        requires
            self.well_formed(),
            count_set(self.words()) <= u32::MAX,
        ensures
            r == count_set(self.words()),
    {
        vec_count(&self.0) as u32
    }
}

impl<const SIZE: usize> BaseBitmapper for RelaxedFixedBitmapBase<SIZE> {
    closed spec fn words(&self) -> Seq<u64> {
        self.0@
    }

    closed spec fn well_formed(&self) -> bool {
        self.0@.len() == SIZE && words_fit(SIZE as nat)
    }

    open spec fn exchanges() -> bool {
        false
    }

    proof fn lemma_words_fit(&self) {
    }

    fn clear(&mut self)
        ensures
            final(self).words() == Seq::new(old(self).words().len(), |_i: int| 0u64),
    {
        vec_fill(&mut self.0, 0);
    }

    fn bit_ct(&self) -> (r: usize) {
        SIZE * word_bits()
    }

    fn set_at(&mut self, item: usize, offset: usize) -> (r: Result<(), Error>) {
        if vec_set_at(&mut self.0, item, offset) {
            return Err(Error::SetFailed(item, offset));
        }
        Ok(())
    }

    fn set_all(&mut self) -> (r: Result<(), Error>) {
        vec_fill(&mut self.0, u64::MAX);
        Ok(())
    }

    fn unset_at(&mut self, item: usize, offset: usize) -> (r: Result<(), Error>)
        ensures
            r == if word_bit(old(self).words()[item as int], offset as u64) {
                Ok::<(), Error>(())
            } else {
                Err(Error::UnsetFailed(item, offset))
            },
    {
        if !vec_unset_at(&mut self.0, item, offset) {
            return Err(Error::UnsetFailed(item, offset));
        }
        Ok(())
    }

    fn bits(&self) -> (r: &[u64]) {
        self.0.as_slice()
    }

    fn set_and_exchange_all(&mut self, _old_bits: &mut [u64], _new_bits: &[u64]) {
    }

    fn bits_at_index(&self, idx: usize) -> (r: u64) {
        self.0[idx]
    }

    fn bits_mut(&mut self) -> (r: &mut [u64]) {
        self.0.as_mut_slice()
    }

    fn in_use_ct(&self) -> (r: usize) {
        vec_count(&self.0)
    }
}

// ---------------------------------------------------------------------
// Growable word store
// ---------------------------------------------------------------------

/// A store whose number of words is chosen at construction.
#[derive(Debug)]
pub struct RelaxedBitmapBase(Vec<u64>);

impl RelaxedBitmapBase {
    /// A store holding at least `size` cleared slots.
    pub fn new(size: usize) -> (r: Self)
        requires
            size + 128 <= usize::MAX,
        ensures
            r.well_formed(),
            r.words() == Seq::new(((size + 63) / 64) as nat, |_i: int| 0u64),
    {
        let n = rep_size(size) / word_bytes();
        RelaxedBitmapBase(vec![0u64; n])
    }

    /// Flip every slot.
    pub fn invert(&mut self)
        requires
            old(self).well_formed(),
        ensures
            final(self).well_formed(),
            final(self).words() == inverted(old(self).words()),
    {
        vec_invert(&mut self.0);
    }

    /// Set exactly the `bit_ct` lowest slots, up to every slot, and clear
    /// the rest.
    pub fn set_all(&mut self, bit_ct: usize)
        requires
            old(self).well_formed(),
            low_fill_ok(old(self).words().len(), bit_ct as int),
        ensures
            final(self).well_formed(),
            final(self).words() == low_filled(old(self).words(), bit_ct as int),
    {
        vec_low_fill(&mut self.0, bit_ct);
    }
}

impl BaseBitmapper for RelaxedBitmapBase {
    closed spec fn words(&self) -> Seq<u64> {
        self.0@
    }

    closed spec fn well_formed(&self) -> bool {
        words_fit(self.0@.len())
    }

    open spec fn exchanges() -> bool {
        false
    }

    proof fn lemma_words_fit(&self) {
    }

    /// Drops every word: the store holds no slots afterwards.
    fn clear(&mut self)
        ensures
            final(self).words() == Seq::<u64>::empty(),
    {
        self.0.clear();
    }

    fn bit_ct(&self) -> (r: usize) {
        word_bits() * self.0.len()
    }

    fn set_at(&mut self, item: usize, offset: usize) -> (r: Result<(), Error>) {
        if vec_set_at(&mut self.0, item, offset) {
            return Err(Error::SetFailed(item, offset));
        }
        Ok(())
    }

    fn set_all(&mut self) -> (r: Result<(), Error>) {
        vec_fill(&mut self.0, u64::MAX);
        Ok(())
    }

    /// Reports a clear slot with `UnsetFailed`.
    fn unset_at(&mut self, item: usize, offset: usize) -> (r: Result<(), Error>)
        ensures
            r == if word_bit(old(self).words()[item as int], offset as u64) {
                Ok::<(), Error>(())
            } else {
                Err(Error::UnsetFailed(item, offset))
            },
    {
        if !vec_unset_at(&mut self.0, item, offset) {
            return Err(Error::UnsetFailed(item, offset));
        }
        Ok(())
    }

    fn bits(&self) -> (r: &[u64]) {
        self.0.as_slice()
    }

    fn bits_mut(&mut self) -> (r: &mut [u64]) {
        self.0.as_mut_slice()
    }

    fn set_and_exchange_all(&mut self, _old_bits: &mut [u64], _new_bits: &[u64]) {
    }

    fn bits_at_index(&self, idx: usize) -> (r: u64) {
        self.0[idx]
    }

    fn in_use_ct(&self) -> (r: usize) {
        vec_count(&self.0)
    }
}


// ---------------------------------------------------------------------
// Slot-level bitmaps
// ---------------------------------------------------------------------

pub proof fn lemma_slot_of(i: int, q: int)
    requires
        0 <= i,
        0 <= q < 64,
    ensures
        (64 * i + q) / 64 == i,
        (64 * i + q) % 64 == q,
{
    assert((64 * i + q) / 64 == i && (64 * i + q) % 64 == q) by (nonlinear_arith)
        requires
            0 <= i,
            0 <= q < 64,
    ;
}

/// Slot-level operations on a bitmap.
pub trait Bitmapper: Sized {
    type Inner: BaseBitmapper;

    /// The words of the bitmap.
    spec fn view_words(&self) -> Seq<u64>;

    /// The bitmap's invariant.
    spec fn well_formed(&self) -> bool;

    /// Whether `set_and_exchange_all` swaps words with the caller's buffers.
    spec fn exchanges() -> bool;

    proof fn lemma_words_fit(&self)
        requires
            self.well_formed(),
        ensures
            words_fit(self.view_words().len()),
    ;

    /// Bytes used by the words.
    fn byte_ct(&self) -> (r: usize)
        requires
            self.well_formed(),
        ensures
            r == 8 * self.view_words().len(),
    {
        proof {
            self.lemma_words_fit();
        }
        let b = self.bit_ct();
        rep_size(b)
    }

    /// Number of slots.
    fn bit_ct(&self) -> (r: usize)
        requires
            self.well_formed(),
        ensures
            r == self.view_words().len() * 64,
    ;

    /// Claim the lowest free slot.
    fn set_first_empty(&mut self) -> (r: Result<usize, Error>)
        requires
            old(self).well_formed(),
            has_free_from(old(self).view_words(), 0),
        ensures
            final(self).well_formed(),
            r matches Ok(k) && is_first_free_from(old(self).view_words(), 0, k as int)
                && final(self).view_words() == with_bit_set(old(self).view_words(), k as int),
    {
        proof {
            let j = choose|j: int| 0 <= j < old(self).view_words().len() * 64 && !#[trigger] bit_at(old(self).view_words(), j);
        }
        self.set_first_empty_with(0)
    }

    /// Claim the lowest free slot at or after `idx`.
    fn set_first_empty_with(&mut self, idx: usize) -> (r: Result<usize, Error>)
        requires
            old(self).well_formed(),
            idx < old(self).view_words().len() * 64,
            has_free_from(old(self).view_words(), idx as int),
        ensures
            final(self).well_formed(),
            r matches Ok(k) && is_first_free_from(old(self).view_words(), idx as int, k as int)
                && final(self).view_words() == with_bit_set(old(self).view_words(), k as int),
    ;

    /// Set slot `idx`; an error when it was already set.
    fn try_set(&mut self, idx: usize) -> (r: Result<(), Error>)
        requires
            old(self).well_formed(),
            idx < old(self).view_words().len() * 64,
        ensures
            final(self).well_formed(),
            final(self).view_words() == with_bit_set(old(self).view_words(), idx as int),
            r == if bit_at(old(self).view_words(), idx as int) {
                Err(Error::SetFailed(idx / 64, idx % 64))
            } else {
                Ok(())
            },
    ;

    /// Clear slot `idx`; an error when it was already clear.
    fn try_unset(&mut self, idx: usize) -> (r: Result<(), Error>)
        requires
            old(self).well_formed(),
            idx < old(self).view_words().len() * 64,
        ensures
            final(self).well_formed(),
            final(self).view_words() == with_bit_cleared(old(self).view_words(), idx as int),
            r is Ok <==> bit_at(old(self).view_words(), idx as int),
    ;

    /// Set every slot.
    fn set_all(&mut self) -> (r: Result<(), Error>)
        requires
            old(self).well_formed(),
        ensures
            final(self).well_formed(),
            final(self).view_words() == full_words(old(self).view_words().len()),
            r == Ok::<(), Error>(()),
    ;

    /// Whether slot `idx` is set.
    fn is_set(&self, idx: usize) -> (r: bool)
        requires
            self.well_formed(),
            idx < self.view_words().len() * 64,
        ensures
            r == bit_at(self.view_words(), idx as int),
    ;

    /// The words, read-only.
    fn bits(&self) -> (r: &[u64])
        ensures
            r@ == self.view_words(),
    ;

    /// The words, writable.
    fn bits_mut(&mut self) -> (r: &mut [u64])
        ensures
            r@ == old(self).view_words(),
            final(self).view_words() == final(r)@,
    ;

    /// The lowest set slot, or the slot count when none is set.
    fn lowest_bit_set(&self) -> (r: usize)
        requires
            self.well_formed(),
            self.view_words().len() > 0,
        ensures
            is_lowest_set_from(self.view_words(), 0, r as int),
    {
        self.lowest_bit_set_with(0)
    }

    /// The lowest set slot at or after `start`, or the slot count when none is.
    fn lowest_bit_set_with(&self, start: usize) -> (r: usize)
        requires
            self.well_formed(),
            start < self.view_words().len() * 64,
        ensures
            is_lowest_set_from(self.view_words(), start as int, r as int),
    ;

    /// The highest set slot at or before slot 0, or 0.
    fn highest_bit_set(&self) -> (r: usize)
        requires
            self.well_formed(),
            self.view_words().len() > 0,
        ensures
            is_highest_set_upto(self.view_words(), 0, r as int),
    {
        self.highest_bit_set_with(0)
    }

    /// The highest set slot at or before `start`, or 0 when none is.
    fn highest_bit_set_with(&self, start: usize) -> (r: usize)
        requires
            self.well_formed(),
            start < self.view_words().len() * 64,
        ensures
            is_highest_set_upto(self.view_words(), start as int, r as int),
    ;

    /// Put `new` into the bitmap and its previous words into `old`.
    fn set_and_exchange_all(&mut self, old_bits: &mut [u64], new_bits: &[u64])
        requires
            old(self).well_formed(),
            Self::exchanges() ==> old(old_bits)@.len() >= old(self).view_words().len(),
            Self::exchanges() ==> new_bits@.len() >= old(self).view_words().len(),
        ensures
            final(self).well_formed(),
            Self::exchanges() ==> final(self).view_words() == new_bits@.take(
                old(self).view_words().len() as int,
            ),
            Self::exchanges() ==> final(old_bits)@ == exchanged_out(
                old(old_bits)@,
                old(self).view_words(),
            ),
            !Self::exchanges() ==> final(self).view_words() == old(self).view_words(),
            !Self::exchanges() ==> final(old_bits)@ == old(old_bits)@,
    ;

    /// Number of set slots.
    fn in_use_ct(&self) -> (r: usize)
        requires
            self.well_formed(),
        ensures
            r == count_set(self.view_words()),
    ;
}

/// A bitmap of slots over a word store.
#[derive(Debug)]
pub struct Bitmap<T = AtomicBitmap<4>>(pub T);

/// A bitmap over four plain words.
pub type RelaxedFixedBitmap = Bitmap<RelaxedFixedBitmapBase<4>>;

/// A bitmap over a chosen number of plain words.
pub type RelaxedBitmap = Bitmap<RelaxedBitmapBase>;

impl Bitmap<()> {
    /// A bitmap of at least `bit_ct` clear slots over plain words.
    pub fn new_relaxed(bit_ct: usize) -> (r: RelaxedBitmap)
        requires
            bit_ct + 128 <= usize::MAX,
        ensures
            r.well_formed(),
            r.view_words() == Seq::new(((bit_ct + 63) / 64) as nat, |_i: int| 0u64),
    {
        Bitmap(RelaxedBitmapBase::new(bit_ct))
    }

    /// A bitmap of 256 clear slots over plain words.
    pub fn new_relaxed_fixed() -> (r: RelaxedFixedBitmap)
        ensures
            r.well_formed(),
            r.view_words() == Seq::new(4, |_i: int| 0u64),
    {
        Self::new_relaxed_fixed_sized::<4>()
    }

    /// A bitmap of `SIZE` clear words over plain words.
    pub fn new_relaxed_fixed_sized<const SIZE: usize>() -> (r: Bitmap<RelaxedFixedBitmapBase<SIZE>>)
        requires
            words_fit(SIZE as nat),
        ensures
            r.well_formed(),
            r.view_words() == Seq::new(SIZE as nat, |_i: int| 0u64),
    {
        Bitmap(RelaxedFixedBitmapBase::new())
    }

    /// A bitmap of 256 clear slots over the atomic store.
    pub fn new_atomic() -> (r: Bitmap<AtomicBitmap<4>>)
        ensures
            r.well_formed(),
            r.view_words() == Seq::new(4, |_i: int| 0u64),
    {
        Self::new_atomic_sized::<4>()
    }

    /// A bitmap of `SIZE` clear words over the atomic store.
    pub fn new_atomic_sized<const SIZE: usize>() -> (r: Bitmap<AtomicBitmap<SIZE>>)
        requires
            words_fit(SIZE as nat),
        ensures
            r.well_formed(),
            r.view_words() == Seq::new(SIZE as nat, |_i: int| 0u64),
    {
        Bitmap(AtomicBitmap::new())
    }
}

impl<T: BaseBitmapper> Bitmapper for Bitmap<T> {
    type Inner = T;

    open spec fn view_words(&self) -> Seq<u64> {
        self.0.words()
    }

    open spec fn well_formed(&self) -> bool {
        self.0.well_formed()
    }

    open spec fn exchanges() -> bool {
        T::exchanges()
    }

    proof fn lemma_words_fit(&self) {
        self.0.lemma_words_fit();
    }

    fn bit_ct(&self) -> (r: usize) {
        self.0.bit_ct()
    }

    fn set_first_empty_with(&mut self, idx: usize) -> (r: Result<usize, Error>) {
        proof {
            self.0.lemma_words_fit();
        }
        let ghost w0 = self.0.words();
        let ghost len = w0.len();
        let ItemPosition { item, pos } = compute_item_position(idx);
        let mut pos = pos;
        let words = self.byte_ct();
        let mut i = item;
        while i < words
            invariant
                self.0.well_formed(),
                self.0.words() == w0,
                w0 == old(self).view_words(),
                len == w0.len(),
                words_fit(len),
                words == 8 * len,
                item == idx / 64,
                item <= i,
                pos < 64,
                i == item ==> pos == idx % 64,
                i > item ==> pos == 0,
                has_free_from(w0, idx as int),
                forall|j: int| idx <= j < 64 * i + pos ==> #[trigger] bit_at(w0, j),
            decreases words - i,
        {
            proof {
                let j = choose|j: int| idx <= j < len * 64 && !#[trigger] bit_at(w0, j);
                assert(i < len);
            }
            let bits = self.0.bits_at_index(i);
            if bits == u64::MAX {
                proof {
                    assert forall|j: int| idx <= j < 64 * (i + 1) + 0 implies #[trigger] bit_at(w0, j) by {
                        if j >= 64 * i + pos {
                            lemma_slot_of(i as int, j - 64 * i);
                            lemma_bit_full_empty((j - 64 * i) as u64);
                        }
                    }
                }
                pos = 0;
                i = i + 1;
                continue;
            }
            let mut unset_bits = !bits;
            proof {
                lemma_shl_ge_one(pos as u64);
            }
            unset_bits = unset_bits & !((1u64 << (pos as u64)) - 1);
            if unset_bits == 0 {
                proof {
                    assert forall|j: int| idx <= j < 64 * (i + 1) + 0 implies #[trigger] bit_at(w0, j) by {
                        if j >= 64 * i + pos {
                            let q = (j - 64 * i) as u64;
                            lemma_slot_of(i as int, j - 64 * i);
                            lemma_bit_free_at_or_above(bits, pos as u64, q);
                            lemma_bit_full_empty(q);
                        }
                    }
                }
                pos = 0;
                i = i + 1;
                continue;
            }
            let off2 = ffsll(unset_bits) as usize;
            proof {
                lemma_bit_free_at_or_above(bits, pos as u64, off2 as u64);
                assert(off2 >= pos && !word_bit(bits, off2 as u64));
            }
            if self.0.set_at(i, off2).is_err() {
                pos = pos + 1;
                i = i + 1;
                continue;
            }
            let k = word_bits() * i + off2;
            proof {
                lemma_slot_of(i as int, off2 as int);
                assert(k / 64 == i);
                assert((k % 64) as u64 == off2 as u64);
                assert(!bit_at(w0, k as int));
                assert(self.0.words() == with_bit_set(w0, k as int));
                lemma_slot_split(idx as int);
                assert(idx <= k);
                assert(k < len * 64);
                assert forall|j: int| idx <= j < k implies #[trigger] bit_at(w0, j) by {
                    if j >= 64 * i + pos {
                        let q = (j - 64 * i) as u64;
                        lemma_slot_of(i as int, j - 64 * i);
                        lemma_bit_free_at_or_above(bits, pos as u64, q);
                    }
                }
            }
            assert(is_first_free_from(w0, idx as int, k as int));
            assert(w0 == old(self).view_words());
            assert(self.well_formed());
            return Ok(k);
        }
        proof {
            let j = choose|j: int| idx <= j < len * 64 && !#[trigger] bit_at(w0, j);
            assert(false);
        }
        Err(Error::SetFailed(item, pos))
    }

    fn try_set(&mut self, idx: usize) -> (r: Result<(), Error>) {
        let ItemPosition { item, pos } = compute_item_position(idx);
        self.0.set_at(item, pos)
    }

    fn try_unset(&mut self, idx: usize) -> (r: Result<(), Error>) {
        let ItemPosition { item, pos } = compute_item_position(idx);
        self.0.unset_at(item, pos)
    }

    fn set_all(&mut self) -> (r: Result<(), Error>) {
        self.0.set_all()
    }

    fn is_set(&self, idx: usize) -> (r: bool) {
        let ItemPosition { item, pos } = compute_item_position(idx);
        let bits = self.0.bits_at_index(item);
        let mask = get_mask(pos);
        proof {
            lemma_bit_mask_test(bits, pos as u64);
        }
        bits & mask > 0
    }

    fn bits(&self) -> (r: &[u64]) {
        self.0.bits()
    }

    fn bits_mut(&mut self) -> (r: &mut [u64]) {
        self.0.bits_mut()
    }

    fn lowest_bit_set_with(&self, start: usize) -> (r: usize) {
        proof {
            self.0.lemma_words_fit();
        }
        let ghost w = self.0.words();
        let ItemPosition { item: start_word, pos: start_off } = compute_item_position(start);
        let mut start_off = start_off;
        let word_ct = self.byte_ct() / word_bytes();
        let bit_ct = self.bit_ct();
        let mut i = start_word;
        while i < word_ct
            invariant
                self.0.well_formed(),
                self.0.words() == w,
                words_fit(w.len()),
                word_ct == w.len(),
                bit_ct == 64 * w.len(),
                start < bit_ct,
                start_word == start / 64,
                start_word <= i,
                start_off < 64,
                i == start_word ==> start_off == start % 64,
                i > start_word ==> start_off == 0,
                forall|j: int| start <= j < 64 * i + start_off ==> !#[trigger] bit_at(w, j),
            decreases word_ct - i,
        {
            proof {
                lemma_shl_ge_one(start_off as u64);
            }
            let mask = !((1u64 << (start_off as u64)) - 1);
            let word = self.0.bits_at_index(i);
            let bits = word & mask;
            let ghost so = start_off;
            start_off = 0;
            if bits == 0 {
                proof {
                    assert forall|j: int| start <= j < 64 * (i + 1) + 0 implies !#[trigger] bit_at(w, j) by {
                        if j >= 64 * i + so {
                            let q = (j - 64 * i) as u64;
                            lemma_slot_of(i as int, j - 64 * i);
                            lemma_bit_set_at_or_above(word, so as u64, q);
                            lemma_bit_full_empty(q);
                        }
                    }
                }
                i = i + 1;
                continue;
            }
            let off = ffsll(bits) as usize;
            let bit = word_bits() * i + off;
            proof {
                lemma_bit_set_at_or_above(word, so as u64, off as u64);
                lemma_slot_of(i as int, off as int);
                assert forall|j: int| start <= j < bit implies !#[trigger] bit_at(w, j) by {
                    if j >= 64 * i + so {
                        let q = (j - 64 * i) as u64;
                        lemma_slot_of(i as int, j - 64 * i);
                        lemma_bit_set_at_or_above(word, so as u64, q);
                    }
                }
            }
            return if bit < bit_ct { bit } else { bit_ct };
        }
        bit_ct
    }

    fn highest_bit_set_with(&self, start: usize) -> (r: usize) {
        proof {
            self.0.lemma_words_fit();
        }
        let ghost w = self.0.words();
        let ItemPosition { item: start_word, pos: start_off } = compute_item_position(start);
        let mut start_off = start_off;
        let bit_ct = self.bit_ct();
        let mut i = start_word;
        loop
            invariant_except_break
                self.0.well_formed(),
                self.0.words() == w,
                words_fit(w.len()),
                bit_ct == 64 * w.len(),
                start < bit_ct,
                start_word == start / 64,
                i <= start_word,
                start_off < 64,
                i == start_word ==> start_off == start % 64,
                i < start_word ==> start_off == 63,
                forall|j: int| 64 * i + start_off < j <= start ==> !#[trigger] bit_at(w, j),
            ensures
                forall|j: int| 0 <= j <= start ==> !#[trigger] bit_at(w, j),
            decreases i,
        {
            let mut mask: u64 = if start_off < 63 {
                proof {
                    lemma_shl_ge_one((start_off + 1) as u64);
                }
                (1u64 << ((start_off + 1) as u64)) - 1
            } else {
                0
            };
            if start_off == word_bits() - 1 {
                mask = u64::MAX;
            }
            let word = self.0.bits_at_index(i);
            let bits = word & mask;
            let ghost so = start_off;
            start_off = word_bits() - 1;
            if bits == 0 {
                proof {
                    assert forall|j: int| 64 * i + 0 <= j <= start implies !#[trigger] bit_at(w, j) by {
                        if j <= 64 * i + so {
                            let q = (j - 64 * i) as u64;
                            lemma_slot_of(i as int, j - 64 * i);
                            lemma_bit_full_empty(q);
                            if so < 63 {
                                lemma_bit_set_at_or_below(word, so as u64, q);
                            } else {
                                lemma_bit_and_full(word, q);
                            }
                        }
                    }
                }
                if i == 0 {
                    break;
                }
                proof {
                    assert forall|j: int| 64 * (i - 1) + 63 < j <= start implies !#[trigger] bit_at(w, j) by {
                        assert(64 * i + 0 <= j);
                    }
                }
                i = i - 1;
                continue;
            }
            let lz = leading_zeros(bits) as usize;
            let off = (word_bits() - lz) - 1;
            let bit = word_bits() * i + off;
            proof {
                lemma_slot_of(i as int, off as int);
                if so < 63 {
                    lemma_bit_set_at_or_below(word, so as u64, off as u64);
                } else {
                    lemma_bit_and_full(word, off as u64);
                }
                assert forall|j: int| bit < j <= start implies !#[trigger] bit_at(w, j) by {
                    if j <= 64 * i + so {
                        let q = (j - 64 * i) as u64;
                        lemma_slot_of(i as int, j - 64 * i);
                        if so < 63 {
                            lemma_bit_set_at_or_below(word, so as u64, q);
                        } else {
                            lemma_bit_and_full(word, q);
                        }
                    }
                }
            }
            return if bit < bit_ct { bit } else { bit_ct };
        }
        0
    }

    fn set_and_exchange_all(&mut self, old_bits: &mut [u64], new_bits: &[u64]) {
        self.0.set_and_exchange_all(old_bits, new_bits);
    }

    fn in_use_ct(&self) -> (r: usize) {
        self.0.in_use_ct()
    }
}


// ---------------------------------------------------------------------
// Walking the set slots
// ---------------------------------------------------------------------

impl<T: BaseBitmapper> Bitmap<T> {
    /// A cursor over the set slots, starting at slot 0.
    pub fn into_iter(&self) -> (r: BitmapIter<'_, T>)
        ensures
            r.cursor() == 0,
            r.source() == self.view_words(),
            r.source_ok() == self.well_formed(),
    {
        BitmapIter { idx: 0, inner: self }
    }
}

/// A cursor that yields the set slots of a bitmap in increasing order.
pub struct BitmapIter<'a, T> {
    idx: usize,
    inner: &'a Bitmap<T>,
}

impl<'a, T: BaseBitmapper> BitmapIter<'a, T> {
    /// The first slot not yet examined.
    pub closed spec fn cursor(&self) -> int {
        self.idx as int
    }

    /// The words of the bitmap being walked.
    pub closed spec fn source(&self) -> Seq<u64> {
        self.inner.0.words()
    }

    /// The bitmap being walked is well formed.
    pub closed spec fn source_ok(&self) -> bool {
        self.inner.0.well_formed()
    }

    /// The next set slot at or after the cursor, moving the cursor past it;
    /// `None` once no set slot remains.
    pub fn next(&mut self) -> (r: Option<usize>)
        requires
            old(self).source_ok(),
        ensures
            final(self).source() == old(self).source(),
            final(self).source_ok(),
            match r {
                Some(k) => {
                    &&& old(self).cursor() <= k < old(self).source().len() * 64
                    &&& bit_at(old(self).source(), k as int)
                    &&& forall|j: int|
                        old(self).cursor() <= j < k ==> !#[trigger] bit_at(old(self).source(), j)
                    &&& final(self).cursor() == k + 1
                },
                None => {
                    &&& forall|j: int|
                        old(self).cursor() <= j < old(self).source().len() * 64
                            ==> !#[trigger] bit_at(old(self).source(), j)
                    &&& final(self).cursor() == if old(self).cursor() >= old(self).source().len()
                        * 64 {
                        old(self).cursor()
                    } else {
                        (old(self).source().len() * 64) as int
                    }
                },
            },
    {
        let bit_ct = self.inner.bit_ct();
        if self.idx >= bit_ct {
            return None;
        }
        let item = self.inner.lowest_bit_set_with(self.idx);
        if item >= bit_ct || !self.inner.is_set(item) {
            self.idx = bit_ct;
            return None;
        }
        self.idx = item.saturating_add(1);
        Some(item)
    }
}


// ---------------------------------------------------------------------
// Laws of slot updates
// ---------------------------------------------------------------------

/// Setting slot `i` sets it and leaves every other slot as it was.
pub proof fn law_set_bit(words: Seq<u64>, i: int, j: int)
    requires
        0 <= i < words.len() * 64,
        0 <= j < words.len() * 64,
    ensures
        bit_at(with_bit_set(words, i), i),
        j != i ==> bit_at(with_bit_set(words, i), j) == bit_at(words, j),
{
    lemma_slot_split(i);
    lemma_slot_split(j);
    lemma_bit_or(words[i / 64], (i % 64) as u64, (i % 64) as u64);
    lemma_bit_or(words[j / 64], (i % 64) as u64, (j % 64) as u64);
}

/// Clearing slot `i` clears it and leaves every other slot as it was.
pub proof fn law_clear_bit(words: Seq<u64>, i: int, j: int)
    requires
        0 <= i < words.len() * 64,
        0 <= j < words.len() * 64,
    ensures
        !bit_at(with_bit_cleared(words, i), i),
        j != i ==> bit_at(with_bit_cleared(words, i), j) == bit_at(words, j),
{
    lemma_slot_split(i);
    lemma_slot_split(j);
    lemma_bit_and_not(words[i / 64], (i % 64) as u64, (i % 64) as u64);
    lemma_bit_and_not(words[j / 64], (i % 64) as u64, (j % 64) as u64);
}

/// Setting a free slot adds one to the count of set slots; clearing a set
/// slot takes one away.
pub proof fn law_set_clear_count(words: Seq<u64>, i: int)
    requires
        0 <= i < words.len() * 64,
    ensures
        !bit_at(words, i) ==> count_set(with_bit_set(words, i)) == count_set(words) + 1,
        bit_at(words, i) ==> count_set(with_bit_cleared(words, i)) + 1 == count_set(words),
{
    lemma_slot_split(i);
    let k = i / 64;
    let p = (i % 64) as u64;
    let w = words[k];
    if !bit_at(words, i) {
        lemma_ones_below_set(w, p, 64);
        lemma_count_set_update(words, k, w | (1u64 << p));
    } else {
        lemma_ones_below_clear(w, p, 64);
        lemma_count_set_update(words, k, w & !(1u64 << p));
    }
}

/// Setting a free slot and then clearing it gives back the same words.
pub proof fn law_set_then_clear(words: Seq<u64>, i: int)
    requires
        0 <= i < words.len() * 64,
        !bit_at(words, i),
    ensures
        with_bit_cleared(with_bit_set(words, i), i) == words,
{
    lemma_slot_split(i);
    let k = i / 64;
    let p = (i % 64) as u64;
    let w = words[k];
    assert((w | (1u64 << p)) & !(1u64 << p) == w) by (bit_vector)
        requires
            p < 64,
            (w >> p) & 1u64 != 1u64,
    ;
    assert(with_bit_cleared(with_bit_set(words, i), i) =~= words);
}

/// Inverting flips every slot.
pub proof fn law_invert(words: Seq<u64>, i: int)
    requires
        0 <= i < words.len() * 64,
    ensures
        bit_at(inverted(words), i) == !bit_at(words, i),
{
    lemma_slot_split(i);
    lemma_bit_not(words[i / 64], (i % 64) as u64);
}

/// A full bitmap has every slot set, and as many set slots as slots.
pub proof fn law_full_words(n: nat, i: int)
    requires
        0 <= i < n * 64,
    ensures
        bit_at(full_words(n), i),
        count_set(full_words(n)) == 64 * n,
{
    lemma_slot_split(i);
    lemma_bit_full_empty((i % 64) as u64);
    lemma_count_set_const(full_words(n), u64::MAX);
}

/// A cleared bitmap has no set slot.
pub proof fn law_zero_words(n: nat, i: int)
    requires
        0 <= i < n * 64,
    ensures
        !bit_at(Seq::new(n, |_k: int| 0u64), i),
        count_set(Seq::new(n, |_k: int| 0u64)) == 0,
{
    lemma_slot_split(i);
    lemma_bit_full_empty((i % 64) as u64);
    lemma_count_set_const(Seq::new(n, |_k: int| 0u64), 0u64);
}

/// The words of a cleared bitmap of `n` words after slots `0..k` are set
/// in turn.
pub open spec fn with_first_set(n: nat, k: nat) -> Seq<u64>
    decreases k,
{
    if k == 0 {
        Seq::new(n, |_i: int| 0u64)
    } else {
        with_bit_set(with_first_set(n, (k - 1) as nat), k - 1)
    }
}

/// Setting slots `0..k` of a cleared bitmap in turn leaves exactly those
/// slots set, and `k` slots in use.
pub proof fn law_set_first_slots(n: nat, k: nat)
    requires
        k <= n * 64,
    ensures
        with_first_set(n, k).len() == n,
        count_set(with_first_set(n, k)) == k,
        forall|j: int| 0 <= j < n * 64 ==> #[trigger] bit_at(with_first_set(n, k), j) == (j < k),
    decreases k,
{
    if k == 0 {
        if n > 0 {
            law_zero_words(n, 0);
        } else {
            assert(Seq::new(n, |_i: int| 0u64) =~= Seq::<u64>::empty());
        }
        assert forall|j: int| 0 <= j < n * 64 implies #[trigger] bit_at(with_first_set(n, k), j) == (j
            < k) by {
            law_zero_words(n, j);
        }
    } else {
        let w = with_first_set(n, (k - 1) as nat);
        law_set_first_slots(n, (k - 1) as nat);
        assert(!bit_at(w, k - 1));
        law_set_clear_count(w, k - 1);
        assert forall|j: int| 0 <= j < n * 64 implies #[trigger] bit_at(with_first_set(n, k), j) == (j
            < k) by {
            law_set_bit(w, k - 1, j);
        }
    }
}

/// The set slots of a bitmap whose words are `words`.
pub open spec fn set_slots(words: Seq<u64>) -> Set<int> {
    Set::new(|i: int| 0 <= i < words.len() * 64 && bit_at(words, i))
}

/// The positions `base + p`, for `p < n`, of the set bits `p` of `w`.
spec fn word_slots(w: u64, base: int, n: nat) -> Set<int> {
    Set::new(|i: int| base <= i < base + n && word_bit(w, (i - base) as u64))
}

proof fn lemma_word_slots_len(w: u64, base: int, n: nat)
    requires
        n <= 64,
    ensures
        word_slots(w, base, n).finite(),
        word_slots(w, base, n).len() == ones_below(w, n),
    decreases n,
{
    if n == 0 {
        assert(word_slots(w, base, n) =~= Set::<int>::empty());
    } else {
        let m = (n - 1) as nat;
        lemma_word_slots_len(w, base, m);
        let x = base + m;
        if word_bit(w, m as u64) {
            assert(word_slots(w, base, n) =~= word_slots(w, base, m).insert(x));
            assert(!word_slots(w, base, m).contains(x));
        } else {
            assert(word_slots(w, base, n) =~= word_slots(w, base, m));
        }
    }
}

/// The number of set slots is the size of the set of set slots.
pub proof fn lemma_set_slots_len(words: Seq<u64>)
    ensures
        set_slots(words).finite(),
        set_slots(words).len() == count_set(words),
    decreases words.len(),
{
    let n = words.len();
    if n == 0 {
        assert(set_slots(words) =~= Set::<int>::empty());
    } else {
        let front = words.drop_last();
        let base = 64 * (n - 1);
        lemma_set_slots_len(front);
        lemma_word_slots_len(words.last(), base, 64);
        let a = set_slots(front);
        let l = word_slots(words.last(), base, 64);
        assert forall|i: int| #[trigger] set_slots(words).contains(i) == (a + l).contains(i) by {
            if 0 <= i < base {
                assert(i / 64 < n - 1);
                assert(words[i / 64] == front[i / 64]);
            } else if base <= i < base + 64 {
                assert(i / 64 == n - 1);
                assert(i % 64 == i - base);
            }
        }
        assert(set_slots(words) =~= a + l);
        assert(a.disjoint(l));
        vstd::set_lib::lemma_set_disjoint_lens(a, l);
    }
}

} // verus!
