//! A record of the mappings handed out, each with its size.
use vstd::prelude::*;

use std::collections::HashMap;

verus! {

/// Sum of the sizes recorded in `m` for `keys`, in order.
pub open spec fn sizes_of(keys: Seq<usize>, m: Map<usize, usize>) -> int
    decreases keys.len(),
{
    if keys.len() == 0 {
        0
    } else {
        sizes_of(keys.drop_last(), m) + m[keys.last()]
    }
}

/// `keys` lists every key of `m`, each once.
pub open spec fn lists_keys(keys: Seq<usize>, m: Map<usize, usize>) -> bool {
    keys.no_duplicates() && keys.to_set() == m.dom()
}

/// The total of the sizes recorded in `m`: the sum over a listing of its
/// keys, which is the same for every listing.
pub open spec fn total_size(m: Map<usize, usize>) -> int {
    sizes_of(choose|keys: Seq<usize>| lists_keys(keys, m), m)
}

/// Taking out one key takes its size out of the sum.
pub proof fn lemma_sizes_remove(s: Seq<usize>, m: Map<usize, usize>, j: int)
    requires
        0 <= j < s.len(),
    ensures
        sizes_of(s, m) == sizes_of(s.remove(j), m) + m[s[j]],
    decreases s.len(),
{
    if j == s.len() - 1 {
        assert(s.remove(j) =~= s.drop_last());
    } else {
        lemma_sizes_remove(s.drop_last(), m, j);
        assert(s.remove(j).drop_last() =~= s.drop_last().remove(j));
        assert(s.remove(j).last() == s.last());
    }
}

/// Two listings of the same keys give the same sum.
pub proof fn lemma_sizes_same_keys(a: Seq<usize>, b: Seq<usize>, m: Map<usize, usize>)
    requires
        a.no_duplicates(),
        b.no_duplicates(),
        a.to_set() == b.to_set(),
    ensures
        sizes_of(a, m) == sizes_of(b, m),
    decreases a.len(),
{
    broadcast use vstd::seq_lib::group_seq_properties;

    if a.len() == 0 {
        if b.len() > 0 {
            assert(a.to_set().contains(b[0]));
        }
    } else {
        let x = a.last();
        assert(b.to_set().contains(x));
        let j = b.index_of(x);
        lemma_sizes_remove(b, m, j);
        let a1 = a.drop_last();
        let b1 = b.remove(j);
        assert(a1.to_set() =~= b1.to_set()) by {
            assert forall|y: usize| a1.to_set().contains(y) <==> b1.to_set().contains(y) by {
                if a1.contains(y) {
                    let i = a1.index_of(y);
                    assert(a[i] == y);
                    assert(y != x);
                    assert(a.to_set().contains(y));
                    assert(b.to_set().contains(y));
                    assert(b.contains(y));
                    let jj = b.index_of(y);
                    assert(jj != j);
                    if jj < j {
                        assert(b1[jj] == y);
                    } else {
                        assert(b1[jj - 1] == y);
                    }
                }
                if b1.contains(y) {
                    let i = b1.index_of(y);
                    let i2 = if i < j { i } else { i + 1 };
                    assert(b[i2] == y);
                    assert(i2 != j);
                    assert(y != x);
                    assert(b.to_set().contains(y));
                    assert(a.to_set().contains(y));
                    assert(a.contains(y));
                    let ia = a.index_of(y);
                    assert(ia != a.len() - 1);
                    assert(a1[ia] == y);
                }
            }
        }
        lemma_sizes_same_keys(a1, b1, m);
    }
}

/// A prefix sums to no more than the whole.
proof fn lemma_sizes_prefix(s: Seq<usize>, m: Map<usize, usize>, i: int)
    requires
        0 <= i <= s.len(),
    ensures
        0 <= sizes_of(s.take(i), m) <= sizes_of(s, m),
    decreases s.len() - i,
{
    if i < s.len() {
        lemma_sizes_prefix(s, m, i + 1);
        assert(s.take(i + 1).drop_last() =~= s.take(i));
        lemma_sizes_nonneg(s.take(i), m);
    } else {
        assert(s.take(i) =~= s);
        lemma_sizes_nonneg(s, m);
    }
}

proof fn lemma_sizes_nonneg(s: Seq<usize>, m: Map<usize, usize>)
    ensures
        0 <= sizes_of(s, m),
    decreases s.len(),
{
    if s.len() > 0 {
        lemma_sizes_nonneg(s.drop_last(), m);
    }
}

/// The mappings handed out, each recorded with its size.
pub struct MmapHeap {
    vma_map: HashMap<usize, usize>,
}

impl Default for MmapHeap {
    fn default() -> (r: Self)
        ensures
            r.mappings() == Map::<usize, usize>::empty(),
    {
        Self::new()
    }
}

impl MmapHeap {
    /// Each recorded mapping's address, with its size.
    pub closed spec fn mappings(&self) -> Map<usize, usize> {
        self.vma_map@
    }

    /// No mapping recorded.
    pub fn new() -> (r: Self)
        ensures
            r.mappings() == Map::<usize, usize>::empty(),
    {
        Self { vma_map: HashMap::new() }
    }

    /// Record the mapping of `sz` bytes that the caller made at `ptr`, and
    /// hand it out.
    pub fn malloc(&mut self, ptr: usize, sz: usize) -> (r: usize)
        requires
            !old(self).mappings().contains_key(ptr),
        ensures
            r == ptr,
            final(self).mappings() == old(self).mappings().insert(ptr, sz),
    {
        broadcast use vstd::std_specs::hash::group_hash_axioms;

        self.vma_map.insert(ptr, sz);
        ptr
    }

    /// The size recorded for the mapping at `ptr`.
    pub fn get_size(&mut self, ptr: usize) -> (r: usize)
        requires
            old(self).mappings().contains_key(ptr),
        ensures
            r == old(self).mappings()[ptr],
            final(self).mappings() == old(self).mappings(),
    {
        broadcast use vstd::std_specs::hash::group_hash_axioms;

        match self.vma_map.get(&ptr) {
            Some(entry) => *entry,
            None => 0,
        }
    }

    /// Whether a mapping is recorded at `ptr`.
    pub fn in_bounds(&self, ptr: usize) -> (r: bool)
        ensures
            r == self.mappings().contains_key(ptr),
    {
        broadcast use vstd::std_specs::hash::group_hash_axioms;

        self.vma_map.get(&ptr).is_some()
    }

    /// Forget the mapping at `ptr`; its size, which the caller unmaps.
    pub fn free(&mut self, ptr: usize) -> (r: usize)
        requires
            old(self).mappings().contains_key(ptr),
        ensures
            r == old(self).mappings()[ptr],
            final(self).mappings() == old(self).mappings().remove(ptr),
    {
        broadcast use vstd::std_specs::hash::group_hash_axioms;

        match self.vma_map.remove(&ptr) {
            Some(sz) => sz,
            None => 0,
        }
    }

    /// The total size of the recorded mappings.
    pub fn arena_size(&self) -> (r: usize)
        requires
            total_size(self.mappings()) <= usize::MAX,
        ensures
            r == total_size(self.mappings()),
    {
        broadcast use vstd::std_specs::hash::group_hash_axioms;

        let ghost m = self.vma_map@;
        let mut total: usize = 0;
        let keys_iter = self.vma_map.keys();
        let ghost ks = vstd::std_specs::hash::into_iter_keys(keys_iter);
        proof {
            assert(ks.no_duplicates());
            assert(ks.to_set() =~= m.dom());
            assert(lists_keys(ks, m));
            assert(exists|c: Seq<usize>| lists_keys(c, m));
            let chosen = choose|c: Seq<usize>| lists_keys(c, m);
            lemma_sizes_same_keys(chosen, ks, m);
        }
        for k in it: keys_iter
            invariant
                m == self.vma_map@,
                total_size(m) <= usize::MAX,
                lists_keys(ks, m),
                sizes_of(ks, m) == total_size(m),
                it.seq().unref() == ks,
                total == sizes_of(ks.take(it.index() as int), m),
        {
            let ghost i = it.index() as int;
            proof {
                lemma_sizes_prefix(ks, m, i + 1);
                assert(ks.take(i + 1).drop_last() =~= ks.take(i));
                assert(ks[i] == *k);
                assert(m.contains_key(*k)) by {
                    assert(ks.to_set().contains(ks[i]));
                }
            }
            let sz = match self.vma_map.get(k) {
                Some(v) => *v,
                None => 0,
            };
            total = total + sz;
        }
        proof {
            assert(ks.take(ks.len() as int) =~= ks);
        }
        total
    }
}

/// A recorded mapping reports the size it was recorded with; once
/// forgotten it is no longer recorded, and the others keep their sizes.
pub proof fn law_record_then_forget(m: Map<usize, usize>, ptr: usize, sz: usize, other: usize)
    requires
        other != ptr,
    ensures
        m.insert(ptr, sz).contains_key(ptr),
        m.insert(ptr, sz)[ptr] == sz,
        !m.insert(ptr, sz).remove(ptr).contains_key(ptr),
        m.insert(ptr, sz).remove(ptr).contains_key(other) == m.contains_key(other),
        m.contains_key(other) ==> m.insert(ptr, sz).remove(ptr)[other] == m[other],
{
}

} // verus!
