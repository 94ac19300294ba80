//! A shuffle vector: a pool handed out in random order at bump-pointer speed.
use vstd::prelude::*;

verus! {

/// `rand`'s `Rng::random_range(0..bound)`: a value drawn from `0..bound`.
#[verifier::external_body]
fn random_below<R: rand::Rng>(rng: &mut R, bound: usize) -> (r: usize)
    requires
        bound > 0,
    ensures
        r < bound,
{
    rng.random_range(0..bound)
}

/// `std`'s `<[T]>::swap`: exchange elements `i` and `j`.
#[verifier::external_body]
fn swap_elements<T>(v: &mut Vec<T>, i: usize, j: usize)
    requires
        i < old(v)@.len(),
        j < old(v)@.len(),
    ensures
        final(v)@ == old(v)@.update(i as int, old(v)@[j as int]).update(j as int, old(v)@[i as int]),
{
    v.swap(i, j);
}

/// Exchanging two elements keeps the multiset of elements.
proof fn lemma_swap_multiset<T>(s: Seq<T>, i: int, j: int)
    requires
        0 <= i < s.len(),
        0 <= j < s.len(),
    ensures
        s.update(i, s[j]).update(j, s[i]).to_multiset() == s.to_multiset(),
{
    broadcast use vstd::seq_lib::to_multiset_update, vstd::seq_lib::to_multiset_contains;
    broadcast use vstd::multiset::group_multiset_axioms;

    let s1 = s.update(i, s[j]);
    if i == j {
        assert(s1 =~= s);
        assert(s1.update(j, s[i]) =~= s);
    } else {
        let m = s.to_multiset();
        assert(s1[j] == s[j]);
        let m1 = m.insert(s[j]).remove(s[i]);
        assert(s1.to_multiset() == m1);
        assert(s1.update(j, s[i]).to_multiset() == m1.insert(s[i]).remove(s[j]));
        assert(m.contains(s[i]));
        assert(m.contains(s[j]));
        assert(m1.insert(s[i]).remove(s[j]) =~= m);
    }
}

/// `s` with the elements at `a` and `b` exchanged.
pub open spec fn swap_at<T>(s: Seq<T>, a: int, b: int) -> Seq<T> {
    s.update(a, s[b]).update(b, s[a])
}

/// `s` after the exchanges of a shuffle of `s[start..]` whose first
/// exchange is at offset `top`: the `k`-th draw `draws[k]` is exchanged
/// with offset `top - k`, offsets counted from `start`.
pub open spec fn apply_draws<T>(s: Seq<T>, start: int, top: int, draws: Seq<usize>) -> Seq<T>
    decreases draws.len(),
{
    if draws.len() == 0 {
        s
    } else {
        let k = draws.len() - 1;
        swap_at(apply_draws(s, start, top, draws.drop_last()), start + top - k, start + draws[k])
    }
}

/// Each draw lies in `0..=top - k`, the range it is drawn from.
pub open spec fn draws_in_range(draws: Seq<usize>, top: int) -> bool {
    forall|k: int| 0 <= k < draws.len() ==> #[trigger] draws[k] <= top - k
}

/// `after` is an outcome of shuffling `before[start..]`: for each offset
/// `i` from the second to last down to 1, element `start + i` exchanged
/// with one drawn from `start..=start + i`; the draws decide which of
/// these outcomes it is.
pub open spec fn shuffle_outcome<T>(before: Seq<T>, start: int, after: Seq<T>) -> bool {
    let n = before.len() - start;
    exists|draws: Seq<usize>|
        {
            &&& draws.len() == (if n >= 2 {
                n - 2
            } else {
                0
            })
            &&& draws_in_range(draws, n - 2)
            &&& after == #[trigger] apply_draws(before, start, n - 2, draws)
        }
}

/// The number of exchanges a shuffle of `n` elements makes: one for each
/// offset from the second to last down to 1.
pub open spec fn draw_count(n: int) -> int {
    if n >= 2 {
        n - 2
    } else {
        0
    }
}

/// Permute `elements[start..]` by the given draws: for each `k`, the
/// element at offset `n - 2 - k` from `start` (`n` the length of the
/// part) is exchanged with the one at offset `draws[k]`.
pub fn shuffle_with_draws<T>(elements: &mut Vec<T>, start: usize, draws: &Vec<usize>)
    requires
        start < old(elements)@.len(),
        draws@.len() == draw_count(old(elements)@.len() - start),
        draws_in_range(draws@, old(elements)@.len() - start - 2),
    ensures
        final(elements)@.len() == old(elements)@.len(),
        final(elements)@.to_multiset() == old(elements)@.to_multiset(),
        final(elements)@.take(start as int) == old(elements)@.take(start as int),
        final(elements)@ == apply_draws(
            old(elements)@,
            start as int,
            old(elements)@.len() - start - 2,
            draws@,
        ),
{
    let n = elements.len() - start;
    let ghost top: int = n - 2;
    let count = draws.len();
    let mut k: usize = 0;
    while k < count
        invariant
            elements@.len() == old(elements)@.len(),
            start + n == elements@.len(),
            start + n <= usize::MAX,
            top == n - 2,
            count == draws@.len(),
            count == draw_count(n as int),
            draws_in_range(draws@, top),
            k <= count,
            elements@.to_multiset() == old(elements)@.to_multiset(),
            elements@.take(start as int) == old(elements)@.take(start as int),
            elements@ == apply_draws(old(elements)@, start as int, top, draws@.take(k as int)),
        decreases count - k,
    {
        let i = n - 2 - k;
        let j = draws[k];
        assert(j <= top - k);
        proof {
            let s = elements@;
            lemma_swap_multiset(s, start + i, start + j);
        }
        let a = start + i;
        let b = start + j;
        let ghost prev = elements@;
        swap_elements(elements, a, b);
        assert(elements@.take(start as int) =~= old(elements)@.take(start as int));
        proof {
            let d2 = draws@.take(k + 1);
            assert(d2.drop_last() =~= draws@.take(k as int));
            assert(d2[d2.len() - 1] == j);
            assert(elements@ == swap_at(prev, a as int, b as int));
        }
        k = k + 1;
    }
    assert(draws@.take(count as int) =~= draws@);
}

/// Randomly permute `elements[start..]`: for each `i` from the second to
/// last position down to `start + 1`, exchange element `i` with an element
/// drawn from `start..=i`.
fn shuffle<T, R: rand::Rng>(elements: &mut Vec<T>, start: usize, rng: &mut R)
    requires
        start < old(elements)@.len(),
    ensures
        final(elements)@.len() == old(elements)@.len(),
        final(elements)@.to_multiset() == old(elements)@.to_multiset(),
        final(elements)@.take(start as int) == old(elements)@.take(start as int),
        shuffle_outcome(old(elements)@, start as int, final(elements)@),
{
    let n = elements.len() - start;
    let count = if n >= 2 {
        n - 2
    } else {
        0
    };
    let mut draws: Vec<usize> = Vec::new();
    let mut k: usize = 0;
    while k < count
        invariant
            count == draw_count(n as int),
            n >= 1,
            k <= count,
            draws@.len() == k,
            draws_in_range(draws@, n - 2),
        decreases count - k,
    {
        let i = n - 2 - k;
        let j = random_below(rng, i + 1);
        let ghost d0 = draws@;
        draws.push(j);
        proof {
            assert forall|m: int| 0 <= m < draws@.len() implies #[trigger] draws@[m] <= n - 2 - m by {
                if m < k {
                    assert(draws@[m] == d0[m]);
                }
            }
        }
        k = k + 1;
    }
    shuffle_with_draws(elements, start, &draws);
    proof {
        let top = old(elements)@.len() - start - 2;
        assert(apply_draws(old(elements)@, start as int, top, draws@) == final(elements)@);
    }
}

/// What a shuffle by draws does, in terms of its inputs: the elements
/// before `start` and after the first exchanged position `start + top`
/// stay where they are, and that position receives the element the first
/// draw names.
pub proof fn law_apply_draws<T>(s: Seq<T>, start: int, top: int, draws: Seq<usize>)
    requires
        0 <= start,
        start + top < s.len(),
        draws.len() <= top + 1,
        draws_in_range(draws, top),
    ensures
        apply_draws(s, start, top, draws).len() == s.len(),
        forall|p: int|
            0 <= p < s.len() && (p < start || p > start + top) ==> #[trigger] apply_draws(
                s,
                start,
                top,
                draws,
            )[p] == s[p],
        draws.len() > 0 ==> apply_draws(s, start, top, draws)[start + top] == s[start + draws[0]],
    decreases draws.len(),
{
    if draws.len() > 0 {
        let d = draws.drop_last();
        assert forall|k: int| 0 <= k < d.len() implies #[trigger] d[k] <= top - k by {
            assert(d[k] == draws[k]);
        }
        law_apply_draws(s, start, top, d);
        let k = draws.len() - 1;
        assert(draws[k] <= top - k);
        if k > 0 {
            assert(d[0] == draws[0]);
        }
    }
}

/// Pool of elements handed out from `current` onward.
#[derive(Debug, Clone)]
pub struct ShuffleVector<T, Rng> {
    elements: Vec<T>,
    current: usize,
    rng: Rng,
}

impl<T, Rng> ShuffleVector<T, Rng> {
    /// The cursor never passes the end of the pool.
    pub closed spec fn well_formed(&self) -> bool {
        self.current <= self.elements@.len()
    }
    /// The pool, in order.
    pub closed spec fn pool(&self) -> Seq<T> {
        self.elements@
    }

    /// Position of the next element to hand out.
    pub closed spec fn cursor(&self) -> int {
        self.current as int
    }

    /// A well-formed pool's cursor lies within the pool.
    pub proof fn lemma_cursor_in_pool(&self)
        requires
            self.well_formed(),
        ensures
            0 <= self.cursor() <= self.pool().len(),
    {
    }

    /// Hand out the next element, if any is left.
    pub fn get(&mut self) -> (r: Option<&T>)
        requires
            old(self).well_formed(),
        ensures
            final(self).well_formed(),
            final(self).pool() == old(self).pool(),
            old(self).cursor() < old(self).pool().len() ==> r == Some(
                &old(self).pool()[old(self).cursor()],
            ) && final(self).cursor() == old(self).cursor() + 1,
            old(self).cursor() >= old(self).pool().len() ==> r is None && final(self).cursor()
                == old(self).cursor(),
    {
        if self.current >= self.elements.len() {
            return None;
        }
        let ret = &self.elements[self.current];
        self.current = self.current + 1;
        Some(ret)
    }

    /// Give an element back: it becomes the next one handed out. When none
    /// has been handed out the element is returned to the caller.
    pub fn put(&mut self, element: T) -> (r: Option<T>)
        requires
            old(self).well_formed(),
        ensures
            final(self).well_formed(),
            old(self).cursor() > 0 ==> r is None && final(self).cursor() == old(self).cursor() - 1
                && final(self).pool() == old(self).pool().update(old(self).cursor() - 1, element),
            old(self).cursor() == 0 ==> r == Some(element) && final(self).cursor() == 0
                && final(self).pool() == old(self).pool(),
    {
        if self.current > 0 {
            self.current = self.current - 1;
            let c = self.current;
            self.elements.set(c, element);
            return None;
        }
        Some(element)
    }

    /// The handed-out position minus the pool size: defined only once the
    /// pool is exhausted, where it is 0.
    pub fn len(&self) -> (r: usize)
        requires
            self.well_formed(),
            self.cursor() >= self.pool().len(),
        ensures
            r == self.cursor() - self.pool().len(),
            r == 0,
    {
        self.current - self.elements.len()
    }

    /// Whether every element has been handed out.
    pub fn is_empty(&self) -> (r: bool)
        ensures
            r == (self.cursor() == self.pool().len()),
    {
        self.current == self.elements.len()
    }
}

impl<Rng: Clone> ShuffleVector<usize, Rng> {
    /// A copy with the same pool and cursor.
    pub fn duplicate(&self) -> (r: Self)
        ensures
            r.pool() == self.pool(),
            r.cursor() == self.cursor(),
            r.well_formed() == self.well_formed(),
    {
        ShuffleVector { elements: self.elements.clone(), current: self.current, rng: self.rng.clone() }
    }
}

impl<T, Rng: rand::Rng> ShuffleVector<T, Rng> {
    /// A pool of `elements`, shuffled.
    pub fn from_parts(elements: Vec<T>, rng: Rng) -> (r: Self)
        requires
            elements@.len() > 0,
        ensures
            r.well_formed(),
            r.cursor() == 0,
            r.pool().to_multiset() == elements@.to_multiset(),
            r.pool().len() == elements@.len(),
    {
        let mut ret = Self { elements, current: 0, rng };
        ret.shuffle();
        ret
    }

    /// Shuffle the elements not handed out yet.
    fn shuffle(&mut self)
        requires
            old(self).cursor() < old(self).pool().len(),
        ensures
            final(self).cursor() == old(self).cursor(),
            final(self).pool().len() == old(self).pool().len(),
            final(self).pool().to_multiset() == old(self).pool().to_multiset(),
            final(self).pool().take(old(self).cursor()) == old(self).pool().take(
                old(self).cursor(),
            ),
            shuffle_outcome(old(self).pool(), old(self).cursor(), final(self).pool()),
    {
        let start = self.current;
        shuffle(&mut self.elements, start, &mut self.rng);
    }
}

/// Putting an element back when some were handed out makes it the next
/// one handed out, and handing it out restores the cursor.
pub proof fn law_put_then_get<T>(pool: Seq<T>, cursor: int, element: T)
    requires
        0 < cursor <= pool.len(),
    ensures
        pool.update(cursor - 1, element)[cursor - 1] == element,
        pool.update(cursor - 1, element).len() == pool.len(),
{
}

} // verus!
