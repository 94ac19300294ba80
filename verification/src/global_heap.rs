//! Epoch counter and statistics of the global heap.
use vstd::prelude::*;

verus! {

/// A counter that is odd while a mesh is in progress.
pub struct EpochLock(usize);

impl EpochLock {
    /// The counter.
    pub closed spec fn epoch(&self) -> usize {
        self.0
    }

    /// A counter at epoch 0 (unlocked).
    pub fn new() -> (r: Self)
        ensures
            r.epoch() == 0,
    {
        EpochLock(0)
    }

    /// The current epoch.
    pub fn current(&self) -> (r: usize)
        ensures
            r == self.epoch(),
    {
        self.0
    }

    /// Whether no epoch has passed since `start_epoch`.
    pub fn is_same(&self, start_epoch: usize) -> (r: bool)
        ensures
            r == (self.epoch() == start_epoch),
    {
        self.current() == start_epoch
    }

    /// Enter a mesh: the epoch must be even and becomes odd.
    pub fn lock(&mut self)
        requires
            old(self).epoch() % 2 == 0,
        ensures
            final(self).epoch() == old(self).epoch() + 1,
    {
        let old = self.0;
        self.0 = old + 1;
    }

    /// Leave a mesh: the epoch must be odd and becomes even (wrapping).
    pub fn unlock(&mut self)
        requires
            old(self).epoch() % 2 == 1,
        ensures
            final(self).epoch() == if old(self).epoch() == usize::MAX {
                0
            } else {
                (old(self).epoch() + 1) as usize
            },
    {
        let old = self.0;
        self.0 = old.wrapping_add(1);
    }
}

/// Counters kept by the global heap.
pub struct GlobalHeapStats {
    pub mesh_count: usize,
    pub mh_free_count: usize,
    pub mh_alloc_count: usize,
    pub mh_high_water_mark: usize,
}

impl Default for GlobalHeapStats {
    fn default() -> (r: Self)
        ensures
            r.mesh_count == 0,
            r.mh_free_count == 0,
            r.mh_alloc_count == 0,
            r.mh_high_water_mark == 0,
    {
        GlobalHeapStats { mesh_count: 0, mh_free_count: 0, mh_alloc_count: 0, mh_high_water_mark: 0 }
    }
}

/// The global heap's per-class miniheap lists.
pub struct GlobalHeapLists {}

/// Locking then unlocking an unlocked epoch lock leaves it unlocked, at an
/// epoch that differs from the start unless the counter wrapped to it.
pub proof fn law_lock_then_unlock(epoch: usize)
    requires
        epoch % 2 == 0,
    ensures
        (epoch + 1) % 2 == 1,
        epoch + 1 <= usize::MAX,
        ({
            let after = if epoch + 1 == usize::MAX {
                0
            } else {
                epoch + 2
            };
            &&& after % 2 == 0
            &&& after != epoch
        }),
{
}

} // verus!
