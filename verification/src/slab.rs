//! A slab of equally sized elements: a fixed number of slots, each empty
//! or holding one element.
use vstd::prelude::*;

verus! {

/// A fixed number of slots.
pub struct Slab<T> {
    slots: Vec<Option<T>>,
    pub capacity: usize,
}

impl<T> Slab<T> {
    /// The slots, in order.
    pub closed spec fn contents(&self) -> Seq<Option<T>> {
        self.slots@
    }

    /// The number of slots: the value of the public field `capacity`. (A
    /// public contract cannot name that field directly, since the struct
    /// also has a private one.)
    pub closed spec fn slot_count(&self) -> usize {
        self.capacity
    }

    /// As many slots as the capacity.
    pub open spec fn well_formed(&self) -> bool {
        self.contents().len() == self.slot_count()
    }

    /// A slab of `size` empty slots, placed at address `start` by the memory
    /// source; none when the source had no memory (`start` is 0).
    pub fn try_allocate(size: usize, start: usize) -> (r: Option<Self>)
        ensures
            start == 0 <==> r is None,
            r matches Some(s) ==> {
                &&& s.well_formed()
                &&& s.slot_count() == size
                &&& forall|i: int| 0 <= i < size ==> #[trigger] s.contents()[i] is None
            },
    {
        if start == 0 {
            return None;
        }
        let mut slots: Vec<Option<T>> = Vec::new();
        let mut i: usize = 0;
        while i < size
            invariant
                i <= size,
                slots@.len() == i,
                forall|k: int| 0 <= k < i ==> #[trigger] slots@[k] is None,
            decreases size - i,
        {
            slots.push(None);
            i = i + 1;
        }
        Some(Self { slots, capacity: size })
    }

    /// The element in slot `index`; none past the end or for an empty slot.
    pub fn get(&self, index: usize) -> (r: Option<&T>)
        requires
            self.well_formed(),
        ensures
            index >= self.slot_count() ==> r is None,
            index < self.slot_count() ==> r == match self.contents()[index as int] {
                Some(v) => Some(&v),
                None => None::<&T>,
            },
    {
        if self.capacity <= index {
            return None;
        }
        self.slots[index].as_ref()
    }

    /// The element in slot `index`, to change in place; none past the end
    /// or for an empty slot.
    pub fn get_mut(&mut self, index: usize) -> (r: Option<&mut T>)
        requires
            old(self).well_formed(),
        ensures
            final(self).slot_count() == old(self).slot_count(),
            index >= old(self).slot_count() ==> r is None && final(self).contents() == old(
                self,
            ).contents(),
            index < old(self).slot_count() && old(self).contents()[index as int] is None ==> r is None
                && final(self).contents() == old(self).contents(),
            index < old(self).slot_count() && old(self).contents()[index as int] is Some ==> {
                &&& r matches Some(x) && *x == old(self).contents()[index as int]->0
                &&& final(self).contents() == old(self).contents().update(
                    index as int,
                    Some(*final(r->0)),
                )
            },
    {
        if self.capacity <= index {
            return None;
        }
        match &mut self.slots[index] {
            Some(v) => Some(v),
            None => None,
        }
    }

    /// Store `value` in slot `index`; none past the end.
    pub fn set(&mut self, index: usize, value: T) -> (r: Option<()>)
        requires
            old(self).well_formed(),
        ensures
            final(self).well_formed(),
            final(self).slot_count() == old(self).slot_count(),
            index >= old(self).slot_count() ==> r is None && final(self).contents() == old(
                self,
            ).contents(),
            index < old(self).slot_count() ==> r is Some && final(self).contents() == old(
                self,
            ).contents().update(index as int, Some(value)),
    {
        if self.capacity <= index {
            return None;
        }
        self.slots.set(index, Some(value));
        Some(())
    }
}

/// A value stored in a slot is what the slot then holds: when `set(index,
/// value)` on `before` returned `Some` and gave `after` (as its contract
/// describes it), `get(index)` on `after` gives the value, the other slots
/// read as before. (Every index past the end reads as none: `get` says so.)
pub proof fn law_set_then_get<T>(before: Slab<T>, after: Slab<T>, index: int, value: T, other: int)
    requires
        before.well_formed(),
        0 <= index < before.slot_count(),
        after.slot_count() == before.slot_count(),
        after.contents() == before.contents().update(index, Some(value)),
    ensures
        after.well_formed(),
        after.contents()[index] == Some(value),
        0 <= other < after.slot_count() && other != index ==> after.contents()[other]
            == before.contents()[other],
{
}

} // verus!
