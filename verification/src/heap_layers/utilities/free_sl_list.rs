//! A last-in first-out list of free elements, with the allocator that
//! stands behind them.
use vstd::prelude::*;

verus! {

/// One element taken off a free list.
pub struct Node<T> {
    element: T,
}

impl<T> Node<T> {
    /// The element the node carries.
    pub closed spec fn value(&self) -> T {
        self.element
    }

    /// A node carrying `v`.
    pub fn new(v: T) -> (r: Self)
        ensures
            r.value() == v,
    {
        Self { element: v }
    }

    /// The element of `boxed`.
    pub fn into_element(boxed: Self) -> (r: T)
        ensures
            r == boxed.value(),
    {
        boxed.element
    }
}

/// A singly linked list of free elements: the last inserted is the first
/// taken out.
pub struct FreeSLList<T, A> {
    pub items: Vec<T>,
    pub alloc: A,
}

impl<T, A> FreeSLList<T, A> {
    /// The elements, oldest first: the last one is taken out next.
    pub open spec fn contents(&self) -> Seq<T> {
        self.items@
    }

    /// An empty list over `alloc`.
    pub fn new(alloc: A) -> (r: Self)
        ensures
            r.contents() == Seq::<T>::empty(),
            r.alloc == alloc,
    {
        Self { items: Vec::new(), alloc }
    }

    /// Forget every element.
    pub fn clear(&mut self)
        ensures
            final(self).contents() == Seq::<T>::empty(),
            final(self).alloc == old(self).alloc,
    {
        self.items.clear();
    }

    /// Take out the last element inserted; none when the list is empty.
    pub fn get(&mut self) -> (r: Option<Node<T>>)
        ensures
            final(self).alloc == old(self).alloc,
            old(self).contents().len() > 0 ==> {
                &&& r matches Some(n) && n.value() == old(self).contents().last()
                &&& final(self).contents() == old(self).contents().drop_last()
            },
            old(self).contents().len() == 0 ==> r is None && final(self).contents() == old(
                self,
            ).contents(),
    {
        match self.items.pop() {
            Some(element) => Some(Node::new(element)),
            None => None,
        }
    }

    /// Take out the last element inserted, as `get` does.
    pub fn remove(&mut self) -> (r: Option<Node<T>>)
        ensures
            final(self).alloc == old(self).alloc,
            old(self).contents().len() > 0 ==> {
                &&& r matches Some(n) && n.value() == old(self).contents().last()
                &&& final(self).contents() == old(self).contents().drop_last()
            },
            old(self).contents().len() == 0 ==> r is None && final(self).contents() == old(
                self,
            ).contents(),
    {
        self.get()
    }

    /// Put `elt` on the list: it is the next taken out.
    pub fn insert(&mut self, elt: T)
        ensures
            final(self).alloc == old(self).alloc,
            final(self).contents() == old(self).contents().push(elt),
    {
        self.items.push(elt);
    }
}

/// The element inserted last is the next taken out, and taking it out
/// restores the list.
pub proof fn law_insert_then_get<T>(contents: Seq<T>, elt: T)
    ensures
        contents.push(elt).len() > 0,
        contents.push(elt).last() == elt,
        contents.push(elt).drop_last() == contents,
{
    assert(contents.push(elt).drop_last() =~= contents);
}

} // verus!
