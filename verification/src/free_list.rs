//! The slot arena: a dense, recyclable collection addressed by small integers.
//!
//! The occupied slots are always exactly `0 .. len`. Removing an item moves
//! the item of the highest slot into the freed one, so whoever refers to that
//! item by its slot has to follow it.

use vstd::prelude::*;

verus! {

/// The number of a slot in a [`FreeList`].
#[derive(Clone, Copy, Debug, PartialEq, Eq, Structural)]
pub struct FreeListIndex(pub u32);

/// A dense arena of items. Its view is the sequence of its items by slot.
pub struct FreeList<T> {
    prefix: Vec<u8>,
    elements: Vec<T>,
    dirty: bool,
}

impl<T> View for FreeList<T> {
    type V = Seq<T>;

    closed spec fn view(&self) -> Seq<T> {
        self.elements@
    }
}

impl<T> FreeList<T> {
    /// The arena never holds more items than a `u32` can count.
    pub open spec fn wf(&self) -> bool {
        self@.len() <= u32::MAX
    }

    /// The storage namespace the arena was created for.
    pub closed spec fn namespace(&self) -> Seq<u8> {
        self.prefix@
    }

    /// Whether the arena has changed since it was last flushed.
    pub closed spec fn pending(&self) -> bool {
        self.dirty
    }

    /// An empty arena for the namespace `prefix`.
    pub fn new(prefix: Vec<u8>) -> (list: Self)
        ensures
            list.wf(),
            list@ == Seq::<T>::empty(),
            list.namespace() == prefix@,
            !list.pending(),
    {
        FreeList { prefix, elements: Vec::new(), dirty: false }
    }

    /// The namespace the arena was created for.
    pub fn prefix(&self) -> (p: &Vec<u8>)
        ensures
            p@ == self.namespace(),
    {
        &self.prefix
    }

    /// Whether anything has changed since the last flush.
    pub fn is_dirty(&self) -> (d: bool)
        ensures
            d == self.pending(),
    {
        self.dirty
    }

    /// The number of occupied slots.
    pub fn len(&self) -> (n: u32)
        requires
            self.wf(),
        ensures
            n == self@.len(),
    {
        self.elements.len() as u32
    }

    /// Whether no slot is occupied.
    pub fn is_empty(&self) -> (b: bool)
        ensures
            b == (self@.len() == 0),
    {
        self.elements.len() == 0
    }

    /// The item in slot `id`, or nothing if that slot is not occupied.
    pub fn get(&self, id: FreeListIndex) -> (item: Option<&T>)
        ensures
            item == (if id.0 < self@.len() {
                Some(&self@[id.0 as int])
            } else {
                None
            }),
    {
        let i = id.0 as usize;
        if i < self.elements.len() {
            Some(&self.elements[i])
        } else {
            None
        }
    }

    /// The item in slot `id`, open to change, or nothing if that slot is not
    /// occupied. The arena afterwards differs in that one slot only.
    pub fn get_mut(&mut self, id: FreeListIndex) -> (item: Option<&mut T>)
        ensures
            final(self).wf() == old(self).wf(),
            final(self).namespace() == old(self).namespace(),
            match item {
                Some(r) => id.0 < old(self)@.len() && *r == old(self)@[id.0 as int] && final(self)@
                    == old(self)@.update(id.0 as int, *final(r)) && final(self).pending(),
                None => id.0 >= old(self)@.len() && final(self)@ == old(self)@ && final(self).pending() == old(self).pending(),
            },
    {
        let i = id.0 as usize;
        if i < self.elements.len() {
            self.dirty = true;
            Some(&mut self.elements[i])
        } else {
            None
        }
    }

    /// Stores `item` in the lowest free slot, which is the slot `len`, and
    /// returns that slot.
    pub fn insert(&mut self, item: T) -> (id: FreeListIndex)
        requires
            old(self).wf(),
            old(self)@.len() < u32::MAX,
        ensures
            final(self).wf(),
            id.0 == old(self)@.len(),
            final(self)@ == old(self)@.push(item),
            final(self).namespace() == old(self).namespace(),
            final(self).pending(),
    {
        let id = FreeListIndex(self.elements.len() as u32);
        self.elements.push(item);
        self.dirty = true;
        id
    }

    /// Vacates slot `id` and returns its item. The item of the highest slot
    /// moves into `id` and the arena shrinks by one. Nothing happens if `id`
    /// is not occupied.
    pub fn remove(&mut self, id: FreeListIndex) -> (item: Option<T>)
        requires
            old(self).wf(),
        ensures
            final(self).wf(),
            final(self).namespace() == old(self).namespace(),
            id.0 < old(self)@.len() ==> item == Some(old(self)@[id.0 as int]) && final(self)@
                == old(self)@.update(id.0 as int, old(self)@.last()).drop_last() && final(self).pending(),
            id.0 >= old(self)@.len() ==> item.is_none() && final(self)@ == old(self)@ && final(self).pending() == old(self).pending(),
    {
        let i = id.0 as usize;
        if i < self.elements.len() {
            self.dirty = true;
            Some(self.elements.swap_remove(i))
        } else {
            None
        }
    }

    /// Empties the arena and returns what it held, in slot order.
    pub fn drain(&mut self) -> (items: Vec<T>)
        ensures
            final(self).wf(),
            final(self)@ == Seq::<T>::empty(),
            items@ == old(self)@,
            final(self).namespace() == old(self).namespace(),
            final(self).pending(),
    {
        let mut items = Vec::new();
        std::mem::swap(&mut items, &mut self.elements);
        self.dirty = true;
        items
    }

    /// Marks everything changed so far as written back. The items stay.
    pub fn flush(&mut self)
        ensures
            final(self)@ == old(self)@,
            final(self).wf() == old(self).wf(),
            final(self).namespace() == old(self).namespace(),
            !final(self).pending(),
    {
        self.dirty = false;
    }
}

} // verus!
