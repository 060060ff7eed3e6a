//! Storage for the nodes of a list: a flat vector of slots addressed by
//! position, with the vacant positions remembered for reuse.
use vstd::prelude::*;
use crate::node::{Link, Node};

verus! {

/// A growable pool of nodes. An occupied slot holds an element; a vacant one
/// holds none and waits on the free list to be handed out again.
pub struct Arena<T> {
    pub slots: Vec<Node<T>>,
    pub free: Vec<usize>,
}

impl<T> Arena<T> {
    /// Every remembered position is in range, vacant, and remembered once.
    pub open spec fn wf(&self) -> bool {
        &&& forall|j: int|
            0 <= j < self.free.len() ==> (#[trigger] self.free[j]) < self.slots.len()
                && self.slots[self.free[j] as int].elem.is_none()
        &&& forall|j: int, k: int|
            0 <= j < k < self.free.len() ==> self.free[j] != self.free[k]
    }

    /// The number of slots that are not on the free list.
    pub open spec fn in_use(&self) -> int {
        self.slots.len() - self.free.len()
    }

    /// Whether `at` is a position of this arena that holds an element.
    pub open spec fn occupied(&self, at: usize) -> bool {
        at < self.slots.len() && self.slots[at as int].elem.is_some()
    }

    /// Whether every slot but `at` is the same in `self` and in `other`.
    pub open spec fn same_but(&self, other: &Self, at: usize) -> bool {
        forall|i: int|
            0 <= i < self.slots.len() && i != at ==> i < other.slots.len()
                && #[trigger] other.slots[i] == self.slots[i]
    }

    /// An arena without slots.
    pub fn new() -> (arena: Self)
        ensures
            arena.wf(),
            arena.slots.len() == 0,
            arena.in_use() == 0,
    {
        Arena { slots: Vec::new(), free: Vec::new() }
    }

    /// Stores `node` in a slot that was vacant or new, and returns its position.
    pub fn insert(&mut self, node: Node<T>) -> (at: usize)
        requires
            old(self).wf(),
            node.elem.is_some(),
        ensures
            final(self).wf(),
            !old(self).occupied(at),
            at < final(self).slots.len(),
            final(self).slots[at as int] == node,
            old(self).same_but(final(self), at),
            old(self).slots.len() <= final(self).slots.len() <= old(self).slots.len() + 1,
            final(self).in_use() == old(self).in_use() + 1,
    {
        match self.free.pop() {
            Some(at) => {
                self.slots[at] = node;
                at
            },
            None => {
                let at = self.slots.len();
                self.slots.push(node);
                at
            },
        }
    }

    /// Takes the element out of the slot at `at` and marks the slot vacant.
    pub fn remove(&mut self, at: usize) -> (elem: T)
        requires
            old(self).wf(),
            old(self).occupied(at),
        ensures
            final(self).wf(),
            Some(elem) == old(self).slots[at as int].elem,
            !final(self).occupied(at),
            final(self).slots.len() == old(self).slots.len(),
            final(self).in_use() == old(self).in_use() - 1,
            old(self).same_but(final(self), at),
    {
        let elem = self.slots[at].elem.take();
        self.free.push(at);
        elem.unwrap()
    }

    /// Makes `next` the successor recorded in the slot at `at`.
    pub fn set_next(&mut self, at: usize, next: Link)
        requires
            old(self).wf(),
            at < old(self).slots.len(),
        ensures
            final(self).wf(),
            final(self).slots.len() == old(self).slots.len(),
            final(self).slots[at as int].elem == old(self).slots[at as int].elem,
            final(self).slots[at as int].prev == old(self).slots[at as int].prev,
            final(self).slots[at as int].next == next,
            final(self).in_use() == old(self).in_use(),
            old(self).same_but(final(self), at),
    {
        self.slots[at].next = next;
    }

    /// Makes `prev` the predecessor recorded in the slot at `at`.
    pub fn set_prev(&mut self, at: usize, prev: Link)
        requires
            old(self).wf(),
            at < old(self).slots.len(),
        ensures
            final(self).wf(),
            final(self).slots.len() == old(self).slots.len(),
            final(self).slots[at as int].elem == old(self).slots[at as int].elem,
            final(self).slots[at as int].next == old(self).slots[at as int].next,
            final(self).slots[at as int].prev == prev,
            final(self).in_use() == old(self).in_use(),
            old(self).same_but(final(self), at),
    {
        self.slots[at].prev = prev;
    }
}

} // verus!
