//! One slot of the arena: an element and the positions of its neighbours.
use vstd::prelude::*;

verus! {

/// A position in the arena, or nothing where a chain ends.
pub type Link = Option<usize>;

/// A slot of the arena. A vacant slot holds no element.
pub struct Node<T> {
    pub elem: Option<T>,
    pub next: Link,
    pub prev: Link,
}

impl<T> Node<T> {
    /// A node that holds `elem` and has no neighbours.
    pub fn new(elem: T) -> (node: Self)
        ensures
            node.elem == Some(elem),
            node.next.is_none(),
            node.prev.is_none(),
    {
        Node { elem: Some(elem), next: None, prev: None }
    }

    /// A node that holds `elem` between the neighbours `prev` and `next`.
    pub fn between(prev: Link, elem: T, next: Link) -> (node: Self)
        ensures
            node.elem == Some(elem),
            node.next == next,
            node.prev == prev,
    {
        let mut node = Node::new(elem);
        node.next = next;
        node.prev = prev;
        node
    }
}

} // verus!
