//! The list itself: nodes in an arena, chained in both directions by
//! position, with the head, the tail and the number of elements kept beside
//! them.
use vstd::prelude::*;
use crate::arena::Arena;
use crate::model::{
    answers, filtered, first_hit, head_of, kept, nth_of, searched, tail_of, verdicts, with_after,
    with_head, with_tail, without_head, without_nth, without_tail,
};
use crate::node::{Link, Node};

verus! {

/// A doubly linked list of elements of type `T`.
pub struct List<T> {
    arena: Arena<T>,
    head: Link,
    tail: Link,
    size: u32,
    /// The positions of the nodes in the arena, from head to tail.
    order: Ghost<Seq<usize>>,
}

/// The position that `order` holds at `i`, or nothing outside of it.
spec fn link_at(order: Seq<usize>, i: int) -> Link {
    if 0 <= i < order.len() {
        Some(order[i])
    } else {
        None
    }
}

/// The node that `order` names at `i` is occupied and records the node
/// before it and the node behind it.
spec fn linked_at<T>(arena: &Arena<T>, order: Seq<usize>, i: int) -> bool {
    &&& arena.occupied(order[i])
    &&& arena.slots[order[i] as int].next == link_at(order, i + 1)
    &&& arena.slots[order[i] as int].prev == link_at(order, i - 1)
}

/// The nodes that `order` names are pairwise distinct and form one chain.
spec fn chained<T>(arena: &Arena<T>, order: Seq<usize>) -> bool {
    &&& forall|i: int| 0 <= i < order.len() ==> #[trigger] linked_at(arena, order, i)
    &&& forall|i: int, j: int| 0 <= i < j < order.len() ==> order[i] != order[j]
}

/// How the `k`-th node of the chain stands in `now` against `then`, when the
/// first `done` nodes have been turned round: it holds the same element, and
/// its two links are swapped if it is one of those, and as they were if not.
spec fn turned_at<T>(
    then: &Arena<T>,
    now: &Arena<T>,
    order: Seq<usize>,
    k: int,
    done: int,
) -> bool {
    let was = then.slots[order[k] as int];
    let is = now.slots[order[k] as int];
    &&& is.elem == was.elem
    &&& is.next == if k < done { was.prev } else { was.next }
    &&& is.prev == if k < done { was.next } else { was.prev }
}

/// The elements held by the nodes that `order` names, in that order.
spec fn elems<T>(arena: &Arena<T>, order: Seq<usize>) -> Seq<T> {
    Seq::new(order.len(), |i: int| arena.slots[order[i] as int].elem.unwrap())
}

impl<T> View for List<T> {
    type V = Seq<T>;

    /// The elements from head to tail.
    closed spec fn view(&self) -> Seq<T> {
        elems(&self.arena, self.order@)
    }
}

impl<T> List<T> {
    /// The representation invariant: the count, the two ends and the links
    /// of the nodes agree on one chain, and no slot of the arena is in use
    /// outside of it.
    pub closed spec fn wf(&self) -> bool {
        &&& self.arena.wf()
        &&& self.arena.in_use() == self.order@.len()
        &&& self.order@.len() == self.size
        &&& self.head == link_at(self.order@, 0)
        &&& self.tail == link_at(self.order@, self.order@.len() - 1)
        &&& chained(&self.arena, self.order@)
    }

    /// An empty list.
    pub fn new() -> (list: Self)
        ensures
            list.wf(),
            list@ == Seq::<T>::empty(),
    {
        let list = List {
            arena: Arena::new(),
            head: None,
            tail: None,
            size: 0,
            order: Ghost(Seq::empty()),
        };
        assert(list@ =~= Seq::<T>::empty());
        list
    }

    /// The number of elements of a list never exceeds what its count can hold.
    pub proof fn lemma_size_fits(&self)
        requires
            self.wf(),
        ensures
            self@.len() <= u32::MAX,
    {
    }

    /// The number of elements.
    pub fn get_size(&self) -> (n: u32)
        requires
            self.wf(),
        ensures
            n == self@.len(),
    {
        self.size
    }

    /// Whether the list holds no element.
    pub fn is_empty(&self) -> (b: bool)
        requires
            self.wf(),
        ensures
            b <==> self@.len() == 0,
    {
        self.head.is_none()
    }

    /// Inserts `elem` as the new first element.
    pub fn push_head(&mut self, elem: T)
        requires
            old(self).wf(),
            old(self)@.len() < u32::MAX,
        ensures
            final(self).wf(),
            final(self)@ == with_head(old(self)@, elem),
    {
        let ghost order = self.order@;
        let ghost a0 = self.arena;
        let at = self.arena.insert(Node::between(None, elem, self.head));
        let ghost a1 = self.arena;
        match self.head {
            Some(first) => {
                assert(linked_at(&a0, order, 0));
                self.arena.set_prev(first, Some(at))
            },
            None => self.tail = Some(at),
        }
        self.head = Some(at);
        self.size += 1;
        proof {
            let grown = seq![at] + order;
            self.order@ = grown;
            assert forall|i: int| 0 <= i < grown.len() implies {
                &&& #[trigger] linked_at(&self.arena, grown, i)
                &&& i >= 1 ==> self.arena.slots[grown[i] as int].elem
                    == a0.slots[grown[i] as int].elem
            } by {
                if order.len() > 0 {
                    assert(linked_at(&a0, order, 0));
                }
                if i >= 1 {
                    let p = order[i - 1];
                    assert(linked_at(&a0, order, i - 1));
                    assert(a1.slots[p as int] == a0.slots[p as int]);
                    if i >= 2 {
                        assert(self.arena.slots[p as int] == a1.slots[p as int]);
                    }
                }
            }
            assert forall|i: int, j: int| 0 <= i < j < grown.len() implies grown[i] != grown[j] by {
                assert(linked_at(&a0, order, j - 1));
            }
            let wanted = with_head(old(self)@, elem);
            assert forall|i: int| 0 <= i < grown.len() implies #[trigger] self@[i] == wanted[i] by {
                assert(linked_at(&self.arena, grown, i));
            }
            assert(self@ =~= with_head(old(self)@, elem));
        }
    }

    /// Inserts `elem` as the new last element.
    pub fn push_tail(&mut self, elem: T)
        requires
            old(self).wf(),
            old(self)@.len() < u32::MAX,
        ensures
            final(self).wf(),
            final(self)@ == with_tail(old(self)@, elem),
    {
        let ghost order = self.order@;
        let ghost a0 = self.arena;
        let at = self.arena.insert(Node::between(self.tail, elem, None));
        let ghost a1 = self.arena;
        match self.tail {
            Some(last) => {
                assert(linked_at(&a0, order, order.len() - 1));
                self.arena.set_next(last, Some(at))
            },
            None => self.head = Some(at),
        }
        self.tail = Some(at);
        self.size += 1;
        proof {
            let grown = order.push(at);
            self.order@ = grown;
            assert forall|i: int| 0 <= i < grown.len() implies {
                &&& #[trigger] linked_at(&self.arena, grown, i)
                &&& i < order.len() ==> self.arena.slots[grown[i] as int].elem
                    == a0.slots[grown[i] as int].elem
            } by {
                if order.len() > 0 {
                    assert(linked_at(&a0, order, order.len() - 1));
                }
                if i < order.len() {
                    let p = order[i];
                    assert(linked_at(&a0, order, i));
                    assert(a1.slots[p as int] == a0.slots[p as int]);
                    if i < order.len() - 1 {
                        assert(self.arena.slots[p as int] == a1.slots[p as int]);
                    }
                }
            }
            assert forall|i: int, j: int| 0 <= i < j < grown.len() implies grown[i] != grown[j] by {
                assert(linked_at(&a0, order, i));
            }
            let wanted = with_tail(old(self)@, elem);
            assert forall|i: int| 0 <= i < grown.len() implies #[trigger] self@[i] == wanted[i] by {
                assert(linked_at(&self.arena, grown, i));
            }
            assert(self@ =~= with_tail(old(self)@, elem));
        }
    }

    /// The position in the arena of the node at `index`, found by following
    /// the chain from the head.
    fn locate(&self, index: u32) -> (at: usize)
        requires
            self.wf(),
            index < self@.len(),
        ensures
            at == self.order@[index as int],
    {
        let mut at: usize = self.head.unwrap();
        let mut i: u32 = 0;
        while i < index
            invariant
                self.wf(),
                index < self.order@.len(),
                i <= index,
                at == self.order@[i as int],
            decreases index - i,
        {
            assert(linked_at(&self.arena, self.order@, i as int));
            at = self.arena.slots[at].next.unwrap();
            i += 1;
        }
        at
    }

    /// Inserts `elem` right behind the element at `index`, counted from the
    /// head. Without an element at `index` the list stays as it is.
    pub fn push_nth(&mut self, index: u32, elem: T)
        requires
            old(self).wf(),
            index < old(self)@.len() ==> old(self)@.len() < u32::MAX,
        ensures
            final(self).wf(),
            final(self)@ == with_after(old(self)@, index as int, elem),
            index >= old(self)@.len() ==> final(self)@ == old(self)@,
    {
        if index < self.size {
            let ghost order = self.order@;
            let ghost a0 = self.arena;
            let before = self.locate(index);
            assert(linked_at(&a0, order, index as int));
            let behind = self.arena.slots[before].next;
            let at = self.arena.insert(Node::between(Some(before), elem, behind));
            let ghost a1 = self.arena;
            match behind {
                Some(b) => {
                    assert(linked_at(&a0, order, index + 1));
                    self.arena.set_prev(b, Some(at))
                },
                None => self.tail = Some(at),
            }
            let ghost a2 = self.arena;
            self.arena.set_next(before, Some(at));
            self.size += 1;
            proof {
                let grown = order.insert(index + 1, at);
                self.order@ = grown;
                assert forall|i: int| 0 <= i < grown.len() implies {
                    &&& #[trigger] linked_at(&self.arena, grown, i)
                    &&& i != index + 1 ==> self.arena.slots[grown[i] as int].elem
                        == a0.slots[grown[i] as int].elem
                } by {
                    if index + 1 < order.len() {
                        assert(linked_at(&a0, order, index + 1));
                    }
                    if i != index + 1 {
                        let j = if i <= index { i } else { i - 1 };
                        let p = order[j];
                        assert(grown[i] == p);
                        assert(linked_at(&a0, order, j));
                        assert(a1.slots[p as int] == a0.slots[p as int]);
                        if j != index + 1 {
                            assert(a2.slots[p as int] == a1.slots[p as int]);
                        }
                        if j != index {
                            assert(self.arena.slots[p as int] == a2.slots[p as int]);
                        }
                    } else {
                        assert(a2.slots[at as int] == a1.slots[at as int]);
                        assert(self.arena.slots[at as int] == a2.slots[at as int]);
                    }
                }
                assert forall|i: int, j: int| 0 <= i < j < grown.len() implies grown[i]
                    != grown[j] by {
                    let i0 = if i <= index { i } else { i - 1 };
                    let j0 = if j <= index { j } else { j - 1 };
                    assert(linked_at(&a0, order, i0));
                    assert(linked_at(&a0, order, j0));
                }
                let wanted = with_after(old(self)@, index as int, elem);
                assert forall|i: int| 0 <= i < grown.len() implies #[trigger] self@[i]
                    == wanted[i] by {
                    assert(linked_at(&self.arena, grown, i));
                }
                assert(self@ =~= with_after(old(self)@, index as int, elem));
            }
        }
    }

    /// Removes the first element and returns it, or returns nothing where
    /// the list is empty.
    pub fn pop_head(&mut self) -> (elem: Option<T>)
        requires
            old(self).wf(),
        ensures
            final(self).wf(),
            elem == head_of(old(self)@),
            final(self)@ == without_head(old(self)@),
            old(self)@.len() == 0 ==> elem.is_none() && final(self)@ == old(self)@,
    {
        match self.head {
            None => None,
            Some(at) => Some(self.unlink(at, Ghost(0))),
        }
    }

    /// Removes the last element and returns it, or returns nothing where the
    /// list is empty.
    pub fn pop_tail(&mut self) -> (elem: Option<T>)
        requires
            old(self).wf(),
        ensures
            final(self).wf(),
            elem == tail_of(old(self)@),
            final(self)@ == without_tail(old(self)@),
            old(self)@.len() == 0 ==> elem.is_none() && final(self)@ == old(self)@,
    {
        match self.tail {
            None => None,
            Some(at) => {
                assert(linked_at(&self.arena, self.order@, self.order@.len() - 1));
                Some(self.unlink(at, Ghost(self.order@.len() - 1)))
            },
        }
    }

    /// Takes the node at position `at` of the arena, the `index`-th of the
    /// chain, out of the chain and returns its element.
    fn unlink(&mut self, at: usize, Ghost(index): Ghost<int>) -> (elem: T)
        requires
            old(self).wf(),
            0 <= index < old(self)@.len(),
            at == old(self).order@[index],
        ensures
            final(self).wf(),
            elem == old(self)@[index],
            final(self)@ == old(self)@.remove(index),
    {
        let ghost order = self.order@;
        let ghost a0 = self.arena;
        assert(linked_at(&a0, order, index));
        let before = self.arena.slots[at].prev;
        let behind = self.arena.slots[at].next;
        match behind {
            Some(b) => {
                assert(linked_at(&a0, order, index + 1));
                self.arena.set_prev(b, before)
            },
            None => self.tail = before,
        }
        let ghost a1 = self.arena;
        match before {
            Some(b) => {
                assert(linked_at(&a0, order, index - 1));
                self.arena.set_next(b, behind)
            },
            None => self.head = behind,
        }
        let ghost a2 = self.arena;
        assert(a2.slots[at as int] == a1.slots[at as int]);
        assert(a1.slots[at as int] == a0.slots[at as int]);
        self.size -= 1;
        let elem = self.arena.remove(at);
        proof {
            let shrunk = order.remove(index);
            self.order@ = shrunk;
            assert forall|i: int| 0 <= i < shrunk.len() implies {
                &&& #[trigger] linked_at(&self.arena, shrunk, i)
                &&& self.arena.slots[shrunk[i] as int].elem == a0.slots[shrunk[i] as int].elem
            } by {
                let j = if i < index { i } else { i + 1 };
                let p = order[j];
                assert(shrunk[i] == p);
                assert(linked_at(&a0, order, j));
                if index + 1 < order.len() {
                    assert(linked_at(&a0, order, index + 1));
                }
                if index >= 1 {
                    assert(linked_at(&a0, order, index - 1));
                }
                assert(self.arena.slots[p as int] == a2.slots[p as int]);
                if j != index + 1 {
                    assert(a1.slots[p as int] == a0.slots[p as int]);
                }
                if j != index - 1 {
                    assert(a2.slots[p as int] == a1.slots[p as int]);
                }
            }
            let wanted = old(self)@.remove(index);
            assert forall|i: int| 0 <= i < shrunk.len() implies #[trigger] self@[i]
                == wanted[i] by {
                assert(linked_at(&self.arena, shrunk, i));
            }
            assert(self@ =~= old(self)@.remove(index));
        }
        elem
    }

    /// Removes the element at `index`, counted from the head, and returns
    /// it. Without an element at `index` it returns nothing and the list
    /// stays as it is.
    pub fn pop_nth(&mut self, index: u32) -> (elem: Option<T>)
        requires
            old(self).wf(),
        ensures
            final(self).wf(),
            elem == nth_of(old(self)@, index as int),
            final(self)@ == without_nth(old(self)@, index as int),
            index >= old(self)@.len() ==> elem.is_none() && final(self)@ == old(self)@,
    {
        if index < self.size {
            let at = self.locate(index);
            Some(self.unlink(at, Ghost(index as int)))
        } else {
            None
        }
    }

    /// The first element, if there is one.
    pub fn get_head(&self) -> (elem: Option<&T>)
        requires
            self.wf(),
        ensures
            self@.len() == 0 ==> elem.is_none(),
            self@.len() > 0 ==> elem == Some(&self@[0]),
    {
        match self.head {
            Some(at) => {
                assert(linked_at(&self.arena, self.order@, 0));
                self.arena.slots[at].elem.as_ref()
            },
            None => None,
        }
    }

    /// The last element, if there is one.
    pub fn get_tail(&self) -> (elem: Option<&T>)
        requires
            self.wf(),
        ensures
            self@.len() == 0 ==> elem.is_none(),
            self@.len() > 0 ==> elem == Some(&self@[self@.len() - 1]),
    {
        match self.tail {
            Some(at) => {
                assert(linked_at(&self.arena, self.order@, self.order@.len() - 1));
                self.arena.slots[at].elem.as_ref()
            },
            None => None,
        }
    }

    /// Reverses the order of the elements in place: every node swaps its two
    /// links, and the list swaps its two ends.
    pub fn reverse(&mut self)
        requires
            old(self).wf(),
        ensures
            final(self).wf(),
            final(self)@ == old(self)@.reverse(),
    {
        let ghost order = self.order@;
        let ghost a0 = self.arena;
        let mut cur = self.head;
        let mut i: u32 = 0;
        while i < self.size
            invariant
                self.arena.wf(),
                self.order@ == order,
                self.head == old(self).head,
                self.tail == old(self).tail,
                self.size == order.len(),
                i <= self.size,
                chained(&a0, order),
                cur == link_at(order, i as int),
                self.arena.slots.len() == a0.slots.len(),
                self.arena.in_use() == order.len(),
                forall|k: int|
                    0 <= k < order.len() ==> #[trigger] turned_at(
                        &a0,
                        &self.arena,
                        order,
                        k,
                        i as int,
                    ),
            decreases self.size - i,
        {
            let ghost a1 = self.arena;
            let at = cur.unwrap();
            assert(linked_at(&a0, order, i as int));
            assert(turned_at(&a0, &a1, order, i as int, i as int));
            let next = self.arena.slots[at].next;
            let prev = self.arena.slots[at].prev;
            self.arena.set_next(at, prev);
            let ghost a2 = self.arena;
            self.arena.set_prev(at, next);
            proof {
                let now = &self.arena;
                let done = i + 1;
                assert forall|k: int| 0 <= k < order.len() implies #[trigger] turned_at(
                    &a0,
                    now,
                    order,
                    k,
                    done,
                ) by {
                    assert(turned_at(&a0, &a1, order, k, i as int));
                    assert(linked_at(&a0, order, k));
                    if k != i {
                        let p = order[k];
                        assert(a2.slots[p as int] == a1.slots[p as int]);
                        assert(self.arena.slots[p as int] == a2.slots[p as int]);
                    }
                }
            }
            cur = next;
            i += 1;
        }
        let first = self.head;
        self.head = self.tail;
        self.tail = first;
        proof {
            let turned = order.reverse();
            self.order@ = turned;
            let now = &self.arena;
            assert forall|k: int| 0 <= k < turned.len() implies #[trigger] linked_at(
                now,
                turned,
                k,
            ) by {
                let j = order.len() - 1 - k;
                assert(turned[k] == order[j]);
                assert(linked_at(&a0, order, j));
                assert(turned_at(&a0, &self.arena, order, j, order.len() as int));
            }
            let wanted = old(self)@.reverse();
            assert forall|k: int| 0 <= k < turned.len() implies #[trigger] self@[k]
                == wanted[k] by {
                let j = order.len() - 1 - k;
                assert(turned_at(&a0, &self.arena, order, j, order.len() as int));
            }
            assert(self@ =~= old(self)@.reverse());
        }
    }

    /// Moves every element into a new list, in reverse order, and leaves
    /// this list empty.
    pub fn into_reversed(&mut self) -> (reversed: List<T>)
        requires
            old(self).wf(),
        ensures
            final(self).wf(),
            final(self)@ == Seq::<T>::empty(),
            reversed.wf(),
            reversed@ == old(self)@.reverse(),
    {
        let ghost initial = self@;
        let mut reversed = List::new();
        let n = self.size;
        let mut i: u32 = 0;
        while i < n
            invariant
                self.wf(),
                reversed.wf(),
                i <= n == initial.len(),
                self@ == initial.skip(i as int),
                reversed@ == initial.take(i as int).reverse(),
            decreases n - i,
        {
            let elem = self.pop_head().unwrap();
            reversed.push_head(elem);
            i += 1;
            assert(self@ =~= initial.skip(i as int));
            assert(reversed@ =~= initial.take(i as int).reverse());
        }
        assert(self@ =~= Seq::<T>::empty());
        assert(initial.take(n as int) =~= initial);
        reversed
    }

    /// Keeps the elements that `filter_item` accepts, in their order, and
    /// removes the others. Every element is shown to `filter_item` once, from
    /// head to tail.
    pub fn filter<F: Fn(&T) -> bool>(&mut self, filter_item: F)
        requires
            old(self).wf(),
            forall|i: int|
                0 <= i < old(self)@.len() ==> call_requires(
                    filter_item,
                    (&#[trigger] old(self)@[i],),
                ),
        ensures
            final(self).wf(),
            filtered(filter_item, old(self)@, final(self)@),
    {
        let ghost initial = self@;
        let ghost mut keep: Seq<bool> = Seq::empty();
        let n = self.size;
        let mut i: u32 = 0;
        while i < n
            invariant
                self.wf(),
                i <= n == initial.len(),
                forall|j: int|
                    0 <= j < initial.len() ==> call_requires(
                        filter_item,
                        (&#[trigger] initial[j],),
                    ),
                verdicts(filter_item, initial.take(i as int), keep),
                self@ == initial.skip(i as int) + kept(initial.take(i as int), keep),
                kept(initial.take(i as int), keep).len() <= i,
            decreases n - i,
        {
            let ghost passed = kept(initial.take(i as int), keep);
            let elem = self.pop_head().unwrap();
            assert(elem == initial[i as int]);
            let verdict = filter_item(&elem);
            if verdict {
                self.push_tail(elem);
            }
            proof {
                let longer = keep.push(verdict);
                assert(initial.take(i + 1).drop_last() =~= initial.take(i as int));
                assert(longer.drop_last() =~= keep);
                assert(self@ =~= initial.skip(i + 1) + kept(initial.take(i + 1), longer));
                keep = longer;
            }
            i += 1;
        }
        assert(initial.take(n as int) =~= initial);
        assert(self@ =~= kept(initial, keep));
        assert(verdicts(filter_item, initial, keep));
    }

    /// Whether `compare` accepts `value` against some element. The elements
    /// are tried from head to tail, up to the first that it accepts.
    pub fn is_value_exist<F: Fn(&T, &T) -> bool>(&self, value: T, compare: F) -> (found: bool)
        requires
            self.wf(),
            forall|i: int|
                0 <= i < self@.len() ==> call_requires(compare, (&value, &#[trigger] self@[i])),
        ensures
            searched(compare, value, self@, found),
            self@.len() == 0 ==> !found,
    {
        let mut cur = self.head;
        let mut i: u32 = 0;
        while i < self.size
            invariant
                self.wf(),
                i <= self.size,
                cur == link_at(self.order@, i as int),
                forall|k: int|
                    0 <= k < self@.len() ==> call_requires(compare, (&value, &#[trigger] self@[k])),
                forall|k: int| 0 <= k < i ==> #[trigger] answers(compare, value, self@, k, false),
            decreases self.size - i,
        {
            let at = cur.unwrap();
            assert(linked_at(&self.arena, self.order@, i as int));
            let elem = self.arena.slots[at].elem.as_ref().unwrap();
            assert(*elem == self@[i as int]);
            if compare(&value, elem) {
                assert(first_hit(compare, value, self@, i as int));
                return true;
            }
            cur = self.arena.slots[at].next;
            i += 1;
        }
        false
    }

    /// Shows every element to `print_item`, from head to tail.
    pub fn print<F: Fn(&T)>(&self, print_item: F)
        requires
            self.wf(),
            forall|i: int|
                0 <= i < self@.len() ==> call_requires(print_item, (&#[trigger] self@[i],)),
        ensures
            forall|i: int|
                0 <= i < self@.len() ==> call_ensures(print_item, (&#[trigger] self@[i],), ()),
    {
        let mut cur = self.head;
        let mut i: u32 = 0;
        while i < self.size
            invariant
                self.wf(),
                i <= self.size,
                cur == link_at(self.order@, i as int),
                forall|k: int|
                    0 <= k < self@.len() ==> call_requires(print_item, (&#[trigger] self@[k],)),
                forall|k: int|
                    0 <= k < i ==> call_ensures(print_item, (&#[trigger] self@[k],), ()),
            decreases self.size - i,
        {
            let at = cur.unwrap();
            assert(linked_at(&self.arena, self.order@, i as int));
            let elem = self.arena.slots[at].elem.as_ref().unwrap();
            assert(*elem == self@[i as int]);
            print_item(elem);
            cur = self.arena.slots[at].next;
            i += 1;
        }
    }
}

} // verus!
