//! The mathematical model of a list: the sequence of its elements from head
//! to tail, and what each operation makes of that sequence.
use vstd::prelude::*;

verus! {

/// The sequence after `x` is inserted before the first element.
pub open spec fn with_head<T>(s: Seq<T>, x: T) -> Seq<T> {
    seq![x] + s
}

/// The sequence after `x` is inserted behind the last element.
pub open spec fn with_tail<T>(s: Seq<T>, x: T) -> Seq<T> {
    s.push(x)
}

/// The sequence after `x` is inserted right behind position `index`. Where
/// there is no such position the sequence stays as it is.
pub open spec fn with_after<T>(s: Seq<T>, index: int, x: T) -> Seq<T> {
    if 0 <= index < s.len() {
        s.insert(index + 1, x)
    } else {
        s
    }
}

/// The element at position `index`, if there is one.
pub open spec fn nth_of<T>(s: Seq<T>, index: int) -> Option<T> {
    if 0 <= index < s.len() {
        Some(s[index])
    } else {
        None
    }
}

/// The first element, if there is one.
pub open spec fn head_of<T>(s: Seq<T>) -> Option<T> {
    nth_of(s, 0)
}

/// The last element, if there is one.
pub open spec fn tail_of<T>(s: Seq<T>) -> Option<T> {
    nth_of(s, s.len() - 1)
}

/// The sequence without the element at position `index`. Where there is no
/// such position the sequence stays as it is.
pub open spec fn without_nth<T>(s: Seq<T>, index: int) -> Seq<T> {
    if 0 <= index < s.len() {
        s.remove(index)
    } else {
        s
    }
}

/// The sequence without its first element.
pub open spec fn without_head<T>(s: Seq<T>) -> Seq<T> {
    without_nth(s, 0)
}

/// The sequence without its last element.
pub open spec fn without_tail<T>(s: Seq<T>) -> Seq<T> {
    without_nth(s, s.len() - 1)
}

/// The elements of `s` whose position is marked in `keep`, in their order.
pub open spec fn kept<T>(s: Seq<T>, keep: Seq<bool>) -> Seq<T>
    recommends
        keep.len() == s.len(),
    decreases s.len(),
{
    if s.len() == 0 || keep.len() == 0 {
        Seq::empty()
    } else if keep.last() {
        kept(s.drop_last(), keep.drop_last()).push(s.last())
    } else {
        kept(s.drop_last(), keep.drop_last())
    }
}

/// Whether `keep` records, position by position, an answer that `judge` can
/// give on the element of `s` at that position.
pub open spec fn verdicts<T, F: Fn(&T) -> bool>(judge: F, s: Seq<T>, keep: Seq<bool>) -> bool {
    &&& keep.len() == s.len()
    &&& forall|i: int| 0 <= i < s.len() ==> call_ensures(judge, (&s[i],), #[trigger] keep[i])
}

/// Whether `out` is what is left of `s` when `judge` is asked once about
/// every element and those that it rejects are removed.
pub open spec fn filtered<T, F: Fn(&T) -> bool>(judge: F, s: Seq<T>, out: Seq<T>) -> bool {
    exists|keep: Seq<bool>| #[trigger] verdicts(judge, s, keep) && out == kept(s, keep)
}

/// Whether `compare` can answer `found` when it is asked about `value` and
/// the element of `s` at position `i`.
pub open spec fn answers<T, F: Fn(&T, &T) -> bool>(
    compare: F,
    value: T,
    s: Seq<T>,
    i: int,
    found: bool,
) -> bool {
    0 <= i < s.len() && call_ensures(compare, (&value, &s[i]), found)
}

/// Whether `compare` can accept `value` against the element of `s` at
/// position `i` after it has rejected it against every element before.
pub open spec fn first_hit<T, F: Fn(&T, &T) -> bool>(
    compare: F,
    value: T,
    s: Seq<T>,
    i: int,
) -> bool {
    &&& answers(compare, value, s, i, true)
    &&& forall|k: int| 0 <= k < i ==> #[trigger] answers(compare, value, s, k, false)
}

/// Whether `found` is what a search for `value` from the head of `s` can
/// come to: a first element that `compare` accepts, or none at all.
pub open spec fn searched<T, F: Fn(&T, &T) -> bool>(
    compare: F,
    value: T,
    s: Seq<T>,
    found: bool,
) -> bool {
    if found {
        exists|i: int| #[trigger] first_hit(compare, value, s, i)
    } else {
        forall|i: int| 0 <= i < s.len() ==> #[trigger] answers(compare, value, s, i, false)
    }
}

/// One insertion at an end of a list.
pub enum Push<T> {
    Head(T),
    Tail(T),
}

/// The sequence that the insertions `ops`, made in their order, make of `s`.
pub open spec fn pushed<T>(s: Seq<T>, ops: Seq<Push<T>>) -> Seq<T>
    decreases ops.len(),
{
    if ops.len() == 0 {
        s
    } else {
        match ops.last() {
            Push::Head(x) => with_head(pushed(s, ops.drop_last()), x),
            Push::Tail(x) => with_tail(pushed(s, ops.drop_last()), x),
        }
    }
}

/// The elements that `ops` inserts at the head, the latest first.
pub open spec fn heads<T>(ops: Seq<Push<T>>) -> Seq<T>
    decreases ops.len(),
{
    if ops.len() == 0 {
        Seq::empty()
    } else {
        match ops.last() {
            Push::Head(x) => seq![x] + heads(ops.drop_last()),
            Push::Tail(_) => heads(ops.drop_last()),
        }
    }
}

/// The elements that `ops` inserts at the tail, the earliest first.
pub open spec fn tails<T>(ops: Seq<Push<T>>) -> Seq<T>
    decreases ops.len(),
{
    if ops.len() == 0 {
        Seq::empty()
    } else {
        match ops.last() {
            Push::Head(_) => tails(ops.drop_last()),
            Push::Tail(x) => tails(ops.drop_last()).push(x),
        }
    }
}

/// The sequence that is left of `s` after `n` removals at the head.
pub open spec fn drained<T>(s: Seq<T>, n: nat) -> Seq<T>
    decreases n,
{
    if n == 0 {
        s
    } else {
        without_head(drained(s, (n - 1) as nat))
    }
}

} // verus!
