//! What holds of the list's operations taken together, stated over the
//! sequences that their contracts speak of.
use vstd::prelude::*;
use crate::model::{
    answers, drained, filtered, first_hit, head_of, heads, kept, pushed, searched, tails,
    verdicts, with_head, without_head, Push,
};

verus! {

/// Insertions at the two ends add one element each. What was inserted at
/// the head comes first, the latest insertion foremost; then what was there
/// before; then what was inserted at the tail, in the order of insertion.
pub proof fn lemma_pushes<T>(s: Seq<T>, ops: Seq<Push<T>>)
    ensures
        pushed(s, ops).len() == s.len() + ops.len(),
        pushed(s, ops) == heads(ops) + s + tails(ops),
        heads(ops).len() + tails(ops).len() == ops.len(),
    decreases ops.len(),
{
    if ops.len() == 0 {
        assert(pushed(s, ops) =~= heads(ops) + s + tails(ops));
    } else {
        lemma_pushes(s, ops.drop_last());
        assert(pushed(s, ops) =~= heads(ops) + s + tails(ops));
    }
}

/// A list that is filled from nothing by insertions at its two ends holds as
/// many elements as there were insertions.
pub proof fn lemma_pushes_from_empty<T>(ops: Seq<Push<T>>)
    ensures
        pushed(Seq::<T>::empty(), ops).len() == ops.len(),
        pushed(Seq::<T>::empty(), ops) == heads(ops) + tails(ops),
{
    lemma_pushes(Seq::<T>::empty(), ops);
    assert(heads(ops) + Seq::<T>::empty() + tails(ops) =~= heads(ops) + tails(ops));
}

/// A removal at the head right after an insertion at the head gives back
/// the inserted element and the list as it was before. The list is then
/// empty exactly if it held one element in between.
pub proof fn lemma_push_head_pop_head<T>(s: Seq<T>, x: T)
    ensures
        head_of(with_head(s, x)) == Some(x),
        without_head(with_head(s, x)) == s,
        without_head(with_head(s, x)).len() == 0 <==> with_head(s, x).len() == 1,
{
    assert(without_head(with_head(s, x)) =~= s);
}

/// Reversing twice gives back the sequence, and reversing keeps the length.
pub proof fn lemma_reverse_twice<T>(s: Seq<T>)
    ensures
        s.reverse().reverse() == s,
        s.reverse().len() == s.len(),
        s.len() == 0 ==> s.reverse() == s,
{
    assert(s.reverse().reverse() =~= s);
    if s.len() == 0 {
        assert(s.reverse() =~= s);
    }
}

/// Filtering with a predicate that accepts no element leaves nothing.
pub proof fn lemma_filter_rejecting_all<T, F: Fn(&T) -> bool>(judge: F, s: Seq<T>, out: Seq<T>)
    requires
        filtered(judge, s, out),
        forall|i: int| 0 <= i < s.len() ==> !call_ensures(judge, (&#[trigger] s[i],), true),
    ensures
        out == Seq::<T>::empty(),
{
    let keep = choose|keep: Seq<bool>| #[trigger] verdicts(judge, s, keep) && out == kept(s, keep);
    assert forall|i: int| 0 <= i < s.len() implies !#[trigger] keep[i] by {
        assert(call_ensures(judge, (&s[i],), keep[i]));
    }
    lemma_kept_none(s, keep);
}

/// Filtering with a predicate that accepts every element changes nothing.
pub proof fn lemma_filter_accepting_all<T, F: Fn(&T) -> bool>(judge: F, s: Seq<T>, out: Seq<T>)
    requires
        filtered(judge, s, out),
        forall|i: int| 0 <= i < s.len() ==> !call_ensures(judge, (&#[trigger] s[i],), false),
    ensures
        out == s,
{
    let keep = choose|keep: Seq<bool>| #[trigger] verdicts(judge, s, keep) && out == kept(s, keep);
    assert forall|i: int| 0 <= i < s.len() implies #[trigger] keep[i] by {
        assert(call_ensures(judge, (&s[i],), keep[i]));
    }
    lemma_kept_every(s, keep);
}

/// Filtering with a predicate that answers as `accepts` does keeps exactly
/// the elements that `accepts` holds of, in the order that they had.
pub proof fn lemma_filter_by<T, F: Fn(&T) -> bool>(
    judge: F,
    accepts: spec_fn(T) -> bool,
    s: Seq<T>,
    out: Seq<T>,
)
    requires
        filtered(judge, s, out),
        forall|i: int, b: bool|
            0 <= i < s.len() && call_ensures(judge, (&#[trigger] s[i],), b) ==> b == accepts(s[i]),
    ensures
        out == s.filter(accepts),
{
    let keep = choose|keep: Seq<bool>| #[trigger] verdicts(judge, s, keep) && out == kept(s, keep);
    assert forall|i: int| 0 <= i < s.len() implies #[trigger] keep[i] == accepts(s[i]) by {
        assert(call_ensures(judge, (&s[i],), keep[i]));
    }
    lemma_kept_by(s, keep, accepts);
}

/// With no position marked nothing is kept.
pub proof fn lemma_kept_none<T>(s: Seq<T>, keep: Seq<bool>)
    requires
        keep.len() == s.len(),
        forall|i: int| 0 <= i < s.len() ==> !#[trigger] keep[i],
    ensures
        kept(s, keep) == Seq::<T>::empty(),
    decreases s.len(),
{
    if s.len() > 0 {
        lemma_kept_none(s.drop_last(), keep.drop_last());
    }
}

/// With every position marked everything is kept.
pub proof fn lemma_kept_every<T>(s: Seq<T>, keep: Seq<bool>)
    requires
        keep.len() == s.len(),
        forall|i: int| 0 <= i < s.len() ==> #[trigger] keep[i],
    ensures
        kept(s, keep) == s,
    decreases s.len(),
{
    if s.len() > 0 {
        lemma_kept_every(s.drop_last(), keep.drop_last());
        assert(s.drop_last().push(s.last()) =~= s);
    } else {
        assert(kept(s, keep) =~= s);
    }
}

/// With the positions marked whose element `accepts` holds of, what is kept
/// is the sequence filtered by `accepts`.
pub proof fn lemma_kept_by<T>(s: Seq<T>, keep: Seq<bool>, accepts: spec_fn(T) -> bool)
    requires
        keep.len() == s.len(),
        forall|i: int| 0 <= i < s.len() ==> #[trigger] keep[i] == accepts(s[i]),
    ensures
        kept(s, keep) == s.filter(accepts),
    decreases s.len(),
{
    reveal(Seq::filter);
    if s.len() > 0 {
        lemma_kept_by(s.drop_last(), keep.drop_last(), accepts);
    }
}

/// A search with a comparison that answers as `same` does finds the value
/// exactly if `same` holds of it and some element. In an empty list it finds
/// nothing.
pub proof fn lemma_search_by<T, F: Fn(&T, &T) -> bool>(
    compare: F,
    same: spec_fn(T, T) -> bool,
    value: T,
    s: Seq<T>,
    found: bool,
)
    requires
        searched(compare, value, s, found),
        forall|i: int, b: bool| #[trigger]
            answers(compare, value, s, i, b) ==> b == same(value, s[i]),
    ensures
        found <==> exists|i: int| 0 <= i < s.len() && same(value, #[trigger] s[i]),
        s.len() == 0 ==> !found,
{
    if found {
        let i = choose|i: int| #[trigger] first_hit(compare, value, s, i);
        assert(answers(compare, value, s, i, true));
        assert(same(value, s[i]));
    } else {
        assert forall|i: int| 0 <= i < s.len() implies !same(value, #[trigger] s[i]) by {
            assert(answers(compare, value, s, i, false));
        }
    }
}

/// Removals at the head, as many as there are elements or more, leave the
/// list empty, and one more finds nothing to remove and changes nothing.
pub proof fn lemma_drained<T>(s: Seq<T>, n: nat)
    requires
        n >= s.len(),
    ensures
        drained(s, n) == Seq::<T>::empty(),
        head_of(drained(s, n)).is_none(),
        without_head(drained(s, n)) == drained(s, n),
{
    lemma_drained_skip(s, n);
    assert(s.skip(s.len() as int) =~= Seq::<T>::empty());
}

/// Removals at the head take the elements from the front, one each, as long
/// as there are any.
pub proof fn lemma_drained_skip<T>(s: Seq<T>, n: nat)
    ensures
        drained(s, n) == s.skip(if n <= s.len() { n as int } else { s.len() as int }),
    decreases n,
{
    if n == 0 {
        assert(s.skip(0) =~= s);
    } else {
        lemma_drained_skip(s, (n - 1) as nat);
        let m = if n <= s.len() { n as int } else { s.len() as int };
        assert(drained(s, n) =~= s.skip(m));
    }
}

} // verus!
