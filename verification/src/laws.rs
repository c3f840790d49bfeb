//! What holds of every session with a paragraph iterator.
//!
//! A call of `next` hands out the first of the paragraphs that remain and a
//! call of `next_back` the last; either returns `None` and changes nothing when
//! none remains. A session is a sequence of such calls, written as a sequence
//! of directions: `true` for `next`, `false` for `next_back`.

use vstd::prelude::*;

verus! {

/// What the calls of `next` among `calls` hand out, in the order of the calls,
/// when `items` remain at the start.
pub open spec fn taken_front<T>(items: Seq<T>, calls: Seq<bool>) -> Seq<T>
    decreases calls.len(),
{
    if calls.len() == 0 || items.len() == 0 {
        Seq::empty()
    } else if calls[0] {
        seq![items.first()] + taken_front(items.drop_first(), calls.drop_first())
    } else {
        taken_front(items.drop_last(), calls.drop_first())
    }
}

/// What the calls of `next_back` among `calls` hand out, in the order of the
/// calls, when `items` remain at the start.
pub open spec fn taken_back<T>(items: Seq<T>, calls: Seq<bool>) -> Seq<T>
    decreases calls.len(),
{
    if calls.len() == 0 || items.len() == 0 {
        Seq::empty()
    } else if calls[0] {
        taken_back(items.drop_first(), calls.drop_first())
    } else {
        seq![items.last()] + taken_back(items.drop_last(), calls.drop_first())
    }
}

/// What remains after `calls`, when `items` remain at the start.
pub open spec fn left<T>(items: Seq<T>, calls: Seq<bool>) -> Seq<T>
    decreases calls.len(),
{
    if calls.len() == 0 || items.len() == 0 {
        items
    } else if calls[0] {
        left(items.drop_first(), calls.drop_first())
    } else {
        left(items.drop_last(), calls.drop_first())
    }
}

/// Whatever the order of the calls, nothing is lost, repeated or reordered:
/// what came from the front, what is left, and what came from the back in
/// reverse make up the paragraphs that remained at the start.
pub proof fn law_interleaving_partitions<T>(items: Seq<T>, calls: Seq<bool>)
    ensures
        taken_front(items, calls) + left(items, calls) + taken_back(items, calls).reverse()
            == items,
        left(items, calls).len() == if calls.len() >= items.len() {
            0
        } else {
            items.len() - calls.len()
        },
    decreases calls.len(),
{
    let all = taken_front(items, calls) + left(items, calls) + taken_back(items, calls).reverse();
    if calls.len() == 0 || items.len() == 0 {
        assert(taken_back(items, calls).reverse() =~= Seq::<T>::empty());
        assert(all =~= items);
    } else if calls[0] {
        let rest = items.drop_first();
        law_interleaving_partitions(rest, calls.drop_first());
        let inner = taken_front(rest, calls.drop_first()) + left(rest, calls.drop_first())
            + taken_back(rest, calls.drop_first()).reverse();
        assert(all =~= seq![items.first()] + inner);
        assert(all =~= items);
    } else {
        let rest = items.drop_last();
        law_interleaving_partitions(rest, calls.drop_first());
        let backs = taken_back(rest, calls.drop_first());
        let inner = taken_front(rest, calls.drop_first()) + left(rest, calls.drop_first())
            + backs.reverse();
        assert((seq![items.last()] + backs).reverse() =~= backs.reverse().push(items.last()));
        assert(all =~= inner.push(items.last()));
        assert(all =~= items);
    }
}

/// With at least as many calls as paragraphs, in any order, the paragraphs
/// from the front followed by those from the back in reverse are all the
/// paragraphs, in order.
pub proof fn law_interleaving_complete<T>(items: Seq<T>, calls: Seq<bool>)
    requires
        calls.len() >= items.len(),
    ensures
        taken_front(items, calls) + taken_back(items, calls).reverse() == items,
{
    law_interleaving_partitions(items, calls);
    assert(left(items, calls) =~= Seq::<T>::empty());
    assert(taken_front(items, calls) + left(items, calls) =~= taken_front(items, calls));
}

/// Going forward until nothing is left gives the paragraphs in order, and
/// going backward until nothing is left gives them in reverse order.
pub proof fn law_forward_is_reversed_backward<T>(items: Seq<T>, calls: Seq<bool>)
    requires
        calls.len() >= items.len(),
    ensures
        (forall|i: int| 0 <= i < calls.len() ==> calls[i]) ==> taken_front(items, calls)
            == items,
        (forall|i: int| 0 <= i < calls.len() ==> !calls[i]) ==> taken_back(
            items,
            calls,
        ).reverse() == items,
{
    law_interleaving_complete(items, calls);
    if forall|i: int| 0 <= i < calls.len() ==> calls[i] {
        lemma_only_front(items, calls);
        assert(taken_back(items, calls).reverse() =~= Seq::<T>::empty());
        assert(taken_front(items, calls) + Seq::<T>::empty() =~= taken_front(items, calls));
    }
    if forall|i: int| 0 <= i < calls.len() ==> !calls[i] {
        lemma_only_back(items, calls);
        assert(Seq::<T>::empty() + taken_back(items, calls).reverse() =~= taken_back(
            items,
            calls,
        ).reverse());
    }
}

/// Calls of `next` alone take nothing from the back.
proof fn lemma_only_front<T>(items: Seq<T>, calls: Seq<bool>)
    requires
        forall|i: int| 0 <= i < calls.len() ==> calls[i],
    ensures
        taken_back(items, calls) == Seq::<T>::empty(),
    decreases calls.len(),
{
    if calls.len() > 0 && items.len() > 0 {
        let rest = calls.drop_first();
        assert forall|i: int| 0 <= i < rest.len() implies rest[i] by {
            assert(rest[i] == calls[i + 1]);
        }
        lemma_only_front(items.drop_first(), rest);
    }
}

/// Calls of `next_back` alone take nothing from the front.
proof fn lemma_only_back<T>(items: Seq<T>, calls: Seq<bool>)
    requires
        forall|i: int| 0 <= i < calls.len() ==> !calls[i],
    ensures
        taken_front(items, calls) == Seq::<T>::empty(),
    decreases calls.len(),
{
    if calls.len() > 0 && items.len() > 0 {
        let rest = calls.drop_first();
        assert forall|i: int| 0 <= i < rest.len() implies !rest[i] by {
            assert(rest[i] == calls[i + 1]);
        }
        lemma_only_back(items.drop_last(), rest);
    }
}

} // verus!
