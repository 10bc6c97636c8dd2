//! What sequences of pushes and pops do to a deque, stated over its view.
//!
//! `pushed`, `yielded` and `remaining` replay a run of operations on the
//! sequence of elements, step by step as the deque's own contracts describe
//! each step. The lemmas say that no element is lost or repeated, and in
//! which order elements come out.

use vstd::multiset::*;
use vstd::prelude::*;
use vstd::seq_lib::*;

verus! {

/// One of the two ends of a deque.
pub enum End {
    Front,
    Back,
}

/// The deque after pushing `items` onto `start`, one after the other,
/// `items[i]` at the end `ends[i]`.
pub open spec fn pushed<T>(start: Seq<T>, items: Seq<T>, ends: Seq<End>) -> Seq<T>
    recommends
        ends.len() == items.len(),
    decreases items.len(),
{
    if items.len() == 0 {
        start
    } else {
        let before = pushed(start, items.drop_last(), ends.drop_last());
        match ends.last() {
            End::Front => seq![items.last()] + before,
            End::Back => before.push(items.last()),
        }
    }
}

/// The elements that come out of the deque `s` when it is popped once at
/// each end of `ends` in turn, in the order in which they come out. A pop
/// that finds the deque empty yields nothing.
pub open spec fn yielded<T>(s: Seq<T>, ends: Seq<End>) -> Seq<T>
    decreases ends.len(),
{
    if ends.len() == 0 {
        Seq::empty()
    } else if s.len() == 0 {
        yielded(s, ends.drop_first())
    } else {
        match ends[0] {
            End::Front => seq![s[0]] + yielded(s.subrange(1, s.len() as int), ends.drop_first()),
            End::Back => seq![s.last()] + yielded(s.drop_last(), ends.drop_first()),
        }
    }
}

/// The deque that is left of `s` after the pops of `yielded(s, ends)`.
pub open spec fn remaining<T>(s: Seq<T>, ends: Seq<End>) -> Seq<T>
    decreases ends.len(),
{
    if ends.len() == 0 || s.len() == 0 {
        s
    } else {
        match ends[0] {
            End::Front => remaining(s.subrange(1, s.len() as int), ends.drop_first()),
            End::Back => remaining(s.drop_last(), ends.drop_first()),
        }
    }
}

/// `n` times the same end.
pub open spec fn always(end: End, n: nat) -> Seq<End> {
    Seq::new(n, |i: int| end)
}

/// One push is the step that the contracts of `push_front` and `push_back`
/// describe.
pub proof fn lemma_one_push<T>(s: Seq<T>, x: T, end: End)
    ensures
        pushed(s, seq![x], seq![end]) == (match end {
            End::Front => seq![x] + s,
            End::Back => s.push(x),
        }),
{
    assert(seq![x].drop_last() =~= Seq::<T>::empty());
    assert(pushed(s, seq![x].drop_last(), seq![end].drop_last()) == s);
}

/// One pop is the step that the contracts of `pop_front` and `pop_back`
/// describe: from an empty deque nothing comes out and it stays as it is;
/// otherwise the element at that end comes out and the others stay.
pub proof fn lemma_one_pop<T>(s: Seq<T>, end: End)
    ensures
        s.len() == 0 ==> yielded(s, seq![end]) == Seq::<T>::empty() && remaining(s, seq![end])
            == s,
        s.len() > 0 ==> yielded(s, seq![end]) == (match end {
            End::Front => seq![s[0]],
            End::Back => seq![s.last()],
        }),
        s.len() > 0 ==> remaining(s, seq![end]) == (match end {
            End::Front => s.subrange(1, s.len() as int),
            End::Back => s.drop_last(),
        }),
{
    let none = seq![end].drop_first();
    assert(none.len() == 0);
    assert(yielded(s, none) == Seq::<T>::empty());
    if s.len() > 0 {
        let front = s.subrange(1, s.len() as int);
        let back = s.drop_last();
        assert(yielded(front, none) == Seq::<T>::empty());
        assert(yielded(back, none) == Seq::<T>::empty());
        assert(remaining(front, none) == front);
        assert(remaining(back, none) == back);
        assert(seq![s[0]] + Seq::<T>::empty() =~= seq![s[0]]);
        assert(seq![s.last()] + Seq::<T>::empty() =~= seq![s.last()]);
    }
}

/// Pushes lose nothing and invent nothing: the deque holds what it held
/// before together with every pushed item, each as often as it was pushed.
pub proof fn lemma_pushes_keep_every_element<T>(start: Seq<T>, items: Seq<T>, ends: Seq<End>)
    requires
        ends.len() == items.len(),
    ensures
        pushed(start, items, ends).len() == start.len() + items.len(),
        pushed(start, items, ends).to_multiset() == start.to_multiset().add(items.to_multiset()),
    decreases items.len(),
{
    broadcast use group_multiset_axioms, group_to_multiset_ensures;

    if items.len() == 0 {
        assert(items.to_multiset() =~= Multiset::<T>::empty());
        assert(start.to_multiset().add(items.to_multiset()) =~= start.to_multiset());
    } else {
        let before = pushed(start, items.drop_last(), ends.drop_last());
        let x = items.last();
        lemma_pushes_keep_every_element(start, items.drop_last(), ends.drop_last());
        assert(items =~= items.drop_last().push(x));
        assert(items.to_multiset() =~= items.drop_last().to_multiset().insert(x));
        match ends.last() {
            End::Front => {
                lemma_seq_union_to_multiset_commutative(seq![x], before);
                assert(before + seq![x] =~= before.push(x));
            },
            End::Back => {},
        }
        assert(pushed(start, items, ends).to_multiset() =~= before.to_multiset().insert(x));
        assert(before.to_multiset().insert(x) =~= start.to_multiset().add(items.to_multiset()));
    }
}

/// Pops hand out every element exactly once: what came out and what is
/// left make up the deque as it was, and as many elements come out as there
/// are pops, until the deque is empty.
pub proof fn lemma_pops_yield_each_element_once<T>(s: Seq<T>, ends: Seq<End>)
    ensures
        yielded(s, ends).len() == if ends.len() <= s.len() {
            ends.len()
        } else {
            s.len()
        },
        remaining(s, ends).len() == s.len() - yielded(s, ends).len(),
        yielded(s, ends).to_multiset().add(remaining(s, ends).to_multiset()) == s.to_multiset(),
    decreases ends.len(),
{
    broadcast use group_multiset_axioms, group_to_multiset_ensures;

    let out = yielded(s, ends);
    let left = remaining(s, ends);
    if ends.len() == 0 {
        assert(out.to_multiset() =~= Multiset::<T>::empty());
        assert(out.to_multiset().add(left.to_multiset()) =~= s.to_multiset());
    } else if s.len() == 0 {
        lemma_pops_yield_each_element_once(s, ends.drop_first());
        assert(out.to_multiset() =~= Multiset::<T>::empty());
        assert(out.to_multiset().add(left.to_multiset()) =~= s.to_multiset());
    } else {
        match ends[0] {
            End::Front => {
                let rest = s.subrange(1, s.len() as int);
                let more = yielded(rest, ends.drop_first());
                lemma_pops_yield_each_element_once(rest, ends.drop_first());
                assert(s =~= seq![s[0]] + rest);
                lemma_multiset_commutative(seq![s[0]], rest);
                lemma_multiset_commutative(seq![s[0]], more);
                assert(out.to_multiset().add(left.to_multiset()) =~= s.to_multiset());
            },
            End::Back => {
                let rest = s.drop_last();
                let more = yielded(rest, ends.drop_first());
                lemma_pops_yield_each_element_once(rest, ends.drop_first());
                assert(s =~= rest + seq![s.last()]);
                lemma_multiset_commutative(rest, seq![s.last()]);
                lemma_multiset_commutative(seq![s.last()], more);
                assert(out.to_multiset().add(left.to_multiset()) =~= s.to_multiset());
            },
        }
    }
}

/// As many pops as the deque has elements, or more, empty it, and what
/// came out is what it held.
pub proof fn lemma_enough_pops_drain<T>(s: Seq<T>, ends: Seq<End>)
    requires
        ends.len() >= s.len(),
    ensures
        yielded(s, ends).len() == s.len(),
        yielded(s, ends).to_multiset() == s.to_multiset(),
        remaining(s, ends) == Seq::<T>::empty(),
{
    broadcast use group_multiset_axioms, group_to_multiset_ensures;

    lemma_pops_yield_each_element_once(s, ends);
    assert(remaining(s, ends) =~= Seq::<T>::empty());
    assert(remaining(s, ends).to_multiset() =~= Multiset::<T>::empty());
    assert(yielded(s, ends).to_multiset().add(Multiset::<T>::empty()) =~= yielded(
        s,
        ends,
    ).to_multiset());
}

/// Whatever the ends: after `n` pushes onto an empty deque, `n` pops
/// return every pushed item exactly once and leave the deque empty.
pub proof fn lemma_pushed_then_popped<T>(items: Seq<T>, push_ends: Seq<End>, pop_ends: Seq<End>)
    requires
        push_ends.len() == items.len(),
        pop_ends.len() == items.len(),
    ensures
        yielded(pushed(Seq::empty(), items, push_ends), pop_ends).len() == items.len(),
        yielded(pushed(Seq::empty(), items, push_ends), pop_ends).to_multiset()
            == items.to_multiset(),
        remaining(pushed(Seq::empty(), items, push_ends), pop_ends) == Seq::<T>::empty(),
{
    broadcast use group_multiset_axioms, group_to_multiset_ensures;

    let held = pushed(Seq::empty(), items, push_ends);
    lemma_pushes_keep_every_element(Seq::empty(), items, push_ends);
    lemma_enough_pops_drain(held, pop_ends);
    assert(Seq::<T>::empty().to_multiset().add(items.to_multiset()) =~= items.to_multiset());
}

/// Pushing at the back keeps the order of arrival.
pub proof fn lemma_pushed_at_back<T>(items: Seq<T>)
    ensures
        pushed(Seq::empty(), items, always(End::Back, items.len())) == items,
    decreases items.len(),
{
    let ends = always(End::Back, items.len());
    if items.len() > 0 {
        lemma_pushed_at_back(items.drop_last());
        assert(ends.drop_last() =~= always(End::Back, items.drop_last().len()));
        assert(items.drop_last().push(items.last()) =~= items);
    }
}

/// Pushing at the front reverses the order of arrival.
pub proof fn lemma_pushed_at_front<T>(items: Seq<T>)
    ensures
        pushed(Seq::empty(), items, always(End::Front, items.len())) == items.reverse(),
    decreases items.len(),
{
    let ends = always(End::Front, items.len());
    if items.len() > 0 {
        lemma_pushed_at_front(items.drop_last());
        assert(ends.drop_last() =~= always(End::Front, items.drop_last().len()));
        assert(seq![items.last()] + items.drop_last().reverse() =~= items.reverse());
    } else {
        assert(items.reverse() =~= Seq::<T>::empty());
    }
}

/// Popping the whole deque at the front yields it front to back.
pub proof fn lemma_yielded_at_front<T>(s: Seq<T>)
    ensures
        yielded(s, always(End::Front, s.len())) == s,
    decreases s.len(),
{
    let ends = always(End::Front, s.len());
    if s.len() > 0 {
        let rest = s.subrange(1, s.len() as int);
        lemma_yielded_at_front(rest);
        assert(ends.drop_first() =~= always(End::Front, rest.len()));
        assert(seq![s[0]] + rest =~= s);
    } else {
        assert(s =~= Seq::<T>::empty());
    }
}

/// Popping the whole deque at the back yields it back to front.
pub proof fn lemma_yielded_at_back<T>(s: Seq<T>)
    ensures
        yielded(s, always(End::Back, s.len())) == s.reverse(),
    decreases s.len(),
{
    let ends = always(End::Back, s.len());
    if s.len() > 0 {
        let rest = s.drop_last();
        lemma_yielded_at_back(rest);
        assert(ends.drop_first() =~= always(End::Back, rest.len()));
        assert(seq![s.last()] + rest.reverse() =~= s.reverse());
    } else {
        assert(s.reverse() =~= Seq::<T>::empty());
    }
}

/// Used at one end only, the deque is a stack: items pushed onto an empty
/// deque at one end and popped at the same end come out last in, first out.
pub proof fn lemma_same_end_is_last_in_first_out<T>(items: Seq<T>, end: End)
    ensures
        yielded(
            pushed(Seq::empty(), items, always(end, items.len())),
            always(end, items.len()),
        ) == items.reverse(),
{
    let held = pushed(Seq::empty(), items, always(end, items.len()));
    lemma_pushes_keep_every_element(Seq::empty(), items, always(end, items.len()));
    match end {
        End::Front => {
            lemma_pushed_at_front(items);
            lemma_yielded_at_front(held);
        },
        End::Back => {
            lemma_pushed_at_back(items);
            lemma_yielded_at_back(held);
        },
    }
}

/// Used from one end to the other, the deque is a queue: items pushed onto
/// an empty deque at one end and popped at the other come out first in,
/// first out.
pub proof fn lemma_opposite_ends_is_first_in_first_out<T>(items: Seq<T>, end: End)
    ensures
        yielded(
            pushed(Seq::empty(), items, always(end, items.len())),
            always(
                match end {
                    End::Front => End::Back,
                    End::Back => End::Front,
                },
                items.len(),
            ),
        ) == items,
{
    let held = pushed(Seq::empty(), items, always(end, items.len()));
    lemma_pushes_keep_every_element(Seq::empty(), items, always(end, items.len()));
    match end {
        End::Front => {
            lemma_pushed_at_front(items);
            lemma_yielded_at_back(held);
            assert(items.reverse().reverse() =~= items);
        },
        End::Back => {
            lemma_pushed_at_back(items);
            lemma_yielded_at_front(held);
        },
    }
}

} // verus!
