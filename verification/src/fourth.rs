//! A double-ended queue kept as a doubly-linked list.
//!
//! The nodes live in one arena, a vector of slots, and refer to their
//! neighbours by slot index. The list owns the arena, so a node has a single
//! owner and every link is a plain index: inserting and removing at either
//! end rewires at most two slots. A slot that a removal leaves empty is
//! kept on a spare list and used again by a later insertion.
//!
//! Discarding the deque discards the arena, slot after slot: links are
//! indices and own nothing, so taking the list apart never nests.

use vstd::prelude::*;

verus! {

/// One arena slot: an element with the indices of its neighbours.
/// A slot that is not linked into the list holds no element.
struct Node<T> {
    elem: Option<T>,
    prev: Option<usize>,
    next: Option<usize>,
}

/// A deque of `T`. Its view is the sequence of elements from front to back.
pub struct List<T> {
    slots: Vec<Node<T>>,
    free: Vec<usize>,
    head: Option<usize>,
    tail: Option<usize>,
    chain: Ghost<Seq<usize>>,
}

impl<T> Node<T> {
    fn new(elem: T) -> (node: Self)
        ensures
            node.elem == Some(elem),
            node.prev.is_none(),
            node.next.is_none(),
    {
        Node { elem: Some(elem), prev: None, next: None }
    }
}

impl<T> View for List<T> {
    type V = Seq<T>;

    closed spec fn view(&self) -> Seq<T> {
        Seq::new(self.chain@.len(), |i: int| self.slots@[self.chain@[i] as int].elem.unwrap())
    }
}

impl<T> List<T> {
    /// The slots that are linked, from front to back, are exactly `chain`:
    /// each one holds an element, its `prev` is the slot before it in `chain`
    /// (none for the first) and its `next` the slot after it (none for the last).
    spec fn linked(&self) -> bool {
        let chain = self.chain@;
        &&& forall|i: int| 0 <= i < chain.len() ==> (#[trigger] chain[i]) < self.slots@.len()
        &&& forall|i: int, j: int| 0 <= i < j < chain.len() ==> chain[i] != chain[j]
        &&& forall|i: int|
            0 <= i < chain.len() ==> {
                let node = #[trigger] self.slots@[chain[i] as int];
                &&& node.elem.is_some()
                &&& node.prev == (if i == 0 { None } else { Some(chain[i - 1]) })
                &&& node.next == (if i == chain.len() - 1 { None } else { Some(chain[i + 1]) })
            }
    }

    /// `head` and `tail` name the two ends of `chain`, and both are absent
    /// exactly when the list is empty.
    spec fn ends(&self) -> bool {
        let chain = self.chain@;
        &&& self.head == (if chain.len() == 0 { None } else { Some(chain[0]) })
        &&& self.tail == (if chain.len() == 0 { None } else { Some(chain[chain.len() - 1]) })
    }

    /// The free slots are distinct slots of the arena, none of them linked,
    /// none holding an element; with the linked ones they make up the arena.
    spec fn spare(&self) -> bool {
        let free = self.free@;
        &&& forall|k: int| 0 <= k < free.len() ==> (#[trigger] free[k]) < self.slots@.len()
        &&& forall|k: int, l: int| 0 <= k < l < free.len() ==> free[k] != free[l]
        &&& forall|k: int, i: int|
            0 <= k < free.len() && 0 <= i < self.chain@.len() ==> free[k] != self.chain@[i]
        &&& forall|k: int|
            0 <= k < free.len() ==> (#[trigger] self.slots@[free[k] as int]).elem.is_none()
        &&& self.slots@.len() == self.chain@.len() + free.len()
    }

    /// The structural invariant of the deque. Walking `next` from the head
    /// visits the same nodes as walking `prev` from the tail, in reverse; the
    /// head has no `prev` and the tail no `next`; head and tail are both
    /// absent exactly when the deque is empty; and every slot of the arena is
    /// either linked or spare, so no node is lost and none is used twice.
    pub closed spec fn wf(&self) -> bool {
        &&& self.linked()
        &&& self.ends()
        &&& self.spare()
    }

    /// The elements met on the way along the `next` links, from the slot
    /// `at` on and for at most `limit` nodes.
    spec fn along_next(&self, at: Option<usize>, limit: nat) -> Seq<T>
        decreases limit,
    {
        match at {
            None => Seq::empty(),
            Some(i) => if limit == 0 || i >= self.slots@.len() {
                Seq::empty()
            } else {
                let node = self.slots@[i as int];
                seq![node.elem.unwrap()] + self.along_next(node.next, (limit - 1) as nat)
            },
        }
    }

    /// The elements met on the way along the `prev` links, from the slot
    /// `at` on and for at most `limit` nodes.
    spec fn along_prev(&self, at: Option<usize>, limit: nat) -> Seq<T>
        decreases limit,
    {
        match at {
            None => Seq::empty(),
            Some(i) => if limit == 0 || i >= self.slots@.len() {
                Seq::empty()
            } else {
                let node = self.slots@[i as int];
                seq![node.elem.unwrap()] + self.along_prev(node.prev, (limit - 1) as nat)
            },
        }
    }

    /// The elements met by walking from the head along the `next` links
    /// until a node has none. The walk is cut off after as many nodes as the
    /// arena has slots, which no walk without a cycle exceeds.
    pub closed spec fn forward(&self) -> Seq<T> {
        self.along_next(self.head, self.slots@.len())
    }

    /// The elements met by walking from the tail along the `prev` links
    /// until a node has none, cut off as `forward` is.
    pub closed spec fn backward(&self) -> Seq<T> {
        self.along_prev(self.tail, self.slots@.len())
    }

    proof fn lemma_along_next(&self, i: int, limit: nat)
        requires
            self.wf(),
            0 <= i < self.chain@.len(),
            limit >= self.chain@.len() - i,
        ensures
            self.along_next(Some(self.chain@[i]), limit) == self@.subrange(
                i,
                self@.len() as int,
            ),
        decreases self.chain@.len() - i,
    {
        let node = self.slots@[self.chain@[i] as int];
        if i + 1 < self.chain@.len() {
            self.lemma_along_next(i + 1, (limit - 1) as nat);
        } else {
            assert(self.along_next(node.next, (limit - 1) as nat) =~= Seq::<T>::empty());
        }
        assert(seq![node.elem.unwrap()] + self@.subrange(i + 1, self@.len() as int)
            =~= self@.subrange(i, self@.len() as int));
    }

    proof fn lemma_along_prev(&self, i: int, limit: nat)
        requires
            self.wf(),
            0 <= i < self.chain@.len(),
            limit >= i + 1,
        ensures
            self.along_prev(Some(self.chain@[i]), limit) == self@.subrange(0, i + 1).reverse(),
        decreases i,
    {
        let node = self.slots@[self.chain@[i] as int];
        if i > 0 {
            self.lemma_along_prev(i - 1, (limit - 1) as nat);
        } else {
            assert(self.along_prev(node.prev, (limit - 1) as nat) =~= Seq::<T>::empty());
        }
        assert(seq![node.elem.unwrap()] + self@.subrange(0, i).reverse() =~= self@.subrange(
            0,
            i + 1,
        ).reverse());
    }

    /// In a well-formed deque the two walks mirror each other: the walk from
    /// the head along `next` meets every element, front to back, and ends
    /// at the tail; the walk from the tail along `prev` meets the same
    /// elements in the opposite order and ends at the head.
    pub proof fn lemma_walks_mirror(&self)
        requires
            self.wf(),
        ensures
            self.forward() == self@,
            self.backward() == self@.reverse(),
            self.forward().len() == self.backward().len(),
    {
        if self.chain@.len() > 0 {
            self.lemma_along_next(0, self.slots@.len());
            self.lemma_along_prev(self.chain@.len() - 1, self.slots@.len());
            assert(self@.subrange(0, self@.len() as int) =~= self@);
        } else {
            assert(self@ =~= Seq::<T>::empty());
            assert(self@.reverse() =~= Seq::<T>::empty());
        }
    }

    /// An empty deque.
    pub fn new() -> (list: Self)
        ensures
            list.wf(),
            list@ == Seq::<T>::empty(),
    {
        let list = List {
            slots: Vec::new(),
            free: Vec::new(),
            head: None,
            tail: None,
            chain: Ghost(Seq::empty()),
        };
        assert(list@ =~= Seq::<T>::empty());
        list
    }

    /// What `place` leaves behind: `after` is `before` with `node` in the
    /// slot `at`, which is neither linked nor spare in `after`; the links,
    /// the linked slots and the remaining spare slots are as they were.
    spec fn placed(before: &Self, after: &Self, at: usize, node: Node<T>) -> bool {
        let chain = after.chain@;
        let free = after.free@;
        &&& after.head == before.head
        &&& after.tail == before.tail
        &&& chain == before.chain@
        &&& after.linked()
        &&& at < after.slots@.len()
        &&& after.slots@[at as int] == node
        &&& after.slots@.len() == chain.len() + free.len() + 1
        &&& forall|i: int| 0 <= i < chain.len() ==> (#[trigger] chain[i]) != at
        &&& forall|i: int|
            0 <= i < chain.len() ==> after.slots@[#[trigger] chain[i] as int]
                == before.slots@[chain[i] as int]
        &&& forall|k: int|
            0 <= k < free.len() ==> {
                &&& (#[trigger] free[k]) < after.slots@.len()
                &&& free[k] != at
                &&& after.slots@[free[k] as int].elem.is_none()
            }
        &&& forall|k: int, l: int| 0 <= k < l < free.len() ==> free[k] != free[l]
        &&& forall|k: int, i: int|
            0 <= k < free.len() && 0 <= i < chain.len() ==> free[k] != chain[i]
    }

    /// Puts `node`, which is linked to nothing yet, into a slot of the arena
    /// and returns the slot's index: a spare slot if there is one, a new
    /// slot otherwise.
    fn place(&mut self, node: Node<T>) -> (at: usize)
        requires
            old(self).linked(),
            old(self).spare(),
        ensures
            Self::placed(old(self), final(self), at, node),
    {
        match self.free.pop() {
            Some(at) => {
                self.slots[at] = node;
                at
            },
            None => {
                let at: usize = self.slots.len();
                self.slots.push(node);
                at
            },
        }
    }

    /// Inserts `elem` at the front.
    pub fn push_front(&mut self, elem: T)
        requires
            old(self).wf(),
        ensures
            final(self).wf(),
            final(self)@ == seq![elem] + old(self)@,
    {
        let old_head = self.head;
        let at = self.place(Node::new(elem));
        match old_head {
            Some(h) => {
                self.slots[h].prev = Some(at);
                self.slots[at].next = Some(h);
                self.head = Some(at);
            },
            None => {
                self.tail = Some(at);
                self.head = Some(at);
            },
        }
        proof {
            self.chain@ = seq![at] + self.chain@;
            let chain = self.chain@;
            assert forall|i: int| 0 <= i < chain.len() implies {
                let node = #[trigger] self.slots@[chain[i] as int];
                &&& node.elem.is_some()
                &&& node.prev == (if i == 0 { None } else { Some(chain[i - 1]) })
                &&& node.next == (if i == chain.len() - 1 { None } else { Some(chain[i + 1]) })
            } by {
                if i > 0 {
                    assert(chain[i] == old(self).chain@[i - 1]);
                }
            }
            assert(self@ =~= seq![elem] + old(self)@);
        }
    }

    /// Inserts `elem` at the back.
    pub fn push_back(&mut self, elem: T)
        requires
            old(self).wf(),
        ensures
            final(self).wf(),
            final(self)@ == old(self)@.push(elem),
    {
        let old_tail = self.tail;
        let at = self.place(Node::new(elem));
        match old_tail {
            Some(t) => {
                self.slots[t].next = Some(at);
                self.slots[at].prev = Some(t);
                self.tail = Some(at);
            },
            None => {
                self.tail = Some(at);
                self.head = Some(at);
            },
        }
        proof {
            self.chain@ = self.chain@.push(at);
            let chain = self.chain@;
            assert forall|i: int| 0 <= i < chain.len() implies {
                let node = #[trigger] self.slots@[chain[i] as int];
                &&& node.elem.is_some()
                &&& node.prev == (if i == 0 { None } else { Some(chain[i - 1]) })
                &&& node.next == (if i == chain.len() - 1 { None } else { Some(chain[i + 1]) })
            } by {
                if i < chain.len() - 1 {
                    assert(chain[i] == old(self).chain@[i]);
                }
            }
            assert(self@ =~= old(self)@.push(elem));
        }
    }

    /// Removes the front element and returns it; `None`, with the deque
    /// unchanged, if there is none.
    pub fn pop_front(&mut self) -> (front: Option<T>)
        requires
            old(self).wf(),
        ensures
            final(self).wf(),
            old(self)@.len() == 0 ==> front.is_none() && final(self)@ == old(self)@,
            old(self)@.len() > 0 ==> front == Some(old(self)@[0]) && final(self)@ == old(
                self,
            )@.subrange(1, old(self)@.len() as int),
    {
        match self.head {
            None => None,
            Some(h) => {
                assert(h == self.chain@[0]);
                let next = self.slots[h].next.take();
                let elem = self.slots[h].elem.take();
                match next {
                    Some(n) => {
                        assert(n == self.chain@[1]);
                        self.slots[n].prev = None;
                        self.head = Some(n);
                    },
                    None => {
                        self.head = None;
                        self.tail = None;
                    },
                }
                self.free.push(h);
                proof {
                    self.chain@ = self.chain@.subrange(1, self.chain@.len() as int);
                    let chain = self.chain@;
                    assert forall|i: int| 0 <= i < chain.len() implies {
                        let node = #[trigger] self.slots@[chain[i] as int];
                        &&& chain[i] < self.slots@.len()
                        &&& node.elem.is_some()
                        &&& node.prev == (if i == 0 { None } else { Some(chain[i - 1]) })
                        &&& node.next == (if i == chain.len() - 1 { None } else { Some(chain[i + 1]) })
                    } by {
                        assert(chain[i] == old(self).chain@[i + 1]);
                    }
                    assert(self@ =~= old(self)@.subrange(1, old(self)@.len() as int));
                }
                elem
            },
        }
    }

    /// Removes the back element and returns it; `None`, with the deque
    /// unchanged, if there is none.
    pub fn pop_back(&mut self) -> (back: Option<T>)
        requires
            old(self).wf(),
        ensures
            final(self).wf(),
            old(self)@.len() == 0 ==> back.is_none() && final(self)@ == old(self)@,
            old(self)@.len() > 0 ==> back == Some(old(self)@.last()) && final(self)@ == old(
                self,
            )@.drop_last(),
    {
        match self.tail {
            None => None,
            Some(t) => {
                assert(t == self.chain@[self.chain@.len() - 1]);
                let prev = self.slots[t].prev.take();
                let elem = self.slots[t].elem.take();
                match prev {
                    Some(p) => {
                        assert(p == self.chain@[self.chain@.len() - 2]);
                        self.slots[p].next = None;
                        self.tail = Some(p);
                    },
                    None => {
                        self.head = None;
                        self.tail = None;
                    },
                }
                self.free.push(t);
                proof {
                    self.chain@ = self.chain@.drop_last();
                    let chain = self.chain@;
                    assert forall|i: int| 0 <= i < chain.len() implies {
                        let node = #[trigger] self.slots@[chain[i] as int];
                        &&& chain[i] < self.slots@.len()
                        &&& node.elem.is_some()
                        &&& node.prev == (if i == 0 { None } else { Some(chain[i - 1]) })
                        &&& node.next == (if i == chain.len() - 1 { None } else { Some(chain[i + 1]) })
                    } by {
                        assert(chain[i] == old(self).chain@[i]);
                    }
                    assert(self@ =~= old(self)@.drop_last());
                }
                elem
            },
        }
    }

    /// The front element, if there is one.
    pub fn peek_front(&self) -> (front: Option<&T>)
        requires
            self.wf(),
        ensures
            self@.len() == 0 ==> front.is_none(),
            self@.len() > 0 ==> front == Some(&self@[0]),
    {
        match self.head {
            None => None,
            Some(h) => {
                assert(h == self.chain@[0]);
                self.slots[h].elem.as_ref()
            },
        }
    }

    /// The back element, if there is one.
    pub fn peek_back(&self) -> (back: Option<&T>)
        requires
            self.wf(),
        ensures
            self@.len() == 0 ==> back.is_none(),
            self@.len() > 0 ==> back == Some(&self@.last()),
    {
        match self.tail {
            None => None,
            Some(t) => {
                assert(t == self.chain@[self.chain@.len() - 1]);
                self.slots[t].elem.as_ref()
            },
        }
    }

    /// The front element, open to change in place, if there is one. The
    /// deque ends up with whatever the caller leaves behind the reference
    /// as its front element, and is otherwise unchanged.
    pub fn peek_front_mut(&mut self) -> (front: Option<&mut T>)
        requires
            old(self).wf(),
        ensures
            final(self).wf(),
            old(self)@.len() == 0 ==> front.is_none() && final(self)@ == old(self)@,
            old(self)@.len() > 0 ==> front.is_some() && *front.unwrap() == old(self)@[0]
                && final(self)@ == old(self)@.update(0, *final(front.unwrap())),
    {
        match self.head {
            None => None,
            Some(h) => {
                assert(h == self.chain@[0]);
                self.slots[h].elem.as_mut()
            },
        }
    }

    /// The back element, open to change in place, if there is one. The
    /// deque ends up with whatever the caller leaves behind the reference
    /// as its back element, and is otherwise unchanged.
    pub fn peek_back_mut(&mut self) -> (back: Option<&mut T>)
        requires
            old(self).wf(),
        ensures
            final(self).wf(),
            old(self)@.len() == 0 ==> back.is_none() && final(self)@ == old(self)@,
            old(self)@.len() > 0 ==> back.is_some() && *back.unwrap() == old(self)@.last()
                && final(self)@ == old(self)@.update(
                old(self)@.len() - 1,
                *final(back.unwrap()),
            ),
    {
        match self.tail {
            None => None,
            Some(t) => {
                assert(t == self.chain@[self.chain@.len() - 1]);
                self.slots[t].elem.as_mut()
            },
        }
    }

    /// Turns the deque into an iterator that removes from either end.
    pub fn into_iter(self) -> (iter: IntoIter<T>)
        requires
            self.wf(),
        ensures
            iter.wf(),
            iter@ == self@,
    {
        IntoIter(self)
    }
}

/// An iterator that consumes a deque from both ends. Its view is the
/// sequence of elements not yet yielded, from front to back.
pub struct IntoIter<T>(List<T>);

impl<T> View for IntoIter<T> {
    type V = Seq<T>;

    closed spec fn view(&self) -> Seq<T> {
        self.0@
    }
}

impl<T> IntoIter<T> {
    /// The deque that the iterator drains is well formed.
    pub closed spec fn wf(&self) -> bool {
        self.0.wf()
    }

    /// Removes and yields the front element; `None` once nothing is left.
    pub fn next(&mut self) -> (front: Option<T>)
        requires
            old(self).wf(),
        ensures
            final(self).wf(),
            old(self)@.len() == 0 ==> front.is_none() && final(self)@ == old(self)@,
            old(self)@.len() > 0 ==> front == Some(old(self)@[0]) && final(self)@ == old(
                self,
            )@.subrange(1, old(self)@.len() as int),
    {
        self.0.pop_front()
    }

    /// Removes and yields the back element; `None` once nothing is left.
    pub fn next_back(&mut self) -> (back: Option<T>)
        requires
            old(self).wf(),
        ensures
            final(self).wf(),
            old(self)@.len() == 0 ==> back.is_none() && final(self)@ == old(self)@,
            old(self)@.len() > 0 ==> back == Some(old(self)@.last()) && final(self)@ == old(
                self,
            )@.drop_last(),
    {
        self.0.pop_back()
    }
}

} // verus!
