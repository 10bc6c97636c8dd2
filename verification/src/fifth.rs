//! A queue kept as a singly-linked list: elements are pushed at the back
//! and popped at the front.

use vstd::prelude::*;

verus! {

/// A node: an element with the node after it, if any.
pub struct Node<T> {
    elem: T,
    next: Option<Box<Node<T>>>,
}

/// A queue of `T`. Its view is the sequence of elements from the front,
/// which is popped next, to the back, which was pushed last.
pub struct List<T> {
    head: Option<Box<Node<T>>>,
}

/// The elements from the node that `link` leads to, if any, to the end of
/// the list.
spec fn elems_from<T>(link: Option<Box<Node<T>>>) -> Seq<T>
    decreases link,
{
    match link {
        None => Seq::empty(),
        Some(node) => seq![node.elem] + elems_from(node.next),
    }
}

impl<T> Node<T> {
    /// The elements from this node to the end of the list.
    pub closed spec fn elems(&self) -> Seq<T> {
        seq![self.elem] + elems_from(self.next)
    }
}

impl<T> View for List<T> {
    type V = Seq<T>;

    closed spec fn view(&self) -> Seq<T> {
        elems_from(self.head)
    }
}

impl<T> List<T> {
    /// An empty queue.
    pub fn new() -> (list: Self)
        ensures
            list@ == Seq::<T>::empty(),
    {
        List { head: None }
    }

    /// Puts `elem` at the back. The nodes own one another from the front on,
    /// so the back is reached by walking the list.
    pub fn push(&mut self, elem: T)
        ensures
            final(self)@ == old(self)@.push(elem),
    {
        let mut head = self.head.take();
        let ghost mut passed: Seq<T> = Seq::empty();
        let mut cur = &mut head;
        loop
            invariant
                passed + elems_from(*cur) == old(self)@,
                elems_from(after_borrow(head)) == passed + elems_from(*final(cur)),
            ensures
                cur.is_none(),
            decreases elems_from(*cur).len(),
        {
            match cur {
                None => {
                    break ;
                },
                Some(node) => {
                    proof {
                        passed = passed.push(node.elem);
                    }
                    cur = &mut node.next;
                },
            }
        }
        assert(passed =~= old(self)@);
        *cur = Some(Box::new(Node { elem: elem, next: None }));
        assert(elems_from(*cur) =~= seq![elem]);
        self.head = head;
        assert(self@ =~= old(self)@.push(elem));
    }

    /// Takes the front element off and returns it; `None`, with the queue
    /// unchanged, if there is none.
    pub fn pop(&mut self) -> (front: Option<T>)
        ensures
            old(self)@.len() == 0 ==> front.is_none() && final(self)@ == old(self)@,
            old(self)@.len() > 0 ==> front == Some(old(self)@[0]) && final(self)@ == old(
                self,
            )@.subrange(1, old(self)@.len() as int),
    {
        match self.head.take() {
            None => None,
            Some(node) => {
                let node = *node;
                self.head = node.next;
                assert(self@ =~= old(self)@.subrange(1, old(self)@.len() as int));
                Some(node.elem)
            },
        }
    }

    /// The front element, if there is one.
    pub fn peek(&self) -> (front: Option<&T>)
        ensures
            self@.len() == 0 ==> front.is_none(),
            self@.len() > 0 ==> front == Some(&self@[0]),
    {
        match &self.head {
            None => None,
            Some(node) => Some(&node.elem),
        }
    }

    /// The front element, open to change in place, if there is one. The
    /// queue ends up with whatever the caller leaves behind the reference
    /// at its front, and is otherwise unchanged.
    pub fn peek_mut(&mut self) -> (front: Option<&mut T>)
        ensures
            old(self)@.len() == 0 ==> front.is_none() && final(self)@ == old(self)@,
            old(self)@.len() > 0 ==> front.is_some() && *front.unwrap() == old(self)@[0]
                && final(self)@ == old(self)@.update(0, *final(front.unwrap())),
    {
        match &mut self.head {
            None => None,
            Some(node) => Some(&mut node.elem),
        }
    }

    /// Turns the queue into an iterator that takes the elements off the
    /// front.
    pub fn into_iter(self) -> (iter: IntoIter<T>)
        ensures
            iter@ == self@,
    {
        IntoIter(self)
    }

    /// An iterator over references to the elements, from the front on.
    pub fn iter<'a>(&'a self) -> (iter: Iter<'a, T>)
        ensures
            iter@ == self@,
    {
        Iter {
            next: match &self.head {
                None => None,
                Some(node) => Some(&**node),
            },
        }
    }

    /// An iterator over mutable references to the elements, from the front
    /// on. Once the iterator and the references it gave out are done with,
    /// the queue holds what they leave behind: the elements from the
    /// iterator's first node on, as they are in the end.
    pub fn iter_mut(&mut self) -> (iter: IterMut<'_, T>)
        ensures
            iter@ == old(self)@,
            iter.next.is_none() <==> iter@.len() == 0,
            final(self)@ == (match iter.next {
                None => Seq::empty(),
                Some(node) => final(node).elems(),
            }),
    {
        IterMut {
            next: match &mut self.head {
                None => None,
                Some(node) => Some(&mut **node),
            },
        }
    }
}

impl<T> Drop for List<T> {
    /// Releases the nodes one by one from the head on, so that a long
    /// list is taken apart in a loop and not by nested calls.
    fn drop(&mut self)
        opens_invariants none
        no_unwind
    {
        let mut link: Option<Box<Node<T>>> = None;
        std::mem::swap(&mut link, &mut self.head);
        loop
            decreases elems_from(link).len(),
        {
            match link {
                None => {
                    break ;
                },
                Some(mut node) => {
                    let mut after: Option<Box<Node<T>>> = None;
                    std::mem::swap(&mut after, &mut node.next);
                    link = after;
                },
            }
        }
    }
}

/// An iterator that consumes a queue from the front. Its view is the
/// sequence of elements not yet yielded.
pub struct IntoIter<T>(List<T>);

impl<T> View for IntoIter<T> {
    type V = Seq<T>;

    closed spec fn view(&self) -> Seq<T> {
        self.0@
    }
}

impl<T> IntoIter<T> {
    /// Removes and yields the front element; `None` once nothing is left.
    pub fn next(&mut self) -> (front: Option<T>)
        ensures
            old(self)@.len() == 0 ==> front.is_none() && final(self)@ == old(self)@,
            old(self)@.len() > 0 ==> front == Some(old(self)@[0]) && final(self)@ == old(
                self,
            )@.subrange(1, old(self)@.len() as int),
    {
        self.0.pop()
    }
}

/// An iterator over references to the elements of a queue. Its view is
/// the sequence of elements not yet yielded.
pub struct Iter<'a, T> {
    next: Option<&'a Node<T>>,
}

impl<'a, T> View for Iter<'a, T> {
    type V = Seq<T>;

    closed spec fn view(&self) -> Seq<T> {
        match self.next {
            None => Seq::empty(),
            Some(node) => node.elems(),
        }
    }
}

impl<'a, T> Iter<'a, T> {
    /// Yields a reference to the next element; `None` once nothing is left.
    pub fn next(&mut self) -> (elem: Option<&'a T>)
        ensures
            old(self)@.len() == 0 ==> elem.is_none() && final(self)@ == old(self)@,
            old(self)@.len() > 0 ==> elem == Some(&old(self)@[0]) && final(self)@ == old(
                self,
            )@.subrange(1, old(self)@.len() as int),
    {
        match self.next {
            None => None,
            Some(node) => {
                self.next = match &node.next {
                    None => None,
                    Some(after) => Some(&**after),
                };
                assert(self@ =~= old(self)@.subrange(1, old(self)@.len() as int));
                Some(&node.elem)
            },
        }
    }
}

/// An iterator over mutable references to the elements of a queue. Its
/// view is the sequence of elements not yet yielded, as they are now.
pub struct IterMut<'a, T> {
    /// The node whose element is yielded next, if any is left. Contracts
    /// speak of what this node holds in the end.
    pub next: Option<&'a mut Node<T>>,
}

impl<'a, T> View for IterMut<'a, T> {
    type V = Seq<T>;

    open spec fn view(&self) -> Seq<T> {
        match self.next {
            None => Seq::empty(),
            Some(node) => node.elems(),
        }
    }
}

impl<'a, T> IterMut<'a, T> {
    /// Yields a mutable reference to the next element; `None` once nothing
    /// is left. In the end the node that the iterator stood at holds what
    /// the caller leaves behind the reference, followed by the elements
    /// from the node that the iterator stands at now, as they are in the end.
    pub fn next(&mut self) -> (elem: Option<&'a mut T>)
        ensures
            old(self)@.len() == 0 ==> elem.is_none() && final(self)@ == old(self)@,
            old(self)@.len() > 0 ==> elem.is_some() && *elem.unwrap() == old(self)@[0]
                && final(self)@ == old(self)@.subrange(1, old(self)@.len() as int),
            final(self).next.is_none() <==> final(self)@.len() == 0,
            old(self)@.len() > 0 ==> final(old(self).next.unwrap()).elems() == seq![
                *final(elem.unwrap()),
            ] + (match final(self).next {
                None => Seq::empty(),
                Some(node) => final(node).elems(),
            }),
    {
        match self.next.take() {
            None => None,
            Some(node) => {
                self.next = match &mut node.next {
                    None => None,
                    Some(after) => Some(&mut **after),
                };
                assert(self@ =~= old(self)@.subrange(1, old(self)@.len() as int));
                Some(&mut node.elem)
            },
        }
    }
}

} // verus!
