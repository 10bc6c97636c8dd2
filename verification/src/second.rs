//! A stack kept as a singly-linked list: each node owns the one after it.

use vstd::prelude::*;

verus! {

/// A node: an element with the node after it, if any.
pub struct Node<T> {
    elem: T,
    next: Option<Box<Node<T>>>,
}

/// A stack of `T`. Its view is the sequence of elements from the top down.
pub struct List<T> {
    head: Option<Box<Node<T>>>,
}

impl<T> Node<T> {
    /// The elements from this node to the end of the list.
    pub closed spec fn elems(&self) -> Seq<T>
        decreases self,
    {
        match self.next {
            None => seq![self.elem],
            Some(after) => seq![self.elem] + after.elems(),
        }
    }
}

impl<T> View for List<T> {
    type V = Seq<T>;

    closed spec fn view(&self) -> Seq<T> {
        match self.head {
            None => Seq::empty(),
            Some(node) => node.elems(),
        }
    }
}

impl<T> List<T> {
    /// An empty stack.
    pub fn new() -> (list: Self)
        ensures
            list@ == Seq::<T>::empty(),
    {
        List { head: None }
    }

    /// Puts `elem` on top.
    pub fn push(&mut self, elem: T)
        ensures
            final(self)@ == seq![elem] + old(self)@,
    {
        let new_node = Box::new(Node { elem: elem, next: self.head.take() });
        self.head = Some(new_node);
        assert(self@ =~= seq![elem] + old(self)@);
    }

    /// Takes the top element off and returns it; `None`, with the stack
    /// unchanged, if there is none.
    pub fn pop(&mut self) -> (top: Option<T>)
        ensures
            old(self)@.len() == 0 ==> top.is_none() && final(self)@ == old(self)@,
            old(self)@.len() > 0 ==> top == Some(old(self)@[0]) && final(self)@ == old(
                self,
            )@.subrange(1, old(self)@.len() as int),
    {
        match self.head.take() {
            None => None,
            Some(node) => {
                let node = *node;
                self.head = node.next;
                assert(self@ =~= old(self)@.subrange(1, old(self)@.len() as int));
                Some(node.elem)
            },
        }
    }

    /// The top element, if there is one.
    pub fn peek(&self) -> (top: Option<&T>)
        ensures
            self@.len() == 0 ==> top.is_none(),
            self@.len() > 0 ==> top == Some(&self@[0]),
    {
        match &self.head {
            None => None,
            Some(node) => Some(&node.elem),
        }
    }

    /// The top element, open to change in place, if there is one. The stack
    /// ends up with whatever the caller leaves behind the reference on top,
    /// and is otherwise unchanged.
    pub fn peek_mut(&mut self) -> (top: Option<&mut T>)
        ensures
            old(self)@.len() == 0 ==> top.is_none() && final(self)@ == old(self)@,
            old(self)@.len() > 0 ==> top.is_some() && *top.unwrap() == old(self)@[0]
                && final(self)@ == old(self)@.update(0, *final(top.unwrap())),
    {
        match &mut self.head {
            None => None,
            Some(node) => Some(&mut node.elem),
        }
    }

    /// An iterator over references to the elements, from the top down.
    pub fn iter<'a>(&'a self) -> (iter: Iter<'a, T>)
        ensures
            iter@ == self@,
    {
        Iter {
            next: match &self.head {
                None => None,
                Some(node) => Some(&**node),
            },
        }
    }

    /// An iterator over mutable references to the elements, from the top
    /// down. Once the iterator and the references it gave out are done
    /// with, the stack holds what they leave behind: the elements from the
    /// iterator's first node on, as they are in the end.
    pub fn iter_mut(&mut self) -> (iter: IterMut<'_, T>)
        ensures
            iter@ == old(self)@,
            iter.next.is_none() <==> iter@.len() == 0,
            final(self)@ == (match iter.next {
                None => Seq::empty(),
                Some(node) => final(node).elems(),
            }),
    {
        IterMut {
            next: match &mut self.head {
                None => None,
                Some(node) => Some(&mut **node),
            },
        }
    }

    /// Turns the stack into an iterator that takes the elements off the top.
    pub fn into_iter(self) -> (iter: IntoIter<T>)
        ensures
            iter@ == self@,
    {
        IntoIter(self)
    }
}

impl<T> Drop for List<T> {
    /// Releases the nodes one by one from the head on, so that a long
    /// list is taken apart in a loop and not by nested calls.
    fn drop(&mut self)
        opens_invariants none
        no_unwind
    {
        let mut link: Option<Box<Node<T>>> = None;
        std::mem::swap(&mut link, &mut self.head);
        loop
            decreases match link {
                    None => 0,
                    Some(node) => node.elems().len() + 1,
                },
        {
            match link {
                None => {
                    break ;
                },
                Some(mut node) => {
                    let mut after: Option<Box<Node<T>>> = None;
                    std::mem::swap(&mut after, &mut node.next);
                    link = after;
                },
            }
        }
    }
}

/// An iterator that consumes a stack from the top down. Its view is the
/// sequence of elements not yet yielded.
pub struct IntoIter<T>(List<T>);

impl<T> View for IntoIter<T> {
    type V = Seq<T>;

    closed spec fn view(&self) -> Seq<T> {
        self.0@
    }
}

impl<T> IntoIter<T> {
    /// Removes and yields the top element; `None` once nothing is left.
    pub fn next(&mut self) -> (top: Option<T>)
        ensures
            old(self)@.len() == 0 ==> top.is_none() && final(self)@ == old(self)@,
            old(self)@.len() > 0 ==> top == Some(old(self)@[0]) && final(self)@ == old(
                self,
            )@.subrange(1, old(self)@.len() as int),
    {
        self.0.pop()
    }
}

/// An iterator over references to the elements of a stack. Its view is
/// the sequence of elements not yet yielded.
pub struct Iter<'a, T> {
    next: Option<&'a Node<T>>,
}

impl<'a, T> View for Iter<'a, T> {
    type V = Seq<T>;

    closed spec fn view(&self) -> Seq<T> {
        match self.next {
            None => Seq::empty(),
            Some(node) => node.elems(),
        }
    }
}

impl<'a, T> Iter<'a, T> {
    /// Yields a reference to the next element; `None` once nothing is left.
    pub fn next(&mut self) -> (elem: Option<&'a T>)
        ensures
            old(self)@.len() == 0 ==> elem.is_none() && final(self)@ == old(self)@,
            old(self)@.len() > 0 ==> elem == Some(&old(self)@[0]) && final(self)@ == old(
                self,
            )@.subrange(1, old(self)@.len() as int),
    {
        match self.next {
            None => None,
            Some(node) => {
                self.next = match &node.next {
                    None => None,
                    Some(after) => Some(&**after),
                };
                assert(self@ =~= old(self)@.subrange(1, old(self)@.len() as int));
                Some(&node.elem)
            },
        }
    }
}

/// An iterator over mutable references to the elements of a stack. Its
/// view is the sequence of elements not yet yielded, as they are now.
pub struct IterMut<'a, T> {
    /// The node whose element is yielded next, if any is left. Contracts
    /// speak of what this node holds in the end.
    pub next: Option<&'a mut Node<T>>,
}

impl<'a, T> View for IterMut<'a, T> {
    type V = Seq<T>;

    open spec fn view(&self) -> Seq<T> {
        match self.next {
            None => Seq::empty(),
            Some(node) => node.elems(),
        }
    }
}

impl<'a, T> IterMut<'a, T> {
    /// Yields a mutable reference to the next element; `None` once nothing
    /// is left. In the end the node that the iterator stood at holds what
    /// the caller leaves behind the reference, followed by the elements
    /// from the node that the iterator stands at now, as they are in the end.
    pub fn next(&mut self) -> (elem: Option<&'a mut T>)
        ensures
            old(self)@.len() == 0 ==> elem.is_none() && final(self)@ == old(self)@,
            old(self)@.len() > 0 ==> elem.is_some() && *elem.unwrap() == old(self)@[0]
                && final(self)@ == old(self)@.subrange(1, old(self)@.len() as int),
            final(self).next.is_none() <==> final(self)@.len() == 0,
            old(self)@.len() > 0 ==> final(old(self).next.unwrap()).elems() == seq![
                *final(elem.unwrap()),
            ] + (match final(self).next {
                None => Seq::empty(),
                Some(node) => final(node).elems(),
            }),
    {
        match self.next.take() {
            None => None,
            Some(node) => {
                self.next = match &mut node.next {
                    None => None,
                    Some(after) => Some(&mut **after),
                };
                assert(self@ =~= old(self)@.subrange(1, old(self)@.len() as int));
                Some(&mut node.elem)
            },
        }
    }
}

} // verus!
