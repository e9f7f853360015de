//! A persistent singly-linked list. Every tail is held through a shared,
//! reference-counted pointer, so prepending an element is O(1) and never
//! copies the tail; any number of lists may share a common suffix.

use std::rc::Rc;
use vstd::prelude::*;

verus! {

/// An immutable list: either empty, or one element followed by a shared tail.
#[derive(Debug, PartialEq, Eq)]
pub enum List<T> {
    Cons(Rc<T>, Rc<List<T>>),
    Nil,
}

impl<T> List<T> {
    /// The sequence of elements this list holds, head first.
    pub open spec fn elems(&self) -> Seq<T>
        decreases self,
    {
        match *self {
            List::Nil => Seq::empty(),
            List::Cons(x, xs) => seq![*x] + xs.elems(),
        }
    }
}

/// Prepends `x` onto `xs`. The result's tail is `xs` itself, shared,
/// not a copy: the given list is left exactly as it was.
pub fn cons<T>(x: T, xs: Rc<List<T>>) -> (r: Rc<List<T>>)
    ensures
        r.elems() == seq![x] + xs.elems(),
        (match *r {
            List::Cons(h, t) => *h == x && t == xs,
            List::Nil => false,
        }),
{
    Rc::new(List::Cons(Rc::new(x), xs))
}

/// The empty list.
pub fn nil<T>() -> (r: Rc<List<T>>)
    ensures
        r.elems() == Seq::<T>::empty(),
        *r is Nil,
{
    Rc::new(List::Nil)
}

/// Structural sharing leaks no mutation: when two lists are each built
/// by prepending one element onto the same tail, each consists of its
/// own head followed by exactly the tail's elements, and the tail's own
/// elements are what they were — however many lists share it.
pub proof fn lemma_prepend_sharing<T>(a: List<T>, b: List<T>, tail: List<T>)
    requires
        (match a {
            List::Cons(_, t) => *t == tail,
            List::Nil => false,
        }),
        (match b {
            List::Cons(_, t) => *t == tail,
            List::Nil => false,
        }),
    ensures
        a.elems().len() == tail.elems().len() + 1,
        b.elems().len() == tail.elems().len() + 1,
        a.elems().drop_first() == tail.elems(),
        b.elems().drop_first() == tail.elems(),
        (match a {
            List::Cons(h, _) => a.elems()[0] == *h,
            List::Nil => false,
        }),
        (match b {
            List::Cons(h, _) => b.elems()[0] == *h,
            List::Nil => false,
        }),
{
    match a {
        List::Cons(h, t) => {
            assert(a.elems() == seq![*h] + tail.elems());
            assert(a.elems().drop_first() =~= tail.elems());
        },
        List::Nil => {},
    }
    match b {
        List::Cons(h, t) => {
            assert(b.elems() == seq![*h] + tail.elems());
            assert(b.elems().drop_first() =~= tail.elems());
        },
        List::Nil => {},
    }
}

/// A cursor over a list. Deriving one from a handle has no effect on the
/// handle, so a fresh, restarted cursor can always be taken again.
pub struct Iter<T>(pub Rc<List<T>>);

impl<T> Iter<T> {
    /// The elements this cursor has yet to produce.
    pub open spec fn remaining(self) -> Seq<T> {
        self.0.elems()
    }

    /// Produces the next element, or `None` once the list is exhausted.
    pub fn next(&mut self) -> (r: Option<Rc<T>>)
        ensures
            (match r {
                None => old(self).remaining().len() == 0
                    && final(self).remaining() == old(self).remaining(),
                Some(x) => old(self).remaining().len() > 0
                    && *x == old(self).remaining()[0]
                    && final(self).remaining() == old(self).remaining().drop_first(),
            }),
    {
        let (tail, result) = match &*self.0 {
            List::Nil => (self.0.clone(), None),
            List::Cons(x, xs) => (xs.clone(), Some(x.clone())),
        };
        self.0 = tail;
        result
    }
}

/// Starts a forward walk over `xs`, head first.
pub fn iter<T>(xs: Rc<List<T>>) -> (it: Iter<T>)
    ensures
        it.remaining() == xs.elems(),
{
    Iter(xs)
}

} // verus!
