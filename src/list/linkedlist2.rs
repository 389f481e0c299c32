use std::rc::Rc;
use vstd::prelude::*;

verus! {

/// One immutable cell of a persistent `List`, shared by every list whose
/// suffix it is.
pub struct Node<T> {
    val: T,
    next: Option<Rc<Node<T>>>,
}

/// A persistent singly-linked list: prepending and taking the tail build new
/// lists that share their cells with the old one, which stays as it was.
pub struct List<T> {
    head: Option<Rc<Node<T>>>,
}

/// A read-only walk over the values of a `List`, front to back.
pub struct Itr<'a, T> {
    curr: Option<&'a Node<T>>,
}

/// The values held by a chain of shared cells, from the first to the last.
spec fn values_of<T>(link: Option<Rc<Node<T>>>) -> Seq<T>
    decreases link,
{
    match link {
        None => Seq::empty(),
        Some(node) => seq![node.val] + values_of(node.next),
    }
}

/// The list that `prepend` builds from the values `s` and the value `v`.
pub open spec fn prepended<T>(s: Seq<T>, v: T) -> Seq<T> {
    seq![v] + s
}

/// The list that `tail` builds from the values `s`: all but the first, and
/// nothing for an empty list.
pub open spec fn tail_of<T>(s: Seq<T>) -> Seq<T> {
    if s.len() == 0 {
        s
    } else {
        s.drop_first()
    }
}

impl<T> View for List<T> {
    type V = Seq<T>;

    closed spec fn view(&self) -> Seq<T> {
        values_of(self.head)
    }
}

impl<'a, T> View for Itr<'a, T> {
    type V = Seq<T>;

    /// The values that are still to come.
    closed spec fn view(&self) -> Seq<T> {
        match self.curr {
            None => Seq::empty(),
            Some(node) => seq![node.val] + values_of(node.next),
        }
    }
}

impl<T> List<T> {
    pub fn new() -> (r: Self)
        ensures
            r@ == Seq::<T>::empty(),
    {
        List { head: None }
    }

    /// A new list with `val` in front of the values of `self`, sharing the
    /// cells of `self`.
    pub fn prepend(&self, val: T) -> (r: Self)
        ensures
            r@ == prepended(self@, val),
    {
        let next = match &self.head {
            None => None,
            Some(node) => Some(Rc::clone(node)),
        };
        let node = Node { val, next };
        List { head: Some(Rc::new(node)) }
    }

    /// A new list of the values of `self` but the first, sharing the cells of
    /// `self`.
    pub fn tail(&self) -> (r: Self)
        ensures
            r@ == tail_of(self@),
    {
        let head = match &self.head {
            None => None,
            Some(node) => match &node.next {
                None => None,
                Some(next) => Some(Rc::clone(next)),
            },
        };
        proof {
            if self@.len() > 0 {
                assert(self@.drop_first() =~= values_of(head));
            }
        }
        List { head }
    }

    pub fn front(&self) -> (r: Option<&T>)
        ensures
            self@.len() == 0 ==> r is None,
            self@.len() > 0 ==> r == Some(&self@[0]),
    {
        match &self.head {
            None => None,
            Some(node) => Some(&node.val),
        }
    }

    fn detach(&mut self) -> (r: Option<Rc<Node<T>>>)
        ensures
            values_of(r) == old(self)@,
            final(self)@ == Seq::<T>::empty(),
    {
        self.head.take()
    }

    pub fn itr(&self) -> (r: Itr<'_, T>)
        ensures
            r@ == self@,
    {
        let curr = match &self.head {
            None => None,
            Some(node) => Some(&**node),
        };
        Itr { curr }
    }
}

impl<'a, T> Itr<'a, T> {
    pub fn next(&mut self) -> (r: Option<&'a T>)
        ensures
            old(self)@.len() == 0 ==> r is None && final(self)@ == old(self)@,
            old(self)@.len() > 0 ==> r == Some(&old(self)@[0]) && final(self)@ == old(self)@.drop_first(),
    {
        match self.curr {
            None => None,
            Some(node) => {
                self.curr = match &node.next {
                    None => None,
                    Some(next) => Some(&**next),
                };
                proof {
                    assert(old(self)@.drop_first() =~= values_of(node.next));
                }
                Some(&node.val)
            },
        }
    }
}

/// Releases a chain of shared cells front to back, one cell at a time, and
/// stops at the first cell that another list still holds; so no destructor
/// recursion proportional to the chain's length takes place.
fn dismantle<T>(link: Option<Rc<Node<T>>>) {
    let mut head = link;
    loop
        decreases values_of(head).len(),
    {
        match head {
            None => break,
            Some(node) => match Rc::try_unwrap(node) {
                Ok(cell) => {
                    head = cell.next;
                },
                Err(_) => break,
            },
        }
    }
}

impl<T> Drop for List<T> {
    /// A destructor must be shown not to unwind, and vstd's specification of
    /// `Rc::try_unwrap` does not say that it cannot: so this body is taken on
    /// trust. It only moves the chain out with the verified `detach` and
    /// hands it to the verified `dismantle`.
    #[verifier::external_body]
    fn drop(&mut self)
        opens_invariants none
        no_unwind
    {
        dismantle(self.detach());
    }
}

/// Taking the tail of a list that `prepend` built gives back the values of
/// the list it was built from.
pub proof fn lemma_tail_of_prepended<T>(s: Seq<T>, v: T)
    ensures
        tail_of(prepended(s, v)) == s,
{
    assert(tail_of(prepended(s, v)) =~= s);
}

/// A value prepended to the empty list is its front value.
pub proof fn lemma_front_of_prepended_empty<T>(x: T)
    ensures
        prepended(Seq::<T>::empty(), x).len() > 0,
        prepended(Seq::<T>::empty(), x)[0] == x,
{
}

} // verus!
