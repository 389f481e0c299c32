use vstd::prelude::*;

verus! {

/// A singly-linked stack of uniquely owned nodes.
pub struct List<T> {
    head: Option<Box<Node<T>>>,
}

/// One cell of a `List`.
pub struct Node<T> {
    val: T,
    next: Option<Box<Node<T>>>,
}

/// The values held by a chain of nodes, from the first to the last.
spec fn values_of<T>(link: Option<Box<Node<T>>>) -> Seq<T>
    decreases link,
{
    match link {
        None => Seq::empty(),
        Some(node) => seq![node.val] + values_of(node.next),
    }
}

/// A read-only walk over the values of a `List`, front to back.
pub struct Itr<'a, T> {
    curr: Option<&'a Node<T>>,
}

/// A walk over the values of a `List` that hands out each value for
/// modification.
pub struct MutItr<'a, T> {
    curr: Option<&'a mut Node<T>>,
}

/// A walk that takes the values out of a `List`, front to back.
pub struct IntoItr<T> {
    curr: Option<Box<Node<T>>>,
}

impl<'a, T> View for Itr<'a, T> {
    type V = Seq<T>;

    /// The values that are still to come.
    closed spec fn view(&self) -> Seq<T> {
        match self.curr {
            None => Seq::empty(),
            Some(node) => seq![node.val] + values_of(node.next),
        }
    }
}

impl<'a, T> Itr<'a, T> {
    pub fn next(&mut self) -> (r: Option<&'a T>)
        ensures
            old(self)@.len() == 0 ==> r is None && final(self)@ == old(self)@,
            old(self)@.len() > 0 ==> r == Some(&old(self)@[0]) && final(self)@ == old(self)@.drop_first(),
    {
        match self.curr {
            None => None,
            Some(node) => {
                self.curr = match &node.next {
                    None => None,
                    Some(next) => Some(&**next),
                };
                proof {
                    assert(old(self)@.drop_first() =~= values_of(node.next));
                }
                Some(&node.val)
            },
        }
    }
}

impl<'a, T> MutItr<'a, T> {
    /// The values that are still to come.
    pub closed spec fn remaining(&self) -> Seq<T> {
        match self.curr {
            None => Seq::empty(),
            Some(node) => node.chain(),
        }
    }

    /// The cell that the walk stands on.
    pub closed spec fn cursor(&self) -> Option<&'a mut Node<T>> {
        self.curr
    }

    pub fn next(&mut self) -> (r: Option<&'a mut T>)
        ensures
            old(self).cursor() is None ==> r is None && final(self).cursor() is None,
            final(self).cursor() is None <==> final(self).remaining().len() == 0,
            match (old(self).cursor(), r) {
                (Some(node), Some(v)) => {
                    &&& *v == old(self).remaining()[0]
                    &&& final(self).remaining() == old(self).remaining().drop_first()
                    &&& final(node).chain() == seq![*final(v)] + match final(self).cursor() {
                        None => Seq::empty(),
                        Some(rest) => final(rest).chain(),
                    }
                },
                (None, None) => true,
                _ => false,
            },
    {
        match self.curr.take() {
            None => None,
            Some(node) => {
                self.curr = match &mut node.next {
                    None => None,
                    Some(next) => Some(&mut **next),
                };
                Some(&mut node.val)
            },
        }
    }
}

impl<T> View for IntoItr<T> {
    type V = Seq<T>;

    /// The values that are still to come.
    closed spec fn view(&self) -> Seq<T> {
        values_of(self.curr)
    }
}

impl<T> IntoItr<T> {
    pub fn next(&mut self) -> (r: Option<T>)
        ensures
            old(self)@.len() == 0 ==> r is None && final(self)@ == old(self)@,
            old(self)@.len() > 0 ==> r == Some(old(self)@[0]) && final(self)@ == old(self)@.drop_first(),
    {
        match self.curr.take() {
            None => None,
            Some(node) => {
                let node = *node;
                self.curr = node.next;
                proof {
                    assert(old(self)@.drop_first() =~= values_of(node.next));
                }
                Some(node.val)
            },
        }
    }
}

impl<T> Node<T> {
    /// The values of this cell and of those after it.
    pub closed spec fn chain(&self) -> Seq<T> {
        seq![self.val] + values_of(self.next)
    }
}

impl<T> View for List<T> {
    type V = Seq<T>;

    closed spec fn view(&self) -> Seq<T> {
        values_of(self.head)
    }
}

impl<T> List<T> {
    pub fn new() -> (r: Self)
        ensures
            r@ == Seq::<T>::empty(),
    {
        List { head: None }
    }

    pub fn push_front(&mut self, val: T)
        ensures
            final(self)@ == seq![val] + old(self)@,
    {
        let new_head = Box::new(Node { val, next: self.head.take() });
        self.head = Some(new_head);
    }

    pub fn pop_front(&mut self) -> (r: Option<T>)
        ensures
            old(self)@.len() == 0 ==> r is None && final(self)@ == old(self)@,
            old(self)@.len() > 0 ==> r == Some(old(self)@[0]) && final(self)@ == old(self)@.drop_first(),
    {
        match self.head.take() {
            None => None,
            Some(node) => {
                let node = *node;
                self.head = node.next;
                proof {
                    assert(old(self)@.drop_first() =~= values_of(node.next));
                }
                Some(node.val)
            },
        }
    }

    pub fn front(&self) -> (r: Option<&T>)
        ensures
            self@.len() == 0 ==> r is None,
            self@.len() > 0 ==> r == Some(&self@[0]),
    {
        match &self.head {
            None => None,
            Some(node) => Some(&node.val),
        }
    }

    pub fn front_mut(&mut self) -> (r: Option<&mut T>)
        ensures
            old(self)@.len() == 0 ==> r is None && final(self)@ == old(self)@,
            old(self)@.len() > 0 ==> match r {
                Some(v) => *v == old(self)@[0] && final(self)@ == old(self)@.update(0, *final(v)),
                None => false,
            },
    {
        match &mut self.head {
            None => None,
            Some(node) => Some(&mut node.val),
        }
    }

    pub fn itr(&self) -> (r: Itr<'_, T>)
        ensures
            r@ == self@,
    {
        let curr = match &self.head {
            None => None,
            Some(node) => Some(&**node),
        };
        Itr { curr }
    }

    pub fn mut_itr(&mut self) -> (r: MutItr<'_, T>)
        ensures
            r.remaining() == old(self)@,
            r.cursor() is None <==> old(self)@.len() == 0,
            match r.cursor() {
                None => final(self)@ == Seq::<T>::empty(),
                Some(node) => final(self)@ == final(node).chain(),
            },
    {
        let curr = match &mut self.head {
            None => None,
            Some(node) => Some(&mut **node),
        };
        MutItr { curr }
    }

    /// Turns the list into a walk that hands out its values by value.
    pub fn into_iter(self) -> (r: IntoItr<T>)
        ensures
            r@ == self@,
    {
        let mut list = self;
        IntoItr { curr: list.detach() }
    }

    fn detach(&mut self) -> (r: Option<Box<Node<T>>>)
        ensures
            values_of(r) == old(self)@,
            final(self)@ == Seq::<T>::empty(),
    {
        self.head.take()
    }
}

impl<T> Drop for List<T> {
    /// Frees the nodes one at a time, unlinking each from the next first, so
    /// that no destructor recursion proportional to the length takes place.
    fn drop(&mut self)
        opens_invariants none
        no_unwind
    {
        let mut head: Option<Box<Node<T>>> = None;
        core::mem::swap(&mut head, &mut self.head);
        loop
            decreases values_of(head).len(),
        {
            match head {
                None => break,
                Some(node) => {
                    let mut node = node;
                    let mut next: Option<Box<Node<T>>> = None;
                    core::mem::swap(&mut next, &mut node.next);
                    head = next;
                },
            }
        }
    }
}

} // verus!
