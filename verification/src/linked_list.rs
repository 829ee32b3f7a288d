//! A doubly-ended list with an explicit length counter: items go in at the
//! head with `push`, at the tail with `append`, and come out at the head with
//! `pop`. Its contracts speak of the sequence of items, head first.

use vstd::prelude::*;

pub mod first;

verus! {

pub struct LinkedList<T> {
    pub items: Vec<T>,
    pub length: usize,
}

impl<T> View for LinkedList<T> {
    type V = Seq<T>;

    open spec fn view(&self) -> Seq<T> {
        self.items@
    }
}

impl<T> LinkedList<T> {
    /// The length counter matches the number of items held.
    pub open spec fn wf(self) -> bool {
        self.length == self.items@.len()
    }

    pub fn new() -> (r: Self)
        ensures
            r@ == Seq::<T>::empty(),
            r.length == 0,
            r.wf(),
    {
        LinkedList { items: Vec::new(), length: 0 }
    }

    pub fn is_empty(&self) -> (r: bool)
        requires
            self.wf(),
        ensures
            r == (self@.len() == 0),
    {
        self.length == 0
    }

    /// Put an item in at the head.
    pub fn push(&mut self, item: T)
        requires
            old(self).wf(),
            old(self)@.len() < usize::MAX,
        ensures
            final(self).wf(),
            final(self)@ == seq![item] + old(self)@,
            final(self).length == final(self)@.len(),
    {
        self.items.insert(0, item);
        self.length = self.length + 1;
        assert(self@ =~= seq![item] + old(self)@);
    }

    /// Take the head item out, if there is one.
    pub fn pop(&mut self) -> (r: Option<T>)
        requires
            old(self).wf(),
        ensures
            final(self).wf(),
            final(self).length == final(self)@.len(),
            old(self)@.len() == 0 ==> r is None && final(self)@ == old(self)@,
            old(self)@.len() > 0 ==> r == Some(old(self)@[0]) && final(self)@ == old(
                self,
            )@.drop_first(),
    {
        if self.length == 0 {
            None
        } else {
            let item = self.items.remove(0);
            self.length = self.length - 1;
            assert(self@ =~= old(self)@.drop_first());
            Some(item)
        }
    }

    /// Put an item in at the tail.
    pub fn append(&mut self, item: T)
        requires
            old(self).wf(),
            old(self)@.len() < usize::MAX,
        ensures
            final(self).wf(),
            final(self)@ == old(self)@.push(item),
            final(self).length == final(self)@.len(),
    {
        self.items.push(item);
        self.length = self.length + 1;
    }
}

} // verus!
