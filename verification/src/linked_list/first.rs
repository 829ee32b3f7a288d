//! A first, minimal list: singly linked boxes of `i32`, pushed and popped at
//! the head.

use vstd::prelude::*;

verus! {

enum Link {
    Empty,
    More(Box<Node>),
}

struct Node {
    item: i32,
    next: Link,
}

/// The items a link chain holds, head first.
spec fn link_view(l: Link) -> Seq<i32>
    decreases l,
{
    match l {
        Link::Empty => Seq::empty(),
        Link::More(node) => seq![node.item] + link_view(node.next),
    }
}

pub struct List {
    head: Link,
}

impl View for List {
    type V = Seq<i32>;

    closed spec fn view(&self) -> Seq<i32> {
        link_view(self.head)
    }
}

impl List {
    pub fn new() -> (r: Self)
        ensures
            r@ == Seq::<i32>::empty(),
    {
        List { head: Link::Empty }
    }

    /// Put an element in at the head.
    pub fn push(&mut self, elem: i32)
        ensures
            final(self)@ == seq![elem] + old(self)@,
    {
        let mut taken = Link::Empty;
        core::mem::swap(&mut taken, &mut self.head);
        self.head = Link::More(Box::new(Node { item: elem, next: taken }));
    }

    /// Take the head element out, if there is one.
    pub fn pop(&mut self) -> (r: Option<i32>)
        ensures
            old(self)@.len() == 0 ==> r is None && final(self)@ == old(self)@,
            old(self)@.len() > 0 ==> r == Some(old(self)@[0]) && final(self)@ == old(
                self,
            )@.drop_first(),
    {
        let mut taken = Link::Empty;
        core::mem::swap(&mut taken, &mut self.head);
        match taken {
            Link::Empty => None,
            Link::More(node) => {
                let Node { item, next } = *node;
                self.head = next;
                assert(self@ =~= old(self)@.drop_first());
                Some(item)
            },
        }
    }
}

} // verus!
