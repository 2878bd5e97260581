//! A persistent stack: pushing and popping make new stacks that share their cells with
//! the old ones, which stay valid.
use vstd::prelude::*;
use std::rc::Rc;

verus! {

/// A cell of a stack: a value and the cell below it.
pub struct PRef<T> {
    next: Option<Rc<PRef<T>>>,
    val: T,
}

impl<T> PRef<T> {
    pub closed spec fn value(&self) -> T {
        self.val
    }

    /// The value held by the cell.
    pub fn get(&self) -> (r: &T)
        ensures
            *r == self.value(),
    {
        &self.val
    }
}

/// Another handle on the same cells.
fn share<T>(cell: &Option<Rc<PRef<T>>>) -> (r: Option<Rc<PRef<T>>>)
    ensures
        r == *cell,
{
    match cell {
        None => None,
        Some(rc) => {
            let c = Rc::clone(rc);
            Some(c)
        },
    }
}

/// The values from `cell` down to the bottom of the stack.
pub closed spec fn cells_view<T>(cell: Option<Rc<PRef<T>>>) -> Seq<T>
    decreases cell,
{
    match cell {
        None => Seq::empty(),
        Some(c) => seq![c.val] + cells_view(c.next),
    }
}

pub struct PStack<T> {
    size: usize,
    head: Option<Rc<PRef<T>>>,
}

impl<T> View for PStack<T> {
    type V = Seq<T>;

    /// The values from the top down.
    closed spec fn view(&self) -> Seq<T> {
        cells_view(self.head)
    }
}

impl<T> PStack<T> {
    pub closed spec fn well_formed(&self) -> bool {
        self.size == cells_view(self.head).len()
    }

    pub fn new() -> (r: Self)
        ensures
            r.well_formed(),
            r@ == Seq::<T>::empty(),
    {
        PStack { size: 0, head: None }
    }

    /// A stack sharing all the cells of this one.
    pub fn clone(&self) -> (r: Self)
        requires
            self.well_formed(),
        ensures
            r.well_formed(),
            r@ == self@,
    {
        PStack { size: self.size, head: share(&self.head) }
    }

    /// The stack with `value` on top of this one, which is left as it is.
    pub fn push(&self, value: T) -> (r: Self)
        requires
            self.well_formed(),
            self@.len() < usize::MAX,
        ensures
            r.well_formed(),
            r@ == seq![value] + self@,
    {
        let cell = Rc::new(PRef { next: share(&self.head), val: value });
        PStack { size: self.size + 1, head: Some(cell) }
    }

    /// The top cell and the stack below it, or `None` for the empty stack; this stack is
    /// left as it is.
    pub fn pop(&self) -> (r: Option<(Rc<PRef<T>>, Self)>)
        requires
            self.well_formed(),
        ensures
            r is None <==> self@.len() == 0,
            r is Some ==> {
                let (top, rest) = r->Some_0;
                &&& top.value() == self@[0]
                &&& rest.well_formed()
                &&& rest@ == self@.drop_first()
            },
    {
        match &self.head {
            None => None,
            Some(node) => {
                assert(cells_view(self.head).drop_first() =~= cells_view(node.next));
                Some((Rc::clone(node), PStack { size: self.size - 1, head: share(&node.next) }))
            },
        }
    }

    pub fn len(&self) -> (r: usize)
        requires
            self.well_formed(),
        ensures
            r == self@.len(),
    {
        self.size
    }

    pub fn is_empty(&self) -> (r: bool)
        requires
            self.well_formed(),
        ensures
            r == (self@.len() == 0),
    {
        self.head.is_none()
    }

    /// Walks the cells from the top down.
    pub fn iter(&self) -> (r: SimpleIter<T>)
        requires
            self.well_formed(),
        ensures
            r.well_formed(),
            r.remaining() == self@,
    {
        SimpleIter { stack: self.clone() }
    }
}

/// Hands out the cells of a stack from the top down.
pub struct SimpleIter<T> {
    stack: PStack<T>,
}

impl<T> SimpleIter<T> {
    /// The values still to come, in order.
    pub closed spec fn remaining(&self) -> Seq<T> {
        self.stack@
    }

    pub closed spec fn well_formed(&self) -> bool {
        self.stack.well_formed()
    }

    pub fn next(&mut self) -> (r: Option<Rc<PRef<T>>>)
        requires
            old(self).well_formed(),
        ensures
            final(self).well_formed(),
            old(self).remaining().len() == 0 ==> r is None && final(self).remaining().len() == 0,
            old(self).remaining().len() > 0 ==> r is Some && r->Some_0.value() == old(
                self,
            ).remaining()[0] && final(self).remaining() == old(self).remaining().drop_first(),
    {
        match self.stack.pop() {
            None => None,
            Some((node, rest)) => {
                self.stack = rest;
                Some(node)
            },
        }
    }
}

} // verus!
