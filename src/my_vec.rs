use std::collections::VecDeque;
use vstd::prelude::*;

verus! {

/// A growable array.
pub struct MyVec<T> {
    buf: Vec<T>,
}

/// The elements taken out of a `MyVec` by `drain`, handed out front first.
pub struct Drain<T> {
    rest: VecDeque<T>,
}

impl<T> MyVec<T> {
    /// The elements, in order.
    pub closed spec fn elements(&self) -> Seq<T> {
        self.buf@
    }

    /// An empty vector.
    pub fn new() -> (v: MyVec<T>)
        ensures
            v.elements().len() == 0,
    {
        MyVec { buf: Vec::new() }
    }

    /// The number of elements.
    pub fn len(&self) -> (n: usize)
        ensures
            n == self.elements().len(),
    {
        self.buf.len()
    }

    /// Appends `elem`.
    pub fn push(&mut self, elem: T)
        ensures
            final(self).elements() == old(self).elements().push(elem),
    {
        self.buf.push(elem);
    }

    /// Takes the last element, if any.
    pub fn pop(&mut self) -> (r: Option<T>)
        ensures
            old(self).elements().len() == 0 ==> r is None && final(self).elements() == old(
                self,
            ).elements(),
            old(self).elements().len() > 0 ==> r == Some(old(self).elements().last())
                && final(self).elements() == old(self).elements().drop_last(),
    {
        self.buf.pop()
    }

    /// Inserts `elem` before position `position`; a position past the end
    /// is ignored.
    pub fn insert(&mut self, position: usize, elem: T)
        ensures
            position <= old(self).elements().len() ==> final(self).elements() == old(
                self,
            ).elements().insert(position as int, elem),
            position > old(self).elements().len() ==> final(self).elements() == old(self).elements(),
    {
        if position <= self.buf.len() {
            self.buf.insert(position, elem);
        }
    }

    /// Removes the element at `position`; a position past the end is
    /// ignored.
    pub fn remove(&mut self, position: usize)
        ensures
            position < old(self).elements().len() ==> final(self).elements() == old(
                self,
            ).elements().remove(position as int),
            position >= old(self).elements().len() ==> final(self).elements() == old(self).elements(),
    {
        if position < self.buf.len() {
            self.buf.remove(position);
        }
    }

    /// Takes every element out, leaving the vector empty.
    pub fn drain(&mut self) -> (d: Drain<T>)
        ensures
            final(self).elements().len() == 0,
            d.remaining() == old(self).elements(),
    {
        let mut rest: VecDeque<T> = VecDeque::new();
        let mut taken: Vec<T> = Vec::new();
        std::mem::swap(&mut taken, &mut self.buf);
        let ghost all = taken@;
        while taken.len() > 0
            invariant
                rest@ + taken@ == all,
            decreases taken.len(),
        {
            let ghost before = taken@;
            let x = taken.remove(0);
            rest.push_back(x);
            proof {
                assert(before == seq![x] + taken@);
                assert(rest@ + taken@ =~= all);
            }
        }
        assert(rest@ =~= all);
        Drain { rest }
    }
}

impl<T> Drain<T> {
    /// The elements not yet handed out, front first.
    pub closed spec fn remaining(&self) -> Seq<T> {
        self.rest@
    }

    /// Hands out the next element, if any.
    pub fn next(&mut self) -> (r: Option<T>)
        ensures
            old(self).remaining().len() == 0 ==> r is None && final(self).remaining() == old(
                self,
            ).remaining(),
            old(self).remaining().len() > 0 ==> r == Some(old(self).remaining()[0])
                && final(self).remaining() == old(self).remaining().drop_first(),
    {
        self.rest.pop_front()
    }
}

} // verus!
