//! `MyStack`: a last-in, first-out stack on a `MyVec`.
use vstd::prelude::*;

use crate::vec::MyVec;

verus! {

/// A stack; the top is the last element of its view.
pub struct MyStack<T> {
    my_vec: MyVec<T>,
}

impl<T> View for MyStack<T> {
    type V = Seq<T>;

    /// The elements from the bottom up.
    closed spec fn view(&self) -> Seq<T> {
        self.my_vec@
    }
}

impl<T> MyStack<T> {
    pub closed spec fn wf(&self) -> bool {
        self.my_vec.wf()
    }

    /// An empty stack.
    pub fn new() -> (s: Self)
        ensures
            s.wf(),
            s@ == Seq::<T>::empty(),
    {
        MyStack { my_vec: MyVec::new(None) }
    }

    /// Puts `elem` on top.
    pub fn push(&mut self, elem: T)
        requires
            old(self).wf(),
            old(self)@.len() < usize::MAX / 2,
        ensures
            final(self).wf(),
            final(self)@ == old(self)@.push(elem),
    {
        self.my_vec.push_back(elem);
    }

    /// The top element, if any.
    pub fn top(&self) -> (r: Option<&T>)
        ensures
            self@.len() > 0 ==> r == Some(&self@.last()),
            self@.len() == 0 ==> r is None,
    {
        self.my_vec.back()
    }

    /// Takes the top element off.
    pub fn pop(&mut self) -> (r: Option<T>)
        requires
            old(self).wf(),
        ensures
            final(self).wf(),
            old(self)@.len() == 0 ==> r is None && final(self)@ == old(self)@,
            old(self)@.len() > 0 ==> r == Some(old(self)@.last()) && final(self)@ == old(
                self,
            )@.drop_last(),
    {
        self.my_vec.pop()
    }
}

/// Popping right after pushing `x` gives `x` back and leaves the stack as
/// it was before the push.
pub proof fn lemma_pop_undoes_push<T>(s: Seq<T>, x: T)
    ensures
        s.push(x).len() > 0,
        s.push(x).last() == x,
        s.push(x).drop_last() == s,
{
    assert(s.push(x).drop_last() =~= s);
}

} // verus!
