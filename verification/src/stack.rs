//! A small stack of numbers.

use vstd::prelude::*;

verus! {

/// A stack of numbers, kept in a `smallvec::SmallVec` with room for sixteen
/// before it moves to the heap.
///
/// The stack is opaque to the verifier; `stack_items` stands for what it
/// holds.
#[verifier::external_body]
pub struct Stack {
    items: smallvec::SmallVec<[usize; 16]>,
}

/// The numbers on a stack, the oldest first.
pub uninterp spec fn stack_items(s: Stack) -> Seq<usize>;

impl View for Stack {
    type V = Seq<usize>;

    open spec fn view(&self) -> Seq<usize> {
        stack_items(*self)
    }
}

/// `smallvec::SmallVec::new`: an empty stack.
#[verifier::external_body]
fn raw_new() -> (s: Stack)
    ensures
        stack_items(s) == Seq::<usize>::empty(),
{
    Stack { items: smallvec::SmallVec::new() }
}

/// `smallvec::SmallVec::push`: the number goes on top. As vstd does for
/// `Vec::push`, running out of memory is not modelled.
#[verifier::external_body]
fn raw_push(s: &mut Stack, item: usize)
    ensures
        stack_items(*final(s)) == stack_items(*old(s)).push(item),
{
    s.items.push(item)
}

/// `smallvec::SmallVec::pop`: takes the top number off, if there is one.
#[verifier::external_body]
fn raw_pop(s: &mut Stack) -> (top: Option<usize>)
    ensures
        stack_items(*old(s)).len() == 0 ==> top is None && stack_items(*final(s)) == stack_items(
            *old(s),
        ),
        stack_items(*old(s)).len() > 0 ==> top == Some(stack_items(*old(s)).last())
            && stack_items(*final(s)) == stack_items(*old(s)).drop_last(),
{
    s.items.pop()
}

/// `last` of the slice that a `smallvec::SmallVec` derefs to: the top number,
/// if there is one. The stack is left as it was.
#[verifier::external_body]
fn raw_top(s: &Stack) -> (top: Option<usize>)
    ensures
        stack_items(*s).len() == 0 ==> top is None,
        stack_items(*s).len() > 0 ==> top == Some(stack_items(*s).last()),
{
    s.items.last().copied()
}

impl Stack {
    /// An empty stack.
    pub fn new() -> (s: Stack)
        ensures
            s@ == Seq::<usize>::empty(),
    {
        raw_new()
    }

    /// Puts `item` on top.
    pub fn push(&mut self, item: usize)
        ensures
            final(self)@ == old(self)@.push(item),
    {
        raw_push(self, item)
    }

    /// Takes the top number off, if there is one.
    pub fn pop(&mut self) -> (top: Option<usize>)
        ensures
            old(self)@.len() == 0 ==> top is None && final(self)@ == old(self)@,
            old(self)@.len() > 0 ==> top == Some(old(self)@.last()) && final(self)@
                == old(self)@.drop_last(),
    {
        raw_pop(self)
    }

    /// The top number, if there is one, which stays where it is.
    pub fn top(&self) -> (top: Option<usize>)
        ensures
            self@.len() == 0 ==> top is None,
            self@.len() > 0 ==> top == Some(self@.last()),
    {
        raw_top(self)
    }
}

} // verus!
