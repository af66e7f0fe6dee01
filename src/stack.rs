use vstd::prelude::*;

verus! {

/// Failure of a stack operation.
#[derive(Debug, Clone, Copy, PartialEq, Eq, Structural)]
pub enum StackError {
    /// Pushing onto a stack that already holds `N` elements.
    StackFull,
    /// Popping from an empty stack.
    StackEmpty,
}

/// Fixed-capacity stack storing at most `N` elements of type `T`.
pub struct Stack<T: Copy, const N: usize> {
    /// The stored elements, bottom first.
    data: Vec<T>,
}

impl<T: Copy, const N: usize> View for Stack<T, N> {
    type V = Seq<T>;

    /// The elements, from the bottom of the stack to its top.
    closed spec fn view(&self) -> Seq<T> {
        self.data@
    }
}

impl<T: Copy, const N: usize> Stack<T, N> {
    /// The stack never holds more than its capacity.
    pub open spec fn wf(&self) -> bool {
        self@.len() <= N
    }

    /// Creates an empty stack.
    pub fn new() -> (r: Self)
        ensures
            r@ == Seq::<T>::empty(),
            r.wf(),
    {
        Stack { data: Vec::new() }
    }

    /// Pushes `value` on top of the stack, unless the stack is full.
    pub fn push(&mut self, value: T) -> (r: Result<(), StackError>)
        requires
            old(self).wf(),
        ensures
            final(self).wf(),
            old(self)@.len() < N ==> r == Ok::<(), StackError>(()) && final(self)@ == old(self)@.push(value),
            old(self)@.len() >= N ==> r == Err::<(), StackError>(StackError::StackFull) && final(self)@ == old(self)@,
    {
        if self.data.len() < N {
            self.data.push(value);
            Ok(())
        } else {
            Err(StackError::StackFull)
        }
    }

    /// Removes and returns the top of the stack, unless the stack is empty.
    pub fn pop(&mut self) -> (r: Result<T, StackError>)
        requires
            old(self).wf(),
        ensures
            final(self).wf(),
            old(self)@.len() > 0 ==> r == Ok::<T, StackError>(old(self)@.last()) && final(self)@ == old(self)@.drop_last(),
            old(self)@.len() == 0 ==> r == Err::<T, StackError>(StackError::StackEmpty) && final(self)@ == old(self)@,
    {
        match self.data.pop() {
            Some(v) => Ok(v),
            None => Err(StackError::StackEmpty),
        }
    }
}

impl<T: Copy, const N: usize> Default for Stack<T, N> {
    fn default() -> (r: Self)
        ensures
            r@ == Seq::<T>::empty(),
    {
        Stack::new()
    }
}

} // verus!
