//! A value paired with a flag that records whether it was handed out
//! for mutation since the flag was last reset.

use vstd::prelude::*;

verus! {

/// A value with mutation detection: borrowing it mutably sets the
/// flag, [`MutDetect::reset`] clears it.
pub struct MutDetect<T> {
    inner: T,
    mutated: bool,
}

impl<T> MutDetect<T> {
    /// The value held.
    pub closed spec fn spec_inner(self) -> T {
        self.inner
    }

    /// Whether the value was borrowed mutably since the last reset.
    pub closed spec fn spec_mutated(self) -> bool {
        self.mutated
    }

    /// Wraps `inner`, not yet mutated.
    pub fn new(inner: T) -> (r: Self)
        ensures
            r.spec_inner() == inner,
            !r.spec_mutated(),
    {
        Self { inner, mutated: false }
    }

    /// Whether the value was borrowed mutably since the last reset.
    pub fn mutated(&self) -> (r: bool)
        ensures
            r == self.spec_mutated(),
    {
        self.mutated
    }

    /// Clears the mutation flag; the value stays.
    pub fn reset(&mut self)
        ensures
            final(self).spec_inner() == old(self).spec_inner(),
            !final(self).spec_mutated(),
    {
        self.mutated = false;
    }

    /// The value, unwrapped.
    pub fn take(self) -> (r: T)
        ensures
            r == self.spec_inner(),
    {
        self.inner
    }

    /// Borrows the value.
    pub fn get(&self) -> (r: &T)
        ensures
            *r == self.spec_inner(),
    {
        &self.inner
    }

    /// Borrows the value for mutation, which sets the flag.
    pub fn get_mut(&mut self) -> (r: &mut T)
        ensures
            *r == old(self).spec_inner(),
            final(self).spec_inner() == *final(r),
            final(self).spec_mutated(),
    {
        self.mutated = true;
        &mut self.inner
    }
}

impl<T> core::ops::Deref for MutDetect<T> {
    type Target = T;

    fn deref(&self) -> (r: &T)
        ensures
            *r == self.spec_inner(),
    {
        &self.inner
    }
}

} // verus!
