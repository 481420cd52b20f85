//! A place for one result.

use vstd::prelude::*;

verus! {

/// A slot that is written exactly once and read after all chunks are done.
pub struct WriteOnceSlot<T>(Option<T>);

impl<T> WriteOnceSlot<T> {
    /// What the slot holds.
    pub closed spec fn view(self) -> Option<T> {
        self.0
    }

    /// An empty slot.
    pub fn new() -> (r: Self)
        ensures
            r@ is None,
    {
        Self(None)
    }

    /// Store a value. Must be called at most once.
    pub fn set(&mut self, value: T)
        requires
            old(self)@ is None,
        ensures
            final(self)@ == Some(value),
    {
        self.0 = Some(value);
    }

    /// The value stored, if one was, to look at.
    pub fn get(&self) -> (r: Option<&T>)
        ensures
            match r {
                Some(value) => self@ == Some(*value),
                None => self@ is None,
            },
    {
        match &self.0 {
            Some(value) => Some(value),
            None => None,
        }
    }

    /// The value stored, if one was.
    pub fn into_inner(self) -> (r: Option<T>)
        ensures
            r == self@,
    {
        self.0
    }
}

} // verus!
