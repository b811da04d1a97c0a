//! The read side: the value that a reader stays with while it has guards.

use crate::model::StampedValue;
use std::sync::Arc;
use vstd::prelude::*;

verus! {

/// The value that a reader uses, and the number of its guards that have not been given back.
#[derive(Debug)]
pub struct Cursor<T> {
    cache: Arc<StampedValue<T>>,
    refs: usize,
}

impl<T> Cursor<T> {
    /// The value that the reader uses.
    pub closed spec fn cache(&self) -> StampedValue<T> {
        *self.cache
    }

    /// The number of guards that have not been given back.
    pub closed spec fn spec_refs(&self) -> nat {
        self.refs as nat
    }

    /// A reader that has taken up `value` and has no guards.
    pub fn new(value: Arc<StampedValue<T>>) -> (cursor: Self)
        ensures
            cursor.cache() == *value,
            cursor.spec_refs() == 0,
    {
        Self { cache: value, refs: 0 }
    }

    /// The number of guards that have not been given back.
    pub fn refs(&self) -> (refs: usize)
        ensures
            refs == self.spec_refs(),
    {
        self.refs
    }

    /// Whether the reader has no guards, so that a read moves on to the latest value.
    pub fn is_idle(&self) -> (idle: bool)
        ensures
            idle <==> self.spec_refs() == 0,
    {
        self.refs == 0
    }

    /// Moves on to `value`, and counts a first guard for it.
    pub fn advance(&mut self, value: Arc<StampedValue<T>>) -> (guarded: Arc<StampedValue<T>>)
        requires
            old(self).spec_refs() == 0,
        ensures
            final(self).cache() == *value,
            final(self).spec_refs() == 1,
            *guarded == *value,
    {
        self.cache = value;
        self.refs = 1;
        self.cache.clone()
    }

    /// Counts one more guard for the value that the reader uses.
    pub fn nest(&mut self) -> (guarded: Arc<StampedValue<T>>)
        requires
            0 < old(self).spec_refs() < usize::MAX,
        ensures
            final(self).cache() == old(self).cache(),
            final(self).spec_refs() == old(self).spec_refs() + 1,
            *guarded == old(self).cache(),
    {
        self.refs += 1;
        self.cache.clone()
    }

    /// Counts one guard less.
    pub fn release(&mut self)
        requires
            old(self).spec_refs() > 0,
        ensures
            final(self).cache() == old(self).cache(),
            final(self).spec_refs() == old(self).spec_refs() - 1,
    {
        self.refs -= 1;
    }
}

} // verus!
