//! A record of the threads that have called.

use vstd::prelude::*;

verus! {

/// The threads that have asked a table for their value, in order, by their numbers.
///
/// The record is there for contracts and is not kept at run time. Its content is private to this
/// module, which does no more than begin a record: elsewhere a record gets longer only by asking
/// the table that it belongs to, and then by the number of the thread that asks.
pub(crate) struct Callers(Ghost<Seq<nat>>);

impl Callers {
    pub(crate) closed spec fn view(&self) -> Seq<nat> {
        self.0@
    }

    /// A record of no calls.
    pub(crate) fn new() -> (callers: Self)
        ensures
            callers@ == Seq::<nat>::empty(),
    {
        Self(Ghost(Seq::empty()))
    }
}

} // verus!
