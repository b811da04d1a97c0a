//! The table of readers: the epoch that each reader has published, by the place of the reader.

use crate::model::{is_live, live, NOT_IN_USE};
use vstd::prelude::*;

verus! {

/// The epoch that one reader has published.
#[derive(Debug)]
pub(crate) struct ReaderState(u64);

impl ReaderState {
    pub(crate) closed spec fn view(&self) -> u64 {
        self.0
    }

    fn new(epoch: u64) -> (state: Self)
        ensures
            state@ == epoch,
    {
        Self(epoch)
    }

    fn mark_dropped(&mut self)
        ensures
            final(self)@ == NOT_IN_USE,
    {
        self.set(NOT_IN_USE)
    }

    fn set(&mut self, epoch: u64)
        ensures
            final(self)@ == epoch,
    {
        self.0 = epoch;
    }

    fn get(&self) -> (epoch: u64)
        ensures
            epoch == self@,
    {
        self.0
    }
}

/// The published epochs of all readers. A place is vacant before a reader enters it and after the
/// reader has been trimmed.
#[derive(Debug)]
pub(crate) struct Registry {
    places: Vec<Option<ReaderState>>,
}

impl Registry {
    /// The published epoch of every reader in the table.
    pub(crate) closed spec fn view(&self) -> Map<nat, u64> {
        Map::new(
            |id: nat| id < self.places@.len() && self.places@[id as int] is Some,
            |id: nat| self.places@[id as int]->0@,
        )
    }

    pub(crate) fn new() -> (registry: Self)
        ensures
            registry@ == Map::<nat, u64>::empty(),
    {
        let registry = Self { places: Vec::new() };
        assert(registry@ =~= Map::<nat, u64>::empty());
        registry
    }

    /// Enters a reader at `epoch` and returns its place, which was vacant.
    pub(crate) fn register(&mut self, epoch: u64) -> (id: usize)
        ensures
            !old(self)@.contains_key(id as nat),
            final(self)@ == old(self)@.insert(id as nat, epoch),
    {
        let state = ReaderState::new(epoch);
        let mut id: usize = 0;
        while id < self.places.len()
            invariant
                id <= self.places@.len(),
                *self == *old(self),
                state@ == epoch,
            decreases self.places@.len() - id,
        {
            if self.places[id].is_none() {
                self.places.set(id, Some(state));
                assert(self@ =~= old(self)@.insert(id as nat, epoch));
                return id;
            }
            id += 1;
        }
        self.places.push(Some(state));
        assert(self@ =~= old(self)@.insert(id as nat, epoch));
        id
    }

    /// Lets the reader at place `id` publish `epoch`.
    pub(crate) fn publish(&mut self, id: usize, epoch: u64)
        requires
            old(self)@.contains_key(id as nat),
        ensures
            final(self)@ == old(self)@.insert(id as nat, epoch),
    {
        if let Some(state) = &mut self.places[id] {
            state.set(epoch);
        }
        assert(self@ =~= old(self)@.insert(id as nat, epoch));
    }

    /// Marks the reader at place `id` as dropped.
    pub(crate) fn retire(&mut self, id: usize)
        requires
            old(self)@.contains_key(id as nat),
        ensures
            final(self)@ == old(self)@.insert(id as nat, NOT_IN_USE),
    {
        if let Some(state) = &mut self.places[id] {
            state.mark_dropped();
        }
        assert(self@ =~= old(self)@.insert(id as nat, NOT_IN_USE));
    }

    /// Vacates the places of the readers that have been dropped.
    pub(crate) fn trim(&mut self)
        ensures
            final(self)@ == live(old(self)@),
    {
        let mut id: usize = 0;
        while id < self.places.len()
            invariant
                id <= self.places@.len(),
                self.places@.len() == old(self).places@.len(),
                forall|i: int|
                    0 <= i < id ==> #[trigger] self.places@[i] == (if old(self).places@[i] is Some
                        && old(self).places@[i]->0@ > NOT_IN_USE {
                        old(self).places@[i]
                    } else {
                        None
                    }),
                forall|i: int|
                    id <= i < self.places@.len() ==> #[trigger] self.places@[i] == old(
                        self,
                    ).places@[i],
            decreases self.places@.len() - id,
        {
            let dropped = match &self.places[id] {
                Some(state) => !is_live(state.get()),
                None => false,
            };
            if dropped {
                self.places.set(id, None);
            }
            id += 1;
        }
        assert(self@ =~= live(old(self)@));
    }

    /// The epochs that the readers in the table have published.
    pub(crate) fn epochs(&self) -> (epochs: Vec<u64>)
        ensures
            epochs@.to_set() == self@.values(),
    {
        let mut epochs: Vec<u64> = Vec::new();
        let mut id: usize = 0;
        while id < self.places.len()
            invariant
                id <= self.places@.len(),
                forall|i: int|
                    0 <= i < epochs@.len() ==> self@.values().contains(#[trigger] epochs@[i]),
                forall|i: nat|
                    i < id && #[trigger] self@.contains_key(i) ==> epochs@.contains(self@[i]),
            decreases self.places@.len() - id,
        {
            if let Some(state) = &self.places[id] {
                let ghost before = epochs@;
                epochs.push(state.get());
                assert(self@.contains_key(id as nat));
                assert(epochs@.last() == self@[id as nat]);
                assert forall|i: nat| i <= id && #[trigger] self@.contains_key(i) implies epochs@
                    .contains(self@[i]) by {
                    if i < id {
                        let j = before.index_of(self@[i]);
                        assert(epochs@[j] == self@[i]);
                    }
                }
            }
            id += 1;
        }
        assert(epochs@.to_set() =~= self@.values());
        epochs
    }
}

} // verus!
