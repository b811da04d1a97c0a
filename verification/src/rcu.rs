//! The lock, its readers and their guards.

use crate::cursor::Cursor;
use crate::model::{
    lemma_installed, lemma_kept_splits, lemma_published, lemma_reclaimed, lemma_retired, live,
    swapped, ReaderView, StampedValue, State,
};
use crate::registry::Registry;
use crate::writer::Writer;
use std::ops::Deref;
use std::sync::Arc;
use vstd::prelude::*;

verus! {

/// Represents a read-copy-update lock for a specific value.
///
/// This is the write side, new read handles can be constructed by calling [`Rcu::reader`]. Giving
/// up the write side with [`Rcu::drop`] leaves the values to the readers.
#[derive(Debug)]
pub struct Rcu<T> {
    shared: Shared<T>,
}

/// What the write side and the readers of a lock share: the latest value, the earlier values that
/// readers may still be using, and the table of readers.
#[derive(Debug)]
pub struct Shared<T> {
    ptr: Pointer<T>,
    reclaim: Writer<T>,
    readers: Registry,
}

/// The reader handle for a value stored in an [`Rcu`].
///
/// Specific values can be read using [`Reader::read`]. A reader belongs to the lock that it was
/// registered with, and gives up its place there with [`Reader::drop`]. One that goes out of scope
/// without that call stays registered, and the values from its own on are kept.
#[derive(Debug)]
#[must_use]
pub struct Reader<T> {
    cursor: Cursor<T>,
    id: usize,
}

/// Access to a value that is not reclaimed before the guard is given back with [`Guard::drop`]. One
/// that goes out of scope without that call still counts, and its reader stays with the value.
#[derive(Debug)]
#[must_use]
pub struct Guard<T> {
    cache: Arc<StampedValue<T>>,
    reader: usize,
}

/// The place where the latest value is published.
#[derive(Debug)]
pub struct Pointer<T>(Arc<StampedValue<T>>);

impl<T> View for Pointer<T> {
    type V = StampedValue<T>;

    closed spec fn view(&self) -> StampedValue<T> {
        *self.0
    }
}

impl<T> Pointer<T> {
    /// Publishes a first value.
    pub fn new(value: StampedValue<T>) -> (pointer: Self)
        ensures
            pointer@ == value,
    {
        Self(Arc::new(value))
    }

    /// Publishes a value in place of the one that was published before, and hands that one back.
    pub fn swap(&mut self, value: StampedValue<T>) -> (prev: Arc<StampedValue<T>>)
        ensures
            (*prev, final(self)@) == swapped(old(self)@, value),
    {
        let mut prev = Arc::new(value);
        std::mem::swap(&mut prev, &mut self.0);
        prev
    }

    /// Returns the published value, which stays published.
    pub fn load(&self) -> (value: Arc<StampedValue<T>>)
        ensures
            *value == self@,
    {
        self.0.clone()
    }
}

impl<T> View for Shared<T> {
    type V = State<T>;

    closed spec fn view(&self) -> State<T> {
        State {
            latest: self.ptr@,
            pending: self.reclaim.pending(),
            readers: self.readers@,
        }
    }
}

impl<T> Shared<T> {
    /// The state is well formed, and the writer is at the epoch of the latest value.
    pub open spec fn wf(&self) -> bool {
        self@.wf() && self.writer_epoch() == self@.latest.epoch
    }

    /// The epoch that the writer has reached.
    pub closed spec fn writer_epoch(&self) -> u64 {
        self.reclaim.spec_epoch()
    }
}

impl<T> View for Rcu<T> {
    type V = State<T>;

    open spec fn view(&self) -> State<T> {
        self.spec_shared()@
    }
}

impl<T: Default> Default for Rcu<T> {
    /// Constructs a new lock that holds the default value of its type.
    fn default() -> (rcu: Self)
        ensures
            rcu.wf(),
            exists|value: T| #[trigger]
                T::default.ensures((), value) && rcu@ == State::initial(value),
    {
        Self::new(T::default())
    }
}

impl<T> Rcu<T> {
    /// What the write side shares with the readers.
    pub closed spec fn spec_shared(&self) -> Shared<T> {
        self.shared
    }

    /// The shared state is well formed.
    pub open spec fn wf(&self) -> bool {
        self.spec_shared().wf()
    }

    /// Constructs a new lock with an initial value.
    pub fn new(value: T) -> (rcu: Self)
        ensures
            rcu.wf(),
            rcu@ == State::initial(value),
    {
        Self {
            shared: Shared {
                ptr: Pointer::new(StampedValue { value, epoch: 1 }),
                reclaim: Writer::new(),
                readers: Registry::new(),
            },
        }
    }

    /// The epoch of the latest value.
    pub fn epoch(&self) -> (epoch: u64)
        requires
            self.wf(),
        ensures
            epoch == self@.latest.epoch,
    {
        self.shared.reclaim.epoch()
    }

    /// What the write side shares with the readers, for a reader to work on.
    pub fn shared(&mut self) -> (shared: &mut Shared<T>)
        ensures
            *shared == old(self).spec_shared(),
            final(self).spec_shared() == *final(shared),
    {
        &mut self.shared
    }

    /// Gives up the write side. What is shared stays, so that readers can go on reading what was
    /// written last.
    pub fn drop(self) -> (shared: Shared<T>)
        ensures
            shared == self.spec_shared(),
    {
        self.shared
    }

    /// Registers a new [`Reader`] allowing values to be read.
    pub fn reader(&mut self) -> (reader: Reader<T>)
        requires
            old(self).wf(),
        ensures
            final(self).wf(),
            !old(self)@.readers.contains_key(reader@.id),
            reader@ == ReaderView::registered(old(self)@, reader@.id),
            final(self)@ == old(self)@.published(reader@.id),
            reader.attached(final(self)@),
            forall|id: nat, cache: StampedValue<T>|
                old(self)@.serves(id, cache) ==> #[trigger] final(self)@.serves(id, cache),
    {
        Reader::new(&mut self.shared)
    }

    /// Write a new value making it available to all readers.
    ///
    /// Previously written values will be reclaimed when they are no longer accessed. The epoch is
    /// not allowed to wrap around.
    pub fn write(&mut self, value: T)
        requires
            old(self).wf(),
            old(self)@.latest.epoch < u64::MAX,
        ensures
            final(self).wf(),
            final(self)@ == old(self)@.written(value),
            forall|id: nat, cache: StampedValue<T>|
                old(self)@.serves(id, cache) ==> #[trigger] final(self)@.serves(id, cache),
    {
        proof {
            lemma_installed(old(self)@, value);
        }
        // Publish the value, we will attempt to reclaim the previous value.
        let next = self.shared.reclaim.stamp(value);
        let prev = self.shared.ptr.swap(next);
        self.shared.reclaim.retire(prev);
        assert(self@ == old(self)@.installed(value));

        // Immediately attempt to reclaim.
        self.try_reclaim();
    }

    /// Try and reclaim any values which are no longer in-use.
    ///
    /// Returns the number of values still waiting to be reclaimed.
    pub fn try_reclaim(&mut self) -> (waiting: usize)
        requires
            old(self).wf(),
        ensures
            final(self).wf(),
            final(self)@ == old(self)@.reclaimed(),
            waiting == final(self)@.pending.len(),
            forall|id: nat, cache: StampedValue<T>|
                old(self)@.serves(id, cache) ==> #[trigger] final(self)@.serves(id, cache),
    {
        proof {
            lemma_reclaimed(old(self)@);
            lemma_kept_splits(old(self)@.pending, live(old(self)@.readers).values());
        }
        // Trim readers which have been removed.
        self.shared.readers.trim();

        // Let go of what the others have moved past.
        let seen = self.shared.readers.epochs();
        let _ = self.shared.reclaim.take_unused(&seen);
        self.shared.reclaim.waiting()
    }
}

impl<T> View for Reader<T> {
    type V = ReaderView<T>;

    closed spec fn view(&self) -> ReaderView<T> {
        ReaderView {
            id: self.id as nat,
            cache: self.cursor.cache(),
            refs: self.cursor.spec_refs(),
        }
    }
}

impl<T> Reader<T> {
    /// Whether the lock has this reader in its table, at the epoch of the value that it uses, and
    /// still holds that value.
    pub open spec fn attached(&self, state: State<T>) -> bool {
        state.serves(self@.id, self@.cache)
    }

    pub(crate) fn new(shared: &mut Shared<T>) -> (reader: Self)
        requires
            old(shared).wf(),
        ensures
            final(shared).wf(),
            !old(shared)@.readers.contains_key(reader@.id),
            reader@ == ReaderView::registered(old(shared)@, reader@.id),
            final(shared)@ == old(shared)@.published(reader@.id),
            reader.attached(final(shared)@),
            forall|id: nat, cache: StampedValue<T>|
                old(shared)@.serves(id, cache) ==> #[trigger] final(shared)@.serves(id, cache),
    {
        let value = shared.ptr.load();
        let id = shared.readers.register(value.epoch);
        proof {
            lemma_published(old(shared)@, id as nat);
        }
        Reader { cursor: Cursor::new(value), id }
    }

    /// The number of guards that have not been given back.
    pub fn refs(&self) -> (refs: usize)
        ensures
            refs == self@.refs,
    {
        self.cursor.refs()
    }

    /// Reads the latest value guarded to ensure that the value will not be reclaimed while the
    /// current reader has access.
    ///
    /// Only a reader without guards moves on to the latest value. As long as it has guards, the
    /// published epoch is the epoch of the value that all of them give access to.
    pub fn read(&mut self, shared: &mut Shared<T>) -> (guard: Guard<T>)
        requires
            old(shared).wf(),
            old(self).attached(old(shared)@),
            old(self)@.refs < usize::MAX,
        ensures
            final(shared).wf(),
            final(self)@ == old(self)@.read(old(shared)@),
            final(shared)@ == old(self)@.read_in(old(shared)@),
            guard@ == final(self)@.cache,
            guard.reader() == final(self)@.id,
            final(self).attached(final(shared)@),
            forall|id: nat, cache: StampedValue<T>|
                id != old(self)@.id && old(shared)@.serves(id, cache)
                    ==> #[trigger] final(shared)@.serves(id, cache),
    {
        let cache = if self.cursor.is_idle() {
            let value = shared.ptr.load();
            proof {
                lemma_published(shared@, self.id as nat);
            }
            let epoch = value.epoch;

            // Cache the value in the current reader.
            let cache = self.cursor.advance(value);

            // Update the epoch to note that we are currently using this value.
            shared.readers.publish(self.id, epoch);
            cache
        } else {
            self.cursor.nest()
        };
        Guard { cache, reader: self.id }
    }

    /// Gives up the place of the reader, and with it the hold on the value that it used.
    pub fn drop(self, shared: &mut Shared<T>)
        requires
            old(shared).wf(),
            self.attached(old(shared)@),
            self@.refs == 0,
        ensures
            final(shared).wf(),
            final(shared)@ == old(shared)@.retired(self@.id),
            forall|id: nat, cache: StampedValue<T>|
                id != self@.id && old(shared)@.serves(id, cache)
                    ==> #[trigger] final(shared)@.serves(id, cache),
    {
        proof {
            lemma_retired(shared@, self.id as nat);
        }
        shared.readers.retire(self.id);
    }
}

impl<T> View for Guard<T> {
    type V = StampedValue<T>;

    closed spec fn view(&self) -> StampedValue<T> {
        *self.cache
    }
}

impl<T> Deref for Guard<T> {
    type Target = T;

    fn deref(&self) -> (value: &T)
        ensures
            *value == self@.value,
    {
        &self.cache.value
    }
}

impl<T> Guard<T> {
    /// The place of the reader that the guard was taken from.
    pub closed spec fn reader(&self) -> nat {
        self.reader as nat
    }

    /// Whether the guard was taken from a reader at the place of `reader`. Within one lock that is
    /// `reader` itself.
    pub fn is_from(&self, reader: &Reader<T>) -> (same: bool)
        ensures
            same <==> self.reader() == reader@.id,
    {
        self.reader == reader.id
    }

    /// Gives the guard back to its reader.
    pub fn drop(self, reader: &mut Reader<T>)
        requires
            self.reader() == old(reader)@.id,
            self@ == old(reader)@.cache,
            old(reader)@.refs > 0,
        ensures
            final(reader)@ == old(reader)@.released(),
    {
        reader.cursor.release();
    }
}

} // verus!
