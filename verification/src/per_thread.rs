//! Readers by thread.

use crate::callers::Callers;
use crate::model::{
    lemma_thread_pushed, lemma_thread_read, lemma_thread_released, slot_at, ReaderView,
    StampedValue, State, ThreadLocalView, NOT_IN_USE,
};
use crate::rcu::{Guard, Rcu, Reader, Shared};
use thread_local::ThreadLocal as Slots;
use vstd::prelude::*;

verus! {

/// `thread_local::ThreadLocal`: a value for each of several threads.
#[verifier::external_type_specification]
#[verifier::external_body]
#[verifier::reject_recursive_types(V)]
pub struct ExSlots<V: Send>(Slots<V>);

/// The values that a `thread_local::ThreadLocal` holds, by the number of the thread.
pub uninterp spec fn slots_of(slots: Slots<usize>) -> Map<nat, usize>;

/// Calls `thread_local::ThreadLocal::new`, which makes a table that holds no value.
#[verifier::external_body]
fn new_slots() -> (slots: Slots<usize>)
    ensures
        slots_of(slots) == (Map::<nat, usize>::empty()),
{
    Slots::new()
}

/// The position of the reader of each thread, and a record of the threads that have asked for
/// theirs.
struct ThreadTable {
    positions: Slots<usize>,
    callers: Callers,
}

/// Calls `thread_local::ThreadLocal::get`, which returns the value of the calling thread, if it
/// has one, and changes nothing. The number of that thread is what the record of callers gets
/// longer by; which number it is, is left open. The outside function takes a shared reference; here
/// the reference is exclusive, on account of the record.
#[verifier::external_body]
fn get_slot(slots: &mut ThreadTable) -> (slot: Option<usize>)
    ensures
        final(slots).callers@ == old(slots).callers@.push(final(slots).callers@.last()),
        slots_of(final(slots).positions) == slots_of(old(slots).positions),
        slot == slot_at(slots_of(old(slots).positions), final(slots).callers@.last()),
{
    slots.positions.get().copied()
}

/// Calls `thread_local::ThreadLocal::get_or`, which returns the value of the calling thread, and
/// stores `index` as that value if the thread has none. The number of that thread is what the
/// record of callers gets longer by; which number it is, is left open. The outside function takes a
/// shared reference; here the reference is exclusive, so that no other thread stores a value
/// meanwhile. It can panic in a thread that is ending, when it is called from the destructor of
/// another thread-local value.
#[verifier::external_body]
fn get_or_slot(slots: &mut ThreadTable, index: usize) -> (slot: usize)
    ensures
        final(slots).callers@ == old(slots).callers@.push(final(slots).callers@.last()),
        match slot_at(slots_of(old(slots).positions), final(slots).callers@.last()) {
            Some(present) => slot == present && slots_of(final(slots).positions) == slots_of(
                old(slots).positions,
            ),
            None => slot == index && slots_of(final(slots).positions) == slots_of(
                old(slots).positions,
            ).insert(final(slots).callers@.last(), index),
        },
{
    *slots.positions.get_or(|| index)
}

/// Provides thread-local storage to read [`Rcu`] values.
///
/// When a thread reads for the first time a new [`Reader`] will be created and stored in a slot for
/// that thread. The readers give up their places with [`ThreadLocal::drop`]. Where the storage goes
/// out of scope without that call they stay registered.
#[must_use]
pub struct ThreadLocal<T> {
    readers: Vec<Reader<T>>,
    slots: ThreadTable,
}

impl<T> View for ThreadLocal<T> {
    type V = ThreadLocalView<T>;

    closed spec fn view(&self) -> ThreadLocalView<T> {
        ThreadLocalView {
            readers: Seq::new(self.readers@.len(), |i: int| self.readers@[i]@),
            slots: slots_of(self.slots.positions),
        }
    }
}

impl<T> ThreadLocal<T> {
    /// The threads that have called [`ThreadLocal::get`] or [`ThreadLocal::get_or_init`], in order.
    pub closed spec fn callers(&self) -> Seq<nat> {
        self.slots.callers@
    }

    /// The thread that has called last.
    pub open spec fn caller(&self) -> nat {
        self.callers().last()
    }

    /// Constructs storage for readers of `rcu`, in which no thread has a reader yet.
    pub fn new(rcu: &Rcu<T>) -> (threads: Self)
        ensures
            threads@ == ThreadLocalView::<T>::empty(),
            threads@.readers.len() == 0,
            forall|thread: nat| !#[trigger] threads@.slots.contains_key(thread),
            threads.callers() == Seq::<nat>::empty(),
            threads@.wf(),
            threads@.attached(rcu@),
    {
        let slots = ThreadTable { positions: new_slots(), callers: Callers::new() };
        let threads = Self { readers: Vec::new(), slots };
        assert(threads@.readers =~= Seq::<ReaderView<T>>::empty());
        threads
    }

    /// Reads with the reader at position `index`.
    pub fn read_at(&mut self, shared: &mut Shared<T>, index: usize) -> (guard: Guard<T>)
        requires
            old(shared).wf(),
            old(self)@.wf(),
            old(self)@.attached(old(shared)@),
            index < old(self)@.readers.len(),
            old(self)@.readers[index as int].refs < usize::MAX,
        ensures
            final(shared).wf(),
            final(self)@.wf(),
            final(self)@.attached(final(shared)@),
            final(self).callers() == old(self).callers(),
            final(self)@ == old(self)@.read(old(shared)@, index as int),
            final(shared)@ == old(self)@.read_in(old(shared)@, index as int),
            guard@ == final(self)@.readers[index as int].cache,
            guard.reader() == final(self)@.readers[index as int].id,
            forall|id: nat, cache: StampedValue<T>|
                !old(self)@.owns(id) && old(shared)@.serves(id, cache)
                    ==> #[trigger] final(shared)@.serves(id, cache),
    {
        proof {
            lemma_thread_read(self@, shared@, index as int);
        }
        let guard = self.readers[index].read(shared);
        assert(self@.readers =~= old(self)@.read(old(shared)@, index as int).readers);
        guard
    }

    /// Reads with the reader at position `index`, and makes that reader first if the position is
    /// the next one, which a thread waits for that has no reader yet.
    pub fn read_or_enter(&mut self, shared: &mut Shared<T>, index: usize) -> (guard: Guard<T>)
        requires
            old(shared).wf(),
            old(self)@.attached(old(shared)@),
            index <= old(self)@.readers.len(),
            index < old(self)@.readers.len() ==> old(self)@.wf()
                && old(self)@.readers[index as int].refs < usize::MAX,
            index == old(self)@.readers.len() ==> exists|thread: nat| #[trigger]
                old(self)@.waits_for(thread),
        ensures
            final(shared).wf(),
            final(self)@.wf(),
            final(self)@.attached(final(shared)@),
            final(self).callers() == old(self).callers(),
            index == old(self)@.readers.len() ==> !old(shared)@.readers.contains_key(
                guard.reader(),
            ),
            final(self)@ == old(self)@.read_or_entered(
                old(shared)@,
                index as int,
                guard.reader(),
            ),
            final(shared)@ == old(self)@.read_or_entered_in(
                old(shared)@,
                index as int,
                guard.reader(),
            ),
            guard@ == final(self)@.readers[index as int].cache,
            guard.reader() == final(self)@.readers[index as int].id,
            forall|id: nat, cache: StampedValue<T>|
                !old(self)@.owns(id) && old(shared)@.serves(id, cache)
                    ==> #[trigger] final(shared)@.serves(id, cache),
    {
        if index == self.readers.len() {
            let reader = Reader::new(shared);
            let ghost id = reader@.id;
            self.readers.push(reader);
            proof {
                let thread = choose|thread: nat| #[trigger] old(self)@.waits_for(thread);
                lemma_thread_pushed(old(self)@, old(shared)@, thread, id);
                assert(self@.readers =~= old(self)@.pushed(old(shared)@, id).readers);
            }
        }
        self.read_at(shared, index)
    }

    /// Returns a guard for the current thread, if the thread has a reader.
    ///
    /// The current thread is the one that [`ThreadLocal::caller`] names afterwards. There is a
    /// guard exactly if this thread is in the table, and it comes from the reader of this thread.
    /// Without a guard nothing changes.
    pub fn get(&mut self, shared: &mut Shared<T>) -> (guard: Option<Guard<T>>)
        requires
            old(shared).wf(),
            old(self)@.wf(),
            old(self)@.attached(old(shared)@),
            forall|i: int|
                0 <= i < old(self)@.readers.len() ==> (#[trigger] old(self)@.readers[i]).refs
                    < usize::MAX,
        ensures
            final(shared).wf(),
            final(self)@.wf(),
            final(self)@.attached(final(shared)@),
            final(self).callers() == old(self).callers().push(final(self).caller()),
            guard is Some <==> old(self)@.slots.contains_key(final(self).caller()),
            guard matches Some(taken) ==> {
                let index = old(self)@.slots[final(self).caller()] as int;
                &&& final(self)@ == old(self)@.read(old(shared)@, index)
                &&& final(shared)@ == old(self)@.read_in(old(shared)@, index)
                &&& taken@ == final(self)@.readers[index].cache
                &&& taken.reader() == final(self)@.readers[index].id
            },
            guard is None ==> final(self)@ == old(self)@ && final(shared)@ == old(shared)@,
            forall|id: nat, cache: StampedValue<T>|
                !old(self)@.owns(id) && old(shared)@.serves(id, cache)
                    ==> #[trigger] final(shared)@.serves(id, cache),
    {
        let slot = get_slot(&mut self.slots);
        assert(self@ == old(self)@);
        assert(slot is Some <==> self@.slots.contains_key(self.caller()));
        match slot {
            Some(index) => Some(self.read_at(shared, index)),
            None => None,
        }
    }

    /// Returns a guard for the current thread, and creates the reader of the thread if it doesn't
    /// exist.
    ///
    /// The current thread is the one that [`ThreadLocal::caller`] names afterwards. It is then in
    /// the table, and the guard comes from its reader.
    ///
    /// This can panic in a thread that is ending, when it is called from the destructor of another
    /// thread-local value.
    pub fn get_or_init(&mut self, shared: &mut Shared<T>) -> (guard: Guard<T>)
        requires
            old(shared).wf(),
            old(self)@.wf(),
            old(self)@.attached(old(shared)@),
            forall|i: int|
                0 <= i < old(self)@.readers.len() ==> (#[trigger] old(self)@.readers[i]).refs
                    < usize::MAX,
        ensures
            final(shared).wf(),
            final(self)@.wf(),
            final(self)@.attached(final(shared)@),
            final(self).callers() == old(self).callers().push(final(self).caller()),
            final(self)@.slots.contains_key(final(self).caller()),
            !old(self)@.slots.contains_key(final(self).caller()) ==> !old(
                shared,
            )@.readers.contains_key(guard.reader()),
            ({
                let thread = final(self).caller();
                let index = final(self)@.slots[thread] as int;
                &&& index == old(self)@.position(thread)
                &&& final(self)@ == old(self)@.called(old(shared)@, thread, guard.reader())
                &&& final(shared)@ == old(self)@.called_in(old(shared)@, thread, guard.reader())
                &&& guard@ == final(self)@.readers[index].cache
                &&& guard.reader() == final(self)@.readers[index].id
            }),
            forall|id: nat, cache: StampedValue<T>|
                !old(self)@.owns(id) && old(shared)@.serves(id, cache)
                    ==> #[trigger] final(shared)@.serves(id, cache),
    {
        let next = self.readers.len();
        let index = get_or_slot(&mut self.slots, next);
        proof {
            let thread = self.caller();
            assert(self@.readers =~= old(self)@.readers);
            assert(index == old(self)@.position(thread));
            assert(self@ == old(self)@.assigned(thread));
            if index == next {
                assert(self@.slots.remove(thread) =~= old(self)@.slots);
                assert(self@.waits_for(thread));
            }
        }
        self.read_or_enter(shared, index)
    }

    /// Gives a guard back to the reader that it was taken from.
    pub fn release(&mut self, guard: Guard<T>)
        requires
            old(self)@.wf(),
            old(self)@.owns(guard.reader()),
            forall|i: int|
                0 <= i < old(self)@.readers.len() && (#[trigger] old(self)@.readers[i]).id
                    == guard.reader() ==> old(self)@.readers[i].refs > 0
                    && old(self)@.readers[i].cache == guard@,
        ensures
            final(self)@.wf(),
            final(self).callers() == old(self).callers(),
            forall|i: int|
                0 <= i < old(self)@.readers.len() && (#[trigger] old(self)@.readers[i]).id
                    == guard.reader() ==> final(self)@ == old(self)@.released(i),
            forall|state: State<T>|
                old(self)@.attached(state) ==> #[trigger] final(self)@.attached(state),
    {
        let mut index: usize = 0;
        while index < self.readers.len() && !guard.is_from(&self.readers[index])
            invariant
                *self == *old(self),
                index <= self.readers@.len(),
                forall|i: int|
                    0 <= i < index ==> (#[trigger] self@.readers[i]).id != guard.reader(),
            decreases self.readers@.len() - index,
        {
            assert(self@.readers[index as int].id != guard.reader());
            index += 1;
        }
        proof {
            lemma_thread_released(self@, index as int);
            assert(self@.readers[index as int].id == guard.reader());
        }
        guard.drop(&mut self.readers[index]);
        assert(self@.readers =~= old(self)@.released(index as int).readers);
    }

    /// Gives up the places of all the readers.
    pub fn drop(self, shared: &mut Shared<T>)
        requires
            old(shared).wf(),
            self@.wf(),
            self@.attached(old(shared)@),
            forall|i: int|
                0 <= i < self@.readers.len() ==> (#[trigger] self@.readers[i]).refs == 0,
        ensures
            final(shared).wf(),
            final(shared)@ == self@.retired_in(old(shared)@),
            forall|id: nat, cache: StampedValue<T>|
                !self@.owns(id) && old(shared)@.serves(id, cache)
                    ==> #[trigger] final(shared)@.serves(id, cache),
    {
        let ghost threads = self@;
        let ghost state = shared@;
        let mut readers = self.readers;
        while readers.len() > 0
            invariant
                shared.wf(),
                threads.wf(),
                threads.attached(state),
                forall|i: int|
                    0 <= i < threads.readers.len() ==> (#[trigger] threads.readers[i]).refs == 0,
                readers@.len() <= threads.readers.len(),
                forall|i: int|
                    0 <= i < readers@.len() ==> (#[trigger] readers@[i])@ == threads.readers[i]
                        && readers@[i].attached(shared@),
                shared@.latest == state.latest,
                shared@.pending == state.pending,
                shared@.readers.dom() == state.readers.dom(),
                forall|i: int|
                    readers@.len() <= i < threads.readers.len()
                        ==> shared@.readers[(#[trigger] threads.readers[i]).id] == NOT_IN_USE,
                forall|id: nat| !threads.owns(id) ==> #[trigger] shared@.readers[id] == state.readers[id],
            decreases readers@.len(),
        {
            let ghost last = readers@.len() - 1;
            assert(threads.readers[last].id == readers@[last]@.id);
            if let Some(reader) = readers.pop() {
                reader.drop(shared);
            }
        }
        proof {
            assert(shared@.readers =~= threads.retired_in(state).readers);
        }
    }
}

} // verus!
