//! What holds of the lock as a whole, whatever its writer and its readers do.

use crate::model::{
    in_use, lemma_collected_retains, lemma_installed, lemma_kept_is_suffix, lemma_kept_splits,
    lemma_live_in_use, lemma_nothing_else_comes_in, lemma_published, lemma_reclaimed,
    lemma_retired, live, slot_at, swapped, was_written, ReaderView, StampedValue, State,
    ThreadLocalView, NOT_IN_USE,
};
use vstd::prelude::*;

verus! {

/// One thing that the writer or a reader does to the lock. A write is an `Install` and a
/// `Reclaim`. A reader publishes when it enters the table and when it moves on to the latest
/// value, and retires when it is dropped.
pub ghost enum Step<T> {
    Install(T),
    Reclaim,
    Publish(nat),
    Retire(nat),
}

impl<T> Step<T> {
    /// The state after the step.
    pub open spec fn apply(self, state: State<T>) -> State<T> {
        match self {
            Step::Install(value) => state.installed(value),
            Step::Reclaim => state.reclaimed(),
            Step::Publish(id) => state.published(id),
            Step::Retire(id) => state.retired(id),
        }
    }

    /// Epochs do not wrap around.
    pub open spec fn enabled(self, state: State<T>) -> bool {
        self is Install ==> state.latest.epoch < u64::MAX
    }

    /// Whether reader `id` takes this step.
    pub open spec fn is_by(self, id: nat) -> bool {
        self == Step::<T>::Publish(id) || self == Step::<T>::Retire(id)
    }
}

/// The state after all the steps, in order.
pub open spec fn run<T>(state: State<T>, steps: Seq<Step<T>>) -> State<T>
    decreases steps.len(),
{
    if steps.len() == 0 {
        state
    } else {
        steps.last().apply(run(state, steps.drop_last()))
    }
}

/// Whether each of the steps can be taken where its turn comes.
pub open spec fn runs<T>(state: State<T>, steps: Seq<Step<T>>) -> bool
    decreases steps.len(),
{
    steps.len() == 0 || (runs(state, steps.drop_last()) && steps.last().enabled(
        run(state, steps.drop_last()),
    ))
}

/// The values that have been the latest one, in order, when `steps` begin with `value`.
pub open spec fn history<T>(value: T, steps: Seq<Step<T>>) -> Seq<T>
    decreases steps.len(),
{
    if steps.len() == 0 {
        seq![value]
    } else {
        match steps.last() {
            Step::Install(next) => history(value, steps.drop_last()).push(next),
            _ => history(value, steps.drop_last()),
        }
    }
}

/// No step leaves the lock in a state that is not well formed: the values it holds carry
/// consecutive epochs, and reach back to every epoch that a live reader has published.
pub proof fn every_state_is_well_formed<T>(state: State<T>, steps: Seq<Step<T>>)
    requires
        state.wf(),
        runs(state, steps),
    ensures
        run(state, steps).wf(),
    decreases steps.len(),
{
    if steps.len() > 0 {
        let before = run(state, steps.drop_last());
        every_state_is_well_formed(state, steps.drop_last());
        match steps.last() {
            Step::Install(value) => lemma_installed(before, value),
            Step::Reclaim => lemma_reclaimed(before),
            Step::Publish(id) => lemma_published(before, id),
            Step::Retire(id) => lemma_retired(before, id),
        }
    }
}

/// Every value that the lock holds is the one that was written in the epoch of its stamp, and the
/// latest value is the one that was written last.
pub proof fn every_held_value_was_written<T>(value: T, steps: Seq<Step<T>>)
    requires
        runs(State::initial(value), steps),
    ensures
        run(State::initial(value), steps).latest.epoch == history(value, steps).len(),
        run(State::initial(value), steps).latest.value == history(value, steps).last(),
        forall|stamped: StampedValue<T>| #[trigger]
            run(State::initial(value), steps).retains(stamped) ==> was_written(
                stamped,
                history(value, steps),
            ),
    decreases steps.len(),
{
    let state = State::initial(value);
    let after = run(state, steps);
    if steps.len() > 0 {
        let init = steps.drop_last();
        let before = run(state, init);
        every_held_value_was_written(value, init);
        every_state_is_well_formed(state, init);
        let seen = live(before.readers).values();
        match steps.last() {
            Step::Install(next) => lemma_nothing_else_comes_in(before, next, seen),
            Step::Reclaim => {
                lemma_nothing_else_comes_in(before, value, seen);
                assert forall|stamped: StampedValue<T>| #[trigger]
                    after.retains(stamped) implies before.retains(stamped) by {
                    assert(before.collected(seen).retains(stamped));
                }
            },
            _ => {
                assert forall|stamped: StampedValue<T>| #[trigger]
                    after.retains(stamped) implies before.retains(stamped) by {}
            },
        }
    }
}

/// An epoch belongs to one value: of two values that were written, with the same stamp, both are
/// the one that stands at that place among the values that were written.
pub proof fn stamp_tells_the_value<T>(
    a: StampedValue<T>,
    b: StampedValue<T>,
    history: Seq<T>,
)
    requires
        was_written(a, history),
        was_written(b, history),
        a.epoch == b.epoch,
    ensures
        a == b,
        1 <= a.epoch <= history.len(),
        a.value == history[a.epoch - 1],
{
}

/// A reader's published epoch only grows until the reader is dropped.
pub proof fn published_epochs_only_grow<T>(state: State<T>, steps: Seq<Step<T>>, id: nat)
    requires
        state.wf(),
        runs(state, steps),
        live(state.readers).contains_key(id),
        !steps.contains(Step::Retire(id)),
    ensures
        live(run(state, steps).readers).contains_key(id),
        state.readers[id] <= run(state, steps).readers[id],
    decreases steps.len(),
{
    if steps.len() > 0 {
        let init = steps.drop_last();
        assert forall|i: int| 0 <= i < init.len() implies init[i] != Step::<T>::Retire(id) by {
            assert(steps.contains(steps[i]));
        }
        assert(steps.contains(steps.last()));
        published_epochs_only_grow(state, init, id);
        every_state_is_well_formed(state, init);
    }
}

/// As long as a reader stays at the epoch that it has published, nothing of that epoch or a later
/// one is reclaimed, whatever the writer and the other readers do. This holds of the value that
/// the guards of the reader give access to, and of any later value that the reader has taken up
/// without having published its epoch yet.
pub proof fn values_from_published_epoch_on_are_kept<T>(
    state: State<T>,
    steps: Seq<Step<T>>,
    id: nat,
    stamped: StampedValue<T>,
)
    requires
        state.wf(),
        runs(state, steps),
        live(state.readers).contains_key(id),
        state.readers[id] <= stamped.epoch,
        state.retains(stamped),
        forall|i: int| 0 <= i < steps.len() ==> !(#[trigger] steps[i]).is_by(id),
    ensures
        run(state, steps).retains(stamped),
        live(run(state, steps).readers).contains_key(id),
        run(state, steps).readers[id] == state.readers[id],
    decreases steps.len(),
{
    if steps.len() > 0 {
        let init = steps.drop_last();
        let before = run(state, init);
        assert forall|i: int| 0 <= i < init.len() implies !(#[trigger] init[i]).is_by(id) by {
            assert(init[i] == steps[i]);
        }
        values_from_published_epoch_on_are_kept(state, init, id, stamped);
        every_state_is_well_formed(state, init);
        assert(!steps.last().is_by(id));
        match steps.last() {
            Step::Install(value) => lemma_installed(before, value),
            Step::Reclaim => {
                let seen = live(before.readers).values();
                lemma_live_in_use(before.readers, id, stamped.epoch);
                lemma_collected_retains(before, seen, stamped);
                assert(before.collected(seen).retains(stamped));
            },
            _ => {},
        }
    }
}

/// The value that a reader uses is not reclaimed before the reader itself moves on or is dropped,
/// whatever the writer and the other readers do.
pub proof fn value_in_use_is_not_reclaimed<T>(
    state: State<T>,
    steps: Seq<Step<T>>,
    id: nat,
    cache: StampedValue<T>,
)
    requires
        state.wf(),
        runs(state, steps),
        state.serves(id, cache),
        forall|i: int| 0 <= i < steps.len() ==> !(#[trigger] steps[i]).is_by(id),
    ensures
        run(state, steps).serves(id, cache),
{
    values_from_published_epoch_on_are_kept(state, steps, id, cache);
}

/// A value goes exactly when every live reader has published a later epoch.
pub proof fn exactly_the_unused_values_are_reclaimed<T>(state: State<T>, stamped: StampedValue<T>)
    requires
        state.wf(),
        state.pending.contains(stamped),
    ensures
        !state.reclaimed().pending.contains(stamped) <==> forall|id: nat| #[trigger]
            live(state.readers).contains_key(id) ==> state.readers[id] > stamped.epoch,
{
    let readers = live(state.readers);
    let seen = readers.values();
    let k = lemma_kept_splits(state.pending, seen);
    let i = state.pending.index_of(stamped);
    let next = state.reclaimed();
    if in_use(seen, stamped.epoch) {
        assert(next.pending[i - k] == stamped);
        let earlier = choose|earlier: u64| #[trigger]
            seen.contains(earlier) && earlier <= stamped.epoch;
        let id = choose|id: nat| #[trigger] readers.contains_key(id) && readers[id] == earlier;
        assert(readers.contains_key(id) && state.readers[id] <= stamped.epoch);
    } else {
        if next.pending.contains(stamped) {
            let j = next.pending.index_of(stamped);
            assert(state.pending[k + j] == stamped);
        }
        assert forall|id: nat| #[trigger] readers.contains_key(id) implies state.readers[id]
            > stamped.epoch by {
            assert(seen.contains(readers[id]));
        }
    }
}

/// Values are reclaimed in the order in which they were written: what remains is the end of what
/// was waiting.
pub proof fn oldest_values_are_reclaimed_first<T>(state: State<T>)
    requires
        state.wf(),
    ensures
        state.reclaimed().pending.len() <= state.pending.len(),
        state.reclaimed().pending == state.pending.skip(
            state.pending.len() - state.reclaimed().pending.len(),
        ),
{
    let k = lemma_kept_splits(state.pending, live(state.readers).values());
}

/// Where no reader is live, everything that waits is reclaimed.
pub proof fn without_readers_everything_is_reclaimed<T>(state: State<T>)
    requires
        state.wf(),
        forall|id: nat| !#[trigger] live(state.readers).contains_key(id),
    ensures
        state.reclaimed().pending.len() == 0,
{
    let k = lemma_kept_splits(state.pending, live(state.readers).values());
    if k < state.pending.len() {
        assert(in_use(live(state.readers).values(), state.pending[k].epoch));
    }
}

/// Once every live reader has moved on to the latest value, everything that waits is reclaimed.
pub proof fn once_all_readers_moved_on_everything_is_reclaimed<T>(state: State<T>)
    requires
        state.wf(),
        forall|id: nat| #[trigger]
            live(state.readers).contains_key(id) ==> state.readers[id] == state.latest.epoch,
    ensures
        state.reclaimed().pending.len() == 0,
{
    let readers = live(state.readers);
    let k = lemma_kept_splits(state.pending, readers.values());
    if k < state.pending.len() {
        assert(in_use(readers.values(), state.pending[k].epoch));
        let earlier = choose|earlier: u64| #[trigger]
            readers.values().contains(earlier) && earlier <= state.pending[k].epoch;
        let id = choose|id: nat| #[trigger] readers.contains_key(id) && readers[id] == earlier;
        assert(readers.contains_key(id));
    }
}

/// Reclaiming twice in a row is reclaiming once.
pub proof fn reclaiming_again_changes_nothing<T>(state: State<T>)
    requires
        state.wf(),
    ensures
        state.reclaimed().reclaimed() == state.reclaimed(),
{
    let readers = live(state.readers);
    let next = state.reclaimed();
    assert(live(readers) =~= readers);
    let k = lemma_kept_splits(state.pending, readers.values());
    assert forall|i: int| 0 <= i < next.pending.len() implies in_use(
        readers.values(),
        (#[trigger] next.pending[i]).epoch,
    ) by {
        assert(next.pending[i] == state.pending[k + i]);
    }
    lemma_kept_is_suffix(next.pending, readers.values(), 0);
    assert(next.pending.skip(0) =~= next.pending);
}

/// A dropped reader holds nothing back: what is reclaimed is what would be reclaimed if the reader
/// were not in the table.
pub proof fn dropped_reader_holds_nothing_back<T>(state: State<T>, id: nat)
    requires
        state.wf(),
    ensures
        state.retired(id).reclaimed() == (State {
            readers: state.readers.remove(id),
            ..state
        }).reclaimed(),
        !state.retired(id).reclaimed().readers.contains_key(id),
{
    assert(live(state.retired(id).readers) =~= live(state.readers.remove(id)));
}

/// A reader without guards reads the value that was written last.
pub proof fn read_returns_the_latest_write<T>(state: State<T>, value: T, reader: ReaderView<T>)
    requires
        state.wf(),
        state.latest.epoch < u64::MAX,
        reader.refs == 0,
    ensures
        reader.read(state.written(value)).cache == (StampedValue {
            value,
            epoch: (state.latest.epoch + 1) as u64,
        }),
{
}

/// A reader with guards reads the value that its guards give access to, whatever has been written
/// meanwhile, and does not touch the lock.
pub proof fn nested_read_returns_the_guarded_value<T>(state: State<T>, reader: ReaderView<T>)
    requires
        reader.refs > 0,
    ensures
        reader.read(state).cache == reader.cache,
        reader.read_in(state) == state,
{
}

/// Once its last guard has been given back, a reader reads the latest value.
pub proof fn read_is_refreshed_after_the_last_guard<T>(state: State<T>, reader: ReaderView<T>)
    requires
        reader.refs == 1,
    ensures
        reader.released().read(state).cache == state.latest,
{
}

/// Giving back a guard undoes taking it: the reader stays with its value, has as many guards as
/// before, and is the same as before if it had guards.
pub proof fn giving_back_undoes_taking<T>(state: State<T>, reader: ReaderView<T>)
    ensures
        reader.read(state).released().cache == reader.read(state).cache,
        reader.read(state).released().refs == reader.refs,
        reader.refs > 0 ==> reader.read(state).released() == reader,
{
}

/// A reader never goes back to an earlier value.
pub proof fn reads_never_go_back<T>(state: State<T>, reader: ReaderView<T>)
    requires
        state.wf(),
        state.serves(reader.id, reader.cache),
    ensures
        reader.cache.epoch <= reader.read(state).cache.epoch,
{
}

/// What a reader reads has been written, in the epoch of its stamp.
pub proof fn every_value_read_was_written<T>(
    value: T,
    steps: Seq<Step<T>>,
    reader: ReaderView<T>,
)
    requires
        runs(State::initial(value), steps),
        run(State::initial(value), steps).serves(reader.id, reader.cache),
    ensures
        was_written(
            reader.read(run(State::initial(value), steps)).cache,
            history(value, steps),
        ),
{
    let state = run(State::initial(value), steps);
    every_held_value_was_written(value, steps);
    assert(state.retains(reader.read(state).cache));
}

/// No two threads share a reader.
pub proof fn threads_do_not_share_readers<T>(
    threads: ThreadLocalView<T>,
    t: nat,
    u: nat,
)
    requires
        threads.wf(),
        t != u,
        slot_at(threads.slots, t) is Some,
        slot_at(threads.slots, u) is Some,
    ensures
        threads.readers[threads.slots[t] as int].id != threads.readers[threads.slots[u] as int].id,
{
    assert(threads.slots.contains_key(t) && threads.slots.contains_key(u));
    let i = threads.slots[t] as int;
    let j = threads.slots[u] as int;
    if i < j {
        assert(threads.readers[i].id != threads.readers[j].id);
    } else {
        assert(threads.readers[j].id != threads.readers[i].id);
    }
}

/// A swap hands back what was published, and nothing is lost in between: after `a` has been swapped
/// in for `held`, swapping in `b` hands back `a`.
pub proof fn swap_hands_back_what_it_replaces<T>(
    held: StampedValue<T>,
    a: StampedValue<T>,
    b: StampedValue<T>,
)
    ensures
        ({
            let (first, after_first) = swapped(held, a);
            let (second, after_second) = swapped(after_first, b);
            &&& first == held
            &&& after_first == a
            &&& second == a
            &&& after_second == b
        }),
{
}

/// What a write replaces is left waiting, behind what was waiting already: after `a` and `b` have
/// been installed, `a` waits with its stamp, and `b` is the latest.
pub proof fn replaced_value_is_left_waiting<T>(state: State<T>, a: T, b: T)
    requires
        state.wf(),
        state.latest.epoch + 1 < u64::MAX,
    ensures
        state.installed(a).installed(b).pending == state.pending.push(state.latest).push(
            StampedValue { value: a, epoch: (state.latest.epoch + 1) as u64 },
        ),
        state.installed(a).installed(b).latest == (StampedValue {
            value: b,
            epoch: (state.latest.epoch + 2) as u64,
        }),
{
}

/// A thread that calls again with the position it was given registers nothing, and its guard comes
/// from the same reader.
pub proof fn calling_again_registers_nothing<T>(
    threads: ThreadLocalView<T>,
    state: State<T>,
    index: int,
    id: nat,
    later: State<T>,
    other: nat,
)
    requires
        0 <= index <= threads.readers.len(),
    ensures
        ({
            let first = threads.read_or_entered(state, index, id);
            let second = first.read_or_entered(later, index, other);
            &&& second.readers.len() == first.readers.len()
            &&& second.readers[index].id == first.readers[index].id
            &&& second.readers[index].refs == first.readers[index].refs + 1
            &&& second.slots == first.slots
            &&& first.read_or_entered_in(later, index, other) == later
        }),
{
}

/// What is done with the readers of several threads: a thread asks for a guard while the lock is in
/// `state`, and has its reader made at place `id` if it has none; or a guard of the reader at a
/// position is given back.
pub ghost enum Use<T> {
    Call { thread: nat, state: State<T>, id: nat },
    Release(int),
}

impl<T> Use<T> {
    /// The readers afterwards.
    pub open spec fn apply(self, threads: ThreadLocalView<T>) -> ThreadLocalView<T> {
        match self {
            Use::Call { thread, state, id } => threads.called(state, thread, id),
            Use::Release(index) => threads.released(index),
        }
    }

    /// Positions are those of readers, or the next one for a thread that has none.
    pub open spec fn fits(self, threads: ThreadLocalView<T>) -> bool {
        match self {
            Use::Call { thread, .. } => threads.readers.len() <= usize::MAX && threads.position(
                thread,
            ) <= threads.readers.len(),
            Use::Release(index) => 0 <= index < threads.readers.len(),
        }
    }
}

/// The readers after all the uses, in order.
pub open spec fn used<T>(threads: ThreadLocalView<T>, uses: Seq<Use<T>>) -> ThreadLocalView<T>
    decreases uses.len(),
{
    if uses.len() == 0 {
        threads
    } else {
        uses.last().apply(used(threads, uses.drop_last()))
    }
}

/// Whether each of the uses fits where its turn comes.
pub open spec fn fits<T>(threads: ThreadLocalView<T>, uses: Seq<Use<T>>) -> bool
    decreases uses.len(),
{
    uses.len() == 0 || (fits(threads, uses.drop_last()) && uses.last().fits(
        used(threads, uses.drop_last()),
    ))
}

/// A thread that has a reader keeps it, whatever this thread and others do.
pub proof fn thread_keeps_its_reader<T>(
    threads: ThreadLocalView<T>,
    uses: Seq<Use<T>>,
    thread: nat,
)
    requires
        threads.wf(),
        fits(threads, uses),
        slot_at(threads.slots, thread) is Some,
    ensures
        ({
            let index = threads.position(thread);
            let after = used(threads, uses);
            &&& after.position(thread) == index
            &&& slot_at(after.slots, thread) is Some
            &&& index < after.readers.len()
            &&& after.readers[index].id == threads.readers[index].id
        }),
    decreases uses.len(),
{
    assert(threads.slots.contains_key(thread));
    if uses.len() > 0 {
        thread_keeps_its_reader(threads, uses.drop_last(), thread);
    }
}

/// The readers and the lock after `thread` has asked for a guard `k` times in a row, where its
/// reader is made at place `id` if it has none.
pub open spec fn called_repeatedly<T>(
    threads: ThreadLocalView<T>,
    state: State<T>,
    thread: nat,
    id: nat,
    k: nat,
) -> (ThreadLocalView<T>, State<T>)
    decreases k,
{
    if k == 0 {
        (threads, state)
    } else {
        let (before, at) = called_repeatedly(threads, state, thread, id, (k - 1) as nat);
        (before.called(at, thread, id), before.called_in(at, thread, id))
    }
}

/// However often a thread without a reader asks for a guard, exactly one reader is registered, by
/// the first call, and all the guards come from it.
pub proof fn thread_registers_one_reader<T>(
    threads: ThreadLocalView<T>,
    state: State<T>,
    thread: nat,
    id: nat,
    k: nat,
)
    requires
        threads.readers.len() <= usize::MAX,
        slot_at(threads.slots, thread) is None,
        k >= 1,
    ensures
        ({
            let (after, at) = called_repeatedly(threads, state, thread, id, k);
            let index = threads.readers.len() as int;
            &&& after.slots == threads.slots.insert(thread, index as usize)
            &&& after.readers == threads.readers.push(
                ReaderView { id, cache: state.latest, refs: k },
            )
            &&& at == state.published(id)
        }),
    decreases k,
{
    reveal_with_fuel(called_repeatedly, 2);
    let (after, at) = called_repeatedly(threads, state, thread, id, k);
    let reader = ReaderView { id, cache: state.latest, refs: k };
    if k > 1 {
        thread_registers_one_reader(threads, state, thread, id, (k - 1) as nat);
    }
    assert(after.readers =~= threads.readers.push(reader));
    assert(at.readers =~= state.published(id).readers);
}

/// Whether two states of a lock are the same but for the entry of reader `id` in the table.
pub open spec fn same_but_for<T>(before: State<T>, after: State<T>, id: nat) -> bool {
    &&& after.latest == before.latest
    &&& after.pending == before.pending
    &&& forall|other: nat|
        other != id ==> (#[trigger] after.readers.contains_key(other)
            <==> before.readers.contains_key(other))
    &&& forall|other: nat|
        other != id && before.readers.contains_key(other) ==> #[trigger] after.readers[other]
            == before.readers[other]
}

/// Whether all readers that were there are there still, and none but the one at position `index`
/// has changed.
pub open spec fn others_stay<T>(
    before: Seq<ReaderView<T>>,
    after: Seq<ReaderView<T>>,
    index: int,
) -> bool {
    &&& before.len() <= after.len()
    &&& forall|i: int|
        0 <= i < before.len() && i != index ==> #[trigger] after[i] == before[i]
}

/// A new lock holds its first value, in the first epoch. Nothing waits, and there are no readers.
pub proof fn new_lock_holds_one_value<T>(value: T)
    ensures
        State::initial(value).latest.value == value,
        State::initial(value).latest.epoch == 1,
        State::initial(value).pending.len() == 0,
        forall|id: nat| !#[trigger] State::initial(value).readers.contains_key(id),
{
}

/// A reader that is registered has no guards, is at the latest value, and is in the table at the
/// epoch of that value. Nothing else changes. A first read gives the value that was the latest when
/// it is made.
pub proof fn new_reader_is_at_the_latest_value<T>(state: State<T>, id: nat, later: State<T>)
    ensures
        ReaderView::registered(state, id).id == id,
        ReaderView::registered(state, id).refs == 0,
        ReaderView::registered(state, id).cache == state.latest,
        same_but_for(state, state.published(id), id),
        state.published(id).readers.contains_key(id),
        state.published(id).readers[id] == state.latest.epoch,
        ReaderView::registered(state, id).read(later).cache == later.latest,
        ReaderView::registered(state, id).read(later).refs == 1,
{
}

/// A read counts exactly one guard, and the reader keeps its place. Without guards the reader moves
/// on to the latest value and publishes the epoch of that value. With guards it stays with its
/// value and the lock does not change. Nothing but the entry of the reader changes in the lock.
pub proof fn read_counts_one_guard<T>(state: State<T>, reader: ReaderView<T>)
    ensures
        reader.read(state).id == reader.id,
        reader.read(state).refs == reader.refs + 1,
        reader.refs == 0 ==> reader.read(state).cache == state.latest,
        reader.refs > 0 ==> reader.read(state).cache == reader.cache,
        same_but_for(state, reader.read_in(state), reader.id),
        reader.refs == 0 ==> reader.read_in(state).readers.contains_key(reader.id)
            && reader.read_in(state).readers[reader.id] == state.latest.epoch,
        reader.refs > 0 ==> reader.read_in(state) == state,
{
}

/// Giving a guard back counts exactly one guard less, and the reader keeps its place and its value.
pub proof fn giving_back_counts_one_guard_less<T>(reader: ReaderView<T>)
    requires
        reader.refs > 0,
    ensures
        reader.released().id == reader.id,
        reader.released().cache == reader.cache,
        reader.released().refs + 1 == reader.refs,
{
}

/// A reader that is dropped is not live, and nothing but its entry changes in the lock.
pub proof fn dropped_reader_is_not_live<T>(state: State<T>, id: nat)
    ensures
        same_but_for(state, state.retired(id), id),
        !live(state.retired(id).readers).contains_key(id),
{
}

/// Reclaiming leaves the latest value, and of the table exactly the readers that have not been
/// dropped, each at its epoch.
pub proof fn reclaiming_leaves_the_latest_value_and_the_live_readers<T>(state: State<T>)
    ensures
        state.reclaimed().latest == state.latest,
        forall|id: nat| #[trigger]
            state.reclaimed().readers.contains_key(id) <==> state.readers.contains_key(id)
                && state.readers[id] > NOT_IN_USE,
        forall|id: nat| #[trigger]
            state.reclaimed().readers.contains_key(id) ==> state.reclaimed().readers[id]
                == state.readers[id],
{
}

/// A write makes its value the latest, in the epoch that follows, and reclaims at once: of what
/// was waiting and of the value that it replaces exactly what a live reader may be using waits
/// afterwards. The readers that have not been dropped stay in the table, each at its epoch.
pub proof fn write_publishes_and_reclaims<T>(state: State<T>, value: T)
    requires
        state.wf(),
        state.latest.epoch < u64::MAX,
    ensures
        state.written(value).latest.value == value,
        state.written(value).latest.epoch == state.latest.epoch + 1,
        forall|stamped: StampedValue<T>| #[trigger]
            state.written(value).pending.contains(stamped) <==> (state.pending.contains(stamped)
                || stamped == state.latest) && exists|id: nat| #[trigger]
                state.readers.contains_key(id) && NOT_IN_USE < state.readers[id] <= stamped.epoch,
        forall|id: nat| #[trigger]
            state.written(value).readers.contains_key(id) <==> state.readers.contains_key(id)
                && state.readers[id] > NOT_IN_USE,
        forall|id: nat| #[trigger]
            state.written(value).readers.contains_key(id) ==> state.written(value).readers[id]
                == state.readers[id],
{
    let installed = state.installed(value);
    let after = state.written(value);
    lemma_installed(state, value);
    assert forall|stamped: StampedValue<T>| #[trigger]
        after.pending.contains(stamped) <==> (state.pending.contains(stamped) || stamped
            == state.latest) && exists|id: nat| #[trigger]
            state.readers.contains_key(id) && NOT_IN_USE < state.readers[id] <= stamped.epoch by {
        if after.pending.contains(stamped) {
            oldest_values_are_reclaimed_first(installed);
            let j = after.pending.index_of(stamped);
            let k = installed.pending.len() - after.pending.len();
            assert(installed.pending[k + j] == stamped);
        }
        if state.pending.contains(stamped) {
            assert(installed.pending[state.pending.index_of(stamped)] == stamped);
        }
        if stamped == state.latest {
            assert(installed.pending[state.pending.len() as int] == stamped);
        }
        if installed.pending.contains(stamped) {
            let i = installed.pending.index_of(stamped);
            assert(i < state.pending.len() ==> state.pending[i] == stamped);
            exactly_the_unused_values_are_reclaimed(installed, stamped);
            if !after.pending.contains(stamped) {
                assert forall|id: nat| #[trigger] state.readers.contains_key(
                    id,
                ) implies !(NOT_IN_USE < state.readers[id] <= stamped.epoch) by {
                    assert(state.readers[id] > NOT_IN_USE ==> live(
                        installed.readers,
                    ).contains_key(id));
                }
            } else {
                let id = choose|id: nat| #[trigger]
                    live(installed.readers).contains_key(id) && !(installed.readers[id]
                        > stamped.epoch);
                assert(state.readers.contains_key(id));
            }
        }
    }
}

/// Reading at the position of a reader counts one guard for that reader and for no other, and makes
/// no reader. The reader gives the latest value if it had no guards, and its own value otherwise.
/// No thread gets another position, and in the lock nothing but the entry of the reader changes.
pub proof fn reading_at_a_position_counts_one_guard<T>(
    threads: ThreadLocalView<T>,
    state: State<T>,
    index: int,
)
    requires
        0 <= index < threads.readers.len(),
    ensures
        ({
            let before = threads.readers[index];
            let after = threads.read(state, index);
            let lock = threads.read_in(state, index);
            &&& after.slots == threads.slots
            &&& after.readers.len() == threads.readers.len()
            &&& others_stay(threads.readers, after.readers, index)
            &&& after.readers[index].id == before.id
            &&& after.readers[index].refs == before.refs + 1
            &&& before.refs == 0 ==> after.readers[index].cache == state.latest
            &&& before.refs > 0 ==> after.readers[index].cache == before.cache
            &&& same_but_for(state, lock, before.id)
            &&& before.refs == 0 ==> lock.readers.contains_key(before.id)
                && lock.readers[before.id] == state.latest.epoch
            &&& before.refs > 0 ==> lock == state
        }),
{
}

/// Reading or entering at the position of a reader is reading there, whether the reader has guards
/// or not.
pub proof fn entering_at_a_taken_position_is_reading<T>(
    threads: ThreadLocalView<T>,
    state: State<T>,
    index: int,
    id: nat,
)
    requires
        0 <= index < threads.readers.len(),
    ensures
        threads.read_or_entered(state, index, id) == threads.read(state, index),
        threads.read_or_entered_in(state, index, id) == threads.read_in(state, index),
{
}

/// Reading or entering at the next position makes one reader, at place `id` of the lock, with one
/// guard for the latest value. The other readers and the positions of the threads stay, and in the
/// lock nothing but the entry of the new reader changes.
pub proof fn entering_at_the_next_position_makes_one_reader<T>(
    threads: ThreadLocalView<T>,
    state: State<T>,
    id: nat,
)
    ensures
        ({
            let index = threads.readers.len() as int;
            let after = threads.read_or_entered(state, index, id);
            let lock = threads.read_or_entered_in(state, index, id);
            &&& after.slots == threads.slots
            &&& after.readers.len() == threads.readers.len() + 1
            &&& others_stay(threads.readers, after.readers, index)
            &&& after.readers[index].id == id
            &&& after.readers[index].refs == 1
            &&& after.readers[index].cache == state.latest
            &&& same_but_for(state, lock, id)
            &&& lock.readers.contains_key(id)
            &&& lock.readers[id] == state.latest.epoch
        }),
{
}

/// A thread that has a reader reads with that one when it asks for a guard, and no other reader is
/// touched or made: its reader has exactly one guard more, also where it had none, and gives the
/// latest value exactly then. Asking with [`ThreadLocal::get`](crate::ThreadLocal::get) or with
/// [`ThreadLocal::get_or_init`](crate::ThreadLocal::get_or_init) is the same for it.
pub proof fn thread_reads_with_its_own_reader<T>(
    threads: ThreadLocalView<T>,
    state: State<T>,
    thread: nat,
    id: nat,
)
    requires
        threads.wf(),
        threads.slots.contains_key(thread),
    ensures
        ({
            let index = threads.slots[thread] as int;
            let before = threads.readers[index];
            let after = threads.called(state, thread, id);
            let lock = threads.called_in(state, thread, id);
            &&& threads.position(thread) == index
            &&& after.slots == threads.slots
            &&& after.readers.len() == threads.readers.len()
            &&& others_stay(threads.readers, after.readers, index)
            &&& after.readers[index].id == before.id
            &&& after.readers[index].refs == before.refs + 1
            &&& before.refs == 0 ==> after.readers[index].cache == state.latest
            &&& before.refs > 0 ==> after.readers[index].cache == before.cache
            &&& same_but_for(state, lock, before.id)
            &&& before.refs == 0 ==> lock.readers.contains_key(before.id)
                && lock.readers[before.id] == state.latest.epoch
            &&& before.refs > 0 ==> lock == state
            &&& after == threads.read(state, index)
            &&& lock == threads.read_in(state, index)
        }),
{
    let index = threads.slots[thread] as int;
    reading_at_a_position_counts_one_guard(threads, state, index);
    entering_at_a_taken_position_is_reading(threads, state, index, id);
}

/// A thread that has no reader is in the table after it has asked for a guard, with a reader of its
/// own: one that no other thread has, at a place of the lock that no other reader has, with one
/// guard for the latest value. The other threads keep their positions, and their readers stay as
/// they are.
pub proof fn thread_gets_a_reader_of_its_own<T>(
    threads: ThreadLocalView<T>,
    state: State<T>,
    thread: nat,
    id: nat,
)
    requires
        threads.wf(),
        threads.attached(state),
        threads.readers.len() <= usize::MAX,
        !threads.slots.contains_key(thread),
        !state.readers.contains_key(id),
    ensures
        ({
            let after = threads.called(state, thread, id);
            let lock = threads.called_in(state, thread, id);
            let index = after.slots[thread] as int;
            &&& after.slots.contains_key(thread)
            &&& threads.position(thread) == index
            &&& after.slots.remove(thread) == threads.slots
            &&& forall|other: nat| #[trigger]
                threads.slots.contains_key(other) ==> threads.slots[other] != index
            &&& 0 <= index < after.readers.len()
            &&& after.readers.len() == threads.readers.len() + 1
            &&& others_stay(threads.readers, after.readers, index)
            &&& forall|i: int|
                0 <= i < after.readers.len() && i != index ==> (#[trigger] after.readers[i]).id
                    != after.readers[index].id
            &&& after.readers[index].id == id
            &&& after.readers[index].refs == 1
            &&& after.readers[index].cache == state.latest
            &&& same_but_for(state, lock, id)
            &&& lock.readers.contains_key(id)
            &&& lock.readers[id] == state.latest.epoch
        }),
{
    let index = threads.readers.len() as int;
    let assigned = threads.assigned(thread);
    let after = threads.called(state, thread, id);
    entering_at_the_next_position_makes_one_reader(assigned, state, id);
    assert(after.slots.remove(thread) =~= threads.slots);
    assert forall|i: int| 0 <= i < after.readers.len() && i != index implies (
    #[trigger] after.readers[i]).id != id by {
        assert(state.serves(threads.readers[i].id, threads.readers[i].cache));
    }
}

/// What one thread does is nothing to the others: when `u` asks for a guard, another thread `t`
/// keeps its position and its reader, with the value and the guards that it had, and the guard of
/// `u` comes from a different reader.
pub proof fn call_leaves_the_readers_of_other_threads<T>(
    threads: ThreadLocalView<T>,
    state: State<T>,
    t: nat,
    u: nat,
    id: nat,
)
    requires
        threads.wf(),
        threads.attached(state),
        threads.readers.len() <= usize::MAX,
        threads.slots.contains_key(t),
        t != u,
        !state.readers.contains_key(id),
    ensures
        ({
            let after = threads.called(state, u, id);
            let mine = threads.readers[threads.slots[t] as int];
            &&& after.slots.contains_key(t)
            &&& after.slots[t] == threads.slots[t]
            &&& after.readers[after.slots[t] as int] == mine
            &&& after.slots.contains_key(u)
            &&& after.slots[u] != after.slots[t]
            &&& after.readers[after.slots[u] as int].id != mine.id
        }),
{
    let after = threads.called(state, u, id);
    let i = threads.slots[t] as int;
    if threads.slots.contains_key(u) {
        let j = threads.slots[u] as int;
        thread_reads_with_its_own_reader(threads, state, u, id);
        assert(after.readers[i] == threads.readers[i]);
        if i < j {
            assert(threads.readers[i].id != threads.readers[j].id);
        } else {
            assert(threads.readers[j].id != threads.readers[i].id);
        }
    } else {
        thread_gets_a_reader_of_its_own(threads, state, u, id);
        assert(after.slots.remove(u).contains_key(t));
        assert(after.slots.remove(u)[t] == after.slots[t]);
        assert(after.readers[i] == threads.readers[i]);
    }
}

/// Giving back a guard of the reader at any position takes one guard from that reader and from no
/// other. The reader keeps its place and its value, and the threads keep their positions.
pub proof fn giving_back_at_a_position_counts_one_guard_less<T>(
    threads: ThreadLocalView<T>,
    index: int,
)
    requires
        0 <= index < threads.readers.len(),
        threads.readers[index].refs > 0,
    ensures
        ({
            let before = threads.readers[index];
            let after = threads.released(index);
            &&& after.slots == threads.slots
            &&& after.readers.len() == threads.readers.len()
            &&& others_stay(threads.readers, after.readers, index)
            &&& after.readers[index].id == before.id
            &&& after.readers[index].cache == before.cache
            &&& after.readers[index].refs + 1 == before.refs
        }),
{
}

/// Whatever reader a thread has, asking for a guard and giving it back leaves that reader with the
/// guards that it had before. Where it had none, its next guard gives the value that is the latest
/// then, and no reader is made.
pub proof fn call_and_giving_back_cancel_out<T>(
    threads: ThreadLocalView<T>,
    state: State<T>,
    thread: nat,
    id: nat,
    later: State<T>,
    other: nat,
)
    requires
        threads.wf(),
        threads.slots.contains_key(thread),
    ensures
        ({
            let index = threads.slots[thread] as int;
            let between = threads.called(state, thread, id).released(index);
            let next = between.called(later, thread, other);
            &&& between.readers[index].refs == threads.readers[index].refs
            &&& between.readers[index].id == threads.readers[index].id
            &&& others_stay(threads.readers, between.readers, index)
            &&& threads.readers[index].refs > 0 ==> between == threads
            &&& next.readers.len() == threads.readers.len()
            &&& next.readers[index].id == threads.readers[index].id
            &&& threads.readers[index].refs == 0 ==> next.readers[index].cache == later.latest
            &&& threads.readers[index].refs > 0 ==> next.readers[index].cache
                == threads.readers[index].cache
        }),
{
    let index = threads.slots[thread] as int;
    let between = threads.called(state, thread, id).released(index);
    if threads.readers[index].refs > 0 {
        assert(between.readers =~= threads.readers);
    }
}

/// Once the storage has been dropped, none of its readers is live in the lock, whatever their
/// number. All other readers stay as they are, and so do the values.
pub proof fn dropped_storage_has_no_live_readers<T>(threads: ThreadLocalView<T>, state: State<T>)
    ensures
        ({
            let after = threads.retired_in(state);
            &&& after.latest == state.latest
            &&& after.pending == state.pending
            &&& forall|i: int|
                0 <= i < threads.readers.len() ==> !live(after.readers).contains_key(
                    (#[trigger] threads.readers[i]).id,
                )
            &&& forall|id: nat|
                (forall|i: int|
                    0 <= i < threads.readers.len() ==> (#[trigger] threads.readers[i]).id != id)
                    ==> (#[trigger] after.readers.contains_key(id) <==> state.readers.contains_key(
                    id,
                )) && (state.readers.contains_key(id) ==> after.readers[id] == state.readers[id])
        }),
{
    let after = threads.retired_in(state);
    assert forall|i: int| 0 <= i < threads.readers.len() implies !live(after.readers).contains_key(
        (#[trigger] threads.readers[i]).id,
    ) by {
        assert(threads.owns(threads.readers[i].id));
    }
}

/// Dropped storage holds nothing back: where no reader was live but those of the storage,
/// reclaiming leaves nothing waiting, and no reader in the table.
pub proof fn dropped_storage_holds_nothing_back<T>(threads: ThreadLocalView<T>, state: State<T>)
    requires
        state.wf(),
        forall|id: nat| #[trigger]
            live(state.readers).contains_key(id) ==> exists|i: int|
                0 <= i < threads.readers.len() && (#[trigger] threads.readers[i]).id == id,
    ensures
        threads.retired_in(state).reclaimed().pending.len() == 0,
        forall|id: nat| !#[trigger] threads.retired_in(state).reclaimed().readers.contains_key(id),
{
    let after = threads.retired_in(state);
    dropped_storage_has_no_live_readers(threads, state);
    assert forall|id: nat| !#[trigger] live(after.readers).contains_key(id) by {
        if live(after.readers).contains_key(id) {
            assert(live(state.readers).contains_key(id));
        }
    }
    without_readers_everything_is_reclaimed(after);
}

} // verus!
