//! The state of a lock as mathematics: what it is, when it is well formed, and what each
//! operation does to it.

use std::sync::Arc;
use vstd::prelude::*;

verus! {

/// The epoch that a reader publishes once it has been dropped. No value carries it.
pub const NOT_IN_USE: u64 = 0;

/// Whether a reader that has published `epoch` has not been dropped.
pub fn is_live(epoch: u64) -> (live: bool)
    ensures
        live <==> epoch > NOT_IN_USE,
{
    epoch > NOT_IN_USE
}

/// A value together with the epoch in which it was written.
#[derive(Debug)]
pub struct StampedValue<T> {
    pub value: T,
    pub epoch: u64,
}

/// Whether `stamped` holds the value that was written in its epoch, when `history` holds the values
/// that were written, in order.
pub open spec fn was_written<T>(stamped: StampedValue<T>, history: Seq<T>) -> bool {
    1 <= stamped.epoch <= history.len() && stamped.value == history[stamped.epoch - 1]
}

/// What is handed back when `value` is published in place of `held`, and what is published then.
pub open spec fn swapped<T>(held: StampedValue<T>, value: StampedValue<T>) -> (
    StampedValue<T>,
    StampedValue<T>,
) {
    (held, value)
}

/// Whether one of the published epochs is not later than `epoch`, so that a reader may still be
/// using a value stamped with it.
pub open spec fn in_use(published: Set<u64>, epoch: u64) -> bool {
    exists|earlier: u64| #[trigger] published.contains(earlier) && earlier <= epoch
}

/// The values that have to be kept while readers are at the published epochs.
pub open spec fn kept<T>(pending: Seq<StampedValue<T>>, published: Set<u64>) -> Seq<
    StampedValue<T>,
> {
    pending.filter(|stamped: StampedValue<T>| in_use(published, stamped.epoch))
}

/// How many values stand before the first one that is in use.
pub open spec fn unused_len<T>(pending: Seq<StampedValue<T>>, published: Set<u64>) -> nat
    decreases pending.len(),
{
    if pending.len() == 0 || in_use(published, pending[0].epoch) {
        0
    } else {
        1 + unused_len(pending.drop_first(), published)
    }
}

/// Whether the stamps of the values rise.
pub open spec fn rising<T>(pending: Seq<StampedValue<T>>) -> bool {
    forall|i: int, j: int|
        0 <= i <= j < pending.len() ==> (#[trigger] pending[i]).epoch <= (
        #[trigger] pending[j]).epoch
}

/// The values in a queue, in order.
pub open spec fn values<T>(queue: Seq<Arc<StampedValue<T>>>) -> Seq<StampedValue<T>> {
    Seq::new(queue.len(), |i: int| *queue[i])
}

/// The readers of the table that have not been dropped.
pub open spec fn live(readers: Map<nat, u64>) -> Map<nat, u64> {
    Map::new(
        |id: nat| readers.contains_key(id) && readers[id] > NOT_IN_USE,
        |id: nat| readers[id],
    )
}

/// What a lock holds: the latest value, the earlier values that wait to be reclaimed, oldest
/// first, and the table of readers with the epoch that each has published.
pub ghost struct State<T> {
    pub latest: StampedValue<T>,
    pub pending: Seq<StampedValue<T>>,
    pub readers: Map<nat, u64>,
}

impl<T> State<T> {
    /// A lock that holds its first value and has no readers.
    pub open spec fn initial(value: T) -> Self {
        State {
            latest: StampedValue { value, epoch: 1 },
            pending: Seq::empty(),
            readers: Map::empty(),
        }
    }

    /// The epoch of the oldest value that the lock still holds.
    pub open spec fn oldest(self) -> int {
        self.latest.epoch - self.pending.len()
    }

    /// Whether the lock still holds `stamped`.
    pub open spec fn retains(self, stamped: StampedValue<T>) -> bool {
        stamped == self.latest || self.pending.contains(stamped)
    }

    /// The held values carry consecutive epochs that start after [`NOT_IN_USE`], and reach back
    /// at least to the epoch that any live reader has published.
    pub open spec fn wf(self) -> bool {
        &&& self.oldest() > NOT_IN_USE
        &&& forall|i: int|
            0 <= i < self.pending.len() ==> (#[trigger] self.pending[i]).epoch == self.oldest() + i
        &&& forall|id: nat| #[trigger]
            self.readers.contains_key(id) && self.readers[id] > NOT_IN_USE ==> self.oldest()
                <= self.readers[id] <= self.latest.epoch
    }

    /// Whether reader `id` is registered at the epoch of `cache`, and `cache` is still held.
    pub open spec fn serves(self, id: nat, cache: StampedValue<T>) -> bool {
        &&& self.readers.contains_key(id)
        &&& self.readers[id] == cache.epoch
        &&& cache.epoch > NOT_IN_USE
        &&& self.retains(cache)
    }

    /// A new value takes the place of the latest, in the epoch that follows.
    pub open spec fn installed(self, value: T) -> Self {
        State {
            latest: StampedValue { value, epoch: (self.latest.epoch + 1) as u64 },
            pending: self.pending.push(self.latest),
            ..self
        }
    }

    /// Dropped readers leave the table, and of the waiting values only those remain that one of
    /// the other readers may be using.
    pub open spec fn reclaimed(self) -> Self {
        State {
            readers: live(self.readers),
            ..self.collected(live(self.readers).values())
        }
    }

    /// Of the waiting values only those remain that a reader at one of the epochs in `seen` may be
    /// using.
    pub open spec fn collected(self, seen: Set<u64>) -> Self {
        State { pending: kept(self.pending, seen), ..self }
    }

    /// A new value is installed and what is no longer in use is reclaimed.
    pub open spec fn written(self, value: T) -> Self {
        self.installed(value).reclaimed()
    }

    /// Reader `id` enters the table, or moves on, at the epoch of the latest value.
    pub open spec fn published(self, id: nat) -> Self {
        State { readers: self.readers.insert(id, self.latest.epoch), ..self }
    }

    /// Reader `id` is marked as dropped.
    pub open spec fn retired(self, id: nat) -> Self {
        State { readers: self.readers.insert(id, NOT_IN_USE), ..self }
    }
}

/// What a reader holds: its place in the table, the value it took, and the number of its guards
/// that have not been given back.
pub ghost struct ReaderView<T> {
    pub id: nat,
    pub cache: StampedValue<T>,
    pub refs: nat,
}

impl<T> ReaderView<T> {
    /// The reader that enters `state` at place `id`.
    pub open spec fn registered(state: State<T>, id: nat) -> Self {
        ReaderView { id, cache: state.latest, refs: 0 }
    }

    /// The reader after it has taken a guard: a reader without guards moves on to the latest
    /// value, any other stays with the value it has.
    pub open spec fn read(self, state: State<T>) -> Self {
        ReaderView {
            id: self.id,
            cache: if self.refs == 0 {
                state.latest
            } else {
                self.cache
            },
            refs: self.refs + 1,
        }
    }

    /// The lock after this reader has taken a guard: a reader that moves on publishes the epoch of
    /// the latest value.
    pub open spec fn read_in(self, state: State<T>) -> State<T> {
        if self.refs == 0 {
            state.published(self.id)
        } else {
            state
        }
    }

    /// The reader after one of its guards has been given back.
    pub open spec fn released(self) -> Self {
        ReaderView { refs: (self.refs - 1) as nat, ..self }
    }
}

/// The position that the table gives for a thread, if it gives one.
pub open spec fn slot_at(slots: Map<nat, usize>, thread: nat) -> Option<usize> {
    if slots.contains_key(thread) {
        Some(slots[thread])
    } else {
        None
    }
}

/// Whether some thread has the reader at position `i`.
pub open spec fn has_thread(slots: Map<nat, usize>, i: int) -> bool {
    exists|thread: nat| #[trigger] slots.contains_key(thread) && slots[thread] == i
}

/// What the readers of several threads hold: the readers in the order in which they were made, and
/// the position of each thread's reader, by the number of the thread.
pub ghost struct ThreadLocalView<T> {
    pub readers: Seq<ReaderView<T>>,
    pub slots: Map<nat, usize>,
}

impl<T> ThreadLocalView<T> {
    pub open spec fn empty() -> Self {
        ThreadLocalView { readers: Seq::empty(), slots: Map::empty() }
    }

    /// Every thread in the table has a reader, no two threads have the same one, no reader is
    /// without a thread, and no two readers have the same place in the lock.
    pub open spec fn wf(self) -> bool {
        &&& forall|thread: nat| #[trigger]
            self.slots.contains_key(thread) ==> self.slots[thread] < self.readers.len()
        &&& forall|t: nat, u: nat| #[trigger]
            self.slots.contains_key(t) && #[trigger] self.slots.contains_key(u) && t != u
                ==> self.slots[t] != self.slots[u]
        &&& forall|i: int| 0 <= i < self.readers.len() ==> #[trigger] has_thread(self.slots, i)
        &&& forall|i: int, j: int|
            0 <= i < j < self.readers.len() ==> (#[trigger] self.readers[i]).id != (
            #[trigger] self.readers[j]).id
    }

    /// Whether place `id` of the lock belongs to one of the readers.
    pub open spec fn owns(self, id: nat) -> bool {
        exists|i: int| 0 <= i < self.readers.len() && (#[trigger] self.readers[i]).id == id
    }

    /// Whether the lock has all the readers in its table, at the epochs of the values they use, and
    /// still holds these values.
    pub open spec fn attached(self, state: State<T>) -> bool {
        forall|i: int|
            0 <= i < self.readers.len() ==> state.serves(
                (#[trigger] self.readers[i]).id,
                self.readers[i].cache,
            )
    }

    /// Whether `thread` has been given the position of the next reader, and all is well but for the
    /// reader that is missing there.
    pub open spec fn waits_for(self, thread: nat) -> bool {
        &&& self.slots.contains_key(thread)
        &&& self.slots[thread] == self.readers.len()
        &&& (ThreadLocalView { slots: self.slots.remove(thread), ..self }).wf()
    }

    /// A reader has been made, at place `id` of the lock.
    pub open spec fn pushed(self, state: State<T>, id: nat) -> Self {
        ThreadLocalView { readers: self.readers.push(ReaderView::registered(state, id)), ..self }
    }

    /// The reader at position `index` has taken a guard.
    pub open spec fn read(self, state: State<T>, index: int) -> Self {
        ThreadLocalView {
            readers: self.readers.update(index, self.readers[index].read(state)),
            ..self
        }
    }

    /// A guard of the reader at position `index` has been given back.
    pub open spec fn released(self, index: int) -> Self {
        ThreadLocalView {
            readers: self.readers.update(index, self.readers[index].released()),
            ..self
        }
    }

    /// The lock after the reader at position `index` has taken a guard.
    pub open spec fn read_in(self, state: State<T>, index: int) -> State<T> {
        self.readers[index].read_in(state)
    }

    /// The reader at position `index` has taken a guard, after it has been made at place `id` of
    /// the lock if the position was the next one.
    pub open spec fn read_or_entered(self, state: State<T>, index: int, id: nat) -> Self {
        if index < self.readers.len() {
            self.read(state, index)
        } else {
            self.pushed(state, id).read(state.published(id), index)
        }
    }

    /// The lock after the reader at position `index` has taken a guard, and has entered at place
    /// `id` if the position was the next one.
    pub open spec fn read_or_entered_in(self, state: State<T>, index: int, id: nat) -> State<T> {
        if index < self.readers.len() {
            self.read_in(state, index)
        } else {
            self.pushed(state, id).read_in(state.published(id), index)
        }
    }

    /// The position that a call by `thread` reads at: that of its reader, or the next one if the
    /// thread has none.
    pub open spec fn position(self, thread: nat) -> int {
        match slot_at(self.slots, thread) {
            Some(index) => index as int,
            None => self.readers.len() as int,
        }
    }

    /// `thread` has the position that it reads at.
    pub open spec fn assigned(self, thread: nat) -> Self {
        ThreadLocalView {
            slots: if self.slots.contains_key(thread) {
                self.slots
            } else {
                self.slots.insert(thread, self.readers.len() as usize)
            },
            ..self
        }
    }

    /// `thread` has asked for a guard, and has been given a reader at place `id` of the lock if it
    /// had none.
    pub open spec fn called(self, state: State<T>, thread: nat, id: nat) -> Self {
        self.assigned(thread).read_or_entered(state, self.position(thread), id)
    }

    /// The lock after `thread` has asked for a guard, and its reader has entered at place `id` if
    /// the thread had none.
    pub open spec fn called_in(self, state: State<T>, thread: nat, id: nat) -> State<T> {
        self.read_or_entered_in(state, self.position(thread), id)
    }

    /// The lock after all the readers have been dropped.
    pub open spec fn retired_in(self, state: State<T>) -> State<T> {
        State {
            readers: Map::new(
                |id: nat| state.readers.contains_key(id),
                |id: nat|
                    if self.owns(id) {
                        NOT_IN_USE
                    } else {
                        state.readers[id]
                    },
            ),
            ..state
        }
    }
}

/// A guard that one of the readers takes keeps the readers of all threads well formed and
/// attached.
pub proof fn lemma_thread_read<T>(threads: ThreadLocalView<T>, state: State<T>, index: int)
    requires
        state.wf(),
        threads.wf(),
        threads.attached(state),
        0 <= index < threads.readers.len(),
    ensures
        threads.read(state, index).wf(),
        threads.read(state, index).attached(threads.read_in(state, index)),
{
    lemma_published(state, threads.readers[index].id);
}

/// A guard that is given back keeps the readers of all threads well formed and attached.
pub proof fn lemma_thread_released<T>(threads: ThreadLocalView<T>, index: int)
    requires
        threads.wf(),
        0 <= index < threads.readers.len(),
    ensures
        threads.released(index).wf(),
        forall|state: State<T>|
            threads.attached(state) ==> #[trigger] threads.released(index).attached(state),
{
    let next = threads.released(index);
    assert forall|state: State<T>| threads.attached(state) implies #[trigger] next.attached(
        state,
    ) by {
        assert forall|i: int| 0 <= i < next.readers.len() implies state.serves(
            (#[trigger] next.readers[i]).id,
            next.readers[i].cache,
        ) by {
            assert(state.serves(threads.readers[i].id, threads.readers[i].cache));
        }
    }
}

/// A reader that is made for a thread that waits for it makes the readers of all threads well
/// formed, and keeps them attached.
pub proof fn lemma_thread_pushed<T>(
    threads: ThreadLocalView<T>,
    state: State<T>,
    thread: nat,
    id: nat,
)
    requires
        state.wf(),
        threads.waits_for(thread),
        threads.attached(state),
        !state.readers.contains_key(id),
    ensures
        threads.pushed(state, id).wf(),
        threads.pushed(state, id).attached(state.published(id)),
{
    let next = threads.pushed(state, id);
    let before = ThreadLocalView { slots: threads.slots.remove(thread), ..threads };
    let others = before.slots;
    assert forall|t: nat| #[trigger] next.slots.contains_key(t) implies next.slots[t]
        < next.readers.len() by {
        if t != thread {
            assert(before.slots.contains_key(t) && before.slots[t] == next.slots[t]);
        }
    }
    assert forall|t: nat, u: nat| #[trigger]
        next.slots.contains_key(t) && #[trigger] next.slots.contains_key(u) && t
            != u implies next.slots[t] != next.slots[u] by {
        if t != thread {
            assert(before.slots.contains_key(t) && before.slots[t] == next.slots[t]);
        }
        if u != thread {
            assert(before.slots.contains_key(u) && before.slots[u] == next.slots[u]);
        }
    }
    assert forall|i: int| 0 <= i < next.readers.len() implies #[trigger] has_thread(
        next.slots,
        i,
    ) by {
        if i < threads.readers.len() {
            assert(has_thread(others, i));
            let t = choose|t: nat| #[trigger] others.contains_key(t) && others[t] == i;
            assert(next.slots.contains_key(t));
        } else {
            assert(next.slots.contains_key(thread));
        }
    }
    assert forall|i: int, j: int| 0 <= i < j < next.readers.len() implies (
    #[trigger] next.readers[i]).id != (#[trigger] next.readers[j]).id by {
        assert(next.readers[i] == before.readers[i]);
        assert(state.serves(threads.readers[i].id, threads.readers[i].cache));
        assert(j < threads.readers.len() ==> next.readers[j] == before.readers[j]);
    }
    lemma_published(state, id);
}

/// Where the values before position `k` are out of use and the others in use, the others are kept.
pub proof fn lemma_kept_is_suffix<T>(
    pending: Seq<StampedValue<T>>,
    published: Set<u64>,
    k: int,
)
    requires
        0 <= k <= pending.len(),
        forall|i: int| 0 <= i < k ==> !in_use(published, (#[trigger] pending[i]).epoch),
        forall|i: int| k <= i < pending.len() ==> in_use(published, (#[trigger] pending[i]).epoch),
    ensures
        kept(pending, published) == pending.skip(k),
    decreases pending.len(),
{
    reveal(Seq::filter);
    if pending.len() > 0 {
        let init = pending.drop_last();
        let last = pending.len() - 1;
        assert(forall|i: int| 0 <= i < last ==> #[trigger] init[i] == pending[i]);
        if k <= last {
            lemma_kept_is_suffix(init, published, k);
            assert(init.skip(k).push(pending.last()) =~= pending.skip(k));
        } else {
            lemma_kept_is_suffix(init, published, k - 1);
            assert(init.skip(k - 1) =~= pending.skip(k));
        }
    } else {
        assert(pending.skip(k) =~= pending);
    }
}

/// The values that are counted are out of use, and the one that follows is in use.
pub proof fn lemma_unused_len<T>(pending: Seq<StampedValue<T>>, published: Set<u64>)
    ensures
        unused_len(pending, published) <= pending.len(),
        forall|i: int|
            0 <= i < unused_len(pending, published) ==> !in_use(
                published,
                (#[trigger] pending[i]).epoch,
            ),
        unused_len(pending, published) < pending.len() ==> in_use(
            published,
            pending[unused_len(pending, published) as int].epoch,
        ),
    decreases pending.len(),
{
    if pending.len() > 0 && !in_use(published, pending[0].epoch) {
        let rest = pending.drop_first();
        lemma_unused_len(rest, published);
        assert forall|i: int| 0 <= i < unused_len(pending, published) implies !in_use(
            published,
            (#[trigger] pending[i]).epoch,
        ) by {
            if i > 0 {
                assert(rest[i - 1] == pending[i]);
            }
        }
    }
}

/// Of waiting values with rising stamps a suffix is kept, and what goes is out of use.
pub proof fn lemma_kept_splits<T>(pending: Seq<StampedValue<T>>, published: Set<u64>) -> (k: int)
    requires
        rising(pending),
    ensures
        k == unused_len(pending, published),
        0 <= k <= pending.len(),
        forall|i: int| 0 <= i < k ==> !in_use(published, (#[trigger] pending[i]).epoch),
        forall|i: int| k <= i < pending.len() ==> in_use(published, (#[trigger] pending[i]).epoch),
        kept(pending, published) == pending.skip(k),
{
    let k = unused_len(pending, published) as int;
    lemma_unused_len(pending, published);
    assert forall|i: int| k <= i < pending.len() implies in_use(
        published,
        (#[trigger] pending[i]).epoch,
    ) by {
        assert(in_use(published, pending[k].epoch));
        let earlier = choose|earlier: u64| #[trigger]
            published.contains(earlier) && earlier <= pending[k].epoch;
        assert(published.contains(earlier) && earlier <= pending[i].epoch);
    }
    lemma_kept_is_suffix(pending, published, k);
    k
}

/// The epoch of a value that is held lies between the oldest and the latest.
pub proof fn lemma_retained_epoch<T>(state: State<T>, stamped: StampedValue<T>)
    requires
        state.wf(),
        state.retains(stamped),
    ensures
        state.oldest() <= stamped.epoch <= state.latest.epoch,
{
    if stamped != state.latest {
        let i = state.pending.index_of(stamped);
        assert(state.pending[i] == stamped);
    }
}

/// A value that a reader uses is in use.
pub proof fn lemma_live_in_use(readers: Map<nat, u64>, id: nat, epoch: u64)
    requires
        readers.contains_key(id),
        NOT_IN_USE < readers[id] <= epoch,
    ensures
        in_use(live(readers).values(), epoch),
{
    assert(live(readers).contains_key(id));
    assert(live(readers).values().contains(readers[id]));
}

/// Where every live reader has been seen, at the epoch that it has published or at an earlier one,
/// collecting on the epochs seen keeps the state well formed.
pub proof fn lemma_collected_wf<T>(state: State<T>, seen: Set<u64>)
    requires
        state.wf(),
        forall|id: nat| #[trigger]
            state.readers.contains_key(id) && state.readers[id] > NOT_IN_USE ==> in_use(
                seen,
                state.readers[id],
            ),
    ensures
        state.collected(seen).wf(),
{
    let next = state.collected(seen);
    let k = lemma_kept_splits(state.pending, seen);
    assert forall|i: int| 0 <= i < next.pending.len() implies (#[trigger] next.pending[i]).epoch
        == next.oldest() + i by {
        assert(next.pending[i] == state.pending[k + i]);
    }
    assert forall|id: nat| #[trigger]
        next.readers.contains_key(id) && next.readers[id] > NOT_IN_USE implies next.oldest()
        <= next.readers[id] <= next.latest.epoch by {
        let earlier = choose|earlier: u64| #[trigger]
            seen.contains(earlier) && earlier <= state.readers[id];
        if k > 0 {
            assert(!in_use(seen, state.pending[k - 1].epoch));
            assert(seen.contains(earlier));
        }
    }
}

/// Collecting keeps a value that is in use by the epochs seen.
pub proof fn lemma_collected_retains<T>(
    state: State<T>,
    seen: Set<u64>,
    stamped: StampedValue<T>,
)
    requires
        state.wf(),
        in_use(seen, stamped.epoch),
        state.retains(stamped),
    ensures
        state.collected(seen).retains(stamped),
{
    let k = lemma_kept_splits(state.pending, seen);
    if stamped != state.latest {
        let i = state.pending.index_of(stamped);
        assert(in_use(seen, state.pending[i].epoch));
        assert(state.collected(seen).pending[i - k] == stamped);
    }
}

/// Reclaiming keeps the state well formed, and every value that a reader uses.
pub proof fn lemma_reclaimed<T>(state: State<T>)
    requires
        state.wf(),
    ensures
        state.reclaimed().wf(),
        forall|id: nat, cache: StampedValue<T>|
            state.serves(id, cache) ==> #[trigger] state.reclaimed().serves(id, cache),
{
    let seen = live(state.readers).values();
    let collected = state.collected(seen);
    let next = state.reclaimed();
    assert forall|id: nat| #[trigger]
        state.readers.contains_key(id) && state.readers[id] > NOT_IN_USE implies in_use(
        seen,
        state.readers[id],
    ) by {
        lemma_live_in_use(state.readers, id, state.readers[id]);
    }
    lemma_collected_wf(state, seen);
    assert forall|id: nat| #[trigger]
        next.readers.contains_key(id) && next.readers[id] > NOT_IN_USE implies next.oldest()
        <= next.readers[id] <= next.latest.epoch by {
        assert(collected.readers.contains_key(id));
    }
    assert forall|id: nat, cache: StampedValue<T>| state.serves(id, cache) implies #[trigger]
        next.serves(id, cache) by {
        lemma_collected_retains(state, seen, cache);
        assert(collected.retains(cache));
    }
}

/// Installing a value keeps the state well formed, and every value that is held.
pub proof fn lemma_installed<T>(state: State<T>, value: T)
    requires
        state.wf(),
        state.latest.epoch < u64::MAX,
    ensures
        state.installed(value).wf(),
        forall|stamped: StampedValue<T>|
            state.retains(stamped) ==> #[trigger] state.installed(value).retains(stamped),
        forall|id: nat, cache: StampedValue<T>|
            state.serves(id, cache) ==> #[trigger] state.installed(value).serves(id, cache),
{
    let next = state.installed(value);
    assert forall|stamped: StampedValue<T>| state.retains(stamped) implies #[trigger] next.retains(
        stamped,
    ) by {
        if stamped == state.latest {
            assert(next.pending[state.pending.len() as int] == stamped);
        } else {
            let i = state.pending.index_of(stamped);
            assert(next.pending[i] == stamped);
        }
    }
}

/// No step of the writer brings in a value but the one that it installs.
pub proof fn lemma_nothing_else_comes_in<T>(state: State<T>, value: T, seen: Set<u64>)
    requires
        state.wf(),
    ensures
        forall|stamped: StampedValue<T>| #[trigger]
            state.installed(value).retains(stamped) ==> stamped == state.installed(value).latest
                || state.retains(stamped),
        forall|stamped: StampedValue<T>| #[trigger]
            state.collected(seen).retains(stamped) ==> state.retains(stamped),
{
    let installed = state.installed(value);
    let collected = state.collected(seen);
    assert forall|stamped: StampedValue<T>| #[trigger] installed.retains(
        stamped,
    ) implies stamped == installed.latest || state.retains(stamped) by {
        if stamped != installed.latest {
            let i = installed.pending.index_of(stamped);
            assert(i < state.pending.len() ==> state.pending[i] == stamped);
        }
    }
    let k = lemma_kept_splits(state.pending, seen);
    assert forall|stamped: StampedValue<T>| #[trigger] collected.retains(
        stamped,
    ) implies state.retains(stamped) by {
        if stamped != state.latest {
            let i = collected.pending.index_of(stamped);
            assert(state.pending[k + i] == stamped);
        }
    }
}

/// A reader that enters or moves on keeps the state well formed, is served the latest value, and
/// leaves the other readers what they use.
pub proof fn lemma_published<T>(state: State<T>, id: nat)
    requires
        state.wf(),
    ensures
        state.published(id).wf(),
        state.published(id).serves(id, state.latest),
        forall|other: nat, cache: StampedValue<T>|
            other != id && state.serves(other, cache) ==> #[trigger] state.published(id).serves(
                other,
                cache,
            ),
{
}

/// A reader that is dropped keeps the state well formed, and leaves the other readers what they
/// use.
pub proof fn lemma_retired<T>(state: State<T>, id: nat)
    requires
        state.wf(),
    ensures
        state.retired(id).wf(),
        forall|other: nat, cache: StampedValue<T>|
            other != id && state.serves(other, cache) ==> #[trigger] state.retired(id).serves(
                other,
                cache,
            ),
{
}

} // verus!
