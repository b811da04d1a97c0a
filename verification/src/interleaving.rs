//! Readers and writer need not take turns: here an operation falls into the single steps in which
//! it touches what is shared, and the steps of all readers and of the writer come in any order.

use crate::model::{
    in_use, lemma_collected_retains, lemma_collected_wf, lemma_installed,
    lemma_nothing_else_comes_in, lemma_retained_epoch, lemma_retired, live, was_written, ReaderView,
    StampedValue, State, NOT_IN_USE,
};
use vstd::prelude::*;

verus! {

/// The lock, and how far its readers and its writer have come: `readers` holds what every reader
/// holds, `loaded` the value of every reader that has loaded the latest value and has not
/// published its epoch yet, and `seen` the epochs that the writer has read so far in order to
/// reclaim. Where a reader is being registered the table is locked, and `entering` holds the place
/// that it will have and the value that it has loaded.
pub ghost struct System<T> {
    pub state: State<T>,
    pub readers: Map<nat, ReaderView<T>>,
    pub loaded: Map<nat, StampedValue<T>>,
    pub seen: Map<nat, u64>,
    pub entering: Option<(nat, StampedValue<T>)>,
}

/// A single step.
///
/// The writer takes `Install` for a new value. To reclaim it takes `Trim` for dropped readers,
/// `Look` for each of the others, and `Collect` at the end. To be registered a reader takes
/// `Prepare`, which locks the table and loads the latest value, and `Enter`, which publishes the
/// epoch of that value and unlocks the table. While the table is locked nothing is reclaimed. A
/// reader takes `Drop` when it is dropped. To read it takes `Load` and `Advance` where it has no
/// guards, and `Nest` where it has. It takes `Release` when a guard is given back.
pub ghost enum Move<T> {
    Install(T),
    Trim(nat),
    Look(nat),
    Collect,
    Prepare(nat),
    Enter,
    Load(nat),
    Advance(nat),
    Nest(nat),
    Release(nat),
    Drop(nat),
}

impl<T> System<T> {
    /// A lock that holds its first value and has no readers.
    pub open spec fn initial(value: T) -> Self {
        System {
            state: State::initial(value),
            readers: Map::empty(),
            loaded: Map::empty(),
            seen: Map::empty(),
            entering: None,
        }
    }

    /// Whether reader `id` is between two reads.
    pub open spec fn is_idle(self, id: nat) -> bool {
        self.readers.contains_key(id) && self.readers[id].refs == 0 && !self.loaded.contains_key(id)
    }

    /// Whether reader `id` has guards.
    pub open spec fn has_guards(self, id: nat) -> bool {
        self.readers.contains_key(id) && self.readers[id].refs > 0
    }

    /// Whether the step can be taken.
    pub open spec fn enabled(self, step: Move<T>) -> bool {
        match step {
            Move::Install(_) => self.state.latest.epoch < u64::MAX,
            Move::Trim(id) => self.entering is None && self.state.readers.contains_key(id)
                && self.state.readers[id] == NOT_IN_USE,
            Move::Look(id) => self.entering is None && self.state.readers.contains_key(id),
            Move::Collect => self.entering is None && self.state.readers.dom().subset_of(
                self.seen.dom(),
            ),
            Move::Prepare(id) => self.entering is None && !self.state.readers.contains_key(id),
            Move::Enter => self.entering is Some,
            Move::Load(id) => self.is_idle(id),
            Move::Advance(id) => self.loaded.contains_key(id),
            Move::Nest(id) => self.has_guards(id),
            Move::Release(id) => self.has_guards(id),
            Move::Drop(id) => self.is_idle(id),
        }
    }

    /// The system after the step.
    pub open spec fn after(self, step: Move<T>) -> Self {
        match step {
            Move::Install(value) => System { state: self.state.installed(value), ..self },
            Move::Trim(id) => System {
                state: State { readers: self.state.readers.remove(id), ..self.state },
                seen: self.seen.remove(id),
                ..self
            },
            Move::Look(id) => System {
                seen: self.seen.insert(id, self.state.readers[id]),
                ..self
            },
            Move::Collect => System {
                state: self.state.collected(self.seen.values()),
                seen: Map::empty(),
                ..self
            },
            Move::Prepare(id) => System { entering: Some((id, self.state.latest)), ..self },
            Move::Enter => {
                let (id, value) = self.entering->0;
                System {
                    state: State {
                        readers: self.state.readers.insert(id, value.epoch),
                        ..self.state
                    },
                    readers: self.readers.insert(id, ReaderView { id, cache: value, refs: 0 }),
                    entering: None,
                    ..self
                }
            },
            Move::Load(id) => System {
                loaded: self.loaded.insert(id, self.state.latest),
                ..self
            },
            Move::Advance(id) => System {
                state: State {
                    readers: self.state.readers.insert(id, self.loaded[id].epoch),
                    ..self.state
                },
                readers: self.readers.insert(
                    id,
                    ReaderView { id, cache: self.loaded[id], refs: 1 },
                ),
                loaded: self.loaded.remove(id),
                ..self
            },
            Move::Nest(id) => System {
                readers: self.readers.insert(id, self.readers[id].read(self.state)),
                ..self
            },
            Move::Release(id) => System {
                readers: self.readers.insert(id, self.readers[id].released()),
                ..self
            },
            Move::Drop(id) => System {
                state: self.state.retired(id),
                readers: self.readers.remove(id),
                ..self
            },
        }
    }

    /// What every step preserves. The lock is well formed, and its table is finite. It serves every
    /// reader the value that the reader uses, and holds what a reader has loaded, which is not
    /// older. It holds what a reader that is being registered has loaded, and the place for that
    /// reader is vacant. The writer has seen no reader at a later epoch than the one that the
    /// reader has published.
    pub open spec fn inv(self) -> bool {
        &&& self.state.wf()
        &&& self.state.readers.dom().finite()
        &&& self.entering matches Some((id, value)) ==> !self.state.readers.contains_key(id)
            && self.state.retains(value)
        &&& forall|id: nat| #[trigger]
            self.readers.contains_key(id) ==> self.readers[id].id == id && self.state.serves(
                id,
                self.readers[id].cache,
            )
        &&& forall|id: nat| #[trigger]
            self.state.readers.contains_key(id) && self.state.readers[id] > NOT_IN_USE
                ==> self.readers.contains_key(id)
        &&& forall|id: nat| #[trigger]
            self.loaded.contains_key(id) ==> self.readers.contains_key(id) && self.readers[id].refs
                == 0 && self.state.retains(self.loaded[id]) && self.readers[id].cache.epoch
                <= self.loaded[id].epoch
        &&& forall|id: nat| #[trigger]
            self.seen.contains_key(id) ==> self.state.readers.contains_key(id) && (
            self.readers.contains_key(id) ==> self.seen[id] <= self.state.readers[id])
    }
}

/// The system after all the steps, in order.
pub open spec fn run<T>(system: System<T>, steps: Seq<Move<T>>) -> System<T>
    decreases steps.len(),
{
    if steps.len() == 0 {
        system
    } else {
        run(system, steps.drop_last()).after(steps.last())
    }
}

/// Whether each of the steps can be taken where its turn comes.
pub open spec fn runs<T>(system: System<T>, steps: Seq<Move<T>>) -> bool
    decreases steps.len(),
{
    steps.len() == 0 || (runs(system, steps.drop_last()) && run(system, steps.drop_last()).enabled(
        steps.last(),
    ))
}

/// The values that have been the latest one, in order, when `steps` begin with `value`.
pub open spec fn history<T>(value: T, steps: Seq<Move<T>>) -> Seq<T>
    decreases steps.len(),
{
    if steps.len() == 0 {
        seq![value]
    } else {
        match steps.last() {
            Move::Install(next) => history(value, steps.drop_last()).push(next),
            _ => history(value, steps.drop_last()),
        }
    }
}

proof fn lemma_collect<T>(system: System<T>)
    requires
        system.inv(),
        system.enabled(Move::<T>::Collect),
    ensures
        system.after(Move::<T>::Collect).inv(),
{
    let state = system.state;
    let seen = system.seen.values();
    let next = system.after(Move::<T>::Collect);
    assert forall|id: nat, epoch: u64|
        #![trigger system.readers.contains_key(id), in_use(seen, epoch)]
        system.readers.contains_key(id) && state.readers[id] <= epoch implies in_use(
        seen,
        epoch,
    ) by {
        assert(state.readers.contains_key(id));
        assert(system.seen.contains_key(id));
        assert(seen.contains(system.seen[id]));
    }
    assert forall|id: nat| #[trigger]
        state.readers.contains_key(id) && state.readers[id] > NOT_IN_USE implies in_use(
        seen,
        state.readers[id],
    ) by {
        assert(system.readers.contains_key(id));
    }
    lemma_collected_wf(state, seen);
    assert forall|id: nat| #[trigger] system.readers.contains_key(id) implies next.state.serves(
        id,
        system.readers[id].cache,
    ) by {
        assert(in_use(seen, system.readers[id].cache.epoch));
        lemma_collected_retains(state, seen, system.readers[id].cache);
    }
    assert forall|id: nat| #[trigger] system.loaded.contains_key(id) implies next.state.retains(
        system.loaded[id],
    ) by {
        assert(system.readers.contains_key(id));
        assert(in_use(seen, system.loaded[id].epoch));
        lemma_collected_retains(state, seen, system.loaded[id]);
    }
}

proof fn lemma_step<T>(system: System<T>, step: Move<T>)
    requires
        system.inv(),
        system.enabled(step),
    ensures
        system.after(step).inv(),
{
    let state = system.state;
    match step {
        Move::Install(value) => {
            lemma_installed(state, value);
        },
        Move::Trim(id) => {},
        Move::Look(id) => {},
        Move::Collect => {
            lemma_collect(system);
        },
        Move::Prepare(id) => {},
        Move::Enter => {
            let (_, value) = system.entering->0;
            lemma_retained_epoch(state, value);
        },
        Move::Load(id) => {},
        Move::Advance(id) => {},
        Move::Nest(id) => {},
        Move::Release(id) => {},
        Move::Drop(id) => {
            lemma_retired(state, id);
        },
    }
}

/// However the steps come, the invariant holds.
pub proof fn every_interleaving_keeps_the_invariant<T>(system: System<T>, steps: Seq<Move<T>>)
    requires
        system.inv(),
        runs(system, steps),
    ensures
        run(system, steps).inv(),
    decreases steps.len(),
{
    if steps.len() > 0 {
        every_interleaving_keeps_the_invariant(system, steps.drop_last());
        lemma_step(run(system, steps.drop_last()), steps.last());
    }
}

/// However the steps come, no value is reclaimed that a guard gives access to, none that a reader
/// has loaded and is about to use, and none that a reader has loaded while it is being registered.
pub proof fn no_interleaving_reclaims_a_value_in_use<T>(value: T, steps: Seq<Move<T>>, id: nat)
    requires
        runs(System::initial(value), steps),
    ensures
        run(System::initial(value), steps).has_guards(id) ==> run(
            System::initial(value),
            steps,
        ).state.retains(run(System::initial(value), steps).readers[id].cache),
        run(System::initial(value), steps).loaded.contains_key(id) ==> run(
            System::initial(value),
            steps,
        ).state.retains(run(System::initial(value), steps).loaded[id]),
        run(System::initial(value), steps).entering matches Some((_, loaded)) ==> run(
            System::initial(value),
            steps,
        ).state.retains(loaded),
{
    every_interleaving_keeps_the_invariant(System::initial(value), steps);
}

/// However the steps come, every value that the lock holds is the one that was written in the epoch
/// of its stamp, and the latest value is the one that was written last.
pub proof fn every_held_value_was_written<T>(value: T, steps: Seq<Move<T>>)
    requires
        runs(System::initial(value), steps),
    ensures
        run(System::initial(value), steps).state.latest.epoch == history(value, steps).len(),
        run(System::initial(value), steps).state.latest.value == history(value, steps).last(),
        forall|stamped: StampedValue<T>| #[trigger]
            run(System::initial(value), steps).state.retains(stamped) ==> was_written(
                stamped,
                history(value, steps),
            ),
    decreases steps.len(),
{
    let system = System::initial(value);
    if steps.len() > 0 {
        let init = steps.drop_last();
        let before = run(system, init);
        let after = run(system, steps);
        every_held_value_was_written(value, init);
        every_interleaving_keeps_the_invariant(system, init);
        let seen = before.seen.values();
        match steps.last() {
            Move::Install(next) => lemma_nothing_else_comes_in(before.state, next, seen),
            _ => {
                lemma_nothing_else_comes_in(before.state, value, seen);
                assert forall|stamped: StampedValue<T>| #[trigger]
                    after.state.retains(stamped) implies before.state.retains(stamped) by {}
            },
        }
    }
}

/// However the steps come, what a reader uses, and what it has loaded, was written in the epoch of
/// its stamp.
pub proof fn every_value_read_was_written<T>(value: T, steps: Seq<Move<T>>, id: nat)
    requires
        runs(System::initial(value), steps),
    ensures
        run(System::initial(value), steps).readers.contains_key(id) ==> was_written(
            run(System::initial(value), steps).readers[id].cache,
            history(value, steps),
        ),
        run(System::initial(value), steps).loaded.contains_key(id) ==> was_written(
            run(System::initial(value), steps).loaded[id],
            history(value, steps),
        ),
        run(System::initial(value), steps).entering matches Some((_, loaded)) ==> was_written(
            loaded,
            history(value, steps),
        ),
{
    every_interleaving_keeps_the_invariant(System::initial(value), steps);
    every_held_value_was_written(value, steps);
}

/// The steps of a read that nothing interrupts do what a read does.
pub proof fn uninterrupted_read<T>(system: System<T>, id: nat)
    requires
        system.inv(),
        system.readers.contains_key(id),
        !system.loaded.contains_key(id),
    ensures
        system.is_idle(id) ==> {
            let steps = seq![Move::<T>::Load(id), Move::<T>::Advance(id)];
            &&& runs(system, steps)
            &&& run(system, steps).state == system.readers[id].read_in(system.state)
            &&& run(system, steps).readers[id] == system.readers[id].read(system.state)
        },
        system.has_guards(id) ==> {
            let steps = seq![Move::<T>::Nest(id)];
            &&& runs(system, steps)
            &&& run(system, steps).state == system.readers[id].read_in(system.state)
            &&& run(system, steps).readers[id] == system.readers[id].read(system.state)
        },
{
    reveal_with_fuel(run, 3);
    reveal_with_fuel(runs, 3);
    let nest = seq![Move::<T>::Nest(id)];
    assert(nest.drop_last() =~= Seq::<Move<T>>::empty());
    let load = seq![Move::<T>::Load(id)];
    let steps = seq![Move::<T>::Load(id), Move::<T>::Advance(id)];
    assert(load.drop_last() =~= Seq::<Move<T>>::empty());
    assert(steps.drop_last() =~= load);
}

/// The steps of a registration that nothing interrupts do what a registration does.
pub proof fn uninterrupted_registration<T>(system: System<T>, id: nat)
    requires
        system.inv(),
        system.enabled(Move::<T>::Prepare(id)),
    ensures
        ({
            let steps = seq![Move::<T>::Prepare(id), Move::<T>::Enter];
            &&& runs(system, steps)
            &&& run(system, steps).state == system.state.published(id)
            &&& run(system, steps).readers[id] == ReaderView::registered(system.state, id)
        }),
{
    reveal_with_fuel(run, 3);
    reveal_with_fuel(runs, 3);
    let prepare = seq![Move::<T>::Prepare(id)];
    let steps = seq![Move::<T>::Prepare(id), Move::<T>::Enter];
    assert(prepare.drop_last() =~= Seq::<Move<T>>::empty());
    assert(steps.drop_last() =~= prepare);
}

/// `Trim` for each of the readers.
pub open spec fn trims<T>(ids: Seq<nat>) -> Seq<Move<T>> {
    Seq::new(ids.len(), |i: int| Move::Trim(ids[i]))
}

/// `Look` for each of the readers.
pub open spec fn looks<T>(ids: Seq<nat>) -> Seq<Move<T>> {
    Seq::new(ids.len(), |i: int| Move::Look(ids[i]))
}

/// The steps with which the writer reclaims: `Trim` for each of the readers that have been dropped,
/// `Look` for each of the others, and `Collect`.
pub open spec fn reclaim_steps<T>(dropped: Seq<nat>, others: Seq<nat>) -> Seq<Move<T>> {
    (trims::<T>(dropped) + looks::<T>(others)).push(Move::Collect)
}

/// Whether the readers in the table that have been dropped are those in `dropped`, each once, and
/// the live ones are those in `others`.
pub open spec fn lists_readers(
    readers: Map<nat, u64>,
    dropped: Seq<nat>,
    others: Seq<nat>,
) -> bool {
    &&& dropped.no_duplicates()
    &&& dropped.to_set() == readers.dom().difference(live(readers).dom())
    &&& others.to_set() == live(readers).dom()
}

proof fn lemma_run_concat<T>(system: System<T>, first: Seq<Move<T>>, second: Seq<Move<T>>)
    ensures
        run(system, first + second) == run(run(system, first), second),
        runs(system, first + second) <==> runs(system, first) && runs(run(system, first), second),
    decreases second.len(),
{
    if second.len() == 0 {
        assert(first + second =~= first);
    } else {
        assert((first + second).drop_last() =~= first + second.drop_last());
        lemma_run_concat(system, first, second.drop_last());
    }
}

proof fn lemma_trims<T>(system: System<T>, ids: Seq<nat>)
    requires
        system.entering is None,
        ids.no_duplicates(),
        forall|i: int|
            0 <= i < ids.len() ==> system.state.readers.contains_key(#[trigger] ids[i])
                && system.state.readers[ids[i]] == NOT_IN_USE,
    ensures
        runs(system, trims::<T>(ids)),
        run(system, trims::<T>(ids)) == (System {
            state: State {
                readers: system.state.readers.remove_keys(ids.to_set()),
                ..system.state
            },
            seen: system.seen.remove_keys(ids.to_set()),
            ..system
        }),
    decreases ids.len(),
{
    let after = run(system, trims::<T>(ids));
    if ids.len() == 0 {
        assert(system.state.readers.remove_keys(ids.to_set()) =~= system.state.readers);
        assert(system.seen.remove_keys(ids.to_set()) =~= system.seen);
    } else {
        let init = ids.drop_last();
        assert(trims::<T>(ids).drop_last() =~= trims::<T>(init));
        assert(forall|i: int| 0 <= i < init.len() ==> init[i] == #[trigger] ids[i]);
        lemma_trims(system, init);
        assert(ids.to_set() =~= init.to_set().insert(ids.last())) by {
            assert(ids =~= init.push(ids.last()));
        }
        assert(after.state.readers =~= system.state.readers.remove_keys(ids.to_set()));
        assert(after.seen =~= system.seen.remove_keys(ids.to_set()));
    }
}

proof fn lemma_looks<T>(system: System<T>, ids: Seq<nat>)
    requires
        system.entering is None,
        forall|i: int|
            0 <= i < ids.len() ==> system.state.readers.contains_key(#[trigger] ids[i]),
    ensures
        runs(system, looks::<T>(ids)),
        run(system, looks::<T>(ids)) == (System {
            seen: system.seen.union_prefer_right(system.state.readers.restrict(ids.to_set())),
            ..system
        }),
    decreases ids.len(),
{
    let readers = system.state.readers;
    let after = run(system, looks::<T>(ids));
    if ids.len() == 0 {
        assert(system.seen.union_prefer_right(readers.restrict(ids.to_set())) =~= system.seen);
    } else {
        let init = ids.drop_last();
        assert(looks::<T>(ids).drop_last() =~= looks::<T>(init));
        assert(forall|i: int| 0 <= i < init.len() ==> init[i] == #[trigger] ids[i]);
        lemma_looks(system, init);
        assert(ids.to_set() =~= init.to_set().insert(ids.last())) by {
            assert(ids =~= init.push(ids.last()));
        }
        assert(after.seen =~= system.seen.union_prefer_right(readers.restrict(ids.to_set())));
    }
}

/// The steps of a reclaim that nothing interrupts can be taken, in whatever order the readers come,
/// and do what a reclaim does. They leave the readers as they are.
pub proof fn uninterrupted_reclaim<T>(system: System<T>, dropped: Seq<nat>, others: Seq<nat>)
    requires
        system.inv(),
        system.entering is None,
        lists_readers(system.state.readers, dropped, others),
    ensures
        runs(system, reclaim_steps(dropped, others)),
        run(system, reclaim_steps(dropped, others)).state == system.state.reclaimed(),
        run(system, reclaim_steps(dropped, others)).readers == system.readers,
        run(system, reclaim_steps(dropped, others)).loaded == system.loaded,
{
    let readers = system.state.readers;
    let trimmed = run(system, trims::<T>(dropped));
    let looked = run(trimmed, looks::<T>(others));
    let steps = reclaim_steps::<T>(dropped, others);
    assert forall|i: int| 0 <= i < dropped.len() implies readers.contains_key(
        #[trigger] dropped[i],
    ) && readers[dropped[i]] == NOT_IN_USE by {
        assert(dropped.to_set().contains(dropped[i]));
    }
    lemma_trims(system, dropped);
    assert(trimmed.state.readers =~= live(readers));
    assert forall|i: int| 0 <= i < others.len() implies trimmed.state.readers.contains_key(
        #[trigger] others[i],
    ) by {
        assert(others.to_set().contains(others[i]));
    }
    lemma_looks(trimmed, others);
    assert(looked.seen =~= live(readers));
    lemma_run_concat(system, trims::<T>(dropped), looks::<T>(others));
    assert(steps.drop_last() =~= trims::<T>(dropped) + looks::<T>(others));
}

/// Installing a value and then reclaiming, with nothing in between, is a write.
pub proof fn uninterrupted_write<T>(
    system: System<T>,
    value: T,
    dropped: Seq<nat>,
    others: Seq<nat>,
)
    requires
        system.inv(),
        system.entering is None,
        system.state.latest.epoch < u64::MAX,
        lists_readers(system.state.readers, dropped, others),
    ensures
        ({
            let steps = seq![Move::Install(value)] + reclaim_steps(dropped, others);
            &&& runs(system, steps)
            &&& run(system, steps).state == system.state.written(value)
            &&& run(system, steps).readers == system.readers
            &&& run(system, steps).loaded == system.loaded
        }),
{
    reveal_with_fuel(run, 2);
    reveal_with_fuel(runs, 2);
    let install = seq![Move::Install(value)];
    lemma_step(system, Move::Install(value));
    uninterrupted_reclaim(system.after(Move::Install(value)), dropped, others);
    lemma_run_concat(system, install, reclaim_steps(dropped, others));
}

proof fn lemma_list(ids: Set<nat>) -> (list: Seq<nat>)
    requires
        ids.finite(),
    ensures
        list.no_duplicates(),
        list.to_set() == ids,
    decreases ids.len(),
{
    if ids.len() == 0 {
        Seq::empty()
    } else {
        let id = ids.choose();
        let rest = lemma_list(ids.remove(id));
        let list = rest.push(id);
        assert forall|other: nat| ids.contains(other) implies #[trigger] list.to_set().contains(
            other,
        ) by {
            if other != id {
                assert(list[rest.index_of(other)] == other);
            } else {
                assert(list[rest.len() as int] == id);
            }
        }
        assert forall|other: nat| #[trigger] list.to_set().contains(other) implies ids.contains(
            other,
        ) by {
            if other != id {
                assert(rest.to_set().contains(other));
            }
        }
        assert(!rest.to_set().contains(id));
        list
    }
}

/// Whenever no reader is being registered, the writer can reclaim: there are lists of the readers
/// that the steps of a reclaim can go by.
pub proof fn writer_can_reclaim<T>(system: System<T>) -> (lists: (Seq<nat>, Seq<nat>))
    requires
        system.inv(),
        system.entering is None,
    ensures
        lists_readers(system.state.readers, lists.0, lists.1),
        runs(system, reclaim_steps(lists.0, lists.1)),
        run(system, reclaim_steps(lists.0, lists.1)).state == system.state.reclaimed(),
{
    let readers = system.state.readers;
    let alive = live(readers).dom();
    assert(alive =~= readers.dom().intersect(alive));
    let dropped = lemma_list(readers.dom().difference(alive));
    let others = lemma_list(alive);
    uninterrupted_reclaim(system, dropped, others);
    (dropped, others)
}

} // verus!
