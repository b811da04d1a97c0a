//! The write side: the stamping of values, and the decision which of them to let go.

use crate::model::{in_use, lemma_unused_len, unused_len, values, StampedValue, NOT_IN_USE};
use std::collections::VecDeque;
use std::sync::Arc;
use vstd::prelude::*;

verus! {

/// The epoch that the writer has reached, and the values that wait to be reclaimed, oldest first.
#[derive(Debug)]
pub struct Writer<T> {
    epoch: u64,
    reclaim: VecDeque<Arc<StampedValue<T>>>,
}

/// The earliest of the epochs, or [`NOT_IN_USE`] where there are none.
fn min_epoch(epochs: &Vec<u64>) -> (min: u64)
    ensures
        forall|i: int| 0 <= i < epochs@.len() ==> min <= #[trigger] epochs@[i],
        epochs@.contains(min) || (min == NOT_IN_USE && epochs@.len() == 0),
{
    let mut min: Option<u64> = None;
    let mut i: usize = 0;
    while i < epochs.len()
        invariant
            i <= epochs@.len(),
            min is None <==> i == 0,
            min matches Some(earliest) ==> {
                &&& epochs@.contains(earliest)
                &&& forall|j: int| 0 <= j < i ==> earliest <= #[trigger] epochs@[j]
            },
        decreases epochs@.len() - i,
    {
        min = match min {
            Some(earliest) if earliest <= epochs[i] => Some(earliest),
            _ => Some(epochs[i]),
        };
        i += 1;
    }
    min.unwrap_or(NOT_IN_USE)
}

impl<T> Writer<T> {
    /// The epoch of the last value that has been stamped.
    pub closed spec fn spec_epoch(&self) -> u64 {
        self.epoch
    }

    /// The values that wait to be reclaimed.
    pub closed spec fn pending(&self) -> Seq<StampedValue<T>> {
        values(self.reclaim@)
    }

    /// A writer that has stamped a first value, with epoch 1.
    pub fn new() -> (writer: Self)
        ensures
            writer.spec_epoch() == 1,
            writer.pending() == Seq::<StampedValue<T>>::empty(),
    {
        let writer = Self { epoch: 1, reclaim: VecDeque::new() };
        assert(writer.pending() =~= Seq::<StampedValue<T>>::empty());
        writer
    }

    /// The epoch of the last value that has been stamped.
    pub fn epoch(&self) -> (epoch: u64)
        ensures
            epoch == self.spec_epoch(),
    {
        self.epoch
    }

    /// The number of values still waiting to be reclaimed.
    pub fn waiting(&self) -> (waiting: usize)
        ensures
            waiting == self.pending().len(),
    {
        self.reclaim.len()
    }

    /// Records a new epoch associated with this value, not allowed to wrap around.
    pub fn stamp(&mut self, value: T) -> (stamped: StampedValue<T>)
        requires
            old(self).spec_epoch() < u64::MAX,
        ensures
            final(self).spec_epoch() == old(self).spec_epoch() + 1,
            final(self).pending() == old(self).pending(),
            stamped == (StampedValue { value, epoch: final(self).spec_epoch() }),
    {
        self.epoch += 1;
        StampedValue { value, epoch: self.epoch }
    }

    /// Leaves a value that is no longer the latest waiting.
    pub fn retire(&mut self, prev: Arc<StampedValue<T>>)
        ensures
            final(self).spec_epoch() == old(self).spec_epoch(),
            final(self).pending() == old(self).pending().push(*prev),
    {
        self.reclaim.push_back(prev);
        assert(self.pending() =~= old(self).pending().push(*prev));
    }

    /// Takes out the values that stand before the first one that a reader may be using, oldest
    /// first, when `seen` holds the epochs that the readers have published.
    pub fn take_unused(&mut self, seen: &Vec<u64>) -> (unused: VecDeque<Arc<StampedValue<T>>>)
        ensures
            final(self).spec_epoch() == old(self).spec_epoch(),
            values(unused@) == old(self).pending().take(
                unused_len(old(self).pending(), seen@.to_set()) as int,
            ),
            final(self).pending() == old(self).pending().skip(
                unused_len(old(self).pending(), seen@.to_set()) as int,
            ),
    {
        let ghost published = seen@.to_set();

        // If there are no readers, we can reclaim everything.
        let mut unused: VecDeque<Arc<StampedValue<T>>> = VecDeque::new();
        if seen.len() == 0 {
            std::mem::swap(&mut unused, &mut self.reclaim);
        }

        // Check the minimum epoch across all readers, removing records that are below the minimum
        // epoch.
        let min_epoch = min_epoch(seen);
        loop
            invariant
                self.epoch == old(self).epoch,
                unused@ + self.reclaim@ == old(self).reclaim@,
                forall|earlier: u64| #[trigger] published.contains(earlier) ==> min_epoch <= earlier,
                self.reclaim@.len() == 0 || published.contains(min_epoch),
                forall|i: int|
                    0 <= i < unused@.len() ==> !in_use(published, (#[trigger] unused@[i]).epoch),
            ensures
                self.reclaim@.len() > 0 ==> self.reclaim@[0].epoch >= min_epoch,
            decreases self.reclaim@.len(),
        {
            match self.reclaim.pop_front() {
                Some(candidate) => {
                    if min_epoch > candidate.epoch {
                        unused.push_back(candidate);
                    } else {
                        // We short circuit, no point checking others with a higher epoch.
                        self.reclaim.push_front(candidate);
                        break;
                    }
                },
                None => {
                    break;
                },
            }
        }
        proof {
            let pending = old(self).pending();
            let k = unused@.len() as int;
            assert(forall|i: int| 0 <= i < k ==> pending[i] == *#[trigger] unused@[i]);
            assert(k < pending.len() ==> pending[k] == *self.reclaim@[0]);
            lemma_unused_len(pending, published);
            if k < unused_len(pending, published) {
                assert(in_use(published, pending[k].epoch));
            }
            if unused_len(pending, published) < k {
                assert(!in_use(
                    published,
                    unused@[unused_len(pending, published) as int].epoch,
                ));
            }
            assert(values(unused@) =~= pending.take(k));
            assert(self.pending() =~= pending.skip(k));
        }
        unused
    }
}

} // verus!
