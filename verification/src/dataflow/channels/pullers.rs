//! The metered receiving end of a channel.

use vstd::prelude::*;
use crate::dataflow::channels::{answer, weigh, weight, Answers, Inlet, Pullable};
use crate::progress::count_map::{bump, plus, CountMap};
use crate::progress::timestamp::Timestamp;

verus! {

/// The ledger after a pull that gave `pulled`: the weight of the batch less
/// at its time, or no change where nothing came.
pub open spec fn after_pull<T, D>(ledger: Map<T, int>, pulled: Option<(T, Vec<D>)>) -> Map<
    T,
    int,
> {
    match pulled {
        Some((t, batch)) => bump(ledger, t, -weight(batch@.len())),
        None => ledger,
    }
}

/// A receiver that records every batch it hands on: the number of its
/// records less at the time of the batch.
#[verifier::reject_recursive_types(T)]
#[verifier::reject_recursive_types(D)]
pub struct Counter<T: Timestamp, D> {
    receiver: Inlet<T, D>,
    consumed: CountMap<T>,
}

impl<T: Timestamp, D> Counter<T, D> {
    /// What was consumed and not reported yet.
    pub closed spec fn consumed(&self) -> Map<T, int> {
        self.consumed@
    }

    /// The identifier of the channel that is read.
    pub closed spec fn channel(&self) -> usize {
        self.receiver.channel
    }

    /// What the receiver has answered so far.
    pub closed spec fn answers(&self) -> Answers<T, D> {
        self.receiver.puller.answers()
    }

    /// Wraps the receiving end of a channel.
    pub fn new(receiver: Inlet<T, D>) -> (counter: Self)
        ensures
            counter.consumed() == Map::<T, int>::empty(),
            counter.channel() == receiver.channel,
            counter.answers() == receiver.puller.answers(),
    {
        Counter { receiver, consumed: CountMap::new() }
    }

    /// Records a batch that was pulled.
    pub fn account(&mut self, pulled: &Option<(T, Vec<D>)>)
        ensures
            final(self).consumed() == after_pull(old(self).consumed(), *pulled),
            final(self).channel() == old(self).channel(),
            final(self).answers() == old(self).answers(),
    {
        match pulled {
            Some((time, batch)) => {
                let w = weigh(batch.len());
                self.consumed.update(time, -w);
            },
            None => {},
        }
    }

    /// Asks the receiver once for the next batch of the channel and hands on
    /// what it answers; a batch is recorded as consumed.
    pub fn next(&mut self) -> (pulled: Option<(T, Vec<D>)>)
        ensures
            final(self).consumed() == after_pull(old(self).consumed(), pulled),
            final(self).channel() == old(self).channel(),
            final(self).answers() == old(self).answers().push(answer(pulled)),
    {
        let pulled = self.receiver.puller.pull();
        self.account(&pulled);
        pulled
    }

    /// Moves what was consumed into `consumed` and starts anew.
    pub fn pull_progress(&mut self, consumed: &mut CountMap<T>)
        ensures
            final(consumed)@ == plus(old(consumed)@, old(self).consumed()),
            final(self).consumed() == Map::<T, int>::empty(),
            final(self).channel() == old(self).channel(),
            final(self).answers() == old(self).answers(),
    {
        self.consumed.drain_into(consumed);
    }
}

} // verus!
