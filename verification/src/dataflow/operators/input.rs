//! The bookkeeping of an input: a vertex without inputs of its own, through
//! which records enter the graph from outside.

use vstd::prelude::*;
use crate::dataflow::channels::{weigh, weight};
use crate::progress::count_map::{bump, plus, CountMap};
use crate::progress::timestamp::Timestamp;

verus! {

/// What an input has done since it last reported: the records that it sent,
/// and how the capability that it holds has moved. An input holds one
/// capability, at the least time from the start, until it is closed.
pub struct Feed<T: Timestamp> {
    internal: CountMap<T>,
    produced: CountMap<T>,
}

impl<T: Timestamp> Feed<T> {
    /// How the held capability has moved, not reported yet.
    pub closed spec fn internal(&self) -> Map<T, int> {
        self.internal@
    }

    /// The records sent, not reported yet.
    pub closed spec fn produced(&self) -> Map<T, int> {
        self.produced@
    }

    /// An input that has done nothing yet.
    pub fn new() -> (feed: Self)
        ensures
            feed.internal() == Map::<T, int>::empty(),
            feed.produced() == Map::<T, int>::empty(),
    {
        Feed { internal: CountMap::new(), produced: CountMap::new() }
    }

    /// The capability that an input holds from the start: one at the least
    /// time.
    pub fn initial() -> (held: CountMap<T>)
        ensures
            exists|least: T|
                (forall|t: T| #[trigger] least.precedes(t)) && held@ == Map::<T, int>::empty().insert(
                    least,
                    1int,
                ),
    {
        let least = T::minimum();
        let mut held: CountMap<T> = CountMap::new();
        held.update(&least, 1);
        assert(held@ =~= Map::<T, int>::empty().insert(least, 1int));
        held
    }

    /// Records that a batch of `records` records was sent at `time`.
    pub fn send(&mut self, time: &T, records: usize)
        ensures
            final(self).produced() == bump(old(self).produced(), *time, weight(records as nat)),
            final(self).internal() == old(self).internal(),
    {
        self.produced.update(time, weigh(records));
    }

    /// Moves the capability from `old_time` to `new_time`.
    pub fn advance(&mut self, old_time: &T, new_time: &T)
        ensures
            final(self).internal() == bump(
                bump(old(self).internal(), *new_time, 1),
                *old_time,
                -1,
            ),
            final(self).produced() == old(self).produced(),
    {
        self.internal.update(new_time, 1);
        self.internal.update(old_time, -1);
    }

    /// Gives up the capability held at `time`: the input is closed.
    pub fn close_at(&mut self, time: &T)
        ensures
            final(self).internal() == bump(old(self).internal(), *time, -1),
            final(self).produced() == old(self).produced(),
    {
        self.internal.update(time, -1);
    }

    /// Moves what was recorded into the two ledgers and starts anew.
    pub fn pull_progress(&mut self, internal: &mut CountMap<T>, produced: &mut CountMap<T>)
        ensures
            final(internal)@ == plus(old(internal)@, old(self).internal()),
            final(produced)@ == plus(old(produced)@, old(self).produced()),
            final(self).internal() == Map::<T, int>::empty(),
            final(self).produced() == Map::<T, int>::empty(),
    {
        self.internal.drain_into(internal);
        self.produced.drain_into(produced);
    }
}

} // verus!
