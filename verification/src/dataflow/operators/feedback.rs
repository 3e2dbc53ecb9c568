//! The rule of a feedback edge: what passes it comes out at a later time, and
//! nothing passes it that would come out at or beyond its limit.

use vstd::prelude::*;
use crate::dataflow::channels::{weigh, weight};
use crate::progress::count_map::{bump, CountMap};
use crate::progress::frontier::Antichain;
use crate::progress::timestamp::{PartialOrder, PathSummary, Timestamp};

verus! {

/// A feedback edge with its summary and its limit.
pub struct Feedback<T: Timestamp> {
    limit: T,
    summary: T::Summary,
}

impl<T: Timestamp> Feedback<T> {
    /// The time from which on nothing passes.
    pub closed spec fn limit(&self) -> T {
        self.limit
    }

    /// How a time changes on the edge.
    pub closed spec fn summary(&self) -> T::Summary {
        self.summary
    }

    /// The time at which a batch of time `time` comes out, if it passes: the
    /// time that the summary leads to, where that is before the limit.
    pub open spec fn passes(&self, time: T) -> Option<T> {
        let later = self.summary().advance(time);
        if later.precedes(self.limit()) && later != self.limit() {
            Some(later)
        } else {
            None
        }
    }

    /// A feedback edge.
    pub fn new(limit: T, summary: T::Summary) -> (edge: Self)
        ensures
            edge.limit() == limit,
            edge.summary() == summary,
    {
        Feedback { limit, summary }
    }

    /// The way through the edge, as a vertex reports it: from its one input
    /// to its one output, with the summary of the edge.
    pub fn internal_summary(&self) -> (ways: Vec<Vec<Antichain<T::Summary>>>)
        ensures
            ways@.len() == 1,
            ways@[0]@.len() == 1,
            ways@[0]@[0]@ == Set::<T::Summary>::empty().insert(self.summary()),
    {
        let mut row: Vec<Antichain<T::Summary>> = Vec::new();
        row.push(Antichain::from_elem(self.summary));
        let mut ways: Vec<Vec<Antichain<T::Summary>>> = Vec::new();
        ways.push(row);
        ways
    }

    /// Decides what becomes of a batch of `records` records that arrived at
    /// `time`, and records it: the batch is consumed, and where it passes it
    /// is produced at the time at which it comes out.
    pub fn route(
        &self,
        time: &T,
        records: usize,
        consumed: &mut CountMap<T>,
        produced: &mut CountMap<T>,
    ) -> (later: Option<T>)
        ensures
            later == self.passes(*time),
            final(consumed)@ == bump(old(consumed)@, *time, -weight(records as nat)),
            final(produced)@ == match self.passes(*time) {
                Some(t) => bump(old(produced)@, t, weight(records as nat)),
                None => old(produced)@,
            },
    {
        let weight = weigh(records);
        consumed.update(time, -weight);
        let later = self.summary.results_in(time);
        let before = later.less_equal(&self.limit) && !self.limit.less_equal(&later);
        proof {
            if later.precedes(self.limit) && self.limit.precedes(later) {
                T::antisymmetric(later, self.limit);
            }
            if later == self.limit {
                T::reflexive(later);
            }
        }
        if before {
            produced.update(&later, weight);
            Some(later)
        } else {
            None
        }
    }
}

} // verus!
