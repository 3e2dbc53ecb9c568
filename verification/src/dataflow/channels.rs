//! The ends of a channel, and the ledgers that meter what passes through them.

use vstd::prelude::*;
use crate::progress::count_map::{bump, clamp, count, plus};
use crate::Data;

pub mod mailbox;
pub mod pullers;
pub mod pushers;

verus! {

/// A sequence of batches, each with its time.
pub type Log<T, D> = Seq<(T, Seq<D>)>;

/// What each of several parties has received.
pub type Logs<T, D> = Seq<Log<T, D>>;

/// What the parties have received once each has got one more batch.
pub open spec fn each_pushed<T, D>(received: Logs<T, D>, time: T, batch: Seq<D>) -> Logs<T, D> {
    Seq::new(received.len(), |i: int| received[i].push((time, batch)))
}

/// The sending end of a channel. Everything handed to it is kept in `sent`,
/// in the order in which it was handed over, and goes to every party behind
/// this end.
pub trait Pushable<T, D> {
    /// The batches handed to this end so far, each with its time.
    spec fn sent(&self) -> Log<T, D>;

    /// What each party behind this end has received.
    spec fn received(&self) -> Logs<T, D>;

    /// Hands over one batch of records with its time.
    fn push(&mut self, time: &T, batch: Vec<D>)
        ensures
            final(self).sent() == old(self).sent().push((*time, batch@)),
            final(self).received() == each_pushed(old(self).received(), *time, batch@),
    ;
}

/// What a receiver answered, each time it was asked for a batch.
pub type Answers<T, D> = Seq<Option<(T, Seq<D>)>>;

/// An answer of a receiver, with the records as a sequence.
pub open spec fn answer<T, D>(pulled: Option<(T, Vec<D>)>) -> Option<(T, Seq<D>)> {
    match pulled {
        Some((t, batch)) => Some((t, batch@)),
        None => None,
    }
}

/// The receiving end of a channel. Every answer that it gives is kept in
/// `answers`, in the order in which it was given.
pub trait Pullable<T, D> {
    /// What this end has answered so far.
    spec fn answers(&self) -> Answers<T, D>;

    /// The next batch with its time, if one has arrived.
    fn pull(&mut self) -> (pulled: Option<(T, Vec<D>)>)
        ensures
            final(self).answers() == old(self).answers().push(answer(pulled)),
    ;
}

/// The sending end of a channel of the graph, with the identifier of the
/// channel.
#[verifier::reject_recursive_types(T)]
#[verifier::reject_recursive_types(D)]
pub struct Outlet<T, D> {
    pub pusher: Box<dyn Pushable<T, D>>,
    pub channel: usize,
}

/// The receiving end of a channel of the graph, with the identifier of the
/// channel.
#[verifier::reject_recursive_types(T)]
#[verifier::reject_recursive_types(D)]
pub struct Inlet<T, D> {
    pub puller: Box<dyn Pullable<T, D>>,
    pub channel: usize,
}

/// The count that stands for `n` records: `n` itself, up to the largest `i64`.
pub open spec fn weight(n: nat) -> int {
    if n > i64::MAX {
        i64::MAX as int
    } else {
        n as int
    }
}

/// The count that stands for `n` records.
pub fn weigh(n: usize) -> (w: i64)
    ensures
        w == weight(n as nat),
{
    let wide: u64 = n as u64;
    if wide > 0x7fff_ffff_ffff_ffffu64 {
        i64::MAX
    } else {
        wide as i64
    }
}

/// A copy of a batch, record by record.
pub fn duplicate_batch<D: Data>(batch: &Vec<D>) -> (copy: Vec<D>)
    ensures
        copy@ == batch@,
{
    let mut copy: Vec<D> = Vec::new();
    let mut i: usize = 0;
    while i < batch.len()
        invariant
            i <= batch@.len(),
            copy@ == batch@.take(i as int),
        decreases batch@.len() - i,
    {
        copy.push(batch[i].duplicate());
        assert(copy@ =~= batch@.take(i + 1));
        i += 1;
    }
    assert(batch@.take(batch@.len() as int) =~= batch@);
    copy
}

/// The weight of the batches that `log` holds for time `t`, added up.
pub open spec fn volume<T, D>(log: Seq<(T, Seq<D>)>, t: T) -> int
    decreases log.len(),
{
    if log.len() == 0 {
        0
    } else {
        volume(log.drop_last(), t) + if log.last().0 == t {
            weight(log.last().1.len())
        } else {
            0
        }
    }
}

/// The weight of the batches of a time is never negative.
pub proof fn lemma_volume_positive<T, D>(log: Seq<(T, Seq<D>)>, t: T)
    ensures
        volume(log, t) >= 0,
    decreases log.len(),
{
    if log.len() > 0 {
        lemma_volume_positive(log.drop_last(), t);
    }
}

/// The ledger of a sender that has sent the batches of `log` and reported
/// nothing yet: for each batch, its weight more at its time.
pub open spec fn produced_by<T, D>(log: Seq<(T, Seq<D>)>) -> Map<T, int>
    decreases log.len(),
{
    if log.len() == 0 {
        Map::empty()
    } else {
        bump(produced_by(log.drop_last()), log.last().0, weight(log.last().1.len()))
    }
}

/// The ledger of a receiver that has received the batches of `log` and
/// reported nothing yet: for each batch, its weight less at its time.
pub open spec fn consumed_by<T, D>(log: Seq<(T, Seq<D>)>) -> Map<T, int>
    decreases log.len(),
{
    if log.len() == 0 {
        Map::empty()
    } else {
        bump(consumed_by(log.drop_last()), log.last().0, -weight(log.last().1.len()))
    }
}

/// A sender's ledger follows its log: when the ledger holds what the log
/// stands for, then after one more push, which adds the weight of the batch
/// at its time, it holds what the longer log stands for.
pub proof fn lemma_produced_step<T, D>(log: Seq<(T, Seq<D>)>, time: T, batch: Seq<D>)
    ensures
        produced_by(log.push((time, batch))) == bump(produced_by(log), time, weight(batch.len())),
{
    assert(log.push((time, batch)).drop_last() =~= log);
}

/// A receiver's ledger follows its log: when the ledger holds what the log
/// stands for, then after one more batch is recorded, which takes the weight
/// of the batch away at its time, it holds what the longer log stands for.
pub proof fn lemma_consumed_step<T, D>(log: Seq<(T, Seq<D>)>, time: T, batch: Seq<D>)
    ensures
        consumed_by(log.push((time, batch))) == bump(
            consumed_by(log),
            time,
            -weight(batch.len()),
        ),
{
    assert(log.push((time, batch)).drop_last() =~= log);
}

/// The count of one time after a delta is added at a time.
pub proof fn lemma_bump_count<T>(m: Map<T, int>, u: T, delta: int, t: T)
    ensures
        count(bump(m, u, delta), t) == if t == u {
            clamp(count(m, u) + delta)
        } else {
            count(m, t)
        },
{
}

/// The sender's ledger holds the weight sent at each time, stopped at the
/// largest `i64`.
pub proof fn lemma_produced<T, D>(log: Seq<(T, Seq<D>)>, t: T)
    ensures
        count(produced_by(log), t) == clamp(volume(log, t)),
    decreases log.len(),
{
    if log.len() > 0 {
        lemma_volume_positive(log.drop_last(), t);
        lemma_produced(log.drop_last(), t);
        lemma_bump_count(
            produced_by(log.drop_last()),
            log.last().0,
            weight(log.last().1.len()),
            t,
        );
    }
}

/// The receiver's ledger holds the weight received at each time, negated
/// and stopped at the least `i64`.
pub proof fn lemma_consumed<T, D>(log: Seq<(T, Seq<D>)>, t: T)
    ensures
        count(consumed_by(log), t) == clamp(-volume(log, t)),
    decreases log.len(),
{
    if log.len() > 0 {
        lemma_volume_positive(log.drop_last(), t);
        lemma_consumed(log.drop_last(), t);
        lemma_bump_count(
            consumed_by(log.drop_last()),
            log.last().0,
            -weight(log.last().1.len()),
            t,
        );
    }
}

/// Conservation on one edge, time by time. When every batch that was sent
/// has been received, what the sender recorded and what the receiver
/// recorded cancel at a time exactly when the weight of the batches of that
/// time can be counted in an `i64`.
pub proof fn lemma_conservation_at<T, D>(log: Seq<(T, Seq<D>)>, t: T)
    ensures
        (count(produced_by(log), t) + count(consumed_by(log), t) == 0) <==> volume(log, t)
            <= i64::MAX,
{
    lemma_volume_positive(log, t);
    lemma_produced(log, t);
    lemma_consumed(log, t);
}

/// Conservation on one edge. When every batch that was sent has been
/// received, and the weight of the batches of each time can be counted in an
/// `i64`, what the sender recorded and what the receiver recorded add up to
/// nothing.
pub proof fn lemma_conservation<T, D>(log: Seq<(T, Seq<D>)>)
    requires
        forall|t: T| volume(log, t) <= i64::MAX,
    ensures
        plus(produced_by(log), consumed_by(log)) == Map::<T, int>::empty(),
        forall|t: T| count(produced_by(log), t) + count(consumed_by(log), t) == 0,
{
    assert forall|t: T| count(produced_by(log), t) + count(consumed_by(log), t) == 0 by {
        lemma_conservation_at(log, t);
    }
    assert(plus(produced_by(log), consumed_by(log)) =~= Map::<T, int>::empty());
}

} // verus!
