//! The sending side of a stream: a fan-out to the subscribers, a meter, and a
//! buffer that gathers records into batches.

use std::marker::PhantomData;
use vstd::prelude::*;
use crate::dataflow::channels::{duplicate_batch, each_pushed, weigh, weight, Logs, Pushable};
use crate::progress::count_map::{bump, plus, CountMap};
use crate::progress::timestamp::{same, Timestamp};
use crate::Data;

verus! {

/// What each subscriber of a list has been sent.
pub open spec fn deliveries<T, D, P: Pushable<T, D>>(subscribers: Seq<P>) -> Seq<Seq<(T, Seq<D>)>> {
    Seq::new(subscribers.len(), |i: int| subscribers[i].sent())
}

/// The output of an operator: a registry of subscribers, each known by the
/// number it got when it was added. Every batch goes to every subscriber.
pub struct Tee<T, D, P: Pushable<T, D>> {
    subscribers: Vec<P>,
    log: Ghost<Seq<(T, Seq<D>)>>,
}

impl<T, D: Data, P: Pushable<T, D>> Tee<T, D, P> {
    /// What each subscriber has been sent, by the subscriber's number.
    pub closed spec fn delivered(&self) -> Seq<Seq<(T, Seq<D>)>> {
        deliveries(self.subscribers@)
    }

    /// The subscribers, by their numbers.
    pub closed spec fn subscribers(&self) -> Seq<P> {
        self.subscribers@
    }

    /// An output without subscribers.
    pub fn new() -> (tee: Self)
        ensures
            tee.delivered() == Seq::<Seq<(T, Seq<D>)>>::empty(),
            tee.subscribers() == Seq::<P>::empty(),
            tee.sent() == Seq::<(T, Seq<D>)>::empty(),
    {
        let tee = Tee { subscribers: Vec::new(), log: Ghost(Seq::empty()) };
        assert(tee.delivered() =~= Seq::<Seq<(T, Seq<D>)>>::empty());
        tee
    }

    /// Adds a subscriber and returns its number.
    pub fn add_pusher(&mut self, pusher: P) -> (id: usize)
        ensures
            id == old(self).delivered().len(),
            final(self).delivered() == old(self).delivered().push(pusher.sent()),
            final(self).subscribers() == old(self).subscribers().push(pusher),
            final(self).sent() == old(self).sent(),
    {
        let id = self.subscribers.len();
        self.subscribers.push(pusher);
        assert(self.delivered() =~= old(self).delivered().push(pusher.sent()));
        id
    }

    /// The number of subscribers.
    pub fn len(&self) -> (n: usize)
        ensures
            n == self.delivered().len(),
    {
        self.subscribers.len()
    }
}

impl<T, D: Data, P: Pushable<T, D>> Pushable<T, D> for Tee<T, D, P> {
    closed spec fn sent(&self) -> Seq<(T, Seq<D>)> {
        self.log@
    }

    /// The parties behind a fan-out are its subscribers.
    open spec fn received(&self) -> Logs<T, D> {
        self.delivered()
    }


    /// Sends the batch to every subscriber.
    fn push(&mut self, time: &T, batch: Vec<D>)
        ensures
            final(self).delivered().len() == old(self).delivered().len(),
            forall|i: int|
                0 <= i < old(self).delivered().len() ==> #[trigger] final(self).delivered()[i]
                    == old(self).delivered()[i].push((*time, batch@)),
    {
        proof {
            self.log@ = self.log@.push((*time, batch@));
        }
        let n = self.subscribers.len();
        let mut i: usize = 0;
        while i < n
            invariant
                i <= n,
                n == self.subscribers@.len(),
                n == old(self).subscribers@.len(),
                self.log@ == old(self).log@.push((*time, batch@)),
                forall|j: int|
                    0 <= j < i ==> (#[trigger] self.subscribers@[j]).sent() == old(self).subscribers@[j].sent().push((*time, batch@)),
                forall|j: int|
                    i <= j < n ==> (#[trigger] self.subscribers@[j]).sent() == old(self).subscribers@[j].sent(),
            decreases n - i,
        {
            let copy = duplicate_batch(&batch);
            self.subscribers[i].push(time, copy);
            i += 1;
        }
        assert forall|i: int| 0 <= i < old(self).delivered().len() implies #[trigger] self.delivered()[i]
            == old(self).delivered()[i].push((*time, batch@)) by {
            assert(self.subscribers@[i].sent() == old(self).subscribers@[i].sent().push(
                (*time, batch@),
            ));
        }
        assert(self.delivered() =~= each_pushed(old(self).delivered(), *time, batch@));
    }
}

impl<T, D> Pushable<T, D> for Box<dyn Pushable<T, D>> {
    open spec fn sent(&self) -> Seq<(T, Seq<D>)> {
        (**self).sent()
    }

    open spec fn received(&self) -> Logs<T, D> {
        (**self).received()
    }


    fn push(&mut self, time: &T, batch: Vec<D>) {
        (**self).push(time, batch)
    }
}

/// A sender that records every batch it hands on: the number of its records
/// more at the time of the batch.
pub struct Counter<T: Timestamp, D, P: Pushable<T, D>> {
    pushee: P,
    produced: CountMap<T>,
    phantom: PhantomData<D>,
}

impl<T: Timestamp, D, P: Pushable<T, D>> Counter<T, D, P> {
    /// What was produced and not reported yet.
    pub closed spec fn produced(&self) -> Map<T, int> {
        self.produced@
    }

    /// The sender that this one hands its batches to.
    pub closed spec fn pushee(&self) -> P {
        self.pushee
    }

    /// Wraps a sender.
    pub fn new(pushee: P) -> (counter: Self)
        ensures
            counter.produced() == Map::<T, int>::empty(),
            counter.pushee() == pushee,
            counter.sent() == pushee.sent(),
            counter.received() == pushee.received(),
    {
        Counter { pushee, produced: CountMap::new(), phantom: PhantomData }
    }

    /// Moves what was produced into `produced` and starts anew.
    pub fn pull_progress(&mut self, produced: &mut CountMap<T>)
        ensures
            final(produced)@ == plus(old(produced)@, old(self).produced()),
            final(self).produced() == Map::<T, int>::empty(),
            final(self).pushee() == old(self).pushee(),
            final(self).sent() == old(self).sent(),
            final(self).received() == old(self).received(),
    {
        self.produced.drain_into(produced);
    }
}

impl<T: Timestamp, D, P: Pushable<T, D>> Pushable<T, D> for Counter<T, D, P> {
    closed spec fn sent(&self) -> Seq<(T, Seq<D>)> {
        self.pushee.sent()
    }

    closed spec fn received(&self) -> Logs<T, D> {
        self.pushee.received()
    }


    /// Records the batch and hands it on.
    fn push(&mut self, time: &T, batch: Vec<D>)
        ensures
            final(self).produced() == bump(old(self).produced(), *time, weight(batch@.len())),
            final(self).pushee().sent() == old(self).pushee().sent().push((*time, batch@)),
    {
        self.produced.update(time, weigh(batch.len()));
        self.pushee.push(time, batch);
    }
}

/// `sent` with the held records added as one more batch, where any are held.
pub open spec fn flushed<T, D>(sent: Seq<(T, Seq<D>)>, time: Option<T>, held: Seq<D>) -> Seq<
    (T, Seq<D>),
> {
    match time {
        Some(t) => if held.len() > 0 {
            sent.push((t, held))
        } else {
            sent
        },
        None => sent,
    }
}

/// What the parties have received once each has got the held records as
/// one more batch, where any are held.
pub open spec fn each_flushed<T, D>(received: Logs<T, D>, time: Option<T>, held: Seq<D>) -> Logs<
    T,
    D,
> {
    Seq::new(received.len(), |i: int| flushed(received[i], time, held))
}

/// `produced` with the weight of the held records added at their time, where
/// any are held.
pub open spec fn metered<T, D>(produced: Map<T, int>, time: Option<T>, held: Seq<D>) -> Map<
    T,
    int,
> {
    match time {
        Some(t) => if held.len() > 0 {
            bump(produced, t, weight(held.len()))
        } else {
            produced
        },
        None => produced,
    }
}

/// Gathers the records given for one time into a batch, and hands the batch
/// to its meter when records for another time are given, or when asked to.
pub struct Buffer<T: Timestamp, D, P: Pushable<T, D>> {
    time: Option<T>,
    buffer: Vec<D>,
    pusher: Counter<T, D, P>,
}

impl<T: Timestamp, D, P: Pushable<T, D>> Buffer<T, D, P> {
    /// The time of the records that are held, if any were given.
    pub closed spec fn held_time(&self) -> Option<T> {
        self.time
    }

    /// The records that are held.
    pub closed spec fn held(&self) -> Seq<D> {
        self.buffer@
    }

    /// What the meter has recorded and not reported yet.
    pub closed spec fn produced(&self) -> Map<T, int> {
        self.pusher.produced()
    }

    /// The batches handed on so far.
    pub closed spec fn sent(&self) -> Seq<(T, Seq<D>)> {
        self.pusher.sent()
    }

    /// The sender behind the meter.
    pub closed spec fn pushee(&self) -> P {
        self.pusher.pushee()
    }

    /// What each party behind the buffer has received.
    pub closed spec fn received(&self) -> Logs<T, D> {
        self.pusher.received()
    }

    /// A buffer in front of `pusher`, holding nothing.
    pub fn new(pusher: Counter<T, D, P>) -> (buffer: Self)
        ensures
            buffer.held_time() == None::<T>,
            buffer.held() == Seq::<D>::empty(),
            buffer.produced() == pusher.produced(),
            buffer.sent() == pusher.sent(),
            buffer.pushee() == pusher.pushee(),
            buffer.received() == pusher.received(),
    {
        Buffer { time: None, buffer: Vec::new(), pusher }
    }

    /// Hands on the records that are held, as one batch.
    pub fn cease(&mut self)
        ensures
            final(self).sent() == flushed(old(self).sent(), old(self).held_time(), old(self).held()),
            final(self).produced() == metered(
                old(self).produced(),
                old(self).held_time(),
                old(self).held(),
            ),
            final(self).held() == Seq::<D>::empty(),
            final(self).held_time() == old(self).held_time(),
            final(self).received() == each_flushed(
                old(self).received(),
                old(self).held_time(),
                old(self).held(),
            ),
    {
        proof {
            assert(each_flushed(self.received(), None::<T>, self.held()) =~= self.received());
            assert(each_flushed(self.received(), self.held_time(), Seq::<D>::empty())
                =~= self.received());
            if self.held_time() is Some && self.held().len() > 0 {
                assert(each_flushed(self.received(), self.held_time(), self.held())
                    =~= each_pushed(self.received(), self.held_time()->Some_0, self.held()));
            }
        }
        match self.time {
            Some(t) => {
                if self.buffer.len() > 0 {
                    let mut batch: Vec<D> = Vec::new();
                    core::mem::swap(&mut self.buffer, &mut batch);
                    self.pusher.push(&t, batch);
                }
            },
            None => {
                self.buffer = Vec::new();
            },
        }
    }

    /// Gives one record for `time`. Records held for another time are handed
    /// on first.
    pub fn give(&mut self, time: &T, record: D)
        ensures
            final(self).held_time() == Some(*time),
            final(self).held() == (if old(self).held_time() == Some(*time) {
                old(self).held()
            } else {
                Seq::<D>::empty()
            }).push(record),
            final(self).sent() == if old(self).held_time() == Some(*time) {
                old(self).sent()
            } else {
                flushed(old(self).sent(), old(self).held_time(), old(self).held())
            },
            final(self).produced() == if old(self).held_time() == Some(*time) {
                old(self).produced()
            } else {
                metered(old(self).produced(), old(self).held_time(), old(self).held())
            },
            final(self).received() == if old(self).held_time() == Some(*time) {
                old(self).received()
            } else {
                each_flushed(old(self).received(), old(self).held_time(), old(self).held())
            },
    {
        let current = match &self.time {
            Some(t) => same(t, time),
            None => false,
        };
        if !current {
            self.cease();
            self.time = Some(*time);
        }
        self.buffer.push(record);
    }

    /// Gives a whole batch for `time`. Records that are held are handed on
    /// first, then the batch.
    pub fn give_content(&mut self, time: &T, batch: Vec<D>)
        ensures
            final(self).held_time() == Some(*time),
            final(self).held() == Seq::<D>::empty(),
            final(self).sent() == flushed(
                old(self).sent(),
                old(self).held_time(),
                old(self).held(),
            ).push((*time, batch@)),
            final(self).produced() == bump(
                metered(old(self).produced(), old(self).held_time(), old(self).held()),
                *time,
                weight(batch@.len()),
            ),
            final(self).received() == each_pushed(
                each_flushed(old(self).received(), old(self).held_time(), old(self).held()),
                *time,
                batch@,
            ),
    {
        self.cease();
        self.time = Some(*time);
        self.pusher.push(time, batch);
    }

    /// Moves what the meter recorded into `produced` and starts it anew.
    /// Records that are still held are not counted: see `cease`.
    pub fn pull_progress(&mut self, produced: &mut CountMap<T>)
        ensures
            final(produced)@ == plus(old(produced)@, old(self).produced()),
            final(self).produced() == Map::<T, int>::empty(),
            final(self).sent() == old(self).sent(),
            final(self).received() == old(self).received(),
            final(self).held() == old(self).held(),
            final(self).held_time() == old(self).held_time(),
    {
        self.pusher.pull_progress(produced);
    }
}

} // verus!
