//! A channel held in one piece: what is pushed in waits in order until it is
//! pulled out.

use std::collections::VecDeque;
use vstd::prelude::*;
use crate::dataflow::channels::{answer, each_pushed, Answers, Logs, Pullable, Pushable};

verus! {

/// The batches of a queue, each with its records as a sequence.
pub open spec fn contents<T, D>(queue: Seq<(T, Vec<D>)>) -> Seq<(T, Seq<D>)> {
    Seq::new(queue.len(), |i: int| (queue[i].0, queue[i].1@))
}

/// A first-in, first-out queue of batches that serves as both ends of a
/// channel.
pub struct Mailbox<T, D> {
    queue: VecDeque<(T, Vec<D>)>,
    log: Ghost<Seq<(T, Seq<D>)>>,
    answered: Ghost<Answers<T, D>>,
}

impl<T: Copy, D> Mailbox<T, D> {
    /// The batches that wait to be pulled, oldest first.
    pub closed spec fn waiting(&self) -> Seq<(T, Seq<D>)> {
        contents(self.queue@)
    }

    /// An empty mailbox.
    pub fn new() -> (fresh: Self)
        ensures
            fresh.waiting() == Seq::<(T, Seq<D>)>::empty(),
            fresh.sent() == Seq::<(T, Seq<D>)>::empty(),
    {
        let fresh = Mailbox { queue: VecDeque::new(), log: Ghost(Seq::empty()), answered: Ghost(Seq::empty()) };
        assert(fresh.waiting() =~= Seq::<(T, Seq<D>)>::empty());
        fresh
    }

    /// Whether no batch waits.
    pub fn is_empty(&self) -> (empty: bool)
        ensures
            empty == (self.waiting().len() == 0),
    {
        self.queue.len() == 0
    }

    /// Takes the oldest waiting batch out.
    pub fn take(&mut self) -> (oldest: Option<(T, Vec<D>)>)
        ensures
            final(self).sent() == old(self).sent(),
            final(self).answers() == old(self).answers(),
            match oldest {
                Some((t, batch)) => old(self).waiting().len() > 0 && (t, batch@) == old(self).waiting()[0] && final(self).waiting() == old(self).waiting().skip(1),
                None => old(self).waiting().len() == 0 && final(self).waiting() == old(self).waiting(),
            },
    {
        let oldest = self.queue.pop_front();
        assert(self.waiting() =~= if old(self).waiting().len() > 0 {
            old(self).waiting().skip(1)
        } else {
            old(self).waiting()
        });
        oldest
    }
}

impl<T: Copy, D> Pushable<T, D> for Mailbox<T, D> {
    closed spec fn sent(&self) -> Seq<(T, Seq<D>)> {
        self.log@
    }

    /// The one party behind a mailbox is whoever pulls from it.
    closed spec fn received(&self) -> Logs<T, D> {
        seq![self.log@]
    }


    fn push(&mut self, time: &T, batch: Vec<D>)
        ensures
            final(self).waiting() == old(self).waiting().push((*time, batch@)),
    {
        proof {
            self.log@ = self.log@.push((*time, batch@));
        }
        self.queue.push_back((*time, batch));
        assert(self.waiting() =~= old(self).waiting().push((*time, batch@)));
        assert(self.received() =~= each_pushed(old(self).received(), *time, batch@));
    }
}

impl<T: Copy, D> Pullable<T, D> for Mailbox<T, D> {
    closed spec fn answers(&self) -> Answers<T, D> {
        self.answered@
    }

    /// Takes the oldest waiting batch out.
    fn pull(&mut self) -> (oldest: Option<(T, Vec<D>)>)
        ensures
            final(self).sent() == old(self).sent(),
            match oldest {
                Some((t, batch)) => old(self).waiting().len() > 0 && (t, batch@) == old(self).waiting()[0] && final(self).waiting() == old(self).waiting().skip(1),
                None => old(self).waiting().len() == 0 && final(self).waiting() == old(self).waiting(),
            },
    {
        let oldest = self.take();
        proof {
            self.answered@ = self.answered@.push(answer(oldest));
        }
        oldest
    }
}

} // verus!
