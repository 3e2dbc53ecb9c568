use std::cell::RefCell;
use std::rc::Rc;

use timely::dataflow::channels::mailbox::Mailbox;
use timely::dataflow::channels::pullers::Counter as PullCounter;
use timely::dataflow::channels::pushers::{Buffer, Counter as PushCounter, Tee};
use timely::dataflow::channels::{
    duplicate_batch, weigh, Inlet, Log, Logs, Pullable, Pushable,
};
use timely::progress::count_map::CountMap;
use timely::Data;

type Seen = Rc<RefCell<Vec<(u64, Vec<u64>)>>>;

struct Recorder {
    seen: Seen,
}

impl Pushable<u64, u64> for Recorder {
    fn received(&self) -> Logs<u64, u64> {
        unreachable!()
    }

    fn sent(&self) -> Log<u64, u64> {
        unreachable!()
    }

    fn push(&mut self, time: &u64, batch: Vec<u64>) {
        self.seen.borrow_mut().push((*time, batch));
    }
}

fn recorder() -> (Seen, Box<dyn Pushable<u64, u64>>) {
    let seen: Seen = Rc::new(RefCell::new(Vec::new()));
    (seen.clone(), Box::new(Recorder { seen }))
}

fn sorted(mut entries: Vec<(u64, i64)>) -> Vec<(u64, i64)> {
    entries.sort();
    entries
}

#[test]
fn records_copy_themselves() {
    assert_eq!(7u64.duplicate(), 7);
    assert_eq!((-7i64).duplicate(), -7);
    assert_eq!(7u32.duplicate(), 7);
    assert_eq!(7u8.duplicate(), 7);
    assert!(true.duplicate());
    assert_eq!((1u64, false).duplicate(), (1, false));
    assert_eq!(duplicate_batch(&vec![1u64, 2, 3]), vec![1, 2, 3]);
    assert_eq!(duplicate_batch(&Vec::<u64>::new()), Vec::<u64>::new());
}

#[test]
fn weight_of_a_batch_is_its_length() {
    assert_eq!(weigh(0), 0);
    assert_eq!(weigh(1), 1);
    assert_eq!(weigh(1000), 1000);
    assert_eq!(weigh(usize::MAX), i64::MAX);
}

#[test]
fn mailbox_hands_out_in_the_order_of_arrival() {
    let mut mailbox: Mailbox<u64, u64> = Mailbox::new();
    assert!(mailbox.is_empty());
    assert_eq!(mailbox.take(), None);
    mailbox.push(&1, vec![10]);
    mailbox.push(&0, vec![20, 21]);
    assert!(!mailbox.is_empty());
    assert_eq!(mailbox.pull(), Some((1, vec![10])));
    assert_eq!(mailbox.take(), Some((0, vec![20, 21])));
    assert_eq!(mailbox.pull(), None);
}

#[test]
fn pull_counter_records_what_it_receives() {
    let mut mailbox: Mailbox<u64, u64> = Mailbox::new();
    mailbox.push(&3, vec![1, 2]);
    mailbox.push(&3, vec![3]);
    mailbox.push(&4, vec![]);
    mailbox.push(&5, vec![4, 5, 6, 7]);
    let mut counter = PullCounter::new(Inlet { puller: Box::new(mailbox), channel: 0 });
    assert_eq!(counter.next(), Some((3, vec![1, 2])));
    assert_eq!(counter.next(), Some((3, vec![3])));
    assert_eq!(counter.next(), Some((4, vec![])));
    assert_eq!(counter.next(), Some((5, vec![4, 5, 6, 7])));
    assert_eq!(counter.next(), None);
    let mut consumed = CountMap::new();
    consumed.update(&3, 10);
    counter.pull_progress(&mut consumed);
    assert_eq!(sorted(consumed.drain()), vec![(3, 7), (5, -4)]);
    counter.pull_progress(&mut consumed);
    assert!(consumed.is_empty());
}

#[test]
fn account_records_a_batch_that_was_pulled() {
    let mailbox: Mailbox<u64, u64> = Mailbox::new();
    let mut counter = PullCounter::new(Inlet { puller: Box::new(mailbox), channel: 0 });
    counter.account(&None);
    counter.account(&Some((2, vec![1, 2, 3])));
    let mut consumed = CountMap::new();
    counter.pull_progress(&mut consumed);
    assert_eq!(consumed.drain(), vec![(2, -3)]);
}

#[test]
fn push_counter_records_what_it_sends() {
    let (seen, pusher) = recorder();
    let mut counter = PushCounter::new(pusher);
    counter.push(&3, vec![1, 2]);
    counter.push(&4, vec![3]);
    counter.push(&3, vec![4]);
    assert_eq!(*seen.borrow(), vec![(3, vec![1, 2]), (4, vec![3]), (3, vec![4])]);
    let mut produced = CountMap::new();
    counter.pull_progress(&mut produced);
    assert_eq!(sorted(produced.drain()), vec![(3, 3), (4, 1)]);
    counter.pull_progress(&mut produced);
    assert!(produced.is_empty());
}

#[test]
fn tee_sends_a_copy_to_every_subscriber() {
    let (one, first) = recorder();
    let (two, second) = recorder();
    let mut tee: Tee<u64, u64, Box<dyn Pushable<u64, u64>>> = Tee::new();
    assert_eq!(tee.len(), 0);
    tee.push(&1, vec![9]);
    assert_eq!(tee.add_pusher(first), 0);
    assert_eq!(tee.add_pusher(second), 1);
    assert_eq!(tee.len(), 2);
    tee.push(&4, vec![10, 11]);
    tee.push(&5, vec![]);
    assert_eq!(*one.borrow(), vec![(4, vec![10, 11]), (5, vec![])]);
    assert_eq!(*two.borrow(), vec![(4, vec![10, 11]), (5, vec![])]);
}

#[test]
fn buffer_gathers_records_of_one_time() {
    let (seen, pusher) = recorder();
    let mut buffer = Buffer::new(PushCounter::new(pusher));
    buffer.give(&1, 10);
    buffer.give(&1, 11);
    assert_eq!(*seen.borrow(), vec![]);
    buffer.give(&2, 20);
    assert_eq!(*seen.borrow(), vec![(1, vec![10, 11])]);
    buffer.cease();
    assert_eq!(*seen.borrow(), vec![(1, vec![10, 11]), (2, vec![20])]);
    buffer.cease();
    assert_eq!(seen.borrow().len(), 2);
    let mut produced = CountMap::new();
    buffer.pull_progress(&mut produced);
    assert_eq!(sorted(produced.drain()), vec![(1, 2), (2, 1)]);
}

#[test]
fn buffer_hands_on_held_records_before_a_batch() {
    let (seen, pusher) = recorder();
    let mut buffer = Buffer::new(PushCounter::new(pusher));
    buffer.give(&1, 10);
    buffer.give_content(&1, vec![11, 12]);
    buffer.give_content(&3, vec![30]);
    assert_eq!(*seen.borrow(), vec![(1, vec![10]), (1, vec![11, 12]), (3, vec![30])]);
    let mut produced = CountMap::new();
    buffer.pull_progress(&mut produced);
    assert_eq!(sorted(produced.drain()), vec![(1, 3), (3, 1)]);
}

#[test]
fn held_records_are_counted_when_they_are_handed_on() {
    let (seen, pusher) = recorder();
    let mut buffer = Buffer::new(PushCounter::new(pusher));
    buffer.give(&1, 10);
    let mut produced = CountMap::new();
    buffer.pull_progress(&mut produced);
    assert!(produced.is_empty());
    buffer.cease();
    buffer.pull_progress(&mut produced);
    assert_eq!(produced.drain(), vec![(1, 1)]);
    assert_eq!(*seen.borrow(), vec![(1, vec![10])]);
}

#[test]
fn produced_and_consumed_cancel_on_a_drained_channel() {
    let mailbox: Mailbox<u64, u64> = Mailbox::new();
    let mut sender = PushCounter::new(mailbox);
    sender.push(&0, vec![1, 2, 3]);
    sender.push(&2, vec![4]);
    sender.push(&0, vec![5]);
    sender.push(&7, vec![]);
    let mut produced = CountMap::new();
    sender.pull_progress(&mut produced);
    assert_eq!(sorted(produced.entries().clone()), vec![(0, 4), (2, 1)]);

    let mut mailbox: Mailbox<u64, u64> = Mailbox::new();
    mailbox.push(&0, vec![1, 2, 3]);
    mailbox.push(&2, vec![4]);
    mailbox.push(&0, vec![5]);
    mailbox.push(&7, vec![]);
    let mut receiver = PullCounter::new(Inlet { puller: Box::new(mailbox), channel: 0 });
    let mut consumed = CountMap::new();
    while receiver.next().is_some() {
        receiver.pull_progress(&mut consumed);
    }
    assert_eq!(sorted(consumed.entries().clone()), vec![(0, -4), (2, -1)]);
    consumed.drain_into(&mut produced);
    assert!(produced.is_empty());
}
