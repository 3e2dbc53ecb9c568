use std::any::Any;
use std::cell::RefCell;
use std::collections::{HashSet, VecDeque};
use std::rc::Rc;

use timely::dataflow::channels::pullers::Counter as PullCounter;
use timely::dataflow::channels::pushers::Tee;
use timely::dataflow::channels::{
    Answers, Inlet, Log, Logs, Outlet, Pullable, Pushable,
};
use timely::dataflow::operators::feedback::Feedback;
use timely::dataflow::operators::input::Feed;
use timely::dataflow::operators::binary::{
    Binary, BinaryLogic, Operator, Output, StreamLogic, Unnotified,
};
use timely::dataflow::scope::{
    Edge, Identifiers, ParallelizationContract, Registered, Registrar, Scope, Size, Stream, Wiring,
};
use timely::progress::count_map::CountMap;
use timely::progress::frontier::Antichain;
use timely::progress::nested::{Source, Target};
use timely::progress::notificator::Notificator;
use timely::progress::operate::{Heard, Ledgers, Links, Name, Operate, Plan, Rounds};
use timely::progress::root::Root;
use timely::progress::timestamp::Product;
use timely::Data;

type Shared<D> = Rc<RefCell<VecDeque<(u64, Vec<D>)>>>;
type Subscribers<D> = Rc<RefCell<Tee<u64, D, Box<dyn Pushable<u64, D>>>>>;
type Seen = Rc<RefCell<Vec<(u64, Vec<u64>)>>>;
type Notes = Rc<RefCell<Vec<(u64, i64)>>>;

struct Sender<D> {
    queue: Shared<D>,
}

struct Receiver<D> {
    queue: Shared<D>,
}

impl<D> Pushable<u64, D> for Sender<D> {
    fn received(&self) -> Logs<u64, D> {
        unreachable!()
    }

    fn sent(&self) -> Log<u64, D> {
        unreachable!()
    }

    fn push(&mut self, time: &u64, batch: Vec<D>) {
        self.queue.borrow_mut().push_back((*time, batch));
    }
}

impl<D> Pullable<u64, D> for Receiver<D> {
    fn answers(&self) -> Answers<u64, D> {
        unreachable!()
    }

    fn pull(&mut self) -> Option<(u64, Vec<D>)> {
        self.queue.borrow_mut().pop_front()
    }
}

fn channel<D>() -> (Sender<D>, Receiver<D>) {
    let queue: Shared<D> = Rc::new(RefCell::new(VecDeque::new()));
    (Sender { queue: queue.clone() }, Receiver { queue })
}

struct Recorder {
    seen: Seen,
}

impl Pushable<u64, u64> for Recorder {
    fn received(&self) -> Logs<u64, u64> {
        unreachable!()
    }

    fn sent(&self) -> Log<u64, u64> {
        unreachable!()
    }

    fn push(&mut self, time: &u64, batch: Vec<u64>) {
        self.seen.borrow_mut().push((*time, batch));
    }
}

struct Hub<D: Data> {
    subscribers: Subscribers<D>,
}

impl<D: Data> Pushable<u64, D> for Hub<D> {
    fn received(&self) -> Logs<u64, D> {
        unreachable!()
    }

    fn sent(&self) -> Log<u64, D> {
        unreachable!()
    }

    fn push(&mut self, time: &u64, batch: Vec<D>) {
        self.subscribers.borrow_mut().push(time, batch);
    }
}

struct Pipeline;

impl<D: 'static> ParallelizationContract<u64, D> for Pipeline {
    fn connect<G: Scope<Timestamp = u64>>(
        self,
        _scope: &mut G,
        identifier: usize,
    ) -> (Outlet<u64, D>, Inlet<u64, D>) {
        let (sender, receiver) = channel::<D>();
        (
            Outlet { pusher: Box::new(sender), channel: identifier },
            Inlet { puller: Box::new(receiver), channel: identifier },
        )
    }
}

struct Graph {
    root: Root<u64, Box<dyn Operate<u64>>>,
    next: usize,
    peers: usize,
    pending: Option<Box<dyn Any>>,
    hubs: Vec<Option<Box<dyn Any>>>,
    edges: Vec<Edge>,
}

impl Graph {
    fn new(peers: usize) -> Graph {
        Graph {
            root: Root::new(),
            next: 0,
            peers,
            pending: None,
            hubs: Vec::new(),
            edges: Vec::new(),
        }
    }

    fn tap(&mut self, source: Source) -> Seen {
        let seen: Seen = Rc::new(RefCell::new(Vec::new()));
        let hub = self.hubs[source.index]
            .as_ref()
            .unwrap()
            .downcast_ref::<Subscribers<u64>>()
            .unwrap();
        hub.borrow_mut().add_pusher(Box::new(Recorder { seen: seen.clone() }));
        seen
    }
}

impl Scope for Graph {
    type Timestamp = u64;

    fn identifiers(&self) -> Identifiers {
        unreachable!()
    }

    fn operators(&self) -> Size {
        unreachable!()
    }

    fn registered(&self) -> Registered<u64> {
        unreachable!()
    }

    fn given_out(&self) -> Links {
        unreachable!()
    }

    fn wiring(&self) -> Wiring {
        unreachable!()
    }

    fn workers(&self) -> usize {
        unreachable!()
    }

    fn new_identifier(&mut self) -> usize {
        let identifier = self.next;
        self.next += 1;
        identifier
    }

    fn add_operator<O: Operate<u64> + 'static>(&mut self, operator: O) -> usize {
        self.hubs.push(self.pending.take());
        self.root.add_operator(Box::new(operator))
    }

    fn new_output<D: Data + 'static>(&mut self) -> Registrar<u64, D> {
        let subscribers: Subscribers<D> = Rc::new(RefCell::new(Tee::new()));
        self.pending = Some(Box::new(subscribers.clone()));
        Registrar { pusher: Box::new(Hub { subscribers }), vertex: self.hubs.len() }
    }

    fn connect<D: Data + 'static>(
        &mut self,
        source: Source,
        target: Target,
        sender: Outlet<u64, D>,
    ) {
        let hub = self.hubs[source.index]
            .as_ref()
            .unwrap()
            .downcast_ref::<Subscribers<D>>()
            .unwrap();
        hub.borrow_mut().add_pusher(sender.pusher);
        assert!(self.root.add_edge(source, target));
        self.edges.push(Edge { source, target, channel: sender.channel });
    }

    fn peers(&self) -> usize {
        self.peers
    }
}

struct Input {
    feed: Rc<RefCell<Feed<u64>>>,
}

struct InputHandle {
    feed: Rc<RefCell<Feed<u64>>>,
    output: Box<dyn Pushable<u64, u64>>,
}

impl InputHandle {
    fn send_messages(&mut self, time: &u64, batch: Vec<u64>) {
        self.feed.borrow_mut().send(time, batch.len());
        self.output.push(time, batch);
    }

    fn advance(&mut self, old: &u64, new: &u64) {
        self.feed.borrow_mut().advance(old, new);
    }

    fn close_at(&mut self, time: &u64) {
        self.feed.borrow_mut().close_at(time);
    }
}

impl Operate<u64> for Input {
    fn input_count(&self) -> usize {
        unreachable!()
    }

    fn output_count(&self) -> usize {
        unreachable!()
    }

    fn label(&self) -> Name {
        unreachable!()
    }

    fn asks(&self) -> bool {
        unreachable!()
    }

    fn initial(&self) -> Plan<u64> {
        unreachable!()
    }

    fn reads(&self) -> Links {
        unreachable!()
    }

    fn feeds(&self) -> Links {
        unreachable!()
    }

    fn frontier(&self) -> Ledgers<u64> {
        unreachable!()
    }

    fn heard(&self) -> Heard<u64> {
        unreachable!()
    }

    fn rounds(&self) -> Rounds<u64> {
        unreachable!()
    }

    fn inputs(&self) -> usize {
        0
    }

    fn outputs(&self) -> usize {
        1
    }

    fn get_internal_summary(&mut self) -> (Vec<Vec<Antichain<u64>>>, Vec<CountMap<u64>>) {
        (Vec::new(), vec![Feed::initial()])
    }

    fn set_external_summary(&mut self, _: Vec<Vec<Antichain<u64>>>, _: &mut [CountMap<u64>]) {}

    fn push_external_progress(&mut self, _: &mut [CountMap<u64>]) {}

    fn pull_internal_progress(
        &mut self,
        _consumed: &mut [CountMap<u64>],
        internal: &mut [CountMap<u64>],
        produced: &mut [CountMap<u64>],
    ) -> bool {
        self.feed.borrow_mut().pull_progress(&mut internal[0], &mut produced[0]);
        false
    }

    fn name(&self) -> String {
        "input".to_string()
    }

    fn notify_me(&self) -> bool {
        false
    }
}

fn new_input(graph: &mut Graph) -> (InputHandle, Stream<Graph, u64>) {
    let registrar = graph.new_output::<u64>();
    let feed = Rc::new(RefCell::new(Feed::new()));
    let index = graph.add_operator(Input { feed: feed.clone() });
    (InputHandle { feed, output: registrar.pusher }, Stream::new(Source { index, port: 0 }))
}

struct Loop {
    edge: Feedback<u64>,
    input: Receiver<u64>,
    output: Box<dyn Pushable<u64, u64>>,
}

struct FeedbackHandle {
    target: Target,
    sender: Sender<u64>,
}

impl FeedbackHandle {
    fn connect_input(self, stream: &Stream<Graph, u64>, graph: &mut Graph) {
        let identifier = graph.new_identifier();
        let sender = Outlet { pusher: Box::new(self.sender), channel: identifier };
        stream.connect_to(self.target, sender, graph);
    }
}

impl Operate<u64> for Loop {
    fn input_count(&self) -> usize {
        unreachable!()
    }

    fn output_count(&self) -> usize {
        unreachable!()
    }

    fn label(&self) -> Name {
        unreachable!()
    }

    fn asks(&self) -> bool {
        unreachable!()
    }

    fn initial(&self) -> Plan<u64> {
        unreachable!()
    }

    fn reads(&self) -> Links {
        unreachable!()
    }

    fn feeds(&self) -> Links {
        unreachable!()
    }

    fn frontier(&self) -> Ledgers<u64> {
        unreachable!()
    }

    fn heard(&self) -> Heard<u64> {
        unreachable!()
    }

    fn rounds(&self) -> Rounds<u64> {
        unreachable!()
    }

    fn inputs(&self) -> usize {
        1
    }

    fn outputs(&self) -> usize {
        1
    }

    fn get_internal_summary(&mut self) -> (Vec<Vec<Antichain<u64>>>, Vec<CountMap<u64>>) {
        (self.edge.internal_summary(), vec![CountMap::new()])
    }

    fn set_external_summary(&mut self, _: Vec<Vec<Antichain<u64>>>, frontier: &mut [CountMap<u64>]) {
        frontier[0].clear();
    }

    fn push_external_progress(&mut self, external: &mut [CountMap<u64>]) {
        external[0].clear();
    }

    fn pull_internal_progress(
        &mut self,
        consumed: &mut [CountMap<u64>],
        _internal: &mut [CountMap<u64>],
        produced: &mut [CountMap<u64>],
    ) -> bool {
        while let Some((time, batch)) = self.input.pull() {
            let later = self.edge.route(&time, batch.len(), &mut consumed[0], &mut produced[0]);
            if let Some(later) = later {
                self.output.push(&later, batch);
            }
        }
        false
    }

    fn name(&self) -> String {
        "feedback".to_string()
    }

    fn notify_me(&self) -> bool {
        false
    }
}

fn feedback(graph: &mut Graph, limit: u64) -> (FeedbackHandle, Stream<Graph, u64>) {
    let (sender, receiver) = channel::<u64>();
    let registrar = graph.new_output::<u64>();
    let index = graph.add_operator(Loop {
        edge: Feedback::new(limit, 1),
        input: receiver,
        output: registrar.pusher,
    });
    (
        FeedbackHandle { target: Target { index, port: 0 }, sender },
        Stream::new(Source { index, port: 0 }),
    )
}

struct Distinct {
    seen: HashSet<u64>,
}

impl StreamLogic<u64, u64, u64, u64> for Distinct {
    fn applies(
        &self,
        _: PullCounter<u64, u64>,
        _: PullCounter<u64, u64>,
        _: Output<u64, u64>,
        _: &Self,
        _: PullCounter<u64, u64>,
        _: PullCounter<u64, u64>,
        _: Output<u64, u64>,
    ) -> bool {
        unreachable!()
    }

    fn apply(
        &mut self,
        input1: &mut PullCounter<u64, u64>,
        input2: &mut PullCounter<u64, u64>,
        output: &mut Output<u64, u64>,
    ) {
        while let Some((time, data)) = input1.next() {
            for record in data {
                if self.seen.insert(record) {
                    output.give(&time, record);
                }
            }
        }
        while let Some((time, data)) = input2.next() {
            for record in data {
                if self.seen.insert(record) {
                    output.give(&time, record);
                }
            }
        }
    }
}

struct Forward;

impl StreamLogic<u64, u64, u64, u64> for Forward {
    fn applies(
        &self,
        _: PullCounter<u64, u64>,
        _: PullCounter<u64, u64>,
        _: Output<u64, u64>,
        _: &Self,
        _: PullCounter<u64, u64>,
        _: PullCounter<u64, u64>,
        _: Output<u64, u64>,
    ) -> bool {
        unreachable!()
    }

    fn apply(
        &mut self,
        input1: &mut PullCounter<u64, u64>,
        input2: &mut PullCounter<u64, u64>,
        output: &mut Output<u64, u64>,
    ) {
        while let Some((time, data)) = input1.next() {
            output.give_content(&time, data);
        }
        while let Some((time, data)) = input2.next() {
            output.give_content(&time, data);
        }
    }
}

struct Notifying {
    notes: Notes,
}

impl BinaryLogic<u64, u64, u64, u64> for Notifying {
    fn applies(
        &self,
        _: PullCounter<u64, u64>,
        _: PullCounter<u64, u64>,
        _: Output<u64, u64>,
        _: Notificator<u64>,
        _: &Self,
        _: PullCounter<u64, u64>,
        _: PullCounter<u64, u64>,
        _: Output<u64, u64>,
        _: Notificator<u64>,
    ) -> bool {
        unreachable!()
    }

    fn apply(
        &mut self,
        input1: &mut PullCounter<u64, u64>,
        input2: &mut PullCounter<u64, u64>,
        output: &mut Output<u64, u64>,
        notificator: &mut Notificator<u64>,
    ) {
        while let Some((time, data)) = input1.next() {
            notificator.notify_at(&time);
            output.give_content(&time, data);
        }
        while let Some((time, data)) = input2.next() {
            notificator.notify_at(&time);
            output.give_content(&time, data);
        }
        while let Some((time, count)) = notificator.next() {
            self.notes.borrow_mut().push((time, count));
        }
    }
}

fn ledger(entries: &[(u64, i64)]) -> CountMap<u64> {
    let mut map = CountMap::new();
    for (time, delta) in entries {
        map.update(time, *delta);
    }
    map
}

fn sorted(mut entries: Vec<(u64, i64)>) -> Vec<(u64, i64)> {
    entries.sort();
    entries
}

struct Parts {
    first: Sender<u64>,
    second: Sender<u64>,
    seen: Seen,
    notes: Notes,
}

fn notifying_operator(
    notify: Option<(Vec<u64>, usize)>,
) -> (Operator<u64, u64, u64, u64, Notifying>, Parts) {
    let (first, receiver1) = channel::<u64>();
    let (second, receiver2) = channel::<u64>();
    let seen: Seen = Rc::new(RefCell::new(Vec::new()));
    let notes: Notes = Rc::new(RefCell::new(Vec::new()));
    let mut targets: Tee<u64, u64, Registrar<u64, u64>> = Tee::new();
    targets.add_pusher(Registrar { pusher: Box::new(Recorder { seen: seen.clone() }), vertex: 0 });
    let operator = Operator::new(
        PullCounter::new(Inlet { puller: Box::new(receiver1), channel: 0 }),
        PullCounter::new(Inlet { puller: Box::new(receiver2), channel: 1 }),
        targets,
        "notifying".to_string(),
        notify,
        Notifying { notes: notes.clone() },
    );
    (operator, Parts { first, second, seen, notes })
}

#[test]
fn operator_has_two_inputs_and_one_output() {
    let (operator, _parts) = notifying_operator(None);
    assert_eq!(operator.inputs(), 2);
    assert_eq!(operator.outputs(), 1);
    assert_eq!(operator.name(), "notifying");
    assert!(!operator.notify_me());
    let (operator, _parts) = notifying_operator(Some((Vec::new(), 1)));
    assert!(operator.notify_me());
}

#[test]
fn boxed_vertex_answers_as_the_vertex_in_it() {
    let (operator, _parts) = notifying_operator(Some((vec![5], 2)));
    let mut boxed: Box<dyn Operate<u64>> = Box::new(operator);
    assert_eq!(boxed.inputs(), 2);
    assert_eq!(boxed.outputs(), 1);
    assert_eq!(boxed.name(), "notifying");
    assert!(boxed.notify_me());
    let (summaries, mut internal) = boxed.get_internal_summary();
    assert_eq!(summaries.len(), 2);
    assert_eq!(internal[0].drain(), vec![(5, 2)]);
    let (plain, _parts) = notifying_operator(None);
    let plain: Box<dyn Operate<u64>> = Box::new(plain);
    assert!(!plain.notify_me());
}

#[test]
fn internal_summary_without_notifications() {
    let (mut operator, _parts) = notifying_operator(None);
    let (summaries, mut internal) = operator.get_internal_summary();
    assert_eq!(summaries.len(), 2);
    for row in summaries.iter() {
        assert_eq!(row.len(), 1);
        assert_eq!(row[0].elements().clone(), vec![0u64]);
    }
    assert_eq!(internal.len(), 1);
    assert!(internal[0].is_empty());
    assert!(!operator.notify_me());
    assert_eq!(internal[0].drain(), vec![]);
}

#[test]
fn initial_notifications_are_requested_once_for_every_worker() {
    let (mut operator, _parts) = notifying_operator(Some((vec![5, 9, 5], 3)));
    let (summaries, mut internal) = operator.get_internal_summary();
    assert_eq!(summaries.len(), 2);
    assert_eq!(internal.len(), 1);
    assert_eq!(sorted(internal[0].drain()), vec![(5, 6), (9, 3)]);
    assert!(operator.notify_me());
    let (_, mut again) = operator.get_internal_summary();
    assert!(again[0].is_empty());
    assert_eq!(again[0].drain(), vec![]);
}

#[test]
fn initial_notification_is_delivered_with_the_number_of_workers() {
    let (mut operator, parts) = notifying_operator(Some((vec![5], 3)));
    let (_, mut internal) = operator.get_internal_summary();
    assert_eq!(internal[0].drain(), vec![(5, 3)]);
    let mut frontier = [ledger(&[(0, 1)]), ledger(&[(0, 1)])];
    operator.set_external_summary(Vec::new(), &mut frontier);
    assert!(frontier[0].is_empty() && frontier[1].is_empty());

    let mut consumed = [CountMap::new(), CountMap::new()];
    let mut internal = [CountMap::new()];
    let mut produced = [CountMap::new()];
    assert!(!operator.pull_internal_progress(&mut consumed, &mut internal, &mut produced));
    assert_eq!(*parts.notes.borrow(), vec![]);
    assert!(internal[0].is_empty());

    let mut external = [ledger(&[(0, -1), (6, 1)]), ledger(&[(0, -1), (6, 1)])];
    operator.push_external_progress(&mut external);
    assert!(!operator.pull_internal_progress(&mut consumed, &mut internal, &mut produced));
    assert_eq!(*parts.notes.borrow(), vec![(5, 3)]);
    assert_eq!(internal[0].drain(), vec![(5, -3)]);

    assert!(!operator.pull_internal_progress(&mut consumed, &mut internal, &mut produced));
    assert_eq!(*parts.notes.borrow(), vec![(5, 3)]);
    assert!(internal[0].is_empty());
    assert!(consumed[0].is_empty() && consumed[1].is_empty() && produced[0].is_empty());
}

#[test]
fn notification_asked_on_a_message_comes_once_the_input_has_passed() {
    let (mut operator, mut parts) = notifying_operator(Some((Vec::new(), 1)));
    operator.get_internal_summary();
    let mut frontier = [ledger(&[(0, 1)]), ledger(&[(0, 1)])];
    operator.set_external_summary(Vec::new(), &mut frontier);

    parts.first.push(&5, vec![50, 51]);
    let mut consumed = [CountMap::new(), CountMap::new()];
    let mut internal = [CountMap::new()];
    let mut produced = [CountMap::new()];
    assert!(!operator.pull_internal_progress(&mut consumed, &mut internal, &mut produced));
    assert_eq!(consumed[0].drain(), vec![(5, -2)]);
    assert!(consumed[1].is_empty());
    assert_eq!(produced[0].drain(), vec![(5, 2)]);
    assert_eq!(internal[0].drain(), vec![(5, 1)]);
    assert_eq!(*parts.seen.borrow(), vec![(5, vec![50, 51])]);
    assert_eq!(*parts.notes.borrow(), vec![]);

    let mut external = [ledger(&[(0, -1), (6, 1)]), CountMap::new()];
    operator.push_external_progress(&mut external);
    assert!(!operator.pull_internal_progress(&mut consumed, &mut internal, &mut produced));
    assert_eq!(*parts.notes.borrow(), vec![]);

    let mut external = [CountMap::new(), ledger(&[(0, -1)])];
    operator.push_external_progress(&mut external);
    assert!(!operator.pull_internal_progress(&mut consumed, &mut internal, &mut produced));
    assert_eq!(*parts.notes.borrow(), vec![(5, 1)]);
    assert_eq!(internal[0].drain(), vec![(5, -1)]);
    assert!(!operator.pull_internal_progress(&mut consumed, &mut internal, &mut produced));
    assert_eq!(*parts.notes.borrow(), vec![(5, 1)]);
}

#[test]
fn operator_reports_both_inputs_and_merges_into_the_ledgers() {
    let (mut operator, mut parts) = notifying_operator(None);
    operator.get_internal_summary();
    parts.first.push(&1, vec![1]);
    parts.second.push(&1, vec![2, 3]);
    parts.second.push(&2, vec![4]);
    let mut consumed = [ledger(&[(1, 1)]), ledger(&[(9, 9)])];
    let mut internal = [ledger(&[(1, -1)])];
    let mut produced = [ledger(&[(2, 5)])];
    operator.pull_internal_progress(&mut consumed, &mut internal, &mut produced);
    assert!(consumed[0].is_empty());
    assert_eq!(sorted(consumed[1].drain()), vec![(1, -2), (2, -1), (9, 9)]);
    assert_eq!(sorted(produced[0].drain()), vec![(1, 3), (2, 6)]);
    assert_eq!(sorted(internal[0].drain()), vec![(1, 1), (2, 1)]);
    assert_eq!(
        *parts.seen.borrow(),
        vec![(1, vec![1]), (1, vec![2, 3]), (2, vec![4])]
    );
}

#[test]
fn report_progress_hands_on_what_the_output_holds() {
    let (first, receiver1) = channel::<u64>();
    let (_second, receiver2) = channel::<u64>();
    let seen: Seen = Rc::new(RefCell::new(Vec::new()));
    let mut targets: Tee<u64, u64, Registrar<u64, u64>> = Tee::new();
    targets.add_pusher(Registrar { pusher: Box::new(Recorder { seen: seen.clone() }), vertex: 0 });
    let mut operator = Operator::new(
        PullCounter::new(Inlet { puller: Box::new(receiver1), channel: 0 }),
        PullCounter::new(Inlet { puller: Box::new(receiver2), channel: 1 }),
        targets,
        "distinct".to_string(),
        None,
        Unnotified { logic: Distinct { seen: HashSet::new() } },
    );
    let mut first = first;
    first.push(&3, vec![7, 7, 8]);
    first.push(&3, vec![8, 9]);
    let mut consumed = [CountMap::new(), CountMap::new()];
    let mut internal = [CountMap::new()];
    let mut produced = [CountMap::new()];
    operator.pull_internal_progress(&mut consumed, &mut internal, &mut produced);
    assert_eq!(*seen.borrow(), vec![(3, vec![7, 8, 9])]);
    assert_eq!(consumed[0].drain(), vec![(3, -5)]);
    assert_eq!(produced[0].drain(), vec![(3, 3)]);
    assert!(internal[0].is_empty());
    operator.report_progress(&mut consumed, &mut internal, &mut produced);
    assert!(consumed[0].is_empty() && produced[0].is_empty() && internal[0].is_empty());
}

#[test]
fn assembled_operator_feeds_the_sender_of_its_output() {
    let (mut first, receiver1) = channel::<u64>();
    let (_second, receiver2) = channel::<u64>();
    let seen: Seen = Rc::new(RefCell::new(Vec::new()));
    let registrar = Registrar { pusher: Box::new(Recorder { seen: seen.clone() }), vertex: 0 };
    let mut operator = Operator::assemble(
        Inlet { puller: Box::new(receiver1), channel: 0 },
        Inlet { puller: Box::new(receiver2), channel: 1 },
        registrar,
        "forward".to_string(),
        Some((vec![4], 2)),
        Unnotified { logic: Forward },
    );
    assert_eq!(operator.name(), "forward");
    assert!(operator.notify_me());
    let (_, mut held) = operator.get_internal_summary();
    assert_eq!(held[0].drain(), vec![(4, 2)]);
    first.push(&1, vec![10, 11]);
    let mut consumed = [CountMap::new(), CountMap::new(), ledger(&[(9, 9)])];
    let mut internal = [CountMap::new(), ledger(&[(8, 8)])];
    let mut produced = [CountMap::new(), ledger(&[(7, 7)])];
    assert!(!operator.pull_internal_progress(&mut consumed, &mut internal, &mut produced));
    assert_eq!(*seen.borrow(), vec![(1, vec![10, 11])]);
    assert_eq!(consumed[0].drain(), vec![(1, -2)]);
    assert!(consumed[1].is_empty());
    assert_eq!(consumed[2].drain(), vec![(9, 9)]);
    assert!(internal[0].is_empty());
    assert_eq!(internal[1].drain(), vec![(8, 8)]);
    assert_eq!(produced[0].drain(), vec![(1, 2)]);
    assert_eq!(produced[1].drain(), vec![(7, 7)]);
}

#[test]
fn take_in_records_what_the_vertex_answered() {
    let mut root: Root<u64, Box<dyn Operate<u64>>> = Root::new();
    let hold = Rc::new(RefCell::new(Vec::new()));
    let claims = Rc::new(RefCell::new(false));
    let source = root.take_in(
        Box::new(Claiming { claims: claims.clone(), hold: hold.clone() }),
        Vec::new(),
        vec![ledger(&[(3, 1)])],
    );
    let (sender, receiver) = channel::<u64>();
    let seen: Seen = Rc::new(RefCell::new(Vec::new()));
    let through = root.take_in(
        Box::new(Loop {
            edge: Feedback::new(100, 2),
            input: receiver,
            output: Box::new(Recorder { seen }),
        }),
        vec![vec![Antichain::from_elem(2u64)]],
        vec![CountMap::new()],
    );
    assert_eq!((source, through), (0, 1));
    assert!(root.add_edge(Source { index: 0, port: 0 }, Target { index: 1, port: 0 }));
    assert!(!root.is_quiescent());
    let (front, out, found) = root.reachable();
    assert!(found);
    assert_eq!(front[0].elements().clone(), vec![3u64]);
    assert_eq!(out[0].elements().clone(), vec![3u64]);
    assert_eq!(out[1].elements().clone(), vec![5u64]);
    drop(sender);
}

#[test]
fn binary_stream_wires_the_new_vertex() {
    let mut graph = Graph::new(1);
    let (_input1, stream1) = new_input(&mut graph);
    let (_input2, stream2) = new_input(&mut graph);
    let out = stream1.binary_stream(&stream2, Pipeline, Pipeline, "forward", Forward, &mut graph);
    assert_eq!(out.name(), Source { index: 2, port: 0 });
    assert_eq!(stream1.name(), Source { index: 0, port: 0 });
    assert_eq!(graph.next, 2);
    assert_eq!(
        graph.edges,
        vec![
            Edge {
                source: Source { index: 0, port: 0 },
                target: Target { index: 2, port: 0 },
                channel: 0
            },
            Edge {
                source: Source { index: 1, port: 0 },
                target: Target { index: 2, port: 1 },
                channel: 1
            },
        ]
    );
    let next = out.binary_stream(&stream1, Pipeline, Pipeline, "again", Forward, &mut graph);
    assert_eq!(next.name(), Source { index: 3, port: 0 });
    assert_eq!(graph.edges.len(), 4);
    assert_eq!(graph.edges[2].source, Source { index: 2, port: 0 });
    assert_eq!(graph.edges[2].target, Target { index: 3, port: 0 });
    assert_eq!(graph.edges[3].source, Source { index: 0, port: 0 });
    assert_eq!(graph.edges[3].target, Target { index: 3, port: 1 });
    assert_eq!((graph.edges[2].channel, graph.edges[3].channel), (2, 3));
}

#[test]
fn stream_is_a_copyable_name_of_an_output() {
    let stream: Stream<Graph, u64> = Stream::new(Source { index: 3, port: 1 });
    let copy = stream;
    let clone = stream.clone();
    assert_eq!(stream.name(), Source { index: 3, port: 1 });
    assert_eq!(copy.name(), stream.name());
    assert_eq!(clone.name(), stream.name());
}

#[test]
fn records_flow_through_a_binary_stream() {
    let mut graph = Graph::new(1);
    let (mut input1, stream1) = new_input(&mut graph);
    let (mut input2, stream2) = new_input(&mut graph);
    let out = stream1.binary_stream(&stream2, Pipeline, Pipeline, "forward", Forward, &mut graph);
    let seen = graph.tap(out.name());
    assert!(graph.root.step());
    input1.send_messages(&0, vec![1, 2]);
    input2.send_messages(&0, vec![3]);
    input1.advance(&0, &1);
    input1.send_messages(&1, vec![4]);
    assert!(graph.root.step());
    assert_eq!(*seen.borrow(), vec![(0, vec![1, 2]), (1, vec![4]), (0, vec![3])]);
    input1.close_at(&1);
    assert!(graph.root.step());
    input2.close_at(&0);
    assert!(!graph.root.step());
    assert!(!graph.root.step());
    assert!(graph.root.is_quiescent());
}

#[test]
fn binary_notify_delivers_once_for_every_worker() {
    let mut graph = Graph::new(4);
    let (mut input1, stream1) = new_input(&mut graph);
    let (mut input2, stream2) = new_input(&mut graph);
    let notes: Notes = Rc::new(RefCell::new(Vec::new()));
    let out = stream1.binary_notify(
        &stream2,
        Pipeline,
        Pipeline,
        "notify",
        vec![5],
        Notifying { notes: notes.clone() },
        &mut graph,
    );
    assert_eq!(out.name(), Source { index: 2, port: 0 });
    graph.root.step();
    graph.root.step();
    assert_eq!(*notes.borrow(), vec![]);
    input1.advance(&0, &6);
    input2.advance(&0, &5);
    graph.root.step();
    graph.root.step();
    assert_eq!(*notes.borrow(), vec![]);
    input2.advance(&5, &6);
    graph.root.step();
    graph.root.step();
    assert_eq!(*notes.borrow(), vec![(5, 4)]);
    input1.close_at(&6);
    input2.close_at(&6);
    let mut rounds = 0;
    while graph.root.step() {
        rounds += 1;
        assert!(rounds < 10);
    }
    assert_eq!(*notes.borrow(), vec![(5, 4)]);
}

#[test]
fn notification_waits_for_messages_upstream() {
    let mut graph = Graph::new(1);
    let (mut input1, stream1) = new_input(&mut graph);
    let (mut input2, stream2) = new_input(&mut graph);
    let middle = stream1.binary_stream(&stream2, Pipeline, Pipeline, "forward", Forward, &mut graph);
    let notes: Notes = Rc::new(RefCell::new(Vec::new()));
    let out = middle.binary_notify(
        &stream2,
        Pipeline,
        Pipeline,
        "notify",
        Vec::new(),
        Notifying { notes: notes.clone() },
        &mut graph,
    );
    let seen = graph.tap(out.name());
    graph.root.step();
    input1.send_messages(&3, vec![30]);
    input1.advance(&0, &4);
    input2.advance(&0, &4);
    for _ in 0..3 {
        graph.root.step();
    }
    assert_eq!(*seen.borrow(), vec![(3, vec![30])]);
    assert_eq!(*notes.borrow(), vec![(3, 1)]);
    input1.close_at(&4);
    input2.close_at(&4);
    let mut rounds = 0;
    while graph.root.step() {
        rounds += 1;
        assert!(rounds < 10);
    }
    assert_eq!(*notes.borrow(), vec![(3, 1)]);
}

#[test]
fn feedback_loop_comes_to_rest() {
    let mut graph = Graph::new(1);
    let (mut input1, stream1) = new_input(&mut graph);
    let (mut input2, stream2) = new_input(&mut graph);
    let (feedback1, feedback1_output) = feedback(&mut graph, 1_000_000);
    let (feedback2, feedback2_output) = feedback(&mut graph, 1_000_000);
    let egress1 = stream1.binary_stream(
        &feedback1_output,
        Pipeline,
        Pipeline,
        "distinct",
        Distinct { seen: HashSet::new() },
        &mut graph,
    );
    let egress2 =
        stream2.binary_stream(&feedback2_output, Pipeline, Pipeline, "forward", Forward, &mut graph);
    feedback1.connect_input(&egress2, &mut graph);
    feedback2.connect_input(&egress1, &mut graph);
    let seen = graph.tap(egress1.name());

    graph.root.step();
    input1.send_messages(&0, vec![1]);
    input2.send_messages(&0, vec![2]);
    graph.root.step();

    input1.advance(&0, &1_000_000);
    input2.advance(&0, &1_000_000);
    input1.close_at(&1_000_000);
    input2.close_at(&1_000_000);

    let mut rounds = 0;
    while graph.root.step() {
        rounds += 1;
        assert!(rounds < 100);
    }
    assert!(graph.root.is_quiescent());
    assert!(graph.root.is_balanced());
    assert_eq!(*seen.borrow(), vec![(0, vec![1]), (1, vec![2])]);
    assert!(!graph.root.step());
}

#[test]
fn summaries_of_the_ways_back_to_a_vertex() {
    let mut graph = Graph::new(1);
    let (_input1, stream1) = new_input(&mut graph);
    let (feedback1, feedback1_output) = feedback(&mut graph, 20);
    let egress =
        stream1.binary_stream(&feedback1_output, Pipeline, Pipeline, "forward", Forward, &mut graph);
    feedback1.connect_input(&egress, &mut graph);

    let none: Vec<u64> = Vec::new();
    let input = graph.root.external_summaries(0);
    assert_eq!(input.len(), 1);
    assert_eq!(input[0].len(), 0);

    let looped = graph.root.external_summaries(1);
    assert_eq!(looped.len(), 1);
    assert_eq!(looped[0].len(), 1);
    assert_eq!(looped[0][0].elements().clone(), vec![0u64]);

    let forward = graph.root.external_summaries(2);
    assert_eq!(forward.len(), 1);
    assert_eq!(forward[0].len(), 2);
    assert_eq!(forward[0][0].elements().clone(), none);
    assert_eq!(forward[0][1].elements().clone(), vec![1u64]);

    let (front, out, found) = graph.root.ways(0, &0);
    assert!(found);
    let front: Vec<Vec<u64>> = front.iter().map(|chain| chain.elements().clone()).collect();
    let out: Vec<Vec<u64>> = out.iter().map(|chain| chain.elements().clone()).collect();
    assert_eq!(front, vec![vec![0], vec![0], vec![1]]);
    assert_eq!(out, vec![vec![], vec![1], vec![0]]);
}

#[test]
fn frontiers_follow_from_the_ledgers() {
    let mut graph = Graph::new(1);
    let (mut input1, stream1) = new_input(&mut graph);
    let (feedback1, feedback1_output) = feedback(&mut graph, 20);
    let egress =
        stream1.binary_stream(&feedback1_output, Pipeline, Pipeline, "forward", Forward, &mut graph);
    feedback1.connect_input(&egress, &mut graph);
    let elements = |chains: Vec<Antichain<u64>>| -> Vec<Vec<u64>> {
        chains.iter().map(|chain| chain.elements().clone()).collect()
    };

    let (front, out, found) = graph.root.reachable();
    assert!(found);
    assert_eq!(elements(front), vec![vec![0], vec![0], vec![1]]);
    assert_eq!(elements(out), vec![vec![0], vec![1], vec![0]]);

    input1.advance(&0, &7);
    graph.root.step();
    let (front, out, found) = graph.root.reachable();
    assert!(found);
    assert_eq!(elements(front), vec![vec![7], vec![7], vec![8]]);
    assert_eq!(elements(out), vec![vec![7], vec![8], vec![7]]);

    input1.close_at(&7);
    graph.root.step();
    let (front, out, found) = graph.root.reachable();
    assert!(found);
    assert_eq!(elements(front), vec![vec![], vec![], vec![]]);
    assert_eq!(elements(out), vec![vec![], vec![], vec![]]);
}

#[test]
fn feedback_loop_without_distinct_runs_to_the_limit() {
    let mut graph = Graph::new(1);
    let (mut input1, stream1) = new_input(&mut graph);
    let (feedback1, feedback1_output) = feedback(&mut graph, 20);
    let egress =
        stream1.binary_stream(&feedback1_output, Pipeline, Pipeline, "forward", Forward, &mut graph);
    feedback1.connect_input(&egress, &mut graph);
    let seen = graph.tap(egress.name());
    input1.send_messages(&0, vec![7]);
    input1.close_at(&0);
    let mut rounds = 0;
    while graph.root.step() {
        rounds += 1;
        assert!(rounds < 100);
    }
    assert_eq!(seen.borrow().len(), 20);
    assert_eq!(seen.borrow()[19], (19, vec![7]));
}

struct Claiming {
    claims: Rc<RefCell<bool>>,
    hold: Rc<RefCell<Vec<(u64, i64)>>>,
}

impl Operate<u64> for Claiming {
    fn input_count(&self) -> usize {
        unreachable!()
    }

    fn output_count(&self) -> usize {
        unreachable!()
    }

    fn label(&self) -> Name {
        unreachable!()
    }

    fn asks(&self) -> bool {
        unreachable!()
    }

    fn initial(&self) -> Plan<u64> {
        unreachable!()
    }

    fn reads(&self) -> Links {
        unreachable!()
    }

    fn feeds(&self) -> Links {
        unreachable!()
    }

    fn frontier(&self) -> Ledgers<u64> {
        unreachable!()
    }

    fn heard(&self) -> Heard<u64> {
        unreachable!()
    }

    fn rounds(&self) -> Rounds<u64> {
        unreachable!()
    }

    fn inputs(&self) -> usize {
        0
    }

    fn outputs(&self) -> usize {
        1
    }

    fn get_internal_summary(&mut self) -> (Vec<Vec<Antichain<u64>>>, Vec<CountMap<u64>>) {
        (Vec::new(), vec![CountMap::new()])
    }

    fn set_external_summary(&mut self, _: Vec<Vec<Antichain<u64>>>, _: &mut [CountMap<u64>]) {}

    fn push_external_progress(&mut self, _: &mut [CountMap<u64>]) {}

    fn pull_internal_progress(
        &mut self,
        _consumed: &mut [CountMap<u64>],
        internal: &mut [CountMap<u64>],
        _produced: &mut [CountMap<u64>],
    ) -> bool {
        for (time, delta) in self.hold.borrow_mut().drain(..) {
            internal[0].update(&time, delta);
        }
        *self.claims.borrow()
    }

    fn name(&self) -> String {
        "claiming".to_string()
    }

    fn notify_me(&self) -> bool {
        false
    }
}

#[test]
fn feed_records_what_an_input_does() {
    let mut held: CountMap<u64> = Feed::initial();
    assert_eq!(held.drain(), vec![(0, 1)]);
    let mut feed: Feed<u64> = Feed::new();
    let mut internal = CountMap::new();
    let mut produced = CountMap::new();
    feed.pull_progress(&mut internal, &mut produced);
    assert!(internal.is_empty() && produced.is_empty());
    feed.send(&0, 3);
    feed.send(&0, 2);
    feed.send(&2, 0);
    feed.advance(&0, &4);
    feed.send(&4, 1);
    feed.pull_progress(&mut internal, &mut produced);
    assert_eq!(sorted(internal.drain()), vec![(0, -1), (4, 1)]);
    assert_eq!(sorted(produced.drain()), vec![(0, 5), (4, 1)]);
    feed.advance(&4, &4);
    feed.close_at(&4);
    feed.pull_progress(&mut internal, &mut produced);
    assert_eq!(internal.drain(), vec![(4, -1)]);
    assert!(produced.is_empty());
}

#[test]
fn feedback_edge_advances_times_up_to_its_limit() {
    let edge: Feedback<u64> = Feedback::new(10, 3);
    let ways = edge.internal_summary();
    assert_eq!(ways.len(), 1);
    assert_eq!(ways[0].len(), 1);
    assert_eq!(ways[0][0].elements().clone(), vec![3u64]);
    let mut consumed = CountMap::new();
    let mut produced = CountMap::new();
    assert_eq!(edge.route(&0, 2, &mut consumed, &mut produced), Some(3));
    assert_eq!(edge.route(&6, 1, &mut consumed, &mut produced), Some(9));
    assert_eq!(edge.route(&7, 5, &mut consumed, &mut produced), None);
    assert_eq!(edge.route(&20, 1, &mut consumed, &mut produced), None);
    assert_eq!(sorted(consumed.drain()), vec![(0, -2), (6, -1), (7, -5), (20, -1)]);
    assert_eq!(sorted(produced.drain()), vec![(3, 2), (9, 1)]);
}

type Pair = Product<u64, u64>;

struct Holder {
    hold: Rc<RefCell<Vec<(Pair, i64)>>>,
}

impl Operate<Pair> for Holder {
    fn input_count(&self) -> usize {
        unreachable!()
    }

    fn output_count(&self) -> usize {
        unreachable!()
    }

    fn label(&self) -> Name {
        unreachable!()
    }

    fn asks(&self) -> bool {
        unreachable!()
    }

    fn initial(&self) -> Plan<Pair> {
        unreachable!()
    }

    fn reads(&self) -> Links {
        unreachable!()
    }

    fn feeds(&self) -> Links {
        unreachable!()
    }

    fn frontier(&self) -> Ledgers<Pair> {
        unreachable!()
    }

    fn heard(&self) -> Heard<Pair> {
        unreachable!()
    }

    fn rounds(&self) -> Rounds<Pair> {
        unreachable!()
    }

    fn inputs(&self) -> usize {
        0
    }

    fn outputs(&self) -> usize {
        1
    }

    fn get_internal_summary(&mut self) -> (Vec<Vec<Antichain<Pair>>>, Vec<CountMap<Pair>>) {
        (Vec::new(), vec![CountMap::new()])
    }

    fn set_external_summary(&mut self, _: Vec<Vec<Antichain<Pair>>>, _: &mut [CountMap<Pair>]) {}

    fn push_external_progress(&mut self, _: &mut [CountMap<Pair>]) {}

    fn pull_internal_progress(
        &mut self,
        _consumed: &mut [CountMap<Pair>],
        internal: &mut [CountMap<Pair>],
        _produced: &mut [CountMap<Pair>],
    ) -> bool {
        for (time, delta) in self.hold.borrow_mut().drain(..) {
            internal[0].update(&time, delta);
        }
        false
    }

    fn name(&self) -> String {
        "holder".to_string()
    }

    fn notify_me(&self) -> bool {
        false
    }
}

struct Sink {
    told: Rc<RefCell<Vec<(u64, u64, i64)>>>,
}

impl Sink {
    fn note(&mut self, ledgers: &mut [CountMap<Pair>]) {
        let mut entries: Vec<(u64, u64, i64)> =
            ledgers[0].drain().iter().map(|(t, d)| (t.outer, t.inner, *d)).collect();
        entries.sort();
        self.told.borrow_mut().extend(entries);
    }
}

impl Operate<Pair> for Sink {
    fn input_count(&self) -> usize {
        unreachable!()
    }

    fn output_count(&self) -> usize {
        unreachable!()
    }

    fn label(&self) -> Name {
        unreachable!()
    }

    fn asks(&self) -> bool {
        unreachable!()
    }

    fn initial(&self) -> Plan<Pair> {
        unreachable!()
    }

    fn reads(&self) -> Links {
        unreachable!()
    }

    fn feeds(&self) -> Links {
        unreachable!()
    }

    fn frontier(&self) -> Ledgers<Pair> {
        unreachable!()
    }

    fn heard(&self) -> Heard<Pair> {
        unreachable!()
    }

    fn rounds(&self) -> Rounds<Pair> {
        unreachable!()
    }

    fn inputs(&self) -> usize {
        1
    }

    fn outputs(&self) -> usize {
        0
    }

    fn get_internal_summary(&mut self) -> (Vec<Vec<Antichain<Pair>>>, Vec<CountMap<Pair>>) {
        (vec![Vec::new()], Vec::new())
    }

    fn set_external_summary(&mut self, _: Vec<Vec<Antichain<Pair>>>, frontier: &mut [CountMap<Pair>]) {
        self.note(frontier);
    }

    fn push_external_progress(&mut self, external: &mut [CountMap<Pair>]) {
        self.note(external);
    }

    fn pull_internal_progress(
        &mut self,
        _consumed: &mut [CountMap<Pair>],
        _internal: &mut [CountMap<Pair>],
        _produced: &mut [CountMap<Pair>],
    ) -> bool {
        false
    }

    fn name(&self) -> String {
        "sink".to_string()
    }

    fn notify_me(&self) -> bool {
        false
    }
}

#[test]
fn vertices_are_told_how_their_frontiers_change() {
    let hold = Rc::new(RefCell::new(Vec::new()));
    let told = Rc::new(RefCell::new(Vec::new()));
    let mut root: Root<Pair, Box<dyn Operate<Pair>>> = Root::new();
    let holder = root.add_operator(Box::new(Holder { hold: hold.clone() }));
    let sink = root.add_operator(Box::new(Sink { told: told.clone() }));
    assert!(root.add_edge(Source { index: holder, port: 0 }, Target { index: sink, port: 0 }));

    hold.borrow_mut().push((Product::new(1, 3), 1));
    hold.borrow_mut().push((Product::new(3, 1), 1));
    hold.borrow_mut().push((Product::new(3, 3), 1));
    assert!(root.step());
    assert_eq!(*told.borrow(), vec![]);
    assert!(root.step());
    assert_eq!(*told.borrow(), vec![(1, 3, 1), (3, 1, 1)]);
    told.borrow_mut().clear();

    hold.borrow_mut().push((Product::new(1, 3), -1));
    assert!(root.step());
    assert!(root.step());
    assert_eq!(*told.borrow(), vec![(1, 3, -1)]);
    told.borrow_mut().clear();

    hold.borrow_mut().push((Product::new(3, 1), -1));
    assert!(root.step());
    assert!(root.step());
    assert_eq!(*told.borrow(), vec![(3, 1, -1), (3, 3, 1)]);
    told.borrow_mut().clear();

    hold.borrow_mut().push((Product::new(3, 3), -1));
    assert!(!root.step());
    assert!(!root.step());
    assert_eq!(*told.borrow(), vec![(3, 3, -1)]);
    assert!(root.is_quiescent());
}

#[test]
fn empty_graph_is_at_rest() {
    let mut root: Root<u64, Box<dyn Operate<u64>>> = Root::new();
    assert!(root.is_quiescent());
    assert!(!root.step());
    assert!(!root.add_edge(Source { index: 0, port: 0 }, Target { index: 0, port: 0 }));
}

#[test]
fn step_is_active_while_a_vertex_claims_work_or_holds_a_capability() {
    let claims = Rc::new(RefCell::new(false));
    let hold = Rc::new(RefCell::new(Vec::new()));
    let mut root: Root<u64, Box<dyn Operate<u64>>> = Root::new();
    let index = root.add_operator(Box::new(Claiming { claims: claims.clone(), hold: hold.clone() }));
    assert_eq!(index, 0);
    assert!(!root.step());

    *claims.borrow_mut() = true;
    assert!(root.step());
    assert!(root.is_quiescent());
    *claims.borrow_mut() = false;
    assert!(!root.step());

    hold.borrow_mut().push((3, 1));
    assert!(root.step());
    assert!(!root.is_quiescent());
    assert!(root.step());
    hold.borrow_mut().push((3, -1));
    assert!(!root.step());
    assert!(root.is_quiescent());
}

#[test]
fn edges_need_places_that_exist() {
    let mut graph = Graph::new(1);
    let (_input, stream) = new_input(&mut graph);
    let (handle, _looped) = feedback(&mut graph, 10);
    assert!(!graph.root.add_edge(stream.name(), Target { index: 0, port: 0 }));
    assert!(!graph.root.add_edge(stream.name(), Target { index: 1, port: 1 }));
    assert!(!graph.root.add_edge(Source { index: 0, port: 1 }, handle.target));
    assert!(!graph.root.add_edge(Source { index: 2, port: 0 }, handle.target));
    assert!(graph.root.add_edge(stream.name(), handle.target));
}

#[test]
fn account_takes_a_report_into_the_ledgers() {
    let mut graph = Graph::new(1);
    let (_input, stream) = new_input(&mut graph);
    let (handle, looped) = feedback(&mut graph, 10);
    assert!(graph.root.add_edge(stream.name(), handle.target));
    assert!(graph.root.add_edge(looped.name(), handle.target));
    assert!(!graph.root.is_quiescent());
    graph.root.account(0, &Vec::new(), &vec![ledger(&[(0, -1)])], &vec![CountMap::new()]);
    assert!(graph.root.is_quiescent());
    graph.root.account(1, &vec![CountMap::new()], &vec![CountMap::new()], &vec![ledger(&[(4, 2)])]);
    assert!(!graph.root.is_quiescent());
    graph.root.account(1, &vec![ledger(&[(4, -2)])], &vec![CountMap::new()], &vec![CountMap::new()]);
    assert!(graph.root.is_quiescent());
}

#[test]
fn ledgers_are_unsound_once_more_is_consumed_than_was_sent() {
    let mut graph = Graph::new(1);
    let (_input, stream) = new_input(&mut graph);
    let (handle, _looped) = feedback(&mut graph, 10);
    assert!(graph.root.add_edge(stream.name(), handle.target));
    assert!(graph.root.is_balanced());
    graph.root.account(0, &Vec::new(), &vec![CountMap::new()], &vec![ledger(&[(2, 1)])]);
    assert!(graph.root.is_balanced());
    graph.root.account(1, &vec![ledger(&[(2, -2)])], &vec![CountMap::new()], &vec![CountMap::new()]);
    assert!(!graph.root.is_balanced());
    assert!(!graph.root.is_quiescent());
    graph.root.account(0, &Vec::new(), &vec![ledger(&[(0, -2)])], &vec![ledger(&[(2, 1)])]);
    assert!(!graph.root.is_balanced());
}
