//! The operator with two inputs and one output, around logic that its user
//! supplies.

use vstd::prelude::*;
use crate::dataflow::channels::pullers::Counter as PullCounter;
use crate::dataflow::channels::pushers::{
    each_flushed, flushed, metered, Buffer, Counter as PushCounter, Tee,
};
use crate::dataflow::channels::{Inlet, Pushable};
use crate::dataflow::scope::{ParallelizationContract, Registrar, Scope, Stream};
use crate::progress::nested::{Source, Target};
use crate::progress::count_map::{bump, count, plus, CountMap};
use crate::progress::frontier::Antichain;
use crate::progress::notificator::{applied, held, ledgers, released, Notificator};
use crate::progress::operate::{same_from, Ledgers, Name, Operate, Plan, Round};
use crate::progress::timestamp::{PathSummary, Timestamp};
use crate::Data;

verus! {

/// The output of an operator: a buffer in front of a meter in front of the
/// fan-out to the senders that stand for its subscribers.
pub type Output<T, D> = Buffer<T, D, Tee<T, D, Registrar<T, D>>>;

/// The logic of an operator that may ask for notifications. It is applied
/// once in each round, with the two inputs, the output and the notificator
/// at its disposal for the length of the call. It asks for notifications and
/// takes them; the frontiers of the notificator are not its to change.
pub trait BinaryLogic<T: Timestamp, D1, D2, D3: Data> {
    /// What one application may do: what the logic, the two inputs, the
    /// output and the notificator may have become when it returns.
    spec fn applies(
        &self,
        input1: PullCounter<T, D1>,
        input2: PullCounter<T, D2>,
        output: Output<T, D3>,
        notificator: Notificator<T>,
        after: &Self,
        input1_after: PullCounter<T, D1>,
        input2_after: PullCounter<T, D2>,
        output_after: Output<T, D3>,
        notificator_after: Notificator<T>,
    ) -> bool;

    /// Reads what has arrived at the inputs, writes to the output, asks for
    /// notifications and takes those that are ready.
    fn apply(
        &mut self,
        input1: &mut PullCounter<T, D1>,
        input2: &mut PullCounter<T, D2>,
        output: &mut Output<T, D3>,
        notificator: &mut Notificator<T>,
    )
        ensures
            old(self).applies(
                *old(input1),
                *old(input2),
                *old(output),
                *old(notificator),
                final(self),
                *final(input1),
                *final(input2),
                *final(output),
                *final(notificator),
            ),
            final(notificator).frontiers() == old(notificator).frontiers(),
    ;
}

/// The logic of an operator that asks for no notifications.
pub trait StreamLogic<T: Timestamp, D1, D2, D3: Data> {
    /// What one application may do: what the logic, the two inputs and the
    /// output may have become when it returns.
    spec fn applies(
        &self,
        input1: PullCounter<T, D1>,
        input2: PullCounter<T, D2>,
        output: Output<T, D3>,
        after: &Self,
        input1_after: PullCounter<T, D1>,
        input2_after: PullCounter<T, D2>,
        output_after: Output<T, D3>,
    ) -> bool;

    /// Reads what has arrived at the inputs and writes to the output.
    fn apply(
        &mut self,
        input1: &mut PullCounter<T, D1>,
        input2: &mut PullCounter<T, D2>,
        output: &mut Output<T, D3>,
    )
        ensures
            old(self).applies(
                *old(input1),
                *old(input2),
                *old(output),
                final(self),
                *final(input1),
                *final(input2),
                *final(output),
            ),
    ;
}

/// Logic without notifications, in the place of logic with them: the
/// notificator is left alone.
pub struct Unnotified<L> {
    pub logic: L,
}

impl<T: Timestamp, D1, D2, D3: Data, L: StreamLogic<T, D1, D2, D3>> BinaryLogic<
    T,
    D1,
    D2,
    D3,
> for Unnotified<L> {
    open spec fn applies(
        &self,
        input1: PullCounter<T, D1>,
        input2: PullCounter<T, D2>,
        output: Output<T, D3>,
        notificator: Notificator<T>,
        after: &Self,
        input1_after: PullCounter<T, D1>,
        input2_after: PullCounter<T, D2>,
        output_after: Output<T, D3>,
        notificator_after: Notificator<T>,
    ) -> bool {
        &&& self.logic.applies(
            input1,
            input2,
            output,
            &after.logic,
            input1_after,
            input2_after,
            output_after,
        )
        &&& notificator_after == notificator
    }

    fn apply(
        &mut self,
        input1: &mut PullCounter<T, D1>,
        input2: &mut PullCounter<T, D2>,
        output: &mut Output<T, D3>,
        notificator: &mut Notificator<T>,
    )
        ensures
            *final(notificator) == *old(notificator),
    {
        self.logic.apply(input1, input2, output);
    }
}

/// `m` after one more request at `t`, `n` times over.
pub open spec fn asked<T>(m: Map<T, int>, t: T, n: nat) -> Map<T, int>
    decreases n,
{
    if n == 0 {
        m
    } else {
        bump(asked(m, t, (n - 1) as nat), t, 1)
    }
}

/// `m` after `n` requests at each time of `times`.
pub open spec fn asked_all<T>(m: Map<T, int>, times: Seq<T>, n: nat) -> Map<T, int>
    decreases times.len(),
{
    if times.len() == 0 {
        m
    } else {
        asked(asked_all(m, times.drop_last(), n), times.last(), n)
    }
}

/// The number of the vertex of each sender.
pub open spec fn vertices_of<T, D>(senders: Seq<Registrar<T, D>>) -> Seq<usize> {
    Seq::new(senders.len(), |i: int| senders[i].vertex)
}

/// How often `t` stands in `times`.
pub open spec fn occurrences<T>(times: Seq<T>, t: T) -> nat
    decreases times.len(),
{
    if times.len() == 0 {
        0
    } else {
        occurrences(times.drop_last(), t) + if times.last() == t {
            1nat
        } else {
            0nat
        }
    }
}

/// The count `c` after `k` more requests, stopped at the largest `i64`.
pub open spec fn raised(c: int, k: int) -> int {
    if c + k > i64::MAX {
        i64::MAX as int
    } else {
        c + k
    }
}

/// Every count of the ledger is an `i64`.
pub open spec fn in_bounds<T>(m: Map<T, int>) -> bool {
    forall|t: T| i64::MIN <= #[trigger] count(m, t) <= i64::MAX
}

/// After `n` requests at `t` the count at `t` is `n` more, up to the largest
/// `i64`, and every other count is as it was.
pub proof fn lemma_asked<T>(m: Map<T, int>, t: T, n: nat, u: T)
    requires
        in_bounds(m),
    ensures
        in_bounds(asked(m, t, n)),
        count(asked(m, t, n), u) == if u == t {
            raised(count(m, t), n as int)
        } else {
            count(m, u)
        },
    decreases n,
{
    if n > 0 {
        let before = asked(m, t, (n - 1) as nat);
        lemma_asked(m, t, (n - 1) as nat, u);
        assert forall|v: T| i64::MIN <= #[trigger] count(bump(before, t, 1), v) <= i64::MAX by {
            lemma_asked(m, t, (n - 1) as nat, v);
            assert(i64::MIN <= count(before, v) <= i64::MAX);
        }
    }
}

/// After every time of `times` was requested once for each of `n` workers,
/// the count at a time is the old count and `n` for every occurrence of the
/// time, up to the largest `i64`.
pub proof fn lemma_asked_all<T>(m: Map<T, int>, times: Seq<T>, n: nat, u: T)
    requires
        in_bounds(m),
    ensures
        in_bounds(asked_all(m, times, n)),
        count(asked_all(m, times, n), u) == raised(count(m, u), (n * occurrences(times, u)) as int),
    decreases times.len(),
{
    if times.len() > 0 {
        let before = asked_all(m, times.drop_last(), n);
        lemma_asked_all(m, times.drop_last(), n, u);
        lemma_asked(before, times.last(), n, u);
        assert forall|v: T| i64::MIN <= #[trigger] count(asked_all(m, times, n), v)
            <= i64::MAX by {
            lemma_asked_all(m, times.drop_last(), n, v);
            lemma_asked(before, times.last(), n, v);
        }
        let k = occurrences(times.drop_last(), u);
        assert(n * (k + 1) == n * k + n) by (nonlinear_arith);
        assert(n * k >= 0) by (nonlinear_arith)
            requires
                n >= 0,
                k >= 0,
        ;
    } else {
        assert(n * 0 == 0) by (nonlinear_arith);
    }
}

/// The times at which an operator asks to be notified from the start, and the
/// number of workers; nothing where it asks for no notifications at all.
pub open spec fn plan<T>(notify: Option<(Vec<T>, usize)>) -> Option<(Seq<T>, usize)> {
    match notify {
        Some((times, peers)) => Some((times@, peers)),
        None => None,
    }
}

#[verifier::reject_recursive_types(T)]
#[verifier::reject_recursive_types(D1)]
#[verifier::reject_recursive_types(D2)]
#[verifier::reject_recursive_types(D3)]
struct Handle<T: Timestamp, D1, D2, D3: Data> {
    input1: PullCounter<T, D1>,
    input2: PullCounter<T, D2>,
    output: Output<T, D3>,
    notificator: Notificator<T>,
}

/// An operator with two inputs and one output. In each round it applies its
/// logic once and then reports what the logic consumed, produced and asked
/// for.
#[verifier::reject_recursive_types(T)]
#[verifier::reject_recursive_types(D1)]
#[verifier::reject_recursive_types(D2)]
#[verifier::reject_recursive_types(D3)]
pub struct Operator<T: Timestamp, D1, D2, D3: Data, L: BinaryLogic<T, D1, D2, D3>> {
    name: String,
    handle: Handle<T, D1, D2, D3>,
    logic: L,
    notify: Option<(Vec<T>, usize)>,
    heard: Ghost<Seq<Ledgers<T>>>,
    rounds: Ghost<Seq<Round<T>>>,
}

impl<T: Timestamp, D1, D2, D3: Data, L: BinaryLogic<T, D1, D2, D3>> Operator<T, D1, D2, D3, L> {
    /// The first input.
    pub closed spec fn input1(&self) -> PullCounter<T, D1> {
        self.handle.input1
    }

    /// The second input.
    pub closed spec fn input2(&self) -> PullCounter<T, D2> {
        self.handle.input2
    }

    /// The output.
    pub closed spec fn output(&self) -> Output<T, D3> {
        self.handle.output
    }

    /// The notificator.
    pub closed spec fn notificator(&self) -> Notificator<T> {
        self.handle.notificator
    }

    /// The logic.
    pub closed spec fn logic(&self) -> L {
        self.logic
    }

    /// An operator around `logic` that reads from the two receivers and
    /// writes to `targets`. With `notify` it asks for a notification at each
    /// of the given times, once for each of the given number of workers.
    pub fn new(
        receiver1: PullCounter<T, D1>,
        receiver2: PullCounter<T, D2>,
        targets: Tee<T, D3, Registrar<T, D3>>,
        name: String,
        notify: Option<(Vec<T>, usize)>,
        logic: L,
    ) -> (operator: Self)
        ensures
            operator.input1() == receiver1,
            operator.input2() == receiver2,
            operator.output().held() == Seq::<D3>::empty(),
            operator.output().held_time() == None::<T>,
            operator.output().produced() == Map::<T, int>::empty(),
            operator.output().sent() == targets.sent(),
            operator.output().received() == targets.received(),
            operator.output().pushee() == targets,
            operator.notificator().pending() == Map::<T, int>::empty(),
            operator.notificator().available() == Map::<T, int>::empty(),
            operator.notificator().changes() == Map::<T, int>::empty(),
            operator.notificator().frontiers() == Seq::<Map<T, int>>::empty(),
            operator.logic() == logic,
            operator.label() == name@,
            operator.initial() == plan(notify),
            operator.heard() == Seq::<Ledgers<T>>::empty(),
            operator.rounds() == Seq::<Round<T>>::empty(),
    {
        Operator {
            name,
            handle: Handle {
                input1: receiver1,
                input2: receiver2,
                output: Buffer::new(PushCounter::new(targets)),
                notificator: Notificator::new(),
            },
            logic,
            notify,
            heard: Ghost(Seq::empty()),
            rounds: Ghost(Seq::empty()),
        }
    }

    /// An operator around `logic` that reads from the two receivers and whose
    /// output feeds `registrar`, the sender that the scope gave for the new
    /// output, and nothing else. With `notify` it asks for a notification at
    /// each of the given times, once for each of the given number of workers.
    pub fn assemble(
        receiver1: Inlet<T, D1>,
        receiver2: Inlet<T, D2>,
        registrar: Registrar<T, D3>,
        name: String,
        notify: Option<(Vec<T>, usize)>,
        logic: L,
    ) -> (operator: Self)
        ensures
            operator.input1().consumed() == Map::<T, int>::empty(),
            operator.input2().consumed() == Map::<T, int>::empty(),
            operator.output().held() == Seq::<D3>::empty(),
            operator.output().held_time() == None::<T>,
            operator.output().produced() == Map::<T, int>::empty(),
            operator.output().sent() == Seq::<(T, Seq<D3>)>::empty(),
            operator.output().received() == seq![registrar.pusher.sent()],
            operator.reads() == seq![receiver1.channel, receiver2.channel],
            operator.feeds() == seq![registrar.vertex],
            operator.notificator().pending() == Map::<T, int>::empty(),
            operator.notificator().available() == Map::<T, int>::empty(),
            operator.notificator().changes() == Map::<T, int>::empty(),
            operator.notificator().frontiers() == Seq::<Map<T, int>>::empty(),
            operator.logic() == logic,
            operator.label() == name@,
            operator.initial() == plan(notify),
            operator.heard() == Seq::<Ledgers<T>>::empty(),
            operator.rounds() == Seq::<Round<T>>::empty(),
    {
        let mut targets: Tee<T, D3, Registrar<T, D3>> = Tee::new();
        targets.add_pusher(registrar);
        assert(targets.received() =~= seq![registrar.pusher.sent()]);
        assert(vertices_of(targets.subscribers()) =~= seq![registrar.vertex]);
        Operator::new(
            PullCounter::new(receiver1),
            PullCounter::new(receiver2),
            targets,
            name,
            notify,
            logic,
        )
    }

    /// Hands on the records that the output holds, and moves what the inputs
    /// consumed, what the output produced and what the notificator recorded
    /// into the first ledgers of the lists.
    pub fn report_progress(
        &mut self,
        consumed: &mut [CountMap<T>],
        internal: &mut [CountMap<T>],
        produced: &mut [CountMap<T>],
    )
        requires
            old(consumed)@.len() >= 2,
            old(internal)@.len() >= 1,
            old(produced)@.len() >= 1,
        ensures
            same_from(ledgers(old(consumed)@), ledgers(final(consumed)@), 2),
            same_from(ledgers(old(internal)@), ledgers(final(internal)@), 1),
            same_from(ledgers(old(produced)@), ledgers(final(produced)@), 1),
            final(consumed)@[0]@ == plus(old(consumed)@[0]@, old(self).input1().consumed()),
            final(consumed)@[1]@ == plus(old(consumed)@[1]@, old(self).input2().consumed()),
            final(produced)@[0]@ == plus(
                old(produced)@[0]@,
                metered(
                    old(self).output().produced(),
                    old(self).output().held_time(),
                    old(self).output().held(),
                ),
            ),
            final(internal)@[0]@ == plus(old(internal)@[0]@, old(self).notificator().changes()),
            final(self).input1().consumed() == Map::<T, int>::empty(),
            final(self).input2().consumed() == Map::<T, int>::empty(),
            final(self).output().held() == Seq::<D3>::empty(),
            final(self).output().held_time() == old(self).output().held_time(),
            final(self).output().produced() == Map::<T, int>::empty(),
            final(self).output().sent() == flushed(
                old(self).output().sent(),
                old(self).output().held_time(),
                old(self).output().held(),
            ),
            final(self).output().received() == each_flushed(
                old(self).output().received(),
                old(self).output().held_time(),
                old(self).output().held(),
            ),
            final(self).notificator().changes() == Map::<T, int>::empty(),
            final(self).notificator().pending() == old(self).notificator().pending(),
            final(self).notificator().available() == old(self).notificator().available(),
            final(self).notificator().frontiers() == old(self).notificator().frontiers(),
            final(self).logic() == old(self).logic(),
            final(self).label() == old(self).label(),
            final(self).initial() == old(self).initial(),
            final(self).heard() == old(self).heard(),
            final(self).rounds() == old(self).rounds(),
    {
        self.handle.output.cease();
        self.handle.input1.pull_progress(&mut consumed[0]);
        self.handle.input2.pull_progress(&mut consumed[1]);
        self.handle.output.pull_progress(&mut produced[0]);
        self.handle.notificator.pull_progress(&mut internal[0]);
    }
}

impl<T: Timestamp, D1, D2, D3: Data, L: BinaryLogic<T, D1, D2, D3>> Operate<T> for Operator<
    T,
    D1,
    D2,
    D3,
    L,
> {
    open spec fn input_count(&self) -> usize {
        2
    }

    open spec fn output_count(&self) -> usize {
        1
    }

    closed spec fn label(&self) -> Name {
        self.name@
    }

    open spec fn asks(&self) -> bool {
        self.initial().is_some()
    }

    closed spec fn initial(&self) -> Plan<T> {
        plan(self.notify)
    }

    open spec fn reads(&self) -> Seq<usize> {
        seq![self.input1().channel(), self.input2().channel()]
    }

    open spec fn feeds(&self) -> Seq<usize> {
        vertices_of(self.output().pushee().subscribers())
    }

    open spec fn frontier(&self) -> Ledgers<T> {
        self.notificator().frontiers()
    }

    closed spec fn heard(&self) -> Seq<Ledgers<T>> {
        self.heard@
    }

    closed spec fn rounds(&self) -> Seq<Round<T>> {
        self.rounds@
    }

    fn inputs(&self) -> (n: usize) {
        2
    }

    fn outputs(&self) -> (n: usize) {
        1
    }

    /// Both inputs lead to the output without a change of time. Where
    /// notifications were asked for from the start, each is requested once
    /// for every worker, and the capabilities that this takes are returned.
    fn get_internal_summary(&mut self) -> (summary: (
        Vec<Vec<Antichain<T::Summary>>>,
        Vec<CountMap<T>>,
    ))
        ensures
            forall|i: int|
                0 <= i < 2 ==> (#[trigger] summary.0@[i])@[0]@ == Set::<T::Summary>::empty().insert(
                    <T::Summary as PathSummary<T>>::unit(),
                ),
            match old(self).initial() {
                Some((times, peers)) => {
                    &&& final(self).initial() == Some((Seq::<T>::empty(), peers))
                    &&& final(self).notificator().pending() == asked_all(
                        old(self).notificator().pending(),
                        times,
                        peers as nat,
                    )
                    &&& summary.1@[0]@ == asked_all(
                        old(self).notificator().changes(),
                        times,
                        peers as nat,
                    )
                    &&& final(self).notificator().changes() == Map::<T, int>::empty()
                },
                None => {
                    &&& final(self).initial() == None::<(Seq<T>, usize)>
                    &&& final(self).notificator().pending() == old(self).notificator().pending()
                    &&& final(self).notificator().changes() == old(self).notificator().changes()
                    &&& summary.1@[0]@ == Map::<T, int>::empty()
                },
            },
            final(self).notificator().available() == old(self).notificator().available(),
            final(self).notificator().frontiers() == old(self).notificator().frontiers(),
            final(self).input1() == old(self).input1(),
            final(self).input2() == old(self).input2(),
            final(self).output() == old(self).output(),
            final(self).logic() == old(self).logic(),
            final(self).label() == old(self).label(),
    {
        let mut internal: Vec<CountMap<T>> = Vec::new();
        internal.push(CountMap::new());
        let notify = self.notify.take();
        match notify {
            Some((initial, peers)) => {
                let ghost pending0 = self.handle.notificator.pending();
                let ghost changes0 = self.handle.notificator.changes();
                let mut i: usize = 0;
                assert(initial@.take(0) =~= Seq::<T>::empty());
                while i < initial.len()
                    invariant
                        i <= initial@.len(),
                        self.handle.notificator.pending() == asked_all(
                            pending0,
                            initial@.take(i as int),
                            peers as nat,
                        ),
                        self.handle.notificator.changes() == asked_all(
                            changes0,
                            initial@.take(i as int),
                            peers as nat,
                        ),
                        self.handle.notificator.available() == old(self).handle.notificator.available(),
                        self.handle.notificator.frontiers() == old(self).handle.notificator.frontiers(),
                        self.handle.input1 == old(self).handle.input1,
                        self.handle.input2 == old(self).handle.input2,
                        self.handle.output == old(self).handle.output,
                        self.logic == old(self).logic,
                        self.name == old(self).name,
                        self.heard == old(self).heard,
                        self.rounds == old(self).rounds,
                        self.notify == None::<(Vec<T>, usize)>,
                    decreases initial@.len() - i,
                {
                    let ghost pending1 = self.handle.notificator.pending();
                    let ghost changes1 = self.handle.notificator.changes();
                    let time = initial[i];
                    let mut k: usize = 0;
                    while k < peers
                        invariant
                            k <= peers,
                            self.handle.notificator.pending() == asked(pending1, time, k as nat),
                            self.handle.notificator.changes() == asked(changes1, time, k as nat),
                            self.handle.notificator.available() == old(self).handle.notificator.available(),
                            self.handle.notificator.frontiers() == old(self).handle.notificator.frontiers(),
                            self.handle.input1 == old(self).handle.input1,
                            self.handle.input2 == old(self).handle.input2,
                            self.handle.output == old(self).handle.output,
                            self.logic == old(self).logic,
                            self.name == old(self).name,
                        self.heard == old(self).heard,
                        self.rounds == old(self).rounds,
                            self.notify == None::<(Vec<T>, usize)>,
                        decreases peers - k,
                    {
                        self.handle.notificator.notify_at(&time);
                        k += 1;
                    }
                    assert(initial@.take(i + 1).drop_last() =~= initial@.take(i as int));
                    i += 1;
                }
                assert(initial@.take(initial@.len() as int) =~= initial@);
                proof {
                    self.handle.notificator.lemma_counts();
                    assert(plus(Map::<T, int>::empty(), self.handle.notificator.changes())
                        =~= self.handle.notificator.changes());
                }
                self.handle.notificator.pull_progress(&mut internal[0]);
                self.notify = Some((Vec::new(), peers));
            },
            None => {},
        }
        let mut summaries: Vec<Vec<Antichain<T::Summary>>> = Vec::new();
        let mut first: Vec<Antichain<T::Summary>> = Vec::new();
        first.push(Antichain::from_elem(T::Summary::identity()));
        let mut second: Vec<Antichain<T::Summary>> = Vec::new();
        second.push(Antichain::from_elem(T::Summary::identity()));
        summaries.push(first);
        summaries.push(second);
        (summaries, internal)
    }

    /// Takes the times that may arrive at the inputs at the start into the
    /// notificator's frontiers.
    fn set_external_summary(
        &mut self,
        summaries: Vec<Vec<Antichain<T::Summary>>>,
        frontier: &mut [CountMap<T>],
    )
        ensures
            forall|i: int|
                0 <= i < final(frontier)@.len() ==> (#[trigger] final(frontier)@[i])@
                    == Map::<T, int>::empty(),
            final(self).notificator().frontiers() == applied(
                old(self).notificator().frontiers(),
                ledgers(old(frontier)@),
            ),
            final(self).notificator().pending() == held(
                plus(old(self).notificator().pending(), old(self).notificator().available()),
                final(self).notificator().frontiers(),
            ),
            final(self).notificator().available() == released(
                plus(old(self).notificator().pending(), old(self).notificator().available()),
                final(self).notificator().frontiers(),
            ),
            final(self).notificator().changes() == old(self).notificator().changes(),
            final(self).input1() == old(self).input1(),
            final(self).input2() == old(self).input2(),
            final(self).output() == old(self).output(),
            final(self).logic() == old(self).logic(),
            final(self).label() == old(self).label(),
            final(self).initial() == old(self).initial(),
    {
        proof {
            self.heard@ = self.heard@.push(ledgers(frontier@));
        }
        self.handle.notificator.update_frontier_from_cm(frontier);
    }

    /// Takes the changes to the times that may arrive at the inputs into the
    /// notificator's frontiers.
    fn push_external_progress(&mut self, external: &mut [CountMap<T>])
        ensures
            forall|i: int|
                0 <= i < final(external)@.len() ==> (#[trigger] final(external)@[i])@
                    == Map::<T, int>::empty(),
            final(self).notificator().frontiers() == applied(
                old(self).notificator().frontiers(),
                ledgers(old(external)@),
            ),
            final(self).notificator().pending() == held(
                plus(old(self).notificator().pending(), old(self).notificator().available()),
                final(self).notificator().frontiers(),
            ),
            final(self).notificator().available() == released(
                plus(old(self).notificator().pending(), old(self).notificator().available()),
                final(self).notificator().frontiers(),
            ),
            final(self).notificator().changes() == old(self).notificator().changes(),
            final(self).input1() == old(self).input1(),
            final(self).input2() == old(self).input2(),
            final(self).output() == old(self).output(),
            final(self).logic() == old(self).logic(),
            final(self).label() == old(self).label(),
            final(self).initial() == old(self).initial(),
    {
        proof {
            self.heard@ = self.heard@.push(ledgers(external@));
        }
        self.handle.notificator.update_frontier_from_cm(external);
    }

    /// Applies the logic once and reports what it did. Afterwards the
    /// operator holds nothing unreported, so it never claims work that its
    /// ledgers do not show.
    fn pull_internal_progress(
        &mut self,
        consumed: &mut [CountMap<T>],
        internal: &mut [CountMap<T>],
        produced: &mut [CountMap<T>],
    ) -> (active: bool)
        ensures
            !active,
            exists|
                i1: PullCounter<T, D1>,
                i2: PullCounter<T, D2>,
                o: Output<T, D3>,
                n: Notificator<T>,
            |
                {
                    &&& #[trigger] old(self).logic().applies(
                        old(self).input1(),
                        old(self).input2(),
                        old(self).output(),
                        old(self).notificator(),
                        &final(self).logic(),
                        i1,
                        i2,
                        o,
                        n,
                    )
                    &&& final(consumed)@[0]@ == plus(old(consumed)@[0]@, i1.consumed())
                    &&& final(consumed)@[1]@ == plus(old(consumed)@[1]@, i2.consumed())
                    &&& final(produced)@[0]@ == plus(
                        old(produced)@[0]@,
                        metered(o.produced(), o.held_time(), o.held()),
                    )
                    &&& final(internal)@[0]@ == plus(old(internal)@[0]@, n.changes())
                    &&& final(self).output().sent() == flushed(
                        o.sent(),
                        o.held_time(),
                        o.held(),
                    )
                    &&& final(self).output().received() == each_flushed(
                        o.received(),
                        o.held_time(),
                        o.held(),
                    )
                    &&& final(self).output().held_time() == o.held_time()
                    &&& final(self).notificator().pending() == n.pending()
                    &&& final(self).notificator().available() == n.available()
                    &&& final(self).notificator().frontiers() == n.frontiers()
                },
            final(self).input1().consumed() == Map::<T, int>::empty(),
            final(self).input2().consumed() == Map::<T, int>::empty(),
            final(self).output().held() == Seq::<D3>::empty(),
            final(self).output().produced() == Map::<T, int>::empty(),
            final(self).notificator().changes() == Map::<T, int>::empty(),
            final(self).label() == old(self).label(),
            final(self).initial() == old(self).initial(),
    {
        self.logic.apply(
            &mut self.handle.input1,
            &mut self.handle.input2,
            &mut self.handle.output,
            &mut self.handle.notificator,
        );
        let ghost i1 = self.handle.input1;
        let ghost i2 = self.handle.input2;
        let ghost o = self.handle.output;
        let ghost n = self.handle.notificator;
        self.report_progress(consumed, internal, produced);
        proof {
            self.rounds@ = self.rounds@.push(
                Round {
                    consumed: ledgers(old(consumed)@),
                    internal: ledgers(old(internal)@),
                    produced: ledgers(old(produced)@),
                    consumed_after: ledgers(consumed@),
                    internal_after: ledgers(internal@),
                    produced_after: ledgers(produced@),
                    active: false,
                },
            );
            assert(old(self).logic().applies(
                old(self).input1(),
                old(self).input2(),
                old(self).output(),
                old(self).notificator(),
                &self.logic(),
                i1,
                i2,
                o,
                n,
            ));
        }
        false
    }

    fn name(&self) -> (name: String) {
        self.name.clone()
    }

    fn notify_me(&self) -> (wanted: bool) {
        self.notify.is_some()
    }
}

} // verus!

verus! {

/// The graph after an operator with two inputs was added: two new
/// identifiers, one new vertex, and a channel from each of the two sources to
/// the inputs 0 and 1 of that vertex, the first on the identifier that was
/// handed out first and the second on the other.
pub open spec fn wired<G: Scope>(before: &G, after: &G, first: Source, second: Source) -> bool {
    let index = before.operators();
    let n = before.wiring().len() as int;
    &&& index <= usize::MAX
    &&& after.operators() == index + 1
    &&& after.workers() == before.workers()
    &&& after.wiring().len() == n + 2
    &&& after.wiring().take(n) == before.wiring()
    &&& after.wiring()[n].source == first
    &&& after.wiring()[n].target == (Target { index: index as usize, port: 0 })
    &&& after.wiring()[n + 1].source == second
    &&& after.wiring()[n + 1].target == (Target { index: index as usize, port: 1 })
    &&& after.wiring()[n].channel != after.wiring()[n + 1].channel
    &&& !before.identifiers().contains(after.wiring()[n].channel)
    &&& !before.identifiers().contains(after.wiring()[n + 1].channel)
    &&& after.identifiers() == before.identifiers().push(after.wiring()[n].channel).push(
        after.wiring()[n + 1].channel,
    )
}

/// Methods to construct operators with two inputs.
pub trait Binary<G: Scope, D1: Data> {
    /// The output that this stream stands for.
    spec fn first(&self) -> Source;

    /// Adds an operator that reads this stream and `other`, each divided
    /// among the workers as its contract says, and applies `logic` in each
    /// round. Returns the stream of its output.
    fn binary_stream<
        D2: Data + 'static,
        D3: Data + 'static,
        L: StreamLogic<G::Timestamp, D1, D2, D3> + 'static,
        C1: ParallelizationContract<G::Timestamp, D1>,
        C2: ParallelizationContract<G::Timestamp, D2>,
    >(
        &self,
        other: &Stream<G, D2>,
        pact1: C1,
        pact2: C2,
        name: &str,
        logic: L,
        scope: &mut G,
    ) -> (stream: Stream<G, D3>)
        ensures
            wired(old(scope), final(scope), self.first(), other.source()),
            stream.source() == (Source { index: old(scope).operators() as usize, port: 0 }),
            final(scope).registered() == old(scope).registered().push(
                (
                    name@,
                    2,
                    1,
                    false,
                    None::<(Seq<G::Timestamp>, usize)>,
                    seq![
                        final(scope).wiring()[old(scope).wiring().len() as int].channel,
                        final(scope).wiring()[old(scope).wiring().len() as int + 1].channel,
                    ],
                    seq![old(scope).operators() as usize],
                ),
            ),
            final(scope).given_out() == old(scope).given_out().push(
                old(scope).operators() as usize,
            ),
    ;

    /// As `binary_stream`, for logic that also asks for and receives
    /// notifications. `notify` holds the times at which the operator wants
    /// to be notified from the start.
    fn binary_notify<
        D2: Data + 'static,
        D3: Data + 'static,
        L: BinaryLogic<G::Timestamp, D1, D2, D3> + 'static,
        C1: ParallelizationContract<G::Timestamp, D1>,
        C2: ParallelizationContract<G::Timestamp, D2>,
    >(
        &self,
        other: &Stream<G, D2>,
        pact1: C1,
        pact2: C2,
        name: &str,
        notify: Vec<G::Timestamp>,
        logic: L,
        scope: &mut G,
    ) -> (stream: Stream<G, D3>)
        ensures
            wired(old(scope), final(scope), self.first(), other.source()),
            stream.source() == (Source { index: old(scope).operators() as usize, port: 0 }),
            final(scope).registered() == old(scope).registered().push(
                (
                    name@,
                    2,
                    1,
                    true,
                    Some((notify@, old(scope).workers())),
                    seq![
                        final(scope).wiring()[old(scope).wiring().len() as int].channel,
                        final(scope).wiring()[old(scope).wiring().len() as int + 1].channel,
                    ],
                    seq![old(scope).operators() as usize],
                ),
            ),
            final(scope).given_out() == old(scope).given_out().push(
                old(scope).operators() as usize,
            ),
    ;
}

impl<G: Scope, D1: Data + 'static> Binary<G, D1> for Stream<G, D1> where G::Timestamp: 'static {
    open spec fn first(&self) -> Source {
        self.source()
    }

    fn binary_stream<
        D2: Data + 'static,
        D3: Data + 'static,
        L: StreamLogic<G::Timestamp, D1, D2, D3> + 'static,
        C1: ParallelizationContract<G::Timestamp, D1>,
        C2: ParallelizationContract<G::Timestamp, D2>,
    >(
        &self,
        other: &Stream<G, D2>,
        pact1: C1,
        pact2: C2,
        name: &str,
        logic: L,
        scope: &mut G,
    ) -> (stream: Stream<G, D3>) {
        let channel_id1 = scope.new_identifier();
        let channel_id2 = scope.new_identifier();

        let (sender1, receiver1) = pact1.connect(scope, channel_id1);
        let (sender2, receiver2) = pact2.connect(scope, channel_id2);
        let registrar = scope.new_output::<D3>();
        let operator = Operator::assemble(
            receiver1,
            receiver2,
            registrar,
            name.to_owned(),
            None,
            Unnotified { logic },
        );
        let index = scope.add_operator(operator);
        self.connect_to(Target { index, port: 0 }, sender1, scope);
        other.connect_to(Target { index, port: 1 }, sender2, scope);
        proof {
            let n = old(scope).wiring().len() as int;
            assert(scope.wiring().take(n) =~= old(scope).wiring());
            let ids = old(scope).identifiers();
            let more = ids.push(channel_id1);
            assert(more[ids.len() as int] == channel_id1);
            assert(more.contains(channel_id1));
            if ids.contains(channel_id2) {
                let i = choose|i: int| 0 <= i < ids.len() && ids[i] == channel_id2;
                assert(more[i] == channel_id2);
            }
        }
        Stream::new(Source { index, port: 0 })
    }

    fn binary_notify<
        D2: Data + 'static,
        D3: Data + 'static,
        L: BinaryLogic<G::Timestamp, D1, D2, D3> + 'static,
        C1: ParallelizationContract<G::Timestamp, D1>,
        C2: ParallelizationContract<G::Timestamp, D2>,
    >(
        &self,
        other: &Stream<G, D2>,
        pact1: C1,
        pact2: C2,
        name: &str,
        notify: Vec<G::Timestamp>,
        logic: L,
        scope: &mut G,
    ) -> (stream: Stream<G, D3>) {
        let channel_id1 = scope.new_identifier();
        let channel_id2 = scope.new_identifier();

        let (sender1, receiver1) = pact1.connect(scope, channel_id1);
        let (sender2, receiver2) = pact2.connect(scope, channel_id2);
        let registrar = scope.new_output::<D3>();
        let peers = scope.peers();
        let operator = Operator::assemble(
            receiver1,
            receiver2,
            registrar,
            name.to_owned(),
            Some((notify, peers)),
            logic,
        );
        let index = scope.add_operator(operator);
        self.connect_to(Target { index, port: 0 }, sender1, scope);
        other.connect_to(Target { index, port: 1 }, sender2, scope);
        proof {
            let n = old(scope).wiring().len() as int;
            assert(scope.wiring().take(n) =~= old(scope).wiring());
            let ids = old(scope).identifiers();
            let more = ids.push(channel_id1);
            assert(more[ids.len() as int] == channel_id1);
            assert(more.contains(channel_id1));
            if ids.contains(channel_id2) {
                let i = choose|i: int| 0 <= i < ids.len() && ids[i] == channel_id2;
                assert(more[i] == channel_id2);
            }
        }
        Stream::new(Source { index, port: 0 })
    }
}

} // verus!
