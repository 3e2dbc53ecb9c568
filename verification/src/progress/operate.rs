//! What the scheduler asks of every vertex of the graph.

use vstd::prelude::*;
use crate::progress::count_map::CountMap;
use crate::progress::frontier::Antichain;
use crate::progress::notificator::{admits, applied, ledgers};
use crate::progress::timestamp::Timestamp;

verus! {

/// A name, letter by letter.
pub type Name = Seq<char>;

/// Identifiers of channels, or numbers of vertices, one after another.
pub type Links = Seq<usize>;

/// What each ledger of a list holds.
pub type Ledgers<T> = Seq<Map<T, int>>;

/// Times at which to notify from the start, and a number of workers.
pub type Plan<T> = Option<(Seq<T>, usize)>;

/// One round of a vertex as its caller saw it: what the three lists of
/// ledgers held when they were handed over, what they held when they came
/// back, and what the vertex answered.
#[verifier::reject_recursive_types(T)]
pub struct Round<T> {
    pub consumed: Ledgers<T>,
    pub internal: Ledgers<T>,
    pub produced: Ledgers<T>,
    pub consumed_after: Ledgers<T>,
    pub internal_after: Ledgers<T>,
    pub produced_after: Ledgers<T>,
    pub active: bool,
}

/// The lists that a vertex was handed, one after another.
pub type Heard<T> = Seq<Ledgers<T>>;

/// The rounds of a vertex, one after another.
pub type Rounds<T> = Seq<Round<T>>;

/// From place `from` on, the two lists hold the same.
pub open spec fn same_from<T>(before: Ledgers<T>, after: Ledgers<T>, from: int) -> bool {
    &&& before.len() == after.len()
    &&& forall|k: int| from <= k < before.len() ==> #[trigger] after[k] == before[k]
}

/// A vertex as the scheduler sees it. The number of its inputs and outputs
/// never changes, and every ledger list handed to it has one ledger for each
/// input, or for each output, as the method says.
pub trait Operate<T: Timestamp> {
    /// The number of inputs.
    spec fn input_count(&self) -> usize;

    /// The number of outputs.
    spec fn output_count(&self) -> usize;

    /// The name of the vertex.
    spec fn label(&self) -> Name;

    /// Whether the vertex asks for notifications.
    spec fn asks(&self) -> bool;

    /// The times at which the vertex asks to be notified from the start and
    /// has not requested yet, with the number of workers for each of which
    /// it requests them; nothing where it asks for no notifications.
    spec fn initial(&self) -> Plan<T>;

    /// The identifiers of the channels that the inputs read, input by input,
    /// as far as the vertex knows them.
    spec fn reads(&self) -> Links;

    /// For each sender behind the outputs, the number of the vertex for
    /// whose output the scope gave the sender out.
    spec fn feeds(&self) -> Links;

    /// The counts behind the frontier of each input, as far as the vertex
    /// has heard of them.
    spec fn frontier(&self) -> Ledgers<T>;

    /// Every list of frontiers or of changes to them that the vertex was
    /// handed, in the order in which they came.
    spec fn heard(&self) -> Heard<T>;

    /// Every round that the vertex has worked, in order.
    spec fn rounds(&self) -> Rounds<T>;

    /// The number of inputs.
    fn inputs(&self) -> (n: usize)
        ensures
            n == self.input_count(),
    ;

    /// The number of outputs.
    fn outputs(&self) -> (n: usize)
        ensures
            n == self.output_count(),
    ;

    /// Called once, first. Returns, for each input and each output, the
    /// summaries of the paths that lead from the one to the other inside the
    /// vertex, and for each output the capabilities that the vertex holds
    /// from the start.
    fn get_internal_summary(&mut self) -> (summary: (
        Vec<Vec<Antichain<T::Summary>>>,
        Vec<CountMap<T>>,
    ))
        ensures
            final(self).input_count() == old(self).input_count(),
            final(self).output_count() == old(self).output_count(),
            summary.0@.len() == old(self).input_count(),
            forall|i: int|
                0 <= i < summary.0@.len() ==> (#[trigger] summary.0@[i])@.len() == old(self).output_count(),
            summary.1@.len() == old(self).output_count(),
            final(self).heard() == old(self).heard(),
            final(self).rounds() == old(self).rounds(),
            final(self).frontier() == old(self).frontier(),
    ;

    /// Called once, second. Hands over the summaries of the paths outside the
    /// vertex and, for each input, the times that may arrive at it at the
    /// start.
    fn set_external_summary(
        &mut self,
        summaries: Vec<Vec<Antichain<T::Summary>>>,
        frontier: &mut [CountMap<T>],
    )
        requires
            old(frontier)@.len() >= old(self).input_count(),
            admits(old(self).frontier(), ledgers(old(frontier)@)),
        ensures
            final(self).input_count() == old(self).input_count(),
            final(self).output_count() == old(self).output_count(),
            final(frontier)@.len() == old(frontier)@.len(),
            final(self).heard() == old(self).heard().push(ledgers(old(frontier)@)),
            final(self).rounds() == old(self).rounds(),
            final(self).frontier() == applied(old(self).frontier(), ledgers(old(frontier)@)),
    ;

    /// Hands over, for each input, the changes to the times that may still
    /// arrive at it.
    fn push_external_progress(&mut self, external: &mut [CountMap<T>])
        requires
            old(external)@.len() >= old(self).input_count(),
            admits(old(self).frontier(), ledgers(old(external)@)),
        ensures
            final(self).input_count() == old(self).input_count(),
            final(self).output_count() == old(self).output_count(),
            final(external)@.len() == old(external)@.len(),
            final(self).heard() == old(self).heard().push(ledgers(old(external)@)),
            final(self).rounds() == old(self).rounds(),
            final(self).frontier() == applied(old(self).frontier(), ledgers(old(external)@)),
    ;

    /// Lets the vertex work once, and collects what it consumed at each
    /// input, what it produced at each output, and how the capabilities that
    /// it holds at each output changed. Says whether the vertex has work that
    /// its ledgers do not show.
    fn pull_internal_progress(
        &mut self,
        consumed: &mut [CountMap<T>],
        internal: &mut [CountMap<T>],
        produced: &mut [CountMap<T>],
    ) -> (active: bool)
        requires
            old(consumed)@.len() >= old(self).input_count(),
            old(internal)@.len() >= old(self).output_count(),
            old(produced)@.len() >= old(self).output_count(),
        ensures
            final(self).input_count() == old(self).input_count(),
            final(self).output_count() == old(self).output_count(),
            same_from(
                ledgers(old(consumed)@),
                ledgers(final(consumed)@),
                old(self).input_count() as int,
            ),
            same_from(
                ledgers(old(internal)@),
                ledgers(final(internal)@),
                old(self).output_count() as int,
            ),
            same_from(
                ledgers(old(produced)@),
                ledgers(final(produced)@),
                old(self).output_count() as int,
            ),
            final(self).heard() == old(self).heard(),
            final(self).frontier() == old(self).frontier(),
            final(self).rounds() == old(self).rounds().push(
                (Round {
                    consumed: ledgers(old(consumed)@),
                    internal: ledgers(old(internal)@),
                    produced: ledgers(old(produced)@),
                    consumed_after: ledgers(final(consumed)@),
                    internal_after: ledgers(final(internal)@),
                    produced_after: ledgers(final(produced)@),
                    active,
                }),
            ),
    ;

    /// The name of the vertex.
    fn name(&self) -> (name: String)
        ensures
            name@ == self.label(),
    ;

    /// Whether the vertex asks for notifications.
    fn notify_me(&self) -> (wanted: bool)
        ensures
            wanted == self.asks(),
    ;
}

impl<T: Timestamp> Operate<T> for Box<dyn Operate<T>> {
    open spec fn input_count(&self) -> usize {
        (**self).input_count()
    }

    open spec fn output_count(&self) -> usize {
        (**self).output_count()
    }

    open spec fn label(&self) -> Name {
        (**self).label()
    }

    open spec fn initial(&self) -> Plan<T> {
        (**self).initial()
    }

    open spec fn reads(&self) -> Seq<usize> {
        (**self).reads()
    }

    open spec fn feeds(&self) -> Seq<usize> {
        (**self).feeds()
    }

    open spec fn frontier(&self) -> Ledgers<T> {
        (**self).frontier()
    }

    open spec fn heard(&self) -> Seq<Ledgers<T>> {
        (**self).heard()
    }

    open spec fn rounds(&self) -> Seq<Round<T>> {
        (**self).rounds()
    }

    open spec fn asks(&self) -> bool {
        (**self).asks()
    }

    fn inputs(&self) -> (n: usize) {
        (**self).inputs()
    }

    fn outputs(&self) -> (n: usize) {
        (**self).outputs()
    }

    fn get_internal_summary(&mut self) -> (summary: (
        Vec<Vec<Antichain<T::Summary>>>,
        Vec<CountMap<T>>,
    )) {
        (**self).get_internal_summary()
    }

    fn set_external_summary(
        &mut self,
        summaries: Vec<Vec<Antichain<T::Summary>>>,
        frontier: &mut [CountMap<T>],
    ) {
        (**self).set_external_summary(summaries, frontier)
    }

    fn push_external_progress(&mut self, external: &mut [CountMap<T>]) {
        (**self).push_external_progress(external)
    }

    fn pull_internal_progress(
        &mut self,
        consumed: &mut [CountMap<T>],
        internal: &mut [CountMap<T>],
        produced: &mut [CountMap<T>],
    ) -> (active: bool) {
        (**self).pull_internal_progress(consumed, internal, produced)
    }

    fn name(&self) -> (name: String) {
        (**self).name()
    }

    fn notify_me(&self) -> (wanted: bool) {
        (**self).notify_me()
    }
}

} // verus!
