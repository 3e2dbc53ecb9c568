//! The graph under construction, as an operator's constructor sees it, and
//! the streams that stand for the outputs of its vertices.

use std::marker::PhantomData;
use vstd::prelude::*;
use crate::dataflow::channels::{Inlet, Log, Logs, Outlet, Pushable};
use crate::progress::nested::{Source, Target};
use crate::progress::operate::{Links, Name, Operate, Plan};
use crate::progress::timestamp::Timestamp;
use crate::Data;

verus! {

/// A channel of the graph: it leads from an output to an input and is known
/// by its identifier.
#[derive(Clone, Copy, Debug, PartialEq, Eq, Structural)]
pub struct Edge {
    pub source: Source,
    pub target: Target,
    pub channel: usize,
}

/// The sending end of an output, as the scope hands it out: what is pushed
/// into `pusher` goes to every subscriber of the output. `vertex` is the
/// number of the vertex whose output it is.
#[verifier::reject_recursive_types(T)]
#[verifier::reject_recursive_types(D)]
pub struct Registrar<T, D> {
    pub pusher: Box<dyn Pushable<T, D>>,
    pub vertex: usize,
}

impl<T, D> Pushable<T, D> for Registrar<T, D> {
    open spec fn sent(&self) -> Log<T, D> {
        self.pusher.sent()
    }

    open spec fn received(&self) -> Logs<T, D> {
        self.pusher.received()
    }

    fn push(&mut self, time: &T, batch: Vec<D>) {
        self.pusher.push(time, batch)
    }
}

/// The identifiers that a scope has handed out, in the order in which it
/// handed them out.
pub type Identifiers = Seq<usize>;

/// The channels of a scope, in the order in which they were connected.
pub type Wiring = Seq<Edge>;

/// The number of vertices of a scope.
pub type Size = nat;

/// What a scope keeps of each vertex that it was given, in the order in
/// which the vertices came: the name, the number of inputs, the number of
/// outputs, whether the vertex asks for notifications, and the times at which
/// it asks to be notified from the start with the number of workers, the
/// channels that its inputs read, and the vertices for whose outputs its
/// senders were given out.
pub type Registered<T> = Seq<(Name, usize, usize, bool, Plan<T>, Seq<usize>, Seq<usize>)>;

/// A graph under construction. It hands out identifiers for channels, takes
/// vertices and numbers them in the order in which they come, and connects
/// an output of one vertex to an input of another.
pub trait Scope {
    type Timestamp: Timestamp;

    /// The identifiers handed out so far.
    spec fn identifiers(&self) -> Identifiers;

    /// The number of vertices taken so far.
    spec fn operators(&self) -> Size;

    /// The channels connected so far.
    spec fn wiring(&self) -> Wiring;

    /// For each sender that was given out for an output, the number of the
    /// vertex whose output it is.
    spec fn given_out(&self) -> Links;

    /// What is kept of the vertices taken so far.
    spec fn registered(&self) -> Registered<Self::Timestamp>;

    /// The number of workers that run this graph.
    spec fn workers(&self) -> usize;

    /// An identifier that was not handed out before.
    fn new_identifier(&mut self) -> (identifier: usize)
        ensures
            !old(self).identifiers().contains(identifier),
            final(self).identifiers() == old(self).identifiers().push(identifier),
            final(self).operators() == old(self).operators(),
            final(self).wiring() == old(self).wiring(),
            final(self).workers() == old(self).workers(),
            final(self).registered() == old(self).registered(),
            final(self).given_out() == old(self).given_out(),
    ;

    /// Takes a vertex and returns its number: the number of vertices taken
    /// before it.
    fn add_operator<O: Operate<Self::Timestamp> + 'static>(&mut self, operator: O) -> (index:
        usize)
        ensures
            index == old(self).operators(),
            final(self).operators() == old(self).operators() + 1,
            final(self).identifiers() == old(self).identifiers(),
            final(self).wiring() == old(self).wiring(),
            final(self).workers() == old(self).workers(),
            final(self).registered() == old(self).registered().push(
                (
                    operator.label(),
                    operator.input_count(),
                    operator.output_count(),
                    operator.asks(),
                    operator.initial(),
                    operator.reads(),
                    operator.feeds(),
                ),
            ),
            final(self).given_out() == old(self).given_out(),
    ;

    /// The sending end of the first output of the vertex that is added next.
    /// What is pushed into it goes to every subscriber that is connected to
    /// that output afterwards.
    fn new_output<D: Data + 'static>(&mut self) -> (registrar: Registrar<Self::Timestamp, D>)
        ensures
            registrar.vertex == old(self).operators(),
            final(self).identifiers() == old(self).identifiers(),
            final(self).operators() == old(self).operators(),
            final(self).wiring() == old(self).wiring(),
            final(self).workers() == old(self).workers(),
            final(self).registered() == old(self).registered(),
            final(self).given_out() == old(self).given_out().push(registrar.vertex),
    ;

    /// Connects `source` to `target` by the channel whose sending end is
    /// `sender`: what the output sends from now on goes there as well.
    fn connect<D: Data + 'static>(
        &mut self,
        source: Source,
        target: Target,
        sender: Outlet<Self::Timestamp, D>,
    )
        ensures
            final(self).wiring() == old(self).wiring().push(
                (Edge { source, target, channel: sender.channel }),
            ),
            final(self).identifiers() == old(self).identifiers(),
            final(self).operators() == old(self).operators(),
            final(self).workers() == old(self).workers(),
            final(self).registered() == old(self).registered(),
            final(self).given_out() == old(self).given_out(),
    ;

    /// The number of workers that run this graph.
    fn peers(&self) -> (peers: usize)
        ensures
            peers == self.workers(),
    ;
}

/// How the records of a channel are divided among the workers. It makes the
/// two ends of the channel with the given identifier, and leaves the graph as
/// it is.
pub trait ParallelizationContract<T: Timestamp, D> {
    fn connect<G: Scope<Timestamp = T>>(self, scope: &mut G, identifier: usize) -> (ends: (
        Outlet<T, D>,
        Inlet<T, D>,
    ))
        ensures
            ends.0.channel == identifier,
            ends.1.channel == identifier,
            final(scope).identifiers() == old(scope).identifiers(),
            final(scope).operators() == old(scope).operators(),
            final(scope).wiring() == old(scope).wiring(),
            final(scope).workers() == old(scope).workers(),
            final(scope).registered() == old(scope).registered(),
            final(scope).given_out() == old(scope).given_out(),
    ;
}

/// The output of a vertex, by which further operators attach to it. A stream
/// owns nothing: it names the output.
pub struct Stream<G: Scope, D> {
    name: Source,
    scope: PhantomData<G>,
    data: PhantomData<D>,
}

impl<G: Scope, D> Clone for Stream<G, D> {
    fn clone(&self) -> (copy: Self)
        ensures
            copy == *self,
    {
        Stream { name: self.name, scope: PhantomData, data: PhantomData }
    }
}

impl<G: Scope, D> Copy for Stream<G, D> {

}

impl<G: Scope, D: Data + 'static> Stream<G, D> {
    /// The output that this stream stands for.
    pub closed spec fn source(&self) -> Source {
        self.name
    }

    /// The stream of the output `source`.
    pub fn new(source: Source) -> (stream: Self)
        ensures
            stream.source() == source,
    {
        Stream { name: source, scope: PhantomData, data: PhantomData }
    }

    /// The output that this stream stands for.
    pub fn name(&self) -> (source: Source)
        ensures
            source == self.source(),
    {
        self.name
    }

    /// Connects the output to `target` through the channel whose sending
    /// end is `sender`.
    pub fn connect_to(&self, target: Target, sender: Outlet<G::Timestamp, D>, scope: &mut G)
        ensures
            final(scope).wiring() == old(scope).wiring().push(
                (Edge { source: self.source(), target, channel: sender.channel }),
            ),
            final(scope).identifiers() == old(scope).identifiers(),
            final(scope).operators() == old(scope).operators(),
            final(scope).workers() == old(scope).workers(),
            final(scope).registered() == old(scope).registered(),
            final(scope).given_out() == old(scope).given_out(),
    {
        scope.connect(self.name, target, sender);
    }
}

} // verus!
