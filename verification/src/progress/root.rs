//! The driver of a graph: it lets every vertex work in turn, keeps the
//! ledgers of outstanding messages and capabilities, and tells every vertex
//! which times may still arrive at its inputs.

use vstd::prelude::*;
use crate::progress::count_map::{
    as_map, bump, canonical, count, lemma_entry, place, plus, CountMap,
};
use crate::progress::frontier::{incomparable, Antichain};
use crate::progress::nested::{Source, Target};
use crate::progress::notificator::{applied, ledgers, stored};
use crate::progress::operate::{Ledgers, Operate, Round};
use crate::progress::reachability::{
    all_closed, all_empty, change, covers, difference, empty_ledgers, fronts, grounded, in_range,
    rooted,
    settle, Link, Path,
};
use crate::progress::timestamp::{PartialOrder, PathSummary, Timestamp};

verus! {

/// The ledgers after `deltas` are added to the ledgers from place `base` on.
pub open spec fn credited<T>(ledger: Seq<Map<T, int>>, base: int, deltas: Seq<Map<T, int>>) -> Seq<
    Map<T, int>,
> {
    Seq::new(
        ledger.len(),
        |g: int|
            if base <= g < base + deltas.len() {
                plus(ledger[g], deltas[g - base])
            } else {
                ledger[g]
            },
    )
}

/// The ledgers of the inputs after what the outputs from place `base` on
/// produced is added at the end of every channel that starts at one of them,
/// channel by channel.
pub open spec fn delivered<T>(
    messages: Seq<Map<T, int>>,
    links: Seq<Link>,
    base: int,
    produced: Seq<Map<T, int>>,
) -> Seq<Map<T, int>>
    decreases links.len(),
{
    if links.len() == 0 {
        messages
    } else {
        let before = delivered(messages, links.drop_last(), base, produced);
        let l = links.last();
        if base <= l.from < base + produced.len() && l.to < before.len() {
            before.update(l.to as int, plus(before[l.to as int], produced[l.from - base]))
        } else {
            before
        }
    }
}

/// The ledgers of the inputs when nothing is outstanding but one message with
/// the mark `unit` at the end of every channel that starts at the output
/// `source`.
pub open spec fn starts<S>(links: Seq<Link>, source: int, unit: S, inputs: nat) -> Seq<Map<S, int>>
    decreases links.len(),
{
    if links.len() == 0 {
        Seq::new(inputs, |g: int| Map::<S, int>::empty())
    } else {
        let before = starts(links.drop_last(), source, unit, inputs);
        let l = links.last();
        if l.from == source && l.to < inputs {
            before.update(l.to as int, bump(before[l.to as int], unit, 1))
        } else {
            before
        }
    }
}

/// A list of `n` ledgers that hold nothing.
pub open spec fn nothing<S>(n: nat) -> Seq<Map<S, int>> {
    Seq::new(n, |g: int| Map::<S, int>::empty())
}

/// The summary `unit` is the summary of the empty path.
pub open spec fn is_unit<T: Timestamp>(unit: T::Summary) -> bool {
    unit == <T::Summary as PathSummary<T>>::unit()
}

/// The members of each antichain of a table of summaries.
pub open spec fn summary_sets<S: PartialOrder>(table: Seq<Vec<Antichain<S>>>) -> Seq<Seq<Set<S>>> {
    Seq::new(table.len(), |i: int| fronts(table[i]@))
}

/// From the place `start` of the list on, a path leads from `from` to `to`
/// with the summary `s`.
pub open spec fn has_path<S>(paths: Seq<Path<S>>, start: int, from: int, s: S, to: int) -> bool {
    exists|p: int|
        0 <= p && start <= p < paths.len() && (#[trigger] paths[p]).from == from
            && paths[p].summary == s && paths[p].to == to
}

/// From the place `start` of the list on, the paths are those of one vertex
/// whose inputs start at `input_base` and whose outputs start at
/// `output_base`: one path for each summary that `table` holds from an input
/// to an output, and no other.
pub open spec fn recorded<S>(
    paths: Seq<Path<S>>,
    start: int,
    table: Seq<Seq<Set<S>>>,
    input_base: int,
    output_base: int,
) -> bool {
    &&& forall|p: int|
        start <= p < paths.len() ==> {
            &&& input_base <= (#[trigger] paths[p]).from < input_base + table.len()
            &&& output_base <= paths[p].to < output_base + table[paths[p].from - input_base].len()
            &&& table[paths[p].from - input_base][paths[p].to - output_base].contains(
                paths[p].summary,
            )
        }
    &&& forall|i: int, o: int, s: S|
        0 <= i < table.len() && 0 <= o < table[i].len() && #[trigger] table[i][o].contains(s)
            ==> has_path(paths, start, input_base + i, s, output_base + o)
    &&& apart(paths, start)
}

/// From the place `start` of the list on, no path stands twice.
pub open spec fn apart<S>(paths: Seq<Path<S>>, start: int) -> bool {
    forall|p: int, q: int|
        0 <= p && start <= p < paths.len() && 0 <= q && start <= q < paths.len() && p != q ==> (
        #[trigger] paths[p]) != (#[trigger] paths[q])
}

/// The path belongs to an input before the input `i`, or to the input `i`
/// and an output before the output `o`.
pub open spec fn before_place<S>(
    path: Path<S>,
    input_base: int,
    output_base: int,
    i: int,
    o: int,
) -> bool {
    path.from - input_base < i || (path.from - input_base == i && path.to - output_base < o)
}

/// The path belongs to the input `i` and the output `o`, and its summary is
/// among the first `k` of `list`.
pub open spec fn at_place<S>(
    path: Path<S>,
    input_base: int,
    output_base: int,
    i: int,
    o: int,
    list: Seq<S>,
    k: int,
) -> bool {
    path.from - input_base == i && path.to - output_base == o && exists|j: int|
        0 <= j < k && #[trigger] list[j] == path.summary
}

/// The path is one that the table gives: it leads from an input to an output
/// of the vertex, with a summary that the table holds for the two.
pub open spec fn comes_from<S: PartialOrder>(
    path: Path<S>,
    table: Seq<Vec<Antichain<S>>>,
    input_base: int,
    output_base: int,
    outputs: int,
) -> bool {
    &&& input_base <= path.from < input_base + table.len()
    &&& output_base <= path.to < output_base + outputs
    &&& table[path.from - input_base]@[path.to - output_base]@.contains(path.summary)
}

/// Every path from the place `start` of the list on is one that the table
/// gives.
pub open spec fn from_table<S: PartialOrder>(
    paths: Seq<Path<S>>,
    start: int,
    table: Seq<Vec<Antichain<S>>>,
    input_base: int,
    output_base: int,
    outputs: int,
) -> bool {
    forall|p: int|
        start <= p < paths.len() ==> comes_from(
            #[trigger] paths[p],
            table,
            input_base,
            output_base,
            outputs,
        )
}

/// A path that the list holds is still there when one more is appended.
pub proof fn lemma_has_path_push<S>(
    paths: Seq<Path<S>>,
    start: int,
    more: Path<S>,
    from: int,
    s: S,
    to: int,
)
    requires
        has_path(paths, start, from, s, to),
    ensures
        has_path(paths.push(more), start, from, s, to),
{
    let p = choose|p: int|
        0 <= p && start <= p < paths.len() && (#[trigger] paths[p]).from == from
            && paths[p].summary == s && paths[p].to == to;
    assert(paths.push(more)[p] == paths[p]);
}

/// What a vertex is handed when the frontiers of its inputs, which start at
/// the place `base`, go from `told` to `now`: for each input the members
/// that joined and those that left.
pub open spec fn handed<T>(told: Seq<Set<T>>, now: Seq<Set<T>>, base: int, inputs: int) -> Ledgers<
    T,
> {
    Seq::new(inputs as nat, |i: int| change(told[base + i], now[base + i]))
}

/// One turn of a vertex in a round of the graph: it was handed `external`,
/// then it worked one round on lists of empty ledgers, one for each input
/// and each output, and answered `claim`.
pub open spec fn driven<T: Timestamp, V: Operate<T>>(
    before: V,
    after: V,
    external: Ledgers<T>,
    claim: bool,
) -> bool {
    &&& after.input_count() == before.input_count()
    &&& after.output_count() == before.output_count()
    &&& after.heard() == before.heard().push(external)
    &&& after.rounds().len() == before.rounds().len() + 1
    &&& after.rounds().drop_last() == before.rounds()
    &&& after.rounds().last().consumed == nothing::<T>(before.input_count() as nat)
    &&& after.rounds().last().internal == nothing::<T>(before.output_count() as nat)
    &&& after.rounds().last().produced == nothing::<T>(before.output_count() as nat)
    &&& after.rounds().last().active == claim
}

/// The last round of each of the first `n` vertices.
pub open spec fn last_rounds<T: Timestamp, V: Operate<T>>(vertices: Seq<V>, n: int) -> Seq<
    Round<T>,
> {
    Seq::new(n as nat, |u: int| vertices[u].rounds().last())
}

/// The ledgers of the inputs and of the outputs after the reports of the
/// first vertices were taken in, one vertex after another.
pub open spec fn accounted<T>(
    messages: Ledgers<T>,
    capabilities: Ledgers<T>,
    links: Seq<Link>,
    input_base: Seq<usize>,
    output_base: Seq<usize>,
    reports: Seq<Round<T>>,
) -> (Ledgers<T>, Ledgers<T>)
    decreases reports.len(),
{
    if reports.len() == 0 {
        (messages, capabilities)
    } else {
        let before = accounted(
            messages,
            capabilities,
            links,
            input_base,
            output_base,
            reports.drop_last(),
        );
        let v = reports.len() - 1;
        let r = reports.last();
        (
            delivered(
                credited(before.0, input_base[v] as int, r.consumed_after),
                links,
                output_base[v] as int,
                r.produced_after,
            ),
            credited(before.1, output_base[v] as int, r.internal_after),
        )
    }
}

/// The counts that stand for a frontier: one for each member.
pub open spec fn ones<T>(front: Set<T>) -> Map<T, int> {
    Map::new(|t: T| front.contains(t), |t: T| 1int)
}

/// The vertex, whose inputs start at the place `base`, has stored for each
/// of its inputs the frontier that `told` holds for it.
pub open spec fn in_tune<T: Timestamp, V: Operate<T>>(vertex: V, told: Seq<Set<T>>, base: int) -> bool {
    forall|i: int|
        0 <= i < vertex.input_count() ==> #[trigger] stored(vertex.frontier(), i) == ones(
            told[base + i],
        )
}

/// A frontier with the changes that lead to another gives that other; the
/// changes take nothing away that was not there.
pub proof fn lemma_retune<T>(told: Set<T>, now: Set<T>)
    ensures
        plus(ones(told), change(told, now)) == ones(now),
        forall|t: T| count(ones(told), t) + #[trigger] count(change(told, now), t) >= 0,
{
    assert(plus(ones(told), change(told, now)) =~= ones(now));
}

/// No ledger of the list holds a negative count.
pub open spec fn never_negative<T>(counts: Seq<Map<T, int>>) -> bool {
    forall|g: int, t: T| 0 <= g < counts.len() ==> #[trigger] count(counts[g], t) >= 0
}

/// Some vertex said that it has work.
pub open spec fn any_claim(claims: Seq<bool>) -> bool {
    exists|v: int| 0 <= v < claims.len() && #[trigger] claims[v]
}

/// The driver of a graph of vertices of type `V`.
pub struct Root<T: Timestamp, V: Operate<T>> {
    vertices: Vec<V>,
    input_base: Vec<usize>,
    output_base: Vec<usize>,
    configured: Vec<bool>,
    claims: Vec<bool>,
    messages: Vec<CountMap<T>>,
    capabilities: Vec<CountMap<T>>,
    told: Vec<Antichain<T>>,
    paths: Vec<Path<T::Summary>>,
    links: Vec<Link>,
}

impl<T: Timestamp, V: Operate<T>> Root<T, V> {
    /// The vertices, in the order in which they were added.
    pub closed spec fn vertices(&self) -> Seq<V> {
        self.vertices@
    }

    /// The number of the first input of each vertex among all inputs.
    pub closed spec fn input_base(&self) -> Seq<usize> {
        self.input_base@
    }

    /// The number of the first output of each vertex among all outputs.
    pub closed spec fn output_base(&self) -> Seq<usize> {
        self.output_base@
    }

    /// For each vertex, whether it was told the frontiers it starts with.
    pub closed spec fn configured(&self) -> Seq<bool> {
        self.configured@
    }

    /// For each vertex, whether it said in its last turn that it has work.
    pub closed spec fn claims(&self) -> Seq<bool> {
        self.claims@
    }

    /// For each input, the messages sent to it and not consumed yet.
    pub closed spec fn messages(&self) -> Seq<Map<T, int>> {
        ledgers(self.messages@)
    }

    /// For each output, the capabilities that its vertex holds.
    pub closed spec fn capabilities(&self) -> Seq<Map<T, int>> {
        ledgers(self.capabilities@)
    }

    /// For each input, the frontier that its vertex was told last.
    pub closed spec fn told(&self) -> Seq<Set<T>> {
        fronts(self.told@)
    }

    /// The ways through the vertices.
    pub closed spec fn paths(&self) -> Seq<Path<T::Summary>> {
        self.paths@
    }

    /// The channels.
    pub closed spec fn links(&self) -> Seq<Link> {
        self.links@
    }

    /// The lists fit together: every vertex has its inputs and outputs
    /// among the places, and every path and channel names places that exist.
    pub closed spec fn wf(&self) -> bool {
        &&& self.input_base@.len() == self.vertices@.len()
        &&& self.output_base@.len() == self.vertices@.len()
        &&& self.configured@.len() == self.vertices@.len()
        &&& self.claims@.len() == self.vertices@.len()
        &&& self.told@.len() == self.messages@.len()
        &&& forall|v: int|
            0 <= v < self.vertices@.len() ==> (#[trigger] self.input_base@[v])
                + self.vertices@[v].input_count() <= self.messages@.len()
        &&& forall|v: int|
            0 <= v < self.vertices@.len() ==> (#[trigger] self.output_base@[v])
                + self.vertices@[v].output_count() <= self.capabilities@.len()
        &&& in_range(self.paths@, self.links@, self.messages@.len(), self.capabilities@.len())
    }

    /// No message is outstanding and no capability is held.
    pub open spec fn quiescent(&self) -> bool {
        all_empty(self.messages()) && all_empty(self.capabilities())
    }

    /// Every vertex has stored, for each of its inputs, the frontier that it
    /// was told last.
    pub open spec fn attuned(&self) -> bool {
        forall|v: int|
            0 <= v < self.vertices().len() ==> in_tune(
                #[trigger] self.vertices()[v],
                self.told(),
                self.input_base()[v] as int,
            )
    }

    /// Whether `source` and `target` name an output and an input of vertices
    /// of this graph.
    pub open spec fn connectable(&self, source: Source, target: Target) -> bool {
        &&& source.index < self.vertices().len()
        &&& source.port < self.vertices()[source.index as int].output_count()
        &&& target.index < self.vertices().len()
        &&& target.port < self.vertices()[target.index as int].input_count()
    }

    /// A graph without vertices.
    pub fn new() -> (root: Self)
        ensures
            root.wf(),
            root.attuned(),
            root.vertices().len() == 0,
            root.claims().len() == 0,
            root.configured().len() == 0,
            root.told().len() == 0,
            root.messages().len() == 0,
            root.capabilities().len() == 0,
            root.paths().len() == 0,
            root.links().len() == 0,
            root.quiescent(),
    {
        Root {
            vertices: Vec::new(),
            input_base: Vec::new(),
            output_base: Vec::new(),
            configured: Vec::new(),
            claims: Vec::new(),
            messages: Vec::new(),
            capabilities: Vec::new(),
            told: Vec::new(),
            paths: Vec::new(),
            links: Vec::new(),
        }
    }

    /// Whether no message is outstanding and no capability is held.
    pub fn is_quiescent(&self) -> (quiet: bool)
        ensures
            quiet == self.quiescent(),
    {
        let a = Self::none_held(&self.messages);
        let b = Self::none_held(&self.capabilities);
        a && b
    }

    /// Whether the ledgers are sound: whether no vertex has consumed more
    /// than was sent to it, or given up a capability that it did not hold.
    pub fn is_balanced(&self) -> (sound: bool)
        ensures
            sound == (never_negative(self.messages()) && never_negative(self.capabilities())),
    {
        let a = Self::none_negative(&self.messages);
        let b = Self::none_negative(&self.capabilities);
        a && b
    }

    fn none_negative(list: &Vec<CountMap<T>>) -> (none: bool)
        ensures
            none == never_negative(ledgers(list@)),
    {
        let mut g: usize = 0;
        while g < list.len()
            invariant
                g <= list@.len(),
                forall|h: int, t: T| 0 <= h < g ==> #[trigger] count(ledgers(list@)[h], t) >= 0,
            decreases list@.len() - g,
        {
            let entries = list[g].entries();
            let mut j: usize = 0;
            while j < entries.len()
                invariant
                    g < list@.len(),
                    j <= entries@.len(),
                    canonical(entries@),
                    as_map(entries@) == list@[g as int]@,
                    forall|i: int| 0 <= i < j ==> (#[trigger] entries@[i]).1 >= 0,
                decreases entries@.len() - j,
            {
                if entries[j].1 < 0 {
                    proof {
                        lemma_entry(entries@, j as int);
                        assert(count(ledgers(list@)[g as int], entries@[j as int].0) < 0);
                    }
                    return false;
                }
                j += 1;
            }
            proof {
                assert forall|t: T| #[trigger] count(ledgers(list@)[g as int], t) >= 0 by {
                    if list@[g as int]@.dom().contains(t) {
                        let i = place(entries@, t);
                        assert(entries@[i].0 == t);
                        lemma_entry(entries@, i);
                    }
                }
            }
            g += 1;
        }
        true
    }

    fn none_held(list: &Vec<CountMap<T>>) -> (none: bool)
        ensures
            none == all_empty(ledgers(list@)),
    {
        let mut i: usize = 0;
        while i < list.len()
            invariant
                i <= list@.len(),
                forall|j: int| 0 <= j < i ==> #[trigger] ledgers(list@)[j] == Map::<T, int>::empty(),
            decreases list@.len() - i,
        {
            if !list[i].is_empty() {
                assert(ledgers(list@)[i as int] != Map::<T, int>::empty());
                return false;
            }
            i += 1;
        }
        true
    }

    fn any_true(list: &Vec<bool>) -> (any: bool)
        ensures
            any == any_claim(list@),
    {
        let mut i: usize = 0;
        while i < list.len()
            invariant
                i <= list@.len(),
                forall|j: int| 0 <= j < i ==> !#[trigger] list@[j],
            decreases list@.len() - i,
        {
            if list[i] {
                return true;
            }
            i += 1;
        }
        false
    }
}

} // verus!

verus! {

fn extend_places<T: Timestamp>(
    messages: &mut Vec<CountMap<T>>,
    told: &mut Vec<Antichain<T>>,
    n: usize,
)
    requires
        old(told)@.len() == old(messages)@.len(),
    ensures
        final(messages)@.len() == old(messages)@.len() + n,
        final(told)@.len() == final(messages)@.len(),
        forall|g: int|
            0 <= g < old(messages)@.len() ==> #[trigger] final(messages)@[g] == old(messages)@[g],
        forall|g: int| 0 <= g < old(told)@.len() ==> #[trigger] final(told)@[g] == old(told)@[g],
        forall|g: int|
            old(messages)@.len() <= g < final(messages)@.len() ==> (#[trigger] final(messages)@[g])@ == Map::<T, int>::empty(),
        forall|g: int|
            old(told)@.len() <= g < final(told)@.len() ==> (#[trigger] final(told)@[g])@
                == Set::<T>::empty(),
{
    let mut i: usize = 0;
    while i < n
        invariant
            i <= n,
            old(told)@.len() == old(messages)@.len(),
            messages@.len() == old(messages)@.len() + i,
            told@.len() == messages@.len(),
            forall|g: int|
                0 <= g < old(messages)@.len() ==> #[trigger] messages@[g] == old(messages)@[g],
            forall|g: int| 0 <= g < old(told)@.len() ==> #[trigger] told@[g] == old(told)@[g],
            forall|g: int|
                old(messages)@.len() <= g < messages@.len() ==> (#[trigger] messages@[g])@
                    == Map::<T, int>::empty(),
            forall|g: int|
                old(told)@.len() <= g < told@.len() ==> (#[trigger] told@[g])@ == Set::<T>::empty(),
        decreases n - i,
    {
        messages.push(CountMap::new());
        told.push(Antichain::new());
        i += 1;
    }
}

fn adopt<T: Timestamp>(capabilities: &mut Vec<CountMap<T>>, internal: &mut Vec<CountMap<T>>)
    ensures
        final(capabilities)@.len() == old(capabilities)@.len() + old(internal)@.len(),
        final(internal)@.len() == old(internal)@.len(),
        forall|g: int|
            0 <= g < old(capabilities)@.len() ==> #[trigger] final(capabilities)@[g] == old(capabilities)@[g],
        forall|o: int|
            0 <= o < old(internal)@.len() ==> (#[trigger] final(capabilities)@[old(capabilities)@.len() + o])@ == plus(Map::<T, int>::empty(), old(internal)@[o]@),
{
    let mut o: usize = 0;
    while o < internal.len()
        invariant
            o <= internal@.len(),
            internal@.len() == old(internal)@.len(),
            capabilities@.len() == old(capabilities)@.len() + o,
            forall|g: int|
                0 <= g < old(capabilities)@.len() ==> #[trigger] capabilities@[g] == old(capabilities)@[g],
            forall|k: int|
                0 <= k < o ==> (#[trigger] capabilities@[old(capabilities)@.len() + k])@ == plus(
                    Map::<T, int>::empty(),
                    old(internal)@[k]@,
                ),
            forall|k: int| o <= k < internal@.len() ==> #[trigger] internal@[k] == old(internal)@[k],
        decreases internal@.len() - o,
    {
        let mut held: CountMap<T> = CountMap::new();
        internal[o].drain_into(&mut held);
        capabilities.push(held);
        o += 1;
    }
}

fn record_paths<T: Timestamp>(
    paths: &mut Vec<Path<T::Summary>>,
    summaries: &Vec<Vec<Antichain<T::Summary>>>,
    input_base: usize,
    output_base: usize,
    outputs: usize,
    places_in: usize,
    places_out: usize,
)
    requires
        input_base + summaries@.len() <= places_in,
        output_base + outputs <= places_out,
        forall|i: int| 0 <= i < summaries@.len() ==> (#[trigger] summaries@[i])@.len() == outputs,
        forall|p: int|
            0 <= p < old(paths)@.len() ==> (#[trigger] old(paths)@[p]).from < places_in && old(paths)@[p].to < places_out,
    ensures
        final(paths)@.len() >= old(paths)@.len(),
        final(paths)@.take(old(paths)@.len() as int) == old(paths)@,
        forall|p: int|
            0 <= p < final(paths)@.len() ==> (#[trigger] final(paths)@[p]).from < places_in
                && final(paths)@[p].to < places_out,
        recorded(
            final(paths)@,
            old(paths)@.len() as int,
            summary_sets(summaries@),
            input_base as int,
            output_base as int,
        ),
{
    let ghost start = paths@;
    let ghost first = paths@.len() as int;
    let mut i: usize = 0;
    assert(paths@.take(start.len() as int) =~= start);
    while i < summaries.len()
        invariant
            i <= summaries@.len(),
            first == start.len(),
            input_base + summaries@.len() <= places_in,
            output_base + outputs <= places_out,
            forall|i: int|
                0 <= i < summaries@.len() ==> (#[trigger] summaries@[i])@.len() == outputs,
            paths@.len() >= start.len(),
            paths@.take(start.len() as int) == start,
            forall|p: int|
                0 <= p < paths@.len() ==> (#[trigger] paths@[p]).from < places_in && paths@[p].to
                    < places_out,
            from_table(paths@, first, summaries@, input_base as int, output_base as int, outputs as int),
            forall|a: int, b: int, s: T::Summary|
                0 <= a < i && 0 <= b < outputs && #[trigger] summaries@[a]@[b]@.contains(s)
                    ==> has_path(paths@, first, input_base + a, s, output_base + b),
            apart(paths@, first),
            forall|p: int|
                first <= p < paths@.len() ==> before_place(
                    #[trigger] paths@[p],
                    input_base as int,
                    output_base as int,
                    i as int,
                    0,
                ),
        decreases summaries@.len() - i,
    {
        let mut o: usize = 0;
        while o < outputs
            invariant
                i < summaries@.len(),
                o <= outputs,
                first == start.len(),
                input_base + summaries@.len() <= places_in,
                output_base + outputs <= places_out,
                summaries@[i as int]@.len() == outputs,
                paths@.len() >= start.len(),
                paths@.take(start.len() as int) == start,
                forall|p: int|
                    0 <= p < paths@.len() ==> (#[trigger] paths@[p]).from < places_in
                        && paths@[p].to < places_out,
                from_table(
                    paths@,
                    first,
                    summaries@,
                    input_base as int,
                    output_base as int,
                    outputs as int,
                ),
                forall|a: int, b: int, s: T::Summary|
                    0 <= a < i && 0 <= b < outputs && #[trigger] summaries@[a]@[b]@.contains(s)
                        ==> has_path(paths@, first, input_base + a, s, output_base + b),
                forall|b: int, s: T::Summary|
                    0 <= b < o && #[trigger] summaries@[i as int]@[b]@.contains(s) ==> has_path(
                        paths@,
                        first,
                        input_base + i,
                        s,
                        output_base + b,
                    ),
                apart(paths@, first),
                forall|p: int|
                    first <= p < paths@.len() ==> before_place(
                        #[trigger] paths@[p],
                        input_base as int,
                        output_base as int,
                        i as int,
                        o as int,
                    ),
            decreases outputs - o,
        {
            let list = summaries[i][o].elements();
            let mut k: usize = 0;
            while k < list.len()
                invariant
                    i < summaries@.len(),
                    o < outputs,
                    k <= list@.len(),
                    first == start.len(),
                    input_base + summaries@.len() <= places_in,
                    output_base + outputs <= places_out,
                    summaries@[i as int]@.len() == outputs,
                    forall|t: T::Summary|
                        summaries@[i as int]@[o as int]@.contains(t) <==> list@.contains(t),
                    paths@.len() >= start.len(),
                    paths@.take(start.len() as int) == start,
                    forall|p: int|
                        0 <= p < paths@.len() ==> (#[trigger] paths@[p]).from < places_in
                            && paths@[p].to < places_out,
                    from_table(
                        paths@,
                        first,
                        summaries@,
                        input_base as int,
                        output_base as int,
                        outputs as int,
                    ),
                    forall|a: int, b: int, s: T::Summary|
                        0 <= a < i && 0 <= b < outputs && #[trigger] summaries@[a]@[b]@.contains(s)
                            ==> has_path(paths@, first, input_base + a, s, output_base + b),
                    forall|b: int, s: T::Summary|
                        0 <= b < o && #[trigger] summaries@[i as int]@[b]@.contains(s)
                            ==> has_path(paths@, first, input_base + i, s, output_base + b),
                    forall|j: int|
                        0 <= j < k ==> has_path(
                            paths@,
                            first,
                            input_base + i,
                            #[trigger] list@[j],
                            output_base + o,
                        ),
                    incomparable(list@),
                    apart(paths@, first),
                    forall|p: int|
                        first <= p < paths@.len() ==> before_place(
                            #[trigger] paths@[p],
                            input_base as int,
                            output_base as int,
                            i as int,
                            o as int,
                        ) || at_place(
                            paths@[p],
                            input_base as int,
                            output_base as int,
                            i as int,
                            o as int,
                            list@,
                            k as int,
                        ),
                decreases list@.len() - k,
            {
                let ghost before = paths@;
                let path = Path { from: input_base + i, summary: list[k], to: output_base + o };
                paths.push(path);
                proof {
                    assert(paths@.take(start.len() as int) =~= before.take(start.len() as int));
                    assert(list@.contains(list@[k as int]));
                    assert forall|a: int, b: int, s: T::Summary|
                        0 <= a < i && 0 <= b < outputs && #[trigger] summaries@[a]@[b]@.contains(
                            s,
                        ) implies has_path(paths@, first, input_base + a, s, output_base + b) by {
                        lemma_has_path_push(before, first, path, input_base + a, s, output_base + b);
                    }
                    assert forall|b: int, s: T::Summary|
                        0 <= b < o && #[trigger] summaries@[i as int]@[b]@.contains(
                            s,
                        ) implies has_path(paths@, first, input_base + i, s, output_base + b) by {
                        lemma_has_path_push(before, first, path, input_base + i, s, output_base + b);
                    }
                    assert forall|j: int| 0 <= j < k + 1 implies has_path(
                        paths@,
                        first,
                        input_base + i,
                        #[trigger] list@[j],
                        output_base + o,
                    ) by {
                        if j < k {
                            lemma_has_path_push(
                                before,
                                first,
                                path,
                                input_base + i,
                                list@[j],
                                output_base + o,
                            );
                        } else {
                            assert(paths@[before.len() as int] == path);
                        }
                    }
                    assert forall|p: int| first <= p < paths@.len() implies comes_from(
                        #[trigger] paths@[p],
                        summaries@,
                        input_base as int,
                        output_base as int,
                        outputs as int,
                    ) by {
                        if p < before.len() {
                            assert(paths@[p] == before[p]);
                        }
                    }
                    assert forall|p: int| first <= p < paths@.len() implies before_place(
                        #[trigger] paths@[p],
                        input_base as int,
                        output_base as int,
                        i as int,
                        o as int,
                    ) || at_place(
                        paths@[p],
                        input_base as int,
                        output_base as int,
                        i as int,
                        o as int,
                        list@,
                        k + 1,
                    ) by {
                        if p < before.len() {
                            assert(paths@[p] == before[p]);
                            if at_place(
                                before[p],
                                input_base as int,
                                output_base as int,
                                i as int,
                                o as int,
                                list@,
                                k as int,
                            ) {
                                let j = choose|j: int|
                                    0 <= j < k && #[trigger] list@[j] == before[p].summary;
                                assert(0 <= j < k + 1 && list@[j] == paths@[p].summary);
                            }
                        } else {
                            assert(list@[k as int] == paths@[p].summary);
                        }
                    }
                    assert forall|p: int, q: int|
                        0 <= p && first <= p < paths@.len() && 0 <= q && first <= q < paths@.len()
                            && p != q implies (#[trigger] paths@[p]) != (#[trigger] paths@[q]) by {
                        if p < before.len() && q < before.len() {
                            assert(paths@[p] == before[p] && paths@[q] == before[q]);
                        } else {
                            let r = if p < before.len() { p } else { q };
                            assert(paths@[r] == before[r]);
                            if at_place(
                                before[r],
                                input_base as int,
                                output_base as int,
                                i as int,
                                o as int,
                                list@,
                                k as int,
                            ) {
                                let j = choose|j: int|
                                    0 <= j < k && #[trigger] list@[j] == before[r].summary;
                                <T::Summary as PartialOrder>::reflexive(list@[j]);
                                assert(!list@[j].precedes(list@[k as int]));
                            }
                        }
                    }
                }
                k += 1;
            }
            proof {
                assert forall|b: int, s: T::Summary|
                    0 <= b < o + 1 && #[trigger] summaries@[i as int]@[b]@.contains(
                        s,
                    ) implies has_path(paths@, first, input_base + i, s, output_base + b) by {
                    if b == o {
                        let j = choose|j: int| 0 <= j < list@.len() && list@[j] == s;
                        assert(has_path(paths@, first, input_base + i, list@[j], output_base + o));
                    }
                }
            }
            o += 1;
        }
        i += 1;
    }
    proof {
        let table = summary_sets(summaries@);
        assert forall|p: int| first <= p < paths@.len() implies {
            &&& input_base <= (#[trigger] paths@[p]).from < input_base + table.len()
            &&& output_base <= paths@[p].to < output_base + table[paths@[p].from
                - input_base].len()
            &&& table[paths@[p].from - input_base][paths@[p].to - output_base].contains(
                paths@[p].summary,
            )
        } by {
            assert(comes_from(
                paths@[p],
                summaries@,
                input_base as int,
                output_base as int,
                outputs as int,
            ));
        }
        assert forall|a: int, b: int, s: T::Summary|
            0 <= a < table.len() && 0 <= b < table[a].len() && #[trigger] table[a][b].contains(
                s,
            ) implies has_path(paths@, first, input_base + a, s, output_base + b) by {
            assert(summaries@[a]@[b]@.contains(s));
        }
    }
}

fn credit<T: Timestamp>(ledger: &mut Vec<CountMap<T>>, base: usize, deltas: &Vec<CountMap<T>>)
    requires
        base + deltas@.len() <= old(ledger)@.len(),
    ensures
        final(ledger)@.len() == old(ledger)@.len(),
        ledgers(final(ledger)@) == credited(ledgers(old(ledger)@), base as int, ledgers(deltas@)),
{
    let size = ledger.len();
    let mut i: usize = 0;
    while i < deltas.len()
        invariant
            i <= deltas@.len(),
            size == ledger@.len(),
            base + deltas@.len() <= ledger@.len(),
            ledger@.len() == old(ledger)@.len(),
            forall|g: int|
                0 <= g < ledger@.len() ==> (#[trigger] ledger@[g])@ == if base <= g < base + i {
                    plus(old(ledger)@[g]@, deltas@[g - base]@)
                } else {
                    old(ledger)@[g]@
                },
        decreases deltas@.len() - i,
    {
        ledger[base + i].absorb(&deltas[i]);
        i += 1;
    }
    assert(ledgers(ledger@) =~= credited(ledgers(old(ledger)@), base as int, ledgers(deltas@)));
}

fn deliver<T: Timestamp>(
    messages: &mut Vec<CountMap<T>>,
    links: &Vec<Link>,
    base: usize,
    produced: &Vec<CountMap<T>>,
)
    requires
        forall|e: int| 0 <= e < links@.len() ==> (#[trigger] links@[e]).to < old(messages)@.len(),
    ensures
        final(messages)@.len() == old(messages)@.len(),
        ledgers(final(messages)@) == delivered(
            ledgers(old(messages)@),
            links@,
            base as int,
            ledgers(produced@),
        ),
{
    let mut e: usize = 0;
    assert(links@.take(0) =~= Seq::<Link>::empty());
    while e < links.len()
        invariant
            e <= links@.len(),
            messages@.len() == old(messages)@.len(),
            forall|q: int| 0 <= q < links@.len() ==> (#[trigger] links@[q]).to < messages@.len(),
            ledgers(messages@) == delivered(
                ledgers(old(messages)@),
                links@.take(e as int),
                base as int,
                ledgers(produced@),
            ),
        decreases links@.len() - e,
    {
        let from = links[e].from;
        let to = links[e].to;
        let ghost before = ledgers(messages@);
        proof {
            assert(links@.take(e + 1).drop_last() =~= links@.take(e as int));
            assert(links@.take(e + 1).last() == links@[e as int]);
        }
        if base <= from && from - base < produced.len() {
            messages[to].absorb(&produced[from - base]);
            assert(ledgers(messages@) =~= before.update(
                to as int,
                plus(before[to as int], ledgers(produced@)[from - base]),
            ));
        }
        e += 1;
    }
    assert(links@.take(links@.len() as int) =~= links@);
}

fn starting<S: Timestamp>(links: &Vec<Link>, source: usize, unit: &S, inputs: usize) -> (list: Vec<
    CountMap<S>,
>)
    ensures
        list@.len() == inputs,
        ledgers(list@) == starts(links@, source as int, *unit, inputs as nat),
{
    let mut list: Vec<CountMap<S>> = empty_ledgers(inputs);
    let mut e: usize = 0;
    proof {
        assert(links@.take(0) =~= Seq::<Link>::empty());
        assert(ledgers(list@) =~= starts(links@.take(0), source as int, *unit, inputs as nat));
    }
    while e < links.len()
        invariant
            e <= links@.len(),
            list@.len() == inputs,
            ledgers(list@) == starts(links@.take(e as int), source as int, *unit, inputs as nat),
        decreases links@.len() - e,
    {
        let ghost before = ledgers(list@);
        proof {
            assert(links@.take(e + 1).drop_last() =~= links@.take(e as int));
            assert(links@.take(e + 1).last() == links@[e as int]);
        }
        if links[e].from == source && links[e].to < inputs {
            let to = links[e].to;
            list[to].update(unit, 1);
            assert(ledgers(list@) =~= before.update(to as int, bump(before[to as int], *unit, 1)));
        }
        e += 1;
    }
    proof {
        assert(links@.take(links@.len() as int) =~= links@);
    }
    list
}

fn deltas<T: Timestamp>(
    told: &Vec<Antichain<T>>,
    front: &Vec<Antichain<T>>,
    base: usize,
    n: usize,
) -> (list: Vec<CountMap<T>>)
    requires
        base + n <= told@.len(),
        front@.len() == told@.len(),
    ensures
        list@.len() == n,
        forall|i: int|
            0 <= i < n ==> (#[trigger] list@[i])@ == change(told@[base + i]@, front@[base + i]@),
{
    let mut list: Vec<CountMap<T>> = Vec::new();
    let size = told.len();
    let mut i: usize = 0;
    while i < n
        invariant
            i <= n,
            size == told@.len(),
            base + n <= told@.len(),
            front@.len() == told@.len(),
            list@.len() == i,
            forall|k: int|
                0 <= k < i ==> (#[trigger] list@[k])@ == change(told@[base + k]@, front@[base + k]@),
        decreases n - i,
    {
        list.push(difference(&told[base + i], &front[base + i]));
        i += 1;
    }
    list
}

impl<T: Timestamp, V: Operate<T>> Root<T, V> {
    /// Adds a vertex and returns its number. The vertex is asked for its
    /// paths and for the capabilities that it holds from the start; it gets
    /// a ledger and a frontier for each input and a ledger for each output.
    pub fn add_operator(&mut self, vertex: V) -> (index: usize)
        requires
            old(self).wf(),
            forall|i: int| stored(vertex.frontier(), i) == Map::<T, int>::empty(),
        ensures
            final(self).wf(),
            old(self).attuned() ==> final(self).attuned(),
            final(self).told().len() == final(self).messages().len(),
            forall|g: int|
                0 <= g < final(self).told().len() ==> #[trigger] final(self).told()[g] == if g
                    < old(self).told().len() {
                    old(self).told()[g]
                } else {
                    Set::<T>::empty()
                },
            final(self).vertices()[index as int].frontier() == vertex.frontier(),
            index == old(self).vertices().len(),
            final(self).vertices().len() == old(self).vertices().len() + 1,
            forall|v: int|
                0 <= v < index ==> #[trigger] final(self).vertices()[v] == old(self).vertices()[v],
            final(self).vertices()[index as int].input_count() == vertex.input_count(),
            final(self).vertices()[index as int].output_count() == vertex.output_count(),
            final(self).input_base() == old(self).input_base().push(
                old(self).messages().len() as usize,
            ),
            final(self).output_base() == old(self).output_base().push(
                old(self).capabilities().len() as usize,
            ),
            final(self).configured() == old(self).configured().push(false),
            final(self).claims() == old(self).claims().push(false),
            final(self).messages().len() == old(self).messages().len() + vertex.input_count(),
            final(self).capabilities().len() == old(self).capabilities().len()
                + vertex.output_count(),
            forall|g: int|
                0 <= g < final(self).messages().len() ==> #[trigger] final(self).messages()[g]
                    == if g < old(self).messages().len() {
                    old(self).messages()[g]
                } else {
                    Map::<T, int>::empty()
                },
            forall|g: int|
                0 <= g < old(self).capabilities().len() ==> #[trigger] final(self).capabilities()[g] == old(self).capabilities()[g],
            final(self).links() == old(self).links(),
            final(self).paths().len() >= old(self).paths().len(),
            final(self).paths().take(old(self).paths().len() as int) == old(self).paths(),
    {
        let mut vertex = vertex;
        let (summaries, internal) = vertex.get_internal_summary();
        self.take_in(vertex, summaries, internal)
    }

    /// Takes in a vertex that has answered for its paths and its first
    /// capabilities. It gets a ledger and a frontier for each input, and for
    /// each output a ledger that holds the capabilities of `internal`; for
    /// every summary in `summaries` one path is recorded, from the input to
    /// the output of the vertex that the summary stands between.
    pub fn take_in(
        &mut self,
        vertex: V,
        summaries: Vec<Vec<Antichain<T::Summary>>>,
        internal: Vec<CountMap<T>>,
    ) -> (index: usize)
        requires
            old(self).wf(),
            forall|i: int| stored(vertex.frontier(), i) == Map::<T, int>::empty(),
            summaries@.len() == vertex.input_count(),
            forall|i: int|
                0 <= i < summaries@.len() ==> (#[trigger] summaries@[i])@.len()
                    == vertex.output_count(),
            internal@.len() == vertex.output_count(),
        ensures
            final(self).wf(),
            old(self).attuned() ==> final(self).attuned(),
            final(self).told().len() == final(self).messages().len(),
            forall|g: int|
                0 <= g < final(self).told().len() ==> #[trigger] final(self).told()[g] == if g
                    < old(self).told().len() {
                    old(self).told()[g]
                } else {
                    Set::<T>::empty()
                },
            final(self).vertices()[index as int].frontier() == vertex.frontier(),
            index == old(self).vertices().len(),
            final(self).vertices().len() == old(self).vertices().len() + 1,
            forall|v: int|
                0 <= v < index ==> #[trigger] final(self).vertices()[v] == old(self).vertices()[v],
            final(self).vertices()[index as int].input_count() == vertex.input_count(),
            final(self).vertices()[index as int].output_count() == vertex.output_count(),
            final(self).input_base() == old(self).input_base().push(
                old(self).messages().len() as usize,
            ),
            final(self).output_base() == old(self).output_base().push(
                old(self).capabilities().len() as usize,
            ),
            final(self).configured() == old(self).configured().push(false),
            final(self).claims() == old(self).claims().push(false),
            final(self).messages().len() == old(self).messages().len() + vertex.input_count(),
            final(self).capabilities().len() == old(self).capabilities().len()
                + vertex.output_count(),
            forall|g: int|
                0 <= g < final(self).messages().len() ==> #[trigger] final(self).messages()[g]
                    == if g < old(self).messages().len() {
                    old(self).messages()[g]
                } else {
                    Map::<T, int>::empty()
                },
            forall|g: int|
                0 <= g < old(self).capabilities().len() ==> #[trigger] final(self).capabilities()[g] == old(self).capabilities()[g],
            final(self).links() == old(self).links(),
            final(self).paths().len() >= old(self).paths().len(),
            final(self).paths().take(old(self).paths().len() as int) == old(self).paths(),
            final(self).vertices()[index as int] == vertex,
            forall|o: int|
                0 <= o < internal@.len() ==> #[trigger] final(self).capabilities()[old(
                    self,
                ).capabilities().len() + o] == plus(Map::<T, int>::empty(), internal@[o]@),
            recorded(
                final(self).paths(),
                old(self).paths().len() as int,
                summary_sets(summaries@),
                old(self).messages().len() as int,
                old(self).capabilities().len() as int,
            ),
    {
        let mut internal = internal;
        let inputs = vertex.inputs();
        let outputs = vertex.outputs();
        let input_base = self.messages.len();
        let output_base = self.capabilities.len();
        extend_places(&mut self.messages, &mut self.told, inputs);
        adopt(&mut self.capabilities, &mut internal);
        record_paths::<T>(
            &mut self.paths,
            &summaries,
            input_base,
            output_base,
            outputs,
            self.messages.len(),
            self.capabilities.len(),
        );
        let index = self.vertices.len();
        self.vertices.push(vertex);
        self.input_base.push(input_base);
        self.output_base.push(output_base);
        self.configured.push(false);
        self.claims.push(false);
        proof {
            assert(ones(Set::<T>::empty()) =~= Map::<T, int>::empty());
            if old(self).attuned() {
                assert forall|v: int| 0 <= v < self.vertices().len() implies in_tune(
                    #[trigger] self.vertices()[v],
                    self.told(),
                    self.input_base()[v] as int,
                ) by {
                    if v < index {
                        assert(self.vertices()[v] == old(self).vertices()[v]);
                        assert(in_tune(
                            old(self).vertices()[v],
                            old(self).told(),
                            old(self).input_base()[v] as int,
                        ));
                    }
                }
            }
        }
        index
    }

    /// Adds a channel from `source` to `target`, where both exist. Says
    /// whether it did.
    pub fn add_edge(&mut self, source: Source, target: Target) -> (added: bool)
        requires
            old(self).wf(),
        ensures
            final(self).wf(),
            added == old(self).connectable(source, target),
            final(self).links() == if added {
                old(self).links().push(
                    (Link {
                        from: (old(self).output_base()[source.index as int] + source.port) as usize,
                        to: (old(self).input_base()[target.index as int] + target.port) as usize,
                    }),
                )
            } else {
                old(self).links()
            },
            final(self).vertices() == old(self).vertices(),
            final(self).input_base() == old(self).input_base(),
            final(self).output_base() == old(self).output_base(),
            final(self).configured() == old(self).configured(),
            final(self).claims() == old(self).claims(),
            final(self).messages() == old(self).messages(),
            final(self).capabilities() == old(self).capabilities(),
            final(self).told() == old(self).told(),
            final(self).paths() == old(self).paths(),
    {
        if source.index < self.vertices.len() && target.index < self.vertices.len() {
            if source.port < self.vertices[source.index].outputs() && target.port
                < self.vertices[target.index].inputs() {
                proof {
                    assert(self.messages.len() <= usize::MAX);
                    assert(self.capabilities.len() <= usize::MAX);
                }
                let from = self.output_base[source.index] + source.port;
                let to = self.input_base[target.index] + target.port;
                self.links.push(Link { from, to });
                return true;
            }
        }
        false
    }

    /// Takes what the vertex `index` reported into the ledgers: what it
    /// consumed at its inputs, how its capabilities changed, and what it
    /// produced, which is added at the end of every channel from the output
    /// that produced it.
    pub fn account(
        &mut self,
        index: usize,
        consumed: &Vec<CountMap<T>>,
        internal: &Vec<CountMap<T>>,
        produced: &Vec<CountMap<T>>,
    )
        requires
            old(self).wf(),
            index < old(self).vertices().len(),
            consumed@.len() == old(self).vertices()[index as int].input_count(),
            internal@.len() == old(self).vertices()[index as int].output_count(),
            produced@.len() == old(self).vertices()[index as int].output_count(),
        ensures
            final(self).wf(),
            final(self).messages() == delivered(
                credited(
                    old(self).messages(),
                    old(self).input_base()[index as int] as int,
                    ledgers(consumed@),
                ),
                old(self).links(),
                old(self).output_base()[index as int] as int,
                ledgers(produced@),
            ),
            final(self).capabilities() == credited(
                old(self).capabilities(),
                old(self).output_base()[index as int] as int,
                ledgers(internal@),
            ),
            final(self).messages().len() == old(self).messages().len(),
            final(self).capabilities().len() == old(self).capabilities().len(),
            final(self).vertices() == old(self).vertices(),
            final(self).input_base() == old(self).input_base(),
            final(self).output_base() == old(self).output_base(),
            final(self).configured() == old(self).configured(),
            final(self).claims() == old(self).claims(),
            final(self).told() == old(self).told(),
            final(self).paths() == old(self).paths(),
            final(self).links() == old(self).links(),
    {
        let input_base = self.input_base[index];
        let output_base = self.output_base[index];
        credit(&mut self.messages, input_base, consumed);
        credit(&mut self.capabilities, output_base, internal);
        deliver(&mut self.messages, &self.links, output_base, produced);
    }

    /// The frontiers of all inputs and of all outputs that follow from the
    /// ledgers as they stand. They leave nothing out, and every member is
    /// what a way through the graph makes of something outstanding; in a
    /// graph at rest they have no members. The answer says that they were
    /// found, which they always are.
    pub fn reachable(&self) -> (found: (Vec<Antichain<T>>, Vec<Antichain<T>>, bool))
        requires
            self.wf(),
        ensures
            found.0@.len() == self.messages().len(),
            found.1@.len() == self.capabilities().len(),
            found.2 ==> covers(
                fronts(found.0@),
                fronts(found.1@),
                self.messages(),
                self.capabilities(),
                self.paths(),
                self.links(),
            ),
            found.2 ==> grounded(
                fronts(found.0@),
                fronts(found.1@),
                self.messages(),
                self.capabilities(),
                self.paths(),
                self.links(),
            ),
            found.2,
            rooted(
                fronts(found.0@),
                fronts(found.1@),
                self.messages(),
                self.capabilities(),
                self.paths(),
                self.links(),
            ),
            self.quiescent() ==> all_closed(fronts(found.0@)) && all_closed(fronts(found.1@)),
    {
        settle(&self.messages, &self.capabilities, &self.paths, &self.links)
    }
}

} // verus!

verus! {

impl<T: Timestamp, V: Operate<T>> Root<T, V> where
    T::Summary: Timestamp<Summary = T::Summary> + PathSummary<T::Summary>,
 {
    /// The summaries `ways` are the frontier of the input `target` when a
    /// message with a mark that changes no time starts at the end of every
    /// channel from the output `source`.
    pub open spec fn comes_back(
        &self,
        source: int,
        target: int,
        ways: Set<T::Summary>,
    ) -> bool {
        exists|unit: T::Summary, front: Seq<Set<T::Summary>>, out: Seq<Set<T::Summary>>|
            is_unit::<T>(unit) && #[trigger] covers(
                front,
                out,
                starts(self.links(), source, unit, self.messages().len()),
                nothing(self.capabilities().len()),
                self.paths(),
                self.links(),
            ) && grounded(
                front,
                out,
                starts(self.links(), source, unit, self.messages().len()),
                nothing(self.capabilities().len()),
                self.paths(),
                self.links(),
            ) && 0 <= target < front.len() && ways == front[target]
    }

    /// The summaries of the ways that lead from the output numbered `source`
    /// to every input and back to every output, and whether they were found.
    /// A summary acts on the summary of the way so far as it acts on a time;
    /// the way starts with `unit` at the end of every channel from the
    /// output.
    pub fn ways(&self, source: usize, unit: &T::Summary) -> (found: (
        Vec<Antichain<T::Summary>>,
        Vec<Antichain<T::Summary>>,
        bool,
    ))
        requires
            self.wf(),
        ensures
            found.0@.len() == self.messages().len(),
            found.1@.len() == self.capabilities().len(),
            found.2 ==> covers(
                fronts(found.0@),
                fronts(found.1@),
                starts(self.links(), source as int, *unit, self.messages().len()),
                nothing(self.capabilities().len()),
                self.paths(),
                self.links(),
            ),
            found.2 ==> grounded(
                fronts(found.0@),
                fronts(found.1@),
                starts(self.links(), source as int, *unit, self.messages().len()),
                nothing(self.capabilities().len()),
                self.paths(),
                self.links(),
            ),
            found.2,
    {
        let seeds = starting(&self.links, source, unit, self.messages.len());
        let none: Vec<CountMap<T::Summary>> = empty_ledgers(self.capabilities.len());
        assert(ledgers(none@) =~= nothing(self.capabilities().len()));
        settle(&seeds, &none, &self.paths, &self.links)
    }

    /// For each output and each input of the vertex `index`, the summaries
    /// of the ways outside the vertex that lead from the output back to the
    /// input.
    pub fn external_summaries(&self, index: usize) -> (summaries: Vec<Vec<Antichain<T::Summary>>>)
        requires
            self.wf(),
            index < self.vertices().len(),
        ensures
            summaries@.len() == self.vertices()[index as int].output_count(),
            forall|o: int|
                0 <= o < summaries@.len() ==> (#[trigger] summaries@[o])@.len()
                    == self.vertices()[index as int].input_count(),
            forall|o: int, i: int|
                0 <= o < summaries@.len() && 0 <= i < summaries@[o]@.len()
                    ==> self.comes_back(
                    self.output_base()[index as int] + o,
                    self.input_base()[index as int] + i,
                    #[trigger] summaries@[o]@[i]@,
                ),
    {
        let inputs = self.vertices[index].inputs();
        let outputs = self.vertices[index].outputs();
        let input_base = self.input_base[index];
        let output_base = self.output_base[index];
        let places_in = self.messages.len();
        let places_out = self.capabilities.len();
        let unit = <T::Summary as PathSummary<T>>::identity();
        let mut summaries: Vec<Vec<Antichain<T::Summary>>> = Vec::new();
        let mut o: usize = 0;
        while o < outputs
            invariant
                self.wf(),
                index < self.vertices@.len(),
                inputs == self.vertices@[index as int].input_count(),
                outputs == self.vertices@[index as int].output_count(),
                input_base == self.input_base@[index as int],
                output_base == self.output_base@[index as int],
                input_base + inputs <= places_in,
                output_base + outputs <= places_out,
                places_in == self.messages@.len(),
                places_out == self.capabilities@.len(),
                is_unit::<T>(unit),
                o <= outputs,
                summaries@.len() == o,
                forall|k: int| 0 <= k < o ==> (#[trigger] summaries@[k])@.len() == inputs,
                forall|k: int, i: int|
                    0 <= k < o && 0 <= i < inputs ==> self.comes_back(
                        output_base + k,
                        input_base + i,
                        #[trigger] summaries@[k]@[i]@,
                    ),
            decreases outputs - o,
        {
            let (front, out, _) = self.ways(output_base + o, &unit);
            let mut row: Vec<Antichain<T::Summary>> = Vec::new();
            let mut i: usize = 0;
            while i < inputs
                invariant
                    self.wf(),
                    input_base + inputs <= places_in,
                    places_in == self.messages@.len(),
                    front@.len() == places_in,
                    is_unit::<T>(unit),
                    i <= inputs,
                    row@.len() == i,
                    covers(
                        fronts(front@),
                        fronts(out@),
                        starts(self.links(), output_base + o, unit, self.messages().len()),
                        nothing(self.capabilities().len()),
                        self.paths(),
                        self.links(),
                    ) && grounded(
                        fronts(front@),
                        fronts(out@),
                        starts(self.links(), output_base + o, unit, self.messages().len()),
                        nothing(self.capabilities().len()),
                        self.paths(),
                        self.links(),
                    ),
                    forall|k: int|
                        0 <= k < i ==> self.comes_back(
                            output_base + o,
                            input_base + k,
                            #[trigger] row@[k]@,
                        ),
                decreases inputs - i,
            {
                let ways = front[input_base + i].duplicate();
                proof {
                    assert(ways@ == fronts(front@)[input_base + i]);
                    assert(self.comes_back(output_base + o, input_base + i, ways@));
                }
                row.push(ways);
                i += 1;
            }
            summaries.push(row);
            o += 1;
        }
        summaries
    }

    fn drive(&mut self, index: usize, front: &Vec<Antichain<T>>)
        requires
            old(self).wf(),
            index < old(self).vertices().len(),
            front@.len() == old(self).messages().len(),
            in_tune(
                old(self).vertices()[index as int],
                old(self).told(),
                old(self).input_base()[index as int] as int,
            ),
        ensures
            final(self).wf(),
            in_tune(
                final(self).vertices()[index as int],
                fronts(front@),
                old(self).input_base()[index as int] as int,
            ),
            final(self).vertices().len() == old(self).vertices().len(),
            final(self).input_base() == old(self).input_base(),
            final(self).output_base() == old(self).output_base(),
            final(self).messages().len() == old(self).messages().len(),
            final(self).capabilities().len() == old(self).capabilities().len(),
            final(self).told() == old(self).told(),
            final(self).paths() == old(self).paths(),
            final(self).links() == old(self).links(),
            final(self).claims().len() == old(self).claims().len(),
            final(self).configured() == old(self).configured().update(index as int, true),
            forall|u: int|
                0 <= u < final(self).vertices().len() && u != index ==> #[trigger] final(self).vertices()[u] == old(self).vertices()[u] && final(self).claims()[u] == old(self).claims()[u],
            driven(
                old(self).vertices()[index as int],
                final(self).vertices()[index as int],
                handed(
                    old(self).told(),
                    fronts(front@),
                    old(self).input_base()[index as int] as int,
                    old(self).vertices()[index as int].input_count() as int,
                ),
                final(self).claims()[index as int],
            ),
            final(self).messages() == delivered(
                credited(
                    old(self).messages(),
                    old(self).input_base()[index as int] as int,
                    final(self).vertices()[index as int].rounds().last().consumed_after,
                ),
                old(self).links(),
                old(self).output_base()[index as int] as int,
                final(self).vertices()[index as int].rounds().last().produced_after,
            ),
            final(self).capabilities() == credited(
                old(self).capabilities(),
                old(self).output_base()[index as int] as int,
                final(self).vertices()[index as int].rounds().last().internal_after,
            ),
    {
        let inputs = self.vertices[index].inputs();
        let outputs = self.vertices[index].outputs();
        let base = self.input_base[index];
        let mut external = deltas(&self.told, front, base, inputs);
        proof {
            let now = fronts(front@);
            assert(ledgers(external@) =~= handed(self.told(), now, base as int, inputs as int));
            let stand = self.vertices@[index as int].frontier();
            assert forall|k: int, t: T|
                0 <= k < ledgers(external@).len() implies count(stored(stand, k), t)
                + #[trigger] count(ledgers(external@)[k], t) >= 0 by {
                lemma_retune(self.told()[base + k], now[base + k]);
                assert(stored(stand, k) == ones(self.told()[base + k]));
            }
            assert forall|k: int| 0 <= k < inputs implies #[trigger] stored(
                applied(stand, ledgers(external@)),
                k,
            ) == ones(now[base + k]) by {
                lemma_retune(self.told()[base + k], now[base + k]);
                assert(stored(stand, k) == ones(self.told()[base + k]));
            }
        }
        if self.configured[index] {
            self.vertices[index].push_external_progress(external.as_mut_slice());
        } else {
            let summaries = self.external_summaries(index);
            self.vertices[index].set_external_summary(summaries, external.as_mut_slice());
            self.configured[index] = true;
        }
        let mut consumed: Vec<CountMap<T>> = empty_ledgers(inputs);
        let mut internal: Vec<CountMap<T>> = empty_ledgers(outputs);
        let mut produced: Vec<CountMap<T>> = empty_ledgers(outputs);
        proof {
            assert(ledgers(consumed@) =~= nothing::<T>(inputs as nat));
            assert(ledgers(internal@) =~= nothing::<T>(outputs as nat));
            assert(ledgers(produced@) =~= nothing::<T>(outputs as nat));
        }
        let ghost rounds_before = self.vertices@[index as int].rounds();
        let claim = self.vertices[index].pull_internal_progress(
            consumed.as_mut_slice(),
            internal.as_mut_slice(),
            produced.as_mut_slice(),
        );
        self.claims[index] = claim;
        proof {
            assert(self.configured@ =~= old(self).configured@.update(index as int, true));
            let after = self.vertices@[index as int].rounds();
            assert(after.drop_last() =~= rounds_before);
        }
        self.account(index, &consumed, &internal, &produced);
    }

    /// One round. The frontiers that follow from the ledgers are worked out
    /// first. Then every vertex, in the order in which the vertices were
    /// added, is told how the frontiers of its inputs changed, works once,
    /// and has its report taken into the ledgers. Returns whether anything
    /// is left to do: whether a vertex said that it has work, or a message
    /// is outstanding, or a capability is held.
    pub fn step(&mut self) -> (active: bool)
        requires
            old(self).wf(),
            old(self).attuned(),
        ensures
            final(self).wf(),
            final(self).attuned(),
            active == (any_claim(final(self).claims()) || !final(self).quiescent()),
            old(self).quiescent() ==> all_closed(final(self).told()),
            exists|out: Seq<Set<T>>|
                covers(
                    final(self).told(),
                    out,
                    old(self).messages(),
                    old(self).capabilities(),
                    old(self).paths(),
                    old(self).links(),
                ) && grounded(
                    final(self).told(),
                    out,
                    old(self).messages(),
                    old(self).capabilities(),
                    old(self).paths(),
                    old(self).links(),
                ),
            forall|v: int|
                0 <= v < final(self).configured().len() ==> #[trigger] final(self).configured()[v],
            final(self).vertices().len() == old(self).vertices().len(),
            final(self).claims().len() == old(self).claims().len(),
            final(self).configured().len() == old(self).configured().len(),
            final(self).input_base() == old(self).input_base(),
            final(self).output_base() == old(self).output_base(),
            final(self).messages().len() == old(self).messages().len(),
            final(self).capabilities().len() == old(self).capabilities().len(),
            final(self).paths() == old(self).paths(),
            final(self).links() == old(self).links(),
            forall|v: int|
                0 <= v < final(self).vertices().len() ==> driven(
                    old(self).vertices()[v],
                    #[trigger] final(self).vertices()[v],
                    handed(
                        old(self).told(),
                        final(self).told(),
                        old(self).input_base()[v] as int,
                        old(self).vertices()[v].input_count() as int,
                    ),
                    final(self).claims()[v],
                ),
            (final(self).messages(), final(self).capabilities()) == accounted(
                old(self).messages(),
                old(self).capabilities(),
                old(self).links(),
                old(self).input_base(),
                old(self).output_base(),
                last_rounds(final(self).vertices(), final(self).vertices().len() as int),
            ),
    {
        let (front, out, _) = self.reachable();
        let ghost now = fronts(front@);
        assert(last_rounds(self.vertices@, 0) =~= Seq::<Round<T>>::empty());
        let n = self.vertices.len();
        let mut v: usize = 0;
        while v < n
            invariant
                v <= n,
                self.wf(),
                n == self.vertices@.len(),
                front@.len() == self.messages@.len(),
                self.vertices().len() == old(self).vertices().len(),
                self.input_base() == old(self).input_base(),
                self.output_base() == old(self).output_base(),
                self.messages().len() == old(self).messages().len(),
                self.capabilities().len() == old(self).capabilities().len(),
                self.told() == old(self).told(),
                self.paths() == old(self).paths(),
                self.links() == old(self).links(),
                self.configured@.len() == n,
                self.claims@.len() == n,
                covers(
                    fronts(front@),
                    fronts(out@),
                    old(self).messages(),
                    old(self).capabilities(),
                    old(self).paths(),
                    old(self).links(),
                ) && grounded(
                    fronts(front@),
                    fronts(out@),
                    old(self).messages(),
                    old(self).capabilities(),
                    old(self).paths(),
                    old(self).links(),
                ),
                forall|u: int| 0 <= u < v ==> #[trigger] self.configured@[u],
                now == fronts(front@),
                forall|u: int| v <= u < n ==> #[trigger] self.vertices@[u] == old(self).vertices@[u],
                old(self).attuned(),
                forall|u: int|
                    0 <= u < v ==> in_tune(
                        #[trigger] self.vertices@[u],
                        now,
                        old(self).input_base@[u] as int,
                    ),
                forall|u: int|
                    0 <= u < v ==> driven(
                        old(self).vertices@[u],
                        #[trigger] self.vertices@[u],
                        handed(
                            old(self).told(),
                            now,
                            old(self).input_base@[u] as int,
                            old(self).vertices@[u].input_count() as int,
                        ),
                        self.claims@[u],
                    ),
                (self.messages(), self.capabilities()) == accounted(
                    old(self).messages(),
                    old(self).capabilities(),
                    old(self).links(),
                    old(self).input_base(),
                    old(self).output_base(),
                    last_rounds(self.vertices@, v as int),
                ),
            decreases n - v,
        {
            let ghost before = self.vertices@;
            proof {
                assert(self.vertices@[v as int] == old(self).vertices@[v as int]);
                assert(in_tune(
                    old(self).vertices()[v as int],
                    old(self).told(),
                    old(self).input_base()[v as int] as int,
                ));
            }
            self.drive(v, &front);
            proof {
                assert forall|u: int| 0 <= u < v + 1 implies in_tune(
                    #[trigger] self.vertices@[u],
                    now,
                    old(self).input_base@[u] as int,
                ) by {
                    if u < v {
                        assert(self.vertices@[u] == before[u]);
                    }
                }
                assert(last_rounds(self.vertices@, v + 1).drop_last() =~= last_rounds(
                    before,
                    v as int,
                ));
                assert forall|u: int| 0 <= u < v + 1 implies driven(
                    old(self).vertices@[u],
                    #[trigger] self.vertices@[u],
                    handed(
                        old(self).told(),
                        now,
                        old(self).input_base@[u] as int,
                        old(self).vertices@[u].input_count() as int,
                    ),
                    self.claims@[u],
                ) by {
                    if u < v {
                        assert(self.vertices@[u] == before[u]);
                    }
                }
            }
            v += 1;
        }
        let ghost outs = fronts(out@);
        self.told = front;
        proof {
            {
                assert(covers(
                    self.told(),
                    outs,
                    old(self).messages(),
                    old(self).capabilities(),
                    old(self).paths(),
                    old(self).links(),
                ) && grounded(
                    self.told(),
                    outs,
                    old(self).messages(),
                    old(self).capabilities(),
                    old(self).paths(),
                    old(self).links(),
                ));
            }
        }
        let any = Self::any_true(&self.claims);
        let quiet = self.is_quiescent();
        any || !quiet
    }
}

} // verus!
