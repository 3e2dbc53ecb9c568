//! Which times may still arrive at each input of a graph, given the messages
//! and capabilities that are outstanding.

use vstd::prelude::*;
use crate::progress::count_map::{as_map, canonical, count, lemma_entry, place, CountMap};
use crate::progress::frontier::{
    guards, incomparable, inserted, lemma_inserted_reaches, reaches, Antichain,
};
use crate::progress::notificator::ledgers;
use crate::progress::timestamp::{PartialOrder, PathSummary, Timestamp};
use crate::progress::walks::{arrives, hop_ok, lemma_short, lemma_stays, result, valid};

verus! {

/// A way through a vertex: from the input numbered `from` to the output
/// numbered `to`, with the change of time that the way brings.
pub struct Path<S> {
    pub from: usize,
    pub summary: S,
    pub to: usize,
}

/// A channel: from the output numbered `from` to the input numbered `to`.
#[derive(Clone, Copy, Debug)]
pub struct Link {
    pub from: usize,
    pub to: usize,
}

/// The members of each antichain of a list.
pub open spec fn fronts<T: PartialOrder>(list: Seq<Antichain<T>>) -> Seq<Set<T>> {
    Seq::new(list.len(), |i: int| list[i]@)
}

/// Every time with a positive count in a ledger is reached by the frontier
/// of the same place.
pub open spec fn seeded<T: PartialOrder>(counts: Seq<Map<T, int>>, front: Seq<Set<T>>) -> bool {
    forall|g: int, t: T|
        0 <= g < counts.len() && #[trigger] count(counts[g], t) > 0 ==> reaches(front[g], t)
}

/// What may arrive at the input of a path may leave, changed by the path, at
/// its output.
pub open spec fn carried<T: PartialOrder, S: PathSummary<T>>(
    paths: Seq<Path<S>>,
    front: Seq<Set<T>>,
    out: Seq<Set<T>>,
) -> bool {
    forall|p: int, t: T|
        0 <= p < paths.len() && #[trigger] front[paths[p].from as int].contains(t) ==> reaches(
            out[paths[p].to as int],
            paths[p].summary.advance(t),
        )
}

/// What may leave at the start of a channel may arrive at its end.
pub open spec fn linked<T: PartialOrder>(
    links: Seq<Link>,
    out: Seq<Set<T>>,
    front: Seq<Set<T>>,
) -> bool {
    forall|e: int, t: T|
        0 <= e < links.len() && #[trigger] out[links[e].from as int].contains(t) ==> reaches(
            front[links[e].to as int],
            t,
        )
}

/// The paths and the channels name places that exist.
pub open spec fn in_range<S>(paths: Seq<Path<S>>, links: Seq<Link>, inputs: nat, outputs: nat) -> bool {
    &&& forall|p: int|
        0 <= p < paths.len() ==> (#[trigger] paths[p]).from < inputs && paths[p].to < outputs
    &&& forall|e: int|
        0 <= e < links.len() ==> (#[trigger] links[e]).from < outputs && links[e].to < inputs
}

/// The frontiers `front` of the inputs and `out` of the outputs leave nothing
/// out: they reach every outstanding message and capability, and whatever one
/// of them holds, the places behind it reach as well.
pub open spec fn covers<T: PartialOrder, S: PathSummary<T>>(
    front: Seq<Set<T>>,
    out: Seq<Set<T>>,
    messages: Seq<Map<T, int>>,
    capabilities: Seq<Map<T, int>>,
    paths: Seq<Path<S>>,
    links: Seq<Link>,
) -> bool {
    &&& front.len() == messages.len()
    &&& out.len() == capabilities.len()
    &&& seeded(messages, front)
    &&& seeded(capabilities, out)
    &&& carried(paths, front, out)
    &&& linked(links, out, front)
}

/// Where the frontiers leave nothing out, a time that an input reaches is
/// reached, changed by the path, at the output of every path from that input.
pub proof fn lemma_covers_path<T: PartialOrder, S: PathSummary<T>>(
    front: Seq<Set<T>>,
    out: Seq<Set<T>>,
    paths: Seq<Path<S>>,
    p: int,
    t: T,
)
    requires
        carried(paths, front, out),
        0 <= p < paths.len(),
        reaches(front[paths[p].from as int], t),
    ensures
        reaches(out[paths[p].to as int], paths[p].summary.advance(t)),
{
    let a = choose|a: T| front[paths[p].from as int].contains(a) && #[trigger] a.precedes(t);
    let s = paths[p].summary;
    S::monotone(s, a, t);
    assert(reaches(out[paths[p].to as int], s.advance(a)));
    let b = choose|b: T| out[paths[p].to as int].contains(b) && #[trigger] b.precedes(s.advance(a));
    T::transitive(b, s.advance(a), s.advance(t));
    assert(out[paths[p].to as int].contains(b) && b.precedes(s.advance(t)));
}

/// Where the frontiers leave nothing out, a time that an output reaches is
/// reached at the end of every channel from that output.
pub proof fn lemma_covers_link<T: PartialOrder>(
    front: Seq<Set<T>>,
    out: Seq<Set<T>>,
    links: Seq<Link>,
    e: int,
    t: T,
)
    requires
        linked(links, out, front),
        0 <= e < links.len(),
        reaches(out[links[e].from as int], t),
    ensures
        reaches(front[links[e].to as int], t),
{
    let a = choose|a: T| out[links[e].from as int].contains(a) && #[trigger] a.precedes(t);
    assert(reaches(front[links[e].to as int], a));
    let b = choose|b: T| front[links[e].to as int].contains(b) && #[trigger] b.precedes(a);
    T::transitive(b, a, t);
    assert(front[links[e].to as int].contains(b) && b.precedes(t));
}

/// Whatever a frontier of `before` reaches, the frontier of the same place
/// in `after` reaches too.
pub open spec fn extends<T: PartialOrder>(before: Seq<Set<T>>, after: Seq<Set<T>>) -> bool {
    &&& before.len() == after.len()
    &&& forall|g: int, x: T|
        0 <= g < before.len() && #[trigger] reaches(before[g], x) ==> reaches(after[g], x)
}

/// A channel ends at the input `g` whose start may send a time that
/// precedes `t`.
pub open spec fn fed<T: PartialOrder>(links: Seq<Link>, out: Seq<Set<T>>, g: int, t: T) -> bool {
    exists|e: int|
        0 <= e < links.len() && (#[trigger] links[e]).to == g && reaches(
            out[links[e].from as int],
            t,
        )
}

/// A path ends at the output `s` whose input may receive a time that the
/// path changes into one that precedes `t`.
pub open spec fn led<T: PartialOrder, S: PathSummary<T>>(
    paths: Seq<Path<S>>,
    front: Seq<Set<T>>,
    s: int,
    t: T,
) -> bool {
    exists|p: int, a: T|
        0 <= p < paths.len() && (#[trigger] paths[p]).to == s && front[paths[p].from as int].contains(
            a,
        ) && #[trigger] paths[p].summary.advance(a).precedes(t)
}

/// Every member of an input's frontier has a reason: an outstanding message
/// at the input, or a channel that may bring it.
pub open spec fn grounded_front<T: PartialOrder>(
    front: Seq<Set<T>>,
    out: Seq<Set<T>>,
    messages: Seq<Map<T, int>>,
    links: Seq<Link>,
) -> bool {
    forall|g: int, t: T|
        0 <= g < front.len() && #[trigger] front[g].contains(t) ==> guards(messages[g], t) || fed(
            links,
            out,
            g,
            t,
        )
}

/// Every member of an output's frontier has a reason: a capability held at
/// the output, or a path that may lead to it.
pub open spec fn grounded_out<T: PartialOrder, S: PathSummary<T>>(
    out: Seq<Set<T>>,
    front: Seq<Set<T>>,
    capabilities: Seq<Map<T, int>>,
    paths: Seq<Path<S>>,
) -> bool {
    forall|s: int, t: T|
        0 <= s < out.len() && #[trigger] out[s].contains(t) ==> guards(capabilities[s], t) || led(
            paths,
            front,
            s,
            t,
        )
}

/// The frontiers hold nothing without a reason.
pub open spec fn grounded<T: PartialOrder, S: PathSummary<T>>(
    front: Seq<Set<T>>,
    out: Seq<Set<T>>,
    messages: Seq<Map<T, int>>,
    capabilities: Seq<Map<T, int>>,
    paths: Seq<Path<S>>,
    links: Seq<Link>,
) -> bool {
    grounded_front(front, out, messages, links) && grounded_out(out, front, capabilities, paths)
}

/// A reason that a channel gives stays one when the frontiers of the outputs
/// come to reach more.
pub proof fn lemma_fed_extends<T: PartialOrder>(
    links: Seq<Link>,
    out: Seq<Set<T>>,
    later: Seq<Set<T>>,
    g: int,
    t: T,
)
    requires
        fed(links, out, g, t),
        extends(out, later),
        forall|e: int| 0 <= e < links.len() ==> (#[trigger] links[e]).from < out.len(),
    ensures
        fed(links, later, g, t),
{
    let e = choose|e: int|
        0 <= e < links.len() && (#[trigger] links[e]).to == g && reaches(
            out[links[e].from as int],
            t,
        );
    assert(reaches(later[links[e].from as int], t));
}

/// A reason that a path gives stays one when the frontiers of the inputs
/// come to reach more.
pub proof fn lemma_led_extends<T: PartialOrder, S: PathSummary<T>>(
    paths: Seq<Path<S>>,
    front: Seq<Set<T>>,
    later: Seq<Set<T>>,
    s: int,
    t: T,
)
    requires
        led(paths, front, s, t),
        extends(front, later),
        forall|p: int| 0 <= p < paths.len() ==> (#[trigger] paths[p]).from < front.len(),
    ensures
        led(paths, later, s, t),
{
    let (p, a) = choose|p: int, a: T|
        0 <= p < paths.len() && (#[trigger] paths[p]).to == s && front[paths[p].from as int].contains(
            a,
        ) && #[trigger] paths[p].summary.advance(a).precedes(t);
    let f = paths[p].from as int;
    let sigma = paths[p].summary;
    T::reflexive(a);
    assert(front[f].contains(a) && a.precedes(a));
    assert(reaches(front[f], a));
    assert(reaches(later[f], a));
    let b = choose|b: T| later[f].contains(b) && #[trigger] b.precedes(a);
    S::monotone(sigma, b, a);
    T::transitive(sigma.advance(b), sigma.advance(a), t);
    assert(later[f].contains(b) && paths[p].summary.advance(b).precedes(t));
}

/// What one insertion does to a list of frontiers that reached at least what
/// `start` reached: the list still does, and its only new member, if any, is
/// the inserted time.
pub proof fn lemma_insert_step<T: PartialOrder>(
    start: Seq<Set<T>>,
    before: Seq<Set<T>>,
    after: Seq<Set<T>>,
    g: int,
    x: T,
)
    requires
        extends(start, before),
        before.len() == after.len(),
        0 <= g < before.len(),
        after[g] == inserted(before[g], x),
        forall|i: int| 0 <= i < before.len() && i != g ==> after[i] == before[i],
    ensures
        extends(start, after),
        forall|i: int, t: T|
            0 <= i < after.len() && #[trigger] after[i].contains(t) ==> before[i].contains(t) || (i
                == g && t == x),
{
    assert forall|i: int, y: T| 0 <= i < start.len() && #[trigger] reaches(start[i], y) implies reaches(
        after[i],
        y,
    ) by {
        assert(reaches(before[i], y));
        if i == g {
            lemma_inserted_reaches(before[g], x, y);
        }
    }
}

/// No ledger of the list holds a count.
pub open spec fn all_empty<T>(counts: Seq<Map<T, int>>) -> bool {
    forall|g: int| 0 <= g < counts.len() ==> #[trigger] counts[g] == Map::<T, int>::empty()
}

/// No frontier of the list has a member.
pub open spec fn all_closed<T>(front: Seq<Set<T>>) -> bool {
    forall|g: int| 0 <= g < front.len() ==> #[trigger] front[g] == Set::<T>::empty()
}

/// The frontier of the place `g` reaches every time with a positive count
/// in the ledger of that place.
pub open spec fn seeded_at<T: PartialOrder>(
    counts: Seq<Map<T, int>>,
    front: Seq<Set<T>>,
    g: int,
) -> bool {
    forall|t: T| #[trigger] count(counts[g], t) > 0 ==> reaches(front[g], t)
}

/// The frontier of the output `s` reaches whatever the paths that end there
/// may bring.
pub open spec fn carried_to<T: PartialOrder, S: PathSummary<T>>(
    paths: Seq<Path<S>>,
    front: Seq<Set<T>>,
    out: Seq<Set<T>>,
    s: int,
) -> bool {
    forall|p: int, t: T|
        0 <= p < paths.len() && paths[p].to == s && #[trigger] front[paths[p].from as int].contains(
            t,
        ) ==> reaches(out[s], paths[p].summary.advance(t))
}

/// The frontier of the input `g` reaches whatever the channels that end
/// there may bring.
pub open spec fn linked_to<T: PartialOrder>(
    links: Seq<Link>,
    out: Seq<Set<T>>,
    front: Seq<Set<T>>,
    g: int,
) -> bool {
    forall|e: int, t: T|
        0 <= e < links.len() && links[e].to == g && #[trigger] out[links[e].from as int].contains(
            t,
        ) ==> reaches(front[g], t)
}

/// A path that ends at the output `s` makes `t` of a member of the frontier
/// of its input.
pub open spec fn made<T: PartialOrder, S: PathSummary<T>>(
    paths: Seq<Path<S>>,
    front: Seq<Set<T>>,
    s: int,
    t: T,
) -> bool {
    exists|p: int, a: T|
        0 <= p < paths.len() && (#[trigger] paths[p]).to == s && front[paths[p].from as int].contains(
            a,
        ) && #[trigger] paths[p].summary.advance(a) == t
}

/// A channel that ends at the input `g` starts at an output whose frontier
/// holds `t`.
pub open spec fn brought<T>(links: Seq<Link>, out: Seq<Set<T>>, g: int, t: T) -> bool {
    exists|e: int|
        0 <= e < links.len() && (#[trigger] links[e]).to == g && out[links[e].from as int].contains(
            t,
        )
}

/// What one insertion does to a list of frontiers: the frontier at `g` takes
/// the time in, the others stay, and every frontier reaches what it reached.
proof fn lemma_inserted_at<T: PartialOrder>(before: Seq<Set<T>>, after: Seq<Set<T>>, g: int, x: T)
    requires
        before.len() == after.len(),
        0 <= g < before.len(),
        after[g] == inserted(before[g], x),
        forall|i: int| 0 <= i < before.len() && i != g ==> after[i] == before[i],
    ensures
        extends(before, after),
        reaches(after[g], x),
        reaches(before[g], x) ==> after =~= before,
{
    assert forall|i: int, y: T| 0 <= i < before.len() && #[trigger] reaches(
        before[i],
        y,
    ) implies reaches(after[i], y) by {
        if i == g {
            lemma_inserted_reaches(before[g], x, y);
        }
    }
    T::reflexive(x);
    lemma_inserted_reaches(before[g], x, x);
}

/// Inserts every time with a positive count into the frontier of its place.
/// Says whether a frontier changed. Afterwards every such time is reached; a
/// frontier that reached them all before stays as it is.
pub(crate) fn seed<T: Timestamp>(counts: &Vec<CountMap<T>>, chains: &mut Vec<Antichain<T>>) -> (changed:
    bool)
    requires
        old(chains)@.len() == counts@.len(),
    ensures
        final(chains)@.len() == old(chains)@.len(),
        seeded(ledgers(counts@), fronts(final(chains)@)),
        !changed ==> fronts(final(chains)@) == fronts(old(chains)@),
        seeded(ledgers(counts@), fronts(old(chains)@)) ==> !changed,
        all_empty(ledgers(counts@)) ==> !changed,
        forall|h: int|
            0 <= h < old(chains)@.len() && seeded_at(ledgers(counts@), fronts(old(chains)@), h)
                ==> #[trigger] fronts(final(chains)@)[h] == fronts(old(chains)@)[h],
        extends(fronts(old(chains)@), fronts(final(chains)@)),
        forall|h: int, t: T|
            0 <= h < final(chains)@.len() && #[trigger] fronts(final(chains)@)[h].contains(t)
                ==> fronts(old(chains)@)[h].contains(t) || count(ledgers(counts@)[h], t) > 0,
{
    let ghost start = fronts(chains@);
    let ghost sent = ledgers(counts@);
    let mut changed = false;
    let mut g: usize = 0;
    while g < counts.len()
        invariant
            sent == ledgers(counts@),
            extends(start, fronts(chains@)),
            forall|h: int, t: T|
                0 <= h < chains@.len() && #[trigger] fronts(chains@)[h].contains(t)
                    ==> start[h].contains(t) || count(sent[h], t) > 0,
            g <= counts@.len(),
            chains@.len() == counts@.len(),
            start.len() == counts@.len(),
            !changed ==> fronts(chains@) == start,
            seeded(sent, start) ==> !changed,
            forall|h: int|
                0 <= h < start.len() && seeded_at(sent, start, h) ==> #[trigger] fronts(
                    chains@,
                )[h] == start[h],
            forall|h: int, t: T|
                0 <= h < g && #[trigger] count(sent[h], t) > 0 ==> reaches(fronts(chains@)[h], t),
        decreases counts@.len() - g,
    {
        let list = counts[g].entries();
        let mut j: usize = 0;
        while j < list.len()
            invariant
                sent == ledgers(counts@),
                extends(start, fronts(chains@)),
                forall|h: int, t: T|
                    0 <= h < chains@.len() && #[trigger] fronts(chains@)[h].contains(t)
                        ==> start[h].contains(t) || count(sent[h], t) > 0,
                g < counts@.len(),
                j <= list@.len(),
                canonical(list@),
                as_map(list@) == counts@[g as int]@,
                chains@.len() == counts@.len(),
                start.len() == counts@.len(),
                !changed ==> fronts(chains@) == start,
                seeded(sent, start) ==> !changed,
                forall|h: int|
                    0 <= h < start.len() && seeded_at(sent, start, h) ==> #[trigger] fronts(
                        chains@,
                    )[h] == start[h],
                forall|h: int, t: T|
                    0 <= h < g && #[trigger] count(sent[h], t) > 0 ==> reaches(
                        fronts(chains@)[h],
                        t,
                    ),
                forall|i: int|
                    0 <= i < j && (#[trigger] list@[i]).1 > 0 ==> reaches(
                        fronts(chains@)[g as int],
                        list@[i].0,
                    ),
            decreases list@.len() - j,
        {
            if list[j].1 > 0 {
                let t = list[j].0;
                let ghost before = fronts(chains@);
                let ghost chains_before = chains@;
                let added = chains[g].insert(t);
                proof {
                    let after = fronts(chains@);
                    lemma_entry(list@, j as int);
                    assert(count(sent[g as int], t) > 0);
                    assert forall|i: int| 0 <= i < chains@.len() && i != g implies after[i]
                        == before[i] by {
                        assert(chains@[i] == chains_before[i]);
                    }
                    lemma_insert_step(start, before, after, g as int, t);
                    lemma_inserted_at(before, after, g as int, t);
                    if seeded_at(sent, start, g as int) {
                        assert(reaches(start[g as int], t));
                        assert(before[g as int] == start[g as int]);
                    }
                    if seeded(sent, start) {
                        assert(seeded_at(sent, start, g as int));
                    }
                    assert forall|h: int|
                        0 <= h < start.len() && seeded_at(sent, start, h) implies #[trigger] after[h]
                        == start[h] by {
                        assert(before[h] == start[h]);
                    }
                    assert forall|h: int, u: T|
                        0 <= h < g && #[trigger] count(sent[h], u) > 0 implies reaches(
                        after[h],
                        u,
                    ) by {
                        assert(reaches(before[h], u));
                    }
                    assert forall|i: int|
                        0 <= i < j + 1 && (#[trigger] list@[i]).1 > 0 implies reaches(
                        after[g as int],
                        list@[i].0,
                    ) by {
                        if i < j {
                            assert(reaches(before[g as int], list@[i].0));
                        }
                    }
                }
                if added {
                    changed = true;
                }
            }
            j += 1;
        }
        proof {
            assert forall|h: int, t: T|
                0 <= h < g + 1 && #[trigger] count(sent[h], t) > 0 implies reaches(
                fronts(chains@)[h],
                t,
            ) by {
                if h == g {
                    let i = place(list@, t);
                    assert(list@[i].0 == t);
                    lemma_entry(list@, i);
                }
            }
        }
        g += 1;
    }
    changed
}

/// Inserts, for every path, what its input's frontier holds, changed by the
/// path, into its output's frontier. Says whether a frontier changed.
/// Afterwards every output reaches what its paths may bring; an output that
/// reached it all before stays as it is.
pub(crate) fn follow_paths<T: Timestamp>(
    paths: &Vec<Path<T::Summary>>,
    front: &Vec<Antichain<T>>,
    out: &mut Vec<Antichain<T>>,
) -> (changed: bool)
    requires
        forall|p: int|
            0 <= p < paths@.len() ==> (#[trigger] paths@[p]).from < front@.len() && paths@[p].to
                < old(out)@.len(),
    ensures
        final(out)@.len() == old(out)@.len(),
        carried(paths@, fronts(front@), fronts(final(out)@)),
        !changed ==> fronts(final(out)@) == fronts(old(out)@),
        carried(paths@, fronts(front@), fronts(old(out)@)) ==> !changed,
        all_closed(fronts(front@)) ==> !changed,
        forall|s: int|
            0 <= s < old(out)@.len() && carried_to(paths@, fronts(front@), fronts(old(out)@), s)
                ==> #[trigger] fronts(final(out)@)[s] == fronts(old(out)@)[s],
        extends(fronts(old(out)@), fronts(final(out)@)),
        forall|s: int, t: T|
            0 <= s < final(out)@.len() && #[trigger] fronts(final(out)@)[s].contains(t) ==> fronts(
                old(out)@,
            )[s].contains(t) || led(paths@, fronts(front@), s, t),
        forall|s: int, t: T|
            0 <= s < final(out)@.len() && #[trigger] fronts(final(out)@)[s].contains(t) ==> fronts(
                old(out)@,
            )[s].contains(t) || made(paths@, fronts(front@), s, t),
{
    let ghost start = fronts(out@);
    let ghost size = out@.len();
    let ghost inn = fronts(front@);
    let mut changed = false;
    let mut p: usize = 0;
    while p < paths.len()
        invariant
            inn == fronts(front@),
            forall|s: int, t: T|
                0 <= s < out@.len() && #[trigger] fronts(out@)[s].contains(t) ==> start[s].contains(
                    t,
                ) || made(paths@, inn, s, t),
            extends(start, fronts(out@)),
            forall|s: int, t: T|
                0 <= s < out@.len() && #[trigger] fronts(out@)[s].contains(t) ==> start[s].contains(
                    t,
                ) || led(paths@, inn, s, t),
            p <= paths@.len(),
            out@.len() == size,
            start.len() == size,
            forall|q: int|
                0 <= q < paths@.len() ==> (#[trigger] paths@[q]).from < front@.len()
                    && paths@[q].to < size,
            !changed ==> fronts(out@) == start,
            carried(paths@, inn, start) ==> !changed,
            forall|s: int|
                0 <= s < size && carried_to(paths@, inn, start, s) ==> #[trigger] fronts(out@)[s]
                    == start[s],
            forall|q: int, t: T|
                0 <= q < p && #[trigger] inn[paths@[q].from as int].contains(t) ==> reaches(
                    fronts(out@)[paths@[q].to as int],
                    paths@[q].summary.advance(t),
                ),
        decreases paths@.len() - p,
    {
        let from = paths[p].from;
        let to = paths[p].to;
        let list = front[from].elements();
        let mut j: usize = 0;
        while j < list.len()
            invariant
                inn == fronts(front@),
            forall|s: int, t: T|
                0 <= s < out@.len() && #[trigger] fronts(out@)[s].contains(t) ==> start[s].contains(
                    t,
                ) || made(paths@, inn, s, t),
                extends(start, fronts(out@)),
                forall|s: int, t: T|
                    0 <= s < out@.len() && #[trigger] fronts(out@)[s].contains(t)
                        ==> start[s].contains(t) || led(paths@, inn, s, t),
                p < paths@.len(),
                from == paths@[p as int].from,
                to == paths@[p as int].to,
                from < front@.len(),
                to < size,
                forall|q: int|
                    0 <= q < paths@.len() ==> (#[trigger] paths@[q]).from < front@.len()
                        && paths@[q].to < size,
                j <= list@.len(),
                forall|t: T| front@[from as int]@.contains(t) <==> list@.contains(t),
                out@.len() == size,
                start.len() == size,
                !changed ==> fronts(out@) == start,
                carried(paths@, inn, start) ==> !changed,
                forall|s: int|
                    0 <= s < size && carried_to(paths@, inn, start, s) ==> #[trigger] fronts(
                        out@,
                    )[s] == start[s],
                forall|q: int, t: T|
                    0 <= q < p && #[trigger] inn[paths@[q].from as int].contains(t) ==> reaches(
                        fronts(out@)[paths@[q].to as int],
                        paths@[q].summary.advance(t),
                    ),
                forall|i: int|
                    0 <= i < j ==> reaches(
                        fronts(out@)[to as int],
                        paths@[p as int].summary.advance(#[trigger] list@[i]),
                    ),
            decreases list@.len() - j,
        {
            let later = paths[p].summary.results_in(&list[j]);
            let ghost before = fronts(out@);
            let ghost out_before = out@;
            let added = out[to].insert(later);
            proof {
                let after = fronts(out@);
                assert(list@.contains(list@[j as int]));
                assert(inn[from as int].contains(list@[j as int]));
                assert forall|i: int| 0 <= i < out@.len() && i != to implies after[i]
                    == before[i] by {
                    assert(out@[i] == out_before[i]);
                }
                lemma_insert_step(start, before, after, to as int, later);
                lemma_inserted_at(before, after, to as int, later);
                assert(made(paths@, inn, to as int, later)) by {
                    assert(paths@[p as int].to == to && inn[paths@[p as int].from as int].contains(
                        list@[j as int],
                    ) && paths@[p as int].summary.advance(list@[j as int]) == later);
                }
                assert forall|s: int, t: T|
                    0 <= s < out@.len() && #[trigger] after[s].contains(t) implies start[s].contains(
                    t,
                ) || made(paths@, inn, s, t) by {
                    if !(s == to && t == later) {
                        assert(before[s].contains(t));
                    }
                }
                assert(led(paths@, inn, to as int, later)) by {
                    T::reflexive(later);
                    assert(paths@[p as int].to == to && inn[paths@[p as int].from as int].contains(
                        list@[j as int],
                    ) && paths@[p as int].summary.advance(list@[j as int]).precedes(later));
                }
                if carried_to(paths@, inn, start, to as int) {
                    assert(reaches(start[to as int], later));
                    assert(before[to as int] == start[to as int]);
                }
                if carried(paths@, inn, start) {
                    assert(carried_to(paths@, inn, start, to as int));
                }
                assert forall|s: int|
                    0 <= s < size && carried_to(paths@, inn, start, s) implies #[trigger] after[s]
                    == start[s] by {
                    assert(before[s] == start[s]);
                }
                assert forall|q: int, t: T|
                    0 <= q < p && #[trigger] inn[paths@[q].from as int].contains(
                        t,
                    ) implies reaches(after[paths@[q].to as int], paths@[q].summary.advance(t)) by {
                    assert(paths@[q].to < size);
                    assert(reaches(before[paths@[q].to as int], paths@[q].summary.advance(t)));
                }
                assert forall|i: int| 0 <= i < j + 1 implies reaches(
                    after[to as int],
                    paths@[p as int].summary.advance(#[trigger] list@[i]),
                ) by {
                    if i < j {
                        assert(reaches(
                            before[to as int],
                            paths@[p as int].summary.advance(list@[i]),
                        ));
                    }
                }
            }
            if added {
                changed = true;
            }
            j += 1;
        }
        proof {
            assert forall|q: int, t: T|
                0 <= q < p + 1 && #[trigger] inn[paths@[q].from as int].contains(
                    t,
                ) implies reaches(fronts(out@)[paths@[q].to as int], paths@[q].summary.advance(t)) by {
                if q == p {
                    let i = choose|i: int| 0 <= i < list@.len() && list@[i] == t;
                    assert(reaches(
                        fronts(out@)[to as int],
                        paths@[p as int].summary.advance(list@[i]),
                    ));
                }
            }
        }
        p += 1;
    }
    proof {
        if all_closed(inn) {
            assert(carried(paths@, inn, start));
        }
    }
    changed
}

/// Inserts, for every channel, what the frontier at its start holds into the
/// frontier at its end. Says whether a frontier changed. Afterwards every
/// input reaches what its channels may bring; an input that reached it all
/// before stays as it is.
pub(crate) fn follow_links<T: Timestamp>(
    links: &Vec<Link>,
    out: &Vec<Antichain<T>>,
    front: &mut Vec<Antichain<T>>,
) -> (changed: bool)
    requires
        forall|e: int|
            0 <= e < links@.len() ==> (#[trigger] links@[e]).from < out@.len() && links@[e].to
                < old(front)@.len(),
    ensures
        final(front)@.len() == old(front)@.len(),
        linked(links@, fronts(out@), fronts(final(front)@)),
        !changed ==> fronts(final(front)@) == fronts(old(front)@),
        linked(links@, fronts(out@), fronts(old(front)@)) ==> !changed,
        all_closed(fronts(out@)) ==> !changed,
        forall|g: int|
            0 <= g < old(front)@.len() && linked_to(links@, fronts(out@), fronts(old(front)@), g)
                ==> #[trigger] fronts(final(front)@)[g] == fronts(old(front)@)[g],
        extends(fronts(old(front)@), fronts(final(front)@)),
        forall|g: int, t: T|
            0 <= g < final(front)@.len() && #[trigger] fronts(final(front)@)[g].contains(t)
                ==> fronts(old(front)@)[g].contains(t) || fed(links@, fronts(out@), g, t),
        forall|g: int, t: T|
            0 <= g < final(front)@.len() && #[trigger] fronts(final(front)@)[g].contains(t)
                ==> fronts(old(front)@)[g].contains(t) || brought(links@, fronts(out@), g, t),
{
    let ghost start = fronts(front@);
    let ghost size = front@.len();
    let ghost outs = fronts(out@);
    let mut changed = false;
    let mut e: usize = 0;
    while e < links.len()
        invariant
            outs == fronts(out@),
            forall|g: int, t: T|
                0 <= g < front@.len() && #[trigger] fronts(front@)[g].contains(t)
                    ==> start[g].contains(t) || brought(links@, outs, g, t),
            extends(start, fronts(front@)),
            forall|g: int, t: T|
                0 <= g < front@.len() && #[trigger] fronts(front@)[g].contains(t)
                    ==> start[g].contains(t) || fed(links@, outs, g, t),
            e <= links@.len(),
            front@.len() == size,
            start.len() == size,
            forall|q: int|
                0 <= q < links@.len() ==> (#[trigger] links@[q]).from < out@.len() && links@[q].to
                    < size,
            !changed ==> fronts(front@) == start,
            linked(links@, outs, start) ==> !changed,
            forall|g: int|
                0 <= g < size && linked_to(links@, outs, start, g) ==> #[trigger] fronts(front@)[g]
                    == start[g],
            forall|q: int, t: T|
                0 <= q < e && #[trigger] outs[links@[q].from as int].contains(t) ==> reaches(
                    fronts(front@)[links@[q].to as int],
                    t,
                ),
        decreases links@.len() - e,
    {
        let from = links[e].from;
        let to = links[e].to;
        let list = out[from].elements();
        let mut j: usize = 0;
        while j < list.len()
            invariant
                outs == fronts(out@),
            forall|g: int, t: T|
                0 <= g < front@.len() && #[trigger] fronts(front@)[g].contains(t)
                    ==> start[g].contains(t) || brought(links@, outs, g, t),
                extends(start, fronts(front@)),
                forall|g: int, t: T|
                    0 <= g < front@.len() && #[trigger] fronts(front@)[g].contains(t)
                        ==> start[g].contains(t) || fed(links@, outs, g, t),
                e < links@.len(),
                from == links@[e as int].from,
                to == links@[e as int].to,
                from < out@.len(),
                to < size,
                forall|q: int|
                    0 <= q < links@.len() ==> (#[trigger] links@[q]).from < out@.len()
                        && links@[q].to < size,
                j <= list@.len(),
                forall|t: T| out@[from as int]@.contains(t) <==> list@.contains(t),
                front@.len() == size,
                start.len() == size,
                !changed ==> fronts(front@) == start,
                linked(links@, outs, start) ==> !changed,
                forall|g: int|
                    0 <= g < size && linked_to(links@, outs, start, g) ==> #[trigger] fronts(
                        front@,
                    )[g] == start[g],
                forall|q: int, t: T|
                    0 <= q < e && #[trigger] outs[links@[q].from as int].contains(t) ==> reaches(
                        fronts(front@)[links@[q].to as int],
                        t,
                    ),
                forall|i: int|
                    0 <= i < j ==> reaches(fronts(front@)[to as int], #[trigger] list@[i]),
            decreases list@.len() - j,
        {
            let t = list[j];
            let ghost before = fronts(front@);
            let ghost front_before = front@;
            let added = front[to].insert(t);
            proof {
                let after = fronts(front@);
                assert(list@.contains(list@[j as int]));
                assert(outs[from as int].contains(t));
                assert forall|i: int| 0 <= i < front@.len() && i != to implies after[i]
                    == before[i] by {
                    assert(front@[i] == front_before[i]);
                }
                lemma_insert_step(start, before, after, to as int, t);
                lemma_inserted_at(before, after, to as int, t);
                assert(brought(links@, outs, to as int, t)) by {
                    assert(links@[e as int].to == to && outs[links@[e as int].from as int].contains(
                        t,
                    ));
                }
                assert forall|g: int, u: T|
                    0 <= g < front@.len() && #[trigger] after[g].contains(u) implies start[g].contains(
                    u,
                ) || brought(links@, outs, g, u) by {
                    if !(g == to && u == t) {
                        assert(before[g].contains(u));
                    }
                }
                assert(fed(links@, outs, to as int, t)) by {
                    T::reflexive(t);
                    assert(outs[links@[e as int].from as int].contains(t) && t.precedes(t));
                    assert(links@[e as int].to == to && reaches(
                        outs[links@[e as int].from as int],
                        t,
                    ));
                }
                if linked_to(links@, outs, start, to as int) {
                    assert(reaches(start[to as int], t));
                    assert(before[to as int] == start[to as int]);
                }
                if linked(links@, outs, start) {
                    assert(linked_to(links@, outs, start, to as int));
                }
                assert forall|g: int|
                    0 <= g < size && linked_to(links@, outs, start, g) implies #[trigger] after[g]
                    == start[g] by {
                    assert(before[g] == start[g]);
                }
                assert forall|q: int, u: T|
                    0 <= q < e && #[trigger] outs[links@[q].from as int].contains(
                        u,
                    ) implies reaches(after[links@[q].to as int], u) by {
                    assert(links@[q].to < size);
                    assert(reaches(before[links@[q].to as int], u));
                }
                assert forall|i: int| 0 <= i < j + 1 implies reaches(
                    after[to as int],
                    #[trigger] list@[i],
                ) by {
                    if i < j {
                        assert(reaches(before[to as int], list@[i]));
                    }
                }
            }
            if added {
                changed = true;
            }
            j += 1;
        }
        proof {
            assert forall|q: int, t: T|
                0 <= q < e + 1 && #[trigger] outs[links@[q].from as int].contains(
                    t,
                ) implies reaches(fronts(front@)[links@[q].to as int], t) by {
                if q == e {
                    let i = choose|i: int| 0 <= i < list@.len() && list@[i] == t;
                    assert(reaches(fronts(front@)[to as int], list@[i]));
                }
            }
        }
        e += 1;
    }
    proof {
        if all_closed(outs) {
            assert(linked(links@, outs, start));
        }
    }
    changed
}

/// A list of `n` empty ledgers.
pub fn empty_ledgers<T: Timestamp>(n: usize) -> (list: Vec<CountMap<T>>)
    ensures
        list@.len() == n,
        all_empty(ledgers(list@)),
{
    let mut list: Vec<CountMap<T>> = Vec::new();
    while list.len() < n
        invariant
            list@.len() <= n,
            forall|i: int| 0 <= i < list@.len() ==> (#[trigger] list@[i])@ == Map::<T, int>::empty(),
        decreases n - list@.len(),
    {
        list.push(CountMap::new());
    }
    list
}

/// A list of `n` frontiers without members.
pub fn closed_frontiers<T: Timestamp>(n: usize) -> (list: Vec<Antichain<T>>)
    ensures
        list@.len() == n,
        all_closed(fronts(list@)),
{
    let mut list: Vec<Antichain<T>> = Vec::new();
    while list.len() < n
        invariant
            list@.len() <= n,
            forall|i: int| 0 <= i < list@.len() ==> (#[trigger] list@[i])@ == Set::<T>::empty(),
        decreases n - list@.len(),
    {
        list.push(Antichain::new());
    }
    list
}

/// Frontiers of the inputs that took in new members, each with a reason,
/// still hold nothing without a reason.
proof fn lemma_front_grew<T: PartialOrder, S: PathSummary<T>>(
    front0: Seq<Set<T>>,
    front1: Seq<Set<T>>,
    out: Seq<Set<T>>,
    messages: Seq<Map<T, int>>,
    capabilities: Seq<Map<T, int>>,
    paths: Seq<Path<S>>,
    links: Seq<Link>,
)
    requires
        in_range(paths, links, front0.len(), out.len()),
        grounded(front0, out, messages, capabilities, paths, links),
        extends(front0, front1),
        forall|g: int, t: T|
            0 <= g < front1.len() && #[trigger] front1[g].contains(t) ==> front0[g].contains(t)
                || count(messages[g], t) > 0 || fed(links, out, g, t),
    ensures
        grounded(front1, out, messages, capabilities, paths, links),
{
    assert forall|g: int, t: T|
        0 <= g < front1.len() && #[trigger] front1[g].contains(t) implies guards(messages[g], t)
        || fed(links, out, g, t) by {
        if !front0[g].contains(t) && count(messages[g], t) > 0 {
            T::reflexive(t);
            assert(count(messages[g], t) > 0 && t.precedes(t));
        }
    }
    assert forall|s: int, t: T| 0 <= s < out.len() && #[trigger] out[s].contains(t) implies guards(
        capabilities[s],
        t,
    ) || led(paths, front1, s, t) by {
        if !guards(capabilities[s], t) {
            lemma_led_extends(paths, front0, front1, s, t);
        }
    }
}

/// Frontiers of the outputs that took in new members, each with a reason,
/// still hold nothing without a reason.
proof fn lemma_out_grew<T: PartialOrder, S: PathSummary<T>>(
    out0: Seq<Set<T>>,
    out1: Seq<Set<T>>,
    front: Seq<Set<T>>,
    messages: Seq<Map<T, int>>,
    capabilities: Seq<Map<T, int>>,
    paths: Seq<Path<S>>,
    links: Seq<Link>,
)
    requires
        in_range(paths, links, front.len(), out0.len()),
        grounded(front, out0, messages, capabilities, paths, links),
        extends(out0, out1),
        forall|s: int, t: T|
            0 <= s < out1.len() && #[trigger] out1[s].contains(t) ==> out0[s].contains(t) || count(
                capabilities[s],
                t,
            ) > 0 || led(paths, front, s, t),
    ensures
        grounded(front, out1, messages, capabilities, paths, links),
{
    assert forall|s: int, t: T| 0 <= s < out1.len() && #[trigger] out1[s].contains(t) implies guards(
        capabilities[s],
        t,
    ) || led(paths, front, s, t) by {
        if !out0[s].contains(t) && count(capabilities[s], t) > 0 {
            T::reflexive(t);
            assert(count(capabilities[s], t) > 0 && t.precedes(t));
        }
    }
    assert forall|g: int, t: T|
        0 <= g < front.len() && #[trigger] front[g].contains(t) implies guards(messages[g], t)
        || fed(links, out1, g, t) by {
        if !guards(messages[g], t) {
            lemma_fed_extends(links, out0, out1, g, t);
        }
    }
}

/// Frontiers that reached every seed still do when they reach more.
proof fn lemma_seeded_extends<T: PartialOrder>(
    counts: Seq<Map<T, int>>,
    before: Seq<Set<T>>,
    after: Seq<Set<T>>,
)
    requires
        counts.len() == before.len(),
        seeded(counts, before),
        extends(before, after),
    ensures
        seeded(counts, after),
{
    assert forall|g: int, t: T|
        0 <= g < counts.len() && #[trigger] count(counts[g], t) > 0 implies reaches(after[g], t) by {
        assert(reaches(before[g], t));
    }
}

/// A message is outstanding at the input `g` at the time `t`, or a
/// capability is held at that time at the start of a channel that ends
/// there.
pub open spec fn based<T>(
    messages: Seq<Map<T, int>>,
    capabilities: Seq<Map<T, int>>,
    links: Seq<Link>,
    g: int,
    t: T,
) -> bool {
    count(messages[g], t) > 0 || exists|e: int|
        0 <= e < links.len() && (#[trigger] links[e]).to == g && count(
            capabilities[links[e].from as int],
            t,
        ) > 0
}

/// A way leads to the input `g` and makes `t` of a time at which something
/// is outstanding where the way starts.
pub open spec fn walked<T: PartialOrder, S: PathSummary<T>>(
    messages: Seq<Map<T, int>>,
    capabilities: Seq<Map<T, int>>,
    paths: Seq<Path<S>>,
    links: Seq<Link>,
    g: int,
    t: T,
) -> bool {
    exists|start: int, t0: T, way: Seq<(int, int)>|
        #![trigger valid(paths, links, way, start), result(paths, way, t0)]
        0 <= start < messages.len() && based(messages, capabilities, links, start, t0) && valid(
            paths,
            links,
            way,
            start,
        ) && arrives(links, way, start) == g && result(paths, way, t0) == t
}

/// Every member of a frontier is what a way makes of something outstanding.
pub open spec fn rooted<T: PartialOrder, S: PathSummary<T>>(
    front: Seq<Set<T>>,
    out: Seq<Set<T>>,
    messages: Seq<Map<T, int>>,
    capabilities: Seq<Map<T, int>>,
    paths: Seq<Path<S>>,
    links: Seq<Link>,
) -> bool {
    &&& forall|g: int, t: T|
        0 <= g < front.len() && #[trigger] front[g].contains(t) ==> walked(
            messages,
            capabilities,
            paths,
            links,
            g,
            t,
        )
    &&& forall|s: int, u: T|
        0 <= s < out.len() && #[trigger] out[s].contains(u) ==> count(capabilities[s], u) > 0
            || exists|p: int, a: T|
            0 <= p < paths.len() && (#[trigger] paths[p]).to == s && walked(
                messages,
                capabilities,
                paths,
                links,
                paths[p].from as int,
                a,
            ) && #[trigger] paths[p].summary.advance(a) == u
}

/// The frontiers of the inputs reach what every way of fewer than `level`
/// hops makes of something outstanding.
pub open spec fn covered<T: PartialOrder, S: PathSummary<T>>(
    front: Seq<Set<T>>,
    messages: Seq<Map<T, int>>,
    capabilities: Seq<Map<T, int>>,
    paths: Seq<Path<S>>,
    links: Seq<Link>,
    level: int,
) -> bool {
    forall|start: int, t0: T, way: Seq<(int, int)>|
        #![trigger valid(paths, links, way, start), result(paths, way, t0)]
        0 <= start < messages.len() && based(messages, capabilities, links, start, t0) && valid(
            paths,
            links,
            way,
            start,
        ) && way.len() < level ==> reaches(
            front[arrives(links, way, start)],
            result(paths, way, t0),
        )
}

proof fn lemma_rooted_front_seeded<T: PartialOrder, S: PathSummary<T>>(
    front0: Seq<Set<T>>,
    front1: Seq<Set<T>>,
    out: Seq<Set<T>>,
    messages: Seq<Map<T, int>>,
    capabilities: Seq<Map<T, int>>,
    paths: Seq<Path<S>>,
    links: Seq<Link>,
)
    requires
        front0.len() == messages.len(),
        front1.len() == front0.len(),
        rooted(front0, out, messages, capabilities, paths, links),
        forall|g: int, t: T|
            0 <= g < front1.len() && #[trigger] front1[g].contains(t) ==> front0[g].contains(t)
                || count(messages[g], t) > 0,
    ensures
        rooted(front1, out, messages, capabilities, paths, links),
{
    assert forall|g: int, t: T| 0 <= g < front1.len() && #[trigger] front1[g].contains(t) implies walked(
        messages,
        capabilities,
        paths,
        links,
        g,
        t,
    ) by {
        if !front0[g].contains(t) {
            let way = Seq::<(int, int)>::empty();
            assert(valid(paths, links, way, g) && result(paths, way, t) == t);
        }
    }
}

proof fn lemma_rooted_out_made<T: PartialOrder, S: PathSummary<T>>(
    out1: Seq<Set<T>>,
    out2: Seq<Set<T>>,
    front: Seq<Set<T>>,
    messages: Seq<Map<T, int>>,
    capabilities: Seq<Map<T, int>>,
    paths: Seq<Path<S>>,
    links: Seq<Link>,
)
    requires
        in_range(paths, links, front.len(), out1.len()),
        out2.len() == out1.len(),
        rooted(front, out1, messages, capabilities, paths, links),
        forall|s: int, u: T|
            0 <= s < out2.len() && #[trigger] out2[s].contains(u) ==> out1[s].contains(u) || count(
                capabilities[s],
                u,
            ) > 0 || made(paths, front, s, u),
    ensures
        rooted(front, out2, messages, capabilities, paths, links),
{
    assert forall|s: int, u: T| 0 <= s < out2.len() && #[trigger] out2[s].contains(u) implies count(
        capabilities[s],
        u,
    ) > 0 || exists|p: int, a: T|
        0 <= p < paths.len() && (#[trigger] paths[p]).to == s && walked(
            messages,
            capabilities,
            paths,
            links,
            paths[p].from as int,
            a,
        ) && #[trigger] paths[p].summary.advance(a) == u by {
        if !out1[s].contains(u) && !(count(capabilities[s], u) > 0) {
            let (p, a) = choose|p: int, a: T|
                0 <= p < paths.len() && (#[trigger] paths[p]).to == s && front[paths[p].from as int].contains(
                    a,
                ) && #[trigger] paths[p].summary.advance(a) == u;
            assert(paths[p].from < front.len());
            assert(walked(messages, capabilities, paths, links, paths[p].from as int, a));
        }
    }
}

proof fn lemma_rooted_front_brought<T: PartialOrder, S: PathSummary<T>>(
    front1: Seq<Set<T>>,
    front2: Seq<Set<T>>,
    out: Seq<Set<T>>,
    messages: Seq<Map<T, int>>,
    capabilities: Seq<Map<T, int>>,
    paths: Seq<Path<S>>,
    links: Seq<Link>,
)
    requires
        in_range(paths, links, front1.len(), out.len()),
        front1.len() == messages.len(),
        front2.len() == front1.len(),
        rooted(front1, out, messages, capabilities, paths, links),
        forall|g: int, t: T|
            0 <= g < front2.len() && #[trigger] front2[g].contains(t) ==> front1[g].contains(t)
                || brought(links, out, g, t),
    ensures
        rooted(front2, out, messages, capabilities, paths, links),
{
    assert forall|g: int, t: T| 0 <= g < front2.len() && #[trigger] front2[g].contains(t) implies walked(
        messages,
        capabilities,
        paths,
        links,
        g,
        t,
    ) by {
        if !front1[g].contains(t) {
            let e = choose|e: int|
                0 <= e < links.len() && (#[trigger] links[e]).to == g && out[links[e].from as int].contains(
                    t,
                );
            let s = links[e].from as int;
            assert(0 <= s < out.len());
            if count(capabilities[s], t) > 0 {
                let way = Seq::<(int, int)>::empty();
                assert(based(messages, capabilities, links, g, t));
                assert(valid(paths, links, way, g) && result(paths, way, t) == t);
            } else {
                let (p, a) = choose|p: int, a: T|
                    0 <= p < paths.len() && (#[trigger] paths[p]).to == s && walked(
                        messages,
                        capabilities,
                        paths,
                        links,
                        paths[p].from as int,
                        a,
                    ) && #[trigger] paths[p].summary.advance(a) == t;
                let (start, t0, way) = choose|start: int, t0: T, way: Seq<(int, int)>|
                    #![trigger valid(paths, links, way, start), result(paths, way, t0)]
                    0 <= start < messages.len() && based(
                        messages,
                        capabilities,
                        links,
                        start,
                        t0,
                    ) && valid(paths, links, way, start) && arrives(links, way, start)
                        == paths[p].from as int && result(paths, way, t0) == a;
                let longer = way.push((p, e));
                assert(longer.drop_last() =~= way);
                assert(longer.last() == (p, e));
                assert(hop_ok(paths, links, (p, e)));
                assert(valid(paths, links, longer, start));
                assert(arrives(links, longer, start) == g);
                assert(result(paths, longer, t0) == t);
            }
        }
    }
}

/// One round lets the frontiers of the inputs reach what ways of one more
/// hop lead to.
proof fn lemma_cover_round<T: PartialOrder, S: PathSummary<T>>(
    front0: Seq<Set<T>>,
    front1: Seq<Set<T>>,
    out1: Seq<Set<T>>,
    out2: Seq<Set<T>>,
    front2: Seq<Set<T>>,
    messages: Seq<Map<T, int>>,
    capabilities: Seq<Map<T, int>>,
    paths: Seq<Path<S>>,
    links: Seq<Link>,
    level: int,
)
    requires
        in_range(paths, links, front0.len(), out1.len()),
        front0.len() == messages.len(),
        out1.len() == capabilities.len(),
        covered(front0, messages, capabilities, paths, links, level),
        extends(front0, front1),
        seeded(messages, front1),
        seeded(capabilities, out1),
        extends(out1, out2),
        carried(paths, front1, out2),
        linked(links, out2, front2),
        extends(front1, front2),
    ensures
        covered(front2, messages, capabilities, paths, links, level + 1),
{
    assert forall|start: int, t0: T, way: Seq<(int, int)>|
        #![trigger valid(paths, links, way, start), result(paths, way, t0)]
        0 <= start < messages.len() && based(messages, capabilities, links, start, t0) && valid(
            paths,
            links,
            way,
            start,
        ) && way.len() < level + 1 implies reaches(
        front2[arrives(links, way, start)],
        result(paths, way, t0),
    ) by {
        if way.len() == 0 {
            if count(messages[start], t0) > 0 {
                assert(reaches(front1[start], t0));
            } else {
                let e = choose|e: int|
                    0 <= e < links.len() && (#[trigger] links[e]).to == start && count(
                        capabilities[links[e].from as int],
                        t0,
                    ) > 0;
                assert(links[e].from < out1.len());
                assert(reaches(out1[links[e].from as int], t0));
                assert(reaches(out2[links[e].from as int], t0));
                lemma_covers_link(front2, out2, links, e, t0);
            }
        } else {
            let shorter = way.drop_last();
            let p = way.last().0;
            let e = way.last().1;
            let f = arrives(links, shorter, start);
            let before = result(paths, shorter, t0);
            assert(valid(paths, links, shorter, start));
            assert(hop_ok(paths, links, way.last()));
            assert(paths[p].from == f);
            lemma_stays(paths, links, shorter, start, front0.len() as int);
            assert(shorter.len() < level);
            assert(reaches(front0[arrives(links, shorter, start)], result(paths, shorter, t0)));
            assert(reaches(front0[f], before));
            assert(reaches(front1[f], before));
            lemma_covers_path(front1, out2, paths, p, before);
            lemma_covers_link(front2, out2, links, e, paths[p].summary.advance(before));
        }
    }
}

/// Once the frontiers of the inputs reach what every way of fewer hops than
/// there are inputs leads to, the outputs reach what the paths make of every
/// member of those frontiers: a longer way reaches nothing new.
proof fn lemma_carried_late<T: PartialOrder, S: PathSummary<T>>(
    front0: Seq<Set<T>>,
    front1: Seq<Set<T>>,
    out2: Seq<Set<T>>,
    front2: Seq<Set<T>>,
    messages: Seq<Map<T, int>>,
    capabilities: Seq<Map<T, int>>,
    paths: Seq<Path<S>>,
    links: Seq<Link>,
    level: int,
)
    requires
        in_range(paths, links, front0.len(), out2.len()),
        front0.len() == messages.len(),
        front2.len() == front0.len(),
        level >= front0.len(),
        covered(front0, messages, capabilities, paths, links, level),
        extends(front0, front1),
        carried(paths, front1, out2),
        rooted(front2, out2, messages, capabilities, paths, links),
    ensures
        carried(paths, front2, out2),
{
    assert forall|p: int, t: T|
        0 <= p < paths.len() && #[trigger] front2[paths[p].from as int].contains(
            t,
        ) implies reaches(out2[paths[p].to as int], paths[p].summary.advance(t)) by {
        let f = paths[p].from as int;
        assert(0 <= f < front2.len());
        assert(walked(messages, capabilities, paths, links, f, t));
        let (start, t0, way) = choose|start: int, t0: T, way: Seq<(int, int)>|
            #![trigger valid(paths, links, way, start), result(paths, way, t0)]
            0 <= start < messages.len() && based(messages, capabilities, links, start, t0) && valid(
                paths,
                links,
                way,
                start,
            ) && arrives(links, way, start) == f && result(paths, way, t0) == t;
        let short = lemma_short(paths, links, way, start, t0, front0.len() as int);
        let early = result(paths, short, t0);
        assert(valid(paths, links, short, start) && result(paths, short, t0) == early);
        assert(reaches(front0[f], early));
        assert(reaches(front1[f], early));
        lemma_covers_path(front1, out2, paths, p, early);
        let sigma = paths[p].summary;
        let b = choose|b: T| out2[paths[p].to as int].contains(b) && #[trigger] b.precedes(
            sigma.advance(early),
        );
        S::monotone(sigma, early, t);
        T::transitive(b, sigma.advance(early), sigma.advance(t));
        assert(out2[paths[p].to as int].contains(b) && b.precedes(sigma.advance(t)));
    }
}

/// What holds of the frontiers after `done` rounds of the search.
#[verifier::opaque]
pub open spec fn searched<T: PartialOrder, S: PathSummary<T>>(
    front: Seq<Set<T>>,
    out: Seq<Set<T>>,
    messages: Seq<Map<T, int>>,
    capabilities: Seq<Map<T, int>>,
    paths: Seq<Path<S>>,
    links: Seq<Link>,
    done: int,
) -> bool {
    &&& front.len() == messages.len()
    &&& out.len() == capabilities.len()
    &&& grounded(front, out, messages, capabilities, paths, links)
    &&& all_empty(messages) && all_empty(capabilities) ==> all_closed(front) && all_closed(out)
    &&& done >= 1 ==> seeded(messages, front) && seeded(capabilities, out) && linked(
        links,
        out,
        front,
    )
    &&& rooted(front, out, messages, capabilities, paths, links)
    &&& covered(front, messages, capabilities, paths, links, done)
    &&& done >= messages.len() + 1 ==> carried(paths, front, out)
}

/// What holds of frontiers that were found.
pub open spec fn found_right<T: PartialOrder, S: PathSummary<T>>(
    front: Seq<Set<T>>,
    out: Seq<Set<T>>,
    messages: Seq<Map<T, int>>,
    capabilities: Seq<Map<T, int>>,
    paths: Seq<Path<S>>,
    links: Seq<Link>,
) -> bool {
    &&& covers(front, out, messages, capabilities, paths, links)
    &&& grounded(front, out, messages, capabilities, paths, links)
    &&& rooted(front, out, messages, capabilities, paths, links)
    &&& all_empty(messages) && all_empty(capabilities) ==> all_closed(front) && all_closed(out)
}

/// One round of the search: the four passes, one after another. Says
/// whether a frontier changed.
fn round<T: Timestamp>(
    messages: &Vec<CountMap<T>>,
    capabilities: &Vec<CountMap<T>>,
    paths: &Vec<Path<T::Summary>>,
    links: &Vec<Link>,
    front: &mut Vec<Antichain<T>>,
    out: &mut Vec<Antichain<T>>,
    Ghost(done): Ghost<int>,
) -> (changed: bool)
    requires
        in_range(paths@, links@, messages@.len(), capabilities@.len()),
        done >= 0,
        searched(
            fronts(old(front)@),
            fronts(old(out)@),
            ledgers(messages@),
            ledgers(capabilities@),
            paths@,
            links@,
            done,
        ),
    ensures
        final(front)@.len() == messages@.len(),
        final(out)@.len() == capabilities@.len(),
        searched(
            fronts(final(front)@),
            fronts(final(out)@),
            ledgers(messages@),
            ledgers(capabilities@),
            paths@,
            links@,
            done + 1,
        ),
        !changed ==> found_right(
            fronts(final(front)@),
            fronts(final(out)@),
            ledgers(messages@),
            ledgers(capabilities@),
            paths@,
            links@,
        ),
        all_empty(ledgers(messages@)) && all_empty(ledgers(capabilities@)) ==> !changed,
        done >= messages@.len() + 1 ==> !changed,
{
    let ghost sent = ledgers(messages@);
    let ghost held = ledgers(capabilities@);
    let ghost front0 = fronts(front@);
    let ghost out0 = fronts(out@);
    proof {
        reveal(searched);
        assert(front0.len() == messages@.len());
    }
    let a = seed(messages, front);
    let ghost front1 = fronts(front@);
    proof {
        lemma_front_grew(front0, front1, out0, sent, held, paths@, links@);
        lemma_rooted_front_seeded(front0, front1, out0, sent, held, paths@, links@);
    }
    let b = seed(capabilities, out);
    let ghost out1 = fronts(out@);
    proof {
        lemma_out_grew(out0, out1, front1, sent, held, paths@, links@);
        lemma_rooted_out_made(out0, out1, front1, sent, held, paths@, links@);
    }
    let c = follow_paths(paths, front, out);
    let ghost out2 = fronts(out@);
    proof {
        lemma_out_grew(out1, out2, front1, sent, held, paths@, links@);
        lemma_rooted_out_made(out1, out2, front1, sent, held, paths@, links@);
        lemma_seeded_extends(held, out1, out2);
    }
    let d = follow_links(links, out, front);
    let ghost front2 = fronts(front@);
    proof {
        lemma_front_grew(front1, front2, out2, sent, held, paths@, links@);
        lemma_rooted_front_brought(front1, front2, out2, sent, held, paths@, links@);
        lemma_seeded_extends(sent, front1, front2);
        lemma_cover_round(
            front0,
            front1,
            out1,
            out2,
            front2,
            sent,
            held,
            paths@,
            links@,
            done,
        );
        if done >= messages@.len() {
            lemma_carried_late(
                front0,
                front1,
                out2,
                front2,
                sent,
                held,
                paths@,
                links@,
                done,
            );
        }
    }
    a || b || c || d
}

/// The frontiers of all inputs and of all outputs that follow from the
/// outstanding messages and capabilities, and whether they were found. Found
/// frontiers leave nothing out and hold nothing without a reason; where
/// nothing is outstanding they have no members. They are always found: a
/// way of as many hops as there are inputs comes twice to one input, and
/// reaches nothing that the way without the round trip does not reach.
pub fn settle<T: Timestamp>(
    messages: &Vec<CountMap<T>>,
    capabilities: &Vec<CountMap<T>>,
    paths: &Vec<Path<T::Summary>>,
    links: &Vec<Link>,
) -> (found: (Vec<Antichain<T>>, Vec<Antichain<T>>, bool))
    requires
        in_range(paths@, links@, messages@.len(), capabilities@.len()),
    ensures
        found.0@.len() == messages@.len(),
        found.1@.len() == capabilities@.len(),
        found.2 ==> found_right(
            fronts(found.0@),
            fronts(found.1@),
            ledgers(messages@),
            ledgers(capabilities@),
            paths@,
            links@,
        ),
        found.2,
{
    let mut front: Vec<Antichain<T>> = closed_frontiers(messages.len());
    let mut out: Vec<Antichain<T>> = closed_frontiers(capabilities.len());
    let mut rounds: usize = messages.len();
    let mut spare: bool = true;
    let ghost done: int = 0;
    proof {
        reveal(searched);
        assert(searched(
            fronts(front@),
            fronts(out@),
            ledgers(messages@),
            ledgers(capabilities@),
            paths@,
            links@,
            0,
        ));
    }
    loop
        invariant
            in_range(paths@, links@, messages@.len(), capabilities@.len()),
            done >= 0,
            done + rounds + (if spare { 1int } else { 0int }) == messages@.len() + 1,
            searched(
                fronts(front@),
                fronts(out@),
                ledgers(messages@),
                ledgers(capabilities@),
                paths@,
                links@,
                done,
            ),
        decreases rounds + (if spare { 1int } else { 0int }),
    {
        let changed = round(messages, capabilities, paths, links, &mut front, &mut out, Ghost(done));
        if !changed {
            return (front, out, true);
        }
        if rounds == 0 {
            if !spare {
                return (front, out, false);
            }
            spare = false;
        } else {
            rounds -= 1;
        }
        proof {
            done = done + 1;
        }
    }
}

/// How a frontier changed: one more for each new member, one fewer for each
/// member that left.
pub open spec fn change<T>(told: Set<T>, now: Set<T>) -> Map<T, int> {
    Map::new(
        |t: T| now.contains(t) != told.contains(t),
        |t: T|
            if now.contains(t) {
                1int
            } else {
                -1int
            },
    )
}

proof fn lemma_distinct<T: PartialOrder>(list: Seq<T>, i: int, j: int)
    requires
        incomparable(list),
        0 <= i < list.len(),
        0 <= j < list.len(),
        i != j,
    ensures
        list[i] != list[j],
{
    T::reflexive(list[i]);
}

/// The changes that lead from the frontier `told` to the frontier `now`.
pub fn difference<T: Timestamp>(told: &Antichain<T>, now: &Antichain<T>) -> (delta: CountMap<T>)
    ensures
        delta@ == change(told@, now@),
{
    let mut delta: CountMap<T> = CountMap::new();
    let fresh = now.elements();
    let mut k: usize = 0;
    assert(delta@ =~= Map::new(|t: T| fresh@.take(0).contains(t), |t: T| 1int));
    while k < fresh.len()
        invariant
            k <= fresh@.len(),
            incomparable(fresh@),
            delta@ == Map::new(|t: T| fresh@.take(k as int).contains(t), |t: T| 1int),
        decreases fresh@.len() - k,
    {
        let t = fresh[k];
        proof {
            let front = fresh@.take(k as int);
            assert(fresh@.take(k + 1) =~= front.push(t));
            if front.contains(t) {
                let i = choose|i: int| 0 <= i < front.len() && front[i] == t;
                lemma_distinct(fresh@, i, k as int);
            }
            let next = fresh@.take(k + 1);
            assert forall|u: T| next.contains(u) <==> (front.contains(u) || u == t) by {
                if front.contains(u) {
                    let i = choose|i: int| 0 <= i < front.len() && front[i] == u;
                    assert(next[i] == u);
                }
                if next.contains(u) {
                    let i = choose|i: int| 0 <= i < next.len() && next[i] == u;
                    if i < k {
                        assert(front[i] == u);
                    }
                }
                assert(next[k as int] == t);
            }
        }
        delta.update(&t, 1);
        proof {
            assert(delta@ =~= Map::new(|u: T| fresh@.take(k + 1).contains(u), |u: T| 1int));
        }
        k += 1;
    }
    assert(fresh@.take(fresh@.len() as int) =~= fresh@);
    let stale = told.elements();
    let mut k: usize = 0;
    assert(delta@ =~= Map::new(
        |t: T| now@.contains(t) != stale@.take(0).contains(t),
        |t: T|
            if now@.contains(t) {
                1int
            } else {
                -1int
            },
    ));
    while k < stale.len()
        invariant
            k <= stale@.len(),
            incomparable(stale@),
            delta@ == Map::new(
                |t: T| now@.contains(t) != stale@.take(k as int).contains(t),
                |t: T|
                    if now@.contains(t) {
                        1int
                    } else {
                        -1int
                    },
            ),
        decreases stale@.len() - k,
    {
        let t = stale[k];
        proof {
            let front = stale@.take(k as int);
            assert(stale@.take(k + 1) =~= front.push(t));
            if front.contains(t) {
                let i = choose|i: int| 0 <= i < front.len() && front[i] == t;
                lemma_distinct(stale@, i, k as int);
            }
            let next = stale@.take(k + 1);
            assert forall|u: T| next.contains(u) <==> (front.contains(u) || u == t) by {
                if front.contains(u) {
                    let i = choose|i: int| 0 <= i < front.len() && front[i] == u;
                    assert(next[i] == u);
                }
                if next.contains(u) {
                    let i = choose|i: int| 0 <= i < next.len() && next[i] == u;
                    if i < k {
                        assert(front[i] == u);
                    }
                }
                assert(next[k as int] == t);
            }
        }
        delta.update(&t, -1);
        proof {
            assert(delta@ =~= Map::new(
                |u: T| now@.contains(u) != stale@.take(k + 1).contains(u),
                |u: T|
                    if now@.contains(u) {
                        1int
                    } else {
                        -1int
                    },
            ));
        }
        k += 1;
    }
    proof {
        assert(stale@.take(stale@.len() as int) =~= stale@);
        assert(delta@ =~= change(told@, now@));
    }
    delta
}

} // verus!
