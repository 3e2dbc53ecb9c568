//! Ways through the graph, hop by hop, and why a long way reaches nothing
//! that a short way does not reach.

use vstd::prelude::*;
use vstd::set_lib::{lemma_int_range, lemma_len_subset, set_int_range};
use crate::progress::reachability::{Link, Path};
use crate::progress::timestamp::{PartialOrder, PathSummary};

verus! {

/// A hop is a path through a vertex and a channel that starts where the
/// path ends; it is named by the numbers of the two.
pub open spec fn hop_ok<S>(paths: Seq<Path<S>>, links: Seq<Link>, hop: (int, int)) -> bool {
    &&& 0 <= hop.0 < paths.len()
    &&& 0 <= hop.1 < links.len()
    &&& links[hop.1].from == paths[hop.0].to
}

/// The input at which a way that starts at the input `start` arrives.
pub open spec fn arrives(links: Seq<Link>, way: Seq<(int, int)>, start: int) -> int {
    if way.len() == 0 {
        start
    } else {
        links[way.last().1].to as int
    }
}

/// The hops of the way follow one another, from the input `start` on.
pub open spec fn valid<S>(
    paths: Seq<Path<S>>,
    links: Seq<Link>,
    way: Seq<(int, int)>,
    start: int,
) -> bool
    decreases way.len(),
{
    if way.len() == 0 {
        true
    } else {
        &&& valid(paths, links, way.drop_last(), start)
        &&& hop_ok(paths, links, way.last())
        &&& paths[way.last().0].from == arrives(links, way.drop_last(), start)
    }
}

/// The time that `t` has become at the end of the way.
pub open spec fn result<T: PartialOrder, S: PathSummary<T>>(
    paths: Seq<Path<S>>,
    way: Seq<(int, int)>,
    t: T,
) -> T
    decreases way.len(),
{
    if way.len() == 0 {
        t
    } else {
        paths[way.last().0].summary.advance(result(paths, way.drop_last(), t))
    }
}

/// A way never leads back in time.
pub proof fn lemma_result_grows<T: PartialOrder, S: PathSummary<T>>(
    paths: Seq<Path<S>>,
    way: Seq<(int, int)>,
    t: T,
)
    ensures
        t.precedes(result(paths, way, t)),
    decreases way.len(),
{
    if way.len() == 0 {
        T::reflexive(t);
    } else {
        let before = result(paths, way.drop_last(), t);
        lemma_result_grows(paths, way.drop_last(), t);
        S::inflationary(paths[way.last().0].summary, before);
        T::transitive(t, before, result(paths, way, t));
    }
}

/// A way keeps the order of times.
pub proof fn lemma_result_keeps_order<T: PartialOrder, S: PathSummary<T>>(
    paths: Seq<Path<S>>,
    way: Seq<(int, int)>,
    a: T,
    b: T,
)
    requires
        a.precedes(b),
    ensures
        result(paths, way, a).precedes(result(paths, way, b)),
    decreases way.len(),
{
    if way.len() > 0 {
        lemma_result_keeps_order(paths, way.drop_last(), a, b);
        S::monotone(
            paths[way.last().0].summary,
            result(paths, way.drop_last(), a),
            result(paths, way.drop_last(), b),
        );
    }
}

/// A way made of two: it is valid when both parts are, it arrives where the
/// second part arrives, and it leads to what the second part makes of what
/// the first part leads to.
pub proof fn lemma_joined<T: PartialOrder, S: PathSummary<T>>(
    paths: Seq<Path<S>>,
    links: Seq<Link>,
    a: Seq<(int, int)>,
    b: Seq<(int, int)>,
    start: int,
    t: T,
)
    ensures
        valid(paths, links, a + b, start) == (valid(paths, links, a, start) && valid(
            paths,
            links,
            b,
            arrives(links, a, start),
        )),
        arrives(links, a + b, start) == arrives(links, b, arrives(links, a, start)),
        result(paths, a + b, t) == result(paths, b, result(paths, a, t)),
    decreases b.len(),
{
    if b.len() == 0 {
        assert(a + b =~= a);
    } else {
        assert((a + b).drop_last() =~= a + b.drop_last());
        assert((a + b).last() == b.last());
        lemma_joined(paths, links, a, b.drop_last(), start, t);
    }
}

/// Cutting out a stretch that ends where it began leaves a valid way to the
/// same input that leads to no later time.
pub proof fn lemma_cut<T: PartialOrder, S: PathSummary<T>>(
    paths: Seq<Path<S>>,
    links: Seq<Link>,
    way: Seq<(int, int)>,
    start: int,
    t: T,
    i: int,
    j: int,
)
    requires
        valid(paths, links, way, start),
        0 <= i < j <= way.len(),
        arrives(links, way.take(i), start) == arrives(links, way.take(j), start),
    ensures
        valid(paths, links, way.take(i) + way.skip(j), start),
        arrives(links, way.take(i) + way.skip(j), start) == arrives(links, way, start),
        result(paths, way.take(i) + way.skip(j), t).precedes(result(paths, way, t)),
        (way.take(i) + way.skip(j)).len() < way.len(),
{
    let a = way.take(i);
    let c = way.subrange(i, j);
    let b = way.skip(j);
    assert(a + c =~= way.take(j));
    assert((a + c) + b =~= way);
    lemma_joined(paths, links, a + c, b, start, t);
    lemma_joined(paths, links, a, c, start, t);
    lemma_joined(paths, links, a, b, start, t);
    let first = result(paths, a, t);
    lemma_result_grows(paths, c, first);
    lemma_result_keeps_order(paths, b, first, result(paths, c, first));
}

/// A valid way stays among the inputs.
pub proof fn lemma_stays<S>(
    paths: Seq<Path<S>>,
    links: Seq<Link>,
    way: Seq<(int, int)>,
    start: int,
    inputs: int,
)
    requires
        valid(paths, links, way, start),
        0 <= start < inputs,
        forall|e: int| 0 <= e < links.len() ==> (#[trigger] links[e]).to < inputs,
    ensures
        0 <= arrives(links, way, start) < inputs,
{
    if way.len() > 0 {
        assert(hop_ok(paths, links, way.last()));
    }
}

/// The beginning of a valid way is a valid way.
pub proof fn lemma_begins<S>(
    paths: Seq<Path<S>>,
    links: Seq<Link>,
    way: Seq<(int, int)>,
    start: int,
    k: int,
)
    requires
        valid(paths, links, way, start),
        0 <= k <= way.len(),
    ensures
        valid(paths, links, way.take(k), start),
    decreases way.len(),
{
    if k == way.len() {
        assert(way.take(k) =~= way);
    } else {
        assert(way.drop_last().take(k) =~= way.take(k));
        lemma_begins(paths, links, way.drop_last(), start, k);
    }
}

/// A valid way with at least as many hops as there are inputs comes twice to
/// the same input.
pub proof fn lemma_repeats<S>(
    paths: Seq<Path<S>>,
    links: Seq<Link>,
    way: Seq<(int, int)>,
    start: int,
    inputs: int,
) -> (at: (int, int))
    requires
        valid(paths, links, way, start),
        0 <= start < inputs,
        forall|e: int| 0 <= e < links.len() ==> (#[trigger] links[e]).to < inputs,
        way.len() >= inputs,
    ensures
        0 <= at.0 < at.1 <= way.len(),
        arrives(links, way.take(at.0), start) == arrives(links, way.take(at.1), start),
{
    let places = Seq::new((way.len() + 1) as nat, |k: int| arrives(links, way.take(k), start));
    if places.no_duplicates() {
        places.unique_seq_to_set();
        lemma_int_range(0, inputs);
        assert forall|x: int| places.to_set().contains(x) implies set_int_range(0, inputs).contains(
            x,
        ) by {
            let k = choose|k: int| 0 <= k < places.len() && places[k] == x;
            lemma_begins(paths, links, way, start, k);
            lemma_stays(paths, links, way.take(k), start, inputs);
        }
        lemma_len_subset(places.to_set(), set_int_range(0, inputs));
        assert(false);
    }
    let (i, j) = choose|i: int, j: int|
        0 <= i < places.len() && 0 <= j < places.len() && i != j && places[i] == places[j];
    if i < j {
        (i, j)
    } else {
        (j, i)
    }
}

/// For every valid way there is a valid way to the same input with fewer
/// hops than there are inputs that leads to no later time.
pub proof fn lemma_short<T: PartialOrder, S: PathSummary<T>>(
    paths: Seq<Path<S>>,
    links: Seq<Link>,
    way: Seq<(int, int)>,
    start: int,
    t: T,
    inputs: int,
) -> (short: Seq<(int, int)>)
    requires
        valid(paths, links, way, start),
        0 <= start < inputs,
        forall|e: int| 0 <= e < links.len() ==> (#[trigger] links[e]).to < inputs,
    ensures
        valid(paths, links, short, start),
        arrives(links, short, start) == arrives(links, way, start),
        short.len() < inputs,
        result(paths, short, t).precedes(result(paths, way, t)),
    decreases way.len(),
{
    if way.len() < inputs {
        T::reflexive(result(paths, way, t));
        way
    } else {
        let at = lemma_repeats(paths, links, way, start, inputs);
        lemma_cut(paths, links, way, start, t, at.0, at.1);
        let less = way.take(at.0) + way.skip(at.1);
        let short = lemma_short(paths, links, less, start, t, inputs);
        T::transitive(result(paths, short, t), result(paths, less, t), result(paths, way, t));
        short
    }
}

} // verus!
