//! Requests to be told when a time is complete, held until the frontier has
//! passed the time.

use vstd::prelude::*;
use crate::progress::count_map::{
    as_map, bump, canonical, clamp, count, holds, lemma_push, place, plus, CountMap,
};
use crate::progress::frontier::{guards, MutableAntichain};
use crate::progress::timestamp::Timestamp;

verus! {

/// Some frontier of `frontiers` holds a time that precedes `t`: data at `t`
/// may still arrive.
pub open spec fn blocked<T: Timestamp>(frontiers: Seq<Map<T, int>>, t: T) -> bool {
    exists|i: int| 0 <= i < frontiers.len() && guards(#[trigger] frontiers[i], t)
}

/// The requests of `all` whose time may still receive data.
pub open spec fn held<T: Timestamp>(all: Map<T, int>, frontiers: Seq<Map<T, int>>) -> Map<
    T,
    int,
> {
    all.restrict(Set::new(|t: T| blocked(frontiers, t)))
}

/// The requests of `all` whose time can receive no more data.
pub open spec fn released<T: Timestamp>(all: Map<T, int>, frontiers: Seq<Map<T, int>>) -> Map<
    T,
    int,
> {
    all.restrict(Set::new(|t: T| !blocked(frontiers, t)))
}

/// The frontiers after the deltas of each input are added to the frontier of
/// that input; an input without a frontier so far starts with an empty one.
pub open spec fn applied<T: Timestamp>(
    frontiers: Seq<Map<T, int>>,
    deltas: Seq<Map<T, int>>,
) -> Seq<Map<T, int>> {
    Seq::new(
        if frontiers.len() >= deltas.len() {
            frontiers.len()
        } else {
            deltas.len()
        },
        |i: int|
            plus(
                if i < frontiers.len() {
                    frontiers[i]
                } else {
                    Map::empty()
                },
                if i < deltas.len() {
                    deltas[i]
                } else {
                    Map::empty()
                },
            ),
    )
}

/// The counts that a vertex has stored for its input `k`: none where it has
/// heard nothing of that input.
pub open spec fn stored<T>(frontier: Seq<Map<T, int>>, k: int) -> Map<T, int> {
    if 0 <= k < frontier.len() {
        frontier[k]
    } else {
        Map::empty()
    }
}

/// The changes take nothing away that was not there: no count of a frontier
/// becomes negative.
pub open spec fn admits<T>(frontier: Seq<Map<T, int>>, external: Seq<Map<T, int>>) -> bool {
    forall|k: int, t: T|
        0 <= k < external.len() ==> count(stored(frontier, k), t) + #[trigger] count(
            external[k],
            t,
        ) >= 0
}

/// What each ledger of a list holds.
pub open spec fn ledgers<T: Timestamp>(maps: Seq<CountMap<T>>) -> Seq<Map<T, int>> {
    Seq::new(maps.len(), |i: int| maps[i]@)
}

/// What each frontier of a list holds.
pub open spec fn counts_of<T: Timestamp>(frontiers: Seq<MutableAntichain<T>>) -> Seq<
    Map<T, int>,
> {
    Seq::new(frontiers.len(), |i: int| frontiers[i]@)
}

/// The negative of a count, stopped at the largest `i64`.
pub fn capped_neg(c: i64) -> (n: i64)
    ensures
        n == clamp(-c),
{
    if c == i64::MIN {
        i64::MAX
    } else {
        -c
    }
}

/// Holds the requests of one operator to be notified at a time, and the
/// frontier of each of its inputs. A request becomes available once no
/// frontier holds a time that precedes its time.
pub struct Notificator<T: Timestamp> {
    pending: CountMap<T>,
    frontier: Vec<MutableAntichain<T>>,
    available: CountMap<T>,
    changes: CountMap<T>,
}

impl<T: Timestamp> Notificator<T> {
    #[verifier::type_invariant]
    spec fn well_formed(self) -> bool {
        &&& forall|t: T| #[trigger]
            self.available@.dom().contains(t) ==> !blocked(counts_of(self.frontier@), t)
        &&& forall|t: T| #[trigger] self.available@.dom().contains(t) ==> self.available@[t] >= 1
        &&& forall|t: T| #[trigger] self.pending@.dom().contains(t) ==> self.pending@[t] >= 1
    }

    /// The requests that wait for the frontier, with the number of times
    /// each was made.
    pub closed spec fn pending(self) -> Map<T, int> {
        self.pending@
    }

    /// The requests that are ready to be delivered.
    pub closed spec fn available(self) -> Map<T, int> {
        self.available@
    }

    /// The changes to the operator's capabilities that were not reported yet.
    pub closed spec fn changes(self) -> Map<T, int> {
        self.changes@
    }

    /// The counts behind the frontier of each input.
    pub closed spec fn frontiers(self) -> Seq<Map<T, int>> {
        counts_of(self.frontier@)
    }

    /// Every count that a notificator holds is an `i64` other than zero.
    pub proof fn lemma_counts(self)
        ensures
            forall|t: T| #[trigger]
                self.pending().dom().contains(t) ==> self.pending()[t] != 0 && i64::MIN
                    <= self.pending()[t] <= i64::MAX,
            forall|t: T| #[trigger]
                self.available().dom().contains(t) ==> self.available()[t] != 0 && i64::MIN
                    <= self.available()[t] <= i64::MAX,
            forall|t: T| #[trigger]
                self.changes().dom().contains(t) ==> self.changes()[t] != 0 && i64::MIN
                    <= self.changes()[t] <= i64::MAX,
    {
        self.pending.lemma_counts();
        self.available.lemma_counts();
        self.changes.lemma_counts();
    }

    /// Every count behind a frontier of the notificator is an `i64` other
    /// than zero.
    pub proof fn lemma_frontier_counts(self, i: int)
        requires
            0 <= i < self.frontiers().len(),
        ensures
            forall|t: T| #[trigger]
                self.frontiers()[i].dom().contains(t) ==> self.frontiers()[i][t] != 0 && i64::MIN
                    <= self.frontiers()[i][t] <= i64::MAX,
    {
        self.frontier@[i].lemma_counts();
    }

    /// What holds of every notificator at every moment: no request that is
    /// ready is for a time that a frontier may still reach, and every
    /// request, ready or waiting, was made at least once.
    pub fn settled(&self)
        ensures
            forall|t: T| #[trigger]
                self.available().dom().contains(t) ==> !blocked(self.frontiers(), t)
                    && self.available()[t] >= 1,
            forall|t: T| #[trigger] self.pending().dom().contains(t) ==> self.pending()[t] >= 1,
    {
        proof {
            use_type_invariant(self);
        }
    }

    /// A notificator without requests and without frontiers.
    pub fn new() -> (fresh: Self)
        ensures
            fresh.pending() == Map::<T, int>::empty(),
            fresh.available() == Map::<T, int>::empty(),
            fresh.changes() == Map::<T, int>::empty(),
            fresh.frontiers() == Seq::<Map<T, int>>::empty(),
    {
        let fresh = Notificator {
            pending: CountMap::new(),
            frontier: Vec::new(),
            available: CountMap::new(),
            changes: CountMap::new(),
        };
        assert(fresh.frontiers() =~= Seq::<Map<T, int>>::empty());
        fresh
    }

    /// Asks for a notification at `time`. The request waits until a frontier
    /// update shows that no data can arrive at `time` any more.
    pub fn notify_at(&mut self, time: &T)
        ensures
            final(self).pending() == bump(old(self).pending(), *time, 1),
            final(self).changes() == bump(old(self).changes(), *time, 1),
            final(self).available() == old(self).available(),
            final(self).frontiers() == old(self).frontiers(),
    {
        proof {
            use_type_invariant(&*self);
        }
        let mut changes: CountMap<T> = CountMap::new();
        core::mem::swap(&mut self.changes, &mut changes);
        changes.update(time, 1);
        self.changes = changes;
        let mut pending: CountMap<T> = CountMap::new();
        core::mem::swap(&mut self.pending, &mut pending);
        pending.update(time, 1);
        self.pending = pending;
    }

    /// Moves the changes to the operator's capabilities into `internal`: one
    /// more for each request made, as many fewer as requests were delivered.
    pub fn pull_progress(&mut self, internal: &mut CountMap<T>)
        ensures
            final(internal)@ == plus(old(internal)@, old(self).changes()),
            final(self).changes() == Map::<T, int>::empty(),
            final(self).pending() == old(self).pending(),
            final(self).available() == old(self).available(),
            final(self).frontiers() == old(self).frontiers(),
    {
        proof {
            use_type_invariant(&*self);
        }
        let mut changes: CountMap<T> = CountMap::new();
        core::mem::swap(&mut self.changes, &mut changes);
        changes.drain_into(internal);
    }

    /// Delivers one request that is ready, with the number of times it was
    /// made, which is at least one, and records that the capability for its
    /// time is given up. A request is never delivered while a frontier holds
    /// a time that precedes its time.
    pub fn next(&mut self) -> (ready: Option<(T, i64)>)
        ensures
            final(self).pending() == old(self).pending(),
            final(self).frontiers() == old(self).frontiers(),
            match ready {
                Some((t, c)) => {
                    &&& c >= 1
                    &&& !blocked(old(self).frontiers(), t)
                    &&& old(self).available().dom().contains(t)
                    &&& old(self).available()[t] == c
                    &&& final(self).available() == old(self).available().remove(t)
                    &&& final(self).changes() == bump(old(self).changes(), t, clamp(-c))
                },
                None => {
                    &&& old(self).available() == Map::<T, int>::empty()
                    &&& final(self).available() == old(self).available()
                    &&& final(self).changes() == old(self).changes()
                },
            },
    {
        proof {
            use_type_invariant(&*self);
        }
        let mut available: CountMap<T> = CountMap::new();
        core::mem::swap(&mut self.available, &mut available);
        let ready = available.pop();
        self.available = available;
        match ready {
            Some((t, c)) => {
                let mut changes: CountMap<T> = CountMap::new();
                core::mem::swap(&mut self.changes, &mut changes);
                changes.update(&t, capped_neg(c));
                self.changes = changes;
            },
            None => {},
        }
        ready
    }

    fn is_blocked(frontier: &Vec<MutableAntichain<T>>, time: &T) -> (b: bool)
        ensures
            b == blocked(counts_of(frontier@), *time),
    {
        let mut i: usize = 0;
        while i < frontier.len()
            invariant
                i <= frontier@.len(),
                forall|j: int| 0 <= j < i ==> !guards(#[trigger] counts_of(frontier@)[j], *time),
            decreases frontier@.len() - i,
        {
            if frontier[i].contains_leq(time) {
                assert(guards(counts_of(frontier@)[i as int], *time));
                return true;
            }
            i += 1;
        }
        false
    }

    /// Adds the deltas of each input to the frontier of that input, leaving
    /// `count_map` empty, and then sorts the requests anew: those whose time
    /// no frontier can reach any more become ready, the others wait. The
    /// deltas must take nothing away that was not there.
    pub fn update_frontier_from_cm(&mut self, count_map: &mut [CountMap<T>])
        requires
            admits(old(self).frontiers(), ledgers(old(count_map)@)),
        ensures
            final(count_map)@.len() == old(count_map)@.len(),
            forall|i: int|
                0 <= i < final(count_map)@.len() ==> (#[trigger] final(count_map)@[i])@
                    == Map::<T, int>::empty(),
            final(self).frontiers() == applied(old(self).frontiers(), ledgers(old(count_map)@)),
            final(self).pending() == held(
                plus(old(self).pending(), old(self).available()),
                final(self).frontiers(),
            ),
            final(self).available() == released(
                plus(old(self).pending(), old(self).available()),
                final(self).frontiers(),
            ),
            final(self).changes() == old(self).changes(),
    {
        proof {
            use_type_invariant(&*self);
        }
        let ghost old_frontiers = self.frontiers();
        let ghost old_deltas = ledgers(count_map@);
        let mut available: CountMap<T> = CountMap::new();
        core::mem::swap(&mut self.available, &mut available);
        let mut pending: CountMap<T> = CountMap::new();
        core::mem::swap(&mut self.pending, &mut pending);
        let mut frontier: Vec<MutableAntichain<T>> = Vec::new();
        core::mem::swap(&mut self.frontier, &mut frontier);
        assert(counts_of(frontier@) == old_frontiers);

        while frontier.len() < count_map.len()
            invariant
                frontier@.len() >= old_frontiers.len(),
                frontier@.len() == old_frontiers.len() || frontier@.len() <= count_map@.len(),
                forall|i: int|
                    0 <= i < frontier@.len() ==> (#[trigger] frontier@[i])@ == if i
                        < old_frontiers.len() {
                        old_frontiers[i]
                    } else {
                        Map::<T, int>::empty()
                    },
            decreases count_map@.len() - frontier@.len(),
        {
            frontier.push(MutableAntichain::new());
        }

        let mut i: usize = 0;
        while i < count_map.len()
            invariant
                i <= count_map@.len(),
                count_map@.len() == old_deltas.len(),
                frontier@.len() >= count_map@.len(),
                frontier@.len() >= old_frontiers.len(),
                frontier@.len() == old_frontiers.len() || frontier@.len() == count_map@.len(),
                forall|j: int|
                    0 <= j < i ==> (#[trigger] count_map@[j])@ == Map::<T, int>::empty(),
                forall|j: int| i <= j < count_map@.len() ==> (#[trigger] count_map@[j])@ == old_deltas[j],
                forall|j: int|
                    0 <= j < i ==> (#[trigger] frontier@[j])@ == applied(old_frontiers, old_deltas)[j],
                forall|j: int|
                    i <= j < frontier@.len() ==> (#[trigger] frontier@[j])@ == if j
                        < old_frontiers.len() {
                        old_frontiers[j]
                    } else {
                        Map::<T, int>::empty()
                    },
            decreases count_map@.len() - i,
        {
            frontier[i].update_from(&mut count_map[i]);
            i += 1;
        }
        proof {
            assert forall|j: int| 0 <= j < frontier@.len() implies (#[trigger] frontier@[j])@
                == applied(old_frontiers, old_deltas)[j] by {
                if j >= count_map@.len() {
                    frontier@[j].lemma_counts();
                    assert(plus(old_frontiers[j], Map::<T, int>::empty()) =~= old_frontiers[j]);
                }
            }
            assert(counts_of(frontier@) =~= applied(old_frontiers, old_deltas));
        }

        let ghost all = plus(pending@, available@);
        available.drain_into(&mut pending);
        let entries = pending.drain();
        let ghost fs = counts_of(frontier@);
        let mut k: usize = 0;
        assert(entries@.take(0) =~= Seq::<(T, i64)>::empty());
        assert(as_map(entries@.take(0)) =~= Map::<T, int>::empty());
        assert(pending@ =~= held(as_map(entries@.take(0)), fs));
        assert(available@ =~= released(as_map(entries@.take(0)), fs));
        while k < entries.len()
            invariant
                k <= entries@.len(),
                canonical(entries@),
                fs == counts_of(frontier@),
                pending@ == held(as_map(entries@.take(k as int)), fs),
                available@ == released(as_map(entries@.take(k as int)), fs),
            decreases entries@.len() - k,
        {
            let t = entries[k].0;
            let c = entries[k].1;
            proof {
                let front = entries@.take(k as int);
                assert(entries@.take(k + 1) =~= front.push((t, c)));
                assert(canonical(front));
                assert(!holds(front, t)) by {
                    if holds(front, t) {
                        let j = place(front, t);
                        assert(entries@[j].0 == entries@[k as int].0);
                    }
                }
                lemma_push(front, t, c);
            }
            if Self::is_blocked(&frontier, &t) {
                pending.update(&t, c);
                proof {
                    assert(pending@ =~= held(as_map(entries@.take(k + 1)), fs));
                    assert(available@ =~= released(as_map(entries@.take(k + 1)), fs));
                }
            } else {
                available.update(&t, c);
                proof {
                    assert(pending@ =~= held(as_map(entries@.take(k + 1)), fs));
                    assert(available@ =~= released(as_map(entries@.take(k + 1)), fs));
                }
            }
            k += 1;
        }
        assert(entries@.take(entries@.len() as int) =~= entries@);
        proof {
            assert forall|t: T| #[trigger] all.dom().contains(t) implies all[t] >= 1 by {
                if old(self).pending@.dom().contains(t) {
                    assert(old(self).pending@[t] >= 1);
                }
                if old(self).available@.dom().contains(t) {
                    assert(old(self).available@[t] >= 1);
                }
            }
        }
        self.frontier = frontier;
        self.pending = pending;
        self.available = available;
    }
}

} // verus!
