//! Frontiers: the minimal times that may still appear somewhere.

use vstd::prelude::*;
use crate::progress::count_map::{
    as_map, bump, canonical, count, lemma_entry, place, plus, CountMap,
};
use crate::progress::timestamp::{PartialOrder, Timestamp};

verus! {

/// Some member of `s` precedes `t`.
pub open spec fn reaches<T: PartialOrder>(s: Set<T>, t: T) -> bool {
    exists|a: T| s.contains(a) && #[trigger] a.precedes(t)
}

/// No member of `s` precedes another member.
pub open spec fn minimal<T: PartialOrder>(s: Set<T>) -> bool {
    forall|a: T, b: T| s.contains(a) && s.contains(b) && #[trigger] a.precedes(b) ==> a == b
}

/// `s` after `e` is inserted: nothing changes where a member precedes `e`;
/// otherwise `e` joins and the members that `e` precedes leave.
pub open spec fn inserted<T: PartialOrder>(s: Set<T>, e: T) -> Set<T> {
    if reaches(s, e) {
        s
    } else {
        Set::new(|x: T| x == e || (s.contains(x) && !e.precedes(x)))
    }
}

/// The set that results from inserting `items` one after another, starting
/// with nothing.
pub open spec fn built<T: PartialOrder>(items: Seq<T>) -> Set<T>
    decreases items.len(),
{
    if items.len() == 0 {
        Set::empty()
    } else {
        inserted(built(items.drop_last()), items.last())
    }
}

/// Inserting into a set without comparable members leaves it so.
pub proof fn lemma_inserted_minimal<T: PartialOrder>(s: Set<T>, e: T)
    requires
        minimal(s),
    ensures
        minimal(inserted(s, e)),
{
    let r = inserted(s, e);
    if !reaches(s, e) {
        assert forall|a: T, b: T| r.contains(a) && r.contains(b) && #[trigger] a.precedes(
            b,
        ) implies a == b by {
            if a == e && b != e {
                assert(!e.precedes(b));
            } else if b == e && a != e {
                assert(s.contains(a) && a.precedes(e));
            }
        }
    }
}

/// After an insertion the set reaches what it reached before, and what the
/// inserted time precedes.
pub proof fn lemma_inserted_reaches<T: PartialOrder>(s: Set<T>, e: T, t: T)
    ensures
        reaches(inserted(s, e), t) <==> (reaches(s, t) || e.precedes(t)),
{
    let r = inserted(s, e);
    if reaches(s, e) {
        if e.precedes(t) {
            let a = choose|a: T| s.contains(a) && #[trigger] a.precedes(e);
            T::transitive(a, e, t);
            assert(s.contains(a) && a.precedes(t));
        }
    } else {
        if reaches(r, t) {
            let a = choose|a: T| r.contains(a) && #[trigger] a.precedes(t);
            if a != e {
                assert(s.contains(a) && a.precedes(t));
            }
        }
        if e.precedes(t) {
            assert(r.contains(e) && e.precedes(t));
        }
        if reaches(s, t) {
            let a = choose|a: T| s.contains(a) && #[trigger] a.precedes(t);
            if e.precedes(a) {
                T::transitive(e, a, t);
                assert(r.contains(e) && e.precedes(t));
            } else {
                assert(r.contains(a) && a.precedes(t));
            }
        }
    }
}

/// Whatever is inserted, and in whatever order, no member of the result
/// precedes another member.
pub proof fn lemma_built_minimal<T: PartialOrder>(items: Seq<T>)
    ensures
        minimal(built(items)),
    decreases items.len(),
{
    if items.len() > 0 {
        lemma_built_minimal(items.drop_last());
        lemma_inserted_minimal(built(items.drop_last()), items.last());
    }
}

/// Every member of the result was inserted.
pub proof fn lemma_built_members<T: PartialOrder>(items: Seq<T>, x: T)
    requires
        built(items).contains(x),
    ensures
        items.contains(x),
    decreases items.len(),
{
    if items.len() > 0 {
        let front = items.drop_last();
        if x == items.last() {
            assert(items[items.len() - 1] == x);
        } else {
            lemma_built_members(front, x);
            let i = choose|i: int| 0 <= i < front.len() && front[i] == x;
            assert(items[i] == x);
        }
    }
}

/// The result reaches a time exactly when an inserted time precedes it.
pub proof fn lemma_built_reaches<T: PartialOrder>(items: Seq<T>, t: T)
    ensures
        reaches(built(items), t) <==> exists|i: int|
            0 <= i < items.len() && (#[trigger] items[i]).precedes(t),
    decreases items.len(),
{
    if items.len() > 0 {
        let front = items.drop_last();
        lemma_built_reaches(front, t);
        lemma_inserted_reaches(built(front), items.last(), t);
        if reaches(built(front), t) {
            let i = choose|i: int| 0 <= i < front.len() && (#[trigger] front[i]).precedes(t);
            assert(items[i].precedes(t));
        }
        if items.last().precedes(t) {
            assert(items[items.len() - 1].precedes(t));
        }
        if exists|i: int| 0 <= i < items.len() && (#[trigger] items[i]).precedes(t) {
            let i = choose|i: int| 0 <= i < items.len() && (#[trigger] items[i]).precedes(t);
            if i < front.len() {
                assert(front[i].precedes(t));
            }
        }
    }
}

/// No time of `s` precedes another one at a different place.
pub open spec fn incomparable<T: PartialOrder>(s: Seq<T>) -> bool {
    forall|i: int, j: int|
        0 <= i < s.len() && 0 <= j < s.len() && i != j ==> !(#[trigger] s[i]).precedes(
            #[trigger] s[j],
        )
}

/// The members of `s` that no other member precedes.
pub open spec fn least<T: PartialOrder>(s: Seq<T>) -> Set<T> {
    Set::new(
        |t: T|
            s.contains(t) && forall|j: int|
                0 <= j < s.len() && (#[trigger] s[j]).precedes(t) ==> s[j] == t,
    )
}

proof fn lemma_least_all<T: PartialOrder>(s: Seq<T>)
    requires
        incomparable(s),
    ensures
        forall|t: T| least(s).contains(t) <==> s.contains(t),
{
    assert forall|t: T| s.contains(t) implies least(s).contains(t) by {
        let k = choose|k: int| 0 <= k < s.len() && s[k] == t;
        assert forall|j: int| 0 <= j < s.len() && (#[trigger] s[j]).precedes(t) implies s[j]
            == t by {
            if j != k {
                assert(!s[j].precedes(s[k]));
            }
        }
    }
}

/// A set of times of which none precedes another: the minimal times that are
/// still possible. A time is possible when some member precedes it.
pub struct Antichain<T: PartialOrder> {
    elements: Vec<T>,
}

impl<T: PartialOrder> View for Antichain<T> {
    type V = Set<T>;

    closed spec fn view(&self) -> Set<T> {
        least(self.elements@)
    }
}

impl<T: PartialOrder> Antichain<T> {
    #[verifier::type_invariant]
    spec fn well_formed(self) -> bool {
        incomparable(self.elements@)
    }

    /// No member of an antichain precedes another member.
    pub proof fn lemma_minimal(self)
        ensures
            minimal(self@),
    {
        let s = self.elements@;
        assert forall|a: T, b: T| self@.contains(a) && self@.contains(b) && #[trigger] a.precedes(
            b,
        ) implies a == b by {
            let k = choose|k: int| 0 <= k < s.len() && s[k] == a;
            assert(s[k].precedes(b));
        }
    }

    /// The antichain without members: nothing is possible any more.
    pub fn new() -> (empty: Self)
        ensures
            empty@ == Set::<T>::empty(),
    {
        let empty = Antichain { elements: Vec::new() };
        assert(empty@ =~= Set::<T>::empty());
        empty
    }

    /// The antichain whose one member is `element`.
    pub fn from_elem(element: T) -> (single: Self)
        ensures
            single@ == Set::<T>::empty().insert(element),
    {
        let mut elements: Vec<T> = Vec::new();
        elements.push(element);
        let single = Antichain { elements };
        proof {
            lemma_least_all(single.elements@);
            assert(single.elements@[0] == element);
            assert(single@ =~= Set::<T>::empty().insert(element));
        }
        single
    }

    /// The members, each once, in no particular order.
    pub fn elements(&self) -> (list: &Vec<T>)
        ensures
            incomparable(list@),
            forall|t: T| self@.contains(t) <==> list@.contains(t),
    {
        proof {
            use_type_invariant(self);
            lemma_least_all(self.elements@);
        }
        &self.elements
    }

    /// Whether nothing is possible any more.
    pub fn is_empty(&self) -> (empty: bool)
        ensures
            empty == (self@ == Set::<T>::empty()),
    {
        proof {
            use_type_invariant(self);
            lemma_least_all(self.elements@);
            if self.elements@.len() > 0 {
                assert(self.elements@.contains(self.elements@[0]));
            } else {
                assert(self@ =~= Set::<T>::empty());
            }
        }
        self.elements.len() == 0
    }

    /// Whether `time` is still possible: whether some member precedes it.
    pub fn contains_leq(&self, time: &T) -> (possible: bool)
        ensures
            possible == reaches(self@, *time),
    {
        proof {
            use_type_invariant(self);
            lemma_least_all(self.elements@);
        }
        let found = Self::any_precedes(&self.elements, time);
        proof {
            let s = self.elements@;
            if found {
                let i = choose|i: int| 0 <= i < s.len() && (#[trigger] s[i]).precedes(*time);
                assert(s.contains(s[i]));
                assert(self@.contains(s[i]) && s[i].precedes(*time));
            } else if reaches(self@, *time) {
                let a = choose|a: T| self@.contains(a) && #[trigger] a.precedes(*time);
                let k = choose|k: int| 0 <= k < s.len() && s[k] == a;
                assert(s[k].precedes(*time));
            }
        }
        found
    }

    fn any_precedes(elements: &Vec<T>, time: &T) -> (found: bool)
        ensures
            found == exists|i: int|
                0 <= i < elements@.len() && (#[trigger] elements@[i]).precedes(*time),
    {
        let mut i: usize = 0;
        while i < elements.len()
            invariant
                i <= elements@.len(),
                forall|j: int| 0 <= j < i ==> !(#[trigger] elements@[j]).precedes(*time),
            decreases elements@.len() - i,
        {
            if elements[i].less_equal(time) {
                return true;
            }
            i += 1;
        }
        false
    }

    fn take(&mut self) -> (elements: Vec<T>)
        ensures
            elements@ == old(self).elements@,
            incomparable(elements@),
            final(self).elements@.len() == 0,
    {
        proof {
            use_type_invariant(&*self);
        }
        let mut elements: Vec<T> = Vec::new();
        core::mem::swap(&mut self.elements, &mut elements);
        elements
    }

    /// Inserts `element`. Where a member precedes it, nothing changes;
    /// otherwise it joins and the members that it precedes leave. Says
    /// whether it joined.
    pub fn insert(&mut self, element: T) -> (added: bool)
        ensures
            final(self)@ == inserted(old(self)@, element),
            added == !reaches(old(self)@, element),
    {
        let ghost before = self@;
        let mut elements = self.take();
        let ghost orig = elements@;
        proof {
            lemma_least_all(orig);
        }
        let found = Self::any_precedes(&elements, &element);
        proof {
            if found {
                let i = choose|i: int|
                    0 <= i < orig.len() && (#[trigger] orig[i]).precedes(element);
                assert(orig.contains(orig[i]));
                assert(before.contains(orig[i]) && orig[i].precedes(element));
            } else if reaches(before, element) {
                let a = choose|a: T| before.contains(a) && #[trigger] a.precedes(element);
                let k = choose|k: int| 0 <= k < orig.len() && orig[k] == a;
                assert(orig[k].precedes(element));
            }
        }
        if found {
            self.elements = elements;
            return false;
        }
        let mut kept: Vec<T> = Vec::new();
        while elements.len() > 0
            invariant
                !reaches(before, element),
                forall|x: T| before.contains(x) <==> orig.contains(x),
                incomparable(elements@),
                incomparable(kept@),
                forall|a: int, b: int|
                    0 <= a < kept@.len() && 0 <= b < elements@.len() ==> !(#[trigger] kept@[a]).precedes(
                        #[trigger] elements@[b],
                    ) && !elements@[b].precedes(kept@[a]),
                forall|a: int|
                    0 <= a < kept@.len() ==> !element.precedes(#[trigger] kept@[a])
                        && !kept@[a].precedes(element),
                forall|b: int|
                    0 <= b < elements@.len() ==> !(#[trigger] elements@[b]).precedes(element),
                forall|x: T|
                    (orig.contains(x) && !element.precedes(x)) <==> (kept@.contains(x) || (
                    elements@.contains(x) && !element.precedes(x))),
            decreases elements@.len(),
        {
            let ghost elements_before = elements@;
            let ghost kept_before = kept@;
            let last = elements.pop().unwrap();
            assert(elements@ =~= elements_before.drop_last());
            assert(last == elements_before[elements_before.len() - 1]);
            assert forall|x: T|
                elements_before.contains(x) <==> (elements@.contains(x) || x == last) by {
                if elements_before.contains(x) {
                    let k = choose|k: int| 0 <= k < elements_before.len() && elements_before[k] == x;
                    if k < elements@.len() {
                        assert(elements@[k] == x);
                    }
                }
                if elements@.contains(x) {
                    let k = choose|k: int| 0 <= k < elements@.len() && elements@[k] == x;
                    assert(elements_before[k] == x);
                }
            }
            assert forall|b: int| 0 <= b < elements@.len() implies elements@[b]
                == elements_before[b] by {}
            if !element.less_equal(&last) {
                kept.push(last);
                assert forall|x: T| kept@.contains(x) <==> (kept_before.contains(x) || x == last) by {
                    if kept@.contains(x) {
                        let k = choose|k: int| 0 <= k < kept@.len() && kept@[k] == x;
                        if k < kept_before.len() {
                            assert(kept_before[k] == x);
                        }
                    }
                    if kept_before.contains(x) {
                        let k = choose|k: int| 0 <= k < kept_before.len() && kept_before[k] == x;
                        assert(kept@[k] == x);
                    }
                    assert(kept@[kept_before.len() as int] == last);
                }
                assert forall|a: int, b: int|
                    0 <= a < kept@.len() && 0 <= b < kept@.len() && a != b implies !(
                #[trigger] kept@[a]).precedes(#[trigger] kept@[b]) by {
                    if a < kept_before.len() && b < kept_before.len() {
                        assert(!kept_before[a].precedes(kept_before[b]));
                    } else if a < kept_before.len() {
                        assert(!kept_before[a].precedes(
                            elements_before[elements_before.len() - 1],
                        ));
                    } else {
                        assert(!elements_before[elements_before.len() - 1].precedes(
                            kept_before[b],
                        ));
                    }
                }
                assert forall|a: int, b: int|
                    0 <= a < kept@.len() && 0 <= b < elements@.len() implies !(
                #[trigger] kept@[a]).precedes(#[trigger] elements@[b]) && !elements@[b].precedes(
                    kept@[a],
                ) by {
                    if a < kept_before.len() {
                        assert(!kept_before[a].precedes(elements_before[b]));
                    } else {
                        assert(!elements_before[elements_before.len() - 1].precedes(
                            elements_before[b],
                        ));
                        assert(!elements_before[b].precedes(
                            elements_before[elements_before.len() - 1],
                        ));
                    }
                }
                assert forall|a: int| 0 <= a < kept@.len() implies !element.precedes(
                    #[trigger] kept@[a],
                ) && !kept@[a].precedes(element) by {
                    if a < kept_before.len() {
                        assert(!element.precedes(kept_before[a]));
                    } else {
                        assert(!elements_before[elements_before.len() - 1].precedes(element));
                    }
                }
            } else {
                assert forall|a: int, b: int|
                    0 <= a < kept@.len() && 0 <= b < elements@.len() implies !(
                #[trigger] kept@[a]).precedes(#[trigger] elements@[b]) && !elements@[b].precedes(
                    kept@[a],
                ) by {
                    assert(!kept_before[a].precedes(elements_before[b]));
                }
            }
            assert forall|a: int, b: int|
                0 <= a < elements@.len() && 0 <= b < elements@.len() && a != b implies !(
            #[trigger] elements@[a]).precedes(#[trigger] elements@[b]) by {
                assert(!elements_before[a].precedes(elements_before[b]));
            }
            assert forall|b: int| 0 <= b < elements@.len() implies !(
            #[trigger] elements@[b]).precedes(element) by {
                assert(!elements_before[b].precedes(element));
            }
        }
        let ghost kept_last = kept@;
        kept.push(element);
        proof {
            assert forall|x: T| kept@.contains(x) <==> (kept_last.contains(x) || x == element) by {
                if kept@.contains(x) {
                    let k = choose|k: int| 0 <= k < kept@.len() && kept@[k] == x;
                    if k < kept_last.len() {
                        assert(kept_last[k] == x);
                    }
                }
                if kept_last.contains(x) {
                    let k = choose|k: int| 0 <= k < kept_last.len() && kept_last[k] == x;
                    assert(kept@[k] == x);
                }
                assert(kept@[kept_last.len() as int] == element);
            }
            assert forall|a: int, b: int|
                0 <= a < kept@.len() && 0 <= b < kept@.len() && a != b implies !(
            #[trigger] kept@[a]).precedes(#[trigger] kept@[b]) by {
                if a < kept_last.len() && b < kept_last.len() {
                    assert(!kept_last[a].precedes(kept_last[b]));
                } else if a < kept_last.len() {
                    assert(!kept_last[a].precedes(element));
                } else {
                    assert(!element.precedes(kept_last[b]));
                }
            }
            lemma_least_all(kept@);
            assert forall|x: T| elements@.contains(x) implies false by {
                let k = choose|k: int| 0 <= k < elements@.len() && elements@[k] == x;
            }
            assert forall|x: T| least(kept@).contains(x) <==> inserted(before, element).contains(
                x,
            ) by {
                if x == element {
                    assert(kept@[kept_last.len() as int] == element);
                }
            }
            assert(least(kept@) =~= inserted(before, element));
        }
        self.elements = kept;
        true
    }
}

impl<T: PartialOrder + Copy> Antichain<T> {
    /// An antichain with the same members.
    pub fn duplicate(&self) -> (copy: Self)
        ensures
            copy@ == self@,
    {
        proof {
            use_type_invariant(self);
        }
        let mut elements: Vec<T> = Vec::new();
        let mut i: usize = 0;
        while i < self.elements.len()
            invariant
                i <= self.elements@.len(),
                elements@ == self.elements@.take(i as int),
            decreases self.elements@.len() - i,
        {
            elements.push(self.elements[i]);
            assert(elements@ =~= self.elements@.take(i + 1));
            i += 1;
        }
        assert(self.elements@.take(self.elements@.len() as int) =~= self.elements@);
        Antichain { elements }
    }
}

/// Some time with a positive count in `m` precedes `t`.
pub open spec fn guards<T: PartialOrder>(m: Map<T, int>, t: T) -> bool {
    exists|u: T| count(m, u) > 0 && #[trigger] u.precedes(t)
}

/// The frontier that the counts of `m` stand for: the times with a positive
/// count that no other such time precedes.
pub open spec fn frontier_of<T: PartialOrder>(m: Map<T, int>) -> Set<T> {
    Set::new(
        |t: T|
            count(m, t) > 0 && forall|u: T| count(m, u) > 0 && #[trigger] u.precedes(t) ==> u == t,
    )
}

/// A frontier kept as a count per time. A time belongs to the frontier while
/// its count is positive and no other such time precedes it; when a count
/// returns to zero, the times behind it come forward.
pub struct MutableAntichain<T: Timestamp> {
    occurrences: CountMap<T>,
}

impl<T: Timestamp> View for MutableAntichain<T> {
    type V = Map<T, int>;

    closed spec fn view(&self) -> Map<T, int> {
        self.occurrences@
    }
}

impl<T: Timestamp> MutableAntichain<T> {
    /// Every count behind a frontier is an `i64` other than zero.
    pub proof fn lemma_counts(self)
        ensures
            forall|t: T| #[trigger]
                self@.dom().contains(t) ==> self@[t] != 0 && i64::MIN <= self@[t] <= i64::MAX,
    {
        self.occurrences.lemma_counts();
    }

    /// The frontier without counts.
    pub fn new() -> (empty: Self)
        ensures
            empty@ == Map::<T, int>::empty(),
    {
        MutableAntichain { occurrences: CountMap::new() }
    }

    /// Adds `delta` to the count of `time`.
    pub fn update(&mut self, time: &T, delta: i64)
        ensures
            final(self)@ == bump(old(self)@, *time, delta as int),
    {
        self.occurrences.update(time, delta);
    }

    /// Moves every count of `deltas` into this frontier and leaves `deltas`
    /// empty.
    pub fn update_from(&mut self, deltas: &mut CountMap<T>)
        ensures
            final(self)@ == plus(old(self)@, old(deltas)@),
            final(deltas)@ == Map::<T, int>::empty(),
    {
        deltas.drain_into(&mut self.occurrences);
    }

    /// Whether no time has a count.
    pub fn is_empty(&self) -> (empty: bool)
        ensures
            empty == (self@ == Map::<T, int>::empty()),
    {
        self.occurrences.is_empty()
    }

    /// Whether a time of the frontier precedes `time`.
    pub fn contains_leq(&self, time: &T) -> (possible: bool)
        ensures
            possible == guards(self@, *time),
    {
        let list = self.occurrences.entries();
        let mut i: usize = 0;
        while i < list.len()
            invariant
                i <= list@.len(),
                canonical(list@),
                as_map(list@) == self@,
                forall|j: int|
                    0 <= j < i ==> !((#[trigger] list@[j]).1 > 0 && list@[j].0.precedes(*time)),
            decreases list@.len() - i,
        {
            if list[i].1 > 0 && list[i].0.less_equal(time) {
                proof {
                    lemma_entry(list@, i as int);
                    assert(count(self@, list@[i as int].0) > 0);
                }
                return true;
            }
            i += 1;
        }
        proof {
            if guards(self@, *time) {
                let u = choose|u: T| count(self@, u) > 0 && #[trigger] u.precedes(*time);
                let k = place(list@, u);
                assert(list@[k].0 == u);
                lemma_entry(list@, k);
            }
        }
        false
    }

    /// The frontier as an antichain. It reaches exactly the times that a
    /// time with a positive count precedes.
    pub fn frontier(&self) -> (chain: Antichain<T>)
        ensures
            chain@ == frontier_of(self@),
            forall|t: T| reaches(chain@, t) <==> guards(self@, t),
    {
        let list = self.occurrences.entries();
        let mut chain: Antichain<T> = Antichain::new();
        let mut i: usize = 0;
        while i < list.len()
            invariant
                i <= list@.len(),
                canonical(list@),
                as_map(list@) == self@,
                forall|x: T| chain@.contains(x) ==> count(self@, x) > 0,
                forall|j: int|
                    0 <= j < i && (#[trigger] list@[j]).1 > 0 ==> reaches(chain@, list@[j].0),
            decreases list@.len() - i,
        {
            if list[i].1 > 0 {
                let ghost before = chain@;
                chain.insert(list[i].0);
                proof {
                    lemma_entry(list@, i as int);
                    assert forall|j: int| 0 <= j <= i && (#[trigger] list@[j]).1 > 0 implies reaches(
                        chain@,
                        list@[j].0,
                    ) by {
                        lemma_inserted_reaches(before, list@[i as int].0, list@[j].0);
                        if j == i {
                            T::reflexive(list@[j].0);
                        }
                    }
                }
            }
            i += 1;
        }
        proof {
            chain.lemma_minimal();
            assert forall|t: T| chain@.contains(t) <==> frontier_of(self@).contains(t) by {
                if chain@.contains(t) {
                    assert forall|u: T| count(self@, u) > 0 && #[trigger] u.precedes(t) implies u
                        == t by {
                        let k = place(list@, u);
                        assert(list@[k].0 == u);
                        lemma_entry(list@, k);
                        let a = choose|a: T| chain@.contains(a) && #[trigger] a.precedes(u);
                        T::transitive(a, u, t);
                        assert(a.precedes(t));
                        T::antisymmetric(a, u);
                    }
                }
                if frontier_of(self@).contains(t) {
                    let k = place(list@, t);
                    assert(list@[k].0 == t);
                    lemma_entry(list@, k);
                    let a = choose|a: T| chain@.contains(a) && #[trigger] a.precedes(t);
                    assert(count(self@, a) > 0);
                }
            }
            assert(chain@ =~= frontier_of(self@));
            assert forall|t: T| reaches(chain@, t) <==> guards(self@, t) by {
                if reaches(chain@, t) {
                    let a = choose|a: T| chain@.contains(a) && #[trigger] a.precedes(t);
                    assert(count(self@, a) > 0 && a.precedes(t));
                }
                if guards(self@, t) {
                    let u = choose|u: T| count(self@, u) > 0 && #[trigger] u.precedes(t);
                    let k = place(list@, u);
                    assert(list@[k].0 == u);
                    lemma_entry(list@, k);
                    let a = choose|a: T| chain@.contains(a) && #[trigger] a.precedes(u);
                    T::transitive(a, u, t);
                    assert(chain@.contains(a) && a.precedes(t));
                }
            }
        }
        chain
    }
}

} // verus!
