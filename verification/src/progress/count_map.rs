//! A sparse ledger of signed counts per time. Entries whose count is zero are
//! not kept; counts stop at the limits of `i64`.

use vstd::prelude::*;
use crate::progress::timestamp::{same, Timestamp};

verus! {

/// The nearest `i64` to `v`.
pub open spec fn clamp(v: int) -> int {
    if v > i64::MAX {
        i64::MAX as int
    } else if v < i64::MIN {
        i64::MIN as int
    } else {
        v
    }
}

/// The count that `m` holds for `t`: zero where it has no entry.
pub open spec fn count<T>(m: Map<T, int>, t: T) -> int {
    if m.dom().contains(t) {
        m[t]
    } else {
        0
    }
}

/// `m` after `delta` is added at `t`: the entry goes when its count becomes zero.
pub open spec fn bump<T>(m: Map<T, int>, t: T, delta: int) -> Map<T, int> {
    let sum = clamp(count(m, t) + delta);
    if sum == 0 {
        m.remove(t)
    } else {
        m.insert(t, sum)
    }
}

/// The ledger that holds, for every time, the counts of `a` and `b` added up.
pub open spec fn plus<T>(a: Map<T, int>, b: Map<T, int>) -> Map<T, int> {
    Map::new(|t: T| clamp(count(a, t) + count(b, t)) != 0, |t: T| clamp(count(a, t) + count(b, t)))
}

/// Some entry of `s` gives `t` a count other than zero.
pub open spec fn holds<T>(s: Seq<(T, i64)>, t: T) -> bool {
    exists|i: int| 0 <= i < s.len() && (#[trigger] s[i]).0 == t && s[i].1 != 0
}

/// Where `s` gives `t` a count other than zero.
pub open spec fn place<T>(s: Seq<(T, i64)>, t: T) -> int {
    choose|i: int| 0 <= i < s.len() && (#[trigger] s[i]).0 == t && s[i].1 != 0
}

/// The ledger that a list of entries stands for.
pub open spec fn as_map<T>(s: Seq<(T, i64)>) -> Map<T, int> {
    Map::new(|t: T| holds(s, t), |t: T| s[place(s, t)].1 as int)
}

/// No entry of `s` is zero and no time has two entries.
pub open spec fn canonical<T>(s: Seq<(T, i64)>) -> bool {
    &&& forall|i: int| 0 <= i < s.len() ==> (#[trigger] s[i]).1 != 0
    &&& forall|i: int, j: int|
        0 <= i < s.len() && 0 <= j < s.len() && i != j ==> (#[trigger] s[i]).0 != (#[trigger] s[j]).0
}

/// In a canonical list each entry is the ledger's entry for its time.
pub proof fn lemma_entry<T>(s: Seq<(T, i64)>, i: int)
    requires
        canonical(s),
        0 <= i < s.len(),
    ensures
        as_map(s).dom().contains(s[i].0),
        as_map(s)[s[i].0] == s[i].1,
{
    assert(holds(s, s[i].0));
    assert(place(s, s[i].0) == i);
}

/// A ledger made from entries holds no zero and nothing outside `i64`.
pub proof fn lemma_as_map_values<T>(s: Seq<(T, i64)>)
    ensures
        forall|t: T| #[trigger]
            as_map(s).dom().contains(t) ==> as_map(s)[t] != 0 && i64::MIN <= as_map(s)[t]
                <= i64::MAX,
{
}

/// What appending an entry for a new time does to the ledger.
pub proof fn lemma_push<T>(s: Seq<(T, i64)>, t: T, d: i64)
    requires
        canonical(s),
        !holds(s, t),
        d != 0,
    ensures
        canonical(s.push((t, d))),
        as_map(s.push((t, d))) == as_map(s).insert(t, d as int),
{
    let r = s.push((t, d));
    assert forall|i: int, j: int| 0 <= i < r.len() && 0 <= j < r.len() && i != j implies (
    #[trigger] r[i]).0 != (#[trigger] r[j]).0 by {
        if i < s.len() && j < s.len() {
            assert(s[i].0 != s[j].0);
        } else if i < s.len() {
            assert(s[i].1 != 0);
        } else {
            assert(s[j].1 != 0);
        }
    }
    assert forall|u: T| as_map(r).dom().contains(u) <==> as_map(s).insert(
        t,
        d as int,
    ).dom().contains(u) by {
        if holds(s, u) {
            let i = place(s, u);
            assert(r[i].0 == u);
        }
        if u == t {
            assert(r[s.len() as int].0 == t);
        }
    }
    assert forall|u: T| as_map(r).dom().contains(u) implies as_map(r)[u] == as_map(s).insert(
        t,
        d as int,
    )[u] by {
        let i = place(r, u);
        if i < s.len() {
            assert(s[i].0 == u);
            lemma_entry(s, i);
        }
        lemma_entry(r, i);
    }
    assert(as_map(r) =~= as_map(s).insert(t, d as int));
}

/// What replacing the count of an entry does to the ledger.
pub proof fn lemma_set<T>(s: Seq<(T, i64)>, i: int, d: i64)
    requires
        canonical(s),
        0 <= i < s.len(),
        d != 0,
    ensures
        canonical(s.update(i, (s[i].0, d))),
        as_map(s.update(i, (s[i].0, d))) == as_map(s).insert(s[i].0, d as int),
{
    let t = s[i].0;
    let r = s.update(i, (t, d));
    assert forall|a: int, b: int| 0 <= a < r.len() && 0 <= b < r.len() && a != b implies (
    #[trigger] r[a]).0 != (#[trigger] r[b]).0 by {
        assert(s[a].0 != s[b].0);
    }
    assert forall|k: int| 0 <= k < r.len() implies (#[trigger] r[k]).1 != 0 by {
        if k != i {
            assert(s[k].1 != 0);
        }
    }
    assert forall|u: T| as_map(r).dom().contains(u) <==> as_map(s).insert(
        t,
        d as int,
    ).dom().contains(u) by {
        if holds(s, u) {
            let k = place(s, u);
            assert(r[k].0 == u);
        }
        if holds(r, u) {
            let k = place(r, u);
            assert(s[k].0 == u);
        }
        if u == t {
            assert(r[i].0 == t);
        }
    }
    assert forall|u: T| as_map(r).dom().contains(u) implies as_map(r)[u] == as_map(s).insert(
        t,
        d as int,
    )[u] by {
        let k = place(r, u);
        lemma_entry(r, k);
        if k != i {
            assert(s[k].0 == u);
            lemma_entry(s, k);
        }
    }
    assert(as_map(r) =~= as_map(s).insert(t, d as int));
}

/// What taking an entry away does to the ledger.
pub proof fn lemma_remove<T>(s: Seq<(T, i64)>, i: int)
    requires
        canonical(s),
        0 <= i < s.len(),
    ensures
        canonical(s.remove(i)),
        as_map(s.remove(i)) == as_map(s).remove(s[i].0),
{
    let t = s[i].0;
    let r = s.remove(i);
    assert forall|k: int| 0 <= k < r.len() implies (#[trigger] r[k]).1 != 0 && r[k].0 != t by {
        if k < i {
            assert(r[k] == s[k]);
        } else {
            assert(r[k] == s[k + 1]);
        }
    }
    assert forall|a: int, b: int| 0 <= a < r.len() && 0 <= b < r.len() && a != b implies (
    #[trigger] r[a]).0 != (#[trigger] r[b]).0 by {
        let a2 = if a < i { a } else { a + 1 };
        let b2 = if b < i { b } else { b + 1 };
        assert(r[a] == s[a2]);
        assert(r[b] == s[b2]);
    }
    assert forall|u: T| as_map(r).dom().contains(u) <==> as_map(s).remove(t).dom().contains(
        u,
    ) by {
        if holds(s, u) && u != t {
            let k = place(s, u);
            let k2 = if k < i { k } else { k - 1 };
            assert(r[k2] == s[k]);
        }
        if holds(r, u) {
            let k = place(r, u);
            let k2 = if k < i { k } else { k + 1 };
            assert(r[k] == s[k2]);
        }
    }
    assert forall|u: T| as_map(r).dom().contains(u) implies as_map(r)[u] == as_map(s).remove(
        t,
    )[u] by {
        let k = place(r, u);
        let k2 = if k < i { k } else { k + 1 };
        assert(r[k] == s[k2]);
        lemma_entry(r, k);
        lemma_entry(s, k2);
    }
    assert(as_map(r) =~= as_map(s).remove(t));
}

/// The sum of two counts, stopped at the limits of `i64`.
pub fn capped_add(a: i64, b: i64) -> (sum: i64)
    ensures
        sum == clamp(a + b),
{
    if b > 0 && a > i64::MAX - b {
        i64::MAX
    } else if b < 0 && a < i64::MIN - b {
        i64::MIN
    } else {
        a + b
    }
}

/// A ledger of signed counts per time.
pub struct CountMap<T: Timestamp> {
    updates: Vec<(T, i64)>,
}

impl<T: Timestamp> View for CountMap<T> {
    type V = Map<T, int>;

    closed spec fn view(&self) -> Map<T, int> {
        as_map(self.updates@)
    }
}

impl<T: Timestamp> CountMap<T> {
    #[verifier::type_invariant]
    spec fn well_formed(self) -> bool {
        canonical(self.updates@)
    }

    /// The count held for `t`.
    pub open spec fn count(self, t: T) -> int {
        count(self@, t)
    }

    /// Every count that a ledger holds is an `i64` other than zero.
    pub proof fn lemma_counts(self)
        ensures
            forall|t: T| #[trigger]
                self@.dom().contains(t) ==> self@[t] != 0 && i64::MIN <= self@[t] <= i64::MAX,
    {
        lemma_as_map_values(self.updates@);
    }

    /// The ledger with no entry.
    pub fn new() -> (fresh: Self)
        ensures
            fresh@ == Map::<T, int>::empty(),
    {
        let fresh = CountMap { updates: Vec::new() };
        assert(fresh@ =~= Map::<T, int>::empty());
        fresh
    }

    /// Whether the ledger has no entry.
    pub fn is_empty(&self) -> (empty: bool)
        ensures
            empty == (self@ == Map::<T, int>::empty()),
    {
        proof {
            use_type_invariant(self);
            if self.updates@.len() > 0 {
                lemma_entry(self.updates@, 0);
            } else {
                assert(self@ =~= Map::<T, int>::empty());
            }
        }
        self.updates.len() == 0
    }

    fn find(updates: &Vec<(T, i64)>, time: &T) -> (at: Option<usize>)
        ensures
            match at {
                Some(i) => i < updates@.len() && updates@[i as int].0 == *time,
                None => !holds(updates@, *time),
            },
    {
        let mut i: usize = 0;
        while i < updates.len()
            invariant
                i <= updates@.len(),
                forall|j: int| 0 <= j < i ==> (#[trigger] updates@[j]).0 != *time,
            decreases updates@.len() - i,
        {
            if same(&updates[i].0, time) {
                return Some(i);
            }
            i += 1;
        }
        None
    }

    fn take(&mut self) -> (updates: Vec<(T, i64)>)
        ensures
            updates@ == old(self).updates@,
            canonical(updates@),
            final(self).updates@.len() == 0,
    {
        proof {
            use_type_invariant(&*self);
        }
        let mut updates: Vec<(T, i64)> = Vec::new();
        core::mem::swap(&mut self.updates, &mut updates);
        updates
    }

    /// The count held for `time`.
    pub fn get(&self, time: &T) -> (held: i64)
        ensures
            held == self.count(*time),
    {
        proof {
            use_type_invariant(self);
        }
        match Self::find(&self.updates, time) {
            Some(i) => {
                proof {
                    lemma_entry(self.updates@, i as int);
                }
                self.updates[i].1
            },
            None => 0,
        }
    }

    /// The entries of the ledger: one for each time that has a count, in no
    /// particular order.
    pub fn entries(&self) -> (list: &Vec<(T, i64)>)
        ensures
            canonical(list@),
            as_map(list@) == self@,
    {
        proof {
            use_type_invariant(self);
        }
        &self.updates
    }

    /// Adds `delta` to the count at `time`.
    pub fn update(&mut self, time: &T, delta: i64)
        ensures
            final(self)@ == bump(old(self)@, *time, delta as int),
    {
        let mut updates = self.take();
        let ghost before = updates@;
        match Self::find(&updates, time) {
            Some(i) => {
                let sum = capped_add(updates[i].1, delta);
                proof {
                    lemma_entry(before, i as int);
                }
                if sum == 0 {
                    proof {
                        lemma_remove(before, i as int);
                    }
                    updates.remove(i);
                } else {
                    proof {
                        lemma_set(before, i as int, sum);
                    }
                    updates[i] = (*time, sum);
                }
            },
            None => {
                if delta != 0 {
                    proof {
                        lemma_push(before, *time, delta);
                    }
                    updates.push((*time, delta));
                } else {
                    assert(as_map(before).remove(*time) =~= as_map(before));
                }
            },
        }
        self.updates = updates;
    }

    /// Takes one entry out of the ledger, if it has any.
    pub fn pop(&mut self) -> (entry: Option<(T, i64)>)
        ensures
            match entry {
                Some((t, d)) => old(self)@.dom().contains(t) && old(self)@[t] == d && final(self)@
                    == old(self)@.remove(t),
                None => old(self)@ == Map::<T, int>::empty() && final(self)@ == old(self)@,
            },
    {
        self.take_last()
    }

    fn take_last(&mut self) -> (entry: Option<(T, i64)>)
        ensures
            match entry {
                Some((t, d)) => old(self)@.dom().contains(t) && old(self)@[t] == d && final(self)@
                    == old(self)@.remove(t) && final(self).updates@.len() < old(self).updates@.len(),
                None => old(self)@ == Map::<T, int>::empty() && final(self)@ == old(self)@,
            },
    {
        let mut updates = self.take();
        let ghost before = updates@;
        proof {
            if before.len() > 0 {
                lemma_entry(before, before.len() - 1);
                lemma_remove(before, before.len() - 1);
                assert(before.remove(before.len() - 1) =~= before.subrange(0, before.len() - 1));
            } else {
                assert(as_map(before) =~= Map::<T, int>::empty());
            }
        }
        let entry = updates.pop();
        self.updates = updates;
        entry
    }

    /// Empties the ledger and returns its entries: one for each time that had
    /// a count, in no particular order.
    pub fn drain(&mut self) -> (entries: Vec<(T, i64)>)
        ensures
            canonical(entries@),
            as_map(entries@) == old(self)@,
            final(self)@ == Map::<T, int>::empty(),
    {
        proof {
            use_type_invariant(&*self);
        }
        let mut entries: Vec<(T, i64)> = Vec::new();
        assert(as_map(entries@) =~= Map::<T, int>::empty());
        core::mem::swap(&mut self.updates, &mut entries);
        entries
    }

    /// Forgets every entry.
    pub fn clear(&mut self)
        ensures
            final(self)@ == Map::<T, int>::empty(),
    {
        self.updates = Vec::new();
        assert(as_map(self.updates@) =~= Map::<T, int>::empty());
    }

    /// Adds every count of `other` to the count that this ledger holds for
    /// the same time.
    pub fn absorb(&mut self, other: &CountMap<T>)
        ensures
            final(self)@ == plus(old(self)@, other@),
    {
        let list = other.entries();
        let ghost start = self@;
        proof {
            self.lemma_counts();
            assert(list@.take(0) =~= Seq::<(T, i64)>::empty());
            assert(plus(start, as_map(list@.take(0))) =~= start);
        }
        let mut k: usize = 0;
        while k < list.len()
            invariant
                k <= list@.len(),
                canonical(list@),
                forall|t: T| #[trigger]
                    start.dom().contains(t) ==> start[t] != 0 && i64::MIN <= start[t] <= i64::MAX,
                self@ == plus(start, as_map(list@.take(k as int))),
            decreases list@.len() - k,
        {
            let t = list[k].0;
            let d = list[k].1;
            proof {
                let front = list@.take(k as int);
                assert(list@.take(k + 1) =~= front.push((t, d)));
                assert(!holds(front, t)) by {
                    if holds(front, t) {
                        let j = place(front, t);
                        assert(list@[j].0 == list@[k as int].0);
                    }
                }
                lemma_push(front, t, d);
            }
            self.update(&t, d);
            proof {
                assert(self@ =~= plus(start, as_map(list@.take(k + 1))));
            }
            k += 1;
        }
        proof {
            assert(list@.take(list@.len() as int) =~= list@);
        }
    }

    /// Moves every count of this ledger into `sink`, adding it to the count
    /// that `sink` holds for the same time, and leaves this ledger empty.
    pub fn drain_into(&mut self, sink: &mut CountMap<T>)
        ensures
            final(self)@ == Map::<T, int>::empty(),
            final(sink)@ == plus(old(sink)@, old(self)@),
    {
        let ghost total = plus(sink@, self@);
        loop
            invariant
                plus(sink@, self@) == total,
            ensures
                self@ == Map::<T, int>::empty(),
            decreases self.updates@.len(),
        {
            let ghost sink_before = sink@;
            let ghost self_before = self@;
            match self.take_last() {
                Some((t, d)) => {
                    sink.update(&t, d);
                    proof {
                        self.lemma_counts();
                        sink.lemma_counts();
                        assert(plus(sink@, self@) =~= plus(sink_before, self_before));
                    }
                },
                None => {
                    break ;
                },
            }
        }
        proof {
            sink.lemma_counts();
            assert(plus(sink@, self@) =~= sink@);
        }
    }
}

} // verus!
