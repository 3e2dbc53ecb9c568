//! Partially ordered logical times, and the summaries that say how a time
//! changes along a path through the graph.

use vstd::prelude::*;

verus! {

/// A partial order whose equality is plain equality of values.
pub trait PartialOrder: Sized {
    /// The order itself: `self` is no later than `other`.
    spec fn precedes(self, other: Self) -> bool;

    /// Decides the order.
    fn less_equal(&self, other: &Self) -> (b: bool)
        ensures
            b == self.precedes(*other),
    ;

    /// Every value precedes itself.
    proof fn reflexive(a: Self)
        ensures
            a.precedes(a),
    ;

    /// The order is transitive.
    proof fn transitive(a: Self, b: Self, c: Self)
        requires
            a.precedes(b),
            b.precedes(c),
        ensures
            a.precedes(c),
    ;

    /// Two values that precede each other are equal.
    proof fn antisymmetric(a: Self, b: Self)
        requires
            a.precedes(b),
            b.precedes(a),
        ensures
            a == b,
    ;
}

/// Decides equality through the order.
pub fn same<T: PartialOrder>(a: &T, b: &T) -> (eq: bool)
    ensures
        eq == (*a == *b),
{
    let forth = a.less_equal(b);
    let back = b.less_equal(a);
    proof {
        if forth && back {
            T::antisymmetric(*a, *b);
        }
        if *a == *b {
            T::reflexive(*a);
        }
    }
    forth && back
}

/// A logical time: partially ordered, with a least element, and with a type
/// of summaries that describe how times advance along edges.
pub trait Timestamp: PartialOrder + Copy {
    type Summary: PathSummary<Self>;

    /// The least time.
    fn minimum() -> (least: Self)
        ensures
            forall|t: Self| #[trigger] least.precedes(t),
    ;
}

/// How a time changes along a path. A summary never moves a time backwards
/// and keeps the order of times; summaries are themselves ordered by the
/// times they lead to.
pub trait PathSummary<T: PartialOrder>: PartialOrder + Copy {
    /// The time that `time` has become at the end of the path.
    spec fn advance(self, time: T) -> T;

    /// Applies the summary to a time.
    fn results_in(&self, time: &T) -> (later: T)
        ensures
            later == self.advance(*time),
    ;

    /// The summary of this path followed by `next`.
    fn followed_by(&self, next: &Self) -> (both: Self)
        ensures
            forall|t: T| #[trigger] both.advance(t) == next.advance(self.advance(t)),
    ;

    /// The summary of the empty path.
    spec fn unit() -> Self;

    /// The summary of the empty path. It changes no time.
    fn identity() -> (id: Self)
        ensures
            id == Self::unit(),
            forall|t: T| #[trigger] id.advance(t) == t,
    ;

    /// A summary never moves a time backwards.
    proof fn inflationary(s: Self, t: T)
        ensures
            t.precedes(s.advance(t)),
    ;

    /// A summary keeps the order of times.
    proof fn monotone(s: Self, a: T, b: T)
        requires
            a.precedes(b),
        ensures
            s.advance(a).precedes(s.advance(b)),
    ;

    /// A smaller summary leads to an earlier time.
    proof fn ordered(s: Self, r: Self, t: T)
        requires
            s.precedes(r),
        ensures
            s.advance(t).precedes(r.advance(t)),
    ;
}

/// What `a + b` is when the sum may not pass the largest `u64`.
pub open spec fn capped_sum(a: u64, b: u64) -> u64 {
    if a + b > u64::MAX {
        u64::MAX
    } else {
        (a + b) as u64
    }
}

impl PartialOrder for u64 {
    open spec fn precedes(self, other: Self) -> bool {
        self <= other
    }

    fn less_equal(&self, other: &Self) -> (b: bool) {
        *self <= *other
    }

    proof fn reflexive(a: Self) {
    }

    proof fn transitive(a: Self, b: Self, c: Self) {
    }

    proof fn antisymmetric(a: Self, b: Self) {
    }
}

impl Timestamp for u64 {
    type Summary = u64;

    fn minimum() -> (least: Self) {
        0
    }
}

/// A `u64` summary adds its value to a time, stopping at the largest time.
impl PathSummary<u64> for u64 {
    open spec fn advance(self, time: u64) -> u64 {
        capped_sum(time, self)
    }

    fn results_in(&self, time: &u64) -> (later: u64) {
        time.saturating_add(*self)
    }

    fn followed_by(&self, next: &Self) -> (both: Self) {
        self.saturating_add(*next)
    }

    open spec fn unit() -> Self {
        0
    }

    fn identity() -> (id: Self) {
        0
    }

    proof fn inflationary(s: Self, t: u64) {
    }

    proof fn monotone(s: Self, a: u64, b: u64) {
    }

    proof fn ordered(s: Self, r: Self, t: u64) {
    }
}

/// A pair of coordinates ordered coordinate by coordinate: one pair precedes
/// another when both of its coordinates do. Two pairs may be incomparable.
#[derive(Clone, Copy, Debug)]
pub struct Product<A, B> {
    pub outer: A,
    pub inner: B,
}

impl<A, B> Product<A, B> {
    /// The pair of `outer` and `inner`.
    pub fn new(outer: A, inner: B) -> (pair: Self)
        ensures
            pair.outer == outer,
            pair.inner == inner,
    {
        Product { outer, inner }
    }
}

impl<A: PartialOrder, B: PartialOrder> PartialOrder for Product<A, B> {
    open spec fn precedes(self, other: Self) -> bool {
        self.outer.precedes(other.outer) && self.inner.precedes(other.inner)
    }

    fn less_equal(&self, other: &Self) -> (b: bool) {
        self.outer.less_equal(&other.outer) && self.inner.less_equal(&other.inner)
    }

    proof fn reflexive(a: Self) {
        A::reflexive(a.outer);
        B::reflexive(a.inner);
    }

    proof fn transitive(a: Self, b: Self, c: Self) {
        A::transitive(a.outer, b.outer, c.outer);
        B::transitive(a.inner, b.inner, c.inner);
    }

    proof fn antisymmetric(a: Self, b: Self) {
        A::antisymmetric(a.outer, b.outer);
        B::antisymmetric(a.inner, b.inner);
    }
}

impl<A: Timestamp, B: Timestamp> Timestamp for Product<A, B> {
    type Summary = Product<A::Summary, B::Summary>;

    fn minimum() -> (least: Self) {
        let least = Product { outer: A::minimum(), inner: B::minimum() };
        assert forall|t: Self| #[trigger] least.precedes(t) by {
            assert(least.outer.precedes(t.outer));
            assert(least.inner.precedes(t.inner));
        }
        least
    }
}

/// A pair of summaries advances each coordinate by its own summary.
impl<A: PartialOrder, B: PartialOrder, SA: PathSummary<A>, SB: PathSummary<B>> PathSummary<
    Product<A, B>,
> for Product<SA, SB> {
    open spec fn advance(self, time: Product<A, B>) -> Product<A, B> {
        Product { outer: self.outer.advance(time.outer), inner: self.inner.advance(time.inner) }
    }

    fn results_in(&self, time: &Product<A, B>) -> (later: Product<A, B>) {
        Product {
            outer: self.outer.results_in(&time.outer),
            inner: self.inner.results_in(&time.inner),
        }
    }

    fn followed_by(&self, next: &Self) -> (both: Self) {
        let both = Product {
            outer: self.outer.followed_by(&next.outer),
            inner: self.inner.followed_by(&next.inner),
        };
        assert forall|t: Product<A, B>| #[trigger]
            both.advance(t) == next.advance(self.advance(t)) by {
            assert(both.outer.advance(t.outer) == next.outer.advance(self.outer.advance(t.outer)));
            assert(both.inner.advance(t.inner) == next.inner.advance(self.inner.advance(t.inner)));
        }
        both
    }

    open spec fn unit() -> Self {
        Product { outer: SA::unit(), inner: SB::unit() }
    }

    fn identity() -> (id: Self) {
        let id = Product { outer: SA::identity(), inner: SB::identity() };
        assert forall|t: Product<A, B>| #[trigger] id.advance(t) == t by {
            assert(id.outer.advance(t.outer) == t.outer);
            assert(id.inner.advance(t.inner) == t.inner);
        }
        id
    }

    proof fn inflationary(s: Self, t: Product<A, B>) {
        SA::inflationary(s.outer, t.outer);
        SB::inflationary(s.inner, t.inner);
    }

    proof fn monotone(s: Self, a: Product<A, B>, b: Product<A, B>) {
        SA::monotone(s.outer, a.outer, b.outer);
        SB::monotone(s.inner, a.inner, b.inner);
    }

    proof fn ordered(s: Self, r: Self, t: Product<A, B>) {
        SA::ordered(s.outer, r.outer, t.outer);
        SB::ordered(s.inner, r.inner, t.inner);
    }
}

} // verus!
