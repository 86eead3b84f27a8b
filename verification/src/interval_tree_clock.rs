use vstd::prelude::*;

use crate::event_tree::{EventTree, join_spec, join_in_range, lemma_join, lemma_join_in_range, lemma_join_self,
    lemma_normal_unique, lemma_normal_is_tight,
    lemma_value_bounds, lemma_extremes_attained};
use crate::id_tree::{IdTree, Split, Sum, lemma_split, lemma_sum, lemma_normal_owns, law_sum_undoes_split};
use crate::less_than_or_equal::{leq_spec, lemma_leq_complete, lemma_leq_sound, lemma_leq_reflexive};
use crate::stamp::{Stamp, fill_spec, fill_defined, grow_spec, growable, grow_in_range, lemma_fill, lemma_grow,
    lemma_fill_fixpoint_grow, grow_point};

verus! {

/// The operations of an interval tree clock.
pub trait IntervalTreeClock where Self: Sized {
    /// `join` stays within its domain: the identities can be summed and the
    /// counters stay in range.
    spec fn can_join(&self, other: &Self) -> bool;

    /// `event` stays within its domain.
    spec fn can_event(&self) -> bool;

    /// `receive` stays within its domain.
    spec fn can_receive(&self, other: &Self) -> bool;

    fn fork(&self) -> (Self, Self);

    fn peek(&self) -> (Self, Self);

    fn join(&self, other: &Self) -> Self
        requires
            self.can_join(other),
    ;

    fn event(&self) -> Self
        requires
            self.can_event(),
    ;

    fn send(&self) -> (Self, Self)
        requires
            self.can_event(),
    ;

    fn receive(&self, other: &Self) -> Self
        requires
            self.can_receive(other),
    ;

    fn sync(&self, other: &Self) -> (Self, Self)
        requires
            self.can_join(other),
    ;
}

/// The event tree after an event: filled if filling changes anything, grown
/// otherwise.
pub open spec fn event_spec(i: IdTree, e: EventTree) -> EventTree {
    if fill_spec(i, e) != e {
        fill_spec(i, e)
    } else {
        grow_spec(i, e).0
    }
}

/// `event` stays within its domain: filling stays in range, and where it
/// changes nothing, the identity can grow the tree by one.
pub open spec fn event_defined(i: IdTree, e: EventTree) -> bool {
    &&& fill_defined(i, e)
    &&& (fill_spec(i, e) != e || (growable(i, e) && grow_in_range(i, e)))
}

/// The event keeps every value within a counter's range: where filling
/// changes nothing, the value at the point that grows has room for one more.
pub open spec fn event_has_room(i: IdTree, e: EventTree) -> bool {
    fill_spec(i, e) != e || e.value_at(grow_point(i, e)) < u32::MAX
}

impl IntervalTreeClock for Stamp {
    open spec fn can_join(&self, other: &Self) -> bool {
        &&& self.i.summable(other.i)
        &&& join_in_range(self.e, other.e)
    }

    open spec fn can_event(&self) -> bool {
        event_defined(self.i, self.e)
    }

    open spec fn can_receive(&self, other: &Self) -> bool {
        &&& self.can_join(other)
        &&& event_defined(self.i.sum_spec(other.i), join_spec(self.e, other.e))
    }

    /// An anonymous copy of the stamp, and the stamp itself.
    fn peek(&self) -> (r: (Stamp, Stamp))
        ensures
            r.0.id() == (IdTree::Leaf { i: false }),
            r.0.events() == self.events(),
            r.1 == *self,
    {
        let s1 = Stamp::new(IdTree::zero(), self.e.clone());
        let s2 = Stamp::new(self.i.clone(), self.e.clone());
        (s1, s2)
    }

    /// Splits the identity in two; both stamps keep the events.
    fn fork(&self) -> (r: (Stamp, Stamp))
        ensures
            (r.0.id(), r.1.id()) == self.id().split_spec(),
            r.0.events() == self.events(),
            r.1.events() == self.events(),
    {
        let (left, right) = self.i.split();
        let s1 = Stamp::new(left, self.e.clone());
        let s2 = Stamp::new(right, self.e.clone());
        (s1, s2)
    }

    /// Merges two stamps: the sum of the identities and the join of the
    /// events.
    fn join(&self, other: &Stamp) -> (r: Stamp)
        ensures
            r.id() == self.id().sum_spec(other.id()),
            r.events() == join_spec(self.events(), other.events()),
    {
        let sum_i = self.i.sum(&other.i);
        let join_e = self.e.join(&other.e);
        Stamp::new(sum_i, join_e)
    }

    /// Records an event in the part of the interval the stamp owns.
    fn event(&self) -> (r: Stamp)
        ensures
            r.id() == self.id(),
            r.events() == event_spec(self.id(), self.events()),
    {
        let filled_e = self.fill();
        if filled_e != self.e {
            Stamp::new(self.i.clone(), filled_e)
        } else {
            let (eprime, _c) = self.grow();
            Stamp::new(self.i.clone(), eprime)
        }
    }

    /// An event, then a copy of the result for a message.
    fn send(&self) -> (r: (Stamp, Stamp))
        ensures
            r.0.id() == (IdTree::Leaf { i: false }),
            r.0.events() == event_spec(self.id(), self.events()),
            r.1.id() == self.id(),
            r.1.events() == event_spec(self.id(), self.events()),
    {
        self.event().peek()
    }

    /// Merges a received stamp, then records the event of receiving it.
    fn receive(&self, other: &Stamp) -> (r: Stamp)
        ensures
            r.id() == self.id().sum_spec(other.id()),
            r.events() == event_spec(
                self.id().sum_spec(other.id()),
                join_spec(self.events(), other.events()),
            ),
    {
        self.join(other).event()
    }

    /// Merges two stamps and splits the result again.
    fn sync(&self, other: &Stamp) -> (r: (Stamp, Stamp))
        ensures
            (r.0.id(), r.1.id()) == self.id().sum_spec(other.id()).split_spec(),
            r.0.events() == join_spec(self.events(), other.events()),
            r.1.events() == join_spec(self.events(), other.events()),
    {
        self.join(other).fork()
    }
}


/// What one event does to a valid stamp whose identity owns something, where
/// the event is defined and keeps the counters in range: the stamp stays
/// valid, values rise only where the identity owns the point and somewhere
/// they do rise, and the comparison places the old events below the new.
pub proof fn lemma_event(i: IdTree, e: EventTree)
    requires
        i.is_normal(),
        !i.is_zero(),
        e.is_normal(),
        e.fits(),
        event_defined(i, e),
        event_has_room(i, e),
    ensures
        event_spec(i, e).is_normal(),
        event_spec(i, e).fits(),
        e.pointwise_le(event_spec(i, e)),
        forall|p: Seq<bool>| !i.holds_at(p) ==> #[trigger] event_spec(i, e).value_at(p) == e.value_at(p),
        exists|p: Seq<bool>| i.holds_at(p) && #[trigger] event_spec(i, e).value_at(p) > e.value_at(p),
        leq_spec(e, event_spec(i, e)),
{
    lemma_fill(i, e);
    let f = fill_spec(i, e);
    let r = event_spec(i, e);
    if f != e {
        lemma_normal_is_tight(f);
        lemma_leq_complete(e, f);
        if forall|p: Seq<bool>| #[trigger] f.value_at(p) == e.value_at(p) {
            lemma_normal_unique(f, e);
        }
        let p = choose|p: Seq<bool>| #[trigger] f.value_at(p) != e.value_at(p);
        assert(i.holds_at(p) && r.value_at(p) > e.value_at(p));
    } else {
        lemma_fill_fixpoint_grow(i, e);
        lemma_grow(i, e);
        lemma_value_bounds(e);
        lemma_value_bounds(r);
        lemma_extremes_attained(r);
        let _ = r.value_at(r.max_point());
        let _ = e.value_at(r.max_point());
        assert(r.fits());
        lemma_normal_is_tight(r);
        lemma_leq_complete(e, r);
        let p = grow_point(i, e);
        assert(i.holds_at(p) && r.value_at(p) > e.value_at(p));
    }
}

/// An event moves a valid stamp strictly forward in the causal order, and
/// keeps it valid: the stamp before compares below the stamp after, and not
/// the other way round. (The identity must own something, and the counters
/// must have room for one more event.)
pub proof fn law_event_advances(s: Stamp)
    requires
        s.is_valid(),
        !s.id().is_zero(),
        s.can_event(),
        event_has_room(s.id(), s.events()),
    ensures
        leq_spec(s.events(), event_spec(s.id(), s.events())),
        !leq_spec(event_spec(s.id(), s.events()), s.events()),
        Stamp::new_spec(s.id(), event_spec(s.id(), s.events())).is_valid(),
{
    lemma_event(s.i, s.e);
    let r = event_spec(s.i, s.e);
    if leq_spec(r, s.e) {
        lemma_leq_sound(r, s.e);
        let p = choose|p: Seq<bool>| s.i.holds_at(p) && #[trigger] r.value_at(p) > s.e.value_at(p);
        assert(r.value_at(p) <= s.e.value_at(p));
    }
}

/// Events recorded by two stamps that start from the same events and own
/// disjoint parts of the interval are concurrent: neither compares below the
/// other. (Each event must be defined and keep the counters in range.)
pub proof fn law_disjoint_events_concurrent(a: Stamp, b: Stamp)
    requires
        a.is_valid(),
        b.is_valid(),
        !a.id().is_zero(),
        !b.id().is_zero(),
        a.events() == b.events(),
        a.can_event(),
        b.can_event(),
        event_has_room(a.id(), a.events()),
        event_has_room(b.id(), b.events()),
        a.id().disjoint(b.id()),
    ensures
        !leq_spec(event_spec(a.id(), a.events()), event_spec(b.id(), b.events())),
        !leq_spec(event_spec(b.id(), b.events()), event_spec(a.id(), a.events())),
{
    lemma_event(a.i, a.e);
    lemma_event(b.i, b.e);
    let ra = event_spec(a.i, a.e);
    let rb = event_spec(b.i, b.e);
    let pa = choose|p: Seq<bool>| a.i.holds_at(p) && #[trigger] ra.value_at(p) > a.e.value_at(p);
    let pb = choose|p: Seq<bool>| b.i.holds_at(p) && #[trigger] rb.value_at(p) > b.e.value_at(p);
    assert(!b.i.holds_at(pa));
    assert(!a.i.holds_at(pb));
    if leq_spec(ra, rb) {
        lemma_leq_sound(ra, rb);
        assert(ra.value_at(pa) <= rb.value_at(pa));
    }
    if leq_spec(rb, ra) {
        lemma_leq_sound(rb, ra);
        assert(rb.value_at(pb) <= ra.value_at(pb));
    }
}

/// Forking a valid stamp gives two valid stamps with the same events, whose
/// identities are disjoint and together own what the original owned; each
/// owns something if the original did. Both compare equal to the original in
/// the causal order.
pub proof fn law_fork(s: Stamp)
    requires
        s.is_valid(),
    ensures
        ({
            let (a, b) = s.id().split_spec();
            &&& Stamp::new_spec(a, s.events()).is_valid()
            &&& Stamp::new_spec(b, s.events()).is_valid()
            &&& a.disjoint(b)
            &&& forall|p: Seq<bool>| #[trigger] s.id().holds_at(p) == (a.holds_at(p) || b.holds_at(p))
            &&& (!s.id().is_zero() ==> a.owns_some() && b.owns_some())
            &&& leq_spec(s.events(), s.events())
        }),
{
    lemma_split(s.i);
    lemma_leq_reflexive(s.e);
}

/// Joining the two stamps that a fork gives returns the stamp that was forked,
/// whatever its counters: the halves can always be joined, their identities
/// sum to the original one, and the events join to themselves.
pub proof fn law_join_undoes_fork(s: Stamp)
    requires
        s.id().is_normal(),
        s.events().is_normal(),
    ensures
        ({
            let (a, b) = s.id().split_spec();
            let sa = Stamp::new_spec(a, s.events());
            let sb = Stamp::new_spec(b, s.events());
            &&& sa.can_join(&sb)
            &&& Stamp::new_spec(sa.id().sum_spec(sb.id()), join_spec(sa.events(), sb.events())) == s
        }),
{
    law_sum_undoes_split(s.i);
    lemma_join_self(s.e);
}

/// Joining two valid stamps with disjoint identities gives a valid stamp
/// whose events compare above both, and below any normal event tree that is
/// above both: the join is their least upper bound.
pub proof fn law_join_upper_bound(a: Stamp, b: Stamp, c: EventTree)
    requires
        a.is_valid(),
        b.is_valid(),
        a.id().summable(b.id()),
        c.is_normal(),
        c.fits(),
    ensures
        a.can_join(&b),
        Stamp::new_spec(a.id().sum_spec(b.id()), join_spec(a.events(), b.events())).is_valid(),
        leq_spec(a.events(), join_spec(a.events(), b.events())),
        leq_spec(b.events(), join_spec(a.events(), b.events())),
        leq_spec(a.events(), c) && leq_spec(b.events(), c) ==> leq_spec(join_spec(a.events(), b.events()), c),
{
    lemma_sum(a.i, b.i);
    lemma_join_in_range(a.e, b.e);
    let j = join_spec(a.e, b.e);
    lemma_join(a.e, b.e);
    lemma_normal_is_tight(j);
    lemma_leq_complete(a.e, j);
    lemma_leq_complete(b.e, j);
    if leq_spec(a.e, c) && leq_spec(b.e, c) {
        lemma_leq_sound(a.e, c);
        lemma_leq_sound(b.e, c);
        lemma_normal_is_tight(c);
        assert forall|p: Seq<bool>| #[trigger] j.value_at(p) <= c.value_at(p) by {}
        lemma_leq_complete(j, c);
    }
}

/// Receiving a stamp from a participant with a disjoint identity gives a
/// valid stamp whose events compare strictly above both the receiver's and
/// the sender's. (The event on the merged stamp must be defined and keep the
/// counters in range.)
pub proof fn law_receive_advances(a: Stamp, b: Stamp)
    requires
        a.is_valid(),
        b.is_valid(),
        !a.id().is_zero(),
        a.can_receive(&b),
        event_has_room(a.id().sum_spec(b.id()), join_spec(a.events(), b.events())),
    ensures
        ({
            let r = event_spec(a.id().sum_spec(b.id()), join_spec(a.events(), b.events()));
            &&& Stamp::new_spec(a.id().sum_spec(b.id()), r).is_valid()
            &&& leq_spec(a.events(), r)
            &&& leq_spec(b.events(), r)
            &&& !leq_spec(r, a.events())
            &&& !leq_spec(r, b.events())
        }),
{
    let i = a.i.sum_spec(b.i);
    let j = join_spec(a.e, b.e);
    lemma_sum(a.i, b.i);
    lemma_join(a.e, b.e);
    lemma_normal_owns(a.i);
    let _ = i.holds_at(a.i.owned_point());
    assert(!i.is_zero());
    lemma_event(i, j);
    let r = event_spec(i, j);
    lemma_normal_is_tight(r);
    assert forall|q: Seq<bool>| #[trigger] a.e.value_at(q) <= r.value_at(q) by {
        let _ = j.value_at(q);
    }
    assert forall|q: Seq<bool>| #[trigger] b.e.value_at(q) <= r.value_at(q) by {
        let _ = j.value_at(q);
    }
    lemma_leq_complete(a.e, r);
    lemma_leq_complete(b.e, r);
    let p = choose|p: Seq<bool>| i.holds_at(p) && #[trigger] r.value_at(p) > j.value_at(p);
    if leq_spec(r, a.e) {
        lemma_leq_sound(r, a.e);
        assert(r.value_at(p) <= a.e.value_at(p));
    }
    if leq_spec(r, b.e) {
        lemma_leq_sound(r, b.e);
        assert(r.value_at(p) <= b.e.value_at(p));
    }
}

} // verus!
