use vstd::prelude::*;

use core::cmp::Ordering;

use crate::event_tree::{EventTree, lifted, lemma_lifted, lemma_value_bounds, lemma_norm,
    lemma_fits_min_fits, lemma_normal_is_tight, lemma_tight_root_is_min, lemma_extremes_attained,
    lemma_descend, lemma_normal_unique, rest};
use crate::less_than_or_equal::{leq_spec, law_leq_exact};
use crate::normalisable::Normalisable;
use crate::stamp::Stamp;

verus! {

/// The answer of a partial order, given whether the first value is below the
/// second and whether it is above.
pub open spec fn order_of(below: bool, above: bool) -> Option<Ordering> {
    if below && above {
        Some(Ordering::Equal)
    } else if below {
        Some(Ordering::Less)
    } else if above {
        Some(Ordering::Greater)
    } else {
        None
    }
}

/// How two event trees compare point by point: equal, below, above, or
/// neither.
pub open spec fn compare_spec(a: EventTree, b: EventTree) -> Option<Ordering> {
    order_of(a.pointwise_le(b), b.pointwise_le(a))
}

/// Combines the comparisons of two parts into the comparison of the whole.
pub fn combine(l: Option<Ordering>, r: Option<Ordering>) -> (o: Option<Ordering>)
    ensures
        forall|b1: bool, a1: bool, b2: bool, a2: bool|
            #![trigger order_of(b1, a1), order_of(b2, a2)]
            l == order_of(b1, a1) && r == order_of(b2, a2) ==> o == order_of(b1 && b2, a1 && a2),
{
    match (l, r) {
        (_, None) | (None, _) => None,
        (Some(Ordering::Less), Some(Ordering::Greater)) => None,
        (Some(Ordering::Greater), Some(Ordering::Less)) => None,
        (Some(Ordering::Less), Some(Ordering::Equal)) => Some(Ordering::Less),
        (Some(Ordering::Equal), Some(Ordering::Less)) => Some(Ordering::Less),
        (Some(Ordering::Equal), Some(Ordering::Greater)) => Some(Ordering::Greater),
        (Some(Ordering::Greater), Some(Ordering::Equal)) => Some(Ordering::Greater),
        (Some(Ordering::Less), Some(Ordering::Less)) => Some(Ordering::Less),
        (Some(Ordering::Equal), Some(Ordering::Equal)) => Some(Ordering::Equal),
        (Some(Ordering::Greater), Some(Ordering::Greater)) => Some(Ordering::Greater),
    }
}

/// Compares two counters.
pub fn compare_counters(a: u32, b: u32) -> (o: Option<Ordering>)
    ensures
        o == order_of(a <= b, b <= a),
{
    if a < b {
        Some(Ordering::Less)
    } else if a == b {
        Some(Ordering::Equal)
    } else {
        Some(Ordering::Greater)
    }
}

/// Pointwise order between a tree and the halves of another: a leaf is
/// compared with each lifted child of a node, and two nodes child by child.
pub open spec fn left_half(e: EventTree) -> EventTree {
    match e {
        EventTree::Leaf { .. } => e,
        EventTree::Node { n, left, .. } => lifted(*left, n),
    }
}

pub open spec fn right_half(e: EventTree) -> EventTree {
    match e {
        EventTree::Leaf { .. } => e,
        EventTree::Node { n, right, .. } => lifted(*right, n),
    }
}

/// One tree is pointwise below another exactly when it is so on both halves,
/// and then its least value is below the other's.
proof fn lemma_halves(a: EventTree, b: EventTree)
    requires
        a.fits(),
        b.fits(),
    ensures
        a.pointwise_le(b) == (left_half(a).pointwise_le(left_half(b)) && right_half(a).pointwise_le(right_half(b))),
        a.pointwise_le(b) ==> a.min_value() <= b.min_value(),
{
    lemma_value_bounds(a);
    lemma_value_bounds(b);
    lemma_extremes_attained(b);
    let _ = a.value_at(b.min_point());
    match a {
        EventTree::Node { n, left, right } => {
            lemma_value_bounds(*left);
            lemma_value_bounds(*right);
            lemma_lifted(*left, n);
            lemma_lifted(*right, n);
        },
        _ => {},
    }
    match b {
        EventTree::Node { n, left, right } => {
            lemma_value_bounds(*left);
            lemma_value_bounds(*right);
            lemma_lifted(*left, n);
            lemma_lifted(*right, n);
        },
        _ => {},
    }
    let (la, ra, lb, rb) = (left_half(a), right_half(a), left_half(b), right_half(b));
    if a.pointwise_le(b) {
        assert forall|q: Seq<bool>| #[trigger] la.value_at(q) <= lb.value_at(q) by {
            lemma_descend(false, q);
            let _ = a.value_at(seq![false] + q);
            let _ = b.value_at(seq![false] + q);
        }
        assert forall|q: Seq<bool>| #[trigger] ra.value_at(q) <= rb.value_at(q) by {
            lemma_descend(true, q);
            let _ = a.value_at(seq![true] + q);
            let _ = b.value_at(seq![true] + q);
        }
    }
    if la.pointwise_le(lb) && ra.pointwise_le(rb) {
        assert forall|p: Seq<bool>| #[trigger] a.value_at(p) <= b.value_at(p) by {
            let q = rest(p);
            let _ = la.value_at(q);
            let _ = lb.value_at(q);
            let _ = ra.value_at(q);
            let _ = rb.value_at(q);
        }
    }
}

/// The pointwise order only depends on the values recorded.
proof fn lemma_le_same_values(a: EventTree, a2: EventTree, b: EventTree, b2: EventTree)
    requires
        a.same_values(a2),
        b.same_values(b2),
    ensures
        a.pointwise_le(b) == a2.pointwise_le(b2),
{
    if a.pointwise_le(b) {
        assert forall|p: Seq<bool>| #[trigger] a2.value_at(p) <= b2.value_at(p) by {
            let _ = a.value_at(p);
            let _ = b.value_at(p);
        }
    }
    if a2.pointwise_le(b2) {
        assert forall|p: Seq<bool>| #[trigger] a.value_at(p) <= b.value_at(p) by {
            let _ = a2.value_at(p);
            let _ = b2.value_at(p);
        }
    }
}

impl EventTree {
    /// Compares two event trees point by point: `Equal` if they record the
    /// same values, `Less` or `Greater` if one records at most what the other
    /// does, `None` if they are concurrent.
    pub fn partial_cmp(&self, other: &Self) -> (o: Option<Ordering>)
        requires
            self.fits(),
            other.fits(),
        ensures
            o == compare_spec(*self, *other),
        decreases self.height() + other.height(),
    {
        proof {
            lemma_fits_min_fits(*self);
            lemma_fits_min_fits(*other);
            lemma_norm(*self);
            lemma_norm(*other);
        }
        let first = self.clone().norm();
        let second = other.clone().norm();
        proof {
            lemma_normal_is_tight(first);
            lemma_normal_is_tight(second);
            lemma_tight_root_is_min(first);
            lemma_tight_root_is_min(second);
            lemma_halves(first, second);
            lemma_halves(second, first);
            lemma_le_same_values(first, *self, second, *other);
            lemma_le_same_values(second, *other, first, *self);
        }
        match (first, second) {
            (EventTree::Leaf { n: n1 }, EventTree::Leaf { n: n2 }) => {
                proof {
                    let (a, b) = (EventTree::Leaf { n: n1 }, EventTree::Leaf { n: n2 });
                    let _ = a.value_at(Seq::empty());
                    let _ = b.value_at(Seq::empty());
                }
                compare_counters(n1, n2)
            },
            (EventTree::Leaf { n: n1 }, EventTree::Node { n: n2, mut left, mut right }) => {
                proof {
                    lemma_value_bounds(*left);
                    lemma_value_bounds(*right);
                    lemma_lifted(*left, n2);
                    lemma_lifted(*right, n2);
                }
                let c0 = compare_counters(n1, n2);
                left.lift(n2);
                let c1 = EventTree::Leaf { n: n1 }.partial_cmp(&left);
                right.lift(n2);
                let c2 = EventTree::Leaf { n: n1 }.partial_cmp(&right);
                combine(combine(c0, c1), c2)
            },
            (EventTree::Node { n: n1, mut left, mut right }, EventTree::Leaf { n: n2 }) => {
                proof {
                    lemma_value_bounds(*left);
                    lemma_value_bounds(*right);
                    lemma_lifted(*left, n1);
                    lemma_lifted(*right, n1);
                }
                let c0 = compare_counters(n1, n2);
                left.lift(n1);
                let c1 = left.partial_cmp(&EventTree::Leaf { n: n2 });
                right.lift(n1);
                let c2 = right.partial_cmp(&EventTree::Leaf { n: n2 });
                combine(combine(c0, c1), c2)
            },
            (
                EventTree::Node { n: n1, left: mut left1, right: mut right1 },
                EventTree::Node { n: n2, left: mut left2, right: mut right2 },
            ) => {
                proof {
                    lemma_value_bounds(*left1);
                    lemma_value_bounds(*right1);
                    lemma_value_bounds(*left2);
                    lemma_value_bounds(*right2);
                    lemma_lifted(*left1, n1);
                    lemma_lifted(*right1, n1);
                    lemma_lifted(*left2, n2);
                    lemma_lifted(*right2, n2);
                }
                let c0 = compare_counters(n1, n2);
                left1.lift(n1);
                left2.lift(n2);
                let c1 = left1.partial_cmp(&left2);
                right1.lift(n1);
                right2.lift(n2);
                let c2 = right1.partial_cmp(&right2);
                combine(combine(c0, c1), c2)
            },
        }
    }
}

/// The comparison agrees with `leq`: where the second tree is tight (in
/// particular normal), the first compares `Less` or `Equal` to it exactly when
/// `leq` holds; and two normal trees compare `Equal` exactly when they are the
/// same tree.
pub proof fn law_compare_matches_leq(a: EventTree, b: EventTree)
    requires
        a.fits(),
        b.fits(),
        b.is_tight(),
    ensures
        (compare_spec(a, b) == Some(Ordering::Less) || compare_spec(a, b) == Some(Ordering::Equal))
            <==> leq_spec(a, b),
        a.is_normal() && b.is_normal() ==> (compare_spec(a, b) == Some(Ordering::Equal) <==> a == b),
{
    law_leq_exact(a, b);
    if a.is_normal() && b.is_normal() && compare_spec(a, b) == Some(Ordering::Equal) {
        assert forall|p: Seq<bool>| #[trigger] a.value_at(p) == b.value_at(p) by {
            let _ = a.pointwise_le(b);
            let _ = b.value_at(p);
        }
        lemma_normal_unique(a, b);
    }
}

impl Stamp {
    /// Compares two stamps by their events.
    pub fn partial_cmp(&self, other: &Self) -> (o: Option<Ordering>)
        requires
            self.events().fits(),
            other.events().fits(),
        ensures
            o == compare_spec(self.events(), other.events()),
    {
        self.e.partial_cmp(&other.e)
    }
}

} // verus!
