use vstd::prelude::*;

use crate::stamp::Stamp;
use crate::event_tree::{EventTree, lifted, lemma_lifted, lemma_value_bounds, lemma_with_root, lemma_tight_root_is_min,
    lemma_extremes_attained, lemma_descend, lemma_normal_unique, rest};

verus! {

/// The causal order: whether `self` happened before or is equal to `other`.
pub trait LessThanOrEqual {
    /// The comparison stays within the counters' range.
    spec fn leq_in_range(&self, other: &Self) -> bool;

    fn leq(&self, other: &Self) -> bool
        requires
            self.leq_in_range(other),
    ;
}

/// The comparison that `leq` performs on event trees: counters first, then
/// both halves with the counters above them added in.
pub open spec fn leq_spec(a: EventTree, b: EventTree) -> bool
    decreases a.height(),
{
    match a {
        EventTree::Leaf { n: n1 } => n1 <= b.root(),
        EventTree::Node { n: n1, left: left1, right: right1 } => {
            proof {
                lemma_with_root(*left1, (left1.root() + n1) as u32);
                lemma_with_root(*right1, (right1.root() + n1) as u32);
            }
            match b {
                EventTree::Leaf { n: n2 } => {
                    &&& n1 <= n2
                    &&& leq_spec(lifted(*left1, n1), EventTree::Leaf { n: n2 })
                    &&& leq_spec(lifted(*right1, n1), EventTree::Leaf { n: n2 })
                },
                EventTree::Node { n: n2, left: left2, right: right2 } => {
                    &&& n1 <= n2
                    &&& leq_spec(lifted(*left1, n1), lifted(*left2, n2))
                    &&& leq_spec(lifted(*right1, n1), lifted(*right2, n2))
                },
            }
        },
    }
}

/// Every counter that `leq` computes fits: it lifts the children of a node
/// only once the counters compared so far are in order, and the right
/// children only once the left ones compare below.
pub open spec fn leq_defined(a: EventTree, b: EventTree) -> bool
    decreases a.height(),
{
    match a {
        EventTree::Leaf { .. } => true,
        EventTree::Node { n: n1, left: left1, right: right1 } => {
            proof {
                lemma_with_root(*left1, (left1.root() + n1) as u32);
                lemma_with_root(*right1, (right1.root() + n1) as u32);
            }
            match b {
                EventTree::Leaf { n: n2 } => n1 <= n2 ==> {
                    &&& left1.root() + n1 <= u32::MAX
                    &&& leq_defined(lifted(*left1, n1), b)
                    &&& (leq_spec(lifted(*left1, n1), b) ==> {
                        &&& right1.root() + n1 <= u32::MAX
                        &&& leq_defined(lifted(*right1, n1), b)
                    })
                },
                EventTree::Node { n: n2, left: left2, right: right2 } => n1 <= n2 ==> {
                    &&& left1.root() + n1 <= u32::MAX
                    &&& left2.root() + n2 <= u32::MAX
                    &&& leq_defined(lifted(*left1, n1), lifted(*left2, n2))
                    &&& (leq_spec(lifted(*left1, n1), lifted(*left2, n2)) ==> {
                        &&& right1.root() + n1 <= u32::MAX
                        &&& right2.root() + n2 <= u32::MAX
                        &&& leq_defined(lifted(*right1, n1), lifted(*right2, n2))
                    })
                },
            }
        },
    }
}

/// Trees whose values fit can always be compared.
pub proof fn lemma_leq_defined(a: EventTree, b: EventTree)
    requires
        a.fits(),
        b.fits(),
    ensures
        leq_defined(a, b),
    decreases a.height(),
{
    match a {
        EventTree::Leaf { .. } => {},
        EventTree::Node { n: n1, left: left1, right: right1 } => {
            lemma_node_children(a);
            match b {
                EventTree::Leaf { .. } => {
                    lemma_leq_defined(lifted(*left1, n1), b);
                    lemma_leq_defined(lifted(*right1, n1), b);
                },
                EventTree::Node { n: n2, left: left2, right: right2 } => {
                    lemma_node_children(b);
                    lemma_leq_defined(lifted(*left1, n1), lifted(*left2, n2));
                    lemma_leq_defined(lifted(*right1, n1), lifted(*right2, n2));
                },
            }
        },
    }
}

/// The children of a node whose values fit can be lifted, and their lifted
/// forms fit and are lower.
pub proof fn lemma_node_children(e: EventTree)
    requires
        e.fits(),
    ensures
        match e {
            EventTree::Node { n, left, right } => {
                &&& left.root() + n <= u32::MAX
                &&& right.root() + n <= u32::MAX
                &&& lifted(*left, n).fits()
                &&& lifted(*right, n).fits()
                &&& lifted(*left, n).height() < e.height()
                &&& lifted(*right, n).height() < e.height()
                &&& forall|q: Seq<bool>| #[trigger] lifted(*left, n).value_at(q) == n + left.value_at(q)
                &&& forall|q: Seq<bool>| #[trigger] lifted(*right, n).value_at(q) == n + right.value_at(q)
                &&& (e.is_tight() ==> lifted(*left, n).is_tight() && lifted(*right, n).is_tight())
            },
            _ => true,
        },
{
    match e {
        EventTree::Node { n, left, right } => {
            lemma_value_bounds(*left);
            lemma_value_bounds(*right);
            lemma_lifted(*left, n);
            lemma_lifted(*right, n);
        },
        _ => {},
    }
}

/// The comparison is sound: when it answers yes, the first tree records at
/// most what the second records, at every point.
pub proof fn lemma_leq_sound(a: EventTree, b: EventTree)
    requires
        a.fits(),
        b.fits(),
        leq_spec(a, b),
    ensures
        a.pointwise_le(b),
    decreases a.height(),
{
    lemma_value_bounds(a);
    lemma_value_bounds(b);
    match a {
        EventTree::Leaf { .. } => {},
        EventTree::Node { n: n1, left: left1, right: right1 } => {
            lemma_node_children(a);
            match b {
                EventTree::Leaf { n: n2 } => {
                    let b = EventTree::Leaf { n: n2 };
                    lemma_leq_sound(lifted(*left1, n1), b);
                    lemma_leq_sound(lifted(*right1, n1), b);
                    assert forall|p: Seq<bool>| #[trigger] a.value_at(p) <= b.value_at(p) by {
                        let q = rest(p);
                        let _ = lifted(*left1, n1).value_at(q);
                        let _ = lifted(*right1, n1).value_at(q);
                        let _ = b.value_at(q);
                    }
                },
                EventTree::Node { n: n2, left: left2, right: right2 } => {
                    lemma_node_children(b);
                    lemma_leq_sound(lifted(*left1, n1), lifted(*left2, n2));
                    lemma_leq_sound(lifted(*right1, n1), lifted(*right2, n2));
                    assert forall|p: Seq<bool>| #[trigger] a.value_at(p) <= b.value_at(p) by {
                        let q = rest(p);
                        let _ = lifted(*left1, n1).value_at(q);
                        let _ = lifted(*right1, n1).value_at(q);
                        let _ = lifted(*left2, n2).value_at(q);
                        let _ = lifted(*right2, n2).value_at(q);
                    }
                },
            }
        },
    }
}

/// The comparison is complete when the second tree is tight (in particular
/// normal): if the first records at most what the second records everywhere,
/// the comparison answers yes.
pub proof fn lemma_leq_complete(a: EventTree, b: EventTree)
    requires
        a.fits(),
        b.fits(),
        b.is_tight(),
        a.pointwise_le(b),
    ensures
        leq_spec(a, b),
    decreases a.height(),
{
    lemma_value_bounds(a);
    lemma_value_bounds(b);
    lemma_tight_root_is_min(b);
    lemma_extremes_attained(b);
    let _ = a.value_at(b.min_point());
    match a {
        EventTree::Leaf { .. } => {},
        EventTree::Node { n: n1, left: left1, right: right1 } => {
            lemma_node_children(a);
            match b {
                EventTree::Leaf { n: n2 } => {
                    let b = EventTree::Leaf { n: n2 };
                    assert forall|q: Seq<bool>| #[trigger] lifted(*left1, n1).value_at(q) <= b.value_at(q) by {
                        lemma_descend(false, q);
                        let _ = a.value_at(seq![false] + q);
                        let _ = b.value_at(seq![false] + q);
                    }
                    assert forall|q: Seq<bool>| #[trigger] lifted(*right1, n1).value_at(q) <= b.value_at(q) by {
                        lemma_descend(true, q);
                        let _ = a.value_at(seq![true] + q);
                        let _ = b.value_at(seq![true] + q);
                    }
                    lemma_leq_complete(lifted(*left1, n1), b);
                    lemma_leq_complete(lifted(*right1, n1), b);
                },
                EventTree::Node { n: n2, left: left2, right: right2 } => {
                    lemma_node_children(b);
                    assert forall|q: Seq<bool>| #[trigger] lifted(*left1, n1).value_at(q) <= lifted(*left2, n2).value_at(q) by {
                        lemma_descend(false, q);
                        let _ = a.value_at(seq![false] + q);
                        let _ = b.value_at(seq![false] + q);
                    }
                    assert forall|q: Seq<bool>| #[trigger] lifted(*right1, n1).value_at(q) <= lifted(*right2, n2).value_at(q) by {
                        lemma_descend(true, q);
                        let _ = a.value_at(seq![true] + q);
                        let _ = b.value_at(seq![true] + q);
                    }
                    lemma_leq_complete(lifted(*left1, n1), lifted(*left2, n2));
                    lemma_leq_complete(lifted(*right1, n1), lifted(*right2, n2));
                },
            }
        },
    }
}

/// Every event tree is causally below itself.
pub proof fn lemma_leq_reflexive(a: EventTree)
    requires
        a.fits(),
    ensures
        leq_spec(a, a),
    decreases a.height(),
{
    match a {
        EventTree::Leaf { .. } => {},
        EventTree::Node { n, left, right } => {
            lemma_node_children(a);
            lemma_leq_reflexive(lifted(*left, n));
            lemma_leq_reflexive(lifted(*right, n));
        },
    }
}

/// The comparison is transitive when the last tree is tight.
pub proof fn law_leq_transitive(a: EventTree, b: EventTree, c: EventTree)
    requires
        a.fits(),
        b.fits(),
        c.fits(),
        c.is_tight(),
        leq_spec(a, b),
        leq_spec(b, c),
    ensures
        leq_spec(a, c),
{
    lemma_leq_sound(a, b);
    lemma_leq_sound(b, c);
    assert forall|p: Seq<bool>| #[trigger] a.value_at(p) <= c.value_at(p) by {
        let _ = b.value_at(p);
    }
    lemma_leq_complete(a, c);
}

/// On normal trees the comparison is antisymmetric: trees that compare below
/// each other are the same tree.
pub proof fn law_leq_antisymmetric(a: EventTree, b: EventTree)
    requires
        a.fits(),
        b.fits(),
        a.is_normal(),
        b.is_normal(),
        leq_spec(a, b),
        leq_spec(b, a),
    ensures
        a == b,
{
    lemma_leq_sound(a, b);
    lemma_leq_sound(b, a);
    assert forall|p: Seq<bool>| #[trigger] a.value_at(p) == b.value_at(p) by {}
    lemma_normal_unique(a, b);
}

/// On tight trees (in particular normal ones) the comparison decides exactly
/// whether one tree records at most what the other records, everywhere.
pub proof fn law_leq_exact(a: EventTree, b: EventTree)
    requires
        a.fits(),
        b.fits(),
        b.is_tight(),
    ensures
        leq_spec(a, b) <==> a.pointwise_le(b),
{
    if leq_spec(a, b) {
        lemma_leq_sound(a, b);
    }
    if a.pointwise_le(b) {
        lemma_leq_complete(a, b);
    }
}

impl LessThanOrEqual for EventTree {
    open spec fn leq_in_range(&self, other: &Self) -> bool {
        leq_defined(*self, *other)
    }

    fn leq(&self, other: &EventTree) -> (r: bool)
        ensures
            r == leq_spec(*self, *other),
            self.fits() && other.fits() && r ==> self.pointwise_le(*other),
            self.fits() && other.fits() && other.is_tight() && self.pointwise_le(*other) ==> r,
        decreases self.height(),
    {
        proof {
            if self.fits() && other.fits() && leq_spec(*self, *other) {
                lemma_leq_sound(*self, *other);
            }
            if self.fits() && other.fits() && other.is_tight() && self.pointwise_le(*other) {
                lemma_leq_complete(*self, *other);
            }
        }
        match self {
            EventTree::Leaf { n: n1 } => {
                match other {
                    EventTree::Leaf { n: n2 } => *n1 <= *n2,
                    EventTree::Node { n: n2, .. } => *n1 <= *n2,
                }
            },
            EventTree::Node { n: n1, left: left1, right: right1 } => {
                proof {
                    lemma_with_root(**left1, (left1.root() + *n1) as u32);
                    lemma_with_root(**right1, (right1.root() + *n1) as u32);
                }
                match other {
                    EventTree::Leaf { n: n2 } => {
                        (*n1 <= *n2) && {
                            let mut l = (**left1).clone();
                            l.lift(*n1);
                            l.leq(&EventTree::leaf(*n2))
                        } && {
                            let mut r = (**right1).clone();
                            r.lift(*n1);
                            r.leq(&EventTree::leaf(*n2))
                        }
                    },
                    EventTree::Node { n: n2, left: left2, right: right2 } => {
                        (*n1 <= *n2) && {
                            let mut l1 = (**left1).clone();
                            l1.lift(*n1);
                            let mut l2 = (**left2).clone();
                            l2.lift(*n2);
                            l1.leq(&l2)
                        } && {
                            let mut r1 = (**right1).clone();
                            r1.lift(*n1);
                            let mut r2 = (**right2).clone();
                            r2.lift(*n2);
                            r1.leq(&r2)
                        }
                    },
                }
            },
        }
    }
}

impl LessThanOrEqual for Stamp {
    open spec fn leq_in_range(&self, other: &Self) -> bool {
        leq_defined(self.e, other.e)
    }

    fn leq(&self, other: &Stamp) -> (r: bool)
        ensures
            r == leq_spec(self.events(), other.events()),
            self.events().fits() && other.events().fits() && r ==> self.events().pointwise_le(other.events()),
            self.events().fits() && other.events().fits() && other.events().is_tight()
                && self.events().pointwise_le(other.events()) ==> r,
    {
        self.e.leq(&other.e)
    }
}

} // verus!
