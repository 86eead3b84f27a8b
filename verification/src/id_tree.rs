use vstd::prelude::*;

use crate::event_tree::{goes_right, rest, lemma_descend};
use crate::normalisable::Normalisable;

verus! {

/// The identity component of a stamp: the part of the unit interval that a
/// participant owns, as a binary tree of booleans.
#[derive(Debug, Eq)]
pub enum IdTree {
    Leaf { i: bool },
    Node { left: Box<IdTree>, right: Box<IdTree> },
}

impl IdTree {
    pub open spec fn is_leaf(self) -> bool {
        self is Leaf
    }

    pub open spec fn height(self) -> nat
        decreases self,
    {
        match self {
            IdTree::Leaf { .. } => 0,
            IdTree::Node { left, right } => 1 + if left.height() >= right.height() {
                left.height()
            } else {
                right.height()
            },
        }
    }

    /// The anonymous leaf, which owns nothing.
    pub open spec fn is_zero(self) -> bool {
        self == (IdTree::Leaf { i: false })
    }

    /// Whether the identity owns the point of the unit interval with the given
    /// binary expansion.
    pub open spec fn holds_at(self, p: Seq<bool>) -> bool
        decreases self,
    {
        match self {
            IdTree::Leaf { i } => i,
            IdTree::Node { left, right } => if goes_right(p) {
                right.holds_at(rest(p))
            } else {
                left.holds_at(rest(p))
            },
        }
    }

    /// The identity owns some point.
    pub open spec fn owns_some(self) -> bool {
        exists|p: Seq<bool>| #[trigger] self.holds_at(p)
    }

    /// Both identities own the same points.
    pub open spec fn same_points(self, other: IdTree) -> bool {
        forall|p: Seq<bool>| #[trigger] self.holds_at(p) == other.holds_at(p)
    }

    /// No point is owned by both identities.
    pub open spec fn disjoint(self, other: IdTree) -> bool {
        forall|p: Seq<bool>| !(#[trigger] self.holds_at(p) && #[trigger] other.holds_at(p))
    }

    /// The canonical form: no node has two leaves of the same kind as children.
    pub open spec fn is_normal(self) -> bool
        decreases self,
    {
        match self {
            IdTree::Leaf { .. } => true,
            IdTree::Node { left, right } => {
                &&& left.is_normal()
                &&& right.is_normal()
                &&& !(left.is_leaf() && right.is_leaf() && *left == *right)
            },
        }
    }

    /// A point that a normal identity other than the anonymous leaf owns.
    pub open spec fn owned_point(self) -> Seq<bool>
        decreases self,
    {
        match self {
            IdTree::Leaf { .. } => Seq::empty(),
            IdTree::Node { left, right } => if !left.is_zero() {
                seq![false] + left.owned_point()
            } else {
                seq![true] + right.owned_point()
            },
        }
    }

    /// The normal form.
    pub open spec fn norm_spec(self) -> IdTree
        decreases self,
    {
        match self {
            IdTree::Leaf { .. } => self,
            IdTree::Node { left, right } => {
                let nl = left.norm_spec();
                let nr = right.norm_spec();
                if nl.is_leaf() && nr.is_leaf() && nl == nr {
                    nl
                } else {
                    IdTree::Node { left: Box::new(nl), right: Box::new(nr) }
                }
            },
        }
    }

    /// The shapes of two identities allow their sum: wherever one is an owning
    /// leaf, the other is the anonymous leaf.
    pub open spec fn summable(self, other: IdTree) -> bool
        decreases self,
    {
        match (self, other) {
            (_, IdTree::Leaf { i: false }) => true,
            (IdTree::Leaf { i: false }, _) => true,
            (IdTree::Node { left: l1, right: r1 }, IdTree::Node { left: l2, right: r2 }) => {
                l1.summable(*l2) && r1.summable(*r2)
            },
            _ => false,
        }
    }

    /// The sum of two identities.
    pub open spec fn sum_spec(self, other: IdTree) -> IdTree
        decreases self,
    {
        match (self, other) {
            (_, IdTree::Leaf { i: false }) => self,
            (IdTree::Leaf { i: false }, _) => other,
            (IdTree::Node { left: l1, right: r1 }, IdTree::Node { left: l2, right: r2 }) => {
                IdTree::Node {
                    left: Box::new(l1.sum_spec(*l2)),
                    right: Box::new(r1.sum_spec(*r2)),
                }.norm_spec()
            },
            _ => self,
        }
    }

    /// The two halves into which an identity splits.
    pub open spec fn split_spec(self) -> (IdTree, IdTree)
        decreases self,
    {
        match self {
            IdTree::Leaf { i: false } => (IdTree::Leaf { i: false }, IdTree::Leaf { i: false }),
            IdTree::Leaf { i: true } => (
                IdTree::Node {
                    left: Box::new(IdTree::Leaf { i: true }),
                    right: Box::new(IdTree::Leaf { i: false }),
                },
                IdTree::Node {
                    left: Box::new(IdTree::Leaf { i: false }),
                    right: Box::new(IdTree::Leaf { i: true }),
                },
            ),
            IdTree::Node { left, right } => if left.is_zero() {
                let (a, b) = right.split_spec();
                (
                    IdTree::Node { left: Box::new(IdTree::Leaf { i: false }), right: Box::new(a) },
                    IdTree::Node { left: Box::new(IdTree::Leaf { i: false }), right: Box::new(b) },
                )
            } else if right.is_zero() {
                let (a, b) = left.split_spec();
                (
                    IdTree::Node { left: Box::new(a), right: Box::new(IdTree::Leaf { i: false }) },
                    IdTree::Node { left: Box::new(b), right: Box::new(IdTree::Leaf { i: false }) },
                )
            } else {
                (
                    IdTree::Node { left: left, right: Box::new(IdTree::Leaf { i: false }) },
                    IdTree::Node { left: Box::new(IdTree::Leaf { i: false }), right: right },
                )
            },
        }
    }

    pub fn leaf(i: bool) -> (r: IdTree)
        ensures
            r == (IdTree::Leaf { i }),
    {
        IdTree::Leaf { i: i }
    }

    pub fn zero() -> (r: IdTree)
        ensures
            r == (IdTree::Leaf { i: false }),
    {
        IdTree::Leaf { i: false }
    }

    pub fn one() -> (r: IdTree)
        ensures
            r == (IdTree::Leaf { i: true }),
    {
        IdTree::Leaf { i: true }
    }

    pub fn node(left: Box<IdTree>, right: Box<IdTree>) -> (r: IdTree)
        ensures
            r == (IdTree::Node { left, right }),
    {
        IdTree::Node { left: left, right: right }
    }
}

impl Clone for IdTree {
    fn clone(&self) -> (r: Self)
        ensures
            r == *self,
        decreases self,
    {
        match self {
            IdTree::Leaf { i } => IdTree::Leaf { i: *i },
            IdTree::Node { left, right } => IdTree::Node {
                left: Box::new((**left).clone()),
                right: Box::new((**right).clone()),
            },
        }
    }
}

impl PartialEq for IdTree {
    fn eq(&self, other: &Self) -> (r: bool)
        decreases self,
    {
        match (self, other) {
            (IdTree::Leaf { i: a }, IdTree::Leaf { i: b }) => *a == *b,
            (IdTree::Node { left: l1, right: r1 }, IdTree::Node { left: l2, right: r2 }) => {
                (**l1).eq(&**l2) && (**r1).eq(&**r2)
            },
            _ => false,
        }
    }
}

impl vstd::std_specs::cmp::PartialEqSpecImpl for IdTree {
    open spec fn obeys_eq_spec() -> bool {
        true
    }

    open spec fn eq_spec(&self, other: &IdTree) -> bool {
        *self == *other
    }
}

/// Splitting an identity into two disjoint identities that together own what
/// it owns.
pub trait Split {
    fn split(&self) -> (Self, Self) where Self: Sized;
}

impl Split for IdTree {
    fn split(&self) -> (r: (Self, Self))
        ensures
            r == self.split_spec(),
            forall|p: Seq<bool>| #[trigger] self.holds_at(p) == (r.0.holds_at(p) || r.1.holds_at(p)),
            r.0.disjoint(r.1),
            self.is_normal() ==> r.0.is_normal() && r.1.is_normal(),
            self.is_normal() && !self.is_zero() ==> r.0.owns_some() && r.1.owns_some(),
        decreases self,
    {
        proof {
            lemma_split(*self);
        }
        match self {
            IdTree::Leaf { i: false } => (Self::zero(), Self::zero()),
            IdTree::Leaf { i: true } => {
                let left = Self::node(Box::new(Self::one()), Box::new(Self::zero()));
                let right = Self::node(Box::new(Self::zero()), Box::new(Self::one()));
                (left, right)
            },
            IdTree::Node { left, right } => {
                match (&**left, &**right) {
                    (IdTree::Leaf { i: false }, right) => {
                        let (split1, split2) = right.split();
                        let new_left = Self::node(Box::new(Self::zero()), Box::new(split1));
                        let new_right = Self::node(Box::new(Self::zero()), Box::new(split2));
                        (new_left, new_right)
                    },
                    (left, IdTree::Leaf { i: false }) => {
                        let (split1, split2) = left.split();
                        let new_left = Self::node(Box::new(split1), Box::new(Self::zero()));
                        let new_right = Self::node(Box::new(split2), Box::new(Self::zero()));
                        (new_left, new_right)
                    },
                    (left, right) => {
                        let new_left = Self::node(Box::new(left.clone()), Box::new(Self::zero()));
                        let new_right = Self::node(Box::new(Self::zero()), Box::new(right.clone()));
                        (new_left, new_right)
                    },
                }
            },
        }
    }
}

/// Merging two disjoint identities into one that owns what either owns.
pub trait Sum {
    /// The shapes of the two identities allow their sum.
    spec fn summable_with(&self, other: &Self) -> bool;

    fn sum(&self, other: &Self) -> Self where Self: Sized
        requires
            self.summable_with(other),
    ;
}

impl Sum for IdTree {
    open spec fn summable_with(&self, other: &Self) -> bool {
        self.summable(*other)
    }

    fn sum(&self, other: &Self) -> (r: Self)
        ensures
            r == self.sum_spec(*other),
            forall|p: Seq<bool>| #[trigger] r.holds_at(p) == (self.holds_at(p) || other.holds_at(p)),
            self.is_normal() && other.is_normal() ==> r.is_normal(),
        decreases self,
    {
        proof {
            lemma_sum(*self, *other);
        }
        match (self, other) {
            (_, IdTree::Leaf { i: false }) => self.clone(),
            (IdTree::Leaf { i: false }, _) => other.clone(),
            (IdTree::Node { left: left1, right: right1 }, IdTree::Node { left: left2, right: right2 }) => {
                let new_left = Box::new(left1.sum(left2));
                let new_right = Box::new(right1.sum(right2));
                Self::node(new_left, new_right).norm()
            },
            _ => {
                proof {
                    assert(false);
                }
                vstd::pervasive::unreached()
            },
        }
    }
}

/// The normal form owns what the tree owns, and is normal.
pub proof fn lemma_norm(i: IdTree)
    ensures
        i.norm_spec().is_normal(),
        i.norm_spec().same_points(i),
        i.is_normal() ==> i.norm_spec() == i,
    decreases i,
{
    match i {
        IdTree::Leaf { .. } => {},
        IdTree::Node { left, right } => {
            lemma_norm(*left);
            lemma_norm(*right);
            let nl = left.norm_spec();
            let nr = right.norm_spec();
            assert forall|p: Seq<bool>| #[trigger] i.norm_spec().holds_at(p) == i.holds_at(p) by {
                let _ = nl.holds_at(rest(p));
                let _ = nr.holds_at(rest(p));
            }
        },
    }
}

/// A normal identity other than the anonymous leaf owns some point.
pub proof fn lemma_normal_owns(i: IdTree)
    requires
        i.is_normal(),
        !i.is_zero(),
    ensures
        i.holds_at(i.owned_point()),
        i.owns_some(),
    decreases i,
{
    match i {
        IdTree::Leaf { .. } => {},
        IdTree::Node { left, right } => {
            if !left.is_zero() {
                lemma_normal_owns(*left);
                lemma_descend(false, left.owned_point());
            } else {
                lemma_normal_owns(*right);
                lemma_descend(true, right.owned_point());
            }
        },
    }
    assert(i.holds_at(i.owned_point()));
}

/// Normal forms are canonical: two normal identities that own the same
/// points are the same tree.
pub proof fn lemma_normal_unique(a: IdTree, b: IdTree)
    requires
        a.is_normal(),
        b.is_normal(),
        a.same_points(b),
    ensures
        a == b,
    decreases a,
{
    match (a, b) {
        (IdTree::Leaf { i: x }, IdTree::Leaf { i: y }) => {
            let _ = a.holds_at(Seq::empty());
            let _ = b.holds_at(Seq::empty());
        },
        (IdTree::Leaf { i: x }, IdTree::Node { left, right }) => {
            lemma_leaf_vs_node(x, b);
        },
        (IdTree::Node { left, right }, IdTree::Leaf { i: y }) => {
            lemma_leaf_vs_node(y, a);
        },
        (IdTree::Node { left: la, right: ra }, IdTree::Node { left: lb, right: rb }) => {
            assert forall|q: Seq<bool>| #[trigger] la.holds_at(q) == lb.holds_at(q) by {
                lemma_descend(false, q);
                let _ = a.holds_at(seq![false] + q);
                let _ = b.holds_at(seq![false] + q);
            }
            assert forall|q: Seq<bool>| #[trigger] ra.holds_at(q) == rb.holds_at(q) by {
                lemma_descend(true, q);
                let _ = a.holds_at(seq![true] + q);
                let _ = b.holds_at(seq![true] + q);
            }
            lemma_normal_unique(*la, *lb);
            lemma_normal_unique(*ra, *rb);
        },
    }
}

/// A normal node both owns some point and misses some point.
proof fn lemma_normal_node_mixed(i: IdTree)
    requires
        i.is_normal(),
        !i.is_leaf(),
    ensures
        exists|p: Seq<bool>| #[trigger] i.holds_at(p),
        exists|p: Seq<bool>| !#[trigger] i.holds_at(p),
    decreases i,
{
    match i {
        IdTree::Leaf { .. } => {},
        IdTree::Node { left, right } => {
            let l = *left;
            let r = *right;
            if l.is_leaf() && r.is_leaf() {
                reveal_with_fuel(IdTree::holds_at, 2);
                lemma_descend(false, Seq::empty());
                lemma_descend(true, Seq::empty());
                let pl = seq![false] + Seq::<bool>::empty();
                let pr = seq![true] + Seq::<bool>::empty();
                let _ = i.holds_at(pl);
                let _ = i.holds_at(pr);
            } else if !l.is_leaf() {
                lemma_normal_node_mixed(l);
                let q1 = choose|p: Seq<bool>| #[trigger] l.holds_at(p);
                let q2 = choose|p: Seq<bool>| !#[trigger] l.holds_at(p);
                lemma_descend(false, q1);
                lemma_descend(false, q2);
                let _ = i.holds_at(seq![false] + q1);
                let _ = i.holds_at(seq![false] + q2);
            } else {
                lemma_normal_node_mixed(r);
                let q1 = choose|p: Seq<bool>| #[trigger] r.holds_at(p);
                let q2 = choose|p: Seq<bool>| !#[trigger] r.holds_at(p);
                lemma_descend(true, q1);
                lemma_descend(true, q2);
                let _ = i.holds_at(seq![true] + q1);
                let _ = i.holds_at(seq![true] + q2);
            }
        },
    }
}

proof fn lemma_leaf_vs_node(x: bool, b: IdTree)
    requires
        b.is_normal(),
        !b.is_leaf(),
    ensures
        !(IdTree::Leaf { i: x }).same_points(b),
{
    lemma_normal_node_mixed(b);
    let a = IdTree::Leaf { i: x };
    let q1 = choose|p: Seq<bool>| #[trigger] b.holds_at(p);
    let q2 = choose|p: Seq<bool>| !#[trigger] b.holds_at(p);
    let _ = a.holds_at(q1);
    let _ = a.holds_at(q2);
}

/// What `split` computes: two disjoint identities covering the original; on a
/// normal identity they are normal, and each owns something unless the
/// original is anonymous.
pub proof fn lemma_split(i: IdTree)
    ensures
        forall|p: Seq<bool>| #[trigger] i.holds_at(p) == (i.split_spec().0.holds_at(p) || i.split_spec().1.holds_at(p)),
        i.split_spec().0.disjoint(i.split_spec().1),
        i.is_normal() ==> i.split_spec().0.is_normal() && i.split_spec().1.is_normal(),
        i.is_normal() && !i.is_zero() ==> i.split_spec().0.owns_some() && i.split_spec().1.owns_some(),
    decreases i,
{
    let (a, b) = i.split_spec();
    match i {
        IdTree::Leaf { i: false } => {
            assert(a == (IdTree::Leaf { i: false }));
            assert(b == (IdTree::Leaf { i: false }));
            assert forall|p: Seq<bool>| !(#[trigger] a.holds_at(p) && #[trigger] b.holds_at(p)) by {}
        },
        IdTree::Leaf { i: true } => {
            assert forall|p: Seq<bool>| #[trigger] i.holds_at(p) == (a.holds_at(p) || b.holds_at(p)) by {
                reveal_with_fuel(IdTree::holds_at, 2);
            }
            assert forall|p: Seq<bool>| !(#[trigger] a.holds_at(p) && #[trigger] b.holds_at(p)) by {
                reveal_with_fuel(IdTree::holds_at, 2);
            }
            reveal_with_fuel(IdTree::holds_at, 2);
            reveal_with_fuel(IdTree::is_normal, 2);
            assert(a.is_normal() && b.is_normal());
            lemma_descend(false, Seq::empty());
            lemma_descend(true, Seq::empty());
            let _ = a.holds_at(seq![false] + Seq::<bool>::empty());
            let _ = b.holds_at(seq![true] + Seq::<bool>::empty());
        },
        IdTree::Node { left, right } => {
            lemma_split(*left);
            lemma_split(*right);
            let (la, lb) = left.split_spec();
            let (ra, rb) = right.split_spec();
            assert forall|p: Seq<bool>| #[trigger] i.holds_at(p) == (a.holds_at(p) || b.holds_at(p)) by {
                reveal_with_fuel(IdTree::holds_at, 2);
                let _ = left.holds_at(rest(p));
                let _ = right.holds_at(rest(p));
                let _ = la.holds_at(rest(p));
                let _ = ra.holds_at(rest(p));
            }
            assert forall|p: Seq<bool>| !(#[trigger] a.holds_at(p) && #[trigger] b.holds_at(p)) by {
                reveal_with_fuel(IdTree::holds_at, 2);
                let _ = la.holds_at(rest(p));
                let _ = lb.holds_at(rest(p));
                let _ = ra.holds_at(rest(p));
                let _ = rb.holds_at(rest(p));
            }
            if i.is_normal() {
                if left.is_zero() {
                    assert(!right.is_zero());
                    assert(!ra.is_leaf() && !rb.is_leaf());
                } else if right.is_zero() {
                    assert(!la.is_leaf() && !lb.is_leaf());
                }
                assert(a.is_normal());
                assert(b.is_normal());
            }
            if i.is_normal() && !i.is_zero() {
                if left.is_zero() {
                    lemma_normal_owns(*right);
                    let qa = choose|p: Seq<bool>| #[trigger] ra.holds_at(p);
                    let qb = choose|p: Seq<bool>| #[trigger] rb.holds_at(p);
                    lemma_descend(true, qa);
                    lemma_descend(true, qb);
                    let _ = a.holds_at(seq![true] + qa);
                    let _ = b.holds_at(seq![true] + qb);
                } else if right.is_zero() {
                    lemma_normal_owns(*left);
                    let qa = choose|p: Seq<bool>| #[trigger] la.holds_at(p);
                    let qb = choose|p: Seq<bool>| #[trigger] lb.holds_at(p);
                    lemma_descend(false, qa);
                    lemma_descend(false, qb);
                    let _ = a.holds_at(seq![false] + qa);
                    let _ = b.holds_at(seq![false] + qb);
                } else {
                    lemma_normal_owns(*left);
                    lemma_normal_owns(*right);
                    let qa = left.owned_point();
                    let qb = right.owned_point();
                    lemma_descend(false, qa);
                    lemma_descend(true, qb);
                    let _ = a.holds_at(seq![false] + qa);
                    let _ = b.holds_at(seq![true] + qb);
                }
            }
        },
    }
}

/// What `sum` computes: the union of the two identities, normal when both are.
pub proof fn lemma_sum(a: IdTree, b: IdTree)
    ensures
        a.summable(b) ==> forall|p: Seq<bool>| #[trigger] a.sum_spec(b).holds_at(p) == (a.holds_at(p) || b.holds_at(p)),
        a.is_normal() && b.is_normal() ==> a.sum_spec(b).is_normal(),
    decreases a,
{
    match (a, b) {
        (_, IdTree::Leaf { i: false }) => {},
        (IdTree::Leaf { i: false }, _) => {},
        (IdTree::Node { left: l1, right: r1 }, IdTree::Node { left: l2, right: r2 }) => {
            lemma_sum(*l1, *l2);
            lemma_sum(*r1, *r2);
            let m = IdTree::Node { left: Box::new(l1.sum_spec(*l2)), right: Box::new(r1.sum_spec(*r2)) };
            lemma_norm(m);
            if a.summable(b) {
                assert forall|p: Seq<bool>| #[trigger] a.sum_spec(b).holds_at(p) == (a.holds_at(p) || b.holds_at(p)) by {
                    let _ = m.holds_at(p);
                    let _ = l1.sum_spec(*l2).holds_at(rest(p));
                    let _ = r1.sum_spec(*r2).holds_at(rest(p));
                }
            }
        },
        _ => {},
    }
}

/// The two halves of a split can always be summed.
pub proof fn lemma_split_summable(i: IdTree)
    ensures
        i.split_spec().0.summable(i.split_spec().1),
    decreases i,
{
    match i {
        IdTree::Leaf { .. } => {
            reveal_with_fuel(IdTree::summable, 2);
        },
        IdTree::Node { left, right } => {
            lemma_split_summable(*left);
            lemma_split_summable(*right);
            reveal_with_fuel(IdTree::summable, 2);
        },
    }
}

/// Summing the two halves of a split gives back the normal identity that was
/// split: a fork followed by a join returns the original identity.
pub proof fn law_sum_undoes_split(i: IdTree)
    requires
        i.is_normal(),
    ensures
        i.split_spec().0.summable(i.split_spec().1),
        i.split_spec().0.sum_spec(i.split_spec().1) == i,
{
    let (a, b) = i.split_spec();
    lemma_split(i);
    lemma_split_summable(i);
    lemma_sum(a, b);
    let s = a.sum_spec(b);
    assert forall|p: Seq<bool>| #[trigger] s.holds_at(p) == i.holds_at(p) by {}
    lemma_normal_unique(s, i);
}

/// The sum of two normal identities does not depend on their order.
pub proof fn law_sum_commutative(a: IdTree, b: IdTree)
    requires
        a.is_normal(),
        b.is_normal(),
        a.summable(b),
    ensures
        b.summable(a),
        a.sum_spec(b) == b.sum_spec(a),
    decreases a,
{
    lemma_summable_symmetric(a, b);
    lemma_sum(a, b);
    lemma_sum(b, a);
    let x = a.sum_spec(b);
    let y = b.sum_spec(a);
    assert forall|p: Seq<bool>| #[trigger] x.holds_at(p) == y.holds_at(p) by {}
    lemma_normal_unique(x, y);
}

pub proof fn lemma_summable_symmetric(a: IdTree, b: IdTree)
    requires
        a.summable(b),
    ensures
        b.summable(a),
    decreases a,
{
    match (a, b) {
        (IdTree::Node { left: l1, right: r1 }, IdTree::Node { left: l2, right: r2 }) => {
            lemma_summable_symmetric(*l1, *l2);
            lemma_summable_symmetric(*r1, *r2);
        },
        _ => {},
    }
}

/// Identities that can be summed are disjoint, and normal disjoint
/// identities can be summed: for normal identities, `sum` is defined exactly
/// on disjoint pairs.
pub proof fn law_summable_iff_disjoint(a: IdTree, b: IdTree)
    ensures
        a.summable(b) ==> a.disjoint(b),
        a.is_normal() && b.is_normal() && a.disjoint(b) ==> a.summable(b),
    decreases a,
{
    match (a, b) {
        (IdTree::Node { left: l1, right: r1 }, IdTree::Node { left: l2, right: r2 }) => {
            law_summable_iff_disjoint(*l1, *l2);
            law_summable_iff_disjoint(*r1, *r2);
            if a.summable(b) {
                assert forall|p: Seq<bool>| !(#[trigger] a.holds_at(p) && #[trigger] b.holds_at(p)) by {
                    let _ = l1.holds_at(rest(p));
                    let _ = l2.holds_at(rest(p));
                    let _ = r1.holds_at(rest(p));
                    let _ = r2.holds_at(rest(p));
                }
            }
            if a.is_normal() && b.is_normal() && a.disjoint(b) {
                assert forall|q: Seq<bool>| !(#[trigger] l1.holds_at(q) && #[trigger] l2.holds_at(q)) by {
                    lemma_descend(false, q);
                    let _ = a.holds_at(seq![false] + q);
                    let _ = b.holds_at(seq![false] + q);
                }
                assert forall|q: Seq<bool>| !(#[trigger] r1.holds_at(q) && #[trigger] r2.holds_at(q)) by {
                    lemma_descend(true, q);
                    let _ = a.holds_at(seq![true] + q);
                    let _ = b.holds_at(seq![true] + q);
                }
            }
        },
        (IdTree::Leaf { i: true }, IdTree::Node { .. }) => {
            if b.is_normal() {
                lemma_normal_owns(b);
                let _ = a.holds_at(b.owned_point());
            }
        },
        (IdTree::Node { .. }, IdTree::Leaf { i: true }) => {
            if a.is_normal() {
                lemma_normal_owns(a);
                let _ = b.holds_at(a.owned_point());
            }
        },
        (IdTree::Leaf { i: true }, IdTree::Leaf { i: true }) => {
            let _ = a.holds_at(Seq::empty());
        },
        _ => {},
    }
}

/// Splitting a node whose two halves both own something hands each half to
/// one side, whole: the first identity owns exactly the points of the left
/// half and none of the right, the second exactly those of the right half and
/// none of the left.
pub proof fn law_split_separates_halves(l: IdTree, r: IdTree)
    requires
        !l.is_zero(),
        !r.is_zero(),
    ensures
        ({
            let (a, b) = (IdTree::Node { left: Box::new(l), right: Box::new(r) }).split_spec();
            &&& a == (IdTree::Node { left: Box::new(l), right: Box::new(IdTree::Leaf { i: false }) })
            &&& b == (IdTree::Node { left: Box::new(IdTree::Leaf { i: false }), right: Box::new(r) })
            &&& forall|p: Seq<bool>| #[trigger] a.holds_at(p) == (!goes_right(p) && l.holds_at(rest(p)))
            &&& forall|p: Seq<bool>| #[trigger] b.holds_at(p) == (goes_right(p) && r.holds_at(rest(p)))
        }),
{
    let (a, b) = (IdTree::Node { left: Box::new(l), right: Box::new(r) }).split_spec();
    assert forall|p: Seq<bool>| #[trigger] a.holds_at(p) == (!goes_right(p) && l.holds_at(rest(p))) by {
        let _ = IdTree::Leaf { i: false }.holds_at(rest(p));
    }
    assert forall|p: Seq<bool>| #[trigger] b.holds_at(p) == (goes_right(p) && r.holds_at(rest(p))) by {
        let _ = IdTree::Leaf { i: false }.holds_at(rest(p));
    }
}

} // verus!
