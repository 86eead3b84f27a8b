use vstd::prelude::*;

use crate::normalisable::Normalisable;

verus! {

/// The event component of a stamp: a binary tree whose nodes carry counters
/// relative to their parent.
#[derive(Debug, Eq)]
pub enum EventTree {
    Leaf { n: u32 },
    Node { n: u32, left: Box<EventTree>, right: Box<EventTree> },
}

/// A point of the unit interval is given by its binary expansion; a point
/// whose expansion ends is continued with zeros.
pub open spec fn goes_right(p: Seq<bool>) -> bool {
    p.len() > 0 && p[0]
}

/// The expansion of a point below the half it lies in.
pub open spec fn rest(p: Seq<bool>) -> Seq<bool> {
    if p.len() > 0 {
        p.drop_first()
    } else {
        p
    }
}

pub open spec fn min_int(a: int, b: int) -> int {
    if a <= b {
        a
    } else {
        b
    }
}

pub open spec fn max_int(a: int, b: int) -> int {
    if a >= b {
        a
    } else {
        b
    }
}

impl EventTree {
    /// The counter stored at the root.
    pub open spec fn root(self) -> u32 {
        match self {
            EventTree::Leaf { n } => n,
            EventTree::Node { n, .. } => n,
        }
    }

    pub open spec fn is_leaf(self) -> bool {
        self is Leaf
    }

    /// The same tree with another counter at the root.
    pub open spec fn with_root(self, m: u32) -> EventTree {
        match self {
            EventTree::Leaf { .. } => EventTree::Leaf { n: m },
            EventTree::Node { left, right, .. } => EventTree::Node { n: m, left, right },
        }
    }

    /// The number of events the tree records at a point of the unit interval.
    pub open spec fn value_at(self, p: Seq<bool>) -> int
        decreases self,
    {
        match self {
            EventTree::Leaf { n } => n as int,
            EventTree::Node { n, left, right } => n + if goes_right(p) {
                right.value_at(rest(p))
            } else {
                left.value_at(rest(p))
            },
        }
    }

    /// The least value the tree records anywhere.
    pub open spec fn min_value(self) -> int
        decreases self,
    {
        match self {
            EventTree::Leaf { n } => n as int,
            EventTree::Node { n, left, right } => n + min_int(left.min_value(), right.min_value()),
        }
    }

    /// The greatest value the tree records anywhere.
    pub open spec fn max_value(self) -> int
        decreases self,
    {
        match self {
            EventTree::Leaf { n } => n as int,
            EventTree::Node { n, left, right } => n + max_int(left.max_value(), right.max_value()),
        }
    }

    /// Every value the tree records fits in a counter.
    pub open spec fn fits(self) -> bool {
        self.max_value() <= u32::MAX
    }

    /// The least value of every subtree fits in a counter.
    pub open spec fn min_fits(self) -> bool
        decreases self,
    {
        match self {
            EventTree::Leaf { .. } => true,
            EventTree::Node { left, right, .. } => {
                &&& left.min_fits()
                &&& right.min_fits()
                &&& self.min_value() <= u32::MAX
            },
        }
    }

    pub open spec fn height(self) -> nat
        decreases self,
    {
        match self {
            EventTree::Leaf { .. } => 0,
            EventTree::Node { left, right, .. } => 1 + if left.height() >= right.height() {
                left.height()
            } else {
                right.height()
            },
        }
    }

    /// Every node has a child whose root counter is zero, so that the counter
    /// of a node is the least value below it.
    pub open spec fn is_tight(self) -> bool
        decreases self,
    {
        match self {
            EventTree::Leaf { .. } => true,
            EventTree::Node { left, right, .. } => {
                &&& left.is_tight()
                &&& right.is_tight()
                &&& (left.root() == 0 || right.root() == 0)
            },
        }
    }

    /// The canonical form: tight, and no node has two leaves with equal
    /// counters as children.
    pub open spec fn is_normal(self) -> bool
        decreases self,
    {
        match self {
            EventTree::Leaf { .. } => true,
            EventTree::Node { left, right, .. } => {
                &&& left.is_normal()
                &&& right.is_normal()
                &&& (left.root() == 0 || right.root() == 0)
                &&& !(left.is_leaf() && right.is_leaf() && left.root() == right.root())
            },
        }
    }

    /// The normal form: counters are pushed up as far as they go and
    /// subtrees recording a constant value are collapsed into leaves.
    pub open spec fn norm_spec(self) -> EventTree
        decreases self,
    {
        match self {
            EventTree::Leaf { .. } => self,
            EventTree::Node { n, left, right } => {
                let nl = left.norm_spec();
                let nr = right.norm_spec();
                if nl.is_leaf() && nr.is_leaf() && nl.root() == nr.root() {
                    EventTree::Leaf { n: (n + nl.root()) as u32 }
                } else {
                    let m = if nl.root() <= nr.root() {
                        nl.root()
                    } else {
                        nr.root()
                    };
                    EventTree::Node {
                        n: (n + m) as u32,
                        left: Box::new(nl.with_root((nl.root() - m) as u32)),
                        right: Box::new(nr.with_root((nr.root() - m) as u32)),
                    }
                }
            },
        }
    }

    /// At every point, this tree records at most what `other` records.
    pub open spec fn pointwise_le(self, other: EventTree) -> bool {
        forall|p: Seq<bool>| #[trigger] self.value_at(p) <= other.value_at(p)
    }

    /// Both trees record the same value at every point.
    pub open spec fn same_values(self, other: EventTree) -> bool {
        forall|p: Seq<bool>| #[trigger] self.value_at(p) == other.value_at(p)
    }

    /// A point at which the tree records its least value.
    pub open spec fn min_point(self) -> Seq<bool>
        decreases self,
    {
        match self {
            EventTree::Leaf { .. } => Seq::empty(),
            EventTree::Node { left, right, .. } => if left.min_value() <= right.min_value() {
                seq![false] + left.min_point()
            } else {
                seq![true] + right.min_point()
            },
        }
    }

    /// A point at which the tree records its greatest value.
    pub open spec fn max_point(self) -> Seq<bool>
        decreases self,
    {
        match self {
            EventTree::Leaf { .. } => Seq::empty(),
            EventTree::Node { left, right, .. } => if left.max_value() >= right.max_value() {
                seq![false] + left.max_point()
            } else {
                seq![true] + right.max_point()
            },
        }
    }
}

impl EventTree {
    pub fn zero() -> (r: Self)
        ensures
            r == (EventTree::Leaf { n: 0 }),
    {
        Self::leaf(0)
    }

    pub fn leaf(n: u32) -> (r: Self)
        ensures
            r == (EventTree::Leaf { n }),
    {
        EventTree::Leaf { n: n }
    }

    pub fn node(n: u32, left: Box<Self>, right: Box<Self>) -> (r: Self)
        ensures
            r == (EventTree::Node { n, left, right }),
    {
        EventTree::Node { n: n, left: left, right: right }
    }

    /// The counter at the root.
    pub fn n(&self) -> (r: u32)
        ensures
            r == self.root(),
    {
        match self {
            EventTree::Leaf { n } => *n,
            EventTree::Node { n, .. } => *n,
        }
    }

    /// Raises the root counter, and so every value of the tree, by `m`.
    pub fn lift(&mut self, m: u32) -> (r: &mut Self)
        requires
            old(self).root() + m <= u32::MAX,
        ensures
            *r == old(self).with_root((old(self).root() + m) as u32),
            *final(self) == *final(r),
    {
        match self {
            EventTree::Leaf { n } => *n = *n + m,
            EventTree::Node { n, .. } => *n = *n + m,
        };
        self
    }

    /// Lowers the root counter, and so every value of the tree, by `m`.
    pub fn sink(&mut self, m: u32) -> (r: &mut Self)
        requires
            m <= old(self).root(),
        ensures
            *r == old(self).with_root((old(self).root() - m) as u32),
            *final(self) == *final(r),
    {
        match self {
            EventTree::Leaf { n } => *n = *n - m,
            EventTree::Node { n, .. } => *n = *n - m,
        };
        self
    }

    /// The least upper bound of two event trees: at every point it records the
    /// greater of the two values, in normal form.
    pub fn join(&self, other: &Self) -> (r: Self)
        requires
            join_in_range(*self, *other),
        ensures
            r == join_spec(*self, *other),
            r.is_normal(),
            forall|p: Seq<bool>| #[trigger] r.value_at(p) == max_int(self.value_at(p), other.value_at(p)),
            r.max_value() == max_int(self.max_value(), other.max_value()),
        decreases max_nat(self.height(), other.height()), join_rank(*self, *other),
    {
        proof {
            lemma_join_general(*self, *other);
        }
        match (self, other) {
            (EventTree::Leaf { n: n1 }, EventTree::Leaf { n: n2 }) => {
                Self::leaf(if *n1 >= *n2 { *n1 } else { *n2 })
            },
            (EventTree::Leaf { n: n1 }, _) => {
                let expanded = Self::node(*n1, Box::new(Self::zero()), Box::new(Self::zero()));
                proof {
                    lemma_expand_leaf(*self);
                }
                expanded.join(other)
            },
            (_, EventTree::Leaf { n: n2 }) => {
                let expanded = Self::node(*n2, Box::new(Self::zero()), Box::new(Self::zero()));
                proof {
                    lemma_expand_leaf(*other);
                }
                self.join(&expanded)
            },
            (EventTree::Node { n: n1, .. }, EventTree::Node { n: n2, .. }) if *n1 > *n2 => {
                other.join(self)
            },
            (
                EventTree::Node { n: n1, left: left1, right: right1 },
                EventTree::Node { n: n2, left: left2, right: right2 },
            ) => {
                let diff = *n2 - *n1;
                let mut lifted_left = (**left2).clone();
                lifted_left.lift(diff);
                let mut lifted_right = (**right2).clone();
                lifted_right.lift(diff);
                proof {
                    lemma_lifted(**left2, diff);
                    lemma_lifted(**right2, diff);
                }
                let new_left = left1.join(&lifted_left);
                let new_right = right1.join(&lifted_right);
                let joined = Self::node(*n1, Box::new(new_left), Box::new(new_right));
                joined.norm()
            },
        }
    }
}

/// The subtree with the counters of its ancestors added to its root.
pub open spec fn lifted(e: EventTree, m: u32) -> EventTree {
    e.with_root((e.root() + m) as u32)
}

/// A leaf's counter on a node with two empty children.
pub open spec fn expand(n: u32) -> EventTree {
    EventTree::Node { n, left: Box::new(EventTree::Leaf { n: 0 }), right: Box::new(EventTree::Leaf { n: 0 }) }
}

/// The join of two event trees, as `join` computes it: a leaf facing a node is
/// expanded, the node with the smaller root counter leads, and the children
/// are joined with the difference of the counters added to the other side.
pub open spec fn join_spec(a: EventTree, b: EventTree) -> EventTree
    decreases max_nat(a.height(), b.height()), join_rank(a, b),
{
    match (a, b) {
        (EventTree::Leaf { n: n1 }, EventTree::Leaf { n: n2 }) => EventTree::Leaf {
            n: if n1 >= n2 {
                n1
            } else {
                n2
            },
        },
        (EventTree::Leaf { n: n1 }, _) => {
            proof {
                reveal_with_fuel(EventTree::height, 2);
            }
            join_spec(expand(n1), b)
        },
        (_, EventTree::Leaf { n: n2 }) => {
            proof {
                reveal_with_fuel(EventTree::height, 2);
            }
            join_spec(a, expand(n2))
        },
        (
            EventTree::Node { n: n1, left: l1, right: r1 },
            EventTree::Node { n: n2, left: l2, right: r2 },
        ) => {
            if n1 > n2 {
                join_spec(b, a)
            } else {
                proof {
                    lemma_with_root(*l2, (l2.root() + (n2 - n1)) as u32);
                    lemma_with_root(*r2, (r2.root() + (n2 - n1)) as u32);
                }
                EventTree::Node {
                    n: n1,
                    left: Box::new(join_spec(*l1, lifted(*l2, (n2 - n1) as u32))),
                    right: Box::new(join_spec(*r1, lifted(*r2, (n2 - n1) as u32))),
                }.norm_spec()
            }
        },
    }
}

pub open spec fn is_pointwise_max(r: EventTree, a: EventTree, b: EventTree) -> bool {
    forall|p: Seq<bool>| #[trigger] r.value_at(p) == max_int(a.value_at(p), b.value_at(p))
}

/// Every counter that `join` computes fits: the counters of the children it
/// lifts, and the node it normalises.
pub open spec fn join_in_range(a: EventTree, b: EventTree) -> bool
    decreases max_nat(a.height(), b.height()), join_rank(a, b),
{
    match (a, b) {
        (EventTree::Leaf { .. }, EventTree::Leaf { .. }) => true,
        (EventTree::Leaf { n: n1 }, _) => {
            proof {
                reveal_with_fuel(EventTree::height, 2);
            }
            join_in_range(expand(n1), b)
        },
        (_, EventTree::Leaf { n: n2 }) => {
            proof {
                reveal_with_fuel(EventTree::height, 2);
            }
            join_in_range(a, expand(n2))
        },
        (
            EventTree::Node { n: n1, left: l1, right: r1 },
            EventTree::Node { n: n2, left: l2, right: r2 },
        ) => {
            if n1 > n2 {
                join_in_range(b, a)
            } else {
                proof {
                    lemma_with_root(*l2, (l2.root() + (n2 - n1)) as u32);
                    lemma_with_root(*r2, (r2.root() + (n2 - n1)) as u32);
                }
                &&& l2.root() + (n2 - n1) <= u32::MAX
                &&& r2.root() + (n2 - n1) <= u32::MAX
                &&& join_in_range(*l1, lifted(*l2, (n2 - n1) as u32))
                &&& join_in_range(*r1, lifted(*r2, (n2 - n1) as u32))
                &&& (EventTree::Node {
                    n: n1,
                    left: Box::new(join_spec(*l1, lifted(*l2, (n2 - n1) as u32))),
                    right: Box::new(join_spec(*r1, lifted(*r2, (n2 - n1) as u32))),
                }).min_fits()
            }
        },
    }
}

/// What `join` computes wherever its counters fit: the normal tree recording
/// the greater value at every point.
pub proof fn lemma_join_general(a: EventTree, b: EventTree)
    requires
        join_in_range(a, b),
    ensures
        join_spec(a, b).is_normal(),
        is_pointwise_max(join_spec(a, b), a, b),
        join_spec(a, b).max_value() == max_int(a.max_value(), b.max_value()),
    decreases max_nat(a.height(), b.height()), join_rank(a, b),
{
    let r = join_spec(a, b);
    match (a, b) {
        (EventTree::Leaf { .. }, EventTree::Leaf { .. }) => {},
        (EventTree::Leaf { n: n1 }, _) => {
            lemma_expand_leaf(a);
            lemma_join_general(expand(n1), b);
            assert forall|p: Seq<bool>| #[trigger] r.value_at(p) == max_int(a.value_at(p), b.value_at(p)) by {
                let _ = expand(n1).value_at(p);
            }
        },
        (_, EventTree::Leaf { n: n2 }) => {
            lemma_expand_leaf(b);
            lemma_join_general(a, expand(n2));
            assert forall|p: Seq<bool>| #[trigger] r.value_at(p) == max_int(a.value_at(p), b.value_at(p)) by {
                let _ = expand(n2).value_at(p);
            }
        },
        (
            EventTree::Node { n: n1, left: l1, right: r1 },
            EventTree::Node { n: n2, left: l2, right: r2 },
        ) => {
            if n1 > n2 {
                lemma_join_general(b, a);
            } else {
                let d = (n2 - n1) as u32;
                lemma_lifted(*l2, d);
                lemma_lifted(*r2, d);
                lemma_join_general(*l1, lifted(*l2, d));
                lemma_join_general(*r1, lifted(*r2, d));
                let jl = join_spec(*l1, lifted(*l2, d));
                let jr = join_spec(*r1, lifted(*r2, d));
                let m = EventTree::Node { n: n1, left: Box::new(jl), right: Box::new(jr) };
                assert forall|p: Seq<bool>| #[trigger] m.value_at(p) == max_int(a.value_at(p), b.value_at(p)) by {
                    let q = rest(p);
                    let _ = jl.value_at(q);
                    let _ = jr.value_at(q);
                    let _ = lifted(*l2, d).value_at(q);
                    let _ = lifted(*r2, d).value_at(q);
                }
                lemma_norm(m);
                assert forall|p: Seq<bool>| #[trigger] r.value_at(p) == max_int(a.value_at(p), b.value_at(p)) by {
                    let _ = m.value_at(p);
                }
            }
        },
    }
    lemma_max_of_pointwise_max(r, a, b);
}

/// Trees whose values fit can always be joined.
pub proof fn lemma_join_in_range(a: EventTree, b: EventTree)
    requires
        a.fits(),
        b.fits(),
    ensures
        join_in_range(a, b),
    decreases max_nat(a.height(), b.height()), join_rank(a, b),
{
    match (a, b) {
        (EventTree::Leaf { .. }, EventTree::Leaf { .. }) => {},
        (EventTree::Leaf { n: n1 }, _) => {
            lemma_expand_leaf(a);
            lemma_join_in_range(expand(n1), b);
        },
        (_, EventTree::Leaf { n: n2 }) => {
            lemma_expand_leaf(b);
            lemma_join_in_range(a, expand(n2));
        },
        (
            EventTree::Node { n: n1, left: l1, right: r1 },
            EventTree::Node { n: n2, left: l2, right: r2 },
        ) => {
            if n1 > n2 {
                lemma_join_in_range(b, a);
            } else {
                let d = (n2 - n1) as u32;
                lemma_value_bounds(*l1);
                lemma_value_bounds(*r1);
                lemma_value_bounds(*l2);
                lemma_value_bounds(*r2);
                lemma_lifted(*l2, d);
                lemma_lifted(*r2, d);
                lemma_join_in_range(*l1, lifted(*l2, d));
                lemma_join_in_range(*r1, lifted(*r2, d));
                lemma_join(*l1, lifted(*l2, d));
                lemma_join(*r1, lifted(*r2, d));
                let jl = join_spec(*l1, lifted(*l2, d));
                let jr = join_spec(*r1, lifted(*r2, d));
                let m = EventTree::Node { n: n1, left: Box::new(jl), right: Box::new(jr) };
                assert(m.max_value() == max_int(a.max_value(), b.max_value()));
                lemma_fits_min_fits(m);
            }
        },
    }
}

/// A normal tree, whatever its values, joins with itself within range and
/// gives itself back.
pub proof fn lemma_join_self(e: EventTree)
    requires
        e.is_normal(),
    ensures
        join_in_range(e, e),
        join_spec(e, e) == e,
    decreases e,
{
    lemma_normal_is_tight(e);
    lemma_tight_min_fits(e);
    match e {
        EventTree::Leaf { .. } => {},
        EventTree::Node { n, left, right } => {
            lemma_with_root(*left, left.root());
            lemma_with_root(*right, right.root());
            assert(lifted(*left, 0) == *left);
            assert(lifted(*right, 0) == *right);
            lemma_join_self(*left);
            lemma_join_self(*right);
            lemma_norm(e);
        },
    }
}

/// A lifted subtree records the values of the subtree raised by the counter
/// added to its root.
pub proof fn lemma_lifted(l: EventTree, n: u32)
    requires
        l.root() + n <= u32::MAX,
    ensures
        lifted(l, n).height() == l.height(),
        lifted(l, n).max_value() == l.max_value() + n,
        l.is_tight() ==> lifted(l, n).is_tight(),
        forall|q: Seq<bool>| #[trigger] lifted(l, n).value_at(q) == n + l.value_at(q),
{
    lemma_with_root(l, (l.root() + n) as u32);
}

/// What `join` computes: the normal tree recording the greater value at every
/// point.
pub proof fn lemma_join(a: EventTree, b: EventTree)
    requires
        a.fits(),
        b.fits(),
    ensures
        join_spec(a, b).is_normal(),
        is_pointwise_max(join_spec(a, b), a, b),
        join_spec(a, b).max_value() == max_int(a.max_value(), b.max_value()),
        join_spec(a, b).fits(),
    decreases max_nat(a.height(), b.height()), join_rank(a, b),
{
    let r = join_spec(a, b);
    match (a, b) {
        (EventTree::Leaf { .. }, EventTree::Leaf { .. }) => {},
        (EventTree::Leaf { n: n1 }, _) => {
            lemma_expand_leaf(a);
            lemma_join(expand(n1), b);
            assert forall|p: Seq<bool>| #[trigger] r.value_at(p) == max_int(a.value_at(p), b.value_at(p)) by {
                let _ = expand(n1).value_at(p);
            }
        },
        (_, EventTree::Leaf { n: n2 }) => {
            lemma_expand_leaf(b);
            lemma_join(a, expand(n2));
            assert forall|p: Seq<bool>| #[trigger] r.value_at(p) == max_int(a.value_at(p), b.value_at(p)) by {
                let _ = expand(n2).value_at(p);
            }
        },
        (
            EventTree::Node { n: n1, left: l1, right: r1 },
            EventTree::Node { n: n2, left: l2, right: r2 },
        ) => {
            if n1 > n2 {
                lemma_join(b, a);
            } else {
                let d = (n2 - n1) as u32;
                lemma_value_bounds(*l1);
                lemma_value_bounds(*r1);
                lemma_value_bounds(*l2);
                lemma_value_bounds(*r2);
                lemma_lifted(*l2, d);
                lemma_lifted(*r2, d);
                lemma_join(*l1, lifted(*l2, d));
                lemma_join(*r1, lifted(*r2, d));
                let jl = join_spec(*l1, lifted(*l2, d));
                let jr = join_spec(*r1, lifted(*r2, d));
                let m = EventTree::Node { n: n1, left: Box::new(jl), right: Box::new(jr) };
                assert(m.max_value() == max_int(a.max_value(), b.max_value()));
                lemma_fits_min_fits(m);
                assert forall|p: Seq<bool>| #[trigger] m.value_at(p) == max_int(a.value_at(p), b.value_at(p)) by {
                    let q = rest(p);
                    let _ = jl.value_at(q);
                    let _ = jr.value_at(q);
                    let _ = lifted(*l2, d).value_at(q);
                    let _ = lifted(*r2, d).value_at(q);
                }
                lemma_norm(m);
                assert forall|p: Seq<bool>| #[trigger] r.value_at(p) == max_int(a.value_at(p), b.value_at(p)) by {
                    let _ = m.value_at(p);
                }
            }
        },
    }
    lemma_max_of_pointwise_max(r, a, b);
}

/// Normal forms being canonical, the join is the only normal tree recording
/// the greater of the two values at every point.
pub proof fn lemma_join_unique(r: EventTree, a: EventTree, b: EventTree)
    requires
        a.fits(),
        b.fits(),
        r.is_normal(),
        is_pointwise_max(r, a, b),
    ensures
        r == join_spec(a, b),
{
    lemma_join(a, b);
    let c = join_spec(a, b);
    assert forall|p: Seq<bool>| #[trigger] c.value_at(p) == r.value_at(p) by {}
    lemma_normal_unique(c, r);
}

/// The join does not depend on the order of its arguments.
pub proof fn law_join_commutative(a: EventTree, b: EventTree)
    requires
        a.fits(),
        b.fits(),
    ensures
        join_spec(a, b) == join_spec(b, a),
{
    lemma_join(b, a);
    let r = join_spec(b, a);
    assert forall|p: Seq<bool>| #[trigger] r.value_at(p) == max_int(a.value_at(p), b.value_at(p)) by {}
    lemma_join_unique(r, a, b);
}

/// Joining a tree with itself gives its normal form.
pub proof fn law_join_idempotent(a: EventTree)
    requires
        a.fits(),
    ensures
        join_spec(a, a) == a.norm_spec(),
{
    lemma_fits_min_fits(a);
    lemma_norm(a);
    let r = a.norm_spec();
    assert forall|p: Seq<bool>| #[trigger] r.value_at(p) == max_int(a.value_at(p), a.value_at(p)) by {}
    lemma_join_unique(r, a, a);
}

/// Joining three trees gives the same tree whichever pair is joined first.
pub proof fn law_join_associative(a: EventTree, b: EventTree, c: EventTree)
    requires
        a.fits(),
        b.fits(),
        c.fits(),
    ensures
        join_spec(join_spec(a, b), c) == join_spec(a, join_spec(b, c)),
{
    lemma_join(a, b);
    lemma_join(b, c);
    let ab = join_spec(a, b);
    let bc = join_spec(b, c);
    lemma_join(ab, c);
    lemma_join(a, bc);
    let x = join_spec(ab, c);
    let y = join_spec(a, bc);
    assert forall|p: Seq<bool>| #[trigger] x.value_at(p) == y.value_at(p) by {
        let _ = ab.value_at(p);
        let _ = bc.value_at(p);
    }
    lemma_normal_unique(x, y);
}

/// A tight tree (in particular a normal one) meets the range condition of
/// `norm`.
pub proof fn lemma_tight_min_fits(e: EventTree)
    requires
        e.is_tight(),
    ensures
        e.min_fits(),
    decreases e,
{
    lemma_tight_root_is_min(e);
    match e {
        EventTree::Leaf { .. } => {},
        EventTree::Node { left, right, .. } => {
            lemma_tight_min_fits(*left);
            lemma_tight_min_fits(*right);
        },
    }
}

/// Normalising twice is normalising once.
pub proof fn law_norm_idempotent(e: EventTree)
    requires
        e.min_fits(),
    ensures
        e.norm_spec().min_fits(),
        e.norm_spec().norm_spec() == e.norm_spec(),
{
    lemma_norm(e);
    lemma_normal_is_tight(e.norm_spec());
    lemma_tight_min_fits(e.norm_spec());
    lemma_norm(e.norm_spec());
}

pub open spec fn max_nat(a: nat, b: nat) -> nat {
    if a >= b {
        a
    } else {
        b
    }
}

/// Orders the cases of `join` for its termination: a leaf paired with a node
/// is first expanded, and a node with the larger root counter is swapped to
/// the right.
pub open spec fn join_rank(a: EventTree, b: EventTree) -> nat {
    if a.is_leaf() && b.is_leaf() {
        0
    } else if a.is_leaf() || b.is_leaf() {
        2
    } else if a.root() > b.root() {
        1
    } else {
        0
    }
}

/// A leaf records the same values as a node with its counter and two empty
/// children.
pub proof fn lemma_expand_leaf(e: EventTree)
    requires
        e.is_leaf(),
    ensures
        expand(e.root()).same_values(e),
        expand(e.root()).max_value() == e.max_value(),
        expand(e.root()).min_value() == e.min_value(),
        expand(e.root()).height() == 1,
{
    reveal_with_fuel(EventTree::value_at, 2);
    reveal_with_fuel(EventTree::max_value, 2);
    reveal_with_fuel(EventTree::min_value, 2);
    reveal_with_fuel(EventTree::height, 2);
    let x = expand(e.root());
    assert forall|p: Seq<bool>| #[trigger] x.value_at(p) == e.value_at(p) by {}
}

/// The greatest value of a pointwise maximum is the greater of the greatest
/// values.
pub proof fn lemma_max_of_pointwise_max(r: EventTree, a: EventTree, b: EventTree)
    requires
        is_pointwise_max(r, a, b),
    ensures
        r.max_value() == max_int(a.max_value(), b.max_value()),
{
    lemma_value_bounds(r);
    lemma_value_bounds(a);
    lemma_value_bounds(b);
    lemma_extremes_attained(r);
    lemma_extremes_attained(a);
    lemma_extremes_attained(b);
    let _ = r.value_at(a.max_point());
    let _ = r.value_at(b.max_point());
    let _ = a.value_at(r.max_point());
    let _ = b.value_at(r.max_point());
}

impl Clone for EventTree {
    fn clone(&self) -> (r: Self)
        ensures
            r == *self,
        decreases self,
    {
        match self {
            EventTree::Leaf { n } => EventTree::Leaf { n: *n },
            EventTree::Node { n, left, right } => EventTree::Node {
                n: *n,
                left: Box::new((**left).clone()),
                right: Box::new((**right).clone()),
            },
        }
    }
}

impl PartialEq for EventTree {
    fn eq(&self, other: &Self) -> (r: bool)
        decreases self,
    {
        match (self, other) {
            (EventTree::Leaf { n: a }, EventTree::Leaf { n: b }) => *a == *b,
            (
                EventTree::Node { n: a, left: l1, right: r1 },
                EventTree::Node { n: b, left: l2, right: r2 },
            ) => *a == *b && (**l1).eq(&**l2) && (**r1).eq(&**r2),
            _ => false,
        }
    }
}

impl vstd::std_specs::cmp::PartialEqSpecImpl for EventTree {
    open spec fn obeys_eq_spec() -> bool {
        true
    }

    open spec fn eq_spec(&self, other: &EventTree) -> bool {
        *self == *other
    }
}

/// The least value recorded anywhere in a tree.
pub trait Min<T> {
    /// The computation stays within the counters' range.
    spec fn min_in_range(&self) -> bool;

    fn min(&self) -> T
        requires
            self.min_in_range(),
    ;
}

impl Min<u32> for EventTree {
    open spec fn min_in_range(&self) -> bool {
        self.min_fits()
    }

    fn min(&self) -> (r: u32)
        ensures
            r == self.min_value(),
        decreases self,
    {
        match self {
            EventTree::Leaf { n } => *n,
            EventTree::Node { n, left, right } => {
                let a = left.min();
                let b = right.min();
                *n + if a <= b {
                    a
                } else {
                    b
                }
            },
        }
    }
}

/// The greatest value recorded anywhere in a tree.
pub trait Max<T> {
    /// The computation stays within the counters' range.
    spec fn max_in_range(&self) -> bool;

    fn max(&self) -> T
        requires
            self.max_in_range(),
    ;
}

impl Max<u32> for EventTree {
    open spec fn max_in_range(&self) -> bool {
        self.fits()
    }

    fn max(&self) -> (r: u32)
        ensures
            r == self.max_value(),
        decreases self,
    {
        proof {
            lemma_value_bounds(*self);
        }
        match self {
            EventTree::Leaf { n } => *n,
            EventTree::Node { n, left, right } => {
                proof {
                    lemma_value_bounds(**left);
                    lemma_value_bounds(**right);
                }
                let a = left.max();
                let b = right.max();
                *n + if a >= b {
                    a
                } else {
                    b
                }
            },
        }
    }
}

/// Descending into a half of the interval.
pub proof fn lemma_descend(b: bool, q: Seq<bool>)
    ensures
        goes_right(seq![b] + q) == b,
        rest(seq![b] + q) == q,
{
    assert((seq![b] + q).drop_first() =~= q);
}

/// Every value lies between the least and the greatest value, and the root
/// counter is at most the least value.
pub proof fn lemma_value_bounds(e: EventTree)
    ensures
        0 <= e.root() <= e.min_value() <= e.max_value(),
        forall|p: Seq<bool>| e.min_value() <= #[trigger] e.value_at(p) <= e.max_value(),
    decreases e,
{
    match e {
        EventTree::Leaf { .. } => {},
        EventTree::Node { left, right, .. } => {
            lemma_value_bounds(*left);
            lemma_value_bounds(*right);
            assert forall|p: Seq<bool>| e.min_value() <= #[trigger] e.value_at(p) <= e.max_value() by {
                let _ = left.value_at(rest(p));
                let _ = right.value_at(rest(p));
            }
        },
    }
}

/// The least and the greatest value are attained.
pub proof fn lemma_extremes_attained(e: EventTree)
    ensures
        e.value_at(e.min_point()) == e.min_value(),
        e.value_at(e.max_point()) == e.max_value(),
    decreases e,
{
    match e {
        EventTree::Leaf { .. } => {},
        EventTree::Node { left, right, .. } => {
            lemma_extremes_attained(*left);
            lemma_extremes_attained(*right);
            lemma_descend(false, left.min_point());
            lemma_descend(true, right.min_point());
            lemma_descend(false, left.max_point());
            lemma_descend(true, right.max_point());
        },
    }
}

/// A tree whose values fit in counters has subtrees whose least values fit.
pub proof fn lemma_fits_min_fits(e: EventTree)
    requires
        e.max_value() <= u32::MAX,
    ensures
        e.min_fits(),
    decreases e,
{
    lemma_value_bounds(e);
    match e {
        EventTree::Leaf { .. } => {},
        EventTree::Node { left, right, .. } => {
            lemma_value_bounds(*left);
            lemma_value_bounds(*right);
            lemma_fits_min_fits(*left);
            lemma_fits_min_fits(*right);
        },
    }
}

/// In a tight tree the root counter is the least value.
pub proof fn lemma_tight_root_is_min(e: EventTree)
    requires
        e.is_tight(),
    ensures
        e.min_value() == e.root(),
    decreases e,
{
    match e {
        EventTree::Leaf { .. } => {},
        EventTree::Node { left, right, .. } => {
            lemma_tight_root_is_min(*left);
            lemma_tight_root_is_min(*right);
            lemma_value_bounds(*left);
            lemma_value_bounds(*right);
        },
    }
}

pub proof fn lemma_normal_is_tight(e: EventTree)
    requires
        e.is_normal(),
    ensures
        e.is_tight(),
    decreases e,
{
    match e {
        EventTree::Leaf { .. } => {},
        EventTree::Node { left, right, .. } => {
            lemma_normal_is_tight(*left);
            lemma_normal_is_tight(*right);
        },
    }
}

/// Changing the root counter shifts every value by the same amount.
pub proof fn lemma_with_root(e: EventTree, m: u32)
    ensures
        e.with_root(m).root() == m,
        e.with_root(m).height() == e.height(),
        e.with_root(m).min_value() == e.min_value() - e.root() + m,
        e.with_root(m).max_value() == e.max_value() - e.root() + m,
        e.is_tight() ==> e.with_root(m).is_tight(),
        e.is_normal() ==> e.with_root(m).is_normal(),
        e.with_root(e.root()) == e,
        forall|p: Seq<bool>| #[trigger] e.with_root(m).value_at(p) == e.value_at(p) - e.root() + m,
{
}

/// The normal form records the same values, is normal, and has the least
/// value at its root.
pub proof fn lemma_norm(e: EventTree)
    requires
        e.min_fits(),
    ensures
        e.norm_spec().is_normal(),
        e.norm_spec().same_values(e),
        e.norm_spec().root() == e.min_value(),
        e.norm_spec().min_value() == e.min_value(),
        e.norm_spec().max_value() == e.max_value(),
        e.norm_spec().height() <= e.height(),
        e.is_normal() ==> e.norm_spec() == e,
    decreases e,
{
    match e {
        EventTree::Leaf { .. } => {},
        EventTree::Node { n, left, right } => {
            lemma_norm(*left);
            lemma_norm(*right);
            lemma_value_bounds(*left);
            lemma_value_bounds(*right);
            let nl = left.norm_spec();
            let nr = right.norm_spec();
            let m = if nl.root() <= nr.root() {
                nl.root()
            } else {
                nr.root()
            };
            lemma_with_root(nl, (nl.root() - m) as u32);
            lemma_with_root(nr, (nr.root() - m) as u32);
            let r = e.norm_spec();
            assert forall|p: Seq<bool>| #[trigger] r.value_at(p) == e.value_at(p) by {
                let q = rest(p);
                let _ = nl.value_at(q);
                let _ = nr.value_at(q);
                assert(left.value_at(q) == nl.value_at(q));
                assert(right.value_at(q) == nr.value_at(q));
                if nl.is_leaf() && nr.is_leaf() && nl.root() == nr.root() {
                } else {
                    let a = nl.with_root((nl.root() - m) as u32);
                    let b = nr.with_root((nr.root() - m) as u32);
                    assert(a.value_at(q) == nl.value_at(q) - m);
                    assert(b.value_at(q) == nr.value_at(q) - m);
                }
            }
            lemma_value_bounds(nl);
            lemma_value_bounds(nr);
            lemma_extremes_attained(nl);
            lemma_extremes_attained(nr);
            lemma_extremes_attained(*left);
            lemma_extremes_attained(*right);
            let _ = nl.value_at(left.min_point());
            let _ = left.value_at(nl.min_point());
            let _ = nl.value_at(left.max_point());
            let _ = left.value_at(nl.max_point());
            let _ = nr.value_at(right.min_point());
            let _ = right.value_at(nr.min_point());
            let _ = nr.value_at(right.max_point());
            let _ = right.value_at(nr.max_point());
            if e.is_normal() {
                lemma_normal_is_tight(*left);
                lemma_normal_is_tight(*right);
                lemma_tight_root_is_min(*left);
                lemma_tight_root_is_min(*right);
            }
        },
    }
}

/// Normalising a node with normal children leaves a node with the same root
/// counter only if it leaves the node unchanged.
pub proof fn lemma_norm_node_fixed(n: u32, a: EventTree, b: EventTree, x: EventTree)
    requires
        a.is_normal(),
        b.is_normal(),
        (EventTree::Node { n, left: Box::new(a), right: Box::new(b) }).min_fits(),
        (EventTree::Node { n, left: Box::new(a), right: Box::new(b) }).norm_spec() == x,
        !x.is_leaf(),
        x.root() == n,
    ensures
        x == (EventTree::Node { n, left: Box::new(a), right: Box::new(b) }),
{
    lemma_norm(a);
    lemma_norm(b);
    lemma_with_root(a, a.root());
    lemma_with_root(b, b.root());
}

/// A normal tree with children records different values at different points.
pub proof fn lemma_normal_node_not_constant(e: EventTree)
    requires
        e.is_normal(),
        !e.is_leaf(),
    ensures
        e.min_value() < e.max_value(),
    decreases e,
{
    match e {
        EventTree::Leaf { .. } => {},
        EventTree::Node { left, right, .. } => {
            lemma_value_bounds(*left);
            lemma_value_bounds(*right);
            if !left.is_leaf() {
                lemma_normal_node_not_constant(*left);
            } else if !right.is_leaf() {
                lemma_normal_node_not_constant(*right);
            }
        },
    }
}

/// Normal forms are canonical: two normal trees that record the same values
/// are the same tree.
pub proof fn lemma_normal_unique(a: EventTree, b: EventTree)
    requires
        a.is_normal(),
        b.is_normal(),
        a.same_values(b),
    ensures
        a == b,
    decreases a,
{
    lemma_normal_is_tight(a);
    lemma_normal_is_tight(b);
    lemma_tight_root_is_min(a);
    lemma_tight_root_is_min(b);
    lemma_value_bounds(a);
    lemma_value_bounds(b);
    lemma_extremes_attained(a);
    lemma_extremes_attained(b);
    let _ = a.value_at(b.min_point());
    let _ = b.value_at(a.min_point());
    let _ = a.value_at(b.max_point());
    let _ = b.value_at(a.max_point());
    assert(a.min_value() == b.min_value());
    assert(a.max_value() == b.max_value());
    match (a, b) {
        (EventTree::Leaf { .. }, EventTree::Leaf { .. }) => {},
        (EventTree::Leaf { .. }, EventTree::Node { .. }) => {
            lemma_normal_node_not_constant(b);
        },
        (EventTree::Node { .. }, EventTree::Leaf { .. }) => {
            lemma_normal_node_not_constant(a);
        },
        (EventTree::Node { n: na, left: la, right: ra }, EventTree::Node { n: nb, left: lb, right: rb }) => {
            assert forall|q: Seq<bool>| #[trigger] la.value_at(q) == lb.value_at(q) by {
                lemma_descend(false, q);
                let _ = a.value_at(seq![false] + q);
                let _ = b.value_at(seq![false] + q);
            }
            assert forall|q: Seq<bool>| #[trigger] ra.value_at(q) == rb.value_at(q) by {
                lemma_descend(true, q);
                let _ = a.value_at(seq![true] + q);
                let _ = b.value_at(seq![true] + q);
            }
            lemma_normal_unique(*la, *lb);
            lemma_normal_unique(*ra, *rb);
        },
    }
}

} // verus!
