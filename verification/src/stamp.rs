use vstd::prelude::*;

use crate::cost::Cost;
use crate::event_tree::{EventTree, Max, Min, lemma_value_bounds, lemma_fits_min_fits, lemma_norm,
    lemma_extremes_attained, lemma_expand_leaf, lemma_descend, lemma_norm_node_fixed,
    lemma_normal_is_tight, lemma_tight_root_is_min, rest, max_int, expand, lemma_with_root, goes_right};
use crate::id_tree::IdTree;
use crate::normalisable::Normalisable;

verus! {

/// A stamp: the part of the unit interval a participant owns, and what it
/// knows of the events that happened.
#[derive(Debug, Eq)]
pub struct Stamp {
    pub i: IdTree,
    pub e: EventTree,
}

impl Clone for Stamp {
    fn clone(&self) -> (r: Self)
        ensures
            r == *self,
    {
        Stamp { i: self.i.clone(), e: self.e.clone() }
    }
}

impl PartialEq for Stamp {
    fn eq(&self, other: &Self) -> (r: bool) {
        self.i == other.i && self.e == other.e
    }
}

impl vstd::std_specs::cmp::PartialEqSpecImpl for Stamp {
    open spec fn obeys_eq_spec() -> bool {
        true
    }

    open spec fn eq_spec(&self, other: &Stamp) -> bool {
        *self == *other
    }
}

/// The leaf with counter `n`.
pub open spec fn leaf(n: int) -> EventTree {
    EventTree::Leaf { n: n as u32 }
}

/// What `fill` computes: every part of the event tree that the identity owns
/// whole is raised as far as the neighbouring parts allow, and the result is
/// normalised.
pub open spec fn fill_spec(i: IdTree, e: EventTree) -> EventTree
    decreases i,
{
    match (i, e) {
        (IdTree::Leaf { i: false }, _) => e,
        (IdTree::Leaf { i: true }, _) => leaf(e.max_value()),
        (_, EventTree::Leaf { .. }) => e,
        (IdTree::Node { left: il, right: ir }, EventTree::Node { n, left: el, right: er }) => {
            if *il == (IdTree::Leaf { i: true }) {
                let er2 = fill_spec(*ir, *er);
                let el2 = leaf(max_int(el.max_value(), er2.min_value()));
                EventTree::Node { n, left: Box::new(el2), right: Box::new(er2) }.norm_spec()
            } else if *ir == (IdTree::Leaf { i: true }) {
                let el2 = fill_spec(*il, *el);
                let er2 = leaf(max_int(er.max_value(), el2.min_value()));
                EventTree::Node { n, left: Box::new(el2), right: Box::new(er2) }.norm_spec()
            } else {
                EventTree::Node {
                    n,
                    left: Box::new(fill_spec(*il, *el)),
                    right: Box::new(fill_spec(*ir, *er)),
                }.norm_spec()
            }
        },
    }
}


/// Every counter that `fill` computes fits: the greatest value where the
/// identity owns a whole subtree, the least value of the filled neighbour,
/// and the nodes it normalises.
pub open spec fn fill_defined(i: IdTree, e: EventTree) -> bool
    decreases i,
{
    match (i, e) {
        (IdTree::Leaf { i: false }, _) => true,
        (IdTree::Leaf { i: true }, _) => e.fits(),
        (_, EventTree::Leaf { .. }) => true,
        (IdTree::Node { left: il, right: ir }, EventTree::Node { n, left: el, right: er }) => {
            if *il == (IdTree::Leaf { i: true }) {
                let er2 = fill_spec(*ir, *er);
                let el2 = leaf(max_int(el.max_value(), er2.min_value()));
                &&& fill_defined(*ir, *er)
                &&& el.fits()
                &&& er2.min_fits()
                &&& (EventTree::Node { n, left: Box::new(el2), right: Box::new(er2) }).min_fits()
            } else if *ir == (IdTree::Leaf { i: true }) {
                let el2 = fill_spec(*il, *el);
                let er2 = leaf(max_int(er.max_value(), el2.min_value()));
                &&& fill_defined(*il, *el)
                &&& er.fits()
                &&& el2.min_fits()
                &&& (EventTree::Node { n, left: Box::new(el2), right: Box::new(er2) }).min_fits()
            } else {
                &&& fill_defined(*il, *el)
                &&& fill_defined(*ir, *er)
                &&& (EventTree::Node {
                    n,
                    left: Box::new(fill_spec(*il, *el)),
                    right: Box::new(fill_spec(*ir, *er)),
                }).min_fits()
            }
        },
    }
}

/// A leaf of the event tree is expanded before its identity node is followed.
pub open spec fn grow_rank(e: EventTree) -> nat {
    if e.is_leaf() {
        1
    } else {
        0
    }
}

/// The shapes of an identity and an event tree allow `grow`: it follows the
/// identity down to an owning leaf, which must meet a leaf of the event tree.
pub open spec fn growable(i: IdTree, e: EventTree) -> bool
    decreases i.height(), grow_rank(e),
{
    match (i, e) {
        (IdTree::Leaf { i: owned }, EventTree::Leaf { .. }) => owned,
        (IdTree::Leaf { .. }, EventTree::Node { .. }) => false,
        (IdTree::Node { .. }, EventTree::Leaf { n }) => growable(i, expand(n)),
        (IdTree::Node { left: il, right: ir }, EventTree::Node { left: el, right: er, .. }) => {
            if il.is_zero() {
                growable(*ir, *er)
            } else if ir.is_zero() {
                growable(*il, *el)
            } else {
                growable(*il, *el) && growable(*ir, *er)
            }
        },
    }
}

/// Every leaf counter that `grow` may raise has room for one more: `grow`
/// tries each branch that the identity owns, so each leaf that it reaches
/// must be below the top of the counters' range.
pub open spec fn grow_in_range(i: IdTree, e: EventTree) -> bool
    decreases i.height(), grow_rank(e),
{
    match (i, e) {
        (IdTree::Leaf { .. }, EventTree::Leaf { n }) => n < u32::MAX,
        (IdTree::Leaf { .. }, EventTree::Node { .. }) => true,
        (IdTree::Node { .. }, EventTree::Leaf { n }) => grow_in_range(i, expand(n)),
        (IdTree::Node { left: il, right: ir }, EventTree::Node { left: el, right: er, .. }) => {
            if il.is_zero() {
                grow_in_range(*ir, *er)
            } else if ir.is_zero() {
                grow_in_range(*il, *el)
            } else {
                grow_in_range(*il, *el) && grow_in_range(*ir, *er)
            }
        },
    }
}

/// What `grow` computes: one event recorded in the cheapest place that the
/// identity owns, with the cost of that place.
pub open spec fn grow_spec(i: IdTree, e: EventTree) -> (EventTree, Cost)
    decreases i.height(), grow_rank(e),
{
    match (i, e) {
        (IdTree::Leaf { i: true }, EventTree::Leaf { n }) => (
            EventTree::Leaf { n: (n + 1) as u32 },
            Cost { expansions: 0, steps: 0 },
        ),
        (IdTree::Node { .. }, EventTree::Leaf { n }) => {
            let (g, c) = grow_spec(i, expand(n));
            (g, c.shifted())
        },
        (IdTree::Node { left: il, right: ir }, EventTree::Node { n, left: el, right: er }) => {
            if il.is_zero() {
                let (g, c) = grow_spec(*ir, *er);
                (EventTree::Node { n, left: el, right: Box::new(g) }, c.stepped())
            } else if ir.is_zero() {
                let (g, c) = grow_spec(*il, *el);
                (EventTree::Node { n, left: Box::new(g), right: er }, c.stepped())
            } else {
                let (gl, cl) = grow_spec(*il, *el);
                let (gr, cr) = grow_spec(*ir, *er);
                if cl.cheaper_than(cr) {
                    (EventTree::Node { n, left: Box::new(gl), right: er }, cl.stepped())
                } else {
                    (EventTree::Node { n, left: el, right: Box::new(gr) }, cr.stepped())
                }
            }
        },
        _ => (e, Cost { expansions: 0, steps: 0 }),
    }
}

/// The point at which `grow` records the event.
pub open spec fn grow_point(i: IdTree, e: EventTree) -> Seq<bool>
    decreases i.height(), grow_rank(e),
{
    match (i, e) {
        (IdTree::Node { .. }, EventTree::Leaf { n }) => grow_point(i, expand(n)),
        (IdTree::Node { left: il, right: ir }, EventTree::Node { left: el, right: er, .. }) => {
            if il.is_zero() {
                seq![true] + grow_point(*ir, *er)
            } else if ir.is_zero() {
                seq![false] + grow_point(*il, *el)
            } else if grow_spec(*il, *el).1.cheaper_than(grow_spec(*ir, *er).1) {
                seq![false] + grow_point(*il, *el)
            } else {
                seq![true] + grow_point(*ir, *er)
            }
        },
        _ => Seq::empty(),
    }
}

impl Stamp {
    pub open spec fn id(self) -> IdTree {
        self.i
    }

    pub open spec fn events(self) -> EventTree {
        self.e
    }

    /// The states that the operations of the clock keep: both trees in
    /// normal form, and every value within a counter's range.
    pub open spec fn is_valid(self) -> bool {
        &&& self.i.is_normal()
        &&& self.e.is_normal()
        &&& self.e.fits()
    }

    pub open spec fn new_spec(i: IdTree, e: EventTree) -> Stamp {
        Stamp { i, e }
    }

    pub fn seed() -> (r: Stamp)
        ensures
            r.id() == (IdTree::Leaf { i: true }),
            r.events() == (EventTree::Leaf { n: 0 }),
    {
        Stamp::new(IdTree::one(), EventTree::zero())
    }

    pub fn new(i: IdTree, e: EventTree) -> (r: Stamp)
        ensures
            r.id() == i,
            r.events() == e,
    {
        Stamp { i: i, e: e }
    }

    /// Raises the parts of the event tree that the identity owns whole, so
    /// that an event there needs no new node.
    pub fn fill(&self) -> (r: EventTree)
        requires
            fill_defined(self.id(), self.events()),
        ensures
            r == fill_spec(self.id(), self.events()),
            r.max_value() == self.e.max_value(),
            self.e.pointwise_le(r),
            forall|p: Seq<bool>| !self.i.holds_at(p) ==> #[trigger] r.value_at(p) == self.e.value_at(p),
            self.e.is_normal() ==> r.is_normal(),
        decreases self.i,
    {
        proof {
            lemma_fill_general(self.i, self.e);
            lemma_value_bounds(self.e);
        }
        match (&self.i, &self.e) {
            (IdTree::Leaf { i: false }, _) => self.e.clone(),
            (IdTree::Leaf { i: true }, _) => EventTree::leaf(self.e.max()),
            (_, EventTree::Leaf { .. }) => self.e.clone(),
            (IdTree::Node { left: i_l, right: i_r }, EventTree::Node { n, left: e_l, right: e_r }) => {
                proof {
                    lemma_value_bounds(**e_l);
                    lemma_value_bounds(**e_r);
                }
                match (&**i_l, &**i_r) {
                    (IdTree::Leaf { i: true }, _) => {
                        let eprime_r = Stamp::new((**i_r).clone(), (**e_r).clone()).fill();
                        proof {
                            lemma_value_bounds(eprime_r);
                        }
                        let a = e_l.max();
                        let b = eprime_r.min();
                        let new_e_l = EventTree::leaf(if a >= b { a } else { b });
                        let joined = EventTree::node(*n, Box::new(new_e_l), Box::new(eprime_r));
                        joined.norm()
                    },
                    (_, IdTree::Leaf { i: true }) => {
                        let eprime_l = Stamp::new((**i_l).clone(), (**e_l).clone()).fill();
                        proof {
                            lemma_value_bounds(eprime_l);
                        }
                        let a = e_r.max();
                        let b = eprime_l.min();
                        let new_e_r = EventTree::leaf(if a >= b { a } else { b });
                        let joined = EventTree::node(*n, Box::new(eprime_l), Box::new(new_e_r));
                        joined.norm()
                    },
                    (_, _) => {
                        let new_e_l = Stamp::new((**i_l).clone(), (**e_l).clone()).fill();
                        let new_e_r = Stamp::new((**i_r).clone(), (**e_r).clone()).fill();
                        let joined = EventTree::node(*n, Box::new(new_e_l), Box::new(new_e_r));
                        joined.norm()
                    },
                }
            },
        }
    }

    /// Records one event in the cheapest place that the identity owns,
    /// expanding a leaf of the event tree into a node where the identity
    /// branches below it.
    pub fn grow(&self) -> (r: (EventTree, Cost))
        requires
            growable(self.id(), self.events()),
            grow_in_range(self.id(), self.events()),
        ensures
            r == grow_spec(self.id(), self.events()),
            forall|p: Seq<bool>| #![trigger r.0.value_at(p)]
                r.0.value_at(p) != self.e.value_at(p) ==> self.e.value_at(p) == self.e.value_at(grow_point(self.i, self.e)),
            forall|p: Seq<bool>| #![trigger r.0.value_at(p)]
                self.e.value_at(p) <= r.0.value_at(p) <= self.e.value_at(p) + 1,
            forall|p: Seq<bool>| !self.i.holds_at(p) ==> #[trigger] r.0.value_at(p) == self.e.value_at(p),
            self.i.holds_at(grow_point(self.i, self.e)),
            r.0.value_at(grow_point(self.i, self.e)) == self.e.value_at(grow_point(self.i, self.e)) + 1,
            r.0.max_value() <= self.e.max_value() + 1,
        decreases self.i.height(), grow_rank(self.e),
    {
        proof {
            lemma_grow(self.i, self.e);
            lemma_value_bounds(self.e);
        }
        match (&self.i, &self.e) {
            (IdTree::Leaf { i: true }, EventTree::Leaf { n }) => (EventTree::leaf(*n + 1), Cost::zero()),
            (_, EventTree::Leaf { n }) => {
                let new_e = EventTree::node(*n, Box::new(EventTree::zero()), Box::new(EventTree::zero()));
                proof {
                    lemma_expand_leaf(self.e);
                }
                let (eprime, c) = Stamp::new(self.i.clone(), new_e).grow();
                (eprime, c.shift())
            },
            (IdTree::Node { left: i_l, right: i_r }, EventTree::Node { n, left: e_l, right: e_r }) => {
                proof {
                    lemma_value_bounds(**e_l);
                    lemma_value_bounds(**e_r);
                }
                match (&**i_l, &**i_r) {
                    (IdTree::Leaf { i: false }, _) => {
                        let (eprime_r, c_r) = Stamp::new((**i_r).clone(), (**e_r).clone()).grow();
                        let new_e = EventTree::node(*n, Box::new((**e_l).clone()), Box::new(eprime_r));
                        (new_e, c_r.step())
                    },
                    (_, IdTree::Leaf { i: false }) => {
                        let (eprime_l, c_l) = Stamp::new((**i_l).clone(), (**e_l).clone()).grow();
                        let new_e = EventTree::node(*n, Box::new(eprime_l), Box::new((**e_r).clone()));
                        (new_e, c_l.step())
                    },
                    (_, _) => {
                        let (eprime_l, c_l) = Stamp::new((**i_l).clone(), (**e_l).clone()).grow();
                        let (eprime_r, c_r) = Stamp::new((**i_r).clone(), (**e_r).clone()).grow();
                        if c_l.less_than(&c_r) {
                            let new_e = EventTree::node(*n, Box::new(eprime_l), Box::new((**e_r).clone()));
                            (new_e, c_l.step())
                        } else {
                            let new_e = EventTree::node(*n, Box::new((**e_l).clone()), Box::new(eprime_r));
                            (new_e, c_r.step())
                        }
                    },
                }
            },
            _ => {
                proof {
                    assert(false);
                }
                vstd::pervasive::unreached()
            },
        }
    }
}


/// What `grow` computes: every value rises by at most one, only where the
/// identity owns the point, and by exactly one at the point it picks.
pub proof fn lemma_grow(i: IdTree, e: EventTree)
    requires
        growable(i, e),
        grow_in_range(i, e),
    ensures
        forall|p: Seq<bool>| #![trigger grow_spec(i, e).0.value_at(p)]
            e.value_at(p) <= grow_spec(i, e).0.value_at(p) <= e.value_at(p) + 1,
        forall|p: Seq<bool>| #![trigger grow_spec(i, e).0.value_at(p)]
            grow_spec(i, e).0.value_at(p) != e.value_at(p) ==> e.value_at(p) == e.value_at(grow_point(i, e)),
        forall|p: Seq<bool>| !i.holds_at(p) ==> #[trigger] grow_spec(i, e).0.value_at(p) == e.value_at(p),
        i.holds_at(grow_point(i, e)),
        grow_spec(i, e).0.value_at(grow_point(i, e)) == e.value_at(grow_point(i, e)) + 1,
        grow_spec(i, e).0.max_value() <= e.max_value() + 1,
        !(e.is_leaf() && i.is_leaf()) ==> !grow_spec(i, e).0.is_leaf() && grow_spec(i, e).0.root() == e.root(),
    decreases i.height(), grow_rank(e),
{
    lemma_value_bounds(e);
    let g = grow_spec(i, e).0;
    match (i, e) {
        (IdTree::Leaf { i: true }, EventTree::Leaf { n }) => {},
        (IdTree::Node { .. }, EventTree::Leaf { n }) => {
            lemma_expand_leaf(e);
            lemma_grow(i, expand(n));
        },
        (IdTree::Node { left: il, right: ir }, EventTree::Node { n, left: el, right: er }) => {
            lemma_value_bounds(*el);
            lemma_value_bounds(*er);
            let (a, b, pt) = if il.is_zero() {
                lemma_grow(*ir, *er);
                (*el, grow_spec(*ir, *er).0, seq![true] + grow_point(*ir, *er))
            } else if ir.is_zero() {
                lemma_grow(*il, *el);
                (grow_spec(*il, *el).0, *er, seq![false] + grow_point(*il, *el))
            } else {
                lemma_grow(*il, *el);
                lemma_grow(*ir, *er);
                if grow_spec(*il, *el).1.cheaper_than(grow_spec(*ir, *er).1) {
                    (grow_spec(*il, *el).0, *er, seq![false] + grow_point(*il, *el))
                } else {
                    (*el, grow_spec(*ir, *er).0, seq![true] + grow_point(*ir, *er))
                }
            };
            assert(g == EventTree::Node { n, left: Box::new(a), right: Box::new(b) });
            assert(pt == grow_point(i, e));
            let (dir, tail) = if pt == seq![true] + grow_point(*ir, *er) {
                (true, grow_point(*ir, *er))
            } else {
                (false, grow_point(*il, *el))
            };
            assert(pt == seq![dir] + tail);
            lemma_descend(dir, tail);
            let _ = a.value_at(tail);
            let _ = b.value_at(tail);
            let _ = el.value_at(tail);
            let _ = er.value_at(tail);
            let _ = il.holds_at(tail);
            let _ = ir.holds_at(tail);
            assert forall|p: Seq<bool>| #![trigger g.value_at(p)]
                e.value_at(p) <= g.value_at(p) <= e.value_at(p) + 1
                && (!i.holds_at(p) ==> g.value_at(p) == e.value_at(p))
                && (g.value_at(p) != e.value_at(p) ==> e.value_at(p) == e.value_at(pt)) by {
                let q = rest(p);
                let _ = a.value_at(q);
                let _ = b.value_at(q);
                let _ = el.value_at(q);
                let _ = er.value_at(q);
                let _ = il.holds_at(q);
                let _ = ir.holds_at(q);
            }
            lemma_value_bounds(g);
            lemma_extremes_attained(g);
            let _ = e.value_at(g.max_point());
        },
        _ => {},
    }
}

/// Growing from a leaf with a normal identity that owns something is always
/// possible and gives a normal tree; below a branching identity the leaf
/// becomes a node with the same counter.
pub proof fn lemma_grow_from_leaf(i: IdTree, m: u32)
    requires
        i.is_normal(),
        !i.is_zero(),
        i.is_leaf() ==> m < u32::MAX,
    ensures
        growable(i, EventTree::Leaf { n: m }),
        grow_spec(i, EventTree::Leaf { n: m }).0.is_normal(),
        !i.is_leaf() ==> !grow_spec(i, EventTree::Leaf { n: m }).0.is_leaf()
            && grow_spec(i, EventTree::Leaf { n: m }).0.root() == m,
    decreases i.height(),
{
    match i {
        IdTree::Leaf { .. } => {},
        IdTree::Node { left: il, right: ir } => {
            let z = EventTree::Leaf { n: 0 };
            if il.is_zero() {
                lemma_grow_from_leaf(*ir, 0);
            } else if ir.is_zero() {
                lemma_grow_from_leaf(*il, 0);
            } else {
                lemma_grow_from_leaf(*il, 0);
                lemma_grow_from_leaf(*ir, 0);
            }
            assert(growable(i, expand(m)));
            reveal_with_fuel(EventTree::is_normal, 2);
            let g = grow_spec(i, expand(m)).0;
            assert(g.is_normal());
        },
    }
}

/// When `fill` changes nothing, a normal identity that owns something can
/// `grow` the normal event tree, and growing keeps it normal.
pub proof fn lemma_fill_fixpoint_grow(i: IdTree, e: EventTree)
    requires
        i.is_normal(),
        !i.is_zero(),
        e.is_normal(),
        e.fits(),
        fill_spec(i, e) == e,
    ensures
        growable(i, e),
        grow_in_range(i, e) ==> grow_spec(i, e).0.is_normal(),
    decreases i.height(),
{
    lemma_value_bounds(e);
    match (i, e) {
        (IdTree::Leaf { .. }, EventTree::Leaf { .. }) => {},
        (IdTree::Leaf { .. }, EventTree::Node { .. }) => {
            assert(fill_spec(i, e).is_leaf());
        },
        (IdTree::Node { .. }, EventTree::Leaf { n }) => {
            if grow_in_range(i, e) {
                lemma_grow_from_leaf(i, n);
            } else {
                lemma_grow_from_leaf_shape(i, n);
            }
        },
        (IdTree::Node { left: il, right: ir }, EventTree::Node { n, left: el, right: er }) => {
            lemma_value_bounds(*el);
            lemma_value_bounds(*er);
            lemma_fill(*il, *el);
            lemma_fill(*ir, *er);
            lemma_normal_is_tight(*el);
            lemma_normal_is_tight(*er);
            lemma_tight_root_is_min(*el);
            lemma_tight_root_is_min(*er);
            let one = IdTree::Leaf { i: true };
            if *il == one {
                let fr = fill_spec(*ir, *er);
                lemma_value_bounds(fr);
                let x = max_int(el.max_value(), fr.min_value());
                let m = EventTree::Node { n, left: Box::new(leaf(x)), right: Box::new(fr) };
                assert(leaf(x).max_value() == x);
                assert(m.max_value() == e.max_value());
                lemma_fits_min_fits(m);
                lemma_norm_node_fixed(n, leaf(x), fr, e);
                assert(*el == leaf(x));
                assert(*er == fr);
                assert(!ir.is_leaf() || ir.is_zero());
                if !ir.is_zero() {
                    lemma_fill_fixpoint_grow(*ir, *er);
                }
                assert(x >= er.root());
                assert(er.root() == 0);
                assert(growable(*il, *el));
                if grow_in_range(i, e) {
                    assert(grow_in_range(*il, *el));
                    let grown_left = EventTree::Node { n, left: Box::new(leaf(x + 1)), right: er };
                    assert(grow_spec(*il, *el).0 == leaf(x + 1));
                    assert(x <= el.max_value());
                    assert(leaf(x + 1).root() == x + 1);
                    assert(leaf(x + 1).is_normal());
                    assert(grown_left.is_normal());
                    if !ir.is_zero() {
                        lemma_grow(*ir, *er);
                        let gr = grow_spec(*ir, *er).0;
                        let grown_right = EventTree::Node { n, left: el, right: Box::new(gr) };
                        assert(grown_right.is_normal());
                    }
                    assert(grow_spec(i, e).0.is_normal());
                }
            } else if *ir == one {
                let fl = fill_spec(*il, *el);
                lemma_value_bounds(fl);
                let x = max_int(er.max_value(), fl.min_value());
                let m = EventTree::Node { n, left: Box::new(fl), right: Box::new(leaf(x)) };
                assert(leaf(x).max_value() == x);
                assert(m.max_value() == e.max_value());
                lemma_fits_min_fits(m);
                lemma_norm_node_fixed(n, fl, leaf(x), e);
                assert(*er == leaf(x));
                assert(*el == fl);
                assert(!il.is_leaf() || il.is_zero());
                if !il.is_zero() {
                    lemma_fill_fixpoint_grow(*il, *el);
                }
                assert(x >= el.root());
                assert(el.root() == 0);
                assert(growable(*ir, *er));
                if grow_in_range(i, e) {
                    assert(grow_in_range(*ir, *er));
                    let grown_right = EventTree::Node { n, left: el, right: Box::new(leaf(x + 1)) };
                    assert(grow_spec(*ir, *er).0 == leaf(x + 1));
                    assert(x <= er.max_value());
                    assert(leaf(x + 1).root() == x + 1);
                    assert(leaf(x + 1).is_normal());
                    assert(grown_right.is_normal());
                    if !il.is_zero() {
                        lemma_grow(*il, *el);
                        let gl = grow_spec(*il, *el).0;
                        let grown_left = EventTree::Node { n, left: Box::new(gl), right: er };
                        assert(grown_left.is_normal());
                    }
                    assert(grow_spec(i, e).0.is_normal());
                }
            } else {
                let fl = fill_spec(*il, *el);
                let fr = fill_spec(*ir, *er);
                let m = EventTree::Node { n, left: Box::new(fl), right: Box::new(fr) };
                assert(m.max_value() == e.max_value());
                lemma_fits_min_fits(m);
                lemma_norm_node_fixed(n, fl, fr, e);
                assert(!il.is_leaf() || il.is_zero());
                assert(!ir.is_leaf() || ir.is_zero());
                if !il.is_zero() {
                    lemma_fill_fixpoint_grow(*il, *el);
                }
                if !ir.is_zero() {
                    lemma_fill_fixpoint_grow(*ir, *er);
                }
                if grow_in_range(i, e) {
                    if !il.is_zero() {
                        lemma_grow(*il, *el);
                    }
                    if !ir.is_zero() {
                        lemma_grow(*ir, *er);
                    }
                    reveal_with_fuel(EventTree::is_normal, 2);
                    assert(grow_spec(i, e).0.is_normal());
                }
            }
        },
    }
}

/// The shape condition of `grow` from a leaf, whatever the counter.
pub proof fn lemma_grow_from_leaf_shape(i: IdTree, m: u32)
    requires
        i.is_normal(),
        !i.is_zero(),
    ensures
        growable(i, EventTree::Leaf { n: m }),
    decreases i.height(),
{
    match i {
        IdTree::Leaf { .. } => {},
        IdTree::Node { left: il, right: ir } => {
            if il.is_zero() {
                lemma_grow_from_leaf_shape(*ir, 0);
            } else if ir.is_zero() {
                lemma_grow_from_leaf_shape(*il, 0);
            } else {
                lemma_grow_from_leaf_shape(*il, 0);
                lemma_grow_from_leaf_shape(*ir, 0);
            }
            assert(growable(i, expand(m)));
        },
    }
}

/// What `fill` computes on trees whose values fit: see `lemma_fill_general`.
pub proof fn lemma_fill(i: IdTree, e: EventTree)
    requires
        e.fits(),
    ensures
        fill_defined(i, e),
        fill_spec(i, e).max_value() == e.max_value(),
        e.pointwise_le(fill_spec(i, e)),
        forall|p: Seq<bool>| !i.holds_at(p) ==> #[trigger] fill_spec(i, e).value_at(p) == e.value_at(p),
        e.is_normal() ==> fill_spec(i, e).is_normal(),
{
    lemma_fill_defined(i, e);
    lemma_fill_general(i, e);
}

/// Trees whose values fit can always be filled.
pub proof fn lemma_fill_defined(i: IdTree, e: EventTree)
    requires
        e.fits(),
    ensures
        fill_defined(i, e),
    decreases i,
{
    lemma_value_bounds(e);
    match (i, e) {
        (IdTree::Leaf { i: false }, _) => {},
        (IdTree::Leaf { i: true }, _) => {},
        (_, EventTree::Leaf { .. }) => {},
        (IdTree::Node { left: il, right: ir }, EventTree::Node { n, left: el, right: er }) => {
            lemma_value_bounds(*el);
            lemma_value_bounds(*er);
            lemma_fill_defined(*il, *el);
            lemma_fill_defined(*ir, *er);
            lemma_fill_general(*il, *el);
            lemma_fill_general(*ir, *er);
            let fl = fill_spec(*il, *el);
            let fr = fill_spec(*ir, *er);
            lemma_value_bounds(fl);
            lemma_value_bounds(fr);
            lemma_fits_min_fits(fl);
            lemma_fits_min_fits(fr);
            let (a, b) = if *il == (IdTree::Leaf { i: true }) {
                (leaf(max_int(el.max_value(), fr.min_value())), fr)
            } else if *ir == (IdTree::Leaf { i: true }) {
                (fl, leaf(max_int(er.max_value(), fl.min_value())))
            } else {
                (fl, fr)
            };
            let m = EventTree::Node { n, left: Box::new(a), right: Box::new(b) };
            assert(a.max_value() <= el.max_value() || a.max_value() <= er.max_value());
            assert(b.max_value() <= el.max_value() || b.max_value() <= er.max_value());
            assert(m.max_value() <= e.max_value());
            lemma_fits_min_fits(m);
        },
    }
}

/// What `fill` computes wherever its counters fit: it keeps the greatest
/// value, raises values only where the identity owns the point, and keeps
/// normal forms normal.
pub proof fn lemma_fill_general(i: IdTree, e: EventTree)
    requires
        fill_defined(i, e),
    ensures
        fill_spec(i, e).max_value() == e.max_value(),
        e.pointwise_le(fill_spec(i, e)),
        forall|p: Seq<bool>| !i.holds_at(p) ==> #[trigger] fill_spec(i, e).value_at(p) == e.value_at(p),
        e.is_normal() ==> fill_spec(i, e).is_normal(),
    decreases i,
{
    lemma_value_bounds(e);
    let r = fill_spec(i, e);
    match (i, e) {
        (IdTree::Leaf { i: false }, _) => {},
        (IdTree::Leaf { i: true }, _) => {},
        (_, EventTree::Leaf { .. }) => {},
        (IdTree::Node { left: il, right: ir }, EventTree::Node { n, left: el, right: er }) => {
            lemma_value_bounds(*el);
            lemma_value_bounds(*er);
            lemma_fill_general(*il, *el);
            lemma_fill_general(*ir, *er);
            let fl = fill_spec(*il, *el);
            let fr = fill_spec(*ir, *er);
            lemma_value_bounds(fl);
            lemma_value_bounds(fr);
            let (a, b) = if *il == (IdTree::Leaf { i: true }) {
                (leaf(max_int(el.max_value(), fr.min_value())), fr)
            } else if *ir == (IdTree::Leaf { i: true }) {
                (fl, leaf(max_int(er.max_value(), fl.min_value())))
            } else {
                (fl, fr)
            };
            let m = EventTree::Node { n, left: Box::new(a), right: Box::new(b) };
            assert(r == m.norm_spec());
            assert(a.max_value() <= el.max_value() || a.max_value() <= er.max_value());
            assert(b.max_value() <= el.max_value() || b.max_value() <= er.max_value());
            assert(a.max_value() >= el.max_value());
            assert(b.max_value() >= er.max_value());
            assert(m.max_value() == e.max_value());
            lemma_norm(m);
            assert forall|p: Seq<bool>| #[trigger] m.value_at(p) >= e.value_at(p)
                && (!i.holds_at(p) ==> m.value_at(p) == e.value_at(p)) by {
                let q = rest(p);
                let _ = a.value_at(q);
                let _ = b.value_at(q);
                let _ = el.value_at(q);
                let _ = er.value_at(q);
                let _ = il.holds_at(q);
                let _ = ir.holds_at(q);
            }
            assert forall|p: Seq<bool>| #[trigger] r.value_at(p) >= e.value_at(p)
                && (!i.holds_at(p) ==> r.value_at(p) == e.value_at(p)) by {
                let _ = m.value_at(p);
            }
        },
    }
}


/// Normalising a node with another root counter gives the same tree with its
/// root shifted by the same amount.
proof fn lemma_norm_shift(n: u32, k: u32, a: EventTree, b: EventTree)
    requires
        (EventTree::Node { n, left: Box::new(a), right: Box::new(b) }).min_fits(),
        (EventTree::Node { n: k, left: Box::new(a), right: Box::new(b) }).min_fits(),
    ensures
        ({
            let x = (EventTree::Node { n, left: Box::new(a), right: Box::new(b) }).norm_spec();
            &&& x.root() >= n
            &&& (EventTree::Node { n: k, left: Box::new(a), right: Box::new(b) }).norm_spec()
                == x.with_root((x.root() - n + k) as u32)
        }),
{
    lemma_norm(a);
    lemma_norm(b);
    lemma_value_bounds(a);
    lemma_value_bounds(b);
}

/// Filling commutes with shifting the root counter: a tree whose root
/// counter is changed fills to the same tree, with its root shifted alike.
proof fn lemma_fill_shift(i: IdTree, t: EventTree, k: u32)
    requires
        t.fits(),
        t.with_root(k).fits(),
    ensures
        fill_spec(i, t).root() >= t.root(),
        fill_spec(i, t.with_root(k))
            == fill_spec(i, t).with_root((fill_spec(i, t).root() - t.root() + k) as u32),
    decreases i,
{
    lemma_with_root(t, k);
    lemma_value_bounds(t);
    lemma_fill(i, t);
    lemma_value_bounds(fill_spec(i, t));
    match (i, t) {
        (IdTree::Leaf { i: false }, _) => {},
        (IdTree::Leaf { i: true }, _) => {},
        (_, EventTree::Leaf { .. }) => {},
        (IdTree::Node { left: il, right: ir }, EventTree::Node { n, left: el, right: er }) => {
            lemma_value_bounds(*el);
            lemma_value_bounds(*er);
            lemma_fill(*il, *el);
            lemma_fill(*ir, *er);
            let fl = fill_spec(*il, *el);
            let fr = fill_spec(*ir, *er);
            lemma_value_bounds(fl);
            lemma_value_bounds(fr);
            let (a, b) = if *il == (IdTree::Leaf { i: true }) {
                (leaf(max_int(el.max_value(), fr.min_value())), fr)
            } else if *ir == (IdTree::Leaf { i: true }) {
                (fl, leaf(max_int(er.max_value(), fl.min_value())))
            } else {
                (fl, fr)
            };
            let m = EventTree::Node { n, left: Box::new(a), right: Box::new(b) };
            let mk = EventTree::Node { n: k, left: Box::new(a), right: Box::new(b) };
            assert(a.max_value() <= el.max_value() || a.max_value() <= er.max_value());
            assert(b.max_value() <= el.max_value() || b.max_value() <= er.max_value());
            assert(m.max_value() == t.max_value());
            assert(mk.max_value() == t.with_root(k).max_value());
            lemma_fits_min_fits(m);
            lemma_fits_min_fits(mk);
            assert(fill_spec(i, t) == m.norm_spec());
            assert(fill_spec(i, t.with_root(k)) == mk.norm_spec());
            lemma_norm_shift(n, k, a, b);
        },
    }
}

/// The step of `law_fill_idempotent` at a node of both trees, given the law
/// for the children.
#[verifier::spinoff_prover]
#[verifier::rlimit(60)]
proof fn lemma_fill_idempotent_node(il: IdTree, ir: IdTree, n: u32, el: EventTree, er: EventTree)
    requires
        (EventTree::Node { n, left: Box::new(el), right: Box::new(er) }).is_normal(),
        (EventTree::Node { n, left: Box::new(el), right: Box::new(er) }).fits(),
        fill_spec(il, fill_spec(il, el)) == fill_spec(il, el),
        fill_spec(ir, fill_spec(ir, er)) == fill_spec(ir, er),
    ensures
        ({
            let i = IdTree::Node { left: Box::new(il), right: Box::new(ir) };
            let e = EventTree::Node { n, left: Box::new(el), right: Box::new(er) };
            fill_spec(i, fill_spec(i, e)) == fill_spec(i, e)
        }),
{
    let i = IdTree::Node { left: Box::new(il), right: Box::new(ir) };
    let e = EventTree::Node { n, left: Box::new(el), right: Box::new(er) };
    lemma_fill(i, e);
    lemma_value_bounds(e);
    let f = fill_spec(i, e);
    lemma_value_bounds(el);
    lemma_value_bounds(er);
    lemma_fill(il, el);
    lemma_fill(ir, er);
    let fl = fill_spec(il, el);
    let fr = fill_spec(ir, er);
    lemma_value_bounds(fl);
    lemma_value_bounds(fr);
    let one = IdTree::Leaf { i: true };
    let (a, b) = if il == one {
        (leaf(max_int(el.max_value(), fr.min_value())), fr)
    } else if ir == one {
        (fl, leaf(max_int(er.max_value(), fl.min_value())))
    } else {
        (fl, fr)
    };
    let m = EventTree::Node { n, left: Box::new(a), right: Box::new(b) };
    assert(a.max_value() <= el.max_value() || a.max_value() <= er.max_value());
    assert(b.max_value() <= el.max_value() || b.max_value() <= er.max_value());
    assert(m.max_value() == e.max_value());
    lemma_fits_min_fits(m);
    lemma_norm(m);
    lemma_norm(a);
    lemma_norm(b);
    assert(f == m.norm_spec());
    if !f.is_leaf() {
        let mm = if a.root() <= b.root() {
            a.root()
        } else {
            b.root()
        };
        let a2 = a.with_root((a.root() - mm) as u32);
        let b2 = b.with_root((b.root() - mm) as u32);
        lemma_with_root(a, (a.root() - mm) as u32);
        lemma_with_root(b, (b.root() - mm) as u32);
        assert(f == EventTree::Node { n: (n + mm) as u32, left: Box::new(a2), right: Box::new(b2) });
        if il == one {
            lemma_fill_shift(ir, b, (b.root() - mm) as u32);
            assert(fill_spec(ir, b2) == b2);
            assert(leaf(max_int(a2.max_value(), b2.min_value())) == a2);
        } else if ir == one {
            lemma_fill_shift(il, a, (a.root() - mm) as u32);
            assert(fill_spec(il, a2) == a2);
            assert(leaf(max_int(b2.max_value(), a2.min_value())) == b2);
        } else {
            lemma_fill_shift(il, a, (a.root() - mm) as u32);
            lemma_fill_shift(ir, b, (b.root() - mm) as u32);
            assert(fill_spec(il, a2) == a2);
            assert(fill_spec(ir, b2) == b2);
        }
        lemma_fits_min_fits(f);
        lemma_norm(f);
    }
}

/// Filling twice fills no more than filling once: on a normal event tree,
/// `fill` reaches a tree that `fill` leaves unchanged.
pub proof fn law_fill_idempotent(i: IdTree, e: EventTree)
    requires
        e.is_normal(),
        e.fits(),
    ensures
        fill_spec(i, fill_spec(i, e)) == fill_spec(i, e),
    decreases i,
{
    lemma_fill(i, e);
    lemma_value_bounds(e);
    match (i, e) {
        (IdTree::Leaf { i: false }, _) => {},
        (IdTree::Leaf { i: true }, _) => {},
        (_, EventTree::Leaf { .. }) => {},
        (IdTree::Node { left: il, right: ir }, EventTree::Node { n, left: el, right: er }) => {
            lemma_value_bounds(*el);
            lemma_value_bounds(*er);
            law_fill_idempotent(*il, *el);
            law_fill_idempotent(*ir, *er);
            lemma_fill_idempotent_node(*il, *ir, n, *el, *er);
        },
    }
}

/// Where both halves of a node identity own something, `grow` records the
/// event in the cheaper half, comparing costs lexicographically: fewer
/// expansions first, then fewer steps; on a tie it takes the right half. The
/// other half keeps its values, and the cost returned is the cheaper half's,
/// one step further down; it is no more than either half's.
pub proof fn law_grow_picks_cheapest(il: IdTree, ir: IdTree, n: u32, el: EventTree, er: EventTree)
    requires
        !il.is_zero(),
        !ir.is_zero(),
        growable(il, el),
        growable(ir, er),
        grow_in_range(il, el),
        grow_in_range(ir, er),
    ensures
        ({
            let i = IdTree::Node { left: Box::new(il), right: Box::new(ir) };
            let e = EventTree::Node { n, left: Box::new(el), right: Box::new(er) };
            let (g, c) = grow_spec(i, e);
            let (gl, cl) = grow_spec(il, el);
            let (gr, cr) = grow_spec(ir, er);
            let left_cheaper = cl.expansions < cr.expansions
                || (cl.expansions == cr.expansions && cl.steps < cr.steps);
            let chosen = if left_cheaper { cl } else { cr };
            &&& growable(i, e)
            &&& grow_in_range(i, e)
            &&& left_cheaper ==> g == (EventTree::Node { n, left: Box::new(gl), right: Box::new(er) })
            &&& !left_cheaper ==> g == (EventTree::Node { n, left: Box::new(el), right: Box::new(gr) })
            &&& left_cheaper ==> forall|p: Seq<bool>| goes_right(p) ==> #[trigger] g.value_at(p) == e.value_at(p)
            &&& !left_cheaper ==> forall|p: Seq<bool>| !goes_right(p) ==> #[trigger] g.value_at(p) == e.value_at(p)
            &&& goes_right(grow_point(i, e)) == !left_cheaper
            &&& c.expansions == chosen.expansions
            &&& (c.steps == chosen.steps + 1 || (chosen.steps == u64::MAX && c.steps == u64::MAX))
            &&& c.expansions <= cl.expansions && c.expansions <= cr.expansions
        }),
{
    let i = IdTree::Node { left: Box::new(il), right: Box::new(ir) };
    let e = EventTree::Node { n, left: Box::new(el), right: Box::new(er) };
    let g = grow_spec(i, e).0;
    let (gl, cl) = grow_spec(il, el);
    let (gr, cr) = grow_spec(ir, er);
    let left_cheaper = cl.expansions < cr.expansions || (cl.expansions == cr.expansions && cl.steps < cr.steps);
    if left_cheaper {
        assert forall|p: Seq<bool>| goes_right(p) implies #[trigger] g.value_at(p) == e.value_at(p) by {
            let _ = er.value_at(rest(p));
        }
        lemma_descend(false, grow_point(il, el));
    } else {
        assert forall|p: Seq<bool>| !goes_right(p) implies #[trigger] g.value_at(p) == e.value_at(p) by {
            let _ = el.value_at(rest(p));
        }
        lemma_descend(true, grow_point(ir, er));
    }
}

} // verus!
