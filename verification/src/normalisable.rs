use vstd::prelude::*;

use crate::event_tree::{EventTree, lemma_norm};
use crate::id_tree::{IdTree, lemma_norm as lemma_id_norm};
use crate::stamp::Stamp;

verus! {

/// Rewriting a tree into its canonical form without changing what it means.
pub trait Normalisable: Sized {
    /// The computation stays within the counters' range.
    spec fn norm_in_range(&self) -> bool;

    fn norm(self) -> Self
        requires
            self.norm_in_range(),
    ;
}

impl Normalisable for IdTree {
    open spec fn norm_in_range(&self) -> bool {
        true
    }

    fn norm(self) -> (r: Self)
        ensures
            r == self.norm_spec(),
            r.is_normal(),
            r.same_points(self),
        decreases self,
    {
        proof {
            lemma_id_norm(self);
        }
        match self {
            IdTree::Leaf { .. } => self,
            IdTree::Node { left, right } => {
                let norm_left = (*left).norm();
                let norm_right = (*right).norm();
                let collapse = match (&norm_left, &norm_right) {
                    (IdTree::Leaf { i: i1 }, IdTree::Leaf { i: i2 }) => *i1 == *i2,
                    _ => false,
                };
                if collapse {
                    norm_left
                } else {
                    IdTree::node(Box::new(norm_left), Box::new(norm_right))
                }
            },
        }
    }
}

impl Normalisable for EventTree {
    open spec fn norm_in_range(&self) -> bool {
        self.min_fits()
    }

    fn norm(self) -> (r: Self)
        ensures
            r == self.norm_spec(),
            r.is_normal(),
            r.same_values(self),
            r.root() == self.min_value(),
            r.min_value() == self.min_value(),
            r.max_value() == self.max_value(),
        decreases self,
    {
        proof {
            lemma_norm(self);
        }
        match self {
            EventTree::Leaf { .. } => self,
            EventTree::Node { n, left, right } => {
                proof {
                    lemma_norm(*left);
                    lemma_norm(*right);
                }
                let mut norm_left = (*left).norm();
                let mut norm_right = (*right).norm();
                let collapse = match (&norm_left, &norm_right) {
                    (EventTree::Leaf { n: m1 }, EventTree::Leaf { n: m2 }) => *m1 == *m2,
                    _ => false,
                };
                if collapse {
                    EventTree::leaf(n + norm_left.n())
                } else {
                    let a = norm_left.n();
                    let b = norm_right.n();
                    let m = if a <= b {
                        a
                    } else {
                        b
                    };
                    norm_left.sink(m);
                    norm_right.sink(m);
                    EventTree::node(n + m, Box::new(norm_left), Box::new(norm_right))
                }
            },
        }
    }
}

impl Normalisable for Stamp {
    open spec fn norm_in_range(&self) -> bool {
        self.e.min_fits()
    }

    fn norm(self) -> (r: Self)
        ensures
            r.id() == self.id().norm_spec(),
            r.events() == self.events().norm_spec(),
    {
        Self::new(self.i.norm(), self.e.norm())
    }
}

} // verus!
