use vstd::prelude::*;

verus! {

/// The cost of growing an event tree at some place: how many leaves have to
/// be expanded into nodes there, and then how many steps down the tree it
/// lies. An expansion costs more than any number of steps, so costs compare
/// lexicographically. Both counts saturate at the top of their range.
#[derive(Debug, Clone, Copy, PartialEq, Eq)]
pub struct Cost {
    pub expansions: u64,
    pub steps: u64,
}

pub open spec fn saturating_inc(x: u64) -> u64 {
    if x < u64::MAX {
        (x + 1) as u64
    } else {
        x
    }
}

impl Cost {
    /// The cost after one more expansion.
    pub open spec fn shifted(self) -> Cost {
        Cost { expansions: saturating_inc(self.expansions), steps: self.steps }
    }

    /// The cost after one more step.
    pub open spec fn stepped(self) -> Cost {
        Cost { expansions: self.expansions, steps: saturating_inc(self.steps) }
    }

    /// Lexicographic order.
    pub open spec fn cheaper_than(self, other: Cost) -> bool {
        self.expansions < other.expansions || (self.expansions == other.expansions
            && self.steps < other.steps)
    }

    pub fn zero() -> (r: Cost)
        ensures
            r == (Cost { expansions: 0, steps: 0 }),
    {
        Cost { expansions: 0, steps: 0 }
    }

    pub fn shift(&self) -> (r: Cost)
        ensures
            r == self.shifted(),
    {
        let expansions = if self.expansions < u64::MAX {
            self.expansions + 1
        } else {
            self.expansions
        };
        Cost { expansions, steps: self.steps }
    }

    pub fn step(&self) -> (r: Cost)
        ensures
            r == self.stepped(),
    {
        let steps = if self.steps < u64::MAX {
            self.steps + 1
        } else {
            self.steps
        };
        Cost { expansions: self.expansions, steps }
    }

    pub fn less_than(&self, other: &Cost) -> (r: bool)
        ensures
            r == self.cheaper_than(*other),
    {
        self.expansions < other.expansions || (self.expansions == other.expansions
            && self.steps < other.steps)
    }
}

} // verus!
