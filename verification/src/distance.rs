//! The saturated distance that every evaluation reports.

use vstd::prelude::*;

verus! {

/// An edit distance as the automata report it: `Exact(n)` for a distance within
/// the ceiling, `AtLeast(ceiling + 1)` for everything beyond it.
#[derive(Clone, Copy, Debug, PartialEq, Eq, PartialOrd, Ord, Structural)]
pub enum Distance {
    Exact(u8),
    AtLeast(u8),
}

/// The report for a true distance `n` under the ceiling `max_distance`.
pub open spec fn saturated(n: nat, max_distance: u8) -> Distance {
    if n <= max_distance {
        Distance::Exact(n as u8)
    } else {
        Distance::AtLeast((max_distance + 1) as u8)
    }
}

impl Distance {
    /// The number carried by either variant.
    pub open spec fn value(self) -> u8 {
        match self {
            Distance::Exact(d) => d,
            Distance::AtLeast(d) => d,
        }
    }

    /// The strict order on reports: exact values by their number, and every
    /// exact value before every saturated one.
    pub open spec fn precedes(self, other: Distance) -> bool {
        match (self, other) {
            (Distance::Exact(a), Distance::Exact(b)) => a < b,
            (Distance::Exact(_), Distance::AtLeast(_)) => true,
            (Distance::AtLeast(_), Distance::Exact(_)) => false,
            (Distance::AtLeast(a), Distance::AtLeast(b)) => a < b,
        }
    }

    /// The number carried by either variant.
    pub fn to_u8(&self) -> (d: u8)
        ensures
            d == self.value(),
    {
        match *self {
            Distance::Exact(d) => d,
            Distance::AtLeast(d) => d,
        }
    }

    /// Whether `self` comes strictly before `other`.
    pub fn is_less_than(&self, other: &Distance) -> (r: bool)
        ensures
            r == self.precedes(*other),
    {
        match (*self, *other) {
            (Distance::Exact(a), Distance::Exact(b)) => a < b,
            (Distance::Exact(_), Distance::AtLeast(_)) => true,
            (Distance::AtLeast(_), Distance::Exact(_)) => false,
            (Distance::AtLeast(a), Distance::AtLeast(b)) => a < b,
        }
    }
}

/// The single place where reports are made: `Exact(n)` while `n` is within the
/// ceiling, `AtLeast(max_distance + 1)` otherwise.
pub fn make_distance(n: u8, max_distance: u8) -> (d: Distance)
    requires
        max_distance < u8::MAX,
    ensures
        d == saturated(n as nat, max_distance),
{
    if n > max_distance {
        Distance::AtLeast(max_distance + 1u8)
    } else {
        Distance::Exact(n)
    }
}

} // verus!
