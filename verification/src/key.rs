//! Composite record keys and their total order.

use vstd::prelude::*;

verus! {

/// A composite identifier: 128 bits `upper`, 128 bits `lower`, 8 bits `tail`,
/// ordered lexicographically by (upper, lower, tail).  Its textual form is 65
/// hexadecimal characters: 32 for `upper`, 32 for `lower`, 1 for `tail`.
#[derive(Clone, Copy, Debug, PartialEq, Eq, Structural)]
pub struct Key {
    pub upper: u128,
    pub lower: u128,
    pub tail: u8,
}

/// The strict total order on keys: lexicographic on (upper, lower, tail).
pub open spec fn key_lt(a: Key, b: Key) -> bool {
    a.upper < b.upper
        || (a.upper == b.upper && a.lower < b.lower)
        || (a.upper == b.upper && a.lower == b.lower && a.tail < b.tail)
}

impl Key {
    /// Decides the strict order `key_lt`.
    pub fn lt(&self, other: &Key) -> (r: bool)
        ensures
            r == key_lt(*self, *other),
    {
        if self.upper != other.upper {
            self.upper < other.upper
        } else if self.lower != other.lower {
            self.lower < other.lower
        } else {
            self.tail < other.tail
        }
    }
}

} // verus!
