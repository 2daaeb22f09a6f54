//! Ordering of multi-precision integers.

use vstd::prelude::*;
use crate::integer::Z;
use std::cmp::Ordering;
use vstd::std_specs::cmp::PartialOrdSpecImpl;

verus! {

/// The ordering of two integers.
pub open spec fn int_ordering(x: int, y: int) -> Ordering {
    if x < y {
        Ordering::Less
    } else if x == y {
        Ordering::Equal
    } else {
        Ordering::Greater
    }
}

impl Z {
    /// Compares self with other.
    pub fn cmp(&self, other: &Z) -> (r: Ordering)
        ensures
            r == int_ordering(self@, other@),
    {
        let c = self.sign_of_difference(other);
        if c < 0 {
            Ordering::Less
        } else if c == 0 {
            Ordering::Equal
        } else {
            Ordering::Greater
        }
    }

    /// Compares self with x.
    pub fn cmp_si(&self, x: i64) -> (r: Ordering)
        ensures
            r == int_ordering(self@, crate::integer::i64_as_int(x)),
    {
        let xz = Z::from_i64(x);
        self.cmp(&xz)
    }
}

impl PartialOrd for Z {
    fn partial_cmp(&self, other: &Z) -> (r: Option<Ordering>) {
        Some(self.cmp(other))
    }
}

impl PartialOrdSpecImpl for Z {
    open spec fn obeys_partial_cmp_spec() -> bool {
        true
    }

    open spec fn partial_cmp_spec(&self, other: &Z) -> Option<Ordering> {
        Some(int_ordering(self@, other@))
    }
}

} // verus!
