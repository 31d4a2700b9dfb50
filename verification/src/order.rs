//! The order of solutions: by cost alone.

use std::cmp::Ordering;
use vstd::prelude::*;
use vstd::std_specs::cmp::PartialOrdSpecImpl;
use crate::types::Sol;

verus! {

impl PartialOrd for Sol {
    /// Compares the costs; the sequences and the patterns play no part.
    fn partial_cmp(&self, other: &Self) -> (r: Option<Ordering>) {
        if self.bytes < other.bytes {
            Some(Ordering::Less)
        } else if self.bytes > other.bytes {
            Some(Ordering::Greater)
        } else {
            Some(Ordering::Equal)
        }
    }
}

impl PartialOrdSpecImpl for Sol {
    open spec fn obeys_partial_cmp_spec() -> bool {
        true
    }

    open spec fn partial_cmp_spec(&self, other: &Sol) -> Option<Ordering> {
        if self.bytes < other.bytes {
            Some(Ordering::Less)
        } else if self.bytes > other.bytes {
            Some(Ordering::Greater)
        } else {
            Some(Ordering::Equal)
        }
    }
}

/// The cheaper of two solutions, the first where they cost the same.
pub fn cheaper(a: Sol, b: Sol) -> (m: Sol)
    ensures
        m == if b.bytes < a.bytes {
            b
        } else {
            a
        },
{
    if b < a {
        b
    } else {
        a
    }
}

} // verus!
