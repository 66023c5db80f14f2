//! The leftmost-outermost order as std's `PartialOrd`.
use vstd::prelude::*;
use core::cmp::Ordering;
use crate::lopath::LOPath;
use vstd::std_specs::cmp::PartialOrdSpecImpl;

verus! {

/// The ordering named by a comparison result.
pub open spec fn ordering_of(c: int) -> Ordering {
    if c < 0 {
        Ordering::Less
    } else if c > 0 {
        Ordering::Greater
    } else {
        Ordering::Equal
    }
}

impl PartialOrd for LOPath {
    fn partial_cmp(&self, other: &LOPath) -> (r: Option<Ordering>) {
        let c = self.lo_order(other);
        if c < 0 {
            Some(Ordering::Less)
        } else if c > 0 {
            Some(Ordering::Greater)
        } else {
            Some(Ordering::Equal)
        }
    }
}

impl PartialOrdSpecImpl for LOPath {
    open spec fn obeys_partial_cmp_spec() -> bool {
        true
    }

    open spec fn partial_cmp_spec(&self, other: &LOPath) -> Option<Ordering> {
        Some(ordering_of(self.spec_order(*other)))
    }
}

} // verus!
