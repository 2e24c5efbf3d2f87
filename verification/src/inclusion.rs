//! The partial order of faces by inclusion.

use crate::face::Face;
use std::cmp::Ordering;
use vstd::prelude::*;

verus! {

impl PartialOrd for Face {
    /// Compares two faces by inclusion: a face is less than the faces that
    /// it lies in. Faces of which neither lies in the other do not compare.
    fn partial_cmp(&self, rhs: &Self) -> (r: Option<Ordering>) {
        let below = self.within(rhs);
        let above = rhs.within(self);
        if below && above {
            Some(Ordering::Equal)
        } else if below {
            Some(Ordering::Less)
        } else if above {
            Some(Ordering::Greater)
        } else {
            None
        }
    }
}

impl vstd::std_specs::cmp::PartialOrdSpecImpl for Face {
    open spec fn obeys_partial_cmp_spec() -> bool {
        true
    }

    open spec fn partial_cmp_spec(&self, rhs: &Face) -> Option<Ordering> {
        if self.set().subset_of(rhs.set()) && rhs.set().subset_of(self.set()) {
            Some(Ordering::Equal)
        } else if self.set().subset_of(rhs.set()) {
            Some(Ordering::Less)
        } else if rhs.set().subset_of(self.set()) {
            Some(Ordering::Greater)
        } else {
            None
        }
    }
}

} // verus!
