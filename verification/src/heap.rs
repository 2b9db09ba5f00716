//! The element of the open set: a position with the score it was queued at.

use crate::point::Cost;
use core::cmp::Ordering;
use vstd::prelude::*;
use vstd::std_specs::cmp::{PartialEqSpecImpl, PartialOrdSpecImpl};

verus! {

/// A queued position. Elements compare by score alone and the other way
/// round: the one with the smaller score is the greater, so that a queue
/// which hands out its greatest element hands out the cheapest position.
#[derive(Debug)]
pub struct HeapElement<T> {
    pub f_score: Cost,
    pub position: T,
}

impl<T: Copy> Clone for HeapElement<T> {
    fn clone(&self) -> (copy: Self)
        ensures
            copy == *self,
    {
        *self
    }
}

impl<T: Copy> Copy for HeapElement<T> {

}

impl<T> PartialEq for HeapElement<T> {
    fn eq(&self, other: &Self) -> (r: bool) {
        self.f_score == other.f_score
    }
}

impl<T> PartialEqSpecImpl for HeapElement<T> {
    open spec fn obeys_eq_spec() -> bool {
        true
    }

    open spec fn eq_spec(&self, other: &Self) -> bool {
        self.f_score == other.f_score
    }
}

impl<T> Eq for HeapElement<T> {

}

impl<T> PartialOrd for HeapElement<T> {
    fn partial_cmp(&self, other: &Self) -> (r: Option<Ordering>) {
        if self.f_score < other.f_score {
            Some(Ordering::Greater)
        } else if self.f_score > other.f_score {
            Some(Ordering::Less)
        } else {
            Some(Ordering::Equal)
        }
    }
}

impl<T> PartialOrdSpecImpl for HeapElement<T> {
    open spec fn obeys_partial_cmp_spec() -> bool {
        true
    }

    open spec fn partial_cmp_spec(&self, other: &Self) -> Option<Ordering> {
        if self.f_score < other.f_score {
            Some(Ordering::Greater)
        } else if self.f_score > other.f_score {
            Some(Ordering::Less)
        } else {
            Some(Ordering::Equal)
        }
    }
}

} // verus!
