//! A distance paired with the item it ranks.

use core::cmp::Ordering;
use vstd::prelude::*;
use vstd::std_specs::cmp::PartialEqSpecImpl;
use vstd::std_specs::cmp::PartialOrdSpecImpl;
use vstd::std_specs::convert::FromSpecImpl;

verus! {

/// An item ranked by a distance. Two elements compare by their distances
/// alone, whatever they carry.
pub struct HeapElement<T> {
    pub distance: i64,
    pub element: T,
}

impl<T> HeapElement<T> {
    /// How `self` ranks against `other`: the order of the two distances.
    pub open spec fn ranking(&self, other: &Self) -> Ordering {
        if self.distance < other.distance {
            Ordering::Less
        } else if self.distance > other.distance {
            Ordering::Greater
        } else {
            Ordering::Equal
        }
    }

    /// Compares two elements by distance.
    pub fn cmp(&self, other: &Self) -> (r: Ordering)
        ensures
            r == self.ranking(other),
    {
        if self.distance < other.distance {
            Ordering::Less
        } else if self.distance > other.distance {
            Ordering::Greater
        } else {
            Ordering::Equal
        }
    }
}

impl<T> PartialEq for HeapElement<T> {
    fn eq(&self, other: &Self) -> (r: bool) {
        self.distance == other.distance
    }
}

impl<T> PartialEqSpecImpl for HeapElement<T> {
    open spec fn obeys_eq_spec() -> bool {
        true
    }

    open spec fn eq_spec(&self, other: &Self) -> bool {
        self.distance == other.distance
    }
}

impl<T> Eq for HeapElement<T> {

}

impl<T> PartialOrd for HeapElement<T> {
    fn partial_cmp(&self, other: &Self) -> (r: Option<Ordering>) {
        Some(self.cmp(other))
    }
}

impl<T> PartialOrdSpecImpl for HeapElement<T> {
    open spec fn obeys_partial_cmp_spec() -> bool {
        true
    }

    open spec fn partial_cmp_spec(&self, other: &Self) -> Option<Ordering> {
        Some(self.ranking(other))
    }
}

impl<T> From<HeapElement<T>> for (i64, T) {
    fn from(e: HeapElement<T>) -> (r: Self) {
        (e.distance, e.element)
    }
}

impl<T> FromSpecImpl<HeapElement<T>> for (i64, T) {
    open spec fn obeys_from_spec() -> bool {
        true
    }

    open spec fn from_spec(e: HeapElement<T>) -> Self {
        (e.distance, e.element)
    }
}

} // verus!
