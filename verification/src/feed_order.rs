//! Feeds compare by weight: two feeds of one weight are equal, whatever
//! they hold, and a heavier feed is the greater.

use vstd::prelude::*;
use std::cmp::Ordering;
use crate::feed::Feed;

verus! {

impl PartialEq for Feed {
    fn eq(&self, other: &Self) -> (same: bool) {
        self.weight == other.weight
    }
}

impl vstd::std_specs::cmp::PartialEqSpecImpl for Feed {
    open spec fn obeys_eq_spec() -> bool {
        true
    }

    open spec fn eq_spec(&self, other: &Self) -> bool {
        self.weight == other.weight
    }
}

impl PartialOrd for Feed {
    fn partial_cmp(&self, other: &Self) -> (order: Option<Ordering>) {
        if self.weight == other.weight {
            Some(Ordering::Equal)
        } else if self.weight > other.weight {
            Some(Ordering::Greater)
        } else {
            Some(Ordering::Less)
        }
    }

    fn lt(&self, other: &Self) -> (less: bool) {
        self.weight < other.weight
    }

    fn le(&self, other: &Self) -> (at_most: bool) {
        self.weight <= other.weight
    }

    fn gt(&self, other: &Self) -> (greater: bool) {
        self.weight > other.weight
    }

    fn ge(&self, other: &Self) -> (at_least: bool) {
        self.weight >= other.weight
    }
}

impl vstd::std_specs::cmp::PartialOrdSpecImpl for Feed {
    open spec fn obeys_partial_cmp_spec() -> bool {
        true
    }

    open spec fn partial_cmp_spec(&self, other: &Self) -> Option<Ordering> {
        if self.weight == other.weight {
            Some(Ordering::Equal)
        } else if self.weight > other.weight {
            Some(Ordering::Greater)
        } else {
            Some(Ordering::Less)
        }
    }
}

} // verus!
