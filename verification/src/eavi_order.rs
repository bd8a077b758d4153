//! The order of records, for the comparison operators.

use crate::attribute::Attribute;
use crate::eavi::{eavi_lt, EntityAttributeValueIndex};
use crate::order::Rank;
use std::cmp::Ordering;
use vstd::prelude::*;
use vstd::std_specs::cmp::PartialOrdSpecImpl;

verus! {

impl<A: Attribute + PartialEq> PartialOrd for EntityAttributeValueIndex<A> {
    /// Where this record stands relative to `other` in the order of records:
    /// by index, then entity, then attribute, then value.
    fn partial_cmp(&self, other: &Self) -> (order: Option<Ordering>) {
        match self.rank(other) {
            Rank::Before => Some(Ordering::Less),
            Rank::Same => Some(Ordering::Equal),
            Rank::After => Some(Ordering::Greater),
        }
    }
}

impl<A: Attribute + PartialEq> PartialOrdSpecImpl for EntityAttributeValueIndex<A> {
    open spec fn obeys_partial_cmp_spec() -> bool {
        true
    }

    open spec fn partial_cmp_spec(&self, other: &Self) -> Option<Ordering> {
        if eavi_lt(self@, other@) {
            Some(Ordering::Less)
        } else if self@ == other@ {
            Some(Ordering::Equal)
        } else {
            Some(Ordering::Greater)
        }
    }
}

} // verus!
