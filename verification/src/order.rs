//! The order of keys: that of their names, byte by byte.

use crate::text::{bytes_order, cow_str, order_bytes};
use crate::value::Key;
use std::cmp::Ordering;
use vstd::prelude::*;
use vstd::std_specs::cmp::PartialOrdSpecImpl;
use vstd::string::*;

verus! {

impl<'de> PartialOrd for Key<'de> {
    /// How the name of `self` stands to that of `other` in the order of the
    /// dictionary; the spans play no part.
    fn partial_cmp(&self, other: &Key<'de>) -> (r: Option<Ordering>) {
        let o = order_bytes(cow_str(&self.name).as_bytes(), cow_str(&other.name).as_bytes());
        if o < 0 {
            Some(Ordering::Less)
        } else if o == 0 {
            Some(Ordering::Equal)
        } else {
            Some(Ordering::Greater)
        }
    }
}

impl<'de> PartialOrdSpecImpl for Key<'de> {
    open spec fn obeys_partial_cmp_spec() -> bool {
        true
    }

    open spec fn partial_cmp_spec(&self, other: &Key<'de>) -> Option<Ordering> {
        let o = bytes_order(self@.name, other@.name);
        if o < 0 {
            Some(Ordering::Less)
        } else if o == 0 {
            Some(Ordering::Equal)
        } else {
            Some(Ordering::Greater)
        }
    }
}

} // verus!
