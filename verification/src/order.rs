use vstd::prelude::*;

use std::cmp::Ordering;
use vstd::std_specs::cmp::PartialOrdSpecImpl;

use crate::construct::node_less;
use crate::model::node_lt;
use crate::node::HtreeNode;

verus! {

impl PartialOrd for HtreeNode {
    /// Nodes are ordered by key, then by the bytes of their hkeys.
    fn partial_cmp(&self, other: &Self) -> (r: Option<Ordering>) {
        if node_less(self, other) {
            Some(Ordering::Less)
        } else if node_less(other, self) {
            Some(Ordering::Greater)
        } else {
            Some(Ordering::Equal)
        }
    }
}

impl PartialOrdSpecImpl for HtreeNode {
    open spec fn obeys_partial_cmp_spec() -> bool {
        true
    }

    open spec fn partial_cmp_spec(&self, other: &Self) -> Option<Ordering> {
        if node_lt(self@, other@) {
            Some(Ordering::Less)
        } else if node_lt(other@, self@) {
            Some(Ordering::Greater)
        } else {
            Some(Ordering::Equal)
        }
    }
}

} // verus!
