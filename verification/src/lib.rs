use vstd::prelude::*;

pub mod model;
pub mod node;
pub mod codec;
pub mod store;
pub mod construct;
pub mod group;
pub mod lemmas;
pub mod fetch;
pub mod query;
pub mod update;
pub mod keys;
pub mod delete;
pub mod leaves;
pub mod insert;
pub mod kvp;
pub mod disjoint;
pub mod iter;
pub mod values;
pub mod range;
pub mod drain;
pub mod retain;
pub mod key;
pub mod split;
pub mod merge;
pub mod laws;
pub mod faithful;
pub mod cover;
pub mod order;

pub use codec::HtreeNodeUnpackChildrenError;
pub use construct::HtreeNodeFromChildrenError;
pub use delete::{HtreeNodeDeleteManyError, HtreeNodeDeleteOneError};
pub use disjoint::HtreeNodeMergeDisjointSubtreesError;
pub use drain::{HtreeNodeIterChildren, HtreeNodeIterChildrenError};
pub use fetch::{HtreeChildrenGuard, HtreeNodeFetchChildrenError, HtreeNodeResolveError};
pub use insert::HtreeNodeInsertLeavesError;
pub use iter::{HtreeNodeIterLeaves, HtreeNodeIterLeavesError};
pub use key::{HtreeKey, HtreeKeyError, HtreeRkyvKey, HtreeSerdeKey};
pub use merge::HtreeNodeMergeError;
pub use split::HtreeNodeSplitManyError;
pub use kvp::{HtreeNodeFromKvpError, HtreeNodeFromKvpIterError, HtreeNodeInsertManyError, HtreeNodeInsertOneError};
pub use node::{HtreeNode, HtreeNodeReadonly, HtreeNodeWritable};
pub use query::HtreeNodeFindOneError;
pub use range::HtreeNodeFindRangeError;
pub use retain::HtreeNodeRetainError;
pub use update::{HtreeNodePopFirstError, HtreeNodePopLastError, PopResult};
pub use values::{
    HtreeNodeFindOneValueError, HtreeNodeFirstError, HtreeNodeIterEntries, HtreeNodeIterEntriesError, HtreeNodeIterKeys,
    HtreeNodeIterValues, HtreeNodeIterValuesError,
};

verus! {

/// Height of a leaf node.
pub const LEAF_HEIGHT: u8 = 0;

/// Largest number of children that `from_many_children` puts under one parent.
pub const MAX_CHILDREN: usize = 32;

} // verus!
