use vstd::prelude::*;

use ps_hkey::{HkeyFromCompactError, InMemoryStore, InMemoryStoreError};

use crate::codec::HtreeNodeUnpackChildrenError;
use crate::construct::children_of;
use crate::fetch::{fetch_result, HtreeNodeFetchChildrenError};
use crate::lemmas::{has_key, leaves_within, lemma_child_leaves_within, lemma_select, lemma_select_none};
use crate::model::{lemma_valid_leaves, NodeModel, StateModel};
use crate::node::{lemma_view_nodes, view_nodes, HtreeNode};
use crate::store::{load_bytes, HtreeLoadError};

verus! {

/// Why a search could not be completed.
#[derive(Debug)]
pub enum HtreeNodeFindOneError {
    /// A node's state is internally corrupted.
    CorruptedState,
    /// A node's hkey does not describe a reference.
    Hkey(HkeyFromCompactError),
    /// The reference is to a list of parts, which is not read.
    ListReference,
    /// The store failed.
    Store(InMemoryStoreError),
    /// A node's stored children could not be read.
    UnpackChildren(HtreeNodeUnpackChildrenError),
}

fn find_error(e: HtreeNodeFetchChildrenError) -> (r: HtreeNodeFindOneError)
    ensures
        match e {
            HtreeNodeFetchChildrenError::CorruptedState => r == HtreeNodeFindOneError::CorruptedState,
            HtreeNodeFetchChildrenError::Hkey(x) => r == HtreeNodeFindOneError::Hkey(x),
            HtreeNodeFetchChildrenError::ListReference => r == HtreeNodeFindOneError::ListReference,
            HtreeNodeFetchChildrenError::Store(x) => r == HtreeNodeFindOneError::Store(x),
            HtreeNodeFetchChildrenError::UnpackChildren(x) => r == HtreeNodeFindOneError::UnpackChildren(x),
        },
{
    match e {
        HtreeNodeFetchChildrenError::CorruptedState => HtreeNodeFindOneError::CorruptedState,
        HtreeNodeFetchChildrenError::Hkey(e) => HtreeNodeFindOneError::Hkey(e),
        HtreeNodeFetchChildrenError::ListReference => HtreeNodeFindOneError::ListReference,
        HtreeNodeFetchChildrenError::Store(e) => HtreeNodeFindOneError::Store(e),
        HtreeNodeFetchChildrenError::UnpackChildren(e) => HtreeNodeFindOneError::UnpackChildren(e),
    }
}

/// What selecting toward `key` from `m` may give, whatever the store holds.
pub open spec fn select_shape(m: NodeModel, key: u128, c: NodeModel) -> bool {
    &&& m.height == 0 ==> c == m && m.key == key
    &&& m.height > 0 ==> c.height + 1 == m.height
}

/// What selecting toward `key` from a valid node gives.
pub open spec fn select_valid(m: NodeModel, key: u128, o: Option<HtreeNode>) -> bool {
    match o {
        None => !has_key(m.leaves(), key),
        Some(c) => {
            &&& c@.valid()
            &&& !c@.is_empty()
            &&& (has_key(m.leaves(), key) ==> has_key(c@.leaves(), key))
            &&& leaves_within(c@.leaves(), m.leaves())
        },
    }
}

impl HtreeNode {
    /// The node one step closer to `key`: for a leaf, the leaf itself if it has `key`;
    /// for an internal node, the last child whose key does not exceed `key`.
    pub fn select_child(&self, key: u128, store: &InMemoryStore) -> (r: Result<Option<HtreeNode>, HtreeNodeFetchChildrenError>)
        ensures
            r matches Ok(Some(c)) ==> select_shape(self@, key, c@),
            self@.valid() ==> (r matches Ok(o) && select_valid(self@, key, o)),
    {
        if self.is_empty() {
            return Ok(None);
        }
        if self.is_leaf() {
            if self.key == key {
                proof {
                    assert(self@.leaves() == seq![(self@.key, self@.hkey)]);
                    assert(self@.leaves()[0].0 == key);
                    assert forall|i: int| 0 <= i < self@.leaves().len() implies self@.leaves().contains(#[trigger] self@.leaves()[i]) by {}
                }
                return Ok(Some(self.copy()));
            }
            proof {
                if has_key(self@.leaves(), key) {
                    let p = choose|p: int| 0 <= p < self@.leaves().len() && (#[trigger] self@.leaves()[p]).0 == key;
                    assert(self@.leaves()[p] == (self@.key, self@.hkey));
                }
            }
            return Ok(None);
        }
        let children = match self.fetch_children(store) {
            Ok(children) => children,
            Err(e) => return Err(e),
        };
        let ghost cs = view_nodes(children@);
        proof { lemma_view_nodes(children@); }
        let mut i: usize = 0;
        while i < children.len() && children[i].key <= key
            invariant
                i <= children@.len(),
                cs == view_nodes(children@),
                cs.len() == children@.len(),
                forall|j: int| 0 <= j < cs.len() ==> #[trigger] cs[j] == children@[j]@,
                forall|j: int| 0 <= j < i ==> (#[trigger] cs[j]).key <= key,
            decreases children@.len() - i,
        {
            i += 1;
        }
        proof {
            if self@.valid() {
                assert(cs == children_of(self@));
                assert forall|j: int| i <= j < cs.len() implies (#[trigger] cs[j]).key > key by {
                    if cs[j].key <= key {
                        assert(cs[i as int].key <= cs[j].key);
                    }
                }
            }
        }
        if i == 0 {
            proof {
                if self@.valid() {
                    lemma_select_none(self@, key);
                }
            }
            return Ok(None);
        }
        let c = children[i - 1].copy();
        proof {
            assert(c@ == cs[i - 1]);
            if self@.valid() {
                lemma_select(self@, key, i - 1);
                lemma_child_leaves_within(cs, i - 1);
                lemma_valid_leaves(cs[i - 1]);
                assert(self@.leaves() == crate::model::leaves_seq(cs));
            }
        }
        Ok(Some(c))
    }

    /// Finds a leaf with the given key by descending the tree: from each node to the
    /// child whose key range holds `key`, until a leaf with that key is reached.
    /// Returns `None` when no leaf with that key exists.
    pub fn find_one(&self, key: u128, store: &InMemoryStore) -> (r: Result<Option<HtreeNode>, HtreeNodeFindOneError>)
        ensures
            r matches Ok(Some(l)) ==> l@.height == 0 && l@.key == key,
            self@.valid() ==> (r matches Ok(o) && (o is Some <==> has_key(self@.leaves(), key))),
            self@.valid() ==> (r matches Ok(Some(l)) ==> self@.leaves().contains((key, l@.hkey))),
    {
        let mut node = match self.select_child(key, store) {
            Ok(Some(n)) => n,
            Ok(None) => return Ok(None),
            Err(e) => return Err(find_error(e)),
        };
        loop
            invariant
                self@.valid() ==> node@.valid() && !node@.is_empty() && (has_key(self@.leaves(), key) ==> has_key(node@.leaves(), key))
                    && leaves_within(node@.leaves(), self@.leaves()),
            decreases node@.height,
        {
            if node.is_leaf() && node.key == key {
                proof {
                    if self@.valid() {
                        assert(node@.leaves()[0] == (key, node@.hkey));
                        assert(node@.leaves().len() > 0 && self@.leaves().contains(node@.leaves()[0]));
                    }
                }
                return Ok(Some(node));
            }
            let next = match node.select_child(key, store) {
                Ok(Some(n)) => n,
                Ok(None) => {
                    proof {
                        if self@.valid() && has_key(self@.leaves(), key) {
                            assert(has_key(node@.leaves(), key));
                        }
                    }
                    return Ok(None);
                },
                Err(e) => return Err(find_error(e)),
            };
            proof {
                if self@.valid() {
                    assert forall|i: int| 0 <= i < next@.leaves().len() implies self@.leaves().contains(#[trigger] next@.leaves()[i]) by {
                        assert(node@.leaves().contains(next@.leaves()[i]));
                        let k = choose|k: int| 0 <= k < node@.leaves().len() && node@.leaves()[k] == next@.leaves()[i];
                        assert(self@.leaves().contains(node@.leaves()[k]));
                    }
                }
            }
            node = next;
        }
    }

    /// `true` if the tree holds a leaf with the given key.
    pub fn contains_key(&self, key: u128, store: &InMemoryStore) -> (r: Result<bool, HtreeNodeFindOneError>)
        ensures
            self@.valid() ==> (r matches Ok(b) && b == has_key(self@.leaves(), key)),
    {
        match self.find_one(key, store) {
            Ok(found) => Ok(found.is_some()),
            Err(e) => Err(e),
        }
    }
}

} // verus!
