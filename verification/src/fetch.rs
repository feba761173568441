use vstd::prelude::*;

use std::sync::Arc;

use ps_hkey::{HkeyFromCompactError, InMemoryStore, InMemoryStoreError};

use crate::codec::{unpack_children, HtreeNodeUnpackChildrenError};
use crate::model::{LeafView, NodeModel, StateModel};
use crate::node::{copy_nodes, lemma_view_nodes, view_nodes, HtreeNode, HtreeNodeWritable};
use crate::store::{load_bytes, HtreeLoadError, MAX_RAW_VALUE};

verus! {

/// Why the children of a node could not be had.
#[derive(Debug)]
pub enum HtreeNodeFetchChildrenError {
    /// The node's state contradicts its height, or its children have the wrong height.
    CorruptedState,
    /// The node's hkey does not describe a reference.
    Hkey(HkeyFromCompactError),
    /// The reference is to a list of parts, which is not read.
    ListReference,
    /// The store failed.
    Store(InMemoryStoreError),
    /// The stored children could not be read.
    UnpackChildren(HtreeNodeUnpackChildrenError),
}

/// Why an unresolved node could not be resolved.
#[derive(Debug)]
pub enum HtreeNodeResolveError {
    /// The stored children do not sit one level below the node.
    CorruptedState,
    /// The node's hkey does not describe a reference.
    Hkey(HkeyFromCompactError),
    /// The reference is to a list of parts, which is not read.
    ListReference,
    /// The store failed.
    Store(InMemoryStoreError),
    /// The stored children could not be read.
    UnpackChildren(HtreeNodeUnpackChildrenError),
}

/// Every node is one level below `height`.
pub open spec fn heights_below(cs: Seq<NodeModel>, height: u8) -> bool {
    forall|i: int| 0 <= i < cs.len() ==> (#[trigger] cs[i]).height + 1 == height
}

/// What fetching the children of `m` gives. The children of an unresolved node come
/// from the store and are only known to be one level below it.
pub open spec fn fetch_result(m: NodeModel, r: Result<Vec<HtreeNode>, HtreeNodeFetchChildrenError>) -> bool {
    if m.height == 0 {
        r matches Ok(v) && v@.len() == 0
    } else {
        match m.state {
            StateModel::Empty => r matches Ok(v) && v@.len() == 0,
            StateModel::Internal(cs) => if heights_below(cs, m.height) {
                r matches Ok(v) && view_nodes(v@) == cs
            } else {
                r matches Err(HtreeNodeFetchChildrenError::CorruptedState)
            },
            StateModel::Leaf => r matches Err(HtreeNodeFetchChildrenError::CorruptedState),
            StateModel::Wrapped => match r {
                Ok(v) => heights_below(view_nodes(v@), m.height),
                Err(_) => true,
            },
        }
    }
}

/// What reading the children of a node of height `height` from the record `b` gives: the
/// errors of unpacking the record, a mismatch of its height byte, or the children it lists.
pub open spec fn loaded_from(height: u8, b: Seq<u8>, r: Result<Vec<HtreeNode>, HtreeNodeFetchChildrenError>) -> bool {
    if b.len() == 0 {
        r == Err::<Vec<HtreeNode>, _>(HtreeNodeFetchChildrenError::UnpackChildren(HtreeNodeUnpackChildrenError::MissingHeight))
    } else if b[0] == 0 {
        r == Err::<Vec<HtreeNode>, _>(HtreeNodeFetchChildrenError::UnpackChildren(HtreeNodeUnpackChildrenError::InvalidHeight))
    } else if crate::codec::parse_entries(b.subrange(1, b.len() as int)) is None {
        r == Err::<Vec<HtreeNode>, _>(HtreeNodeFetchChildrenError::UnpackChildren(HtreeNodeUnpackChildrenError::Truncated))
    } else if b[0] != height {
        r == Err::<Vec<HtreeNode>, _>(HtreeNodeFetchChildrenError::CorruptedState)
    } else {
        r matches Ok(v) && view_nodes(v@) == crate::codec::parse_entries(b.subrange(1, b.len() as int))->Some_0.map_values(
            |e: (u128, Seq<u8>)| crate::codec::unpacked_child(e, (height - 1) as u8))
    }
}

/// The children of a node, read from the store. A reference of at most `MAX_RAW_VALUE`
/// bytes is the record itself.
fn load_children(node: &HtreeNode, store: &InMemoryStore) -> (r: Result<Vec<HtreeNode>, HtreeNodeFetchChildrenError>)
    requires
        node@.height > 0,
        node@.state is Wrapped,
    ensures
        match r {
            Ok(v) => heights_below(view_nodes(v@), node@.height),
            Err(_) => true,
        },
        node@.hkey.len() <= MAX_RAW_VALUE ==> loaded_from(node@.height, node@.hkey, r),
{
    let bytes = match load_bytes(store, node.hkey.as_slice()) {
        Ok(bytes) => bytes,
        Err(HtreeLoadError::Hkey(e)) => return Err(HtreeNodeFetchChildrenError::Hkey(e)),
        Err(HtreeLoadError::ListReference) => return Err(HtreeNodeFetchChildrenError::ListReference),
        Err(HtreeLoadError::Store(e)) => return Err(HtreeNodeFetchChildrenError::Store(e)),
    };
    let (height, children) = match unpack_children(bytes.as_slice()) {
        Ok(parts) => parts,
        Err(e) => return Err(HtreeNodeFetchChildrenError::UnpackChildren(e)),
    };
    if height != node.height {
        return Err(HtreeNodeFetchChildrenError::CorruptedState);
    }
    proof {
        lemma_view_nodes(children@);
        let es = crate::codec::parse_entries(bytes@.subrange(1, bytes@.len() as int))->Some_0;
        assert forall|i: int| 0 <= i < view_nodes(children@).len() implies (#[trigger] view_nodes(children@)[i]).height + 1 == node@.height by {
            assert(view_nodes(children@)[i] == crate::codec::unpacked_child(es[i], (height - 1) as u8));
        }
    }
    Ok(children)
}

/// The children are one level below `height`.
fn check_heights(children: &Vec<HtreeNode>, height: u8) -> (r: bool)
    ensures
        r == heights_below(view_nodes(children@), height),
{
    proof { lemma_view_nodes(children@); }
    let mut i: usize = 0;
    while i < children.len()
        invariant
            i <= children@.len(),
            view_nodes(children@).len() == children@.len(),
            forall|j: int| 0 <= j < children@.len() ==> #[trigger] view_nodes(children@)[j] == children@[j]@,
            forall|j: int| 0 <= j < i ==> (#[trigger] view_nodes(children@)[j]).height + 1 == height,
        decreases children@.len() - i,
    {
        if children[i].height as u16 + 1 != height as u16 {
            assert(view_nodes(children@)[i as int].height + 1 != height);
            return false;
        }
        i += 1;
    }
    true
}

impl HtreeNode {
    /// Resolves and returns the direct children of this node.
    ///
    /// Leaves and empty nodes have none. The children of an internal node are copies
    /// (sharing their own children); those of an unresolved node are read from `store`.
    pub fn fetch_children(&self, store: &InMemoryStore) -> (r: Result<Vec<HtreeNode>, HtreeNodeFetchChildrenError>)
        ensures
            fetch_result(self@, r),
    {
        if self.is_leaf() {
            return Ok(Vec::new());
        }
        match &self.writable {
            HtreeNodeWritable::Empty => Ok(Vec::new()),
            HtreeNodeWritable::Internal { children } => {
                let v: &Vec<HtreeNode> = &**children;
                if !check_heights(v, self.height) {
                    return Err(HtreeNodeFetchChildrenError::CorruptedState);
                }
                Ok(copy_nodes(v))
            },
            HtreeNodeWritable::Leaf => Err(HtreeNodeFetchChildrenError::CorruptedState),
            HtreeNodeWritable::Wrapped => load_children(self, store),
        }
    }

    /// Resolves this node: an unresolved internal node reads its children from `store`
    /// and keeps them. Other nodes are left as they are.
    pub fn resolve(&mut self, store: &InMemoryStore) -> (r: Result<(), HtreeNodeResolveError>)
        ensures
            !(old(self)@.state is Wrapped && old(self)@.height > 0) ==> r is Ok && final(self)@ == old(self)@,
            final(self)@.key == old(self)@.key,
            final(self)@.height == old(self)@.height,
            final(self)@.hkey == old(self)@.hkey,
            r is Err ==> final(self)@ == old(self)@,
            (old(self)@.state is Wrapped && old(self)@.height > 0 && r is Ok) ==> (final(self)@.state matches StateModel::Internal(cs) && heights_below(cs, old(self)@.height)),
    {
        if self.height > 0 {
            if let HtreeNodeWritable::Wrapped = self.writable {
                let children = match load_children(self, store) {
                    Ok(children) => children,
                    Err(HtreeNodeFetchChildrenError::CorruptedState) => return Err(HtreeNodeResolveError::CorruptedState),
                    Err(HtreeNodeFetchChildrenError::Hkey(e)) => return Err(HtreeNodeResolveError::Hkey(e)),
                    Err(HtreeNodeFetchChildrenError::ListReference) => return Err(HtreeNodeResolveError::ListReference),
                    Err(HtreeNodeFetchChildrenError::Store(e)) => return Err(HtreeNodeResolveError::Store(e)),
                    Err(HtreeNodeFetchChildrenError::UnpackChildren(e)) => return Err(HtreeNodeResolveError::UnpackChildren(e)),
                };
                self.writable = HtreeNodeWritable::Internal { children: Arc::new(children) };
            }
        }
        Ok(())
    }
}

} // verus!

verus! {

/// Fetched children are one level below their parent.
pub proof fn lemma_fetch_heights(m: NodeModel, v: Vec<HtreeNode>)
    requires
        fetch_result(m, Ok(v)),
        m.height > 0,
    ensures
        heights_below(view_nodes(v@), m.height),
{
    lemma_view_nodes(v@);
}

/// The children of a node, fetched once and held for reading.
#[derive(Debug)]
pub struct HtreeChildrenGuard {
    children: Vec<HtreeNode>,
}

impl HtreeChildrenGuard {
    /// The models of the children held.
    pub closed spec fn children_view(&self) -> Seq<NodeModel> {
        view_nodes(self.children@)
    }

    /// How many children are held.
    pub fn len(&self) -> (r: usize)
        ensures
            r == self.children_view().len(),
    {
        proof { lemma_view_nodes(self.children@); }
        self.children.len()
    }

    /// Whether no child is held.
    pub fn is_empty(&self) -> (r: bool)
        ensures
            r == (self.children_view().len() == 0),
    {
        proof { lemma_view_nodes(self.children@); }
        self.children.len() == 0
    }

    /// The children, in order.
    pub fn as_slice(&self) -> (r: &[HtreeNode])
        ensures
            view_nodes(r@) == self.children_view(),
    {
        self.children.as_slice()
    }
}

impl HtreeNode {
    /// Fetches the children of this node as `fetch_children` does and holds them for
    /// reading.
    pub fn fetch_children_guard(&self, store: &InMemoryStore) -> (r: Result<HtreeChildrenGuard, HtreeNodeFetchChildrenError>)
        ensures
            self@.height == 0 || self@.state is Empty ==> (r matches Ok(g) && g.children_view().len() == 0),
            self@.height > 0 ==> (r matches Ok(g) ==> heights_below(g.children_view(), self@.height)),
            self@.height > 0 && self@.state is Internal && heights_below(self@.state->Internal_0, self@.height)
                ==> (r matches Ok(g) && g.children_view() == self@.state->Internal_0),
    {
        match self.fetch_children(store) {
            Ok(children) => {
                proof {
                    lemma_view_nodes(children@);
                }
                Ok(HtreeChildrenGuard { children })
            },
            Err(e) => Err(e),
        }
    }
}

} // verus!
