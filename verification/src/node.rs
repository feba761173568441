use vstd::prelude::*;

use std::sync::Arc;

use crate::model::{NodeModel, StateModel};

verus! {

/// The part of a node that never changes after construction.
#[derive(Debug)]
pub struct HtreeNodeReadonly {
    /// The node's key: that of its first leaf.
    pub key: u128,
    /// The number of edges down to the leaves.
    pub height: u8,
    /// The compact form of the reference to the node's stored content.
    pub hkey: Vec<u8>,
    /// The reference is the empty one (the empty tree's), not that of stored content.
    pub nil_hkey: bool,
}

/// The part of a node that may be filled in (resolved) or emptied (drained).
#[derive(Debug)]
pub enum HtreeNodeWritable {
    /// Nothing is held.
    Empty,
    /// The children are held.
    Internal { children: Arc<Vec<HtreeNode>> },
    /// The node is a leaf.
    Leaf,
    /// The children are in the store, not yet read.
    Wrapped,
}

/// A node of the tree.
#[derive(Debug)]
pub struct HtreeNode {
    /// The node's key: that of its first leaf.
    pub key: u128,
    /// The number of edges down to the leaves.
    pub height: u8,
    /// The compact form of the reference to the node's stored content: a leaf's value, or
    /// an internal node's serialized children.
    pub hkey: Vec<u8>,
    /// The reference is the empty one (the empty tree's), not that of stored content.
    pub nil_hkey: bool,
    /// What is held in memory: the children once resolved.
    pub writable: HtreeNodeWritable,
}

impl View for HtreeNode {
    type V = NodeModel;

    open spec fn view(&self) -> NodeModel
        decreases self,
    {
        NodeModel {
            key: self.key,
            height: self.height,
            hkey: self.hkey@,
            nil_hkey: self.nil_hkey,
            state: match &self.writable {
                HtreeNodeWritable::Empty => StateModel::Empty,
                HtreeNodeWritable::Internal { children } => StateModel::Internal(view_nodes(children@)),
                HtreeNodeWritable::Leaf => StateModel::Leaf,
                HtreeNodeWritable::Wrapped => StateModel::Wrapped,
            },
        }
    }
}

/// The models of a sequence of nodes.
pub open spec fn view_nodes(nodes: Seq<HtreeNode>) -> Seq<NodeModel>
    decreases nodes,
{
    if nodes.len() == 0 {
        Seq::empty()
    } else {
        seq![nodes[0]@] + view_nodes(nodes.subrange(1, nodes.len() as int))
    }
}

} // verus!

verus! {

pub proof fn lemma_view_nodes(s: Seq<HtreeNode>)
    ensures
        view_nodes(s).len() == s.len(),
        forall|i: int| 0 <= i < s.len() ==> #[trigger] view_nodes(s)[i] == s[i]@,
    decreases s.len(),
{
    if s.len() > 0 {
        let rest = s.subrange(1, s.len() as int);
        lemma_view_nodes(rest);
        assert(view_nodes(s) == seq![s[0]@] + view_nodes(rest));
        assert forall|i: int| 0 <= i < s.len() implies #[trigger] view_nodes(s)[i] == s[i]@ by {
            if i > 0 {
                assert(view_nodes(s)[i] == view_nodes(rest)[i - 1]);
                assert(rest[i - 1] == s[i]);
            }
        }
    }
}

pub proof fn lemma_view_nodes_ext(a: Seq<HtreeNode>, b: Seq<HtreeNode>)
    requires
        a.len() == b.len(),
        forall|i: int| 0 <= i < a.len() ==> #[trigger] a[i]@ == b[i]@,
    ensures
        view_nodes(a) == view_nodes(b),
{
    lemma_view_nodes(a);
    lemma_view_nodes(b);
    assert(view_nodes(a) =~= view_nodes(b));
}

pub proof fn lemma_view_nodes_push(s: Seq<HtreeNode>, x: HtreeNode)
    ensures
        view_nodes(s.push(x)) == view_nodes(s).push(x@),
{
    lemma_view_nodes(s);
    lemma_view_nodes(s.push(x));
    assert(view_nodes(s.push(x)) =~= view_nodes(s).push(x@));
}

pub fn copy_bytes(v: &Vec<u8>) -> (r: Vec<u8>)
    ensures
        r@ == v@,
{
    let mut r: Vec<u8> = Vec::with_capacity(v.len());
    let mut i: usize = 0;
    while i < v.len()
        invariant
            i <= v.len(),
            r@ == v@.subrange(0, i as int),
        decreases v.len() - i,
    {
        r.push(v[i]);
        i += 1;
        assert(r@ =~= v@.subrange(0, i as int));
    }
    assert(r@ =~= v@);
    r
}

impl HtreeNode {
    /// A copy of this node. Children are shared with the original, not copied.
    pub fn copy(&self) -> (r: Self)
        ensures
            r@ == self@,
    {
        let writable = match &self.writable {
            HtreeNodeWritable::Empty => HtreeNodeWritable::Empty,
            HtreeNodeWritable::Internal { children } => HtreeNodeWritable::Internal {
                children: children.clone(),
            },
            HtreeNodeWritable::Leaf => HtreeNodeWritable::Leaf,
            HtreeNodeWritable::Wrapped => HtreeNodeWritable::Wrapped,
        };
        HtreeNode { key: self.key, height: self.height, hkey: copy_bytes(&self.hkey), nil_hkey: self.nil_hkey, writable }
    }
}

/// Copies of the nodes of `v`, in order.
pub fn copy_nodes(v: &Vec<HtreeNode>) -> (r: Vec<HtreeNode>)
    ensures
        view_nodes(r@) == view_nodes(v@),
        r@.len() == v@.len(),
{
    let mut r: Vec<HtreeNode> = Vec::with_capacity(v.len());
    let mut i: usize = 0;
    while i < v.len()
        invariant
            i <= v.len(),
            r@.len() == i,
            forall|j: int| 0 <= j < i ==> #[trigger] r@[j]@ == v@[j]@,
        decreases v.len() - i,
    {
        let c = v[i].copy();
        r.push(c);
        i += 1;
    }
    proof {
        lemma_view_nodes_ext(r@, v@);
    }
    r
}

impl Clone for HtreeNode {
    /// Creates a copy of this node that holds the same tree.
    fn clone(&self) -> (r: Self)
        ensures
            r@ == self@,
    {
        self.copy()
    }
}

} // verus!

verus! {

impl HtreeNode {
    /// `true` if this node is a leaf: its height is `LEAF_HEIGHT`.
    pub fn is_leaf(&self) -> (r: bool)
        ensures
            r == (self@.height == crate::LEAF_HEIGHT),
    {
        self.height == crate::LEAF_HEIGHT
    }

    /// The height of this node: the number of edges down to its leaves.
    pub fn height(&self) -> (r: u8)
        ensures
            r == self@.height,
    {
        self.height
    }

    /// `true` if this tree is logically empty: it is structurally the default node
    /// (height `0`, nil key, the empty reference as hkey).
    pub fn is_empty(&self) -> (r: bool)
        ensures
            r == self@.is_empty(),
    {
        self.height == 0 && self.key == 0 && self.nil_hkey
    }

    /// `Some(self)` if this node is non-empty, `None` if it is empty.
    pub fn into_non_empty(self) -> (r: Option<Self>)
        ensures
            self@.is_empty() ==> r is None,
            !self@.is_empty() ==> (r matches Some(n) && n@ == self@),
    {
        if self.is_empty() {
            None
        } else {
            Some(self)
        }
    }

    /// The node's key.
    pub fn key(&self) -> (r: u128)
        ensures
            r == self@.key,
    {
        self.key
    }

    /// The parts of this node that never change: key, height and hkey.
    pub fn readonly(&self) -> (r: HtreeNodeReadonly)
        ensures
            r.key == self@.key,
            r.height == self@.height,
            r.hkey@ == self@.hkey,
            r.nil_hkey == self@.nil_hkey,
    {
        HtreeNodeReadonly { key: self.key, height: self.height, hkey: copy_bytes(&self.hkey), nil_hkey: self.nil_hkey }
    }
}

} // verus!

verus! {

pub proof fn lemma_view_nodes_concat(a: Seq<HtreeNode>, b: Seq<HtreeNode>)
    ensures
        view_nodes(a + b) == view_nodes(a) + view_nodes(b),
{
    lemma_view_nodes(a);
    lemma_view_nodes(b);
    lemma_view_nodes(a + b);
    assert(view_nodes(a + b) =~= view_nodes(a) + view_nodes(b));
}

} // verus!
