use vstd::prelude::*;

use ps_hkey::{HkeyFromCompactError, InMemoryStore, InMemoryStoreError};

use crate::codec::HtreeNodeUnpackChildrenError;
use crate::construct::children_of;
use crate::fetch::{fetch_result, HtreeNodeFetchChildrenError};
use crate::model::{leaves_seq, LeafView, NodeModel, StateModel};
use crate::node::{copy_bytes, lemma_view_nodes, lemma_view_nodes_push, view_nodes, HtreeNode, HtreeNodeWritable};

verus! {

/// The nodes that draining `m` hands out, left to right: every node below it (or it
/// itself) that is neither empty nor internal.
pub open spec fn drained(m: NodeModel) -> Seq<NodeModel>
    decreases m,
{
    match m.state {
        StateModel::Empty => Seq::empty(),
        StateModel::Internal(cs) => drained_seq(cs),
        _ => seq![m],
    }
}

/// The nodes that draining each of `ns` hands out, concatenated.
pub open spec fn drained_seq(ns: Seq<NodeModel>) -> Seq<NodeModel>
    decreases ns,
{
    if ns.len() == 0 {
        Seq::empty()
    } else {
        drained(ns[0]) + drained_seq(ns.subrange(1, ns.len() as int))
    }
}

pub proof fn lemma_drained_seq_push(ns: Seq<NodeModel>, x: NodeModel)
    ensures
        drained_seq(ns.push(x)) == drained_seq(ns) + drained(x),
    decreases ns.len(),
{
    if ns.len() == 0 {
        assert(ns.push(x).subrange(1, 1) =~= Seq::<NodeModel>::empty());
        assert(drained_seq(Seq::<NodeModel>::empty()) == Seq::<NodeModel>::empty());
        assert(drained_seq(ns) == Seq::<NodeModel>::empty());
        assert(drained_seq(ns.push(x)) =~= drained(x));
    } else {
        let rest = ns.subrange(1, ns.len() as int);
        lemma_drained_seq_push(rest, x);
        assert(ns.push(x).subrange(1, ns.len() + 1 as int) =~= rest.push(x));
        assert(ns.push(x)[0] == ns[0]);
        assert(drained_seq(ns.push(x)) =~= drained(ns[0]) + drained_seq(rest.push(x)));
    }
}

/// Every node of the subtree at the leaves' level is a leaf node or the empty node.
pub open spec fn leaf_states(m: NodeModel) -> bool
    decreases m,
{
    if m.height == 0 {
        m.state is Leaf || m.is_empty()
    } else {
        match m.state {
            StateModel::Internal(cs) => forall|i: int| 0 <= i < cs.len() ==> leaf_states(#[trigger] cs[i]),
            _ => true,
        }
    }
}

/// Draining a valid tree whose leaves are leaf nodes hands out its leaves.
pub proof fn lemma_drained_leaves(m: NodeModel)
    requires
        m.valid(),
        leaf_states(m),
    ensures
        leaves_seq(drained(m)) == m.leaves(),
    decreases m,
{
    if m.height == 0 {
        if m.is_empty() {
            if m.state is Leaf {
                assert(leaves_seq(seq![m]) == m.leaves()) by {
                    crate::model::lemma_leaves_seq_single(m);
                }
            } else {
                assert(drained(m) == Seq::<NodeModel>::empty());
                assert(leaves_seq(Seq::<NodeModel>::empty()) == Seq::<crate::model::LeafView>::empty());
            }
        } else {
            crate::model::lemma_leaves_seq_single(m);
        }
    } else {
        if let StateModel::Internal(cs) = m.state {
            lemma_drained_seq_leaves(m, cs, cs.len() as int);
            assert(cs.subrange(0, cs.len() as int) =~= cs);
        }
    }
}

proof fn lemma_drained_seq_leaves(m: NodeModel, cs: Seq<NodeModel>, n: int)
    requires
        m.valid(),
        leaf_states(m),
        m.height > 0,
        m.state == StateModel::Internal(cs),
        0 <= n <= cs.len(),
    ensures
        leaves_seq(drained_seq(cs.subrange(0, n))) == leaves_seq(cs.subrange(0, n)),
    decreases m, n,
{
    if n == 0 {
        assert(cs.subrange(0, 0) =~= Seq::<NodeModel>::empty());
        assert(drained_seq(Seq::<NodeModel>::empty()) == Seq::<NodeModel>::empty());
    } else {
        lemma_drained_seq_leaves(m, cs, n - 1);
        let c = cs[n - 1];
        assert(decreases_to!(m => m.state));
        assert(decreases_to!(m.state => cs));
        assert(decreases_to!(cs => cs[n - 1]));
        lemma_drained_leaves(c);
        assert(cs.subrange(0, n) =~= cs.subrange(0, n - 1).push(c));
        lemma_drained_seq_push(cs.subrange(0, n - 1), c);
        crate::model::lemma_leaves_seq_push(cs.subrange(0, n - 1), c);
        lemma_leaves_seq_concat_drained(drained_seq(cs.subrange(0, n - 1)), drained(c));
    }
}

proof fn lemma_leaves_seq_concat_drained(a: Seq<NodeModel>, b: Seq<NodeModel>)
    ensures
        leaves_seq(a + b) == leaves_seq(a) + leaves_seq(b),
{
    crate::model::lemma_leaves_seq_concat(a, b);
}

impl HtreeNode {
    /// Moves every node below this one that is neither empty nor internal (or this node
    /// itself, when it is one) into `target`, left to right; this node then becomes the
    /// empty node.
    pub fn drain_all_into_vec(&mut self, target: &mut Vec<HtreeNode>)
        ensures
            final(self)@ == crate::construct::empty_model(),
            view_nodes(final(target)@) == view_nodes(old(target)@) + drained(old(self)@),
    {
        let mut w = HtreeNodeWritable::Empty;
        std::mem::swap(&mut self.writable, &mut w);
        let ghost m = old(self)@;
        let node = HtreeNode { key: self.key, height: self.height, hkey: copy_bytes(&self.hkey), nil_hkey: self.nil_hkey, writable: w };
        assert(node@ == m);
        drain_node(node, target, Ghost(m));
        *self = HtreeNode::default_node();
    }

    /// Returns what `drain_all_into_vec` moves out of this node, which becomes the empty
    /// node.
    pub fn drain_all(&mut self) -> (r: Vec<HtreeNode>)
        ensures
            final(self)@ == crate::construct::empty_model(),
            view_nodes(r@) == drained(old(self)@),
    {
        let mut target: Vec<HtreeNode> = Vec::new();
        proof {
            lemma_view_nodes(target@);
            assert(view_nodes(target@) =~= Seq::<NodeModel>::empty());
        }
        self.drain_all_into_vec(&mut target);
        proof {
            assert(Seq::<NodeModel>::empty() + drained(old(self)@) =~= drained(old(self)@));
        }
        target
    }
}

/// Moves the nodes that draining `node` hands out into `target`.
fn drain_node(node: HtreeNode, target: &mut Vec<HtreeNode>, Ghost(m): Ghost<NodeModel>)
    requires
        node@ == m,
    ensures
        view_nodes(final(target)@) == view_nodes(old(target)@) + drained(m),
    decreases m,
{
    match node.writable {
        HtreeNodeWritable::Empty => {
            proof {
                assert(view_nodes(target@) + Seq::<NodeModel>::empty() =~= view_nodes(target@));
            }
        },
        HtreeNodeWritable::Internal { children } => {
            let v: &Vec<HtreeNode> = &*children;
            let ghost cs = view_nodes(v@);
            proof {
                lemma_view_nodes(v@);
                assert(m.state == StateModel::Internal(cs));
                assert(cs.subrange(0, 0) =~= Seq::<NodeModel>::empty());
                assert(drained_seq(Seq::<NodeModel>::empty()) == Seq::<NodeModel>::empty());
                assert(view_nodes(target@) + Seq::<NodeModel>::empty() =~= view_nodes(target@));
            }
            let mut i: usize = 0;
            while i < v.len()
                invariant
                    i <= v@.len(),
                    cs == view_nodes(v@),
                    cs.len() == v@.len(),
                    forall|k: int| 0 <= k < cs.len() ==> #[trigger] cs[k] == v@[k]@,
                    m.state == StateModel::Internal(cs),
                    view_nodes(target@) == view_nodes(old(target)@) + drained_seq(cs.subrange(0, i as int)),
                decreases v@.len() - i,
            {
                let c = v[i].copy();
                proof {
                    assert(c@ == cs[i as int]);
                    assert(decreases_to!(m => m.state));
                    assert(decreases_to!(m.state => m.state->Internal_0));
                    assert(decreases_to!(cs => cs[i as int]));
                    assert(decreases_to!(m => cs[i as int]));
                }
                drain_node(c, target, Ghost(cs[i as int]));
                proof {
                    assert(cs.subrange(0, i + 1) =~= cs.subrange(0, i as int).push(cs[i as int]));
                    lemma_drained_seq_push(cs.subrange(0, i as int), cs[i as int]);
                    assert(view_nodes(target@) =~= view_nodes(old(target)@) + drained_seq(cs.subrange(0, i + 1)));
                }
                i += 1;
            }
            proof {
                assert(cs.subrange(0, cs.len() as int) =~= cs);
            }
        },
        w => {
            let out = HtreeNode { key: node.key, height: node.height, hkey: node.hkey, nil_hkey: node.nil_hkey, writable: w };
            assert(out@ == m);
            proof { lemma_view_nodes_push(target@, out); }
            target.push(out);
        },
    }
}

/// Why the children of a node could not be walked.
#[derive(Debug)]
pub enum HtreeNodeIterChildrenError {
    /// The node's state is internally corrupted.
    CorruptedState,
    /// The node's hkey does not describe a reference.
    Hkey(HkeyFromCompactError),
    /// The reference is to a list of parts, which is not read.
    ListReference,
    /// The store failed.
    Store(InMemoryStoreError),
    /// The stored children could not be read.
    UnpackChildren(HtreeNodeUnpackChildrenError),
}

/// Walks copies of a node's children, from the front with `next` and from the back with
/// `next_back`.
pub struct HtreeNodeIterChildren {
    children: Vec<HtreeNode>,
    front: usize,
    back: usize,
}

impl HtreeNodeIterChildren {
    /// The children not yet handed out.
    pub closed spec fn remaining(&self) -> Seq<NodeModel> {
        view_nodes(self.children@).subrange(self.front as int, self.back as int)
    }

    /// The two ends lie within the children.
    #[verifier::type_invariant]
    spec fn well_formed(&self) -> bool {
        self.front <= self.back <= self.children@.len()
    }

    /// The next child from the front.
    pub fn next(&mut self) -> (r: Option<HtreeNode>)
        ensures
            old(self).remaining().len() == 0 ==> r is None && final(self).remaining() == old(self).remaining(),
            old(self).remaining().len() > 0 ==> (r matches Some(c) && c@ == old(self).remaining()[0]
                && final(self).remaining() == old(self).remaining().drop_first()),
    {
        proof {
            use_type_invariant(&*self);
            lemma_view_nodes(self.children@);
        }
        if self.front >= self.back {
            return None;
        }
        let item = self.children[self.front].copy();
        self.front += 1;
        proof {
            assert(view_nodes(self.children@).subrange(self.front as int, self.back as int)
                =~= old(self).remaining().drop_first());
        }
        Some(item)
    }

    /// The next child from the back.
    pub fn next_back(&mut self) -> (r: Option<HtreeNode>)
        ensures
            old(self).remaining().len() == 0 ==> r is None && final(self).remaining() == old(self).remaining(),
            old(self).remaining().len() > 0 ==> (r matches Some(c) && c@ == old(self).remaining().last()
                && final(self).remaining() == old(self).remaining().drop_last()),
    {
        proof {
            use_type_invariant(&*self);
            lemma_view_nodes(self.children@);
        }
        if self.front >= self.back {
            return None;
        }
        self.back -= 1;
        let item = self.children[self.back].copy();
        proof {
            assert(view_nodes(self.children@).subrange(self.front as int, self.back as int)
                =~= old(self).remaining().drop_last());
        }
        Some(item)
    }

    /// How many children are left, as a lower and an upper bound (both exact).
    pub fn size_hint(&self) -> (r: (usize, Option<usize>))
        ensures
            r.0 == self.remaining().len(),
            r.1 == Some(r.0),
    {
        proof {
            use_type_invariant(self);
            lemma_view_nodes(self.children@);
        }
        let len = self.back - self.front;
        (len, Some(len))
    }
}

fn children_error(e: HtreeNodeFetchChildrenError) -> (r: HtreeNodeIterChildrenError)
    ensures
        match e {
            HtreeNodeFetchChildrenError::CorruptedState => r == HtreeNodeIterChildrenError::CorruptedState,
            HtreeNodeFetchChildrenError::Hkey(x) => r == HtreeNodeIterChildrenError::Hkey(x),
            HtreeNodeFetchChildrenError::ListReference => r == HtreeNodeIterChildrenError::ListReference,
            HtreeNodeFetchChildrenError::Store(x) => r == HtreeNodeIterChildrenError::Store(x),
            HtreeNodeFetchChildrenError::UnpackChildren(x) => r == HtreeNodeIterChildrenError::UnpackChildren(x),
        },
{
    match e {
        HtreeNodeFetchChildrenError::CorruptedState => HtreeNodeIterChildrenError::CorruptedState,
        HtreeNodeFetchChildrenError::Hkey(e) => HtreeNodeIterChildrenError::Hkey(e),
        HtreeNodeFetchChildrenError::ListReference => HtreeNodeIterChildrenError::ListReference,
        HtreeNodeFetchChildrenError::Store(e) => HtreeNodeIterChildrenError::Store(e),
        HtreeNodeFetchChildrenError::UnpackChildren(e) => HtreeNodeIterChildrenError::UnpackChildren(e),
    }
}

impl HtreeNode {
    /// Walks copies of this node's children, fetched as `fetch_children` does.
    pub fn iter_children(&self, store: &InMemoryStore) -> (r: Result<HtreeNodeIterChildren, HtreeNodeIterChildrenError>)
        ensures
            r matches Ok(it) ==> crate::fetch::heights_below(it.remaining(), self@.height),
            self@.height == 0 ==> (r matches Ok(it) && it.remaining().len() == 0),
            self@.valid() ==> (r matches Ok(it) && it.remaining() == children_of(self@)),
    {
        match self.fetch_children(store) {
            Ok(children) => {
                let back = children.len();
                let it = HtreeNodeIterChildren { children, front: 0, back };
                proof {
                    lemma_view_nodes(it.children@);
                    assert(view_nodes(it.children@).subrange(0, back as int) =~= view_nodes(it.children@));
                    if self@.height > 0 {
                        crate::fetch::lemma_fetch_heights(self@, it.children);
                    }
                }
                Ok(it)
            },
            Err(e) => Err(children_error(e)),
        }
    }
}

} // verus!
