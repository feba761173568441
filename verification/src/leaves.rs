use vstd::prelude::*;

use ps_hkey::InMemoryStore;

use crate::fetch::{fetch_result, lemma_fetch_heights, HtreeNodeFetchChildrenError};
use crate::lemmas::good_child;
use crate::model::{hkeys_fit, leaves_seq, lemma_leaves_seq_concat, lemma_leaves_seq_push, lemma_valid_leaves, LeafView, NodeModel, StateModel};
use crate::node::{lemma_view_nodes, lemma_view_nodes_concat, view_nodes, HtreeNode};

verus! {

/// The models of what was added behind the first `start` nodes of `v`.
pub open spec fn tail_of(v: Seq<HtreeNode>, start: int) -> Seq<NodeModel> {
    view_nodes(v.subrange(start, v.len() as int))
}

/// Every node is a non-empty leaf.
pub open spec fn leaf_nodes(ns: Seq<NodeModel>) -> bool {
    forall|i: int| 0 <= i < ns.len() ==> good_child(#[trigger] ns[i], 0)
}

/// `fin` extends `v`: it starts with all of `v`.
pub open spec fn extends(fin: Seq<HtreeNode>, v: Seq<HtreeNode>) -> bool {
    fin.len() >= v.len() && fin.subrange(0, v.len() as int) == v
}

/// What two extensions in a row add is what the first added, then what the second did.
pub proof fn lemma_tail_extend(o: Seq<HtreeNode>, mid: Seq<HtreeNode>, fin: Seq<HtreeNode>)
    requires
        extends(mid, o),
        extends(fin, mid),
    ensures
        extends(fin, o),
        tail_of(fin, o.len() as int) == tail_of(mid, o.len() as int) + tail_of(fin, mid.len() as int),
{
    assert(fin.subrange(0, o.len() as int) =~= mid.subrange(0, o.len() as int));
    let a = mid.subrange(o.len() as int, mid.len() as int);
    let b = fin.subrange(mid.len() as int, fin.len() as int);
    assert(fin.subrange(o.len() as int, fin.len() as int) =~= a + b);
    lemma_view_nodes_concat(a, b);
}

/// An extension is what it extends, then what was added.
pub proof fn lemma_tail_split(mid: Seq<HtreeNode>, fin: Seq<HtreeNode>)
    requires
        extends(fin, mid),
    ensures
        view_nodes(fin) == view_nodes(mid) + tail_of(fin, mid.len() as int),
{
    assert(fin =~= mid + fin.subrange(mid.len() as int, fin.len() as int));
    lemma_view_nodes_concat(mid, fin.subrange(mid.len() as int, fin.len() as int));
}

/// Leaves never interleave.
pub proof fn lemma_leaf_nodes_separated(ns: Seq<NodeModel>)
    requires
        leaf_nodes(ns),
    ensures
        crate::model::separated(ns),
{
    assert forall|i: int, j: int| 0 <= i < ns.len() && 0 <= j < ns.len() && i != j implies crate::model::sep(#[trigger] ns[i], #[trigger] ns[j]) by {
        assert(good_child(ns[i], 0) && good_child(ns[j], 0));
        assert(ns[i].leaves() == seq![(ns[i].key, ns[i].hkey)]);
        assert(ns[j].leaves() == seq![(ns[j].key, ns[j].hkey)]);
    }
}

/// Nothing added yet.
pub proof fn lemma_tail_empty(o: Seq<HtreeNode>)
    ensures
        extends(o, o),
        tail_of(o, o.len() as int) == Seq::<NodeModel>::empty(),
{
    assert(o.subrange(0, o.len() as int) =~= o);
    assert(o.subrange(o.len() as int, o.len() as int) =~= Seq::<HtreeNode>::empty());
    assert(view_nodes(Seq::<HtreeNode>::empty()) =~= Seq::<NodeModel>::empty());
}

/// Pushing one node adds exactly that node.
pub proof fn lemma_tail_push(o: Seq<HtreeNode>, x: HtreeNode)
    ensures
        extends(o.push(x), o),
        tail_of(o.push(x), o.len() as int) == seq![x@],
{
    assert(o.push(x).subrange(0, o.len() as int) =~= o);
    assert(o.push(x).subrange(o.len() as int, o.len() + 1 as int) =~= seq![x]);
    lemma_view_nodes(seq![x]);
    assert(view_nodes(seq![x]) =~= seq![x@]);
}

pub proof fn lemma_leaf_nodes_concat(a: Seq<NodeModel>, b: Seq<NodeModel>)
    requires
        leaf_nodes(a),
        leaf_nodes(b),
    ensures
        leaf_nodes(a + b),
{
    assert forall|i: int| 0 <= i < (a + b).len() implies good_child(#[trigger] (a + b)[i], 0) by {
        if i < a.len() {
            assert((a + b)[i] == a[i]);
        } else {
            assert((a + b)[i] == b[i - a.len()]);
        }
    }
}

pub proof fn lemma_fit_concat(a: Seq<NodeModel>, b: Seq<NodeModel>)
    requires
        hkeys_fit(a),
        hkeys_fit(b),
    ensures
        hkeys_fit(a + b),
{
    assert forall|i: int| 0 <= i < (a + b).len() implies (#[trigger] (a + b)[i]).hkey.len() <= 255 by {
        if i < a.len() {
            assert((a + b)[i] == a[i]);
        } else {
            assert((a + b)[i] == b[i - a.len()]);
        }
    }
}

impl HtreeNode {
    /// Appends the leaves of this tree to `out`, left to right, skipping empty nodes.
    /// The children of unresolved nodes are read from `store`.
    pub fn collect_leaves(&self, out: &mut Vec<HtreeNode>, store: &InMemoryStore) -> (r: Result<(), HtreeNodeFetchChildrenError>)
        ensures
            extends(final(out)@, old(out)@),
            self@.valid() ==> r is Ok && leaf_nodes(tail_of(final(out)@, old(out)@.len() as int))
                && leaves_seq(tail_of(final(out)@, old(out)@.len() as int)) == self@.leaves(),
            self@.valid() && (self@.height == 0 ==> self@.hkey.len() <= 255) ==> hkeys_fit(tail_of(final(out)@, old(out)@.len() as int)),
        decreases self@.height,
    {
        let ghost o = out@;
        if self.is_empty() {
            proof {
                lemma_tail_empty(o);
                assert(leaves_seq(Seq::<NodeModel>::empty()) == Seq::<LeafView>::empty());
            }
            return Ok(());
        }
        if self.is_leaf() {
            let c = self.copy();
            out.push(c);
            proof {
                lemma_tail_push(o, c);
                crate::model::lemma_leaves_seq_single(c@);
            }
            return Ok(());
        }
        let children = match self.fetch_children(store) {
            Ok(children) => children,
            Err(e) => {
                proof { lemma_tail_empty(o); }
                return Err(e);
            },
        };
        let ghost cs = view_nodes(children@);
        proof {
            lemma_view_nodes(children@);
            lemma_fetch_heights(self@, children);
            lemma_tail_empty(o);
            assert(cs.subrange(0, 0) =~= Seq::<NodeModel>::empty());
            assert(leaves_seq(Seq::<NodeModel>::empty()) == Seq::<LeafView>::empty());
            if self@.valid() {
                assert(cs == crate::construct::children_of(self@));
            }
        }
        let mut i: usize = 0;
        while i < children.len()
            invariant
                i <= children@.len(),
                cs == view_nodes(children@),
                cs.len() == children@.len(),
                forall|k: int| 0 <= k < cs.len() ==> #[trigger] cs[k] == children@[k]@,
                forall|k: int| 0 <= k < cs.len() ==> (#[trigger] cs[k]).height + 1 == self@.height,
                extends(out@, o),
                o == old(out)@,
                self@.valid() ==> cs == crate::construct::children_of(self@),
                self@.valid() ==> leaf_nodes(tail_of(out@, o.len() as int))
                    && leaves_seq(tail_of(out@, o.len() as int)) == leaves_seq(cs.subrange(0, i as int))
                    && hkeys_fit(tail_of(out@, o.len() as int)),
            decreases children@.len() - i,
        {
            let ghost mid = out@;
            let res = children[i].collect_leaves(out, store);
            proof {
                lemma_tail_extend(o, mid, out@);
            }
            if let Err(e) = res {
                return Err(e);
            }
            proof {
                if self@.valid() {
                    assert(cs[i as int].valid());
                    lemma_leaf_nodes_concat(tail_of(mid, o.len() as int), tail_of(out@, mid.len() as int));
                    lemma_fit_concat(tail_of(mid, o.len() as int), tail_of(out@, mid.len() as int));
                    lemma_leaves_seq_concat(tail_of(mid, o.len() as int), tail_of(out@, mid.len() as int));
                    assert(cs.subrange(0, i + 1) =~= cs.subrange(0, i as int).push(cs[i as int]));
                    lemma_leaves_seq_push(cs.subrange(0, i as int), cs[i as int]);
                }
            }
            i += 1;
        }
        proof {
            if self@.valid() {
                assert(cs.subrange(0, cs.len() as int) =~= cs);
            }
        }
        Ok(())
    }
}

} // verus!
