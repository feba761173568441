use vstd::prelude::*;

use ps_hkey::{HkeyFromCompactError, InMemoryStore, InMemoryStoreError};

use crate::codec::HtreeNodeUnpackChildrenError;
use crate::construct::children_of;
use crate::delete::sibling_facts;
use crate::fetch::{lemma_fetch_heights, HtreeNodeFetchChildrenError};
use crate::insert::{lemma_child_bounds, shares_key};
use crate::keys::{lemma_without_all, lemma_without_concat, lemma_without_none, without_keys};
use crate::leaves::{extends, leaf_nodes, lemma_leaf_nodes_concat, lemma_tail_empty, lemma_tail_extend, lemma_tail_push, tail_of};
use crate::lemmas::good_child;
use crate::model::{child_facts, leaves_seq, lemma_leaves_seq_push, lemma_valid_leaves, LeafView, NodeModel};
use crate::node::{lemma_view_nodes, view_nodes, HtreeNode};

verus! {

/// The keys outside `from..=to`.
pub open spec fn outside(from: u128, to: u128) -> Set<u128> {
    Set::new(|k: u128| k < from || k > to)
}

/// The leaves of `ls` whose keys lie in `from..=to`, in order.
pub open spec fn range_leaves(ls: Seq<LeafView>, from: u128, to: u128) -> Seq<LeafView> {
    without_keys(ls, outside(from, to))
}

/// Why a range search could not be completed.
#[derive(Debug)]
pub enum HtreeNodeFindRangeError {
    /// A node's state is internally corrupted.
    CorruptedState,
    /// A node's hkey does not describe a reference.
    Hkey(HkeyFromCompactError),
    /// The reference is to a list of parts, which is not read.
    ListReference,
    /// The store failed.
    Store(InMemoryStoreError),
    /// A node's stored children could not be read.
    UnpackChildren(HtreeNodeUnpackChildrenError),
}

fn range_error(e: HtreeNodeFetchChildrenError) -> (r: HtreeNodeFindRangeError)
    ensures
        match e {
            HtreeNodeFetchChildrenError::CorruptedState => r == HtreeNodeFindRangeError::CorruptedState,
            HtreeNodeFetchChildrenError::Hkey(x) => r == HtreeNodeFindRangeError::Hkey(x),
            HtreeNodeFetchChildrenError::ListReference => r == HtreeNodeFindRangeError::ListReference,
            HtreeNodeFetchChildrenError::Store(x) => r == HtreeNodeFindRangeError::Store(x),
            HtreeNodeFetchChildrenError::UnpackChildren(x) => r == HtreeNodeFindRangeError::UnpackChildren(x),
        },
{
    match e {
        HtreeNodeFetchChildrenError::CorruptedState => HtreeNodeFindRangeError::CorruptedState,
        HtreeNodeFetchChildrenError::Hkey(e) => HtreeNodeFindRangeError::Hkey(e),
        HtreeNodeFetchChildrenError::ListReference => HtreeNodeFindRangeError::ListReference,
        HtreeNodeFetchChildrenError::Store(e) => HtreeNodeFindRangeError::Store(e),
        HtreeNodeFetchChildrenError::UnpackChildren(e) => HtreeNodeFindRangeError::UnpackChildren(e),
    }
}

/// A single leaf is kept exactly when its key lies in the range.
proof fn lemma_range_single(l: LeafView, from: u128, to: u128)
    ensures
        from <= l.0 <= to ==> range_leaves(seq![l], from, to) == seq![l],
        !(from <= l.0 <= to) ==> range_leaves(seq![l], from, to) == Seq::<LeafView>::empty(),
{
    if from <= l.0 <= to {
        assert(!outside(from, to).contains(seq![l][0].0));
        lemma_without_none(seq![l], outside(from, to));
    } else {
        assert(outside(from, to).contains(seq![l][0].0));
        lemma_without_all(seq![l], outside(from, to));
    }
}

/// Whether the subtree at child `i` of `children` may hold a key in `from..=to`: its key
/// is not above `to`, and the next child's key is above `from` (or both hold only the
/// same key, which is not below `from`).
fn child_in_range(children: &Vec<HtreeNode>, i: usize, from: u128, to: u128) -> (r: bool)
    requires
        i < children@.len(),
    ensures
        r == {
            let cs = view_nodes(children@);
            &&& cs[i as int].key <= to
            &&& (i + 1 == cs.len() || from < cs[i + 1].key || (cs[i + 1].key == cs[i as int].key && from <= cs[i as int].key))
        },
{
    proof { lemma_view_nodes(children@); }
    let n = children.len();
    let k = children[i].key;
    k <= to && (i + 1 == n || from < children[i + 1].key || (children[i + 1].key == k && from <= k))
}

/// A child that `child_in_range` rules out holds no key in the range.
proof fn lemma_child_out_of_range(cs: Seq<NodeModel>, i: int, from: u128, to: u128)
    requires
        0 <= i < cs.len(),
        sibling_facts(cs, cs[i].height),
        !(cs[i].key <= to && (i + 1 == cs.len() || from < cs[i + 1].key || (cs[i + 1].key == cs[i].key && from <= cs[i].key))),
    ensures
        range_leaves(cs[i].leaves(), from, to) == Seq::<LeafView>::empty(),
{
    let ls = cs[i].leaves();
    assert forall|q: int| 0 <= q < ls.len() implies outside(from, to).contains(#[trigger] ls[q].0) by {
        lemma_child_bounds(cs, i, q);
        if i + 1 < cs.len() && cs[i + 1].key == cs[i].key {
            assert(shares_key(cs, i));
        }
    }
    lemma_without_all(ls, outside(from, to));
}

/// Appends to `out`, left to right, the leaves under `node` whose keys lie in
/// `from..=to`, descending only into children whose key ranges meet it.
fn collect_range(node: &HtreeNode, from: u128, to: u128, out: &mut Vec<HtreeNode>, store: &InMemoryStore) -> (r: Result<(), HtreeNodeFindRangeError>)
    ensures
        extends(final(out)@, old(out)@),
        node@.valid() ==> r is Ok && leaf_nodes(tail_of(final(out)@, old(out)@.len() as int))
            && leaves_seq(tail_of(final(out)@, old(out)@.len() as int)) == range_leaves(node@.leaves(), from, to),
    decreases node@.height,
{
    let ghost m = node@;
    let ghost o = out@;
    if node.is_leaf() {
        if !node.is_empty() && from <= node.key && node.key <= to {
            let c = node.copy();
            out.push(c);
            proof {
                lemma_tail_push(o, c);
                crate::model::lemma_leaves_seq_single(c@);
                if m.valid() {
                    assert(m.leaves() == seq![(m.key, m.hkey)]);
                    lemma_range_single((m.key, m.hkey), from, to);
                }
            }
        } else {
            proof {
                lemma_tail_empty(o);
                assert(leaves_seq(Seq::<NodeModel>::empty()) == Seq::<LeafView>::empty());
                if m.valid() {
                    if m.is_empty() {
                        assert(m.leaves() == Seq::<LeafView>::empty());
                        assert(without_keys(Seq::<LeafView>::empty(), outside(from, to)) == Seq::<LeafView>::empty());
                    } else {
                        assert(m.leaves() == seq![(m.key, m.hkey)]);
                        lemma_range_single((m.key, m.hkey), from, to);
                    }
                }
            }
        }
        return Ok(());
    }
    let children = match node.fetch_children(store) {
        Ok(children) => children,
        Err(e) => {
            proof { lemma_tail_empty(o); }
            return Err(range_error(e));
        },
    };
    let ghost cs = view_nodes(children@);
    let ghost h1 = (m.height - 1) as u8;
    proof {
        lemma_view_nodes(children@);
        lemma_fetch_heights(m, children);
        lemma_tail_empty(o);
        assert(cs.subrange(0, 0) =~= Seq::<NodeModel>::empty());
        assert(leaves_seq(Seq::<NodeModel>::empty()) == Seq::<LeafView>::empty());
        assert(without_keys(Seq::<LeafView>::empty(), outside(from, to)) == Seq::<LeafView>::empty());
        if m.valid() {
            assert(cs == children_of(m));
            assert forall|k: int| 0 <= k < cs.len() implies good_child(#[trigger] cs[k], h1) && child_facts(cs[k]) by {
                lemma_valid_leaves(cs[k]);
            }
        }
    }
    let mut i: usize = 0;
    while i < children.len()
        invariant
            i <= children@.len(),
            cs == view_nodes(children@),
            cs.len() == children@.len(),
            forall|k: int| 0 <= k < cs.len() ==> #[trigger] cs[k] == children@[k]@,
            forall|k: int| 0 <= k < cs.len() ==> (#[trigger] cs[k]).height + 1 == m.height,
            m == node@,
            h1 == m.height - 1,
            extends(out@, o),
            o == old(out)@,
            m.valid() ==> cs == children_of(m) && sibling_facts(cs, h1),
            m.valid() ==> leaf_nodes(tail_of(out@, o.len() as int))
                && leaves_seq(tail_of(out@, o.len() as int)) == range_leaves(leaves_seq(cs.subrange(0, i as int)), from, to),
        decreases children@.len() - i,
    {
        let ghost mid = out@;
        let ghost c = cs[i as int];
        proof {
            assert(cs.subrange(0, i + 1) =~= cs.subrange(0, i as int).push(c));
            lemma_leaves_seq_push(cs.subrange(0, i as int), c);
            lemma_without_concat(leaves_seq(cs.subrange(0, i as int)), c.leaves(), outside(from, to));
        }
        if children[i].is_leaf() {
            if !children[i].is_empty() && from <= children[i].key && children[i].key <= to {
                let x = children[i].copy();
                out.push(x);
                proof {
                    lemma_tail_push(mid, x);
                    lemma_tail_extend(o, mid, out@);
                    if m.valid() {
                        assert(c.leaves() == seq![(c.key, c.hkey)]);
                        lemma_range_single((c.key, c.hkey), from, to);
                        crate::model::lemma_leaves_seq_single(x@);
                        lemma_leaf_nodes_concat(tail_of(mid, o.len() as int), seq![x@]);
                        crate::model::lemma_leaves_seq_concat(tail_of(mid, o.len() as int), seq![x@]);
                    }
                }
            } else {
                proof {
                    if m.valid() {
                        assert(!c.is_empty());
                        assert(c.leaves() == seq![(c.key, c.hkey)]);
                        lemma_range_single((c.key, c.hkey), from, to);
                        assert(range_leaves(leaves_seq(cs.subrange(0, i as int)), from, to) + Seq::<LeafView>::empty()
                            =~= range_leaves(leaves_seq(cs.subrange(0, i as int)), from, to));
                    }
                }
            }
        } else if child_in_range(&children, i, from, to) {
            let res = collect_range(&children[i], from, to, out, store);
            proof {
                lemma_tail_extend(o, mid, out@);
            }
            if let Err(e) = res {
                return Err(e);
            }
            proof {
                if m.valid() {
                    assert(c.valid());
                    lemma_leaf_nodes_concat(tail_of(mid, o.len() as int), tail_of(out@, mid.len() as int));
                    crate::model::lemma_leaves_seq_concat(tail_of(mid, o.len() as int), tail_of(out@, mid.len() as int));
                }
            }
        } else {
            proof {
                if m.valid() {
                    lemma_child_out_of_range(cs, i as int, from, to);
                    assert(range_leaves(leaves_seq(cs.subrange(0, i as int)), from, to) + Seq::<LeafView>::empty()
                        =~= range_leaves(leaves_seq(cs.subrange(0, i as int)), from, to));
                }
            }
        }
        i += 1;
    }
    proof {
        if m.valid() {
            assert(cs.subrange(0, cs.len() as int) =~= cs);
            assert(m.leaves() == leaves_seq(cs));
        }
    }
    Ok(())
}

impl HtreeNode {
    /// The leaves whose keys lie in `from..=to`, in key order. The search descends only
    /// into subtrees whose key ranges meet the range.
    pub fn find_range(&self, from: u128, to: u128, store: &InMemoryStore) -> (r: Result<Vec<HtreeNode>, HtreeNodeFindRangeError>)
        ensures
            self@.valid() ==> (r matches Ok(v) && leaf_nodes(view_nodes(v@)) && leaves_seq(view_nodes(v@)) == range_leaves(self@.leaves(), from, to)),
    {
        let mut out: Vec<HtreeNode> = Vec::new();
        let ghost o = out@;
        let res = collect_range(self, from, to, &mut out, store);
        proof {
            assert(out@.subrange(0, 0) =~= out@.subrange(0, 0));
            assert(out@.subrange(0, out@.len() as int) =~= out@);
        }
        match res {
            Ok(()) => Ok(out),
            Err(e) => Err(e),
        }
    }
}

} // verus!
