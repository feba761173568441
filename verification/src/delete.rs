use vstd::prelude::*;

use ps_hkey::{HkeyFromCompactError, InMemoryStore, InMemoryStoreError};

use crate::codec::HtreeNodeUnpackChildrenError;
use crate::construct::{children_of, empty_model, parents_result, same_height, HtreeNodeFromChildrenError};
use crate::fetch::{heights_below, lemma_fetch_heights, HtreeNodeFetchChildrenError};
use crate::keys::{
    bounded, contains_sorted, key_range, lemma_without_agree, lemma_without_all, lemma_without_concat, lemma_without_none,
    lemma_without_count, lemma_without_perm, lemma_without_twice, lemma_without_within, sort_dedup, strictly_sorted, without_keys,
};
use crate::lemmas::{
    good_child, leaves_within, lemma_child_leaves_within, lemma_parents_valid, lemma_sep_shrink,
};
use crate::model::{
    child_facts, hkeys_fit, keys_nondecreasing, leaves_seq, lemma_leaves_seq_concat, lemma_leaves_seq_push,
    lemma_valid_leaves, separated, sep, LeafView, NodeModel,
};
use crate::node::{lemma_view_nodes, lemma_view_nodes_push, view_nodes, HtreeNode};

verus! {

broadcast use vstd::multiset::group_multiset_axioms;

/// Why a deletion could not be completed.
#[derive(Debug)]
pub enum HtreeNodeDeleteManyError {
    /// A node's state is invalid or corrupted.
    CorruptedNode,
    /// Rebuilding a node failed for a reason other than the store.
    FromChildren(HtreeNodeFromChildrenError),
    /// A node's hkey does not describe a reference.
    Hkey(HkeyFromCompactError),
    /// The reference is to a list of parts, which is not read.
    ListReference,
    /// The store failed.
    Store(InMemoryStoreError),
    /// A node's stored children could not be read.
    UnpackChildren(HtreeNodeUnpackChildrenError),
}

fn delete_fetch_error(e: HtreeNodeFetchChildrenError) -> (r: HtreeNodeDeleteManyError)
    ensures
        match e {
            HtreeNodeFetchChildrenError::CorruptedState => r == HtreeNodeDeleteManyError::CorruptedNode,
            HtreeNodeFetchChildrenError::Hkey(x) => r == HtreeNodeDeleteManyError::Hkey(x),
            HtreeNodeFetchChildrenError::ListReference => r == HtreeNodeDeleteManyError::ListReference,
            HtreeNodeFetchChildrenError::Store(x) => r == HtreeNodeDeleteManyError::Store(x),
            HtreeNodeFetchChildrenError::UnpackChildren(x) => r == HtreeNodeDeleteManyError::UnpackChildren(x),
        },
{
    match e {
        HtreeNodeFetchChildrenError::CorruptedState => HtreeNodeDeleteManyError::CorruptedNode,
        HtreeNodeFetchChildrenError::Hkey(e) => HtreeNodeDeleteManyError::Hkey(e),
        HtreeNodeFetchChildrenError::ListReference => HtreeNodeDeleteManyError::ListReference,
        HtreeNodeFetchChildrenError::Store(e) => HtreeNodeDeleteManyError::Store(e),
        HtreeNodeFetchChildrenError::UnpackChildren(e) => HtreeNodeDeleteManyError::UnpackChildren(e),
    }
}

fn delete_build_error(e: HtreeNodeFromChildrenError) -> (r: HtreeNodeDeleteManyError)
    ensures
        match e {
            HtreeNodeFromChildrenError::Store(x) => r == HtreeNodeDeleteManyError::Store(x),
            _ => r == HtreeNodeDeleteManyError::FromChildren(e),
        },
{
    match e {
        HtreeNodeFromChildrenError::Store(e) => HtreeNodeDeleteManyError::Store(e),
        e => HtreeNodeDeleteManyError::FromChildren(e),
    }
}

/// The nodes rebuilt so far from the first `i` children `cs` of a valid node: each is a
/// valid node one level below the parent that keeps only leaves of the child `orig`
/// names, and no two of them interleave.
pub open spec fn rebuilt_ok(cs: Seq<NodeModel>, r: Seq<NodeModel>, orig: Seq<int>, i: int, h1: u8) -> bool {
    &&& r.len() == orig.len()
    &&& forall|x: int| 0 <= x < r.len() ==> {
        &&& 0 <= #[trigger] orig[x] < i
        &&& good_child(r[x], h1)
        &&& r[x].hkey.len() <= 255
        &&& leaves_within(r[x].leaves(), cs[orig[x]].leaves())
    }
    &&& forall|x: int, y: int| 0 <= x < r.len() && 0 <= y < r.len() && x != y ==> sep(#[trigger] r[x], #[trigger] r[y])
}

/// The children of a valid node of height `h1 + 1`.
pub open spec fn sibling_facts(cs: Seq<NodeModel>, h1: u8) -> bool {
    &&& separated(cs)
    &&& keys_nondecreasing(cs)
    &&& hkeys_fit(cs)
    &&& forall|k: int| 0 <= k < cs.len() ==> good_child(#[trigger] cs[k], h1) && child_facts(cs[k])
}

proof fn lemma_within_refl(ls: Seq<LeafView>)
    ensures
        leaves_within(ls, ls),
{
}

proof fn lemma_within_trans(a: Seq<LeafView>, b: Seq<LeafView>, c: Seq<LeafView>)
    requires
        leaves_within(a, b),
        leaves_within(b, c),
    ensures
        leaves_within(a, c),
{
    assert forall|i: int| 0 <= i < a.len() implies c.contains(#[trigger] a[i]) by {
        let k = choose|k: int| 0 <= k < b.len() && b[k] == a[i];
        assert(c.contains(b[k]));
    }
}

/// Appending the nodes rebuilt from child `i` keeps the rebuilt nodes in order.
proof fn lemma_append_segment(cs: Seq<NodeModel>, r: Seq<NodeModel>, orig: Seq<int>, i: int, h1: u8, seg: Seq<NodeModel>)
    requires
        0 <= i < cs.len(),
        sibling_facts(cs, h1),
        rebuilt_ok(cs, r, orig, i, h1),
        forall|x: int| 0 <= x < seg.len() ==> good_child(#[trigger] seg[x], h1) && seg[x].hkey.len() <= 255
            && leaves_within(seg[x].leaves(), cs[i].leaves()),
        separated(seg),
    ensures
        rebuilt_ok(cs, r + seg, orig + Seq::new(seg.len(), |x: int| i), i + 1, h1),
{
    let r2 = r + seg;
    let o2 = orig + Seq::new(seg.len(), |x: int| i);
    assert forall|x: int| 0 <= x < r2.len() implies {
        &&& 0 <= #[trigger] o2[x] < i + 1
        &&& good_child(r2[x], h1)
        &&& r2[x].hkey.len() <= 255
        &&& leaves_within(r2[x].leaves(), cs[o2[x]].leaves())
    } by {
        if x < r.len() {
            assert(r2[x] == r[x] && o2[x] == orig[x]);
        } else {
            assert(r2[x] == seg[x - r.len()] && o2[x] == i);
        }
    }
    assert forall|x: int, y: int| 0 <= x < r2.len() && 0 <= y < r2.len() && x != y implies sep(#[trigger] r2[x], #[trigger] r2[y]) by {
        if x < r.len() && y < r.len() {
            assert(r2[x] == r[x] && r2[y] == r[y]);
        } else if x >= r.len() && y >= r.len() {
            assert(r2[x] == seg[x - r.len()] && r2[y] == seg[y - r.len()]);
        } else {
            let (a, b) = if x < r.len() { (x, y) } else { (y, x) };
            let old = r2[a];
            let new = r2[b];
            assert(old == r[a] && new == seg[b - r.len()]);
            let j = orig[a];
            assert(0 <= j < i);
            assert(sep(cs[j], cs[i]));
            lemma_valid_leaves(old);
            lemma_valid_leaves(new);
            lemma_sep_shrink(cs[j], old, cs[i]);
            lemma_sep_shrink(cs[i], new, old);
        }
    }
}

} // verus!

verus! {

proof fn lemma_leaves_step(cs: Seq<NodeModel>, i: int, ks: Set<u128>, r: Seq<NodeModel>, seg: Seq<NodeModel>)
    requires
        0 <= i < cs.len(),
        leaves_seq(r).to_multiset() == without_keys(leaves_seq(cs.subrange(0, i)), ks).to_multiset(),
        leaves_seq(seg).to_multiset() == without_keys(cs[i].leaves(), ks).to_multiset(),
    ensures
        leaves_seq(r + seg).to_multiset() == without_keys(leaves_seq(cs.subrange(0, i + 1)), ks).to_multiset(),
{
    assert(cs.subrange(0, i + 1) =~= cs.subrange(0, i).push(cs[i]));
    lemma_leaves_seq_push(cs.subrange(0, i), cs[i]);
    lemma_without_concat(leaves_seq(cs.subrange(0, i)), cs[i].leaves(), ks);
    lemma_leaves_seq_concat(r, seg);
    vstd::seq_lib::lemma_multiset_commutative(leaves_seq(r), leaves_seq(seg));
    vstd::seq_lib::lemma_multiset_commutative(without_keys(leaves_seq(cs.subrange(0, i)), ks), without_keys(cs[i].leaves(), ks));
}

proof fn lemma_seg_single(c: NodeModel)
    ensures
        leaves_seq(seq![c]) == c.leaves(),
        separated(seq![c]),
{
    crate::model::lemma_leaves_seq_single(c);
}

proof fn lemma_seg_empty()
    ensures
        leaves_seq(Seq::<NodeModel>::empty()) == Seq::<LeafView>::empty(),
        separated(Seq::<NodeModel>::empty()),
{
}

/// What deleting the keys `ks` from the valid node `m` gives: valid nodes of `m`'s height
/// that do not interleave and together hold the leaves of `m` whose keys are not in `ks`.
pub open spec fn deleted_ok(m: NodeModel, ps: Seq<NodeModel>, ks: Set<u128>) -> bool {
    &&& forall|t: int| 0 <= t < ps.len() ==> good_child(#[trigger] ps[t], m.height) && ps[t].hkey.len() <= 255
    &&& separated(ps)
    &&& leaves_seq(ps).to_multiset() == without_keys(m.leaves(), ks).to_multiset()
    &&& leaves_within(leaves_seq(ps), m.leaves())
}

pub proof fn lemma_bounded_parent(p: NodeModel, input: Seq<NodeModel>)
    requires
        crate::construct::sorted_parent_of(p, input),
        input.len() <= crate::MAX_CHILDREN,
        forall|i: int| 0 <= i < input.len() ==> bounded(#[trigger] input[i]),
    ensures
        bounded(p),
{
    let cs = children_of(p);
    crate::construct::lemma_perm_contains(cs, input);
    assert forall|i: int| 0 <= i < cs.len() implies bounded(#[trigger] cs[i]) by {
        assert(input.contains(cs[i]));
    }
}

/// The state of a rebuild after the first `i` children `cs` of the valid node `m`
/// were handled.
#[verifier::opaque]
pub open spec fn rebuild_inv(m: NodeModel, cs: Seq<NodeModel>, rv: Seq<NodeModel>, orig: Seq<int>, i: int, ks: Set<u128>, h1: u8) -> bool {
    &&& 0 <= i <= cs.len()
    &&& cs == children_of(m)
    &&& sibling_facts(cs, h1)
    &&& rebuilt_ok(cs, rv, orig, i, h1)
    &&& leaves_seq(rv).to_multiset() == without_keys(leaves_seq(cs.subrange(0, i)), ks).to_multiset()
    &&& bounded(m) ==> rv.len() <= i && forall|x: int| 0 <= x < rv.len() ==> bounded(#[trigger] rv[x])
}

proof fn lemma_rebuild_start(m: NodeModel, ks: Set<u128>)
    requires
        m.valid(),
        m.height > 0,
    ensures
        rebuild_inv(m, children_of(m), Seq::empty(), Seq::empty(), 0, ks, (m.height - 1) as u8),
{
    reveal(rebuild_inv);
    let cs = children_of(m);
    let h1 = (m.height - 1) as u8;
    assert forall|k: int| 0 <= k < cs.len() implies good_child(#[trigger] cs[k], h1) && child_facts(cs[k]) by {
        lemma_valid_leaves(cs[k]);
    }
    assert(cs.subrange(0, 0) =~= Seq::<NodeModel>::empty());
    assert(leaves_seq(Seq::<NodeModel>::empty()) == Seq::<LeafView>::empty());
    assert(without_keys(Seq::<LeafView>::empty(), ks) == Seq::<LeafView>::empty());
}

proof fn lemma_rebuild_facts(m: NodeModel, cs: Seq<NodeModel>, rv: Seq<NodeModel>, orig: Seq<int>, i: int, ks: Set<u128>, h1: u8)
    requires
        rebuild_inv(m, cs, rv, orig, i, ks, h1),
    ensures
        cs == children_of(m),
        sibling_facts(cs, h1),
        0 <= i <= cs.len(),
        forall|x: int| 0 <= x < rv.len() ==> good_child(#[trigger] rv[x], h1) && rv[x].hkey.len() <= 255,
        separated(rv),
        leaves_seq(rv).to_multiset() == without_keys(leaves_seq(cs.subrange(0, i)), ks).to_multiset(),
        bounded(m) ==> rv.len() <= i && forall|x: int| 0 <= x < rv.len() ==> bounded(#[trigger] rv[x]),
{
    reveal(rebuild_inv);
    assert forall|x: int| 0 <= x < rv.len() implies good_child(#[trigger] rv[x], h1) && rv[x].hkey.len() <= 255 by {
        assert(0 <= orig[x] < i);
    }
}

/// Handles child `i`: `seg` are the nodes that now hold what it keeps.
proof fn lemma_rebuild_step(m: NodeModel, cs: Seq<NodeModel>, rv: Seq<NodeModel>, orig: Seq<int>, i: int, ks: Set<u128>, h1: u8, seg: Seq<NodeModel>)
    requires
        rebuild_inv(m, cs, rv, orig, i, ks, h1),
        i < cs.len(),
        forall|x: int| 0 <= x < seg.len() ==> good_child(#[trigger] seg[x], h1) && seg[x].hkey.len() <= 255
            && leaves_within(seg[x].leaves(), cs[i].leaves()),
        separated(seg),
        leaves_seq(seg).to_multiset() == without_keys(cs[i].leaves(), ks).to_multiset(),
        bounded(m) ==> seg.len() <= 1 && forall|x: int| 0 <= x < seg.len() ==> bounded(#[trigger] seg[x]),
    ensures
        rebuild_inv(m, cs, rv + seg, orig + Seq::new(seg.len(), |x: int| i), i + 1, ks, h1),
{
    reveal(rebuild_inv);
    lemma_append_segment(cs, rv, orig, i, h1, seg);
    lemma_leaves_step(cs, i, ks, rv, seg);
    if bounded(m) {
        assert forall|x: int| 0 <= x < (rv + seg).len() implies bounded(#[trigger] (rv + seg)[x]) by {
            if x < rv.len() {
                assert((rv + seg)[x] == rv[x]);
            } else {
                assert((rv + seg)[x] == seg[x - rv.len()]);
            }
        }
    }
}

/// Keeping child `i` whole, when none of its keys is deleted.
proof fn lemma_rebuild_keep(m: NodeModel, cs: Seq<NodeModel>, rv: Seq<NodeModel>, orig: Seq<int>, i: int, ks: Set<u128>, h1: u8)
    requires
        rebuild_inv(m, cs, rv, orig, i, ks, h1),
        i < cs.len(),
        without_keys(cs[i].leaves(), ks) == cs[i].leaves(),
    ensures
        rebuild_inv(m, cs, rv.push(cs[i]), orig + Seq::new(1, |x: int| i), i + 1, ks, h1),
{
    lemma_rebuild_facts(m, cs, rv, orig, i, ks, h1);
    let c = cs[i];
    assert(good_child(c, h1) && c.hkey.len() <= 255);
    lemma_seg_single(c);
    lemma_within_refl(c.leaves());
    if bounded(m) {
        assert(c == children_of(m)[i]);
    }
    lemma_rebuild_step(m, cs, rv, orig, i, ks, h1, seq![c]);
    assert(rv + seq![c] =~= rv.push(c));
}

/// Dropping child `i`, when all of its keys are deleted.
proof fn lemma_rebuild_drop(m: NodeModel, cs: Seq<NodeModel>, rv: Seq<NodeModel>, orig: Seq<int>, i: int, ks: Set<u128>, h1: u8)
    requires
        rebuild_inv(m, cs, rv, orig, i, ks, h1),
        i < cs.len(),
        without_keys(cs[i].leaves(), ks) == Seq::<LeafView>::empty(),
    ensures
        rebuild_inv(m, cs, rv, orig, i + 1, ks, h1),
{
    lemma_seg_empty();
    crate::model::lemma_empty_to_multiset(Seq::<LeafView>::empty());
    lemma_rebuild_step(m, cs, rv, orig, i, ks, h1, Seq::empty());
    assert(rv + Seq::<NodeModel>::empty() =~= rv);
    assert(orig + Seq::new(0, |x: int| i) =~= orig);
}

impl HtreeNode {
    /// Deletes the leaves whose keys are among `keys[lo..hi]` from this internal node and
    /// rebuilds it; the result is the nodes that now hold what remains (none if nothing does).
    fn delete_leaves_recursive(&self, keys: &Vec<u128>, lo: usize, hi: usize, store: &InMemoryStore) -> (r: Result<Vec<HtreeNode>, HtreeNodeDeleteManyError>)
        requires
            lo <= hi <= keys@.len(),
            strictly_sorted(keys@),
            self@.height > 0,
        ensures
            self@.valid() ==> match r {
                Ok(ps) => deleted_ok(self@, view_nodes(ps@), key_range(keys@, lo as int, hi as int)),
                Err(e) => e is Store,
            },
            self@.valid() && bounded(self@) ==> (r matches Ok(ps) ==> ps@.len() <= 1 && forall|t: int|
                0 <= t < ps@.len() ==> bounded(#[trigger] view_nodes(ps@)[t])),
            self@.valid() && crate::faithful::faithful(self@) ==> (r matches Ok(ps) ==> crate::cover::all_faithful(view_nodes(ps@))),
        decreases self@.height,
    {
        let ghost m = self@;
        let ghost fg = m.valid() && crate::faithful::faithful(m);
        let ghost ks = key_range(keys@, lo as int, hi as int);
        let ghost h1 = (m.height - 1) as u8;
        let children = match self.fetch_children(store) {
            Ok(children) => children,
            Err(e) => return Err(delete_fetch_error(e)),
        };
        let ghost cs = view_nodes(children@);
        proof {
            lemma_view_nodes(children@);
            lemma_fetch_heights(m, children);
            if m.valid() {
                assert(cs == children_of(m));
                assert forall|k: int| 0 <= k < cs.len() implies good_child(#[trigger] cs[k], h1) && child_facts(cs[k]) by {
                    lemma_valid_leaves(cs[k]);
                }
                assert(cs.subrange(0, 0) =~= Seq::<NodeModel>::empty());
            }
        }
        let n = children.len();
        let mut rebuilt: Vec<HtreeNode> = Vec::new();
        let ghost mut orig: Seq<int> = Seq::empty();
        let mut pos = lo;
        if n > 0 {
            while pos < hi && keys[pos] < children[0].key
                invariant
                    lo <= pos <= hi,
                    hi <= keys@.len(),
                    n > 0,
                    n == children@.len(),
                    forall|q: int| lo <= q < pos ==> keys@[q] < children@[0]@.key,
                decreases hi - pos,
            {
                pos += 1;
            }
        }
        proof {
            lemma_view_nodes(rebuilt@);
            assert(view_nodes(rebuilt@) =~= Seq::<NodeModel>::empty());
            if m.valid() {
                lemma_rebuild_start(m, ks);
                if n > 0 && m.height > 1 {
                    assert forall|q: int| pos <= q < hi implies keys@[q] >= cs[0].key by {
                        if pos < hi {
                            assert(keys@[pos as int] >= cs[0].key);
                            if q > pos {
                                assert(keys@[pos as int] < keys@[q]);
                            }
                        }
                    }
                }
            }
        }
        proof {
            if fg {
                assert(cs == children_of(m));
                assert forall|k: int| 0 <= k < n implies crate::faithful::faithful(#[trigger] cs[k]) by {
                    assert(m.state is Internal);
                }
            }
        }
        let mut i: usize = 0;
        while i < n
            invariant
                n == children@.len(),
                cs == view_nodes(children@),
                cs.len() == n,
                forall|k: int| 0 <= k < n ==> #[trigger] cs[k] == children@[k]@,
                forall|k: int| 0 <= k < n ==> (#[trigger] cs[k]).height + 1 == m.height,
                m == self@,
                m.height > 0,
                h1 == m.height - 1,
                lo <= pos <= hi,
                hi <= keys@.len(),
                strictly_sorted(keys@),
                ks == key_range(keys@, lo as int, hi as int),
                i <= n,
                m.valid() ==> rebuild_inv(m, cs, view_nodes(rebuilt@), orig, i as int, ks, h1),
                m.valid() && m.height > 1 && i < n ==> (forall|q: int| lo <= q < pos ==> keys@[q] < cs[i as int].key)
                    && (forall|q: int| pos <= q < hi ==> keys@[q] >= cs[i as int].key),
                fg == (m.valid() && crate::faithful::faithful(m)),
                fg ==> crate::cover::all_faithful(view_nodes(rebuilt@)),
                fg ==> forall|k: int| 0 <= k < n ==> crate::faithful::faithful(#[trigger] cs[k]),
            decreases n - i,
        {
            let child = children[i].copy();
            let ghost c = cs[i as int];
            let ghost rv = view_nodes(rebuilt@);
            proof {
                assert(child@ == c);
                if m.valid() {
                    lemma_rebuild_facts(m, cs, rv, orig, i as int, ks, h1);
                    assert(good_child(c, h1) && child_facts(c));
                }
            }
            if self.height <= 1 {
                // the children are leaves: keep those whose key is not deleted
                let deleted = contains_sorted(keys, lo, hi, child.key);
                proof {
                    if m.valid() {
                        assert(c.height == 0 && !c.is_empty());
                        assert(c.leaves() == seq![(c.key, c.hkey)]);
                        assert(c.leaves()[0].0 == c.key);
                    }
                }
                if !deleted {
                    proof { lemma_view_nodes_push(rebuilt@, child); crate::merge::lemma_raw_push(rebuilt@, child); }
                    rebuilt.push(child);
                    proof {
                        if m.valid() {
                            lemma_without_none(c.leaves(), ks);
                            lemma_rebuild_keep(m, cs, rv, orig, i as int, ks, h1);
                            orig = orig + Seq::new(1, |x: int| i as int);
                        }
                    }
                } else {
                    proof {
                        if m.valid() {
                            lemma_without_all(c.leaves(), ks);
                            lemma_rebuild_drop(m, cs, rv, orig, i as int, ks, h1);
                        }
                    }
                }
                i += 1;
                continue;
            }
            let dup = i + 1 < n && children[i + 1].key == child.key;
            if dup {
                // a subtree that shares its key with the next sibling holds only that key
                let deleted = contains_sorted(keys, pos, hi, child.key);
                proof {
                    if m.valid() {
                        assert(sep(cs[i as int], cs[i + 1]));
                        assert(child_facts(cs[i + 1]));
                        assert(c.pure());
                        assert forall|x: int| 0 <= x < c.leaves().len() implies (#[trigger] c.leaves()[x]).0 == c.key by {
                            assert(c.leaves()[0].0 <= c.leaves()[x].0 <= c.leaves().last().0);
                        }
                        if ks.contains(c.key) {
                            let q = choose|q: int| lo <= q < hi && keys@[q] == c.key;
                            assert(q >= pos);
                        }
                        assert(ks.contains(c.key) == deleted);
                    }
                }
                if !deleted {
                    proof { lemma_view_nodes_push(rebuilt@, child); crate::merge::lemma_raw_push(rebuilt@, child); }
                    rebuilt.push(child);
                    proof {
                        if m.valid() {
                            lemma_without_none(c.leaves(), ks);
                            lemma_rebuild_keep(m, cs, rv, orig, i as int, ks, h1);
                            orig = orig + Seq::new(1, |x: int| i as int);
                        }
                    }
                } else {
                    proof {
                        if m.valid() {
                            lemma_without_all(c.leaves(), ks);
                            lemma_rebuild_drop(m, cs, rv, orig, i as int, ks, h1);
                        }
                    }
                }
                proof {
                    if m.valid() && m.height > 1 && i + 1 < n {
                        assert(cs[i + 1].key == c.key);
                    }
                }
                i += 1;
                continue;
            }
            // the keys that fall in this child's range
            let mut split = hi;
            if i + 1 < n {
                let next_key = children[i + 1].key;
                split = pos;
                while split < hi && keys[split] < next_key
                    invariant
                        pos <= split <= hi,
                        hi <= keys@.len(),
                        forall|q: int| pos <= q < split ==> keys@[q] < next_key,
                    decreases hi - split,
                {
                    split += 1;
                }
            }
            let ghost ki = key_range(keys@, pos as int, split as int);
            proof {
                if m.valid() {
                    if split < hi && i + 1 < n {
                        assert forall|q: int| split <= q < hi implies keys@[q] >= cs[i + 1].key by {
                            if q > split {
                                assert(keys@[split as int] < keys@[q]);
                            }
                        }
                    }
                    lemma_route(cs, i as int, keys@, lo as int, pos as int, split as int, hi as int);
                    lemma_without_agree(c.leaves(), ks, ki);
                }
            }
            if split == pos {
                proof { lemma_view_nodes_push(rebuilt@, child); crate::merge::lemma_raw_push(rebuilt@, child); }
                rebuilt.push(child);
                proof {
                    if m.valid() {
                        assert(ki =~= Set::<u128>::empty());
                        lemma_without_none(c.leaves(), ki);
                        lemma_rebuild_keep(m, cs, rv, orig, i as int, ks, h1);
                        orig = orig + Seq::new(1, |x: int| i as int);
                    }
                }
            } else {
                let mut out = match child.delete_leaves_recursive(keys, pos, split, store) {
                    Ok(out) => out,
                    Err(e) => return Err(e),
                };
                let ghost ov = view_nodes(out@);
                proof {
                    if m.valid() {
                        assert forall|x: int| 0 <= x < ov.len() implies good_child(#[trigger] ov[x], h1) && ov[x].hkey.len() <= 255
                            && leaves_within(ov[x].leaves(), cs[i as int].leaves()) by {
                            lemma_child_leaves_within(ov, x);
                            lemma_within_trans(ov[x].leaves(), leaves_seq(ov), c.leaves());
                        }
                        lemma_view_nodes(out@);
                        if bounded(m) {
                            assert(bounded(c));
                            assert(ov.len() <= 1);
                        }
                        lemma_rebuild_step(m, cs, rv, orig, i as int, ks, h1, ov);
                        orig = orig + Seq::new(ov.len(), |x: int| i as int);
                    }
                }
                let ghost before = rebuilt@;
                let ghost out_v = out@;
                rebuilt.append(&mut out);
                proof {
                    assert(rebuilt@ == before + out_v);
                    crate::node::lemma_view_nodes_concat(before, out_v);
                    crate::merge::lemma_raw_append(before, out_v);
                }
            }
            pos = split;
            proof {
                if m.valid() && i + 1 < n && m.height > 1 {
                    assert forall|q: int| pos <= q < hi implies keys@[q] >= cs[i + 1].key by {
                        if q > split && split < hi {
                            assert(keys@[split as int] < keys@[q]);
                        }
                    }
                }
            }
            i += 1;
        }
        let ghost rv = view_nodes(rebuilt@);
        proof {
            if m.valid() {
                lemma_rebuild_facts(m, cs, rv, orig, n as int, ks, h1);
                assert(cs.subrange(0, n as int) =~= cs);
                assert(m.leaves() == leaves_seq(cs));
            }
        }
        let parents = match Self::from_many_children(rebuilt, store) {
            Ok(parents) => parents,
            Err(e) => {
                proof {
                    if m.valid() {
                        if rv.len() > 0 {
                            assert(good_child(rv[0], h1));
                            assert(same_height(rv));
                        }
                    }
                }
                return Err(delete_build_error(e));
            },
        };
        proof {
            let pv = view_nodes(parents@);
            lemma_view_nodes(parents@);
            if m.valid() {
                let w = without_keys(m.leaves(), ks);
                lemma_without_within(m.leaves(), ks);
                if rv.len() == 0 {
                    assert(pv =~= Seq::<NodeModel>::empty());
                    assert(leaves_seq(pv) == Seq::<LeafView>::empty());
                    crate::model::lemma_empty_to_multiset(Seq::<LeafView>::empty());
                    assert(leaves_seq(rv) == Seq::<LeafView>::empty());
                } else {
                    assert(good_child(rv[0], h1));
                    assert(same_height(rv));
                    lemma_parents_valid(pv, rv, h1);
                    crate::construct::lemma_perm_contains(leaves_seq(pv), w);
                    assert forall|x: int| 0 <= x < leaves_seq(pv).len() implies m.leaves().contains(#[trigger] leaves_seq(pv)[x]) by {
                        assert(w.contains(leaves_seq(pv)[x]));
                        let k = choose|k: int| 0 <= k < w.len() && w[k] == leaves_seq(pv)[x];
                        assert(m.leaves().contains(w[k]));
                    }
                    if bounded(m) {
                        assert(rv.len() <= crate::MAX_CHILDREN);
                        assert(pv.len() == 1);
                        let gs = pv.map_values(|p: NodeModel| children_of(p));
                        crate::group::lemma_flatten_single(gs[0]);
                        assert(gs =~= seq![children_of(pv[0])]);
                        crate::construct::lemma_perm_contains(children_of(pv[0]), rv);
                        lemma_bounded_parent(pv[0], rv);
                    }
                    if fg {
                        assert(crate::split::faithful_siblings(rv, h1)) by {
                            assert forall|t: int| 0 <= t < rv.len() implies crate::faithful::faithful(#[trigger] rv[t])
                                && !rv[t].is_empty() && rv[t].height == h1 by {
                                assert(good_child(rv[t], h1));
                            }
                        }
                        crate::cover::lemma_parents_faithful(pv, rv, h1);
                    }
                }
            }
        }
        Ok(parents)
    }
}

/// Routing: the keys in `keys[pos..split]` are exactly the deleted keys that child `i`
/// can hold.
proof fn lemma_route(cs: Seq<NodeModel>, i: int, keys: Seq<u128>, lo: int, pos: int, split: int, hi: int)
    requires
        0 <= i < cs.len(),
        sibling_facts(cs, cs[i].height),
        strictly_sorted(keys),
        lo <= pos <= split <= hi <= keys.len(),
        forall|q: int| lo <= q < pos ==> keys[q] < cs[i].key,
        i + 1 < cs.len() ==> cs[i + 1].key != cs[i].key,
        i + 1 < cs.len() ==> (forall|q: int| pos <= q < split ==> keys[q] < cs[i + 1].key)
            && (forall|q: int| split <= q < hi ==> keys[q] >= cs[i + 1].key),
        i + 1 >= cs.len() ==> split == hi,
    ensures
        forall|x: int| 0 <= x < cs[i].leaves().len() ==> (key_range(keys, lo, hi).contains(#[trigger] cs[i].leaves()[x].0)
            <==> key_range(keys, pos, split).contains(cs[i].leaves()[x].0)),
{
    let c = cs[i];
    assert(child_facts(c));
    assert forall|x: int| 0 <= x < c.leaves().len() implies (key_range(keys, lo, hi).contains(#[trigger] c.leaves()[x].0)
        <==> key_range(keys, pos, split).contains(c.leaves()[x].0)) by {
        let k = c.leaves()[x].0;
        assert(c.leaves()[0].0 <= k <= c.leaves().last().0);
        if i + 1 < cs.len() {
            assert(sep(cs[i], cs[i + 1]));
            assert(child_facts(cs[i + 1]));
            assert(cs[i].key <= cs[i + 1].key);
            assert(cs[i + 1].leaves()[0].0 <= cs[i + 1].leaves().last().0);
            assert(c.max_key() < cs[i + 1].key);
        }
        if key_range(keys, lo, hi).contains(k) {
            let q = choose|q: int| lo <= q < hi && keys[q] == k;
            assert(q >= pos);
            assert(q < split);
        }
        if key_range(keys, pos, split).contains(k) {
            let q = choose|q: int| pos <= q < split && keys[q] == k;
            assert(lo <= q < hi);
        }
    }
}


/// Why deleting one key could not be completed.
#[derive(Debug)]
pub enum HtreeNodeDeleteOneError {
    /// The deletion failed for a reason other than the store.
    DeleteMany(HtreeNodeDeleteManyError),
    /// The store failed.
    Store(InMemoryStoreError),
}

/// What deleting `keys` from the valid node `m` gives, as far as the store lets it finish.
pub open spec fn delete_spec(m: NodeModel, ks: Set<u128>, r: Result<HtreeNode, HtreeNodeDeleteManyError>) -> bool {
    match r {
        Ok(n) => {
            &&& n@.valid()
            &&& n@.is_empty() || (n@.height == m.height && n@.nonempty_at_key())
            &&& leaves_within(n@.leaves(), m.leaves())
            &&& n@.leaves().to_multiset() == without_keys(m.leaves(), ks).to_multiset()
            &&& bounded(m) ==> bounded(n@)
        },
        Err(e) => e is Store,
    }
}

/// Valid siblings of height `h` (above the leaves) that do not interleave.
pub open spec fn siblings_ok(pv: Seq<NodeModel>, h: u8) -> bool {
    &&& h >= 1
    &&& forall|t: int| 0 <= t < pv.len() ==> good_child(#[trigger] pv[t], h) && pv[t].hkey.len() <= 255
    &&& separated(pv)
}

/// Children of different siblings that do not interleave do not interleave either.
proof fn lemma_cross_sep(a: NodeModel, b: NodeModel, x: NodeModel, y: NodeModel)
    requires
        sep(a, b),
        child_facts(a),
        child_facts(b),
        child_facts(x),
        child_facts(y),
        leaves_within(x.leaves(), a.leaves()),
        leaves_within(y.leaves(), b.leaves()),
    ensures
        sep(x, y),
        sep(y, x),
{
    lemma_sep_shrink(a, x, b);
    lemma_sep_shrink(b, y, x);
}

/// One node of the siblings' height over all their children: the siblings' children, in
/// order, under a single parent.
fn join_siblings(siblings: Vec<HtreeNode>, store: &InMemoryStore, Ghost(h): Ghost<u8>) -> (r: Result<HtreeNode, HtreeNodeDeleteManyError>)
    requires
        siblings@.len() > 0,
    ensures
        siblings_ok(view_nodes(siblings@), h) ==> match r {
            Ok(n) => good_child(n@, h) && n@.hkey.len() <= 255
                && n@.leaves().to_multiset() == leaves_seq(view_nodes(siblings@)).to_multiset(),
            Err(e) => e is Store,
        },
        siblings_ok(view_nodes(siblings@), h) && crate::cover::all_faithful(view_nodes(siblings@)) ==> (r matches Ok(n)
            ==> crate::faithful::faithful(n@)),
{
    let ghost pv = view_nodes(siblings@);
    let ghost ok = siblings_ok(pv, h);
    let ghost fg = ok && crate::cover::all_faithful(pv);
    let ghost h1 = (h - 1) as u8;
    let mut all: Vec<HtreeNode> = Vec::new();
    let ghost mut own: Seq<int> = Seq::empty();
    proof {
        lemma_view_nodes(siblings@);
        lemma_view_nodes(all@);
        assert(pv.subrange(0, 0) =~= Seq::<NodeModel>::empty());
        assert(leaves_seq(Seq::<NodeModel>::empty()) == Seq::<LeafView>::empty());
        assert(view_nodes(all@) =~= Seq::<NodeModel>::empty());
    }
    let mut s: usize = 0;
    while s < siblings.len()
        invariant
            s <= siblings@.len(),
            pv == view_nodes(siblings@),
            pv.len() == siblings@.len(),
            forall|t: int| 0 <= t < pv.len() ==> #[trigger] pv[t] == siblings@[t]@,
            ok == siblings_ok(pv, h),
            fg == (ok && crate::cover::all_faithful(pv)),
            ok ==> h1 == h - 1,
            ok ==> {
                let av = view_nodes(all@);
                &&& own.len() == av.len()
                &&& forall|x: int| 0 <= x < av.len() ==> {
                    &&& good_child(#[trigger] av[x], h1)
                    &&& child_facts(av[x])
                    &&& av[x].hkey.len() <= 255
                    &&& 0 <= own[x] < s
                    &&& leaves_within(av[x].leaves(), pv[own[x]].leaves())
                }
                &&& separated(av)
                &&& leaves_seq(av) == leaves_seq(pv.subrange(0, s as int))
            },
            fg ==> crate::cover::all_faithful(view_nodes(all@)),
        decreases siblings@.len() - s,
    {
        let sib = &siblings[s];
        let ghost p = pv[s as int];
        proof {
            assert(sib@ == p);
            if ok {
                assert(good_child(p, h));
                assert(heights_below(p.state->Internal_0, p.height));
            }
        }
        let mut kids = match sib.fetch_children(store) {
            Ok(kids) => kids,
            Err(e) => return Err(delete_fetch_error(e)),
        };
        let ghost before = all@;
        let ghost kraw = kids@;
        let ghost av0 = view_nodes(before);
        let ghost cs = view_nodes(kraw);
        proof {
            lemma_view_nodes(kraw);
            lemma_view_nodes(before);
        }
        all.append(&mut kids);
        proof {
            assert(all@ == before + kraw);
            crate::node::lemma_view_nodes_concat(before, kraw);
            let av = view_nodes(all@);
            assert(av == av0 + cs);
            if fg {
                crate::merge::lemma_raw_append(before, kraw);
                assert(crate::faithful::faithful(p));
                assert forall|t: int| 0 <= t < cs.len() implies crate::faithful::faithful(#[trigger] cs[t]) by {}
            }
            if ok {
                assert(cs == children_of(p));
                assert(p.leaves() == leaves_seq(cs));
                assert forall|k: int| 0 <= k < cs.len() implies child_facts(#[trigger] cs[k]) && good_child(cs[k], h1) by {
                    lemma_valid_leaves(cs[k]);
                }
                lemma_valid_leaves(p);
                let own2 = own + Seq::new(cs.len(), |k: int| s as int);
                assert forall|x: int| 0 <= x < av.len() implies {
                    &&& good_child(#[trigger] av[x], h1)
                    &&& child_facts(av[x])
                    &&& av[x].hkey.len() <= 255
                    &&& 0 <= own2[x] < s + 1
                    &&& leaves_within(av[x].leaves(), pv[own2[x]].leaves())
                } by {
                    if x < av0.len() {
                        assert(av[x] == av0[x]);
                        assert(own2[x] == own[x]);
                    } else {
                        assert(av[x] == cs[x - av0.len()]);
                        assert(own2[x] == s);
                        lemma_child_leaves_within(cs, x - av0.len());
                    }
                }
                assert forall|x: int, y: int| 0 <= x < av.len() && 0 <= y < av.len() && x != y implies sep(#[trigger] av[x], #[trigger] av[y]) by {
                    if x < av0.len() && y < av0.len() {
                        assert(av[x] == av0[x] && av[y] == av0[y]);
                    } else if x >= av0.len() && y >= av0.len() {
                        assert(av[x] == cs[x - av0.len()] && av[y] == cs[y - av0.len()]);
                    } else if x < av0.len() {
                        let o = own[x];
                        assert(av[x] == av0[x]);
                        assert(av[y] == cs[y - av0.len()]);
                        lemma_child_leaves_within(cs, y - av0.len());
                        lemma_valid_leaves(pv[o]);
                        assert(sep(pv[o], p));
                        lemma_cross_sep(pv[o], p, av[x], av[y]);
                    } else {
                        let o = own[y];
                        assert(av[y] == av0[y]);
                        assert(av[x] == cs[x - av0.len()]);
                        lemma_child_leaves_within(cs, x - av0.len());
                        lemma_valid_leaves(pv[o]);
                        assert(sep(p, pv[o]));
                        lemma_cross_sep(p, pv[o], av[x], av[y]);
                    }
                }
                lemma_leaves_seq_concat(av0, cs);
                assert(pv.subrange(0, s + 1) =~= pv.subrange(0, s as int).push(p));
                lemma_leaves_seq_push(pv.subrange(0, s as int), p);
                own = own2;
            }
        }
        s += 1;
    }
    let ghost av = view_nodes(all@);
    proof {
        assert(pv.subrange(0, pv.len() as int) =~= pv);
        lemma_view_nodes(all@);
        if ok {
            assert(pv[0] == siblings@[0]@);
            assert(good_child(pv[0], h));
            assert(av.len() > 0) by {
                lemma_valid_leaves(pv[0]);
                crate::lemmas::lemma_child_leaves_within(pv, 0);
                assert(leaves_seq(pv).len() > 0) by {
                    assert(pv[0].leaves().len() > 0);
                    assert(leaves_seq(pv).contains(pv[0].leaves()[0]));
                }
                if av.len() == 0 {
                    assert(av =~= Seq::<NodeModel>::empty());
                    assert(leaves_seq(Seq::<NodeModel>::empty()) == Seq::<LeafView>::empty());
                }
            }
            assert(same_height(av)) by {
                assert forall|t: int| 0 <= t < av.len() implies (#[trigger] av[t]).height == av[0].height by {
                    assert(good_child(av[t], h1));
                    assert(good_child(av[0], h1));
                }
            }
            assert(hkeys_fit(av));
            assert(av[0].height == h1);
        }
    }
    let res = HtreeNode::from_children(all, store);
    proof {
        if ok && res is Ok {
            let n = res->Ok_0;
            assert(crate::construct::sorted_parent_of(n@, av));
            crate::lemmas::lemma_parent_valid(n@, av, h1);
            assert(n@.hkey.len() <= crate::store::MAX_COMPACT_HKEY);
            if fg {
                assert(crate::split::faithful_siblings(av, h1)) by {
                    assert forall|t: int| 0 <= t < av.len() implies crate::faithful::faithful(#[trigger] av[t])
                        && !av[t].is_empty() && av[t].height == h1 by {
                        assert(good_child(av[t], h1));
                    }
                }
                crate::split::lemma_parent_faithful(n@, av, h1);
            }
        }
    }
    match res {
        Ok(n) => Ok(n),
        Err(e) => Err(delete_build_error(e)),
    }
}

impl HtreeNode {
    /// Removes the leaves whose keys are among `keys` and gives the tree that remains
    /// (the empty node if nothing does). Duplicate keys and keys that are not present are
    /// ignored, so deleting the same keys twice is the same as deleting them once.
    /// Internal nodes are rebuilt at their height; untouched subtrees are shared. Where the
    /// rebuilt root splits into several siblings (it had more than `MAX_CHILDREN`
    /// children), their children are gathered under one node of its height, so no leaf
    /// that was not deleted is lost.
    pub fn delete_many(&self, keys: &[u128], store: &InMemoryStore) -> (r: Result<HtreeNode, HtreeNodeDeleteManyError>)
        ensures
            keys@.len() == 0 ==> (r matches Ok(n) && n@ == self@),
            keys@.len() > 0 && self@.height == crate::LEAF_HEIGHT ==> (r matches Ok(n) && n@ == (
                if keys@.contains(self@.key) { empty_model() } else { self@ })),
            self@.valid() ==> delete_spec(self@, keys@.to_set(), r),
            self@.valid() && crate::faithful::faithful(self@) ==> (r matches Ok(n) ==> crate::faithful::faithful(n@)),
    {
        if keys.len() == 0 {
            proof {
                if self@.valid() {
                    lemma_valid_leaves(self@);
                    lemma_within_refl(self@.leaves());
                    lemma_without_none(self@.leaves(), keys@.to_set());
                }
            }
            return Ok(self.copy());
        }
        let sorted = sort_dedup(keys);
        let ghost ks = keys@.to_set();
        proof {
            assert(key_range(sorted@, 0, sorted@.len() as int) =~= ks) by {
                assert forall|k: u128| key_range(sorted@, 0, sorted@.len() as int).contains(k) <==> ks.contains(k) by {
                    if ks.contains(k) {
                        assert(sorted@.to_set().contains(k));
                        assert(sorted@.contains(k));
                    }
                    if key_range(sorted@, 0, sorted@.len() as int).contains(k) {
                        let q = choose|q: int| 0 <= q < sorted@.len() && sorted@[q] == k;
                        assert(sorted@.contains(k));
                        assert(sorted@.to_set().contains(k));
                    }
                }
            }
        }
        if self.is_leaf() {
            let found = contains_sorted(&sorted, 0, sorted.len(), self.key);
            proof {
                assert(keys@.contains(self@.key) == ks.contains(self@.key));
                if self@.valid() {
                    lemma_without_delete_leaf(self@, ks);
                }
            }
            if found {
                return Ok(Self::default_node());
            }
            return Ok(self.copy());
        }
        let siblings = match self.delete_leaves_recursive(&sorted, 0, sorted.len(), store) {
            Ok(siblings) => siblings,
            Err(e) => return Err(e),
        };
        proof {
            lemma_view_nodes(siblings@);
        }
        if siblings.len() == 0 {
            proof {
                if self@.valid() {
                    assert(view_nodes(siblings@) =~= Seq::<NodeModel>::empty());
                    assert(leaves_seq(Seq::<NodeModel>::empty()) == Seq::<LeafView>::empty());
                    crate::model::lemma_empty_to_multiset(Seq::<LeafView>::empty());
                    assert(empty_model().leaves() == Seq::<LeafView>::empty());
                }
            }
            return Ok(Self::default_node());
        }
        if siblings.len() > 1 {
            let ghost ps = view_nodes(siblings@);
            proof {
                if self@.valid() {
                    assert(siblings_ok(ps, self@.height));
                    if crate::faithful::faithful(self@) {
                        assert(crate::cover::all_faithful(ps));
                    }
                }
            }
            let res = join_siblings(siblings, store, Ghost(self@.height));
            proof {
                if self@.valid() && res is Ok {
                    let n = res->Ok_0;
                    crate::construct::lemma_perm_contains(n@.leaves(), leaves_seq(ps));
                    assert forall|i: int| 0 <= i < n@.leaves().len() implies self@.leaves().contains(#[trigger] n@.leaves()[i]) by {
                        assert(leaves_seq(ps).contains(n@.leaves()[i]));
                    }
                }
            }
            return res;
        }
        let first = siblings[0].copy();
        proof {
            if self@.valid() {
                let ps = view_nodes(siblings@);
                assert(ps[0] == first@);
                assert(good_child(ps[0], self@.height));
                if crate::faithful::faithful(self@) {
                    assert(crate::faithful::faithful(ps[0]));
                }
                lemma_child_leaves_within(ps, 0);
                lemma_within_trans(first@.leaves(), leaves_seq(ps), self@.leaves());
                assert(ps =~= seq![first@]);
                crate::model::lemma_leaves_seq_single(first@);
            }
        }
        Ok(first)
    }

    /// Removes the leaf with key `key`, if there is one; see `delete_many`.
    pub fn delete_one(&self, key: u128, store: &InMemoryStore) -> (r: Result<HtreeNode, HtreeNodeDeleteOneError>)
        ensures
            self@.height == crate::LEAF_HEIGHT ==> (r matches Ok(n) && n@ == (
                if self@.key == key { empty_model() } else { self@ })),
            self@.valid() ==> match r {
                Ok(n) => delete_spec(self@, set![key], Ok(n)),
                Err(e) => e is Store,
            },
            self@.valid() && crate::faithful::faithful(self@) ==> (r matches Ok(n) ==> crate::faithful::faithful(n@)),
    {
        let keys: Vec<u128> = vec![key];
        proof {
            assert(keys@ =~= seq![key]);
            assert(keys@[0] == key);
            assert(keys@.to_set() =~= set![key]) by {
                assert forall|k: u128| keys@.to_set().contains(k) <==> k == key by {
                    if keys@.contains(k) {
                        let q = choose|q: int| 0 <= q < keys@.len() && keys@[q] == k;
                    }
                }
            }
            assert(keys@.contains(self@.key) == (self@.key == key));
        }
        match self.delete_many(keys.as_slice(), store) {
            Ok(n) => Ok(n),
            Err(HtreeNodeDeleteManyError::Store(e)) => Err(HtreeNodeDeleteOneError::Store(e)),
            Err(e) => Err(HtreeNodeDeleteOneError::DeleteMany(e)),
        }
    }
}

/// Deleting from a leaf: the leaf stays when its key is not deleted, and nothing stays
/// when it is.
proof fn lemma_without_delete_leaf(m: NodeModel, ks: Set<u128>)
    requires
        m.valid(),
        m.height == 0,
    ensures
        ks.contains(m.key) ==> without_keys(m.leaves(), ks).to_multiset() == empty_model().leaves().to_multiset(),
        !ks.contains(m.key) ==> without_keys(m.leaves(), ks) == m.leaves(),
{
    assert(empty_model().leaves() == Seq::<LeafView>::empty());
    crate::model::lemma_empty_to_multiset(Seq::<LeafView>::empty());
    if m.is_empty() {
        assert(m.leaves() == Seq::<LeafView>::empty());
        assert(without_keys(Seq::<LeafView>::empty(), ks) == Seq::<LeafView>::empty());
    } else {
        let ls = m.leaves();
        assert(ls == seq![(m.key, m.hkey)]);
        assert(ls.drop_last() =~= Seq::<LeafView>::empty());
        assert(without_keys(Seq::<LeafView>::empty(), ks) == Seq::<LeafView>::empty());
        if !ks.contains(m.key) {
            assert(Seq::<LeafView>::empty().push(ls.last()) =~= ls);
        }
    }
}

/// Deleting is idempotent: deleting the same keys again from the result of a deletion
/// leaves the same leaves.
pub proof fn law_delete_many_idempotent(t: HtreeNode, keys: Seq<u128>, once: HtreeNode, twice: HtreeNode)
    requires
        t@.valid(),
        delete_spec(t@, keys.to_set(), Ok(once)),
        delete_spec(once@, keys.to_set(), Ok(twice)),
    ensures
        twice@.leaves().to_multiset() == once@.leaves().to_multiset(),
{
    let ks = keys.to_set();
    lemma_without_perm(once@.leaves(), without_keys(t@.leaves(), ks), ks);
    lemma_without_twice(t@.leaves(), ks);
}

/// After a deletion, a leaf is in the tree exactly when it was there before and its key
/// was not deleted.
pub proof fn law_delete_many_members(t: HtreeNode, keys: Seq<u128>, r: HtreeNode, l: LeafView)
    requires
        t@.valid(),
        delete_spec(t@, keys.to_set(), Ok(r)),
    ensures
        r@.leaves().contains(l) <==> (t@.leaves().contains(l) && !keys.contains(l.0)),
{
    let ks = keys.to_set();
    lemma_without_count(t@.leaves(), ks, l);
    vstd::seq_lib::to_multiset_contains(r@.leaves(), l);
    vstd::seq_lib::to_multiset_contains(t@.leaves(), l);
    assert(keys.contains(l.0) == ks.contains(l.0));
}

} // verus!
