use vstd::prelude::*;

use ps_hkey::{HkeyFromCompactError, InMemoryStore, InMemoryStoreError};

use crate::codec::HtreeNodeUnpackChildrenError;
use crate::construct::{children_of, sorted_parent_of, HtreeNodeFromChildrenError};
use crate::fetch::{lemma_fetch_heights, HtreeNodeFetchChildrenError};
use crate::keys::{lemma_without_all, lemma_without_concat, lemma_without_none, lemma_without_within, without_keys};
use crate::lemmas::{good_child, leaves_within};
use crate::model::{child_facts, leaves_seq, lemma_leaves_seq_push, lemma_valid_leaves, LeafView, NodeModel, StateModel};
use crate::node::{lemma_view_nodes, lemma_view_nodes_push, view_nodes, HtreeNode};
use crate::retain::{lemma_kept_separated, lemma_orig_grows};

verus! {

broadcast use vstd::multiset::group_multiset_axioms;

/// Every node of the subtree that has children holds them in memory: none is waiting to
/// be read from the store.
pub open spec fn materialized(m: NodeModel) -> bool
    decreases m,
{
    &&& m.height > 0 ==> !(m.state is Wrapped)
    &&& match m.state {
        StateModel::Internal(cs) => forall|i: int| 0 <= i < cs.len() ==> materialized(#[trigger] cs[i]),
        _ => true,
    }
}

pub proof fn lemma_within_refl(ls: Seq<LeafView>)
    ensures
        leaves_within(ls, ls),
{
}

/// Every leaf of each node of `ns` is in `ls`, so every leaf of all of them is.
pub proof fn lemma_seq_within(ns: Seq<NodeModel>, ls: Seq<LeafView>)
    requires
        forall|t: int| 0 <= t < ns.len() ==> leaves_within((#[trigger] ns[t]).leaves(), ls),
    ensures
        leaves_within(leaves_seq(ns), ls),
{
    assert forall|p: int| 0 <= p < leaves_seq(ns).len() implies ls.contains(#[trigger] leaves_seq(ns)[p]) by {
        crate::lemmas::lemma_leaves_seq_member(ns, p);
        let (j, q) = choose|j: int, q: int| 0 <= j < ns.len() && 0 <= q < ns[j].leaves().len() && leaves_seq(ns)[p] == #[trigger] ns[j].leaves()[q];
        assert(leaves_within(ns[j].leaves(), ls));
    }
}

/// A node's leaves lie within the leaves of the sequence it belongs to.
pub proof fn lemma_member_within(ns: Seq<NodeModel>, t: int, ls: Seq<LeafView>)
    requires
        0 <= t < ns.len(),
        leaves_within(leaves_seq(ns), ls),
    ensures
        leaves_within(ns[t].leaves(), ls),
{
    crate::lemmas::lemma_child_leaves_within(ns, t);
    assert forall|q: int| 0 <= q < ns[t].leaves().len() implies ls.contains(#[trigger] ns[t].leaves()[q]) by {
        assert(leaves_seq(ns).contains(ns[t].leaves()[q]));
        let p = choose|p: int| 0 <= p < leaves_seq(ns).len() && leaves_seq(ns)[p] == ns[t].leaves()[q];
    }
}

pub proof fn lemma_within_trans(a: Seq<LeafView>, b: Seq<LeafView>, c: Seq<LeafView>)
    requires
        leaves_within(a, b),
        leaves_within(b, c),
    ensures
        leaves_within(a, c),
{
    assert forall|i: int| 0 <= i < a.len() implies c.contains(#[trigger] a[i]) by {
        let k = choose|k: int| 0 <= k < b.len() && b[k] == a[i];
        assert(c.contains(b[k]));
    }
}

/// The children fetched from a node held in memory are its own: held in memory too, and
/// their leaves are its leaves.
pub proof fn lemma_fetch_materialized(m: NodeModel, v: Vec<HtreeNode>)
    requires
        materialized(m),
        crate::fetch::fetch_result(m, Ok::<Vec<HtreeNode>, crate::fetch::HtreeNodeFetchChildrenError>(v)),
    ensures
        forall|t: int| 0 <= t < v@.len() ==> materialized(#[trigger] view_nodes(v@)[t]),
        leaves_within(leaves_seq(view_nodes(v@)), m.leaves()),
{
    lemma_view_nodes(v@);
    if m.height == 0 || v@.len() == 0 {
        assert(view_nodes(v@) =~= Seq::<NodeModel>::empty());
        assert(leaves_seq(Seq::<NodeModel>::empty()) == Seq::<LeafView>::empty());
    } else {
        if let StateModel::Internal(cs) = m.state {
            assert(view_nodes(v@) == cs);
            assert(m.leaves() == leaves_seq(cs));
        }
    }
}

/// Parents over nodes held in memory are held in memory, and their leaves are the
/// nodes' leaves.
pub proof fn lemma_parent_materialized(n: NodeModel, input: Seq<NodeModel>)
    requires
        sorted_parent_of(n, input),
        input.len() > 0,
        forall|i: int| 0 <= i < input.len() ==> materialized(#[trigger] input[i]) && input[i].height < 255,
    ensures
        materialized(n),
        leaves_within(n.leaves(), leaves_seq(input)),
{
    let cs = children_of(n);
    crate::construct::lemma_perm_contains(cs, input);
    assert forall|i: int| 0 <= i < cs.len() implies materialized(#[trigger] cs[i]) by {
        assert(input.contains(cs[i]));
    }
    crate::lemmas::lemma_perm_leaves(cs, input);
    crate::construct::lemma_perm_contains(leaves_seq(cs), leaves_seq(input));
    assert(cs.len() > 0);
    assert(input.contains(cs[0]));
    assert(n.height >= 1);
    assert(n.leaves() == leaves_seq(cs));
}

/// Every node is held in memory.
pub open spec fn all_materialized(ns: Seq<NodeModel>) -> bool {
    forall|t: int| 0 <= t < ns.len() ==> materialized(#[trigger] ns[t])
}

/// Every node's leaves are among `ls`.
pub open spec fn all_within(ns: Seq<NodeModel>, ls: Seq<LeafView>) -> bool {
    forall|t: int| 0 <= t < ns.len() ==> leaves_within((#[trigger] ns[t]).leaves(), ls)
}

/// Parents over nodes held in memory whose leaves are among `ls` are such nodes too.
pub proof fn lemma_parents_within(ps: Seq<NodeModel>, input: Seq<NodeModel>, ls: Seq<LeafView>)
    requires
        crate::construct::parents_of(ps, input),
        forall|i: int| 0 <= i < input.len() ==> (#[trigger] input[i]).height < 255,
        all_materialized(input),
        all_within(input, ls),
    ensures
        all_materialized(ps),
        all_within(ps, ls),
{
    let gs = ps.map_values(|p: NodeModel| children_of(p));
    let f = crate::group::flatten(gs);
    crate::construct::lemma_perm_contains(f, input);
    assert forall|t: int| 0 <= t < ps.len() implies materialized(#[trigger] ps[t]) && leaves_within(ps[t].leaves(), ls) by {
        let cs = children_of(ps[t]);
        assert(gs[t] == cs);
        crate::construct::lemma_group_members(gs, t);
        assert forall|i: int| 0 <= i < cs.len() implies materialized(#[trigger] cs[i]) && leaves_within(cs[i].leaves(), ls) && cs[i].height < 255 by {
            assert(f.contains(gs[t][i]));
            let k = choose|k: int| 0 <= k < f.len() && f[k] == gs[t][i];
            assert(input.contains(f[k]));
        }
        assert(cs.len() > 0);
        assert(ps[t].height >= 1);
        assert(ps[t].leaves() == leaves_seq(cs));
        lemma_seq_within(cs, ls);
    }
}

/// The keys outside the half-open range from `lo` (inclusive, none: unbounded) up to `hi`
/// (exclusive, none: unbounded).
pub open spec fn outside_part(lo: Option<u128>, hi: Option<u128>) -> Set<u128> {
    Set::new(|k: u128| (lo matches Some(l) && k < l) || (hi matches Some(h) && k >= h))
}

/// The leaves of `ls` whose keys lie in the half-open range from `lo` up to `hi`.
pub open spec fn part_leaves(ls: Seq<LeafView>, lo: Option<u128>, hi: Option<u128>) -> Seq<LeafView> {
    without_keys(ls, outside_part(lo, hi))
}

/// Whether `k` lies in the half-open range from `lo` up to `hi`.
fn in_part(k: u128, lo: Option<u128>, hi: Option<u128>) -> (r: bool)
    ensures
        r == !outside_part(lo, hi).contains(k),
{
    let above = match lo {
        Some(l) => k >= l,
        None => true,
    };
    let below = match hi {
        Some(h) => k < h,
        None => true,
    };
    above && below
}

/// Why a node could not be split.
#[derive(Debug)]
pub enum HtreeNodeSplitManyError {
    /// A node's state is internally corrupted.
    CorruptedState,
    /// Rebuilding a node failed for a reason other than the store.
    FromChildren(HtreeNodeFromChildrenError),
    /// A node's hkey does not describe a reference.
    Hkey(HkeyFromCompactError),
    /// The reference is to a list of parts, which is not read.
    ListReference,
    /// The store failed.
    Store(InMemoryStoreError),
    /// A node's stored children could not be read.
    UnpackChildren(HtreeNodeUnpackChildrenError),
}

fn split_fetch_error(e: HtreeNodeFetchChildrenError) -> (r: HtreeNodeSplitManyError)
    ensures
        match e {
            HtreeNodeFetchChildrenError::CorruptedState => r == HtreeNodeSplitManyError::CorruptedState,
            HtreeNodeFetchChildrenError::Hkey(x) => r == HtreeNodeSplitManyError::Hkey(x),
            HtreeNodeFetchChildrenError::ListReference => r == HtreeNodeSplitManyError::ListReference,
            HtreeNodeFetchChildrenError::Store(x) => r == HtreeNodeSplitManyError::Store(x),
            HtreeNodeFetchChildrenError::UnpackChildren(x) => r == HtreeNodeSplitManyError::UnpackChildren(x),
        },
{
    match e {
        HtreeNodeFetchChildrenError::CorruptedState => HtreeNodeSplitManyError::CorruptedState,
        HtreeNodeFetchChildrenError::Hkey(e) => HtreeNodeSplitManyError::Hkey(e),
        HtreeNodeFetchChildrenError::ListReference => HtreeNodeSplitManyError::ListReference,
        HtreeNodeFetchChildrenError::Store(e) => HtreeNodeSplitManyError::Store(e),
        HtreeNodeFetchChildrenError::UnpackChildren(e) => HtreeNodeSplitManyError::UnpackChildren(e),
    }
}

fn split_build_error(e: HtreeNodeFromChildrenError) -> (r: HtreeNodeSplitManyError)
    ensures
        match e {
            HtreeNodeFromChildrenError::Store(x) => r == HtreeNodeSplitManyError::Store(x),
            _ => r == HtreeNodeSplitManyError::FromChildren(e),
        },
{
    match e {
        HtreeNodeFromChildrenError::Store(e) => HtreeNodeSplitManyError::Store(e),
        e => HtreeNodeSplitManyError::FromChildren(e),
    }
}

/// What cutting the valid node `m` down to the range gives: nothing when none of its
/// leaves lies in it, else a valid node of the same height holding those leaves, and `m`
/// itself when all of them do.
pub open spec fn part_spec(m: NodeModel, lo: Option<u128>, hi: Option<u128>, r: Result<(Option<HtreeNode>, bool), HtreeNodeSplitManyError>) -> bool {
    match r {
        Ok((None, _)) => part_leaves(m.leaves(), lo, hi) == Seq::<LeafView>::empty(),
        Ok((Some(n), same)) => {
            &&& n@.valid()
            &&& n@.height == m.height
            &&& n@.nonempty_at_key()
            &&& n@.hkey.len() <= 255 || n@ == m
            &&& n@.leaves().to_multiset() == part_leaves(m.leaves(), lo, hi).to_multiset()
            &&& same ==> n@ == m
        },
        Err(e) => e is Store,
    }
}

/// What cutting a faithful node `m` down to the range gives: nothing when none of its
/// leaves lies in it, else a faithful node of the same height, internal unless it is a
/// leaf, holding those leaves; `m` itself when all of them do.
pub open spec fn fpart_spec(m: NodeModel, lo: Option<u128>, hi: Option<u128>, r: Result<(Option<HtreeNode>, bool), HtreeNodeSplitManyError>) -> bool {
    match r {
        Ok((None, _)) => part_leaves(m.leaves(), lo, hi) == Seq::<LeafView>::empty(),
        Ok((Some(n), same)) => {
            &&& crate::faithful::faithful(n@)
            &&& n@.height == m.height
            &&& !n@.is_empty()
            &&& (n@.height > 0 ==> n@.state is Internal)
            &&& n@.hkey.len() <= 255 || n@ == m
            &&& n@.leaves().to_multiset() == part_leaves(m.leaves(), lo, hi).to_multiset()
            &&& same ==> n@ == m
        },
        Err(e) => e is Store,
    }
}

/// The nodes are faithful non-empty siblings of height `h`, internal unless leaves, whose
/// hkeys fit a length byte.
pub open spec fn faithful_siblings(kv: Seq<NodeModel>, h: u8) -> bool {
    forall|t: int| 0 <= t < kv.len() ==> {
        &&& crate::faithful::faithful(#[trigger] kv[t])
        &&& kv[t].height == h
        &&& !kv[t].is_empty()
        &&& kv[t].hkey.len() <= 255
        &&& (h > 0 ==> kv[t].state is Internal)
    }
}

/// A parent built over faithful siblings is faithful and holds their leaves.
pub proof fn lemma_parent_faithful(n: NodeModel, kv: Seq<NodeModel>, h: u8)
    requires
        sorted_parent_of(n, kv),
        kv.len() > 0,
        h < 255,
        faithful_siblings(kv, h),
    ensures
        crate::faithful::faithful(n),
        n.height == h + 1,
        n.state is Internal,
        !n.is_empty(),
        n.leaves().to_multiset() == leaves_seq(kv).to_multiset(),
{
    let cs = children_of(n);
    crate::construct::lemma_perm_contains(cs, kv);
    assert forall|i: int| 0 <= i < cs.len() implies {
        &&& (#[trigger] cs[i]).height + 1 == n.height
        &&& !cs[i].is_empty()
        &&& cs[i].hkey.len() <= 255
        &&& (cs[i].height > 0 ==> cs[i].state is Internal)
        &&& crate::faithful::faithful(cs[i])
    } by {
        assert(kv.contains(cs[i]));
    }
    assert(cs.len() > 0);
    assert(kv.contains(cs[0]));
    crate::lemmas::lemma_perm_leaves(cs, kv);
}

/// The state of cutting down the children `cs` of a faithful node after the first `i`.
pub open spec fn fpart_inv(cs: Seq<NodeModel>, kv: Seq<NodeModel>, lo: Option<u128>, hi: Option<u128>, i: int, h1: u8, same: bool) -> bool {
    &&& 0 <= i <= cs.len()
    &&& faithful_siblings(cs, h1)
    &&& faithful_siblings(kv, h1)
    &&& leaves_seq(kv).to_multiset() == part_leaves(leaves_seq(cs.subrange(0, i)), lo, hi).to_multiset()
    &&& same ==> kv == cs.subrange(0, i)
}

/// The state of cutting down the children `cs` of the valid node `m` after the first `i`.
pub open spec fn part_inv(m: NodeModel, cs: Seq<NodeModel>, kv: Seq<NodeModel>, orig: Seq<int>, lo: Option<u128>, hi: Option<u128>, i: int, h1: u8, same: bool) -> bool {
    &&& cs == children_of(m)
    &&& 0 <= i <= cs.len()
    &&& forall|k: int| 0 <= k < cs.len() ==> good_child(#[trigger] cs[k], h1) && child_facts(cs[k]) && cs[k].hkey.len() <= 255
    &&& crate::model::separated(cs)
    &&& kv.len() == orig.len()
    &&& forall|t: int| 0 <= t < kv.len() ==> {
        &&& 0 <= #[trigger] orig[t] < i
        &&& good_child(kv[t], h1)
        &&& child_facts(kv[t])
        &&& kv[t].hkey.len() <= 255
        &&& leaves_within(kv[t].leaves(), cs[orig[t]].leaves())
    }
    &&& forall|t: int, u: int| 0 <= t < u < kv.len() ==> orig[t] < orig[u]
    &&& leaves_seq(kv).to_multiset() == part_leaves(leaves_seq(cs.subrange(0, i)), lo, hi).to_multiset()
    &&& same ==> kv == cs.subrange(0, i)
}

/// Keeping `n` for child `i` of a faithful node.
proof fn lemma_fpart_keep(cs: Seq<NodeModel>, kv: Seq<NodeModel>, lo: Option<u128>, hi: Option<u128>, i: int, h1: u8, same: bool, n: NodeModel, child_same: bool)
    requires
        fpart_inv(cs, kv, lo, hi, i, h1, same),
        i < cs.len(),
        crate::faithful::faithful(n),
        n.height == cs[i].height,
        !n.is_empty(),
        n.height > 0 ==> n.state is Internal,
        n.hkey.len() <= 255 || n == cs[i],
        n.leaves().to_multiset() == part_leaves(cs[i].leaves(), lo, hi).to_multiset(),
        child_same ==> n == cs[i],
    ensures
        fpart_inv(cs, kv.push(n), lo, hi, i + 1, h1, same && child_same),
{
    let ks = outside_part(lo, hi);
    let c = cs[i];
    let pre = leaves_seq(cs.subrange(0, i));
    assert(cs.subrange(0, i + 1) =~= cs.subrange(0, i).push(c));
    lemma_leaves_seq_push(cs.subrange(0, i), c);
    lemma_without_concat(pre, c.leaves(), ks);
    vstd::seq_lib::lemma_multiset_commutative(without_keys(pre, ks), without_keys(c.leaves(), ks));
    crate::model::lemma_leaves_seq_push(kv, n);
    vstd::seq_lib::lemma_multiset_commutative(leaves_seq(kv), n.leaves());
    let kv2 = kv.push(n);
    assert forall|t: int| 0 <= t < kv2.len() implies {
        &&& crate::faithful::faithful(#[trigger] kv2[t])
        &&& kv2[t].height == h1
        &&& !kv2[t].is_empty()
        &&& kv2[t].hkey.len() <= 255
        &&& (h1 > 0 ==> kv2[t].state is Internal)
    } by {
        if t < kv.len() {
            assert(kv2[t] == kv[t]);
        } else {
            assert(kv2[t] == n);
        }
    }
    if same && child_same {
        assert(kv2 =~= cs.subrange(0, i + 1));
    }
}

/// Dropping child `i` of a faithful node, none of whose leaves lies in the range.
proof fn lemma_fpart_drop(cs: Seq<NodeModel>, kv: Seq<NodeModel>, lo: Option<u128>, hi: Option<u128>, i: int, h1: u8, same: bool)
    requires
        fpart_inv(cs, kv, lo, hi, i, h1, same),
        i < cs.len(),
        part_leaves(cs[i].leaves(), lo, hi) == Seq::<LeafView>::empty(),
    ensures
        fpart_inv(cs, kv, lo, hi, i + 1, h1, false),
{
    let ks = outside_part(lo, hi);
    let c = cs[i];
    let pre = leaves_seq(cs.subrange(0, i));
    assert(cs.subrange(0, i + 1) =~= cs.subrange(0, i).push(c));
    lemma_leaves_seq_push(cs.subrange(0, i), c);
    lemma_without_concat(pre, c.leaves(), ks);
    assert(without_keys(pre, ks) + Seq::<LeafView>::empty() =~= without_keys(pre, ks));
}

/// When every child of a faithful node was handled: what the kept nodes give.
proof fn lemma_fpart_end(m: NodeModel, cs: Seq<NodeModel>, kv: Seq<NodeModel>, lo: Option<u128>, hi: Option<u128>, h1: u8, same: bool)
    requires
        crate::faithful::faithful(m),
        m.height == h1 + 1,
        cs == children_of(m),
        fpart_inv(cs, kv, lo, hi, cs.len() as int, h1, same),
    ensures
        m.leaves() == leaves_seq(cs),
        leaves_seq(kv).to_multiset() == part_leaves(m.leaves(), lo, hi).to_multiset(),
        kv.len() == 0 ==> part_leaves(m.leaves(), lo, hi) == Seq::<LeafView>::empty(),
        kv.len() > 0 && same ==> kv == cs && m.state is Internal && !m.is_empty()
            && m.leaves().to_multiset() == part_leaves(m.leaves(), lo, hi).to_multiset(),
{
    assert(cs.subrange(0, cs.len() as int) =~= cs);
    if m.state is Internal {
        assert(m.leaves() == leaves_seq(cs));
    } else {
        assert(cs.len() == 0);
        assert(leaves_seq(cs) == Seq::<LeafView>::empty());
    }
    if kv.len() == 0 {
        assert(leaves_seq(kv) == Seq::<LeafView>::empty()) by {
            assert(kv =~= Seq::<NodeModel>::empty());
        }
        crate::model::lemma_empty_to_multiset(Seq::<LeafView>::empty());
        vstd::seq_lib::to_multiset_len(part_leaves(m.leaves(), lo, hi));
        assert(part_leaves(m.leaves(), lo, hi) =~= Seq::<LeafView>::empty());
    }
}

impl HtreeNode {
    /// Cuts this node down to the leaves whose keys lie in the half-open range from `lo`
    /// up to `hi`, rebuilding the nodes that lose leaves and reusing those that keep all.
    /// Returns the node that holds what remains (`None` when nothing does), and whether
    /// it is this node unchanged.
    #[verifier::rlimit(50)]
    fn split_range(&self, lo: Option<u128>, hi: Option<u128>, store: &InMemoryStore) -> (r: Result<(Option<HtreeNode>, bool), HtreeNodeSplitManyError>)
        ensures
            r matches Ok((Some(n), _)) ==> n@.height == self@.height,
            materialized(self@) ==> (r matches Ok((Some(n), _)) ==> materialized(n@) && leaves_within(n@.leaves(), self@.leaves())),
            self@.valid() ==> part_spec(self@, lo, hi, r),
            crate::faithful::faithful(self@) ==> fpart_spec(self@, lo, hi, r),
        decreases self@.height,
    {
        let ghost m = self@;
        let ghost ks = outside_part(lo, hi);
        if self.is_empty() {
            proof {
                assert(m.leaves() == Seq::<LeafView>::empty());
                assert(without_keys(Seq::<LeafView>::empty(), ks) == Seq::<LeafView>::empty());
            }
            return Ok((None, false));
        }
        if self.is_leaf() {
            let inside = in_part(self.key, lo, hi);
            proof {
                let ls = m.leaves();
                assert(ls == seq![(m.key, m.hkey)]);
                assert(ls[0].0 == m.key);
                if inside {
                    lemma_without_none(ls, ks);
                } else {
                    lemma_without_all(ls, ks);
                }
                if m.valid() {
                    lemma_valid_leaves(m);
                }
            }
            if inside {
                proof {
                    lemma_within_refl(m.leaves());
                }
                return Ok((Some(self.copy()), true));
            }
            return Ok((None, false));
        }
        let children = match self.fetch_children(store) {
            Ok(children) => children,
            Err(e) => {
                proof {
                    if crate::faithful::faithful(m) {
                        assert(crate::fetch::heights_below(m.state->Internal_0, m.height));
                    }
                }
                return Err(split_fetch_error(e));
            },
        };
        let ghost cs = view_nodes(children@);
        let ghost h1 = (m.height - 1) as u8;
        proof {
            lemma_view_nodes(children@);
            lemma_fetch_heights(m, children);
            if materialized(m) {
                lemma_fetch_materialized(m, children);
                assert forall|k: int| 0 <= k < cs.len() implies leaves_within((#[trigger] cs[k]).leaves(), m.leaves()) by {
                    lemma_member_within(cs, k, m.leaves());
                }
            }
            if m.valid() {
                assert(cs == children_of(m));
                assert forall|k: int| 0 <= k < cs.len() implies good_child(#[trigger] cs[k], h1) && child_facts(cs[k]) && cs[k].hkey.len() <= 255 by {
                    lemma_valid_leaves(cs[k]);
                }
            }
            assert(cs.subrange(0, 0) =~= Seq::<NodeModel>::empty());
            assert(leaves_seq(Seq::<NodeModel>::empty()) == Seq::<LeafView>::empty());
            assert(without_keys(Seq::<LeafView>::empty(), ks) == Seq::<LeafView>::empty());
            if crate::faithful::faithful(m) {
                if m.state is Internal {
                    assert(cs == children_of(m));
                } else {
                    assert(cs.len() == 0);
                }
                assert(cs == children_of(m));
                assert forall|t: int| 0 <= t < cs.len() implies (h1 > 0 ==> (#[trigger] cs[t]).state is Internal) by {
                    assert(crate::faithful::faithful(cs[t]));
                }
                assert(faithful_siblings(cs, h1));
            }
        }
        let mut kept: Vec<HtreeNode> = Vec::new();
        let mut same = true;
        let ghost mut orig: Seq<int> = Seq::empty();
        proof {
            lemma_view_nodes(kept@);
            assert(view_nodes(kept@) =~= Seq::<NodeModel>::empty());
        }
        let mut i: usize = 0;
        while i < children.len()
            invariant
                i <= children@.len(),
                cs == view_nodes(children@),
                cs.len() == children@.len(),
                forall|k: int| 0 <= k < cs.len() ==> #[trigger] cs[k] == children@[k]@,
                forall|k: int| 0 <= k < cs.len() ==> (#[trigger] cs[k]).height + 1 == m.height,
                m == self@,
                h1 == m.height - 1,
                ks == outside_part(lo, hi),
                view_nodes(kept@).len() == kept@.len(),
                forall|t: int| 0 <= t < kept@.len() ==> (#[trigger] view_nodes(kept@)[t]).height == h1,
                materialized(m) ==> forall|k: int| 0 <= k < cs.len() ==> materialized(#[trigger] cs[k]) && leaves_within(cs[k].leaves(), m.leaves()),
                materialized(m) ==> forall|t: int| 0 <= t < kept@.len() ==> materialized(#[trigger] view_nodes(kept@)[t])
                    && leaves_within(view_nodes(kept@)[t].leaves(), m.leaves()),
                m.valid() ==> part_inv(m, cs, view_nodes(kept@), orig, lo, hi, i as int, h1, same),
                crate::faithful::faithful(m) ==> cs == children_of(m) && fpart_inv(cs, view_nodes(kept@), lo, hi, i as int, h1, same),
            decreases children@.len() - i,
        {
            let ghost kv = view_nodes(kept@);
            let ghost c = cs[i as int];
            let res = children[i].split_range(lo, hi, store);
            let (out, child_same) = match res {
                Ok(pair) => pair,
                Err(e) => {
                    proof {
                        if crate::faithful::faithful(m) {
                            assert(crate::faithful::faithful(c));
                        }
                    }
                    return Err(e);
                },
            };
            proof {
                if crate::faithful::faithful(m) {
                    assert(crate::faithful::faithful(c));
                    assert(fpart_spec(c, lo, hi, Ok::<(Option<HtreeNode>, bool), HtreeNodeSplitManyError>((out, child_same))));
                    if out is Some {
                        lemma_fpart_keep(cs, kv, lo, hi, i as int, h1, same, out->Some_0@, child_same);
                    } else {
                        lemma_fpart_drop(cs, kv, lo, hi, i as int, h1, same);
                    }
                }
            }
            proof {
                if m.valid() {
                    assert(c.valid());
                    assert(part_spec(c, lo, hi, Ok::<(Option<HtreeNode>, bool), HtreeNodeSplitManyError>((out, child_same))));
                    let pre = leaves_seq(cs.subrange(0, i as int));
                    assert(cs.subrange(0, i + 1) =~= cs.subrange(0, i as int).push(c));
                    lemma_leaves_seq_push(cs.subrange(0, i as int), c);
                    lemma_without_concat(pre, c.leaves(), ks);
                    vstd::seq_lib::lemma_multiset_commutative(without_keys(pre, ks), without_keys(c.leaves(), ks));
                }
            }
            match out {
                Some(n) => {
                    proof {
                        lemma_view_nodes_push(kept@, n);
                        if m.valid() {
                            lemma_valid_leaves(n@);
                            lemma_without_within(c.leaves(), ks);
                            assert(leaves_within(n@.leaves(), c.leaves())) by {
                                crate::construct::lemma_perm_contains(n@.leaves(), without_keys(c.leaves(), ks));
                                assert forall|x: int| 0 <= x < n@.leaves().len() implies c.leaves().contains(#[trigger] n@.leaves()[x]) by {
                                    assert(without_keys(c.leaves(), ks).contains(n@.leaves()[x]));
                                    let y = choose|y: int| 0 <= y < without_keys(c.leaves(), ks).len() && without_keys(c.leaves(), ks)[y] == n@.leaves()[x];
                                    assert(c.leaves().contains(without_keys(c.leaves(), ks)[y]));
                                }
                            }
                            if child_same {
                                assert(n@ == c);
                            }
                        }
                    }
                    proof {
                        if materialized(m) {
                            assert(materialized(c));
                            lemma_within_trans(n@.leaves(), c.leaves(), m.leaves());
                        }
                    }
                    kept.push(n);
                    proof {
                        assert(view_nodes(kept@) == kv.push(n@));
                        if materialized(m) {
                            assert forall|t: int| 0 <= t < kept@.len() implies materialized(#[trigger] view_nodes(kept@)[t])
                                && leaves_within(view_nodes(kept@)[t].leaves(), m.leaves()) by {
                                if t < kv.len() {
                                    assert(view_nodes(kept@)[t] == kv[t]);
                                }
                            }
                        }
                        assert forall|t: int| 0 <= t < kept@.len() implies (#[trigger] view_nodes(kept@)[t]).height == h1 by {
                            if t < kv.len() {
                                assert(view_nodes(kept@)[t] == kv[t]);
                            }
                        }
                        if m.valid() {
                            let kv2 = view_nodes(kept@);
                            assert(kv2 == kv.push(n@));
                            crate::model::lemma_leaves_seq_push(kv, n@);
                            vstd::seq_lib::lemma_multiset_commutative(leaves_seq(kv), n@.leaves());
                            orig = orig.push(i as int);
                            assert forall|t: int| 0 <= t < kv2.len() implies {
                                &&& 0 <= #[trigger] orig[t] < i + 1
                                &&& good_child(kv2[t], h1)
                                &&& child_facts(kv2[t])
                                &&& kv2[t].hkey.len() <= 255
                                &&& leaves_within(kv2[t].leaves(), cs[orig[t]].leaves())
                            } by {
                                if t < kv.len() {
                                    assert(kv2[t] == kv[t]);
                                } else {
                                    assert(kv2[t] == n@);
                                    assert(orig[t] == i);
                                }
                            }
                            if same && child_same {
                                assert(kv2 =~= cs.subrange(0, i + 1));
                            }
                        }
                    }
                    same = same && child_same;
                },
                None => {
                    proof {
                        if m.valid() {
                            assert(without_keys(leaves_seq(cs.subrange(0, i as int)), ks) + Seq::<LeafView>::empty()
                                =~= without_keys(leaves_seq(cs.subrange(0, i as int)), ks));
                            assert(c.leaves().len() > 0);
                        }
                    }
                    same = false;
                },
            }
            i += 1;
        }
        let ghost kv = view_nodes(kept@);
        proof {
            if m.valid() {
                assert(cs.subrange(0, cs.len() as int) =~= cs);
                assert(m.leaves() == leaves_seq(cs));
            }
            if crate::faithful::faithful(m) {
                lemma_fpart_end(m, cs, kv, lo, hi, h1, same);
            }
        }
        if kept.len() == 0 {
            proof {
                if m.valid() {
                    assert(kv =~= Seq::<NodeModel>::empty());
                    assert(leaves_seq(kv) == Seq::<LeafView>::empty());
                    crate::model::lemma_empty_to_multiset(Seq::<LeafView>::empty());
                    vstd::seq_lib::to_multiset_len(part_leaves(m.leaves(), lo, hi));
                    assert(part_leaves(m.leaves(), lo, hi) =~= Seq::<LeafView>::empty());
                }
            }
            return Ok((None, false));
        }
        if same {
            proof {
                lemma_within_refl(m.leaves());
                if m.valid() {
                    assert(kv == cs);
                    lemma_valid_leaves(m);
                }
            }
            return Ok((Some(self.copy()), true));
        }
        let res = Self::from_children(kept, store);
        proof {
            if crate::faithful::faithful(m) {
                assert(crate::construct::same_height(kv)) by {
                    assert forall|t: int| 0 <= t < kv.len() implies (#[trigger] kv[t]).height == kv[0].height by {}
                }
                assert(crate::model::hkeys_fit(kv));
                assert(kv[0].height == h1);
            }
            if res is Ok {
                let n = res->Ok_0;
                assert(crate::construct::same_height(kv)) by {
                    assert forall|t: int| 0 <= t < kv.len() implies (#[trigger] kv[t]).height == kv[0].height by {}
                }
                if kv[0].height != 255 && crate::model::hkeys_fit(kv) {
                    assert(sorted_parent_of(n@, kv));
                    if crate::faithful::faithful(m) {
                        lemma_parent_faithful(n@, kv, h1);
                        assert(n@.hkey.len() <= crate::store::MAX_COMPACT_HKEY);
                    }
                    crate::construct::lemma_perm_contains(children_of(n@), kv);
                    assert(kv.contains(children_of(n@)[0]));
                    if materialized(m) {
                        assert forall|t: int| 0 <= t < kv.len() implies materialized(#[trigger] kv[t]) && kv[t].height < 255 by {}
                        lemma_parent_materialized(n@, kv);
                        assert forall|t: int| 0 <= t < kv.len() implies leaves_within((#[trigger] kv[t]).leaves(), m.leaves()) by {}
                        lemma_seq_within(kv, m.leaves());
                        lemma_within_trans(n@.leaves(), leaves_seq(kv), m.leaves());
                    }
                }
            }
            if m.valid() {
                assert forall|t: int| 0 <= t < kv.len() implies good_child(#[trigger] kv[t], h1) && kv[t].hkey.len() <= 255
                    && child_facts(kv[t]) by {
                    assert(0 <= orig[t]);
                }
                lemma_kept_separated(cs, kv, orig, h1);
                assert(crate::construct::same_height(kv)) by {
                    assert forall|t: int| 0 <= t < kv.len() implies (#[trigger] kv[t]).height == kv[0].height by {
                        assert(good_child(kv[t], h1));
                        assert(good_child(kv[0], h1));
                    }
                }
                assert(crate::model::hkeys_fit(kv));
                assert(kv[0].height == h1);
                if res is Ok {
                    let n = res->Ok_0;
                    assert(sorted_parent_of(n@, kv));
                    crate::lemmas::lemma_parent_valid(n@, kv, h1);
                    assert(n@.hkey.len() <= crate::store::MAX_COMPACT_HKEY);
                }
            }
        }
        match res {
            Ok(n) => Ok((Some(n), false)),
            Err(e) => Err(split_build_error(e)),
        }
    }
}

/// The lower end of partition `i` for the split keys `keys`: none for the first.
pub open spec fn part_lo(keys: Seq<u128>, i: int) -> Option<u128> {
    if i == 0 { None } else { Some(keys[i - 1]) }
}

/// The upper end of partition `i` for the split keys `keys`: none for the last.
pub open spec fn part_hi(keys: Seq<u128>, i: int) -> Option<u128> {
    if i == keys.len() { None } else { Some(keys[i]) }
}

impl HtreeNode {
    /// Splits this tree at the keys `split_keys`: partition `i` holds the leaves whose keys
    /// lie from split key `i - 1` (inclusive) up to split key `i` (exclusive), the first
    /// and last partitions being open at one end. Each partition is `None` when it holds
    /// no leaf; subtrees that lie wholly in one partition are reused.
    pub fn split_many(&self, split_keys: &[u128], store: &InMemoryStore) -> (r: Result<Vec<Option<HtreeNode>>, HtreeNodeSplitManyError>)
        requires
            split_keys@.len() < usize::MAX,
        ensures
            r matches Ok(v) ==> v@.len() == split_keys@.len() + 1,
            r matches Ok(v) ==> forall|i: int| 0 <= i < v@.len() ==> (#[trigger] v@[i] matches Some(p) ==> p@.height == self@.height),
            materialized(self@) ==> (r matches Ok(v) ==> forall|i: int| 0 <= i < v@.len() ==> (#[trigger] v@[i] matches Some(p)
                ==> materialized(p@) && leaves_within(p@.leaves(), self@.leaves()))),
            self@.valid() ==> match r {
                Ok(v) => forall|i: int| 0 <= i < v@.len() ==> part_spec(self@, part_lo(split_keys@, i), part_hi(split_keys@, i),
                    Ok::<(Option<HtreeNode>, bool), HtreeNodeSplitManyError>((#[trigger] v@[i], false))),
                Err(e) => e is Store,
            },
            crate::faithful::faithful(self@) ==> (r matches Ok(v) ==> forall|i: int| 0 <= i < v@.len() ==> fpart_spec(self@,
                part_lo(split_keys@, i), part_hi(split_keys@, i), Ok::<(Option<HtreeNode>, bool), HtreeNodeSplitManyError>((#[trigger] v@[i], false)))),
            crate::faithful::faithful(self@) ==> (r matches Err(e) ==> e is Store),
    {
        let n = split_keys.len();
        let mut out: Vec<Option<HtreeNode>> = Vec::new();
        let mut i: usize = 0;
        while i <= n
            invariant
                n == split_keys@.len(),
                n < usize::MAX,
                i <= n + 1,
                out@.len() == i,
                forall|t: int| 0 <= t < i ==> (#[trigger] out@[t] matches Some(p) ==> p@.height == self@.height),
                materialized(self@) ==> forall|t: int| 0 <= t < i ==> (#[trigger] out@[t] matches Some(p)
                    ==> materialized(p@) && leaves_within(p@.leaves(), self@.leaves())),
                self@.valid() ==> forall|t: int| 0 <= t < i ==> part_spec(self@, part_lo(split_keys@, t), part_hi(split_keys@, t),
                    Ok::<(Option<HtreeNode>, bool), HtreeNodeSplitManyError>((#[trigger] out@[t], false))),
                crate::faithful::faithful(self@) ==> forall|t: int| 0 <= t < i ==> fpart_spec(self@, part_lo(split_keys@, t), part_hi(split_keys@, t),
                    Ok::<(Option<HtreeNode>, bool), HtreeNodeSplitManyError>((#[trigger] out@[t], false))),
            decreases n + 1 - i,
        {
            let lo = if i == 0 { None } else { Some(split_keys[i - 1]) };
            let hi = if i == n { None } else { Some(split_keys[i]) };
            let part = match self.split_range(lo, hi, store) {
                Ok((part, _)) => part,
                Err(e) => return Err(e),
            };
            proof {
                assert(lo == part_lo(split_keys@, i as int));
                assert(hi == part_hi(split_keys@, i as int));
            }
            out.push(part);
            i += 1;
        }
        Ok(out)
    }
}

impl HtreeNode {
    /// Splits this tree at `key`: the first part holds the leaves whose keys are below
    /// `key`, the second those whose keys are not; a part without leaves is `None`.
    /// Subtrees that lie wholly on one side are reused.
    pub fn split_at(&self, key: u128, store: &InMemoryStore) -> (r: Result<(Option<HtreeNode>, Option<HtreeNode>), HtreeNodeSplitManyError>)
        ensures
            self@.valid() ==> match r {
                Ok((lt, gte)) => {
                    &&& part_spec(self@, None, Some(key), Ok::<(Option<HtreeNode>, bool), HtreeNodeSplitManyError>((lt, false)))
                    &&& part_spec(self@, Some(key), None, Ok::<(Option<HtreeNode>, bool), HtreeNodeSplitManyError>((gte, false)))
                },
                Err(e) => e is Store,
            },
    {
        let lower = match self.split_range(None, Some(key), store) {
            Ok((part, _)) => part,
            Err(e) => return Err(e),
        };
        let upper = match self.split_range(Some(key), None, store) {
            Ok((part, _)) => part,
            Err(e) => return Err(e),
        };
        Ok((lower, upper))
    }
}

} // verus!
