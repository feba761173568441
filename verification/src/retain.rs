use vstd::prelude::*;

use ps_hkey::{HkeyFromCompactError, InMemoryStore, InMemoryStoreError};

use crate::codec::HtreeNodeUnpackChildrenError;
use crate::construct::{children_of, empty_model, parent_result_any_order, sorted_parent_of, HtreeNodeFromChildrenError};
use crate::fetch::{lemma_fetch_heights, HtreeNodeFetchChildrenError};
use crate::keys::bounded;
use crate::lemmas::{good_child, leaves_within, lemma_child_leaves_within, lemma_sep_shrink};
use crate::model::{child_facts, leaves_seq, lemma_leaves_seq_push, lemma_valid_leaves, separated, sep, LeafView, NodeModel, StateModel};
use crate::node::{lemma_view_nodes, lemma_view_nodes_push, view_nodes, HtreeNode};
use crate::store::{is_list_form, load_bytes, value_read, HtreeLoadError, MAX_RAW_VALUE};

verus! {

broadcast use vstd::multiset::group_multiset_axioms;

/// The leaves of `ls` whose flag in `keep` is set, in order.
pub open spec fn masked(ls: Seq<LeafView>, keep: Seq<bool>) -> Seq<LeafView>
    decreases ls.len(),
{
    if ls.len() == 0 || keep.len() == 0 {
        Seq::empty()
    } else {
        let r = masked(ls.drop_last(), keep.drop_last());
        if keep.last() {
            r.push(ls.last())
        } else {
            r
        }
    }
}

/// `predicate` answers `b` for the key of the leaf `l` and a value that reading the
/// leaf's value can give (the inlined value itself, when it is short).
pub open spec fn answered<F: Fn(u128, Vec<u8>) -> bool>(predicate: F, l: LeafView, b: bool) -> bool {
    exists|v: Vec<u8>| value_read(l.1, v@) && #[trigger] predicate.ensures((l.0, v), b)
}

/// Each flag of `keep` is what `predicate` answered for the matching leaf of `ls`.
pub open spec fn decided_by<F: Fn(u128, Vec<u8>) -> bool>(predicate: F, ls: Seq<LeafView>, keep: Seq<bool>) -> bool {
    &&& keep.len() == ls.len()
    &&& forall|i: int| 0 <= i < ls.len() ==> #[trigger] answered(predicate, ls[i], keep[i])
}

/// `out` holds, up to order, the leaves of `ls` that `predicate` kept.
pub open spec fn kept_by<F: Fn(u128, Vec<u8>) -> bool>(predicate: F, ls: Seq<LeafView>, out: Seq<LeafView>) -> bool {
    exists|keep: Seq<bool>| decided_by(predicate, ls, keep) && out.to_multiset() == #[trigger] masked(ls, keep).to_multiset()
}

pub proof fn lemma_masked_concat(a: Seq<LeafView>, ka: Seq<bool>, b: Seq<LeafView>, kb: Seq<bool>)
    requires
        a.len() == ka.len(),
        b.len() == kb.len(),
    ensures
        masked(a + b, ka + kb) == masked(a, ka) + masked(b, kb),
    decreases b.len(),
{
    if b.len() == 0 {
        assert(a + b =~= a);
        assert(ka + kb =~= ka);
        assert(masked(b, kb) == Seq::<LeafView>::empty());
        assert(masked(a, ka) + masked(b, kb) =~= masked(a, ka));
    } else {
        lemma_masked_concat(a, ka, b.drop_last(), kb.drop_last());
        assert((a + b).drop_last() =~= a + b.drop_last());
        assert((ka + kb).drop_last() =~= ka + kb.drop_last());
        assert((a + b).last() == b.last());
        assert((ka + kb).last() == kb.last());
        if kb.last() {
            assert(masked(a + b, ka + kb) =~= masked(a, ka) + masked(b, kb));
        }
    }
}

/// What is kept is part of what was there.
pub proof fn lemma_masked_within(ls: Seq<LeafView>, keep: Seq<bool>)
    requires
        ls.len() == keep.len(),
    ensures
        leaves_within(masked(ls, keep), ls),
    decreases ls.len(),
{
    if ls.len() > 0 {
        lemma_masked_within(ls.drop_last(), keep.drop_last());
        let r = masked(ls.drop_last(), keep.drop_last());
        assert forall|i: int| 0 <= i < masked(ls, keep).len() implies ls.contains(#[trigger] masked(ls, keep)[i]) by {
            if i < r.len() {
                assert(masked(ls, keep)[i] == r[i]);
                assert(ls.drop_last().contains(r[i]));
                let k = choose|k: int| 0 <= k < ls.drop_last().len() && ls.drop_last()[k] == r[i];
                assert(ls[k] == r[i]);
            } else {
                assert(masked(ls, keep)[i] == ls.last());
                assert(ls[ls.len() - 1] == ls.last());
            }
        }
    }
}

pub proof fn lemma_decided_concat<F: Fn(u128, Vec<u8>) -> bool>(p: F, a: Seq<LeafView>, ka: Seq<bool>, b: Seq<LeafView>, kb: Seq<bool>)
    requires
        decided_by(p, a, ka),
        decided_by(p, b, kb),
    ensures
        decided_by(p, a + b, ka + kb),
{
    assert((ka + kb).len() == (a + b).len());
    assert forall|i: int| 0 <= i < (a + b).len() implies #[trigger] answered(p, (a + b)[i], (ka + kb)[i]) by {
        if i < a.len() {
            assert((a + b)[i] == a[i] && (ka + kb)[i] == ka[i]);
            assert(answered(p, a[i], ka[i]));
        } else {
            let j = i - a.len();
            assert((a + b)[i] == b[j] && (ka + kb)[i] == kb[j]);
            assert(answered(p, b[j], kb[j]));
        }
    }
}

/// Why filtering could not be completed.
#[derive(Debug)]
pub enum HtreeNodeRetainError {
    /// A node's state is invalid or corrupted.
    CorruptedState,
    /// Rebuilding a node failed for a reason other than the store.
    FromChildren(HtreeNodeFromChildrenError),
    /// An hkey does not describe a reference.
    Hkey(HkeyFromCompactError),
    /// The reference is to a list of parts, which is not read.
    ListReference,
    /// The store failed.
    Store(InMemoryStoreError),
    /// A node's stored children could not be read.
    UnpackChildren(HtreeNodeUnpackChildrenError),
}

fn retain_fetch_error(e: HtreeNodeFetchChildrenError) -> (r: HtreeNodeRetainError)
    ensures
        match e {
            HtreeNodeFetchChildrenError::CorruptedState => r == HtreeNodeRetainError::CorruptedState,
            HtreeNodeFetchChildrenError::Hkey(x) => r == HtreeNodeRetainError::Hkey(x),
            HtreeNodeFetchChildrenError::ListReference => r == HtreeNodeRetainError::ListReference,
            HtreeNodeFetchChildrenError::Store(x) => r == HtreeNodeRetainError::Store(x),
            HtreeNodeFetchChildrenError::UnpackChildren(x) => r == HtreeNodeRetainError::UnpackChildren(x),
        },
{
    match e {
        HtreeNodeFetchChildrenError::CorruptedState => HtreeNodeRetainError::CorruptedState,
        HtreeNodeFetchChildrenError::Hkey(e) => HtreeNodeRetainError::Hkey(e),
        HtreeNodeFetchChildrenError::ListReference => HtreeNodeRetainError::ListReference,
        HtreeNodeFetchChildrenError::Store(e) => HtreeNodeRetainError::Store(e),
        HtreeNodeFetchChildrenError::UnpackChildren(e) => HtreeNodeRetainError::UnpackChildren(e),
    }
}

fn retain_build_error(e: HtreeNodeFromChildrenError) -> (r: HtreeNodeRetainError)
    ensures
        match e {
            HtreeNodeFromChildrenError::Store(x) => r == HtreeNodeRetainError::Store(x),
            _ => r == HtreeNodeRetainError::FromChildren(e),
        },
{
    match e {
        HtreeNodeFromChildrenError::Store(e) => HtreeNodeRetainError::Store(e),
        e => HtreeNodeRetainError::FromChildren(e),
    }
}

/// `predicate` keeps everything: it answers `true` whenever it answers.
pub open spec fn keeps_all<F: Fn(u128, Vec<u8>) -> bool>(predicate: F) -> bool {
    forall|k: u128, v: Vec<u8>, b: bool| predicate.ensures((k, v), b) ==> b
}

/// Some leaf of `ls` refers to a value that is not inlined into its reference.
pub open spec fn some_filed(ls: Seq<LeafView>) -> bool {
    exists|i: int| 0 <= i < ls.len() && (#[trigger] ls[i]).1.len() > MAX_RAW_VALUE
}

/// Some leaf of `ls` refers to a value filed as a list of parts.
pub open spec fn some_listed(ls: Seq<LeafView>) -> bool {
    exists|i: int| 0 <= i < ls.len() && is_list_form((#[trigger] ls[i]).1)
}

/// Every leaf of `ls` refers to an inlined value.
pub open spec fn all_inline(ls: Seq<LeafView>) -> bool {
    forall|i: int| 0 <= i < ls.len() ==> (#[trigger] ls[i]).1.len() <= MAX_RAW_VALUE
}

/// What reading values can make filtering the leaves `ls` fail with: the store's errors,
/// an unreadable reference only where some value is filed, and a list reference only
/// where some value is filed as a list.
pub open spec fn retain_error(ls: Seq<LeafView>, e: HtreeNodeRetainError) -> bool {
    ||| e is Store
    ||| e is Hkey && some_filed(ls)
    ||| e is ListReference && some_listed(ls)
}

/// The facts above carry over from the leaves of a subtree to all leaves.
proof fn lemma_retain_error_within(a: Seq<LeafView>, b: Seq<LeafView>, e: HtreeNodeRetainError)
    requires
        retain_error(a, e),
        leaves_within(a, b),
    ensures
        retain_error(b, e),
{
    if e is Hkey && some_filed(a) {
        let i = choose|i: int| 0 <= i < a.len() && (#[trigger] a[i]).1.len() > MAX_RAW_VALUE;
        assert(b.contains(a[i]));
        let j = choose|j: int| 0 <= j < b.len() && b[j] == a[i];
        assert(b[j].1.len() > MAX_RAW_VALUE);
    }
    if e is ListReference && some_listed(a) {
        let i = choose|i: int| 0 <= i < a.len() && is_list_form((#[trigger] a[i]).1);
        assert(b.contains(a[i]));
        let j = choose|j: int| 0 <= j < b.len() && b[j] == a[i];
        assert(is_list_form(b[j].1));
    }
}

/// What filtering the valid node `m` gives: nothing when no leaf is kept, else a valid node
/// of the same height that holds the kept leaves, and `m` itself when every leaf is kept
/// untouched.
pub open spec fn retain_spec<F: Fn(u128, Vec<u8>) -> bool>(predicate: F, m: NodeModel, r: Result<(Option<HtreeNode>, bool), HtreeNodeRetainError>) -> bool {
    &&& match r {
        Ok((None, _)) => kept_by(predicate, m.leaves(), Seq::empty()),
        Ok((Some(n), same)) => {
            &&& n@.valid()
            &&& n@.height == m.height
            &&& n@.nonempty_at_key()
            &&& n@.hkey.len() <= 255 || n@ == m
            &&& kept_by(predicate, m.leaves(), n@.leaves())
            &&& same ==> n@ == m
            &&& bounded(m) ==> bounded(n@)
        },
        Err(e) => retain_error(m.leaves(), e),
    }
    &&& (keeps_all(predicate) && !m.is_empty() ==> (r matches Ok((o, same)) ==> o is Some && same))
    &&& (keeps_all(predicate) && !m.is_empty() && all_inline(m.leaves()) ==> r is Ok)
    &&& (m.height == 0 && all_inline(m.leaves()) ==> r is Ok)
}

/// The state of filtering the children `cs` of the valid node `m` after the first `i`:
/// `kv` are the nodes kept so far, `orig` the child each came from, and `keep` the answers
/// for the leaves of the first `i` children.
pub open spec fn retain_inv<F: Fn(u128, Vec<u8>) -> bool>(p: F, m: NodeModel, cs: Seq<NodeModel>, kv: Seq<NodeModel>, orig: Seq<int>, keep: Seq<bool>, i: int, h1: u8, same: bool) -> bool {
    &&& cs == children_of(m)
    &&& 0 <= i <= cs.len()
    &&& forall|k: int| 0 <= k < cs.len() ==> good_child(#[trigger] cs[k], h1) && child_facts(cs[k]) && cs[k].hkey.len() <= 255
    &&& separated(cs)
    &&& kv.len() == orig.len()
    &&& forall|t: int| 0 <= t < kv.len() ==> {
        &&& 0 <= #[trigger] orig[t] < i
        &&& good_child(kv[t], h1)
        &&& child_facts(kv[t])
        &&& kv[t].hkey.len() <= 255
        &&& leaves_within(kv[t].leaves(), cs[orig[t]].leaves())
        &&& (bounded(m) ==> bounded(kv[t]))
    }
    &&& forall|t: int, u: int| 0 <= t < u < kv.len() ==> orig[t] < orig[u]
    &&& decided_by(p, leaves_seq(cs.subrange(0, i)), keep)
    &&& leaves_seq(kv).to_multiset() == masked(leaves_seq(cs.subrange(0, i)), keep).to_multiset()
    &&& same ==> kv == cs.subrange(0, i)
}

/// Nodes cut down from distinct children of a valid node do not interleave.
pub proof fn lemma_kept_separated(cs: Seq<NodeModel>, kv: Seq<NodeModel>, orig: Seq<int>, h1: u8)
    requires
        separated(cs),
        forall|k: int| 0 <= k < cs.len() ==> good_child(#[trigger] cs[k], h1) && child_facts(cs[k]),
        kv.len() == orig.len(),
        forall|t: int| 0 <= t < kv.len() ==> 0 <= #[trigger] orig[t] < cs.len() && child_facts(kv[t])
            && leaves_within(kv[t].leaves(), cs[orig[t]].leaves()),
        forall|t: int, u: int| 0 <= t < u < kv.len() ==> orig[t] < orig[u],
    ensures
        separated(kv),
{
    assert forall|t: int, u: int| 0 <= t < kv.len() && 0 <= u < kv.len() && t != u implies sep(#[trigger] kv[t], #[trigger] kv[u]) by {
        let a = orig[t];
        let b = orig[u];
        if t < u {
            assert(a < b);
        } else {
            assert(b < a);
        }
        assert(sep(cs[a], cs[b]));
        lemma_sep_shrink(cs[a], kv[t], cs[b]);
        lemma_sep_shrink(cs[b], kv[u], kv[t]);
    }
}

impl HtreeNode {
    /// Filters the leaves under this node with `predicate`, which is asked about each
    /// leaf's key and stored value. Returns the node that holds what is kept (`None` when
    /// nothing is), and whether that node is this one unchanged.
    fn retain_inner<F: Fn(u128, Vec<u8>) -> bool>(&self, predicate: &F, store: &InMemoryStore) -> (r: Result<(Option<HtreeNode>, bool), HtreeNodeRetainError>)
        requires
            forall|k: u128, v: Vec<u8>| predicate.requires((k, v)),
        ensures
            self@.valid() ==> retain_spec(*predicate, self@, r),
            self@.valid() && crate::faithful::faithful(self@) ==> (r matches Ok((Some(n), _)) ==> crate::faithful::faithful(n@)),
        decreases self@.height,
    {
        let ghost m = self@;
        let ghost fg = m.valid() && crate::faithful::faithful(m);
        if self.is_empty() {
            proof {
                let e = Seq::<bool>::empty();
                assert(m.leaves() == Seq::<LeafView>::empty());
                assert(decided_by(*predicate, m.leaves(), e));
                assert(masked(m.leaves(), e) == Seq::<LeafView>::empty());
                assert(Seq::<LeafView>::empty().to_multiset() == masked(m.leaves(), e).to_multiset());
                assert(kept_by(*predicate, m.leaves(), Seq::<LeafView>::empty()));
            }
            return Ok((None, false));
        }
        if self.is_leaf() {
            proof {
                assert(m.leaves() == seq![(m.key, m.hkey)]);
                assert(m.leaves()[0].1 == self.hkey@);
            }
            let bytes = match load_bytes(store, self.hkey.as_slice()) {
                Ok(bytes) => bytes,
                Err(HtreeLoadError::Hkey(e)) => return Err(HtreeNodeRetainError::Hkey(e)),
                Err(HtreeLoadError::ListReference) => return Err(HtreeNodeRetainError::ListReference),
                Err(HtreeLoadError::Store(e)) => return Err(HtreeNodeRetainError::Store(e)),
            };
            let ghost gb = bytes;
            let keep = predicate(self.key, bytes);
            proof {
                if m.valid() {
                    let ls = m.leaves();
                    assert(ls == seq![(m.key, m.hkey)]);
                    let ks = seq![keep];
                    assert(predicate.ensures((ls[0].0, gb), ks[0]));
                    assert(value_read(ls[0].1, gb@));
                    assert(answered(*predicate, ls[0], ks[0]));
                    assert(decided_by(*predicate, ls, ks));
                    assert(ls.drop_last() =~= Seq::<LeafView>::empty());
                    assert(ks.drop_last() =~= Seq::<bool>::empty());
                    assert(masked(ls.drop_last(), ks.drop_last()) == Seq::<LeafView>::empty());
                    assert(ks.last() == keep);
                    if keep {
                        assert(masked(ls, ks) =~= ls);
                        assert(decided_by(*predicate, ls, ks) && ls.to_multiset() == masked(ls, ks).to_multiset());
                        assert(kept_by(*predicate, ls, ls));
                    } else {
                        assert(masked(ls, ks) =~= Seq::<LeafView>::empty());
                        assert(decided_by(*predicate, ls, ks) && Seq::<LeafView>::empty().to_multiset() == masked(ls, ks).to_multiset());
                        assert(kept_by(*predicate, ls, Seq::<LeafView>::empty()));
                    }
                    lemma_valid_leaves(m);
                }
            }
            if keep {
                return Ok((Some(self.copy()), true));
            }
            return Ok((None, false));
        }
        let children = match self.fetch_children(store) {
            Ok(children) => children,
            Err(e) => return Err(retain_fetch_error(e)),
        };
        let ghost cs = view_nodes(children@);
        let ghost h1 = (m.height - 1) as u8;
        proof {
            lemma_view_nodes(children@);
            lemma_fetch_heights(m, children);
            if m.valid() {
                assert(cs == children_of(m));
                assert forall|k: int| 0 <= k < cs.len() implies good_child(#[trigger] cs[k], h1) && child_facts(cs[k]) && cs[k].hkey.len() <= 255 by {
                    lemma_valid_leaves(cs[k]);
                }
                assert(cs.subrange(0, 0) =~= Seq::<NodeModel>::empty());
                assert(leaves_seq(Seq::<NodeModel>::empty()) == Seq::<LeafView>::empty());
                assert(masked(Seq::<LeafView>::empty(), Seq::<bool>::empty()) == Seq::<LeafView>::empty());
            }
        }
        let mut kept: Vec<HtreeNode> = Vec::new();
        let mut same = true;
        let ghost mut orig: Seq<int> = Seq::empty();
        let ghost mut keep: Seq<bool> = Seq::empty();
        proof {
            lemma_view_nodes(kept@);
            assert(view_nodes(kept@) =~= Seq::<NodeModel>::empty());
            if fg {
                assert(cs == children_of(m));
                assert forall|k: int| 0 <= k < cs.len() implies crate::faithful::faithful(#[trigger] cs[k]) by {
                    assert(m.state is Internal);
                }
            }
        }
        let mut i: usize = 0;
        while i < children.len()
            invariant
                i <= children@.len(),
                cs == view_nodes(children@),
                cs.len() == children@.len(),
                forall|k: int| 0 <= k < cs.len() ==> #[trigger] cs[k] == children@[k]@,
                forall|k: int| 0 <= k < cs.len() ==> (#[trigger] cs[k]).height + 1 == m.height,
                m == self@,
                h1 == m.height - 1,
                forall|k: u128, v: Vec<u8>| predicate.requires((k, v)),
                view_nodes(kept@).len() == kept@.len(),
                m.valid() ==> retain_inv(*predicate, m, cs, view_nodes(kept@), orig, keep, i as int, h1, same),
                m.valid() && keeps_all(*predicate) ==> same,
                fg == (m.valid() && crate::faithful::faithful(m)),
                fg ==> crate::cover::all_faithful(view_nodes(kept@)),
                fg ==> forall|k: int| 0 <= k < cs.len() ==> crate::faithful::faithful(#[trigger] cs[k]),
            decreases children@.len() - i,
        {
            let ghost kv = view_nodes(kept@);
            let ghost c = cs[i as int];
            let res = children[i].retain_inner(predicate, store);
            let (out, child_same) = match res {
                Ok(pair) => pair,
                Err(e) => {
                    proof {
                        if m.valid() {
                            assert(c.valid());
                            assert(retain_spec(*predicate, c, Err::<(Option<HtreeNode>, bool), HtreeNodeRetainError>(e)));
                            assert(cs == children_of(m));
                            assert(m.leaves() == leaves_seq(cs));
                            lemma_child_leaves_within(cs, i as int);
                            lemma_retain_error_within(c.leaves(), m.leaves(), e);
                        }
                    }
                    return Err(e);
                },
            };
            proof {
                if m.valid() {
                    assert(c.valid());
                    assert(retain_spec(*predicate, c, Ok::<(Option<HtreeNode>, bool), HtreeNodeRetainError>((out, child_same))));
                    assert(c.leaves().len() > 0);
                    assert(!c.is_empty());
                }
            }
            let ghost lc = c.leaves();
            let ghost kc: Seq<bool> = if m.valid() {
                choose|kc: Seq<bool>| decided_by(*predicate, lc, kc) && (match out {
                    Some(n) => n@.leaves(),
                    None => Seq::<LeafView>::empty(),
                }).to_multiset() == #[trigger] masked(lc, kc).to_multiset()
            } else {
                Seq::empty()
            };
            proof {
                if m.valid() {
                    let pre = leaves_seq(cs.subrange(0, i as int));
                    assert(cs.subrange(0, i + 1) =~= cs.subrange(0, i as int).push(c));
                    lemma_leaves_seq_push(cs.subrange(0, i as int), c);
                    lemma_decided_concat(*predicate, pre, keep, lc, kc);
                    lemma_masked_concat(pre, keep, lc, kc);
                    vstd::seq_lib::lemma_multiset_commutative(masked(pre, keep), masked(lc, kc));
                }
            }
            match out {
                Some(n) => {
                    proof {
                        lemma_view_nodes_push(kept@, n);
                        crate::merge::lemma_raw_push(kept@, n);
                        if m.valid() {
                            lemma_valid_leaves(n@);
                            crate::retain::lemma_masked_within(lc, kc);
                            assert(leaves_within(n@.leaves(), lc)) by {
                                crate::construct::lemma_perm_contains(n@.leaves(), masked(lc, kc));
                                assert forall|x: int| 0 <= x < n@.leaves().len() implies lc.contains(#[trigger] n@.leaves()[x]) by {
                                    assert(masked(lc, kc).contains(n@.leaves()[x]));
                                    let y = choose|y: int| 0 <= y < masked(lc, kc).len() && masked(lc, kc)[y] == n@.leaves()[x];
                                    assert(lc.contains(masked(lc, kc)[y]));
                                }
                            }
                            if child_same {
                                assert(n@ == c);
                            }
                        }
                    }
                    kept.push(n);
                    proof {
                        if m.valid() {
                            let kv2 = view_nodes(kept@);
                            assert(kv2 == kv.push(n@));
                            crate::model::lemma_leaves_seq_push(kv, n@);
                            vstd::seq_lib::lemma_multiset_commutative(leaves_seq(kv), n@.leaves());
                            orig = orig.push(i as int);
                            keep = keep + kc;
                            assert forall|t: int| 0 <= t < kv2.len() implies {
                                &&& 0 <= #[trigger] orig[t] < i + 1
                                &&& good_child(kv2[t], h1)
                                &&& child_facts(kv2[t])
                                &&& kv2[t].hkey.len() <= 255
                                &&& leaves_within(kv2[t].leaves(), cs[orig[t]].leaves())
                                &&& (bounded(m) ==> bounded(kv2[t]))
                            } by {
                                if t < kv.len() {
                                    assert(kv2[t] == kv[t]);
                                } else {
                                    assert(kv2[t] == n@);
                                    assert(orig[t] == i);
                                    if bounded(m) {
                                        assert(bounded(c));
                                    }
                                }
                            }
                            if same && child_same {
                                assert(kv2 =~= cs.subrange(0, i + 1));
                            }
                        }
                    }
                    same = same && child_same;
                },
                None => {
                    proof {
                        if m.valid() {
                            keep = keep + kc;
                            assert(masked(lc, kc).to_multiset() =~= Seq::<LeafView>::empty().to_multiset());
                            crate::model::lemma_empty_to_multiset(Seq::<LeafView>::empty());
                            assert(masked(lc, kc).len() == 0) by {
                                vstd::seq_lib::to_multiset_len(masked(lc, kc));
                            }
                            assert(masked(lc, kc) =~= Seq::<LeafView>::empty());
                            assert(masked(leaves_seq(cs.subrange(0, i as int)), keep.subrange(0, keep.len() - kc.len())) + masked(lc, kc)
                                =~= masked(leaves_seq(cs.subrange(0, i as int)), keep.subrange(0, keep.len() - kc.len())));
                            assert(lc.len() > 0);
                        }
                    }
                    same = false;
                },
            }
            i += 1;
        }
        let ghost kv = view_nodes(kept@);
        proof {
            if m.valid() {
                assert(cs.subrange(0, cs.len() as int) =~= cs);
                assert(m.leaves() == leaves_seq(cs));
            }
        }
        if kept.len() == 0 {
            proof {
                if m.valid() {
                    assert(kv =~= Seq::<NodeModel>::empty());
                    assert(leaves_seq(kv) == Seq::<LeafView>::empty());
                    assert(Seq::<LeafView>::empty().to_multiset() == masked(m.leaves(), keep).to_multiset());
                    assert(decided_by(*predicate, m.leaves(), keep));
                    assert(kept_by(*predicate, m.leaves(), Seq::<LeafView>::empty()));
                }
            }
            return Ok((None, false));
        }
        if same {
            proof {
                if m.valid() {
                    assert(kv == cs);
                    lemma_valid_leaves(m);
                    assert(m.leaves().to_multiset() == masked(m.leaves(), keep).to_multiset());
                    assert(decided_by(*predicate, m.leaves(), keep));
                    assert(kept_by(*predicate, m.leaves(), m.leaves()));
                }
            }
            return Ok((Some(self.copy()), true));
        }
        let res = Self::from_children(kept, store);
        proof {
            if m.valid() {
                assert forall|t: int| 0 <= t < kv.len() implies good_child(#[trigger] kv[t], h1) && kv[t].hkey.len() <= 255
                    && (bounded(m) ==> bounded(kv[t])) && child_facts(kv[t]) by {
                    assert(0 <= orig[t]);
                }
                lemma_kept_separated(cs, kv, orig, h1);
                assert(crate::construct::same_height(kv)) by {
                    assert forall|t: int| 0 <= t < kv.len() implies (#[trigger] kv[t]).height == kv[0].height by {
                        assert(good_child(kv[t], h1));
                        assert(good_child(kv[0], h1));
                    }
                }
                assert(crate::model::hkeys_fit(kv)) by {
                    assert forall|t: int| 0 <= t < kv.len() implies (#[trigger] kv[t]).hkey.len() <= 255 by {
                        assert(kv[t].hkey.len() <= 255);
                    }
                }
                assert(kv[0].height == h1);
                if res is Ok {
                    let n = res->Ok_0;
                    assert(sorted_parent_of(n@, kv));
                    crate::lemmas::lemma_parent_valid(n@, kv, h1);
                    if fg {
                        assert(crate::split::faithful_siblings(kv, h1)) by {
                            assert forall|t: int| 0 <= t < kv.len() implies crate::faithful::faithful(#[trigger] kv[t])
                                && !kv[t].is_empty() && kv[t].height == h1 by {
                                assert(good_child(kv[t], h1));
                            }
                        }
                        crate::split::lemma_parent_faithful(n@, kv, h1);
                    }
                    assert(n@.hkey.len() <= crate::store::MAX_COMPACT_HKEY);
                    if bounded(m) {
                        assert(kv.len() <= cs.len()) by {
                            assert forall|t: int| 0 <= t < kv.len() implies t <= #[trigger] orig[t] by {
                                lemma_orig_grows(orig, t);
                            }
                            if kv.len() > cs.len() {
                                assert(orig[kv.len() - 1] >= kv.len() - 1);
                            }
                        }
                        crate::delete::lemma_bounded_parent(n@, kv);
                    }
                }
            }
        }
        match res {
            Ok(n) => Ok((Some(n), false)),
            Err(e) => Err(retain_build_error(e)),
        }
    }

    /// Keeps the leaves for which `predicate`, given the leaf's key and its stored value,
    /// answers `true`, and drops the others. Subtrees whose leaves are all kept are reused;
    /// a tree from which nothing is kept gives the empty tree.
    pub fn retain<F: Fn(u128, Vec<u8>) -> bool>(&self, predicate: F, store: &InMemoryStore) -> (r: Result<HtreeNode, HtreeNodeRetainError>)
        requires
            forall|k: u128, v: Vec<u8>| predicate.requires((k, v)),
        ensures
            self@.valid() ==> match r {
                Ok(n) => {
                    &&& n@.valid()
                    &&& n@ == empty_model() || n@.height == self@.height
                    &&& kept_by(predicate, self@.leaves(), n@.leaves())
                    &&& bounded(self@) ==> bounded(n@)
                },
                Err(e) => retain_error(self@.leaves(), e),
            },
            self@.valid() && keeps_all(predicate) && !self@.is_empty() ==> (r matches Ok(n) ==> n@ == self@),
            self@.valid() && keeps_all(predicate) && !self@.is_empty() && all_inline(self@.leaves()) ==> r is Ok,
            self@.valid() && self@.height == 0 && all_inline(self@.leaves()) ==> r is Ok,
            self@.valid() && crate::faithful::faithful(self@) ==> (r matches Ok(n) ==> crate::faithful::faithful(n@)),
    {
        match self.retain_inner(&predicate, store) {
            Ok((Some(n), _)) => Ok(n),
            Ok((None, _)) => {
                proof {
                    assert(empty_model().leaves() == Seq::<LeafView>::empty());
                }
                Ok(Self::default_node())
            },
            Err(e) => Err(e),
        }
    }
}

/// Strictly increasing indices are at least their positions.
pub proof fn lemma_orig_grows(orig: Seq<int>, t: int)
    requires
        0 <= t < orig.len(),
        forall|a: int| 0 <= a < orig.len() ==> 0 <= #[trigger] orig[a],
        forall|a: int, b: int| 0 <= a < b < orig.len() ==> orig[a] < orig[b],
    ensures
        t <= orig[t],
    decreases t,
{
    if t > 0 {
        lemma_orig_grows(orig, t - 1);
    }
}

} // verus!
