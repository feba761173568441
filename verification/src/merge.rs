use vstd::prelude::*;

use std::collections::VecDeque;

use ps_hkey::{HkeyFromCompactError, InMemoryStore, InMemoryStoreError};

use crate::codec::HtreeNodeUnpackChildrenError;
use crate::construct::{bytes_equal, children_of, parents_of, parents_result, HtreeNodeFromChildrenError};
use crate::fetch::{heights_below, lemma_fetch_heights, HtreeNodeFetchChildrenError};
use crate::model::NodeModel;
use crate::node::{copy_bytes, lemma_view_nodes, lemma_view_nodes_concat, lemma_view_nodes_push, view_nodes, HtreeNode};
use crate::lemmas::leaves_within;
use crate::model::{leaves_seq, LeafView};
use crate::cover::{
    all_faithful, faithful_nodes, in_part, keyset, lemma_keyset_concat, lemma_keyset_member, lemma_keyset_owner,
    lemma_keyset_push, lemma_part_key, lemma_some_part, covered_by, lemma_covered_grow, lemma_witnesses_closed,
    witness_done, witness_ok,
};
use crate::faithful::{faithful, references_distinct};
use crate::insert::key_set;
use crate::split::{
    all_materialized, all_within, lemma_fetch_materialized, lemma_member_within, lemma_parents_within, lemma_seq_within,
    lemma_within_refl, lemma_within_trans, materialized, HtreeNodeSplitManyError, fpart_spec, part_lo, part_hi,
};

verus! {

/// The greatest height among `ns` (zero when there are none).
pub open spec fn max_height(ns: Seq<NodeModel>) -> nat
    decreases ns.len(),
{
    if ns.len() == 0 {
        0
    } else {
        let m = max_height(ns.drop_last());
        if ns.last().height > m {
            ns.last().height as nat
        } else {
            m
        }
    }
}

/// The greatest height that merging `ns` can give: that of the tallest node, and at
/// least one.
pub open spec fn merged_height(ns: Seq<NodeModel>) -> nat {
    if max_height(ns) == 0 {
        1
    } else {
        max_height(ns)
    }
}

pub proof fn lemma_max_height(ns: Seq<NodeModel>)
    ensures
        forall|t: int| 0 <= t < ns.len() ==> (#[trigger] ns[t]).height <= max_height(ns),
        ns.len() > 0 ==> exists|t: int| 0 <= t < ns.len() && (#[trigger] ns[t]).height == max_height(ns),
    decreases ns.len(),
{
    if ns.len() > 0 {
        let d = ns.drop_last();
        lemma_max_height(d);
        assert forall|t: int| 0 <= t < ns.len() implies (#[trigger] ns[t]).height <= max_height(ns) by {
            if t < d.len() {
                assert(ns[t] == d[t]);
            }
        }
        if ns.last().height > max_height(d) {
            assert(ns[ns.len() - 1].height == max_height(ns));
        } else if d.len() > 0 {
            let t = choose|t: int| 0 <= t < d.len() && (#[trigger] d[t]).height == max_height(d);
            assert(ns[t] == d[t]);
        } else {
            assert(ns[0].height == 0);
        }
    }
}

/// Nodes that are all at most `k` high have a greatest height of at most `k`.
pub proof fn lemma_max_height_bound(ns: Seq<NodeModel>, k: nat)
    requires
        forall|t: int| 0 <= t < ns.len() ==> (#[trigger] ns[t]).height <= k,
    ensures
        max_height(ns) <= k,
{
    lemma_max_height(ns);
    if ns.len() > 0 {
        let t = choose|t: int| 0 <= t < ns.len() && (#[trigger] ns[t]).height == max_height(ns);
    }
}

/// What a node of height `h` weighs in the queue of nodes still to visit: more than all
/// the children that one node can have, one level lower.
pub open spec fn level_weight(h: nat) -> nat
    decreases h,
{
    if h == 0 {
        1
    } else {
        0x1_0000_0000_0000_0000 * level_weight((h - 1) as nat)
    }
}

/// The weight of the nodes still to visit.
pub open spec fn queue_weight(q: Seq<HtreeNode>) -> nat
    decreases q.len(),
{
    if q.len() == 0 {
        0
    } else {
        level_weight(q[0].height as nat) + queue_weight(q.subrange(1, q.len() as int))
    }
}

pub proof fn lemma_queue_weight_push(q: Seq<HtreeNode>, x: HtreeNode)
    ensures
        queue_weight(q.push(x)) == queue_weight(q) + level_weight(x.height as nat),
    decreases q.len(),
{
    if q.len() == 0 {
        assert(q.push(x).subrange(1, 1) =~= Seq::<HtreeNode>::empty());
        assert(queue_weight(Seq::<HtreeNode>::empty()) == 0);
        assert(q.push(x)[0] == x);
        assert(queue_weight(q.push(x)) == level_weight(x.height as nat) + queue_weight(q.push(x).subrange(1, 1)));
    } else {
        let rest = q.subrange(1, q.len() as int);
        lemma_queue_weight_push(rest, x);
        assert(q.push(x).subrange(1, q.len() + 1 as int) =~= rest.push(x));
        assert(q.push(x)[0] == q[0]);
    }
}

pub proof fn lemma_level_weight_positive(h: nat)
    ensures
        level_weight(h) >= 1,
    decreases h,
{
    if h > 0 {
        lemma_level_weight_positive((h - 1) as nat);
    }
}

/// Up to `usize::MAX` nodes one level lower weigh less than one node.
pub proof fn lemma_children_lighter(h: nat, k: nat)
    requires
        h >= 1,
        k <= usize::MAX,
    ensures
        k * level_weight((h - 1) as nat) + level_weight((h - 1) as nat) <= level_weight(h),
{
    let w = level_weight((h - 1) as nat);
    assert(level_weight(h) == 0x1_0000_0000_0000_0000 * w);
    assert(k * w + w <= 0x1_0000_0000_0000_0000 * w) by (nonlinear_arith)
        requires
            k <= 0xffff_ffff_ffff_ffff,
            w >= 0,
    ;
}

/// Why trees could not be merged.
#[derive(Debug)]
pub enum HtreeNodeMergeError {
    /// A node's state is internally corrupted.
    CorruptedState,
    /// Rebuilding a node failed for a reason other than the store.
    FromChildren(HtreeNodeFromChildrenError),
    /// A node's hkey does not describe a reference.
    Hkey(HkeyFromCompactError),
    /// The reference is to a list of parts, which is not read.
    ListReference,
    /// The store failed.
    Store(InMemoryStoreError),
    /// A node's stored children could not be read.
    UnpackChildren(HtreeNodeUnpackChildrenError),
}

fn merge_fetch_error(e: HtreeNodeFetchChildrenError) -> (r: HtreeNodeMergeError)
    ensures
        match e {
            HtreeNodeFetchChildrenError::CorruptedState => r == HtreeNodeMergeError::CorruptedState,
            HtreeNodeFetchChildrenError::Hkey(x) => r == HtreeNodeMergeError::Hkey(x),
            HtreeNodeFetchChildrenError::ListReference => r == HtreeNodeMergeError::ListReference,
            HtreeNodeFetchChildrenError::Store(x) => r == HtreeNodeMergeError::Store(x),
            HtreeNodeFetchChildrenError::UnpackChildren(x) => r == HtreeNodeMergeError::UnpackChildren(x),
        },
{
    match e {
        HtreeNodeFetchChildrenError::CorruptedState => HtreeNodeMergeError::CorruptedState,
        HtreeNodeFetchChildrenError::Hkey(e) => HtreeNodeMergeError::Hkey(e),
        HtreeNodeFetchChildrenError::ListReference => HtreeNodeMergeError::ListReference,
        HtreeNodeFetchChildrenError::Store(e) => HtreeNodeMergeError::Store(e),
        HtreeNodeFetchChildrenError::UnpackChildren(e) => HtreeNodeMergeError::UnpackChildren(e),
    }
}

fn merge_build_error(e: HtreeNodeFromChildrenError) -> (r: HtreeNodeMergeError)
    ensures
        match e {
            HtreeNodeFromChildrenError::Store(x) => r == HtreeNodeMergeError::Store(x),
            _ => r == HtreeNodeMergeError::FromChildren(e),
        },
{
    match e {
        HtreeNodeFromChildrenError::Store(e) => HtreeNodeMergeError::Store(e),
        e => HtreeNodeMergeError::FromChildren(e),
    }
}

fn merge_split_error(e: HtreeNodeSplitManyError) -> (r: HtreeNodeMergeError)
    ensures
        match e {
            HtreeNodeSplitManyError::CorruptedState => r == HtreeNodeMergeError::CorruptedState,
            HtreeNodeSplitManyError::FromChildren(x) => match x {
                HtreeNodeFromChildrenError::Store(y) => r == HtreeNodeMergeError::Store(y),
                _ => r == HtreeNodeMergeError::FromChildren(x),
            },
            HtreeNodeSplitManyError::Hkey(x) => r == HtreeNodeMergeError::Hkey(x),
            HtreeNodeSplitManyError::ListReference => r == HtreeNodeMergeError::ListReference,
            HtreeNodeSplitManyError::Store(x) => r == HtreeNodeMergeError::Store(x),
            HtreeNodeSplitManyError::UnpackChildren(x) => r == HtreeNodeMergeError::UnpackChildren(x),
        },
{
    match e {
        HtreeNodeSplitManyError::CorruptedState => HtreeNodeMergeError::CorruptedState,
        HtreeNodeSplitManyError::FromChildren(e) => merge_build_error(e),
        HtreeNodeSplitManyError::Hkey(e) => HtreeNodeMergeError::Hkey(e),
        HtreeNodeSplitManyError::ListReference => HtreeNodeMergeError::ListReference,
        HtreeNodeSplitManyError::Store(e) => HtreeNodeMergeError::Store(e),
        HtreeNodeSplitManyError::UnpackChildren(e) => HtreeNodeMergeError::UnpackChildren(e),
    }
}

/// Whether `seen` holds `hkey`.
fn seen_contains(seen: &Vec<Vec<u8>>, hkey: &Vec<u8>) -> (r: bool)
    ensures
        r == exists|i: int| 0 <= i < seen@.len() && (#[trigger] seen@[i])@ == hkey@,
{
    let mut i: usize = 0;
    while i < seen.len()
        invariant
            i <= seen@.len(),
            forall|j: int| 0 <= j < i ==> (#[trigger] seen@[j])@ != hkey@,
        decreases seen@.len() - i,
    {
        if bytes_equal(&seen[i], hkey) {
            return true;
        }
        i += 1;
    }
    false
}

/// The index of the first node of `children` whose key is not below `k` (all of them
/// when there is none).
fn first_not_below(children: &Vec<HtreeNode>, k: u128) -> (r: usize)
    ensures
        r <= children@.len(),
        forall|i: int| 0 <= i < r ==> (#[trigger] children@[i]).key < k,
        r < children@.len() ==> children@[r as int].key >= k,
{
    let mut i: usize = 0;
    while i < children.len() && children[i].key < k
        invariant
            i <= children@.len(),
            forall|j: int| 0 <= j < i ==> (#[trigger] children@[j]).key < k,
        decreases children@.len() - i,
    {
        i += 1;
    }
    i
}

/// The index of the last node of the leading run of `children` whose keys do not exceed
/// `k` (for children in key order, the last such node), or zero when the first key exceeds
/// `k`.
fn last_not_above(children: &Vec<HtreeNode>, k: u128) -> (r: usize)
    requires
        children@.len() > 0,
    ensures
        r < children@.len(),
        forall|j: int| 0 <= j < r ==> (#[trigger] children@[j]).key <= k,
        r > 0 ==> children@[r as int].key <= k,
        children@[0].key > k ==> r == 0,
        children@[0].key <= k && r + 1 < children@.len() ==> children@[r + 1].key > k,
{
    let mut i: usize = 0;
    while i < children.len() && children[i].key <= k
        invariant
            i <= children@.len(),
            forall|j: int| 0 <= j < i ==> (#[trigger] children@[j]).key <= k,
        decreases children@.len() - i,
    {
        i += 1;
    }
    if i == 0 { 0 } else { i - 1 }
}

/// The node is held in memory and its leaves are among `ls`.
pub open spec fn sound(x: NodeModel, ls: Seq<LeafView>) -> bool {
    materialized(x) && leaves_within(x.leaves(), ls)
}

/// Every node is held in memory with its leaves among `ls`.
pub open spec fn all_sound(v: Seq<HtreeNode>, ls: Seq<LeafView>) -> bool {
    forall|t: int| 0 <= t < v.len() ==> sound((#[trigger] v[t])@, ls)
}

pub proof fn lemma_all_sound_view(v: Seq<HtreeNode>, ls: Seq<LeafView>)
    requires
        all_sound(v, ls),
    ensures
        all_materialized(view_nodes(v)),
        all_within(view_nodes(v), ls),
        leaves_within(leaves_seq(view_nodes(v)), ls),
{
    lemma_view_nodes(v);
    assert forall|t: int| 0 <= t < view_nodes(v).len() implies materialized(#[trigger] view_nodes(v)[t]) && leaves_within(view_nodes(v)[t].leaves(), ls) by {
        assert(view_nodes(v)[t] == v[t]@);
    }
    lemma_seq_within(view_nodes(v), ls);
}

pub proof fn lemma_view_all_sound(v: Seq<HtreeNode>, ls: Seq<LeafView>)
    requires
        all_materialized(view_nodes(v)),
        leaves_within(leaves_seq(view_nodes(v)), ls),
    ensures
        all_sound(v, ls),
{
    lemma_view_nodes(v);
    assert forall|t: int| 0 <= t < v.len() implies sound((#[trigger] v[t])@, ls) by {
        assert(view_nodes(v)[t] == v[t]@);
        lemma_member_within(view_nodes(v), t, ls);
    }
}

pub proof fn lemma_concat_sound(a: Seq<NodeModel>, b: Seq<NodeModel>, ls: Seq<LeafView>)
    requires
        all_materialized(a),
        all_materialized(b),
        all_within(a, ls),
        all_within(b, ls),
    ensures
        all_materialized(a + b),
        all_within(a + b, ls),
        leaves_within(leaves_seq(a + b), ls),
{
    assert forall|t: int| 0 <= t < (a + b).len() implies materialized(#[trigger] (a + b)[t]) && leaves_within((a + b)[t].leaves(), ls) by {
        if t < a.len() {
            assert((a + b)[t] == a[t]);
        } else {
            assert((a + b)[t] == b[t - a.len()]);
        }
    }
    lemma_seq_within(a + b, ls);
}

/// The keys held by the nodes `v`.
pub open spec fn raw_keys(v: Seq<HtreeNode>) -> Set<u128> {
    keyset(view_nodes(v))
}

/// A faithful internal node that is not empty and whose hkey fits a length byte.
pub open spec fn faithful_node(x: NodeModel) -> bool {
    &&& faithful(x)
    &&& !x.is_empty()
    &&& x.hkey.len() <= 255
    &&& x.state is Internal
}

pub proof fn lemma_raw_push(v: Seq<HtreeNode>, x: HtreeNode)
    ensures
        raw_keys(v.push(x)) == raw_keys(v).union(key_set(x@.leaves())),
        faithful_nodes(view_nodes(v)) && faithful_node(x@) ==> faithful_nodes(view_nodes(v.push(x))),
        all_faithful(view_nodes(v)) && faithful(x@) ==> all_faithful(view_nodes(v.push(x))),
{
    lemma_view_nodes_push(v, x);
    lemma_keyset_push(view_nodes(v), x@);
    lemma_view_nodes(v);
    let w = view_nodes(v.push(x));
    assert forall|t: int| 0 <= t < w.len() implies (faithful_nodes(view_nodes(v)) && faithful_node(x@) ==> faithful_node(#[trigger] w[t]))
        && (all_faithful(view_nodes(v)) && faithful(x@) ==> faithful(w[t])) by {
        if t < v.len() {
            assert(w[t] == view_nodes(v)[t]);
        } else {
            assert(w[t] == x@);
        }
    }
}

pub proof fn lemma_raw_append(a: Seq<HtreeNode>, b: Seq<HtreeNode>)
    ensures
        raw_keys(a + b) == raw_keys(a).union(raw_keys(b)),
        faithful_nodes(view_nodes(a)) && faithful_nodes(view_nodes(b)) ==> faithful_nodes(view_nodes(a + b)),
        all_faithful(view_nodes(a)) && all_faithful(view_nodes(b)) ==> all_faithful(view_nodes(a + b)),
{
    lemma_view_nodes_concat(a, b);
    lemma_keyset_concat(view_nodes(a), view_nodes(b));
    lemma_view_nodes(a);
    lemma_view_nodes(b);
    let w = view_nodes(a + b);
    assert forall|t: int| 0 <= t < w.len() implies (faithful_nodes(view_nodes(a)) && faithful_nodes(view_nodes(b)) ==> faithful_node(#[trigger] w[t]))
        && (all_faithful(view_nodes(a)) && all_faithful(view_nodes(b)) ==> faithful(w[t])) by {
        if t < a.len() {
            assert(w[t] == view_nodes(a)[t]);
        } else {
            assert(w[t] == view_nodes(b)[t - a.len()]);
        }
    }
}

/// The keys of each node are among the keys of all of them, and every key belongs to one.
pub proof fn lemma_raw_member(v: Seq<HtreeNode>, t: int)
    requires
        0 <= t < v.len(),
    ensures
        key_set(v[t]@.leaves()).subset_of(raw_keys(v)),
{
    lemma_view_nodes(v);
    assert(view_nodes(v)[t] == v[t]@);
    lemma_keyset_member(view_nodes(v), t);
}

/// What merging `nodes` into the siblings `children` needs for every key to be kept:
/// distinct references, faithful children and nodes, and nodes above the leaves.
pub open spec fn batch_ready(children: Seq<HtreeNode>, nodes: Seq<HtreeNode>) -> bool {
    &&& references_distinct()
    &&& faithful_nodes(view_nodes(children))
    &&& all_faithful(view_nodes(nodes))
    &&& forall|t: int| 0 <= t < nodes.len() ==> (#[trigger] nodes[t])@.height >= 1
}

/// Parents built over nodes of one height are one level above them.
pub proof fn lemma_parents_one_up(input: Seq<NodeModel>, ps: Vec<HtreeNode>)
    requires
        parents_result(input, Ok::<Vec<HtreeNode>, HtreeNodeFromChildrenError>(ps)),
        input.len() > 0,
    ensures
        forall|t: int| 0 <= t < ps@.len() ==> (#[trigger] view_nodes(ps@)[t]).height == input[0].height + 1,
{
    lemma_view_nodes(ps@);
    assert forall|i: int| 0 <= i < input.len() implies (#[trigger] input[i]).height == input[0].height by {}
    crate::insert::lemma_parents_height(view_nodes(ps@), input, input[0].height);
}

/// The keys gathered so far: those of the kept children, the leaves and the nodes at the
/// children's level.
pub open spec fn gathered(ch: Seq<HtreeNode>, lv: Seq<HtreeNode>, sh: Seq<HtreeNode>) -> Set<u128> {
    raw_keys(ch).union(raw_keys(lv)).union(raw_keys(sh))
}

/// The witnesses stand for the hkeys seen, one for one.
pub open spec fn witnesses_match(seen: Seq<Vec<u8>>, wit: Seq<NodeModel>) -> bool {
    &&& seen.len() == wit.len()
    &&& forall|i: int| 0 <= i < wit.len() ==> (#[trigger] seen[i])@ == wit[i].hkey
}

/// Every witness is a faithful internal node.
pub open spec fn witnesses_faithful(wit: Seq<NodeModel>) -> bool {
    forall|i: int| 0 <= i < wit.len() ==> faithful(#[trigger] wit[i]) && wit[i].state is Internal
}

/// Faithful leaves that are not empty.
pub open spec fn faithful_leaves(v: Seq<HtreeNode>) -> bool {
    forall|t: int| 0 <= t < v.len() ==> faithful((#[trigger] v[t])@) && !v[t]@.is_empty() && v[t]@.height == 0
}

/// Faithful internal nodes.
pub open spec fn faithful_internal(v: Seq<HtreeNode>) -> bool {
    forall|t: int| 0 <= t < v.len() ==> faithful((#[trigger] v[t])@) && v[t]@.state is Internal
}

/// Growing what was gathered and adding witnesses keeps each witness either pending or
/// covered, as long as pending ones stay pending.
pub proof fn lemma_witnesses_grow(wit: Seq<NodeModel>, a: Set<u128>, q: Seq<NodeModel>, wit2: Seq<NodeModel>, a2: Set<u128>, q2: Seq<NodeModel>)
    requires
        forall|i: int| 0 <= i < wit.len() ==> #[trigger] witness_ok(wit, i, a, q),
        wit.len() <= wit2.len(),
        forall|j: int| 0 <= j < wit.len() ==> wit2[j] == wit[j],
        a.subset_of(a2),
        forall|x: NodeModel| q.contains(x) ==> q2.contains(x),
    ensures
        forall|i: int| 0 <= i < wit.len() ==> #[trigger] witness_ok(wit2, i, a2, q2),
{
    assert forall|i: int| 0 <= i < wit.len() implies #[trigger] witness_ok(wit2, i, a2, q2) by {
        assert(witness_ok(wit, i, a, q));
        assert(wit2[i] == wit[i]);
        if !q.contains(wit[i]) {
            assert(witness_done(wit, i, a));
            assert forall|k: u128| #[trigger] key_set(wit2[i].leaves()).contains(k) implies covered_by(k, wit2, wit2[i].height as nat, a2) by {
                assert(covered_by(k, wit, wit[i].height as nat, a));
                lemma_covered_grow(k, wit, wit[i].height as nat, a, wit2, a2);
            }
        }
    }
}

/// The keys of node `x` are covered below `below`.
pub open spec fn node_covered(x: NodeModel, wit: Seq<NodeModel>, below: nat, a: Set<u128>) -> bool {
    forall|k: u128| #[trigger] key_set(x.leaves()).contains(k) ==> covered_by(k, wit, below, a)
}

/// A node whose keys lie in `a` is covered.
proof fn lemma_node_in(x: NodeModel, wit: Seq<NodeModel>, below: nat, a: Set<u128>)
    requires
        key_set(x.leaves()).subset_of(a),
    ensures
        node_covered(x, wit, below, a),
{
}

/// A node with the leaves of witness `j`, lower than `below`, is covered.
proof fn lemma_node_by_witness(x: NodeModel, wit: Seq<NodeModel>, j: int, below: nat, a: Set<u128>)
    requires
        0 <= j < wit.len(),
        wit[j].height < below,
        x.leaves() == wit[j].leaves(),
    ensures
        node_covered(x, wit, below, a),
{
    assert forall|k: u128| #[trigger] key_set(x.leaves()).contains(k) implies covered_by(k, wit, below, a) by {
        assert(key_set(wit[j].leaves()).contains(k));
    }
}

/// Keys covered before stay covered as `a` and the witnesses grow.
proof fn lemma_node_covered_grow(x: NodeModel, wit: Seq<NodeModel>, below: nat, a: Set<u128>, wit2: Seq<NodeModel>, a2: Set<u128>)
    requires
        node_covered(x, wit, below, a),
        wit.len() <= wit2.len(),
        forall|j: int| 0 <= j < wit.len() ==> wit2[j] == wit[j],
        a.subset_of(a2),
    ensures
        node_covered(x, wit2, below, a2),
{
    assert forall|k: u128| #[trigger] key_set(x.leaves()).contains(k) implies covered_by(k, wit2, below, a2) by {
        lemma_covered_grow(k, wit, below, a, wit2, a2);
    }
}

/// The keys of a sequence whose nodes are covered are covered.
proof fn lemma_seq_covered(ns: Seq<NodeModel>, wit: Seq<NodeModel>, below: nat, a: Set<u128>)
    requires
        forall|t: int| 0 <= t < ns.len() ==> #[trigger] node_covered(ns[t], wit, below, a),
    ensures
        forall|k: u128| #[trigger] keyset(ns).contains(k) ==> covered_by(k, wit, below, a),
{
    assert forall|k: u128| #[trigger] keyset(ns).contains(k) implies covered_by(k, wit, below, a) by {
        lemma_keyset_owner(ns, k);
        let t = choose|t: int| 0 <= t < ns.len() && key_set((#[trigger] ns[t]).leaves()).contains(k);
        assert(node_covered(ns[t], wit, below, a));
    }
}

/// Every node's hkey fits a length byte.
pub open spec fn hkeys_short(v: Seq<HtreeNode>) -> bool {
    forall|t: int| 0 <= t < v.len() ==> (#[trigger] v[t])@.hkey.len() <= 255
}

pub proof fn lemma_hkeys_short_push(v: Seq<HtreeNode>, x: HtreeNode)
    requires
        hkeys_short(v),
        x@.hkey.len() <= 255,
    ensures
        hkeys_short(v.push(x)),
{
    assert forall|t: int| 0 <= t < v.push(x).len() implies (#[trigger] v.push(x)[t])@.hkey.len() <= 255 by {
        if t < v.len() {
            assert(v.push(x)[t] == v[t]);
        }
    }
}

/// What `gather` needs for every key to be kept.
pub open spec fn gather_ready(kept: Seq<HtreeNode>, base: NodeModel, children: Seq<HtreeNode>) -> bool {
    &&& references_distinct()
    &&& faithful(base)
    &&& all_faithful(view_nodes(kept))
    &&& all_faithful(view_nodes(children))
    &&& base.height > 0 ==> base.leaves() == leaves_seq(view_nodes(children))
}

/// Takes the trees `kept` apart down to the level of `children` (the base's children):
/// leaves are collected, internal nodes above that level are opened, skipping those whose
/// hkey was already seen (the base, its children, or a node met before), and internal
/// nodes at or below that level are set aside.
#[verifier::rlimit(100)]
fn gather(kept: &Vec<HtreeNode>, base: &HtreeNode, children: &Vec<HtreeNode>, store: &InMemoryStore, Ghost(lv): Ghost<Seq<LeafView>>) -> (r: Result<(Vec<HtreeNode>, Vec<HtreeNode>), HtreeNodeMergeError>)
    requires
        forall|t: int| 0 <= t < kept@.len() ==> (#[trigger] kept@[t])@.height <= base@.height && !kept@[t]@.is_empty(),
        base@.height == 0 ==> children@.len() == 0,
        base@.height > 0 ==> forall|t: int| 0 <= t < children@.len() ==> (#[trigger] children@[t])@.height + 1 == base@.height,
    ensures
        r matches Ok((leaves, shn)) ==> {
            &&& forall|t: int| 0 <= t < leaves@.len() ==> (#[trigger] leaves@[t]).height == 0
            &&& forall|t: int| 0 <= t < shn@.len() ==> 1 <= (#[trigger] shn@[t]).height
                && shn@[t].height <= (if children@.len() > 0 { children@[0].height } else { 0u8 })
        },
        all_sound(kept@, lv) && all_sound(children@, lv) ==> (r matches Ok((leaves, shn)) ==> all_sound(leaves@, lv) && all_sound(shn@, lv)),
        gather_ready(kept@, base@, children@) ==> (r matches Ok((leaves, shn)) ==> {
            &&& faithful_leaves(leaves@)
            &&& faithful_internal(shn@)
            &&& keyset(view_nodes(kept@)).subset_of(gathered(children@, leaves@, shn@))
        }),
        gather_ready(kept@, base@, children@) ==> r is Ok,
        kept@.len() == 1 && kept@[0]@ == base@ ==> (r matches Ok((leaves, shn)) ==> shn@.len() == 0
            && (base@.height == 0 ==> leaves@.len() == 1 && leaves@[0]@ == base@) && (base@.height > 0 ==> leaves@.len() == 0)),
        base@.height == 0 ==> (r matches Ok((leaves, shn)) ==> leaves@.len() == kept@.len()
            && forall|t: int| 0 <= t < kept@.len() ==> (#[trigger] leaves@[t])@ == kept@[t]@),
        gather_ready(kept@, base@, children@) && hkeys_short(kept@) ==> (r matches Ok((leaves, shn))
            ==> hkeys_short(leaves@) && hkeys_short(shn@)),
{
    let ghost h = base@.height;
    let ghost cg = gather_ready(kept@, base@, children@);
    let ghost ck = cg && hkeys_short(kept@);
    let ghost single = kept@.len() == 1 && kept@[0]@ == base@;
    let ghost sd = all_sound(kept@, lv) && all_sound(children@, lv);
    let ghost mut wit: Seq<NodeModel> = Seq::empty();
    let mut seen: Vec<Vec<u8>> = Vec::new();
    let mut leaves: Vec<HtreeNode> = Vec::new();
    let mut same_height_nodes: Vec<HtreeNode> = Vec::new();
    let mut queue: VecDeque<HtreeNode> = VecDeque::new();
    proof {
        lemma_view_nodes(children@);
        lemma_view_nodes(kept@);
    }
    if !base.is_leaf() {
        seen.push(copy_bytes(&base.hkey));
        proof {
            wit = wit.push(base@);
        }
        let mut k: usize = 0;
        while k < children.len()
            invariant
                k <= children@.len(),
                witnesses_match(seen@, wit),
                wit.len() >= 1,
                wit[0] == base@,
                base@.height > 0,
                seen@.len() >= 1 && seen@[0]@ == base@.hkey,
                cg == gather_ready(kept@, base@, children@),
                cg ==> witnesses_faithful(wit),
                cg ==> forall|i: int| 0 <= i < wit.len() ==> key_set((#[trigger] wit[i]).leaves()).subset_of(raw_keys(children@)),
                view_nodes(children@).len() == children@.len(),
                forall|t: int| 0 <= t < children@.len() ==> #[trigger] view_nodes(children@)[t] == children@[t]@,
            decreases children@.len() - k,
        {
            if !children[k].is_leaf() {
                seen.push(copy_bytes(&children[k].hkey));
                proof {
                    let c = children@[k as int]@;
                    lemma_raw_member(children@, k as int);
                    let w2 = wit.push(c);
                    assert forall|i: int| 0 <= i < w2.len() implies (#[trigger] seen@[i])@ == w2[i].hkey by {
                        if i < wit.len() {
                            assert(w2[i] == wit[i]);
                        }
                    }
                    if cg {
                        assert(view_nodes(children@)[k as int] == c);
                        assert(faithful(c));
                        assert forall|i: int| 0 <= i < w2.len() implies key_set((#[trigger] w2[i]).leaves()).subset_of(raw_keys(children@))
                            && faithful(w2[i]) && w2[i].state is Internal by {
                            if i < wit.len() {
                                assert(w2[i] == wit[i]);
                            }
                        }
                    }
                    wit = w2;
                }
            }
            k += 1;
        }
    }
    let ghost a0 = gathered(children@, leaves@, same_height_nodes@);
    proof {
        lemma_view_nodes(leaves@);
        lemma_view_nodes(same_height_nodes@);
        assert(raw_keys(children@).subset_of(a0));
        if cg {
            assert forall|i: int| 0 <= i < wit.len() implies #[trigger] witness_ok(wit, i, a0, view_nodes(queue@)) by {
                assert forall|k: u128| #[trigger] key_set(wit[i].leaves()).contains(k) implies covered_by(k, wit, wit[i].height as nat, a0) by {
                    if base@.height == 0 {
                        assert(wit.len() == 0);
                    } else {
                        assert(key_set(wit[i].leaves()).subset_of(raw_keys(children@)));
                    }
                }
            }
        }
    }
    let mut k: usize = 0;
    while k < kept.len()
        invariant
            k <= kept@.len(),
            forall|t: int| 0 <= t < kept@.len() ==> (#[trigger] kept@[t])@.height <= h && !kept@[t]@.is_empty(),
            forall|t: int| 0 <= t < queue@.len() ==> 1 <= (#[trigger] queue@[t]).height <= h,
            forall|t: int| 0 <= t < leaves@.len() ==> (#[trigger] leaves@[t]).height == 0,
            same_height_nodes@.len() == 0,
            witnesses_match(seen@, wit),
            h == base@.height,
            cg == gather_ready(kept@, base@, children@),
            sd == (all_sound(kept@, lv) && all_sound(children@, lv)),
            sd ==> all_sound(queue@, lv) && all_sound(leaves@, lv),
            cg ==> witnesses_faithful(wit) && faithful_leaves(leaves@) && faithful_internal(queue@),
            cg ==> forall|i: int| 0 <= i < wit.len() ==> #[trigger] witness_ok(wit, i, gathered(children@, leaves@, same_height_nodes@), view_nodes(queue@)),
            cg ==> forall|t: int| 0 <= t < k ==> #[trigger] node_covered(kept@[t]@, wit, 256, gathered(children@, leaves@, same_height_nodes@)),
            ck == (cg && hkeys_short(kept@)),
            ck ==> hkeys_short(leaves@) && hkeys_short(queue@),
            h == 0 ==> leaves@.len() == k,
            h == 0 ==> forall|t: int| 0 <= t < k ==> (#[trigger] leaves@[t])@ == kept@[t]@,
            single == (kept@.len() == 1 && kept@[0]@ == base@),
            base@.height > 0 ==> seen@.len() >= 1 && seen@[0]@ == base@.hkey,
            single ==> queue@.len() == 0 && same_height_nodes@.len() == 0
                && (h == 0 ==> forall|t: int| 0 <= t < k ==> (#[trigger] leaves@[t])@ == kept@[t]@) && (h > 0 ==> leaves@.len() == 0),
            view_nodes(kept@).len() == kept@.len(),
            forall|t: int| 0 <= t < kept@.len() ==> #[trigger] view_nodes(kept@)[t] == kept@[t]@,
        decreases kept@.len() - k,
    {
        let node = kept[k].copy();
        let ghost a = gathered(children@, leaves@, same_height_nodes@);
        let ghost q = view_nodes(queue@);
        let ghost w0 = wit;
        proof {
            if cg {
                assert(view_nodes(kept@)[k as int] == node@);
                assert(faithful(node@));
            }
        }
        if node.is_leaf() {
            let ghost lraw = leaves@;
            proof {
                lemma_raw_push(lraw, node);
                if ck {
                    lemma_hkeys_short_push(lraw, node);
                }
            }
            leaves.push(node);
            proof {
                let a2 = gathered(children@, leaves@, same_height_nodes@);
                assert(a.subset_of(a2));
                if cg {
                    lemma_witnesses_grow(wit, a, q, wit, a2, q);
                    assert forall|t: int| 0 <= t < k + 1 implies #[trigger] node_covered(kept@[t]@, wit, 256, a2) by {
                        if t < k {
                            lemma_node_covered_grow(kept@[t]@, wit, 256, a, wit, a2);
                        } else {
                            lemma_node_in(node@, wit, 256, a2);
                        }
                    }
                    assert forall|t: int| 0 <= t < leaves@.len() implies faithful((#[trigger] leaves@[t])@) && !leaves@[t]@.is_empty() && leaves@[t]@.height == 0 by {
                        if t < lraw.len() {
                            assert(leaves@[t] == lraw[t]);
                        }
                    }
                }
                if sd {
                    assert forall|t: int| 0 <= t < leaves@.len() implies sound((#[trigger] leaves@[t])@, lv) by {
                        if t < lraw.len() {
                            assert(leaves@[t] == lraw[t]);
                        }
                    }
                }
            }
        } else if !seen_contains(&seen, &node.hkey) {
            proof {
                if single {
                    assert(node@ == base@);
                    assert(seen@[0]@ == node.hkey@);
                }
            }
            seen.push(copy_bytes(&node.hkey));
            let ghost qraw = queue@;
            proof {
                if ck {
                    lemma_hkeys_short_push(qraw, node);
                }
            }
            queue.push_back(node);
            proof {
                let w2 = wit.push(node@);
                assert forall|i: int| 0 <= i < w2.len() implies (#[trigger] seen@[i])@ == w2[i].hkey by {
                    if i < wit.len() {
                        assert(w2[i] == wit[i]);
                    }
                }
                crate::node::lemma_view_nodes_push(qraw, node);
                let q2 = view_nodes(queue@);
                assert(queue@ == qraw.push(node));
                assert(q2 == q.push(node@));
                if cg {
                    assert forall|x: NodeModel| q.contains(x) implies q2.contains(x) by {
                        let i = choose|i: int| 0 <= i < q.len() && q[i] == x;
                        assert(q2[i] == x);
                    }
                    lemma_witnesses_grow(wit, a, q, w2, a, q2);
                    assert(q2[q.len() as int] == node@);
                    assert forall|i: int| 0 <= i < w2.len() implies #[trigger] witness_ok(w2, i, a, q2) by {
                        if i == wit.len() {
                            assert(w2[i] == node@);
                        }
                    }
                    assert forall|t: int| 0 <= t < k + 1 implies #[trigger] node_covered(kept@[t]@, w2, 256, a) by {
                        if t < k {
                            lemma_node_covered_grow(kept@[t]@, wit, 256, a, w2, a);
                        } else {
                            lemma_node_by_witness(node@, w2, wit.len() as int, 256, a);
                        }
                    }
                    assert(node@.state is Internal);
                    assert forall|i: int| 0 <= i < w2.len() implies faithful(#[trigger] w2[i]) && w2[i].state is Internal by {
                        if i < wit.len() {
                            assert(w2[i] == wit[i]);
                        }
                    }
                    assert forall|t: int| 0 <= t < queue@.len() implies faithful((#[trigger] queue@[t])@) && queue@[t]@.state is Internal by {
                        if t < qraw.len() {
                            assert(queue@[t] == qraw[t]);
                        }
                    }
                }
                if sd {
                    assert forall|t: int| 0 <= t < queue@.len() implies sound((#[trigger] queue@[t])@, lv) by {
                        if t < qraw.len() {
                            assert(queue@[t] == qraw[t]);
                        }
                    }
                }
                assert forall|t: int| 0 <= t < queue@.len() implies 1 <= (#[trigger] queue@[t]).height <= h by {
                    if t < qraw.len() {
                        assert(queue@[t] == qraw[t]);
                    }
                }
                wit = w2;
            }
        } else {
            proof {
                if cg {
                    let i = choose|i: int| 0 <= i < seen@.len() && (#[trigger] seen@[i])@ == node.hkey@;
                    assert(wit[i].hkey == node@.hkey);
                    crate::faithful::lemma_same_reference(node@, wit[i]);
                    assert forall|t: int| 0 <= t < k + 1 implies #[trigger] node_covered(kept@[t]@, wit, 256, a) by {
                        if t == k {
                            lemma_node_by_witness(node@, wit, i, 256, a);
                        }
                    }
                }
            }
        }
        k += 1;
    }
    let child_height: u8 = if children.len() > 0 { children[0].height } else { 0 };
    proof {
        if children@.len() > 0 {
            assert(view_nodes(children@)[0] == children@[0]@);
        }
    }
    while queue.len() > 0
        invariant
            forall|t: int| 0 <= t < queue@.len() ==> 1 <= (#[trigger] queue@[t]).height <= h,
            forall|t: int| 0 <= t < leaves@.len() ==> (#[trigger] leaves@[t]).height == 0,
            forall|t: int| 0 <= t < same_height_nodes@.len() ==> 1 <= (#[trigger] same_height_nodes@[t]).height <= child_height,
            child_height == (if children@.len() > 0 { children@[0].height } else { 0u8 }),
            witnesses_match(seen@, wit),
            h == base@.height,
            cg == gather_ready(kept@, base@, children@),
            sd == (all_sound(kept@, lv) && all_sound(children@, lv)),
            sd ==> all_sound(queue@, lv) && all_sound(leaves@, lv) && all_sound(same_height_nodes@, lv),
            cg ==> witnesses_faithful(wit) && faithful_leaves(leaves@) && faithful_internal(queue@) && faithful_internal(same_height_nodes@),
            cg ==> forall|i: int| 0 <= i < wit.len() ==> #[trigger] witness_ok(wit, i, gathered(children@, leaves@, same_height_nodes@), view_nodes(queue@)),
            cg ==> forall|t: int| 0 <= t < kept@.len() ==> #[trigger] node_covered(kept@[t]@, wit, 256, gathered(children@, leaves@, same_height_nodes@)),
            ck == (cg && hkeys_short(kept@)),
            ck ==> hkeys_short(leaves@) && hkeys_short(queue@) && hkeys_short(same_height_nodes@),
            h == 0 ==> leaves@.len() == kept@.len(),
            h == 0 ==> forall|t: int| 0 <= t < kept@.len() ==> (#[trigger] leaves@[t])@ == kept@[t]@,
            single == (kept@.len() == 1 && kept@[0]@ == base@),
            single ==> queue@.len() == 0 && same_height_nodes@.len() == 0
                && (h == 0 ==> leaves@.len() == 1 && leaves@[0]@ == base@) && (h > 0 ==> leaves@.len() == 0),
        decreases queue_weight(queue@),
    {
        let ghost q0raw = queue@;
        let ghost q0 = view_nodes(queue@);
        let ghost a = gathered(children@, leaves@, same_height_nodes@);
        let node = queue.pop_front().unwrap();
        let ghost q1raw = queue@;
        proof {
            assert(q0raw.subrange(1, q0raw.len() as int) == queue@);
            assert(queue_weight(q0raw) == level_weight(node.height as nat) + queue_weight(queue@));
            lemma_view_nodes(q0raw);
            lemma_view_nodes(q1raw);
            assert(q0[0] == node@);
            assert forall|x: NodeModel| q0.contains(x) implies view_nodes(q1raw).push(node@).contains(x) by {
                let i = choose|i: int| 0 <= i < q0.len() && q0[i] == x;
                if i == 0 {
                    assert(view_nodes(q1raw).push(node@)[view_nodes(q1raw).len() as int] == x);
                } else {
                    assert(view_nodes(q1raw)[i - 1] == q0[i]);
                    assert(view_nodes(q1raw).push(node@)[i - 1] == x);
                }
            }
            if cg {
                lemma_witnesses_grow(wit, a, q0, wit, a, view_nodes(q1raw).push(node@));
                assert(faithful(q0raw[0]@));
                assert forall|t: int| 0 <= t < queue@.len() implies faithful((#[trigger] queue@[t])@) && queue@[t]@.state is Internal by {
                    assert(queue@[t] == q0raw[t + 1]);
                }
            }
            if sd {
                assert(sound(q0raw[0]@, lv));
                assert forall|t: int| 0 <= t < queue@.len() implies sound((#[trigger] queue@[t])@, lv) by {
                    assert(queue@[t] == q0raw[t + 1]);
                }
            }
            if ck {
                assert(node@.hkey.len() <= 255) by {
                    assert(q0raw[0] == node);
                }
                assert forall|t: int| 0 <= t < queue@.len() implies (#[trigger] queue@[t])@.hkey.len() <= 255 by {
                    assert(queue@[t] == q0raw[t + 1]);
                }
            }
            lemma_level_weight_positive(node.height as nat);
        }
        let ghost w0 = queue_weight(queue@);
        if node.height > child_height {
            let kids = match node.fetch_children(store) {
                Ok(kids) => kids,
                Err(e) => {
                    proof {
                        if cg {
                            assert(heights_below(node@.state->Internal_0, node@.height));
                        }
                    }
                    return Err(merge_fetch_error(e));
                },
            };
            proof {
                lemma_view_nodes(kids@);
                lemma_fetch_heights(node@, kids);
                lemma_level_weight_positive((node.height - 1) as nat);
                if sd {
                    lemma_fetch_materialized(node@, kids);
                    lemma_within_trans(leaves_seq(view_nodes(kids@)), node@.leaves(), lv);
                    lemma_view_all_sound(kids@, lv);
                }
                if cg {
                    assert(view_nodes(kids@) == crate::construct::children_of(node@));
                    assert(node@.leaves() == leaves_seq(view_nodes(kids@)));
                    assert(view_nodes(kids@).subrange(0, 0) =~= Seq::<NodeModel>::empty());
                }
            }
            let ghost wk = wit;
            let mut c: usize = 0;
            while c < kids.len()
                invariant
                    c <= kids@.len(),
                    forall|t: int| 0 <= t < kids@.len() ==> (#[trigger] view_nodes(kids@)[t]).height + 1 == node.height,
                    forall|t: int| 0 <= t < view_nodes(kids@).len() ==> #[trigger] view_nodes(kids@)[t] == kids@[t]@,
                    view_nodes(kids@).len() == kids@.len(),
                    node.height >= 1,
                    node.height <= h,
                    forall|t: int| 0 <= t < queue@.len() ==> 1 <= (#[trigger] queue@[t]).height <= h,
                    forall|t: int| 0 <= t < leaves@.len() ==> (#[trigger] leaves@[t]).height == 0,
                    queue_weight(queue@) <= w0 + c * level_weight((node.height - 1) as nat),
                    witnesses_match(seen@, wit),
                    wk.len() <= wit.len(),
                    forall|j: int| 0 <= j < wk.len() ==> wit[j] == wk[j],
                    sd ==> all_sound(kids@, lv) && all_sound(queue@, lv) && all_sound(leaves@, lv),
                    cg == gather_ready(kept@, base@, children@),
                    cg ==> node@.leaves() == leaves_seq(view_nodes(kids@)) && faithful(node@) && node@.state is Internal,
                    cg ==> forall|t: int| 0 <= t < kids@.len() ==> faithful(#[trigger] view_nodes(kids@)[t]) && !view_nodes(kids@)[t].is_empty(),
                    cg ==> witnesses_faithful(wit) && faithful_leaves(leaves@) && faithful_internal(queue@),
                    cg ==> forall|i: int| 0 <= i < wit.len() ==> #[trigger] witness_ok(wit, i, gathered(children@, leaves@, same_height_nodes@),
                        view_nodes(queue@).push(node@)),
                    cg ==> forall|t: int| 0 <= t < kept@.len() ==> #[trigger] node_covered(kept@[t]@, wit, 256, gathered(children@, leaves@, same_height_nodes@)),
                    cg ==> forall|t: int| 0 <= t < c ==> #[trigger] node_covered(view_nodes(kids@)[t], wit, node.height as nat,
                        gathered(children@, leaves@, same_height_nodes@)),
                    ck == (cg && hkeys_short(kept@)),
                    ck ==> hkeys_short(leaves@) && hkeys_short(queue@) && hkeys_short(same_height_nodes@),
                    cg ==> forall|t: int| 0 <= t < kids@.len() ==> (#[trigger] view_nodes(kids@)[t]).hkey.len() <= 255,
                decreases kids@.len() - c,
            {
                let kid = kids[c].copy();
                let ghost a1 = gathered(children@, leaves@, same_height_nodes@);
                let ghost qv = view_nodes(queue@);
                let ghost w1 = wit;
                proof {
                    assert(view_nodes(kids@)[c as int].height + 1 == node.height);
                    assert(kid@ == view_nodes(kids@)[c as int]);
                }
                if kid.is_empty() {
                    proof {
                        if cg {
                            assert(kid@.leaves() =~= Seq::<LeafView>::empty());
                            assert forall|t: int| 0 <= t < c + 1 implies #[trigger] node_covered(view_nodes(kids@)[t], wit, node.height as nat, a1) by {
                                if t == c {
                                    assert forall|k: u128| #[trigger] key_set(kid@.leaves()).contains(k) implies covered_by(k, wit, node.height as nat, a1) by {}
                                }
                            }
                        }
                    }
                } else if kid.is_leaf() {
                    let ghost lraw = leaves@;
                    proof {
                        lemma_raw_push(lraw, kid);
                        if ck {
                            lemma_hkeys_short_push(lraw, kid);
                        }
                    }
                    leaves.push(kid);
                    proof {
                        let a2 = gathered(children@, leaves@, same_height_nodes@);
                        assert(a1.subset_of(a2));
                        if cg {
                            lemma_witnesses_grow(wit, a1, qv.push(node@), wit, a2, qv.push(node@));
                            assert forall|t: int| 0 <= t < kept@.len() implies #[trigger] node_covered(kept@[t]@, wit, 256, a2) by {
                                lemma_node_covered_grow(kept@[t]@, wit, 256, a1, wit, a2);
                            }
                            assert forall|t: int| 0 <= t < c + 1 implies #[trigger] node_covered(view_nodes(kids@)[t], wit, node.height as nat, a2) by {
                                if t < c {
                                    lemma_node_covered_grow(view_nodes(kids@)[t], wit, node.height as nat, a1, wit, a2);
                                } else {
                                    lemma_node_in(kid@, wit, node.height as nat, a2);
                                }
                            }
                            assert forall|t: int| 0 <= t < leaves@.len() implies faithful((#[trigger] leaves@[t])@) && !leaves@[t]@.is_empty() && leaves@[t]@.height == 0 by {
                                if t < lraw.len() {
                                    assert(leaves@[t] == lraw[t]);
                                }
                            }
                        }
                        if sd {
                            assert forall|t: int| 0 <= t < leaves@.len() implies sound((#[trigger] leaves@[t])@, lv) by {
                                if t < lraw.len() {
                                    assert(leaves@[t] == lraw[t]);
                                }
                            }
                        }
                    }
                } else if !seen_contains(&seen, &kid.hkey) {
                    seen.push(copy_bytes(&kid.hkey));
                    let ghost qraw = queue@;
                    proof {
                        lemma_queue_weight_push(queue@, kid);
                        if ck {
                            lemma_hkeys_short_push(qraw, kid);
                        }
                    }
                    queue.push_back(kid);
                    proof {
                        let w2 = wit.push(kid@);
                        assert forall|i: int| 0 <= i < w2.len() implies (#[trigger] seen@[i])@ == w2[i].hkey by {
                            if i < wit.len() {
                                assert(w2[i] == wit[i]);
                            }
                        }
                        crate::node::lemma_view_nodes_push(qraw, kid);
                        assert(queue@ == qraw.push(kid));
                        let q2 = view_nodes(queue@);
                        assert(q2 == qv.push(kid@));
                        if cg {
                            assert forall|x: NodeModel| qv.push(node@).contains(x) implies q2.push(node@).contains(x) by {
                                let i = choose|i: int| 0 <= i < qv.push(node@).len() && qv.push(node@)[i] == x;
                                if i < qv.len() {
                                    assert(q2.push(node@)[i] == x);
                                } else {
                                    assert(q2.push(node@)[q2.len() as int] == x);
                                }
                            }
                            lemma_witnesses_grow(wit, a1, qv.push(node@), w2, a1, q2.push(node@));
                            assert(q2.push(node@)[qv.len() as int] == kid@);
                            assert forall|i: int| 0 <= i < w2.len() implies #[trigger] witness_ok(w2, i, a1, q2.push(node@)) by {
                                if i == wit.len() {
                                    assert(w2[i] == kid@);
                                }
                            }
                            assert forall|t: int| 0 <= t < kept@.len() implies #[trigger] node_covered(kept@[t]@, w2, 256, a1) by {
                                lemma_node_covered_grow(kept@[t]@, wit, 256, a1, w2, a1);
                            }
                            assert forall|t: int| 0 <= t < c + 1 implies #[trigger] node_covered(view_nodes(kids@)[t], w2, node.height as nat, a1) by {
                                if t < c {
                                    lemma_node_covered_grow(view_nodes(kids@)[t], wit, node.height as nat, a1, w2, a1);
                                } else {
                                    lemma_node_by_witness(kid@, w2, wit.len() as int, node.height as nat, a1);
                                }
                            }
                            assert(faithful(kid@));
                            assert(kid@.state is Internal);
                            assert forall|i: int| 0 <= i < w2.len() implies faithful(#[trigger] w2[i]) && w2[i].state is Internal by {
                                if i < wit.len() {
                                    assert(w2[i] == wit[i]);
                                }
                            }
                            assert forall|t: int| 0 <= t < queue@.len() implies faithful((#[trigger] queue@[t])@) && queue@[t]@.state is Internal by {
                                if t < qraw.len() {
                                    assert(queue@[t] == qraw[t]);
                                }
                            }
                        }
                        if sd {
                            assert forall|t: int| 0 <= t < queue@.len() implies sound((#[trigger] queue@[t])@, lv) by {
                                if t < qraw.len() {
                                    assert(queue@[t] == qraw[t]);
                                }
                            }
                        }
                        assert forall|t: int| 0 <= t < queue@.len() implies 1 <= (#[trigger] queue@[t]).height <= h by {
                            if t < qraw.len() {
                                assert(queue@[t] == qraw[t]);
                            }
                        }
                        wit = w2;
                    }
                } else {
                    proof {
                        if cg {
                            let i = choose|i: int| 0 <= i < seen@.len() && (#[trigger] seen@[i])@ == kid.hkey@;
                            assert(wit[i].hkey == kid@.hkey);
                            assert(faithful(kid@));
                            assert(kid@.state is Internal);
                            crate::faithful::lemma_same_reference(kid@, wit[i]);
                            assert forall|t: int| 0 <= t < c + 1 implies #[trigger] node_covered(view_nodes(kids@)[t], wit, node.height as nat, a1) by {
                                if t == c {
                                    lemma_node_by_witness(kid@, wit, i, node.height as nat, a1);
                                }
                            }
                        }
                    }
                }
                proof {
                    assert((c + 1) * level_weight((node.height - 1) as nat) == c * level_weight((node.height - 1) as nat)
                        + level_weight((node.height - 1) as nat)) by (nonlinear_arith);
                }
                c += 1;
            }
            proof {
                lemma_children_lighter(node.height as nat, kids@.len() as nat);
                lemma_level_weight_positive((node.height - 1) as nat);
                assert(kids@.len() * level_weight((node.height - 1) as nat) < level_weight(node.height as nat));
                if cg {
                    let a3 = gathered(children@, leaves@, same_height_nodes@);
                    let qf = view_nodes(queue@);
                    lemma_seq_covered(view_nodes(kids@), wit, node.height as nat, a3);
                    assert forall|i: int| 0 <= i < wit.len() implies #[trigger] witness_ok(wit, i, a3, qf) by {
                        assert(witness_ok(wit, i, a3, qf.push(node@)));
                        if qf.push(node@).contains(wit[i]) && !qf.contains(wit[i]) {
                            let j = choose|j: int| 0 <= j < qf.push(node@).len() && qf.push(node@)[j] == wit[i];
                            if j < qf.len() {
                                assert(qf[j] == wit[i]);
                            }
                            assert(wit[i] == node@);
                            assert forall|k: u128| #[trigger] key_set(wit[i].leaves()).contains(k) implies covered_by(k, wit, wit[i].height as nat, a3) by {
                                assert(keyset(view_nodes(kids@)).contains(k));
                            }
                        }
                    }
                }
            }
        } else {
            let ghost sraw = same_height_nodes@;
            proof {
                lemma_raw_push(sraw, node);
                if ck {
                    lemma_hkeys_short_push(sraw, node);
                }
            }
            same_height_nodes.push(node);
            proof {
                let a2 = gathered(children@, leaves@, same_height_nodes@);
                let qf = view_nodes(queue@);
                assert(a.subset_of(a2));
                lemma_raw_member(same_height_nodes@, sraw.len() as int);
                assert(same_height_nodes@[sraw.len() as int] == node);
                if cg {
                    lemma_witnesses_grow(wit, a, qf.push(node@), wit, a2, qf.push(node@));
                    assert forall|i: int| 0 <= i < wit.len() implies #[trigger] witness_ok(wit, i, a2, qf) by {
                        assert(witness_ok(wit, i, a2, qf.push(node@)));
                        if qf.push(node@).contains(wit[i]) && !qf.contains(wit[i]) {
                            let j = choose|j: int| 0 <= j < qf.push(node@).len() && qf.push(node@)[j] == wit[i];
                            if j < qf.len() {
                                assert(qf[j] == wit[i]);
                            }
                            assert(wit[i] == node@);
                        }
                    }
                    assert forall|t: int| 0 <= t < kept@.len() implies #[trigger] node_covered(kept@[t]@, wit, 256, a2) by {
                        lemma_node_covered_grow(kept@[t]@, wit, 256, a, wit, a2);
                    }
                    assert forall|t: int| 0 <= t < same_height_nodes@.len() implies faithful((#[trigger] same_height_nodes@[t])@)
                        && same_height_nodes@[t]@.state is Internal by {
                        if t < sraw.len() {
                            assert(same_height_nodes@[t] == sraw[t]);
                        }
                    }
                }
                if sd {
                    assert forall|t: int| 0 <= t < same_height_nodes@.len() implies sound((#[trigger] same_height_nodes@[t])@, lv) by {
                        if t < sraw.len() {
                            assert(same_height_nodes@[t] == sraw[t]);
                        }
                    }
                }
                assert forall|t: int| 0 <= t < same_height_nodes@.len() implies 1 <= (#[trigger] same_height_nodes@[t]).height <= child_height by {
                    if t < sraw.len() {
                        assert(same_height_nodes@[t] == sraw[t]);
                    }
                }
            }
        }
    }
    proof {
        if cg {
            let af = gathered(children@, leaves@, same_height_nodes@);
            assert forall|i: int| 0 <= i < wit.len() implies #[trigger] witness_done(wit, i, af) by {
                assert(witness_ok(wit, i, af, view_nodes(queue@)));
                lemma_view_nodes(queue@);
                assert(view_nodes(queue@).len() == 0);
            }
            lemma_witnesses_closed(wit, af, 255);
            assert forall|k: u128| keyset(view_nodes(kept@)).contains(k) implies af.contains(k) by {
                lemma_keyset_owner(view_nodes(kept@), k);
                let t = choose|t: int| 0 <= t < view_nodes(kept@).len() && key_set((#[trigger] view_nodes(kept@)[t]).leaves()).contains(k);
                lemma_view_nodes(kept@);
                assert(view_nodes(kept@)[t] == kept@[t]@);
                assert(node_covered(kept@[t]@, wit, 256, af));
                assert(covered_by(k, wit, 256, af));
                if !af.contains(k) {
                    let j = choose|j: int| 0 <= j < wit.len() && (#[trigger] wit[j]).height < 256nat && key_set(wit[j].leaves()).contains(k);
                    assert(key_set(wit[j].leaves()).subset_of(af));
                }
            }
        }
    }
    Ok((leaves, same_height_nodes))
}

/// Every key of a faithful node lies in one of the parts that splitting it at `sk` gives.
proof fn lemma_key_in_some_part(m: NodeModel, sk: Seq<u128>, row: Seq<Option<HtreeNode>>, k: u128)
    requires
        row.len() == sk.len() + 1,
        forall|x: int| 0 <= x < row.len() ==> fpart_spec(m, part_lo(sk, x), part_hi(sk, x),
            Ok::<(Option<HtreeNode>, bool), HtreeNodeSplitManyError>((#[trigger] row[x], false))),
        key_set(m.leaves()).contains(k),
    ensures
        exists|x: int| 0 <= x < row.len() && (#[trigger] row[x] matches Some(p) && key_set(p@.leaves()).contains(k)),
{
    lemma_some_part(sk, k);
    let x = choose|x: int| 0 <= x <= sk.len() && #[trigger] in_part(sk, x, k);
    let lo = part_lo(sk, x);
    let hi = part_hi(sk, x);
    assert(fpart_spec(m, lo, hi, Ok::<(Option<HtreeNode>, bool), HtreeNodeSplitManyError>((row[x], false))));
    match row[x] {
        Some(p) => {
            lemma_part_key(m.leaves(), lo, hi, p@.leaves(), k);
        },
        None => {
            lemma_part_key(m.leaves(), lo, hi, crate::split::part_leaves(m.leaves(), lo, hi), k);
        },
    }
}

/// Trees that merging takes without failing on its own account: references are distinct,
/// and each tree is faithful with an hkey that fits a length byte.
pub open spec fn merge_ready(ns: Seq<NodeModel>) -> bool {
    &&& references_distinct()
    &&& forall|t: int| 0 <= t < ns.len() ==> faithful(#[trigger] ns[t]) && ns[t].hkey.len() <= 255
}

/// Some node is not empty.
pub open spec fn has_nonempty(ns: Seq<NodeModel>) -> bool {
    exists|t: int| 0 <= t < ns.len() && !(#[trigger] ns[t]).is_empty()
}

/// What `settle` needs to fail only where the store does: distinct references, faithful
/// children one level below `h` (some, when `h` is not zero) and faithful leaves, all with
/// hkeys that fit a length byte.
pub open spec fn settle_ready(children: Seq<HtreeNode>, leaves: Seq<HtreeNode>, h: nat) -> bool {
    &&& references_distinct()
    &&& faithful_present(children)
    &&& faithful_leaves(leaves)
    &&& hkeys_short(children)
    &&& hkeys_short(leaves)
    &&& forall|t: int| 0 <= t < children.len() ==> (#[trigger] children[t])@.height + 1 == h
    &&& h >= 1 ==> children.len() > 0
    &&& h <= 255
}

/// Parents built over nodes below the greatest height hold the nodes' leaves.
pub proof fn lemma_parents_leaves(pv: Seq<NodeModel>, input: Seq<NodeModel>)
    requires
        parents_of(pv, input),
        forall|t: int| 0 <= t < input.len() ==> (#[trigger] input[t]).height < 255,
    ensures
        leaves_seq(pv).to_multiset() == leaves_seq(input).to_multiset(),
{
    let gs = pv.map_values(|p: NodeModel| children_of(p));
    let f = crate::group::flatten(gs);
    crate::construct::lemma_perm_contains(f, input);
    assert forall|t: int| 0 <= t < pv.len() implies (#[trigger] pv[t]).leaves() == leaves_seq(gs[t]) by {
        let cs = children_of(pv[t]);
        assert(gs[t] == cs);
        crate::construct::lemma_group_members(gs, t);
        if cs.len() > 0 {
            assert(f.contains(gs[t][0]));
            let k0 = choose|k0: int| 0 <= k0 < f.len() && f[k0] == gs[t][0];
            assert(input.contains(f[k0]));
            assert(pv[t].height > 0);
        }
    }
    crate::lemmas::lemma_leaves_parents(pv, gs);
    crate::lemmas::lemma_perm_leaves(f, input);
}

/// The value each key has last among the leaves `ls`: a later leaf with a key replaces an
/// earlier one.
pub open spec fn last_hkeys(ls: Seq<LeafView>) -> Map<u128, Seq<u8>>
    decreases ls.len(),
{
    if ls.len() == 0 {
        Map::empty()
    } else {
        last_hkeys(ls.drop_last()).insert(ls.last().0, ls.last().1)
    }
}

/// The leaves `out` hold each key of `m` once, with its value in `m`, and nothing else.
pub open spec fn exact_leaves(out: Seq<LeafView>, m: Map<u128, Seq<u8>>) -> bool {
    forall|l: LeafView| #[trigger] out.to_multiset().count(l) == (if m.contains_key(l.0) && m[l.0] == l.1 { 1nat } else { 0nat })
}

/// Leaf nodes that are not empty.
pub open spec fn leafy(v: Seq<HtreeNode>) -> bool {
    forall|t: int| 0 <= t < v.len() ==> (#[trigger] v[t])@.height == 0 && !v[t]@.is_empty()
}

/// The keys and hkeys of the first `n` nodes of `v`.
pub open spec fn leaf_views(v: Seq<HtreeNode>, n: int) -> Seq<LeafView> {
    Seq::new(n as nat, |i: int| (v[i]@.key, v[i]@.hkey))
}

/// The nodes `cs` hold, one node per key, exactly the keys of `m` with their values.
pub open spec fn children_match(cs: Seq<HtreeNode>, m: Map<u128, Seq<u8>>) -> bool {
    &&& forall|j: int| 0 <= j < cs.len() ==> m.contains_key((#[trigger] cs[j])@.key) && m[cs[j]@.key] == cs[j]@.hkey
    &&& forall|k: u128| #[trigger] m.contains_key(k) ==> exists|j: int| 0 <= j < cs.len() && (#[trigger] cs[j])@.key == k
}

/// The keys of the nodes strictly increase.
pub open spec fn keys_increase(cs: Seq<HtreeNode>) -> bool {
    forall|i: int, j: int| 0 <= i < j < cs.len() ==> (#[trigger] cs[i])@.key < (#[trigger] cs[j])@.key
}

/// The leaves of leaf nodes are their keys and hkeys.
pub proof fn lemma_leafy_leaves(v: Seq<HtreeNode>)
    requires
        leafy(v),
    ensures
        leaves_seq(view_nodes(v)) == leaf_views(v, v.len() as int),
    decreases v.len(),
{
    if v.len() == 0 {
        assert(view_nodes(v) =~= Seq::<NodeModel>::empty());
        assert(leaves_seq(Seq::<NodeModel>::empty()) == Seq::<LeafView>::empty());
        assert(leaf_views(v, 0) =~= Seq::<LeafView>::empty());
    } else {
        let d = v.drop_last();
        assert(leafy(d)) by {
            assert forall|t: int| 0 <= t < d.len() implies (#[trigger] d[t])@.height == 0 && !d[t]@.is_empty() by {
                assert(d[t] == v[t]);
            }
        }
        lemma_leafy_leaves(d);
        assert(d.push(v.last()) =~= v);
        lemma_view_nodes_push(d, v.last());
        crate::model::lemma_leaves_seq_push(view_nodes(d), v.last()@);
        assert(v.last()@.leaves() == seq![(v.last()@.key, v.last()@.hkey)]);
        assert(leaf_views(v, v.len() as int) =~= leaf_views(d, d.len() as int) + seq![(v.last()@.key, v.last()@.hkey)]);
    }
}

/// In a sequence whose keys strictly increase, a leaf occurs once if at all.
pub proof fn lemma_distinct_count(s: Seq<LeafView>, l: LeafView)
    requires
        forall|i: int, j: int| 0 <= i < j < s.len() ==> (#[trigger] s[i]).0 < (#[trigger] s[j]).0,
    ensures
        s.to_multiset().count(l) == (if s.contains(l) { 1nat } else { 0nat }),
    decreases s.len(),
{
    broadcast use vstd::multiset::group_multiset_axioms;
    if s.len() == 0 {
        crate::model::lemma_empty_to_multiset(s);
    } else {
        let d = s.drop_last();
        assert forall|i: int, j: int| 0 <= i < j < d.len() implies (#[trigger] d[i]).0 < (#[trigger] d[j]).0 by {
            assert(d[i] == s[i] && d[j] == s[j]);
        }
        lemma_distinct_count(d, l);
        assert(d.push(s.last()) =~= s);
        vstd::seq_lib::to_multiset_build(d, s.last());
        if s.last() == l {
            if d.contains(l) {
                let i = choose|i: int| 0 <= i < d.len() && d[i] == l;
                assert(s[i] == l && s[s.len() - 1] == l);
                assert(s[i].0 < s[s.len() - 1].0);
            }
        }
        if s.contains(l) && s.last() != l {
            let i = choose|i: int| 0 <= i < s.len() && s[i] == l;
            assert(i < d.len());
            assert(d[i] == l);
        }
        if d.contains(l) {
            let i = choose|i: int| 0 <= i < d.len() && d[i] == l;
            assert(s[i] == l);
        }
    }
}

/// Replacing the node with a leaf's key by that leaf keeps the keys increasing and gives
/// the leaf's value to its key.
proof fn lemma_replace_step(before: Seq<HtreeNode>, idx: int, leaf: HtreeNode, m: Map<u128, Seq<u8>>)
    requires
        keys_increase(before),
        leafy(before),
        children_match(before, m),
        0 <= idx < before.len(),
        before[idx]@.key == leaf@.key,
        leaf@.height == 0,
        !leaf@.is_empty(),
    ensures
        keys_increase(before.update(idx, leaf)),
        leafy(before.update(idx, leaf)),
        children_match(before.update(idx, leaf), m.insert(leaf@.key, leaf@.hkey)),
{
    let a = before.update(idx, leaf);
    let m2 = m.insert(leaf@.key, leaf@.hkey);
    assert forall|i: int, j: int| 0 <= i < j < a.len() implies (#[trigger] a[i])@.key < (#[trigger] a[j])@.key by {
        assert(before[i]@.key < before[j]@.key);
    }
    assert forall|j: int| 0 <= j < a.len() implies m2.contains_key((#[trigger] a[j])@.key) && m2[a[j]@.key] == a[j]@.hkey by {
        if j != idx {
            assert(a[j] == before[j]);
            if j < idx {
                assert(before[j]@.key < before[idx]@.key);
            } else {
                assert(before[idx]@.key < before[j]@.key);
            }
        }
    }
    assert forall|k: u128| #[trigger] m2.contains_key(k) implies exists|j: int| 0 <= j < a.len() && (#[trigger] a[j])@.key == k by {
        if k == leaf@.key {
            assert(a[idx]@.key == k);
        } else {
            let j = choose|j: int| 0 <= j < before.len() && (#[trigger] before[j])@.key == k;
            assert(j != idx);
            assert(a[j] == before[j]);
        }
    }
}

/// Inserting a leaf between the nodes with smaller and larger keys keeps the keys
/// increasing and adds the leaf's key with its value.
proof fn lemma_insert_step(before: Seq<HtreeNode>, idx: int, leaf: HtreeNode, m: Map<u128, Seq<u8>>)
    requires
        keys_increase(before),
        leafy(before),
        children_match(before, m),
        0 <= idx <= before.len(),
        forall|j: int| 0 <= j < idx ==> (#[trigger] before[j])@.key < leaf@.key,
        idx < before.len() ==> before[idx]@.key > leaf@.key,
        leaf@.height == 0,
        !leaf@.is_empty(),
    ensures
        keys_increase(before.insert(idx, leaf)),
        leafy(before.insert(idx, leaf)),
        children_match(before.insert(idx, leaf), m.insert(leaf@.key, leaf@.hkey)),
{
    let a = before.insert(idx, leaf);
    let m2 = m.insert(leaf@.key, leaf@.hkey);
    assert forall|j: int| 0 <= j < before.len() implies (#[trigger] before[j])@.key != leaf@.key by {
        if j >= idx {
            if j > idx {
                assert(before[idx]@.key < before[j]@.key);
            }
        }
    }
    assert forall|i: int, j: int| 0 <= i < j < a.len() implies (#[trigger] a[i])@.key < (#[trigger] a[j])@.key by {
        if j < idx {
            assert(a[i] == before[i] && a[j] == before[j]);
        } else if j == idx {
            assert(a[i] == before[i]);
        } else if i < idx {
            assert(a[i] == before[i] && a[j] == before[j - 1]);
            if j - 1 > idx {
                assert(before[idx]@.key < before[j - 1]@.key);
            }
        } else if i == idx {
            assert(a[j] == before[j - 1]);
            if j - 1 > idx {
                assert(before[idx]@.key < before[j - 1]@.key);
            }
        } else {
            assert(a[i] == before[i - 1] && a[j] == before[j - 1]);
        }
    }
    assert forall|t: int| 0 <= t < a.len() implies (#[trigger] a[t])@.height == 0 && !a[t]@.is_empty() by {
        if t < idx {
            assert(a[t] == before[t]);
        } else if t > idx {
            assert(a[t] == before[t - 1]);
        }
    }
    assert forall|j: int| 0 <= j < a.len() implies m2.contains_key((#[trigger] a[j])@.key) && m2[a[j]@.key] == a[j]@.hkey by {
        if j < idx {
            assert(a[j] == before[j]);
        } else if j > idx {
            assert(a[j] == before[j - 1]);
        }
    }
    assert forall|k: u128| #[trigger] m2.contains_key(k) implies exists|j: int| 0 <= j < a.len() && (#[trigger] a[j])@.key == k by {
        if k == leaf@.key {
            assert(a[idx]@.key == k);
        } else {
            let j = choose|j: int| 0 <= j < before.len() && (#[trigger] before[j])@.key == k;
            if j < idx {
                assert(a[j] == before[j]);
            } else {
                assert(a[j + 1] == before[j]);
            }
        }
    }
}

/// Leaf nodes with increasing keys that match `m` hold exactly the keys of `m` with their
/// values.
proof fn lemma_match_exact(cs: Seq<HtreeNode>, m: Map<u128, Seq<u8>>)
    requires
        keys_increase(cs),
        leafy(cs),
        children_match(cs, m),
    ensures
        exact_leaves(leaves_seq(view_nodes(cs)), m),
{
    lemma_leafy_leaves(cs);
    let s = leaf_views(cs, cs.len() as int);
    assert forall|i: int, j: int| 0 <= i < j < s.len() implies (#[trigger] s[i]).0 < (#[trigger] s[j]).0 by {
        assert(cs[i]@.key < cs[j]@.key);
    }
    assert forall|l: LeafView| #[trigger] s.to_multiset().count(l) == (if m.contains_key(l.0) && m[l.0] == l.1 { 1nat } else { 0nat }) by {
        lemma_distinct_count(s, l);
        if s.contains(l) {
            let i = choose|i: int| 0 <= i < s.len() && s[i] == l;
            assert(s[i] == (cs[i]@.key, cs[i]@.hkey));
        }
        if m.contains_key(l.0) && m[l.0] == l.1 {
            let j = choose|j: int| 0 <= j < cs.len() && (#[trigger] cs[j])@.key == l.0;
            assert(s[j] == l);
        }
    }
}

/// Parents are built in key order: their keys never decrease.
pub proof fn lemma_parents_sorted(pv: Seq<NodeModel>, input: Seq<NodeModel>)
    requires
        parents_of(pv, input),
    ensures
        crate::model::keys_nondecreasing(pv),
{
    let gs = pv.map_values(|p: NodeModel| children_of(p));
    let f = crate::group::flatten(gs);
    assert forall|i: int, j: int| 0 <= i <= j < pv.len() implies (#[trigger] pv[i]).key <= (#[trigger] pv[j]).key by {
        if i < j {
            crate::lemmas::lemma_flatten_split(gs, i);
            crate::lemmas::lemma_flatten_split(gs, j);
            crate::lemmas::lemma_offset_monotone(gs, i + 1, j);
            assert(gs[i].len() > 0 && gs[j].len() > 0);
            let a = crate::lemmas::offset(gs, i);
            let b = crate::lemmas::offset(gs, j);
            assert(f[a] == gs[i][0]);
            assert(f[b] == gs[j][0]);
            assert(a < b);
            assert(!crate::model::node_lt(f[b], f[a]));
            assert(pv[i] == crate::construct::parent_model(children_of(pv[i])));
            assert(pv[j] == crate::construct::parent_model(children_of(pv[j])));
            assert(gs[i] == children_of(pv[i]) && gs[j] == children_of(pv[j]));
        }
    }
}

/// At most one of the trees is not empty, and the trees that are not empty are valid.
pub open spec fn one_tree(ns: Seq<NodeModel>) -> bool {
    &&& forall|t: int| 0 <= t < ns.len() ==> (#[trigger] ns[t]).is_empty() || ns[t].valid()
    &&& forall|a: int, b: int| 0 <= a < b < ns.len() && !(#[trigger] ns[a]).is_empty() ==> (#[trigger] ns[b]).is_empty()
}

/// Parents over some nodes are some nodes.
pub proof fn lemma_parents_nonempty(pv: Seq<NodeModel>, input: Seq<NodeModel>)
    requires
        parents_of(pv, input),
        input.len() > 0,
    ensures
        pv.len() > 0,
{
    if pv.len() == 0 {
        let gs = pv.map_values(|p: NodeModel| children_of(p));
        assert(gs.len() == 0);
        assert(crate::group::flatten(gs) == Seq::<NodeModel>::empty());
        assert(input.to_multiset().count(input[0]) > 0) by {
            vstd::seq_lib::to_multiset_contains(input, input[0]);
        }
        assert(Seq::<NodeModel>::empty().to_multiset().count(input[0]) == 0) by {
            crate::model::lemma_empty_to_multiset(Seq::<NodeModel>::empty());
        }
    }
}

/// What `merge_at_level_batched` needs to fail only where the store does: distinct
/// references, faithful children of one height above the leaves, and faithful nodes above
/// the leaves and not above the children, all with hkeys that fit a length byte.
pub open spec fn batch_ok(children: Seq<HtreeNode>, nodes: Seq<HtreeNode>) -> bool {
    &&& references_distinct()
    &&& forall|t: int| 0 <= t < children.len() ==> faithful((#[trigger] children[t])@) && children[t]@.hkey.len() <= 255
        && children[t]@.height == children[0]@.height && children[t]@.height >= 1
    &&& forall|t: int| 0 <= t < nodes.len() ==> faithful((#[trigger] nodes[t])@) && nodes[t]@.hkey.len() <= 255
        && nodes[t]@.height >= 1 && (children.len() > 0 ==> nodes[t]@.height <= children[0]@.height)
}

/// Where the keys of every node lie in `s`, all their keys do.
pub proof fn lemma_members_covered(v: Seq<HtreeNode>, s: Set<u128>)
    requires
        forall|t: int| 0 <= t < v.len() ==> key_set((#[trigger] v[t])@.leaves()).subset_of(s),
    ensures
        raw_keys(v).subset_of(s),
{
    lemma_view_nodes(v);
    assert forall|k: u128| raw_keys(v).contains(k) implies s.contains(k) by {
        lemma_keyset_owner(view_nodes(v), k);
        let t = choose|t: int| 0 <= t < view_nodes(v).len() && key_set((#[trigger] view_nodes(v)[t]).leaves()).contains(k);
        assert(view_nodes(v)[t] == v[t]@);
        assert(key_set(v[t]@.leaves()).subset_of(s));
    }
}

/// Every node is faithful and not empty.
pub open spec fn faithful_present(v: Seq<HtreeNode>) -> bool {
    forall|t: int| 0 <= t < v.len() ==> faithful((#[trigger] v[t])@) && !v[t]@.is_empty()
}

/// The siblings are all leaves, or all above the leaves.
pub open spec fn one_kind(v: Seq<HtreeNode>) -> bool {
    ||| forall|t: int| 0 <= t < v.len() ==> (#[trigger] v[t])@.height == 0
    ||| forall|t: int| 0 <= t < v.len() ==> (#[trigger] v[t])@.height >= 1
}

/// A leaf that is not empty holds the one key of its own.
proof fn lemma_leaf_keys(x: NodeModel, y: NodeModel)
    requires
        x.height == 0,
        y.height == 0,
        !x.is_empty(),
        !y.is_empty(),
        x.key == y.key,
    ensures
        key_set(x.leaves()).subset_of(key_set(y.leaves())),
{
    assert(y.leaves()[0].0 == y.key);
    assert forall|k: u128| key_set(x.leaves()).contains(k) implies key_set(y.leaves()).contains(k) by {
        let j = choose|j: int| 0 <= j < x.leaves().len() && (#[trigger] x.leaves()[j]).0 == k;
        assert(j == 0);
    }
}

/// Parents built over faithful siblings that are not empty are faithful internal nodes
/// holding the same keys.
proof fn lemma_settled(cv: Seq<NodeModel>, ps: Vec<HtreeNode>)
    requires
        parents_result(cv, Ok::<Vec<HtreeNode>, HtreeNodeFromChildrenError>(ps)),
        forall|t: int| 0 <= t < cv.len() ==> faithful(#[trigger] cv[t]) && !cv[t].is_empty(),
    ensures
        faithful_nodes(view_nodes(ps@)),
        keyset(cv).subset_of(raw_keys(ps@)),
{
    lemma_view_nodes(ps@);
    if cv.len() == 0 {
        assert(view_nodes(ps@) =~= Seq::<NodeModel>::empty());
        assert(leaves_seq(Seq::<NodeModel>::empty()) == Seq::<LeafView>::empty());
    } else {
        let h = cv[0].height;
        assert(crate::split::faithful_siblings(cv, h)) by {
            assert(crate::construct::same_height(cv));
            assert(crate::model::hkeys_fit(cv));
        }
        crate::cover::lemma_parents_faithful(view_nodes(ps@), cv, h);
    }
}

/// Puts the leaves `leaves` among the siblings `children`, which lie below height `h`, and
/// builds parents over the result. Among leaf children (or none), each leaf replaces the
/// child with its key or is inserted in key order; among children above the leaves, each
/// leaf goes to the last child whose key does not exceed its own (the first child when
/// there is none), and each child is merged with its leaves.
#[verifier::rlimit(100)]
#[verifier::loop_isolation(false)]
fn settle(children: Vec<HtreeNode>, leaves: Vec<HtreeNode>, store: &InMemoryStore, Ghost(h): Ghost<nat>, Ghost(lv): Ghost<Seq<LeafView>>) -> (r: Result<Vec<HtreeNode>, HtreeNodeMergeError>)
    requires
        forall|t: int| 0 <= t < children@.len() ==> (#[trigger] children@[t])@.height < h,
        forall|t: int| 0 <= t < leaves@.len() ==> (#[trigger] leaves@[t])@.height == 0,
        one_kind(children@),
    ensures
        r matches Ok(ps) ==> forall|t: int| 0 <= t < ps@.len() ==> 1 <= (#[trigger] view_nodes(ps@)[t]).height
            && view_nodes(ps@)[t].height <= (if h == 0 { 1 } else { h }),
        all_sound(children@, lv) && all_sound(leaves@, lv) ==> (r matches Ok(ps) ==> all_materialized(view_nodes(ps@))
            && leaves_within(leaves_seq(view_nodes(ps@)), lv)),
        references_distinct() && faithful_present(children@) && faithful_leaves(leaves@) ==> (r matches Ok(ps)
            ==> faithful_nodes(view_nodes(ps@)) && raw_keys(children@).union(raw_keys(leaves@)).subset_of(raw_keys(ps@))),
        r matches Ok(ps) ==> hkeys_short(ps@),
        leaves@.len() == 0 ==> (r matches Ok(ps) ==> leaves_seq(view_nodes(ps@)).to_multiset()
            == leaves_seq(view_nodes(children@)).to_multiset()),
        children@.len() == 0 && leaves@.len() == 1 ==> (r matches Ok(ps) ==> leaves_seq(view_nodes(ps@)).to_multiset()
            == leaves@[0]@.leaves().to_multiset()),
        children@.len() == 0 && leafy(leaves@) ==> (r matches Ok(ps) ==> exact_leaves(leaves_seq(view_nodes(ps@)),
            last_hkeys(leaf_views(leaves@, leaves@.len() as int)))),
        r matches Ok(ps) ==> crate::model::keys_nondecreasing(view_nodes(ps@)),
        settle_ready(children@, leaves@, h) ==> match r {
            Ok(ps) => {
                &&& forall|t: int| 0 <= t < ps@.len() ==> (#[trigger] view_nodes(ps@)[t]).height == (if h == 0 { 1 } else { h })
                &&& children@.len() + leaves@.len() > 0 ==> ps@.len() > 0
            },
            Err(e) => e is Store,
        },
    decreases h, 0nat,
{
    let ghost c0 = children@;
    let ghost sr = settle_ready(children@, leaves@, h);
    let ghost lf = children@.len() == 0 && leafy(leaves@);
    let ghost good = all_sound(children@, lv) && all_sound(leaves@, lv);
    let ghost fp = references_distinct() && faithful_present(children@) && faithful_leaves(leaves@);
    let ghost hh: nat = if h == 0 { 1 } else { h };
    let mut children = children;
    if leaves.len() > 0 {
        if children.len() == 0 || children[0].is_leaf() {
            proof {
                if children@.len() > 0 {
                    assert(children@[0]@.height == 0);
                }
            }
            let mut l: usize = 0;
            while l < leaves.len()
                invariant
                    l <= leaves@.len(),
                    forall|t: int| 0 <= t < leaves@.len() ==> (#[trigger] leaves@[t]).height == 0,
                    forall|t: int| 0 <= t < children@.len() ==> (#[trigger] children@[t]).height == 0,
                    good == (all_sound(c0, lv) && all_sound(leaves@, lv)),
                    good ==> all_sound(leaves@, lv) && all_sound(children@, lv),
                    fp == (references_distinct() && faithful_present(c0) && faithful_leaves(leaves@)),
                    fp ==> faithful_present(children@),
                    fp ==> raw_keys(c0).subset_of(raw_keys(children@)),
                    fp ==> forall|t: int| 0 <= t < l ==> key_set((#[trigger] leaves@[t])@.leaves()).subset_of(raw_keys(children@)),
                    sr == settle_ready(c0, leaves@, h),
                    sr ==> hkeys_short(children@),
                    children@.len() >= c0.len(),
                    l > 0 ==> children@.len() > 0,
                    c0.len() == 0 && leaves@.len() == 1 ==> (l == 0 ==> children@.len() == 0)
                        && (l == 1 ==> children@.len() == 1 && children@[0]@ == leaves@[0]@),
                    lf == (c0.len() == 0 && leafy(leaves@)),
                    lf ==> keys_increase(children@) && leafy(children@)
                        && children_match(children@, last_hkeys(leaf_views(leaves@, l as int))),
                decreases leaves@.len() - l,
            {
                let leaf = leaves[l].copy();
                let idx = first_not_below(&children, leaf.key);
                let ghost before = children@;
                let ghost m0 = last_hkeys(leaf_views(leaves@, l as int));
                proof {
                    assert(leaf_views(leaves@, l + 1).drop_last() =~= leaf_views(leaves@, l as int));
                    assert(leaf_views(leaves@, l + 1).last() == (leaf@.key, leaf@.hkey));
                    assert(last_hkeys(leaf_views(leaves@, l + 1)) == m0.insert(leaf@.key, leaf@.hkey));
                    if lf {
                        assert(leaves@[l as int]@ == leaf@);
                    }
                }
                proof {
                    lemma_view_nodes(before);
                }
                proof {
                    if sr {
                        assert(leaf@.hkey.len() <= 255) by {
                            assert(leaves@[l as int]@ == leaf@);
                        }
                    }
                }
                if idx < children.len() && children[idx].key == leaf.key {
                    proof {
                        if lf {
                            lemma_replace_step(before, idx as int, leaf, m0);
                        }
                    }
                    children.set(idx, leaf);
                    proof {
                        if sr {
                            assert forall|t: int| 0 <= t < children@.len() implies (#[trigger] children@[t])@.hkey.len() <= 255 by {
                                if t != idx {
                                    assert(children@[t] == before[t]);
                                }
                            }
                        }
                        lemma_view_nodes(children@);
                        if good {
                            assert forall|t: int| 0 <= t < children@.len() implies sound((#[trigger] children@[t])@, lv) by {
                                if t != idx {
                                    assert(children@[t] == before[t]);
                                }
                            }
                        }
                        if fp {
                            assert(view_nodes(children@) =~= view_nodes(before).update(idx as int, leaf@));
                            assert(view_nodes(before)[idx as int] == before[idx as int]@);
                            lemma_leaf_keys(before[idx as int]@, leaf@);
                            crate::cover::lemma_keyset_update(view_nodes(before), idx as int, leaf@);
                            assert forall|t: int| 0 <= t < children@.len() implies faithful((#[trigger] children@[t])@) && !children@[t]@.is_empty() by {
                                if t != idx {
                                    assert(children@[t] == before[t]);
                                }
                            }
                        }
                    }
                } else {
                    proof {
                        if lf {
                            lemma_insert_step(before, idx as int, leaf, m0);
                        }
                    }
                    children.insert(idx, leaf);
                    proof {
                        if sr {
                            assert forall|t: int| 0 <= t < children@.len() implies (#[trigger] children@[t])@.hkey.len() <= 255 by {
                                if t < idx {
                                    assert(children@[t] == before[t]);
                                } else if t > idx {
                                    assert(children@[t] == before[t - 1]);
                                }
                            }
                        }
                        lemma_view_nodes(children@);
                        if good {
                            assert forall|t: int| 0 <= t < children@.len() implies sound((#[trigger] children@[t])@, lv) by {
                                if t < idx {
                                    assert(children@[t] == before[t]);
                                } else if t > idx {
                                    assert(children@[t] == before[t - 1]);
                                }
                            }
                        }
                        if fp {
                            assert(view_nodes(children@) =~= view_nodes(before).insert(idx as int, leaf@));
                            crate::cover::lemma_keyset_insert(view_nodes(before), idx as int, leaf@);
                            assert forall|t: int| 0 <= t < children@.len() implies faithful((#[trigger] children@[t])@) && !children@[t]@.is_empty() by {
                                if t < idx {
                                    assert(children@[t] == before[t]);
                                } else if t > idx {
                                    assert(children@[t] == before[t - 1]);
                                }
                            }
                        }
                    }
                }
                proof {
                    if fp {
                        assert(leaves@[l as int]@ == leaf@);
                        assert(raw_keys(before).subset_of(raw_keys(children@)));
                    }
                }
                l += 1;
            }
            proof {
                if fp {
                    lemma_members_covered(leaves@, raw_keys(children@));
                    assert(raw_keys(c0).union(raw_keys(leaves@)).subset_of(raw_keys(children@)));
                }
                assert forall|t: int| 0 <= t < children@.len() implies (#[trigger] children@[t])@.height + 1 <= hh by {}
                if sr {
                    if c0.len() > 0 {
                        assert(c0[0]@.height == 0);
                    }
                    assert(hh == 1);
                    assert forall|t: int| 0 <= t < children@.len() implies (#[trigger] children@[t])@.height + 1 == hh by {}
                }
            }
        } else {
            proof {
                assert(children@[0]@.height >= 1);
                assert(h >= 2);
                assert(forall|t: int| 0 <= t < children@.len() ==> (#[trigger] children@[t])@.height >= 1);
            }
            let n = children.len();
            let mut routes: Vec<usize> = Vec::new();
            let mut l: usize = 0;
            while l < leaves.len()
                invariant
                    l <= leaves@.len(),
                    n == children@.len(),
                    n > 0,
                    routes@.len() == l,
                    forall|t: int| 0 <= t < l ==> (#[trigger] routes@[t]) < n,
                decreases leaves@.len() - l,
            {
                routes.push(last_not_above(&children, leaves[l].key));
                l += 1;
            }
            let mut new_children: Vec<HtreeNode> = Vec::new();
            let mut c: usize = 0;
            while c < n
                invariant
                    c <= n,
                    n == children@.len(),
                    c0 == children@,
                    routes@.len() == leaves@.len(),
                    forall|t: int| 0 <= t < routes@.len() ==> (#[trigger] routes@[t]) < n,
                    forall|t: int| 0 <= t < leaves@.len() ==> (#[trigger] leaves@[t]).height == 0,
                    forall|t: int| 0 <= t < children@.len() ==> (#[trigger] children@[t])@.height + 1 <= h,
                    forall|t: int| 0 <= t < children@.len() ==> (#[trigger] children@[t])@.height >= 1,
                    h >= 2,
                    forall|t: int| 0 <= t < new_children@.len() ==> 1 <= (#[trigger] new_children@[t]).height && new_children@[t].height + 1 <= h,
                    good == (all_sound(c0, lv) && all_sound(leaves@, lv)),
                    good ==> all_sound(new_children@, lv),
                    fp == (references_distinct() && faithful_present(c0) && faithful_leaves(leaves@)),
                    fp ==> faithful_present(new_children@),
                    fp ==> forall|t: int| 0 <= t < c ==> key_set((#[trigger] children@[t])@.leaves()).subset_of(raw_keys(new_children@)),
                    fp ==> forall|t: int| 0 <= t < leaves@.len() && routes@[t] < c ==> key_set((#[trigger] leaves@[t])@.leaves()).subset_of(raw_keys(new_children@)),
                    sr == settle_ready(c0, leaves@, h),
                    sr ==> hkeys_short(new_children@),
                    sr ==> forall|t: int| 0 <= t < new_children@.len() ==> (#[trigger] new_children@[t])@.height + 1 == h,
                    sr && c > 0 ==> new_children@.len() > 0,
                decreases n - c,
            {
                let mut group: Vec<HtreeNode> = Vec::new();
                let first = children[c].copy();
                proof {
                    lemma_view_nodes(Seq::<HtreeNode>::empty());
                    lemma_raw_push(Seq::<HtreeNode>::empty(), first);
                    assert(Seq::<HtreeNode>::empty().push(first)[0] == first);
                    if fp {
                        assert(faithful(c0[c as int]@));
                    }
                    if sr {
                        assert(c0[c as int]@.hkey.len() <= 255);
                        lemma_hkeys_short_push(Seq::<HtreeNode>::empty(), first);
                    }
                }
                group.push(first);
                proof {
                    assert(group@ == Seq::<HtreeNode>::empty().push(first));
                }
                let mut l: usize = 0;
                while l < leaves.len()
                    invariant
                        l <= leaves@.len(),
                        c < n,
                        n == children@.len(),
                        routes@.len() == leaves@.len(),
                        group@.len() >= 1,
                        group@[0]@ == children@[c as int]@,
                        forall|t: int| 0 <= t < leaves@.len() ==> (#[trigger] leaves@[t]).height == 0,
                        forall|t: int| 0 <= t < group@.len() ==> (#[trigger] group@[t]).height + 1 <= h,
                        forall|t: int| 0 <= t < children@.len() ==> (#[trigger] children@[t])@.height + 1 <= h,
                        h >= 2,
                        good == (all_sound(c0, lv) && all_sound(leaves@, lv)),
                        c0 == children@,
                        good ==> all_sound(group@, lv),
                        fp == (references_distinct() && faithful_present(c0) && faithful_leaves(leaves@)),
                        fp ==> all_faithful(view_nodes(group@)),
                        fp ==> forall|t: int| 0 <= t < l && routes@[t] == c ==> key_set((#[trigger] leaves@[t])@.leaves()).subset_of(raw_keys(group@)),
                        group@.len() == 1 ==> forall|t: int| 0 <= t < l ==> (#[trigger] routes@[t]) != c,
                        sr == settle_ready(c0, leaves@, h),
                        sr ==> hkeys_short(group@),
                    decreases leaves@.len() - l,
                {
                    if routes[l] == c {
                        let lf = leaves[l].copy();
                        let ghost g0 = group@;
                        proof {
                            lemma_raw_push(g0, lf);
                            if good {
                                assert(sound(leaves@[l as int]@, lv));
                            }
                            if sr {
                                assert(leaves@[l as int]@ == lf@);
                                lemma_hkeys_short_push(g0, lf);
                            }
                            if fp {
                                assert(faithful(leaves@[l as int]@));
                            }
                        }
                        group.push(lf);
                        proof {
                            assert(group@ == g0.push(lf));
                        }
                    }
                    l += 1;
                }
                proof {
                    assert(children@[c as int]@.height + 1 <= h);
                    if good {
                        assert(sound(c0[c as int]@, lv));
                    }
                }
                if group.len() == 1 {
                    let only = children[c].copy();
                    let ghost before = new_children@;
                    proof {
                        lemma_raw_push(before, only);
                    }
                    new_children.push(only);
                    proof {
                        assert(new_children@ == before.push(only));
                        assert forall|t: int| 0 <= t < new_children@.len() implies 1 <= (#[trigger] new_children@[t]).height
                            && new_children@[t].height + 1 <= h && (good ==> sound(new_children@[t]@, lv))
                            && (fp ==> faithful(new_children@[t]@) && !new_children@[t]@.is_empty())
                            && (sr ==> new_children@[t]@.hkey.len() <= 255 && new_children@[t]@.height + 1 == h) by {
                            if t < before.len() {
                                assert(new_children@[t] == before[t]);
                            }
                        }
                    }
                } else {
                    let ghost gv = view_nodes(group@);
                    let ghost graw = group@;
                    proof {
                        lemma_view_nodes(group@);
                        assert forall|t: int| 0 <= t < view_nodes(group@).len() implies (#[trigger] view_nodes(group@)[t]).height <= h - 1 by {
                            assert(view_nodes(group@)[t] == group@[t]@);
                        }
                        lemma_max_height_bound(view_nodes(group@), (h - 1) as nat);
                        if good {
                            lemma_all_sound_view(group@, lv);
                        }
                        if sr {
                            assert(merge_ready(gv)) by {
                                assert forall|t: int| 0 <= t < gv.len() implies faithful(#[trigger] gv[t]) && gv[t].hkey.len() <= 255 by {
                                    assert(gv[t] == group@[t]@);
                                }
                            }
                            assert(gv[0] == group@[0]@);
                            lemma_max_height(gv);
                            assert(max_height(gv) == h - 1);
                            assert(has_nonempty(gv)) by {
                                assert(!gv[0].is_empty());
                            }
                        }
                    }
                    let mut merged = match HtreeNode::merge_many(group, store) {
                        Ok(m) => m,
                        Err(e) => {
                            proof {
                                if sr {
                                    assert(merge_ready(gv));
                                    assert(e is Store);
                                }
                            }
                            return Err(e);
                        },
                    };
                    proof {
                        lemma_view_nodes(merged@);
                        assert forall|t: int| 0 <= t < merged@.len() implies 1 <= (#[trigger] merged@[t]).height && merged@[t].height + 1 <= h by {
                            assert(view_nodes(merged@)[t] == merged@[t]@);
                        }
                        if good {
                            lemma_within_trans(leaves_seq(view_nodes(merged@)), leaves_seq(gv), lv);
                            lemma_view_all_sound(merged@, lv);
                        }
                    }
                    let ghost before = new_children@;
                    let ghost mraw = merged@;
                    new_children.append(&mut merged);
                    proof {
                        assert(new_children@ == before + mraw);
                        lemma_raw_append(before, mraw);
                        assert forall|t: int| 0 <= t < new_children@.len() implies 1 <= (#[trigger] new_children@[t]).height
                            && new_children@[t].height + 1 <= h && (good ==> sound(new_children@[t]@, lv))
                            && (fp ==> faithful(new_children@[t]@) && !new_children@[t]@.is_empty())
                            && (sr ==> new_children@[t]@.hkey.len() <= 255 && new_children@[t]@.height + 1 == h) by {
                            if t < before.len() {
                                assert(new_children@[t] == before[t]);
                            } else {
                                assert(new_children@[t] == mraw[t - before.len()]);
                                assert(view_nodes(mraw)[t - before.len()] == mraw[t - before.len()]@);
                            }
                        }
                        if sr {
                            assert(mraw.len() > 0);
                        }
                        if fp {
                            lemma_raw_member(graw, 0);
                            assert forall|t: int| 0 <= t < leaves@.len() && routes@[t] == c implies key_set((#[trigger] leaves@[t])@.leaves()).subset_of(raw_keys(mraw)) by {
                                assert(key_set(leaves@[t]@.leaves()).subset_of(raw_keys(graw)));
                            }
                        }
                    }
                }
                c += 1;
            }
            proof {
                if fp {
                    lemma_members_covered(children@, raw_keys(new_children@));
                    lemma_members_covered(leaves@, raw_keys(new_children@));
                }
            }
            children = new_children;
            proof {
                if fp {
                    assert(raw_keys(c0).union(raw_keys(leaves@)).subset_of(raw_keys(children@)));
                }
                assert forall|t: int| 0 <= t < children@.len() implies (#[trigger] children@[t])@.height + 1 <= hh by {}
                if sr {
                    assert forall|t: int| 0 <= t < children@.len() implies (#[trigger] children@[t])@.height + 1 == hh by {}
                }
            }
        }
    } else {
        proof {
            lemma_view_nodes(leaves@);
            assert(view_nodes(leaves@) =~= Seq::<NodeModel>::empty());
            assert(leaves_seq(Seq::<NodeModel>::empty()) == Seq::<LeafView>::empty());
            assert(raw_keys(leaves@) =~= Set::<u128>::empty());
            assert forall|t: int| 0 <= t < children@.len() implies (#[trigger] children@[t])@.height + 1 <= hh by {}
            if sr {
                assert forall|t: int| 0 <= t < children@.len() implies (#[trigger] children@[t])@.height + 1 == hh by {}
            }
        }
    }
    proof {
        assert(forall|t: int| 0 <= t < children@.len() ==> (#[trigger] children@[t])@.height + 1 <= hh);
        assert(good ==> all_sound(children@, lv));
        assert(fp ==> faithful_present(children@) && raw_keys(c0).union(raw_keys(leaves@)).subset_of(raw_keys(children@)));
        assert(sr ==> hkeys_short(children@) && (forall|t: int| 0 <= t < children@.len() ==> (#[trigger] children@[t])@.height + 1 == hh)
            && (c0.len() + leaves@.len() > 0 ==> children@.len() > 0));
    }
    let ghost cv = view_nodes(children@);
    proof {
        lemma_view_nodes(children@);
        if good {
            lemma_all_sound_view(children@, lv);
        }
    }
    let res = HtreeNode::from_many_children(children, store);
    proof {
        if res is Ok {
            let ps = res->Ok_0;
            lemma_view_nodes(ps@);
            if cv.len() > 0 {
                lemma_parents_one_up(cv, ps);
                if good {
                    assert forall|t: int| 0 <= t < cv.len() implies (#[trigger] cv[t]).height < 255 by {
                        assert(crate::construct::same_height(cv));
                    }
                    lemma_parents_within(view_nodes(ps@), cv, lv);
                    lemma_seq_within(view_nodes(ps@), lv);
                }
            } else {
                assert(view_nodes(ps@) =~= Seq::<NodeModel>::empty());
                assert(leaves_seq(Seq::<NodeModel>::empty()) == Seq::<LeafView>::empty());
            }
            if fp {
                assert forall|t: int| 0 <= t < cv.len() implies faithful(#[trigger] cv[t]) && !cv[t].is_empty() by {
                    assert(cv[t] == children@[t]@);
                }
                lemma_settled(cv, ps);
            }
            if cv.len() > 0 {
                assert(parents_of(view_nodes(ps@), cv));
                lemma_parents_nonempty(view_nodes(ps@), cv);
                assert forall|t: int| 0 <= t < cv.len() implies (#[trigger] cv[t]).height < 255 by {
                    assert(crate::construct::same_height(cv));
                }
                lemma_parents_leaves(view_nodes(ps@), cv);
                if leaves@.len() == 0 {
                    assert(cv == view_nodes(c0));
                }
                if c0.len() == 0 && leaves@.len() == 1 {
                    assert(cv =~= seq![leaves@[0]@]);
                    crate::model::lemma_leaves_seq_single(leaves@[0]@);
                }
                if lf {
                    let m = last_hkeys(leaf_views(leaves@, leaves@.len() as int));
                    assert(keys_increase(children@) && leafy(children@) && children_match(children@, m));
                    lemma_match_exact(children@, m);
                    assert(cv == view_nodes(children@));
                    assert forall|x: LeafView| #[trigger] leaves_seq(view_nodes(ps@)).to_multiset().count(x)
                        == (if m.contains_key(x.0) && m[x.0] == x.1 { 1nat } else { 0nat }) by {
                        assert(leaves_seq(cv).to_multiset().count(x) == (if m.contains_key(x.0) && m[x.0] == x.1 { 1nat } else { 0nat }));
                    }
                }
                assert forall|t: int| 0 <= t < ps@.len() implies (#[trigger] ps@[t])@.hkey.len() <= 255 by {
                    assert(view_nodes(ps@)[t] == ps@[t]@);
                }
            } else {
                assert(ps@.len() == 0);
                if lf {
                    assert(leaves@.len() == 0);
                    assert(leaf_views(leaves@, 0) =~= Seq::<LeafView>::empty());
                    assert(last_hkeys(Seq::<LeafView>::empty()) == Map::<u128, Seq<u8>>::empty());
                    assert(view_nodes(ps@) =~= Seq::<NodeModel>::empty());
                    assert(leaves_seq(Seq::<NodeModel>::empty()) == Seq::<LeafView>::empty());
                    crate::model::lemma_empty_to_multiset(Seq::<LeafView>::empty());
                }
            }
        }
        if sr && cv.len() > 0 {
            assert(crate::construct::same_height(cv)) by {
                assert forall|t: int| 0 <= t < cv.len() implies (#[trigger] cv[t]).height == cv[0].height by {
                    assert(cv[t] == children@[t]@);
                    assert(cv[0] == children@[0]@);
                }
            }
            assert(crate::model::hkeys_fit(cv)) by {
                assert forall|t: int| 0 <= t < cv.len() implies (#[trigger] cv[t]).hkey.len() <= 255 by {
                    assert(cv[t] == children@[t]@);
                }
            }
            assert(cv[0] == children@[0]@);
            assert(cv[0].height != 255);
        }
    }
    match res {
        Ok(ps) => Ok(ps),
        Err(e) => Err(merge_build_error(e)),
    }
}

/// Merges the trees `kept`, none of them empty: the tallest (the last of the tallest) is
/// the base, the others are taken apart down to its children's level, and the pieces are
/// merged into its children, over which parents are then built.
#[verifier::rlimit(100)]
fn merge_kept(kept: Vec<HtreeNode>, store: &InMemoryStore, Ghost(lv): Ghost<Seq<LeafView>>) -> (r: Result<Vec<HtreeNode>, HtreeNodeMergeError>)
    requires
        kept@.len() > 0,
        forall|t: int| 0 <= t < kept@.len() ==> !(#[trigger] kept@[t])@.is_empty(),
    ensures
        r matches Ok(ps) ==> forall|t: int| 0 <= t < ps@.len() ==> (#[trigger] view_nodes(ps@)[t]).height <= merged_height(view_nodes(kept@)),
        all_sound(kept@, lv) ==> (r matches Ok(ps) ==> all_materialized(view_nodes(ps@)) && leaves_within(leaves_seq(view_nodes(ps@)), lv)),
        r matches Ok(ps) ==> forall|t: int| 0 <= t < ps@.len() ==> (#[trigger] view_nodes(ps@)[t]).height >= 1,
        references_distinct() && all_faithful(view_nodes(kept@)) ==> (r matches Ok(ps) ==> faithful_nodes(view_nodes(ps@))
            && raw_keys(kept@).subset_of(raw_keys(ps@))),
        r matches Ok(ps) ==> hkeys_short(ps@),
        merge_ready(view_nodes(kept@)) ==> match r {
            Ok(ps) => {
                &&& forall|t: int| 0 <= t < ps@.len() ==> (#[trigger] view_nodes(ps@)[t]).height == merged_height(view_nodes(kept@))
                &&& ps@.len() > 0
            },
            Err(e) => e is Store,
        },
        kept@.len() == 1 && kept@[0]@.valid() ==> (r matches Ok(ps) ==> leaves_seq(view_nodes(ps@)).to_multiset()
            == kept@[0]@.leaves().to_multiset()),
        (forall|t: int| 0 <= t < kept@.len() ==> (#[trigger] kept@[t])@.height == 0) ==> (r matches Ok(ps)
            ==> exact_leaves(leaves_seq(view_nodes(ps@)), last_hkeys(leaf_views(kept@, kept@.len() as int)))),
        r matches Ok(ps) ==> crate::model::keys_nondecreasing(view_nodes(ps@)),
    decreases max_height(view_nodes(kept@)), 1nat,
{
    let ghost all0 = forall|t: int| 0 <= t < kept@.len() ==> (#[trigger] kept@[t])@.height == 0;
    let ghost one = kept@.len() == 1 && kept@[0]@.valid();
    let ghost ns = view_nodes(kept@);
    let ghost hmax = max_height(ns);
    let ghost good = all_sound(kept@, lv);
    let ghost fp = references_distinct() && all_faithful(ns);
    let ghost rd = merge_ready(ns);
    proof {
        lemma_view_nodes(kept@);
        lemma_max_height(ns);
        if rd {
            assert(fp);
            assert forall|t: int| 0 <= t < kept@.len() implies (#[trigger] kept@[t])@.hkey.len() <= 255 by {
                assert(ns[t] == kept@[t]@);
            }
        }
        assert forall|t: int| 0 <= t < kept@.len() implies (#[trigger] kept@[t])@.height <= hmax by {
            assert(ns[t] == kept@[t]@);
        }
    }
    let mut b: usize = 0;
    let mut j: usize = 1;
    while j < kept.len()
        invariant
            1 <= j <= kept@.len(),
            b < kept@.len(),
            forall|t: int| 0 <= t < j ==> (#[trigger] kept@[t]).height <= kept@[b as int].height,
        decreases kept@.len() - j,
    {
        if kept[j].height >= kept[b].height {
            b = j;
        }
        j += 1;
    }
    let base = kept[b].copy();
    let ghost h = base@.height;
    proof {
        assert(h <= hmax);
        assert(forall|t: int| 0 <= t < kept@.len() ==> (#[trigger] kept@[t]).height <= h);
        if good {
            assert(sound(kept@[b as int]@, lv));
        }
        if fp {
            assert(ns[b as int] == kept@[b as int]@);
            assert(faithful(kept@[b as int]@));
        }
        assert forall|t: int| 0 <= t < ns.len() implies (#[trigger] ns[t]).height <= h by {
            assert(ns[t] == kept@[t]@);
        }
        lemma_max_height_bound(ns, h as nat);
        assert(h == hmax);
    }
    let children: Vec<HtreeNode> = if base.is_leaf() {
        Vec::new()
    } else {
        match base.fetch_children(store) {
            Ok(c) => c,
            Err(e) => {
                proof {
                    if fp {
                        assert(heights_below(base@.state->Internal_0, base@.height));
                    }
                }
                return Err(merge_fetch_error(e));
            },
        }
    };
    proof {
        lemma_view_nodes(children@);
        lemma_view_nodes(kept@);
        if base@.height != 0 {
            lemma_fetch_heights(base@, children);
            assert forall|t: int| 0 <= t < children@.len() implies (#[trigger] children@[t])@.height + 1 == h by {
                assert(view_nodes(children@)[t] == children@[t]@);
            }
            if good {
                lemma_fetch_materialized(base@, children);
                lemma_within_trans(leaves_seq(view_nodes(children@)), base@.leaves(), lv);
                lemma_view_all_sound(children@, lv);
            }
            if fp {
                let cs = base@.state->Internal_0;
                assert(heights_below(cs, base@.height));
                assert(view_nodes(children@) == cs);
                assert(base@.leaves() == leaves_seq(cs));
                assert forall|t: int| 0 <= t < view_nodes(children@).len() implies faithful(#[trigger] view_nodes(children@)[t]) by {
                    assert(view_nodes(children@)[t] == cs[t]);
                }
            }
        } else {
            assert(children@.len() == 0);
        }
        if fp {
            assert forall|t: int| 0 <= t < view_nodes(kept@).len() implies faithful(#[trigger] view_nodes(kept@)[t]) by {
                assert(view_nodes(kept@)[t] == kept@[t]@);
            }
            assert(gather_ready(kept@, base@, children@));
        }
    }
    let (leaves, same_height_nodes) = match gather(&kept, &base, &children, store, Ghost(lv)) {
        Ok(p) => p,
        Err(e) => {
            proof {
                if rd {
                    assert(gather_ready(kept@, base@, children@));
                }
            }
            return Err(e);
        },
    };
    let ghost ch0 = children@;
    let mut children = children;
    if same_height_nodes.len() > 0 {
        let ghost input = view_nodes(children@) + view_nodes(same_height_nodes@);
        proof {
            lemma_view_nodes(same_height_nodes@);
            assert(same_height_nodes@[0].height >= 1);
            assert(children@.len() > 0);
            assert(h >= 2);
            assert forall|t: int| 0 <= t < input.len() implies (#[trigger] input[t]).height <= h - 1 by {
                if t < children@.len() {
                    assert(input[t] == view_nodes(children@)[t]);
                } else {
                    assert(input[t] == view_nodes(same_height_nodes@)[t - children@.len()]);
                }
            }
            lemma_max_height_bound(input, (h - 1) as nat);
            if good {
                lemma_all_sound_view(children@, lv);
                lemma_all_sound_view(same_height_nodes@, lv);
                lemma_concat_sound(view_nodes(children@), view_nodes(same_height_nodes@), lv);
            }
            if fp {
                assert forall|t: int| 0 <= t < view_nodes(children@).len() implies faithful_node(#[trigger] view_nodes(children@)[t]) by {
                    assert(view_nodes(children@)[t] == children@[t]@);
                    let cs = base@.state->Internal_0;
                    assert(view_nodes(children@)[t] == cs[t]);
                }
                assert forall|t: int| 0 <= t < view_nodes(same_height_nodes@).len() implies faithful(#[trigger] view_nodes(same_height_nodes@)[t]) by {
                    assert(view_nodes(same_height_nodes@)[t] == same_height_nodes@[t]@);
                }
                assert(batch_ready(children@, same_height_nodes@));
                lemma_view_nodes_concat(children@, same_height_nodes@);
                lemma_raw_append(children@, same_height_nodes@);
            }
            if rd {
                let cs = base@.state->Internal_0;
                assert(batch_ok(children@, same_height_nodes@)) by {
                    assert forall|t: int| 0 <= t < children@.len() implies faithful((#[trigger] children@[t])@) && children@[t]@.hkey.len() <= 255
                        && children@[t]@.height == children@[0]@.height && children@[t]@.height >= 1 by {
                        assert(view_nodes(children@)[t] == children@[t]@);
                        assert(view_nodes(children@)[t] == cs[t]);
                        assert(view_nodes(children@)[0] == children@[0]@);
                    }
                    assert forall|t: int| 0 <= t < same_height_nodes@.len() implies faithful((#[trigger] same_height_nodes@[t])@)
                        && same_height_nodes@[t]@.hkey.len() <= 255 && same_height_nodes@[t]@.height >= 1
                        && same_height_nodes@[t]@.height <= children@[0]@.height by {
                    }
                }
            }
        }
        let ghost ch_before = children@;
        let ghost shn_before = same_height_nodes@;
        children = match HtreeNode::merge_at_level_batched(children, same_height_nodes, store) {
            Ok(c) => c,
            Err(e) => return Err(e),
        };
        proof {
            if rd {
                assert(batch_ok(ch_before, shn_before));
                assert(ch_before[0]@.height + 1 == h) by {
                    assert(view_nodes(ch_before)[0] == ch_before[0]@);
                }
                assert forall|t: int| 0 <= t < children@.len() implies (#[trigger] children@[t])@.height + 1 == h by {
                    lemma_view_nodes(children@);
                    assert(view_nodes(children@)[t] == children@[t]@);
                }
            }
        }
        proof {
            lemma_view_nodes(children@);
            if good {
                lemma_within_trans(leaves_seq(view_nodes(children@)), leaves_seq(input), lv);
                lemma_view_all_sound(children@, lv);
            }
            assert forall|t: int| 0 <= t < children@.len() implies (#[trigger] children@[t])@.height < h && children@[t]@.height >= 1 by {
                assert(view_nodes(children@)[t] == children@[t]@);
            }
            if fp {
                assert forall|t: int| 0 <= t < children@.len() implies faithful((#[trigger] children@[t])@) && !children@[t]@.is_empty() by {
                    assert(view_nodes(children@)[t] == children@[t]@);
                }
                assert(gathered(ch0, leaves@, same_height_nodes@).subset_of(raw_keys(children@).union(raw_keys(leaves@))));
            }
        }
    } else {
        proof {
            if fp {
                lemma_view_nodes(same_height_nodes@);
                assert(view_nodes(same_height_nodes@) =~= Seq::<NodeModel>::empty());
                assert(leaves_seq(Seq::<NodeModel>::empty()) == Seq::<LeafView>::empty());
                assert(raw_keys(same_height_nodes@) =~= Set::<u128>::empty());
                assert forall|t: int| 0 <= t < children@.len() implies faithful((#[trigger] children@[t])@) && !children@[t]@.is_empty() by {
                    assert(view_nodes(children@)[t] == children@[t]@);
                    let cs = base@.state->Internal_0;
                    assert(view_nodes(children@)[t] == cs[t]);
                }
                assert(gathered(ch0, leaves@, same_height_nodes@).subset_of(raw_keys(children@).union(raw_keys(leaves@))));
            }
            if h >= 2 {
                assert forall|t: int| 0 <= t < children@.len() implies (#[trigger] children@[t])@.height >= 1 by {}
            } else {
                assert forall|t: int| 0 <= t < children@.len() implies (#[trigger] children@[t])@.height == 0 by {}
            }
            if rd {
                assert forall|t: int| 0 <= t < children@.len() implies (#[trigger] children@[t])@.hkey.len() <= 255 by {
                    assert(view_nodes(children@)[t] == children@[t]@);
                    let cs = base@.state->Internal_0;
                    assert(view_nodes(children@)[t] == cs[t]);
                }
                if h >= 1 {
                    assert(children@.len() > 0);
                }
            }
        }
    }
    proof {
        if rd {
            assert(hkeys_short(children@));
            assert(forall|t: int| 0 <= t < children@.len() ==> (#[trigger] children@[t])@.height + 1 == h);
            assert(h >= 1 ==> children@.len() > 0);
            assert(settle_ready(children@, leaves@, h as nat));
            assert(children@.len() + leaves@.len() > 0);
        }
        assert(one_kind(children@));
        if fp {
            assert(keyset(ns).subset_of(raw_keys(children@).union(raw_keys(leaves@))));
        }
    }
    let ghost ch_last = children@;
    let ghost lv_last = leaves@;
    proof {
        if all0 {
            assert(h == 0);
            assert(children@.len() == 0);
            assert(leaves@.len() == kept@.len());
            assert(leafy(leaves@)) by {
                assert forall|t: int| 0 <= t < leaves@.len() implies (#[trigger] leaves@[t])@.height == 0 && !leaves@[t]@.is_empty() by {
                    assert(leaves@[t]@ == kept@[t]@);
                }
            }
            assert(leaf_views(leaves@, leaves@.len() as int) =~= leaf_views(kept@, kept@.len() as int)) by {
                assert forall|t: int| 0 <= t < kept@.len() implies (#[trigger] leaf_views(leaves@, leaves@.len() as int)[t])
                    == leaf_views(kept@, kept@.len() as int)[t] by {
                    assert(leaves@[t]@ == kept@[t]@);
                }
            }
        }
        if one {
            assert(b == 0);
            assert(base@ == kept@[0]@);
            if h > 0 {
                let cs = base@.state->Internal_0;
                assert(heights_below(cs, base@.height));
                assert(view_nodes(ch0) == cs);
                assert(base@.leaves() == leaves_seq(cs));
                assert(same_height_nodes@.len() == 0);
                assert(children@ == ch0);
                assert(leaves@.len() == 0);
            } else {
                assert(children@.len() == 0);
                assert(leaves@.len() == 1 && leaves@[0]@ == base@);
            }
        }
    }
    let res = settle(children, leaves, store, Ghost(h as nat), Ghost(lv));
    proof {
        if res is Ok {
            let ps = res->Ok_0;
            assert forall|t: int| 0 <= t < ps@.len() implies (#[trigger] view_nodes(ps@)[t]).height <= merged_height(ns) by {
            }
        }
    }
    res
}

impl HtreeNode {
    /// Merges trees into sibling nodes that hold the leaves of all of them.
    ///
    /// Empty trees are left out. The tallest tree (the last of the tallest) is the base:
    /// its children are kept, and every other tree is taken apart down to that level,
    /// skipping internal nodes whose hkey was already seen (the same content). Leaves are
    /// put in place by key, a leaf replacing one with the same key among leaf children;
    /// nodes at the children's level are split at the children's keys and merged into the
    /// matching child. Parents are then built over the children, all at the height of the
    /// tallest tree (at least one). Trees held in memory under distinct references, with
    /// hkeys that fit a length byte, fail to merge only where the store fails. Merging leaves
    /// gives each key once, with the value of the last leaf that has it.
    #[verifier::rlimit(100)]
    pub fn merge_many(nodes: Vec<HtreeNode>, store: &InMemoryStore) -> (r: Result<Vec<HtreeNode>, HtreeNodeMergeError>)
        ensures
            r matches Ok(ps) ==> forall|t: int| 0 <= t < ps@.len() ==> (#[trigger] view_nodes(ps@)[t]).height <= merged_height(view_nodes(nodes@)),
            all_materialized(view_nodes(nodes@)) ==> (r matches Ok(ps) ==> all_materialized(view_nodes(ps@))
                && leaves_within(leaves_seq(view_nodes(ps@)), leaves_seq(view_nodes(nodes@)))),
            r matches Ok(ps) ==> forall|t: int| 0 <= t < ps@.len() ==> (#[trigger] view_nodes(ps@)[t]).height >= 1,
            references_distinct() && all_faithful(view_nodes(nodes@)) ==> (r matches Ok(ps) ==> faithful_nodes(view_nodes(ps@))
                && keyset(view_nodes(nodes@)).subset_of(raw_keys(ps@))),
            r matches Ok(ps) ==> hkeys_short(ps@),
            merge_ready(view_nodes(nodes@)) ==> match r {
                Ok(ps) => {
                    &&& forall|t: int| 0 <= t < ps@.len() ==> (#[trigger] view_nodes(ps@)[t]).height == merged_height(view_nodes(nodes@))
                    &&& has_nonempty(view_nodes(nodes@)) ==> ps@.len() > 0
                },
                Err(e) => e is Store,
            },
            !has_nonempty(view_nodes(nodes@)) ==> (r matches Ok(ps) && ps@.len() == 0),
            (forall|t: int| 0 <= t < nodes@.len() ==> (#[trigger] nodes@[t])@.height == 0) ==> (r matches Ok(ps)
                ==> exact_leaves(leaves_seq(view_nodes(ps@)), last_hkeys(leaves_seq(view_nodes(nodes@))))),
            r matches Ok(ps) ==> crate::model::keys_nondecreasing(view_nodes(ps@)),
            one_tree(view_nodes(nodes@)) ==> (r matches Ok(ps) ==> leaves_seq(view_nodes(ps@)).to_multiset()
                == leaves_seq(view_nodes(nodes@)).to_multiset()),
        decreases max_height(view_nodes(nodes@)), 2nat,
    {
        let ghost ns = view_nodes(nodes@);
        let ghost hmax = max_height(ns);
        let ghost good = all_materialized(ns);
        let ghost lv = leaves_seq(ns);
        let ghost fp = references_distinct() && all_faithful(ns);
        let ghost rd = merge_ready(ns);
        proof {
            lemma_view_nodes(nodes@);
            lemma_max_height(ns);
            lemma_within_refl(lv);
            lemma_view_nodes(Seq::<HtreeNode>::empty());
            assert(ns.subrange(0, 0) =~= Seq::<NodeModel>::empty());
            assert(leaves_seq(Seq::<NodeModel>::empty()) == Seq::<LeafView>::empty());
        }
        let mut kept: Vec<HtreeNode> = Vec::new();
        let mut i: usize = 0;
        while i < nodes.len()
            invariant
                i <= nodes@.len(),
                ns == view_nodes(nodes@),
                ns.len() == nodes@.len(),
                forall|k: int| 0 <= k < ns.len() ==> #[trigger] ns[k] == nodes@[k]@,
                forall|k: int| 0 <= k < ns.len() ==> (#[trigger] ns[k]).height <= hmax,
                forall|t: int| 0 <= t < kept@.len() ==> (#[trigger] kept@[t])@.height <= hmax && !kept@[t]@.is_empty(),
                good == all_materialized(ns),
                lv == leaves_seq(ns),
                leaves_within(lv, lv),
                good ==> all_sound(kept@, lv),
                fp == (references_distinct() && all_faithful(ns)),
                fp ==> faithful_present(kept@),
                keyset(ns.subrange(0, i as int)).subset_of(raw_keys(kept@)),
                rd == merge_ready(ns),
                rd ==> hkeys_short(kept@),
                forall|t: int| 0 <= t < i && !(#[trigger] ns[t]).is_empty() ==> exists|j: int| 0 <= j < kept@.len() && kept@[j]@ == ns[t],
                kept@.len() > 0 ==> exists|t: int| 0 <= t < i && !(#[trigger] ns[t]).is_empty(),
                leaves_seq(ns.subrange(0, i as int)) == leaves_seq(view_nodes(kept@)),
                one_tree(ns) ==> kept@.len() <= 1 && forall|j: int| 0 <= j < kept@.len() ==> (#[trigger] kept@[j])@.valid(),
            decreases nodes@.len() - i,
        {
            let ghost k0 = kept@;
            if !nodes[i].is_empty() {
                let c = nodes[i].copy();
                assert(c@ == ns[i as int]);
                proof {
                    if good {
                        lemma_member_within(ns, i as int, lv);
                    }
                    lemma_raw_push(k0, c);
                }
                proof {
                    if one_tree(ns) && k0.len() > 0 {
                        let t0 = choose|t: int| 0 <= t < i && !(#[trigger] ns[t]).is_empty();
                        assert(!ns[t0].is_empty());
                        assert(ns[i as int].is_empty());
                    }
                    lemma_view_nodes_push(k0, c);
                    crate::model::lemma_leaves_seq_push(view_nodes(k0), c@);
                }
                kept.push(c);
                proof {
                    assert(kept@ == k0.push(c));
                    if rd {
                        assert(c@.hkey.len() <= 255);
                        lemma_hkeys_short_push(k0, c);
                    }
                    assert forall|t: int| 0 <= t < i + 1 && !(#[trigger] ns[t]).is_empty() implies exists|j: int| 0 <= j < kept@.len() && kept@[j]@ == ns[t] by {
                        if t < i {
                            let j = choose|j: int| 0 <= j < k0.len() && k0[j]@ == ns[t];
                            assert(kept@[j] == k0[j]);
                        } else {
                            assert(kept@[k0.len() as int]@ == ns[t]);
                        }
                    }
                }
            } else {
                proof {
                    assert(ns[i as int].leaves() == Seq::<LeafView>::empty());
                    assert(key_set(ns[i as int].leaves()) =~= Set::<u128>::empty());
                }
            }
            proof {
                assert(ns.subrange(0, i + 1) == ns.subrange(0, i as int).push(ns[i as int]));
                lemma_keyset_push(ns.subrange(0, i as int), ns[i as int]);
                crate::model::lemma_leaves_seq_push(ns.subrange(0, i as int), ns[i as int]);
                if ns[i as int].is_empty() {
                    assert(ns[i as int].leaves() == Seq::<LeafView>::empty());
                    assert(leaves_seq(ns.subrange(0, i as int)) + Seq::<LeafView>::empty() =~= leaves_seq(ns.subrange(0, i as int)));
                }
            }
            i += 1;
        }
        proof {
            assert(ns.subrange(0, ns.len() as int) == ns);
        }
        if kept.len() == 0 {
            let out: Vec<HtreeNode> = Vec::new();
            proof {
                assert(!has_nonempty(ns));
                lemma_view_nodes(kept@);
                assert(view_nodes(kept@) =~= Seq::<NodeModel>::empty());
                assert(leaves_seq(ns) == Seq::<LeafView>::empty());
                assert(last_hkeys(Seq::<LeafView>::empty()) == Map::<u128, Seq<u8>>::empty());
                crate::model::lemma_empty_to_multiset(Seq::<LeafView>::empty());
                lemma_view_nodes(out@);
                assert(view_nodes(out@) =~= Seq::<NodeModel>::empty());
                assert(out@ =~= kept@);
                assert(leaves_seq(Seq::<NodeModel>::empty()) == Seq::<LeafView>::empty());
            }
            return Ok(out);
        }
        proof {
            let kv = view_nodes(kept@);
            lemma_view_nodes(kept@);
            lemma_max_height(kv);
            lemma_max_height(ns);
            assert forall|t: int| 0 <= t < kv.len() implies (#[trigger] kv[t]).height <= hmax by {
                assert(kv[t] == kept@[t]@);
            }
            lemma_max_height_bound(kv, hmax);
            assert forall|t: int| 0 <= t < ns.len() implies (#[trigger] ns[t]).height <= max_height(kv) by {
                if !ns[t].is_empty() {
                    let j = choose|j: int| 0 <= j < kept@.len() && kept@[j]@ == ns[t];
                    assert(kv[j] == kept@[j]@);
                }
            }
            lemma_max_height_bound(ns, max_height(kv));
            assert(max_height(kv) == hmax);
            if fp {
                assert forall|t: int| 0 <= t < kv.len() implies faithful(#[trigger] kv[t]) by {
                    assert(kv[t] == kept@[t]@);
                }
            }
            if rd {
                assert(merge_ready(kv)) by {
                    assert forall|t: int| 0 <= t < kv.len() implies faithful(#[trigger] kv[t]) && kv[t].hkey.len() <= 255 by {
                        assert(kv[t] == kept@[t]@);
                    }
                }
            }
        }
        let ghost kraw = kept@;
        proof {
            let t = choose|t: int| 0 <= t < ns.len() && !(#[trigger] ns[t]).is_empty();
            assert(has_nonempty(ns));
        }
        let res = merge_kept(kept, store, Ghost(lv));
        proof {
            if good && res is Ok {
                lemma_view_nodes(res->Ok_0@);
            }
            if one_tree(ns) {
                lemma_view_nodes(kraw);
                assert(view_nodes(kraw) =~= seq![kraw[0]@]);
                crate::model::lemma_leaves_seq_single(kraw[0]@);
            }
            if forall|t: int| 0 <= t < nodes@.len() ==> (#[trigger] nodes@[t])@.height == 0 {
                assert(leafy(kraw)) by {
                    assert forall|t: int| 0 <= t < kraw.len() implies (#[trigger] kraw[t])@.height == 0 && !kraw[t]@.is_empty() by {
                        assert(kraw[t]@.height <= hmax);
                        assert(hmax == 0) by {
                            assert forall|u: int| 0 <= u < ns.len() implies (#[trigger] ns[u]).height <= 0 by {
                                assert(ns[u] == nodes@[u]@);
                            }
                            lemma_max_height_bound(ns, 0);
                        }
                    }
                }
                lemma_leafy_leaves(kraw);
            }
        }
        res
    }

    /// Merges `nodes` into the sibling `children`: each node is split at the children's
    /// keys, and each child is merged with the parts that fall in its range. Without
    /// children, the nodes' own children are merged instead.
    #[verifier::rlimit(100)]
    fn merge_at_level_batched(children: Vec<HtreeNode>, nodes: Vec<HtreeNode>, store: &InMemoryStore) -> (r: Result<Vec<HtreeNode>, HtreeNodeMergeError>)
        ensures
            r matches Ok(v) ==> forall|t: int| 0 <= t < v@.len() ==> (#[trigger] view_nodes(v@)[t]).height <= merged_height(view_nodes(children@) + view_nodes(nodes@)),
            all_materialized(view_nodes(children@) + view_nodes(nodes@)) ==> (r matches Ok(v) ==> all_materialized(view_nodes(v@))
                && leaves_within(leaves_seq(view_nodes(v@)), leaves_seq(view_nodes(children@) + view_nodes(nodes@)))),
            (forall|t: int| 0 <= t < children@.len() ==> (#[trigger] children@[t])@.height >= 1) ==> (r matches Ok(v)
                ==> forall|t: int| 0 <= t < v@.len() ==> (#[trigger] view_nodes(v@)[t]).height >= 1),
            batch_ready(children@, nodes@) ==> (r matches Ok(v) ==> faithful_nodes(view_nodes(v@))
                && keyset(view_nodes(children@) + view_nodes(nodes@)).subset_of(raw_keys(v@))),
            batch_ok(children@, nodes@) ==> match r {
                Ok(v) => children@.len() > 0 ==> v@.len() > 0 && hkeys_short(v@)
                    && forall|t: int| 0 <= t < v@.len() ==> (#[trigger] view_nodes(v@)[t]).height == children@[0]@.height,
                Err(e) => e is Store,
            },
        decreases max_height(view_nodes(children@) + view_nodes(nodes@)), 3nat,
    {
        let ghost bo = batch_ok(children@, nodes@);
        let ghost all_in = view_nodes(children@) + view_nodes(nodes@);
        let ghost kmax = max_height(all_in);
        let ghost good = all_materialized(all_in);
        let ghost lv = leaves_seq(all_in);
        let ghost fp = batch_ready(children@, nodes@);
        let ghost upper = forall|t: int| 0 <= t < children@.len() ==> (#[trigger] children@[t])@.height >= 1;
        proof {
            if bo {
                lemma_view_nodes(children@);
                lemma_view_nodes(nodes@);
                assert forall|t: int| 0 <= t < view_nodes(children@).len() implies faithful_node(#[trigger] view_nodes(children@)[t]) by {
                    assert(view_nodes(children@)[t] == children@[t]@);
                }
                assert forall|t: int| 0 <= t < view_nodes(nodes@).len() implies faithful(#[trigger] view_nodes(nodes@)[t]) by {
                    assert(view_nodes(nodes@)[t] == nodes@[t]@);
                }
                assert(fp);
            }
            lemma_view_nodes(children@);
            lemma_view_nodes(nodes@);
            lemma_max_height(all_in);
            lemma_within_refl(lv);
            lemma_view_nodes_concat(children@, nodes@);
            lemma_raw_append(children@, nodes@);
            if good {
                assert forall|t: int| 0 <= t < nodes@.len() implies sound((#[trigger] nodes@[t])@, lv) by {
                    assert(all_in[children@.len() + t] == view_nodes(nodes@)[t]);
                    lemma_member_within(all_in, children@.len() + t, lv);
                }
                assert forall|t: int| 0 <= t < children@.len() implies sound((#[trigger] children@[t])@, lv) by {
                    assert(all_in[t] == view_nodes(children@)[t]);
                    lemma_member_within(all_in, t, lv);
                }
            }
            assert forall|t: int| 0 <= t < nodes@.len() implies (#[trigger] nodes@[t])@.height <= kmax by {
                assert(all_in[children@.len() + t] == view_nodes(nodes@)[t]);
            }
            assert forall|t: int| 0 <= t < children@.len() implies (#[trigger] children@[t])@.height <= kmax by {
                assert(all_in[t] == view_nodes(children@)[t]);
            }
            if fp {
                assert forall|t: int| 0 <= t < nodes@.len() implies faithful((#[trigger] nodes@[t])@) by {
                    assert(view_nodes(nodes@)[t] == nodes@[t]@);
                }
                assert forall|t: int| 0 <= t < children@.len() implies faithful_node((#[trigger] children@[t])@) by {
                    assert(view_nodes(children@)[t] == children@[t]@);
                }
            }
        }
        if children.len() == 0 {
            let mut all: Vec<HtreeNode> = Vec::new();
            proof {
                lemma_view_nodes(all@);
            }
            let mut j: usize = 0;
            while j < nodes.len()
                invariant
                    j <= nodes@.len(),
                    forall|t: int| 0 <= t < nodes@.len() ==> (#[trigger] nodes@[t])@.height <= kmax,
                    forall|t: int| 0 <= t < all@.len() ==> (#[trigger] all@[t])@.height <= kmax,
                    good ==> all_sound(nodes@, lv) && all_sound(all@, lv),
                    fp == batch_ready(children@, nodes@),
                    fp ==> forall|t: int| 0 <= t < nodes@.len() ==> faithful((#[trigger] nodes@[t])@),
                    fp ==> all_faithful(view_nodes(all@)),
                    bo == batch_ok(children@, nodes@),
                    bo ==> fp && hkeys_short(all@),
                    fp ==> forall|t: int| 0 <= t < j ==> key_set((#[trigger] nodes@[t])@.leaves()).subset_of(raw_keys(all@)),
                decreases nodes@.len() - j,
            {
                let mut kids = match nodes[j].fetch_children(store) {
                    Ok(kids) => kids,
                    Err(e) => {
                        proof {
                            if bo {
                                assert(heights_below(nodes@[j as int]@.state->Internal_0, nodes@[j as int]@.height));
                            }
                        }
                        return Err(merge_fetch_error(e));
                    },
                };
                let ghost before = all@;
                let ghost kraw = kids@;
                proof {
                    lemma_view_nodes(kids@);
                    if good {
                        assert(sound(nodes@[j as int]@, lv));
                        lemma_fetch_materialized(nodes@[j as int]@, kids);
                        lemma_within_trans(leaves_seq(view_nodes(kids@)), nodes@[j as int]@.leaves(), lv);
                        lemma_view_all_sound(kids@, lv);
                    }
                    if nodes@[j as int]@.height > 0 {
                        lemma_fetch_heights(nodes@[j as int]@, kids);
                        assert forall|t: int| 0 <= t < kids@.len() implies (#[trigger] kids@[t])@.height <= kmax by {
                            assert(view_nodes(kids@)[t] == kids@[t]@);
                        }
                    }
                    if fp {
                        let m = nodes@[j as int]@;
                        assert(m.height >= 1);
                        let cs = m.state->Internal_0;
                        assert(heights_below(cs, m.height));
                        assert(view_nodes(kraw) == cs);
                        assert(m.leaves() == leaves_seq(cs));
                        assert(all_faithful(view_nodes(kraw)));
                        lemma_raw_append(before, kraw);
                    }
                }
                all.append(&mut kids);
                proof {
                    assert(all@ == before + kraw);
                    if bo {
                        let cs = nodes@[j as int]@.state->Internal_0;
                        assert(view_nodes(kraw) == cs);
                        assert forall|t: int| 0 <= t < all@.len() implies (#[trigger] all@[t])@.hkey.len() <= 255 by {
                            if t < before.len() {
                                assert(all@[t] == before[t]);
                            } else {
                                assert(all@[t] == kraw[t - before.len()]);
                                assert(view_nodes(kraw)[t - before.len()] == kraw[t - before.len()]@);
                            }
                        }
                    }
                    assert forall|t: int| 0 <= t < all@.len() implies (#[trigger] all@[t])@.height <= kmax
                        && (good ==> sound(all@[t]@, lv)) by {
                        if t < before.len() {
                            assert(all@[t] == before[t]);
                        } else {
                            assert(all@[t] == kraw[t - before.len()]);
                        }
                    }
                }
                j += 1;
            }
            proof {
                lemma_view_nodes(all@);
                assert forall|t: int| 0 <= t < view_nodes(all@).len() implies (#[trigger] view_nodes(all@)[t]).height <= kmax by {
                    assert(view_nodes(all@)[t] == all@[t]@);
                }
                lemma_max_height_bound(view_nodes(all@), kmax);
                if good {
                    lemma_all_sound_view(all@, lv);
                }
                if fp {
                    lemma_members_covered(nodes@, raw_keys(all@));
                    assert(raw_keys(children@) =~= Set::<u128>::empty()) by {
                        assert(view_nodes(children@) =~= Seq::<NodeModel>::empty());
                        assert(leaves_seq(Seq::<NodeModel>::empty()) == Seq::<LeafView>::empty());
                    }
                }
            }
            let ghost av = view_nodes(all@);
            let ghost araw = all@;
            proof {
                if bo {
                    assert(merge_ready(av)) by {
                        assert forall|t: int| 0 <= t < av.len() implies faithful(#[trigger] av[t]) && av[t].hkey.len() <= 255 by {
                            assert(av[t] == araw[t]@);
                        }
                    }
                }
            }
            let res = Self::merge_many(all, store);
            proof {
                if good && res is Ok {
                    lemma_within_trans(leaves_seq(view_nodes(res->Ok_0@)), leaves_seq(av), lv);
                }
                if fp && res is Ok {
                    assert(raw_keys(araw).subset_of(raw_keys(res->Ok_0@)));
                }
            }
            return res;
        }
        let n = children.len();
        let mut split_keys: Vec<u128> = Vec::new();
        let mut i: usize = 1;
        while i < n
            invariant
                1 <= i <= n,
                n == children@.len(),
                split_keys@.len() == i - 1,
            decreases n - i,
        {
            split_keys.push(children[i].key);
            i += 1;
        }
        let ghost sk = split_keys@;
        let mut rows: Vec<Vec<Option<HtreeNode>>> = Vec::new();
        let mut j: usize = 0;
        while j < nodes.len()
            invariant
                j <= nodes@.len(),
                n == children@.len(),
                sk == split_keys@,
                split_keys@.len() + 1 == n,
                rows@.len() == j,
                forall|t: int| 0 <= t < nodes@.len() ==> (#[trigger] nodes@[t])@.height <= kmax,
                forall|a: int| 0 <= a < rows@.len() ==> (#[trigger] rows@[a])@.len() == n,
                forall|a: int, c: int| 0 <= a < rows@.len() && 0 <= c < n ==> (#[trigger] rows@[a]@[c] matches Some(p) ==> p@.height <= kmax),
                good ==> all_sound(nodes@, lv),
                good ==> forall|a: int, c: int| 0 <= a < rows@.len() && 0 <= c < n ==> (#[trigger] rows@[a]@[c] matches Some(p) ==> sound(p@, lv)),
                fp == batch_ready(children@, nodes@),
                fp ==> forall|t: int| 0 <= t < nodes@.len() ==> faithful((#[trigger] nodes@[t])@),
                fp ==> forall|a: int, c: int| 0 <= a < rows@.len() && 0 <= c < n ==> fpart_spec(nodes@[a]@, part_lo(sk, c), part_hi(sk, c),
                    Ok::<(Option<HtreeNode>, bool), HtreeNodeSplitManyError>((#[trigger] rows@[a]@[c], false))),
                bo == batch_ok(children@, nodes@),
                bo ==> fp,
                bo ==> forall|a: int, c: int| 0 <= a < rows@.len() && 0 <= c < n ==> (#[trigger] rows@[a]@[c] matches Some(p)
                    ==> p@.height <= children@[0]@.height && p@.hkey.len() <= 255),
            decreases nodes@.len() - j,
        {
            let row = match nodes[j].split_many(split_keys.as_slice(), store) {
                Ok(row) => row,
                Err(e) => {
                    proof {
                        if bo {
                            assert(faithful(nodes@[j as int]@));
                        }
                    }
                    return Err(merge_split_error(e));
                },
            };
            proof {
                assert forall|c: int| 0 <= c < n implies (#[trigger] row@[c] matches Some(p) ==> p@.height <= kmax
                    && (good ==> sound(p@, lv)) && (bo ==> p@.height <= children@[0]@.height && p@.hkey.len() <= 255)) by {
                    if bo && row@[c] is Some {
                        assert(fpart_spec(nodes@[j as int]@, part_lo(sk, c), part_hi(sk, c),
                            Ok::<(Option<HtreeNode>, bool), HtreeNodeSplitManyError>((row@[c], false))));
                    }
                    assert(nodes@[j as int]@.height <= kmax);
                    if good {
                        assert(sound(nodes@[j as int]@, lv));
                        if row@[c] is Some {
                            lemma_within_trans(row@[c]->Some_0@.leaves(), nodes@[j as int]@.leaves(), lv);
                        }
                    }
                }
            }
            let ghost r0 = rows@;
            rows.push(row);
            proof {
                assert forall|a: int, c: int| 0 <= a < rows@.len() && 0 <= c < n implies (#[trigger] rows@[a]@[c] matches Some(p) ==> p@.height <= kmax
                    && (good ==> sound(p@, lv)) && (bo ==> p@.height <= children@[0]@.height && p@.hkey.len() <= 255))
                    && (fp ==> fpart_spec(nodes@[a]@, part_lo(sk, c), part_hi(sk, c),
                    Ok::<(Option<HtreeNode>, bool), HtreeNodeSplitManyError>((rows@[a]@[c], false)))) by {
                    if a < r0.len() {
                        assert(rows@[a] == r0[a]);
                    } else {
                        assert(rows@[a] == row);
                    }
                }
            }
            j += 1;
        }
        let mut result: Vec<HtreeNode> = Vec::new();
        proof {
            lemma_view_nodes(result@);
        }
        let mut c: usize = 0;
        while c < n
            invariant
                c <= n,
                n == children@.len(),
                sk == split_keys@,
                sk.len() + 1 == n,
                rows@.len() == nodes@.len(),
                forall|a: int| 0 <= a < rows@.len() ==> (#[trigger] rows@[a])@.len() == n,
                forall|a: int, x: int| 0 <= a < rows@.len() && 0 <= x < n ==> (#[trigger] rows@[a]@[x] matches Some(p) ==> p@.height <= kmax),
                forall|t: int| 0 <= t < children@.len() ==> (#[trigger] children@[t])@.height <= kmax,
                kmax == max_height(all_in),
                all_in == view_nodes(children@) + view_nodes(nodes@),
                forall|t: int| 0 <= t < result@.len() ==> (#[trigger] result@[t])@.height <= merged_height(all_in),
                upper == forall|t: int| 0 <= t < children@.len() ==> (#[trigger] children@[t])@.height >= 1,
                upper ==> forall|t: int| 0 <= t < result@.len() ==> (#[trigger] result@[t])@.height >= 1,
                good == all_materialized(all_in),
                lv == leaves_seq(all_in),
                good ==> all_sound(children@, lv) && all_sound(result@, lv),
                good ==> forall|a: int, x: int| 0 <= a < rows@.len() && 0 <= x < n ==> (#[trigger] rows@[a]@[x] matches Some(p) ==> sound(p@, lv)),
                fp == batch_ready(children@, nodes@),
                fp ==> forall|t: int| 0 <= t < children@.len() ==> faithful_node((#[trigger] children@[t])@),
                fp ==> forall|a: int, x: int| 0 <= a < rows@.len() && 0 <= x < n ==> fpart_spec(nodes@[a]@, part_lo(sk, x), part_hi(sk, x),
                    Ok::<(Option<HtreeNode>, bool), HtreeNodeSplitManyError>((#[trigger] rows@[a]@[x], false))),
                fp ==> faithful_nodes(view_nodes(result@)),
                fp ==> forall|t: int| 0 <= t < c ==> key_set((#[trigger] children@[t])@.leaves()).subset_of(raw_keys(result@)),
                fp ==> forall|a: int, x: int| 0 <= a < rows@.len() && 0 <= x < c ==> (#[trigger] rows@[a]@[x] matches Some(p)
                    ==> key_set(p@.leaves()).subset_of(raw_keys(result@))),
                bo == batch_ok(children@, nodes@),
                bo ==> fp,
                bo ==> forall|a: int, x: int| 0 <= a < rows@.len() && 0 <= x < n ==> (#[trigger] rows@[a]@[x] matches Some(p)
                    ==> p@.height <= children@[0]@.height && p@.hkey.len() <= 255),
                bo ==> hkeys_short(result@) && forall|t: int| 0 <= t < result@.len() ==> (#[trigger] result@[t])@.height == children@[0]@.height,
                bo && c > 0 ==> result@.len() > 0,
            decreases n - c,
        {
            let mut group: Vec<HtreeNode> = Vec::new();
            let first = children[c].copy();
            proof {
                lemma_view_nodes(Seq::<HtreeNode>::empty());
                lemma_raw_push(Seq::<HtreeNode>::empty(), first);
                assert(Seq::<HtreeNode>::empty().push(first)[0] == first);
                if bo {
                    assert(children@[c as int]@.hkey.len() <= 255);
                    lemma_hkeys_short_push(Seq::<HtreeNode>::empty(), first);
                }
            }
            group.push(first);
            proof {
                assert(group@ == Seq::<HtreeNode>::empty().push(first));
            }
            let mut a: usize = 0;
            while a < rows.len()
                invariant
                    a <= rows@.len(),
                    c < n,
                    n == children@.len(),
                    forall|x: int| 0 <= x < rows@.len() ==> (#[trigger] rows@[x])@.len() == n,
                    forall|x: int, y: int| 0 <= x < rows@.len() && 0 <= y < n ==> (#[trigger] rows@[x]@[y] matches Some(p) ==> p@.height <= kmax),
                    group@.len() >= 1,
                    group@[0]@ == children@[c as int]@,
                    forall|t: int| 0 <= t < group@.len() ==> (#[trigger] group@[t])@.height <= kmax,
                    good ==> all_sound(group@, lv),
                    good ==> forall|x: int, y: int| 0 <= x < rows@.len() && 0 <= y < n ==> (#[trigger] rows@[x]@[y] matches Some(p) ==> sound(p@, lv)),
                    fp == batch_ready(children@, nodes@),
                    rows@.len() == nodes@.len(),
                    fp ==> forall|t: int| 0 <= t < children@.len() ==> faithful_node((#[trigger] children@[t])@),
                    fp ==> forall|x: int, y: int| 0 <= x < rows@.len() && 0 <= y < n ==> fpart_spec(nodes@[x]@, part_lo(sk, y), part_hi(sk, y),
                        Ok::<(Option<HtreeNode>, bool), HtreeNodeSplitManyError>((#[trigger] rows@[x]@[y], false))),
                    fp ==> all_faithful(view_nodes(group@)),
                    fp ==> forall|x: int| 0 <= x < a ==> (#[trigger] rows@[x]@[c as int] matches Some(p) ==> key_set(p@.leaves()).subset_of(raw_keys(group@))),
                    group@.len() == 1 ==> forall|x: int| 0 <= x < a ==> (#[trigger] rows@[x]@[c as int]) is None,
                    bo == batch_ok(children@, nodes@),
                    bo ==> forall|x: int, y: int| 0 <= x < rows@.len() && 0 <= y < n ==> (#[trigger] rows@[x]@[y] matches Some(p)
                        ==> p@.height <= children@[0]@.height && p@.hkey.len() <= 255),
                    bo ==> hkeys_short(group@) && forall|t: int| 0 <= t < group@.len() ==> (#[trigger] group@[t])@.height <= children@[0]@.height,
                decreases rows@.len() - a,
            {
                let ghost g0 = group@;
                match &rows[a][c] {
                    Some(p) => {
                        let q = p.copy();
                        proof {
                            lemma_raw_push(g0, q);
                            if bo {
                                lemma_hkeys_short_push(g0, q);
                            }
                        }
                        group.push(q);
                        proof {
                            assert(group@ == g0.push(q));
                            if bo {
                                assert forall|t: int| 0 <= t < group@.len() implies (#[trigger] group@[t])@.height <= children@[0]@.height by {
                                    if t < g0.len() {
                                        assert(group@[t] == g0[t]);
                                    }
                                }
                            }
                        }
                    },
                    None => {},
                }
                a += 1;
            }
            if group.len() == 1 {
                let only = children[c].copy();
                let ghost before = result@;
                proof {
                    lemma_raw_push(before, only);
                }
                result.push(only);
                proof {
                    assert(result@ == before.push(only));
                    assert forall|t: int| 0 <= t < result@.len() implies (#[trigger] result@[t])@.height <= merged_height(all_in)
                        && (upper ==> result@[t]@.height >= 1) && (good ==> sound(result@[t]@, lv))
                        && (bo ==> result@[t]@.hkey.len() <= 255 && result@[t]@.height == children@[0]@.height) by {
                        if t < before.len() {
                            assert(result@[t] == before[t]);
                        }
                    }
                }
            } else {
                let ghost gv = view_nodes(group@);
                let ghost graw = group@;
                proof {
                    lemma_view_nodes(group@);
                    assert forall|t: int| 0 <= t < view_nodes(group@).len() implies (#[trigger] view_nodes(group@)[t]).height <= kmax by {
                        assert(view_nodes(group@)[t] == group@[t]@);
                    }
                    lemma_max_height_bound(view_nodes(group@), kmax);
                    if good {
                        lemma_all_sound_view(group@, lv);
                    }
                    if bo {
                        assert(merge_ready(gv)) by {
                            assert forall|t: int| 0 <= t < gv.len() implies faithful(#[trigger] gv[t]) && gv[t].hkey.len() <= 255 by {
                                assert(gv[t] == group@[t]@);
                            }
                        }
                        assert(gv[0] == group@[0]@);
                        assert forall|t: int| 0 <= t < gv.len() implies (#[trigger] gv[t]).height <= children@[0]@.height by {
                            assert(gv[t] == group@[t]@);
                        }
                        lemma_max_height_bound(gv, children@[0]@.height as nat);
                        lemma_max_height(gv);
                        assert(max_height(gv) == children@[0]@.height);
                        assert(has_nonempty(gv)) by {
                            assert(!gv[0].is_empty());
                        }
                    }
                }
                let mut merged = match Self::merge_many(group, store) {
                    Ok(m) => m,
                    Err(e) => {
                        proof {
                            if bo {
                                assert(merge_ready(gv));
                            }
                        }
                        return Err(e);
                    },
                };
                proof {
                    lemma_view_nodes(merged@);
                    assert forall|t: int| 0 <= t < merged@.len() implies (#[trigger] merged@[t])@.height <= merged_height(all_in)
                        && merged@[t]@.height >= 1 by {
                        assert(view_nodes(merged@)[t] == merged@[t]@);
                    }
                    if good {
                        lemma_within_trans(leaves_seq(view_nodes(merged@)), leaves_seq(gv), lv);
                        lemma_view_all_sound(merged@, lv);
                    }
                }
                let ghost before = result@;
                let ghost mraw = merged@;
                result.append(&mut merged);
                proof {
                    assert(result@ == before + mraw);
                    lemma_raw_append(before, mraw);
                    assert forall|t: int| 0 <= t < result@.len() implies (#[trigger] result@[t])@.height <= merged_height(all_in)
                        && (upper ==> result@[t]@.height >= 1) && (good ==> sound(result@[t]@, lv))
                        && (bo ==> result@[t]@.hkey.len() <= 255 && result@[t]@.height == children@[0]@.height) by {
                        if t < before.len() {
                            assert(result@[t] == before[t]);
                        } else {
                            assert(result@[t] == mraw[t - before.len()]);
                            assert(view_nodes(mraw)[t - before.len()] == mraw[t - before.len()]@);
                        }
                    }
                    if bo {
                        assert(mraw.len() > 0);
                    }
                    if fp {
                        lemma_raw_member(graw, 0);
                        assert(raw_keys(graw).subset_of(raw_keys(mraw)));
                    }
                }
            }
            c += 1;
        }
        proof {
            lemma_view_nodes(result@);
            assert forall|t: int| 0 <= t < result@.len() implies (#[trigger] view_nodes(result@)[t]).height <= merged_height(all_in) by {
                assert(view_nodes(result@)[t] == result@[t]@);
            }
            if good {
                lemma_all_sound_view(result@, lv);
            }
            if fp {
                lemma_members_covered(children@, raw_keys(result@));
                assert forall|a: int| 0 <= a < nodes@.len() implies key_set((#[trigger] nodes@[a])@.leaves()).subset_of(raw_keys(result@)) by {
                    assert forall|k: u128| key_set(nodes@[a]@.leaves()).contains(k) implies raw_keys(result@).contains(k) by {
                        lemma_key_in_some_part(nodes@[a]@, sk, rows@[a]@, k);
                        let x = choose|x: int| 0 <= x < rows@[a]@.len() && (#[trigger] rows@[a]@[x] matches Some(p) && key_set(p@.leaves()).contains(k));
                    }
                }
                lemma_members_covered(nodes@, raw_keys(result@));
            }
        }
        Ok(result)
    }

    /// Merges two trees into one holding the leaves of both: the merged siblings, under
    /// one more parent when there are several. Trees held in memory under distinct
    /// references fail to merge only where the store fails, or where a tree is already at
    /// the greatest height and the extra parent does not fit.
    pub fn merge(self, other: HtreeNode, store: &InMemoryStore) -> (r: Result<HtreeNode, HtreeNodeMergeError>)
        ensures
            materialized(self@) && materialized(other@) ==> (r matches Ok(n) ==> materialized(n@)
                && leaves_within(n@.leaves(), self@.leaves() + other@.leaves())),
            references_distinct() && faithful(self@) && faithful(other@) ==> (r matches Ok(n) ==> faithful(n@)
                && key_set(self@.leaves()).union(key_set(other@.leaves())).subset_of(key_set(n@.leaves()))),
            self@.is_empty() && other@.is_empty() ==> (r matches Ok(n) && n@.is_empty()),
            (self@.valid() && other@.is_empty()) || (self@.is_empty() && other@.valid()) ==> (r matches Ok(n)
                ==> n@.leaves().to_multiset() == (self@.leaves() + other@.leaves()).to_multiset()),
            self@.height == 0 && other@.height == 0 ==> (r matches Ok(n)
                ==> exact_leaves(n@.leaves(), last_hkeys(self@.leaves() + other@.leaves()))),
            references_distinct() && faithful(self@) && faithful(other@) && self@.hkey.len() <= 255 && other@.hkey.len() <= 255
                ==> (r matches Err(e) ==> e is Store || (e matches HtreeNodeMergeError::FromChildren(HtreeNodeFromChildrenError::HeightOverflow)
                && (self@.height == 255 || other@.height == 255))),
    {
        let ghost a = self@;
        let ghost b = other@;
        let ghost fp = references_distinct() && faithful(a) && faithful(b);
        let nodes: Vec<HtreeNode> = vec![self, other];
        let ghost ns = view_nodes(nodes@);
        proof {
            lemma_view_nodes(nodes@);
            assert(ns =~= seq![a, b]);
            assert(seq![a, b] =~= seq![a] + seq![b]);
            crate::model::lemma_leaves_seq_concat(seq![a], seq![b]);
            crate::model::lemma_leaves_seq_single(a);
            crate::model::lemma_leaves_seq_single(b);
            assert(leaves_seq(ns) == a.leaves() + b.leaves());
            crate::cover::lemma_key_set_concat(a.leaves(), b.leaves());
            assert(keyset(ns) == key_set(a.leaves()).union(key_set(b.leaves())));
            if fp {
                assert(all_faithful(ns)) by {
                    assert(ns[0] == a && ns[1] == b);
                }
            }
            if fp && a.hkey.len() <= 255 && b.hkey.len() <= 255 {
                assert(merge_ready(ns)) by {
                    assert(ns[0] == a && ns[1] == b);
                }
            }
            lemma_max_height(ns);
            assert(ns[0] == a && ns[1] == b);
            if (a.valid() && b.is_empty()) || (a.is_empty() && b.valid()) {
                assert(one_tree(ns));
            }
            assert(nodes@[0]@ == a && nodes@[1]@ == b);
        }
        let mut merged = match Self::merge_many(nodes, store) {
            Ok(m) => m,
            Err(e) => return Err(e),
        };
        let ghost mv = view_nodes(merged@);
        proof {
            lemma_view_nodes(merged@);
        }
        if merged.len() <= 1 {
            let last = merged.pop();
            proof {
                if last is Some {
                    assert(mv =~= seq![last->Some_0@]);
                    crate::model::lemma_leaves_seq_single(last->Some_0@);
                    assert(mv[0] == last->Some_0@);
                } else {
                    assert(mv =~= Seq::<NodeModel>::empty());
                    assert(leaves_seq(Seq::<NodeModel>::empty()) == Seq::<LeafView>::empty());
                }
                crate::model::lemma_empty_to_multiset(Seq::<LeafView>::empty());
            }
            return match last {
                Some(n) => Ok(n),
                None => {
                    let d = Self::default_node();
                    proof {
                        assert(d@.leaves() =~= Seq::<LeafView>::empty());
                    }
                    Ok(d)
                },
            };
        }
        let res = Self::from_children(merged, store);
        proof {
            if fp && a.hkey.len() <= 255 && b.hkey.len() <= 255 {
                assert(crate::construct::same_height(mv)) by {
                    assert forall|t: int| 0 <= t < mv.len() implies (#[trigger] mv[t]).height == mv[0].height by {}
                }
                assert(crate::model::hkeys_fit(mv)) by {
                    assert forall|t: int| 0 <= t < mv.len() implies (#[trigger] mv[t]).hkey.len() <= 255 by {
                        assert(mv[t] == merged@[t]@);
                    }
                }
                if mv[0].height == 255 {
                    assert(max_height(ns) == 255);
                    let t = choose|t: int| 0 <= t < ns.len() && (#[trigger] ns[t]).height == max_height(ns);
                    assert(a.height == 255 || b.height == 255);
                }
            }
            if res is Ok {
                let n = res->Ok_0;
                assert(crate::construct::sorted_parent_of(n@, mv));
                if materialized(a) && materialized(b) {
                    assert forall|t: int| 0 <= t < mv.len() implies materialized(#[trigger] mv[t]) && mv[t].height < 255 by {
                        assert(crate::construct::same_height(mv));
                    }
                    crate::split::lemma_parent_materialized(n@, mv);
                    lemma_within_trans(n@.leaves(), leaves_seq(mv), a.leaves() + b.leaves());
                }
                if mv[0].height != 255 {
                    let cs = children_of(n@);
                    assert(crate::construct::same_height(mv));
                    crate::construct::lemma_perm_contains(cs, mv);
                    vstd::seq_lib::to_multiset_len(cs);
                    vstd::seq_lib::to_multiset_len(mv);
                    assert(cs.len() > 0);
                    assert(mv.contains(cs[0]));
                    assert(n@.height > 0);
                    assert(n@.leaves() == leaves_seq(cs));
                    crate::lemmas::lemma_perm_leaves(cs, mv);
                }
                if fp {
                    assert(crate::split::faithful_siblings(mv, mv[0].height)) by {
                        assert(crate::construct::same_height(mv));
                    }
                    crate::split::lemma_parent_faithful(n@, mv, mv[0].height);
                    crate::cover::lemma_key_set_perm(n@.leaves(), leaves_seq(mv));
                }
            }
        }
        match res {
            Ok(n) => Ok(n),
            Err(e) => Err(merge_build_error(e)),
        }
    }
}

} // verus!
