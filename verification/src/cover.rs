use vstd::prelude::*;

use crate::insert::key_set;
use crate::lemmas::lemma_leaves_seq_member;
use crate::model::{leaves_seq, lemma_leaves_seq_concat, LeafView, NodeModel};

verus! {

/// The keys of the leaves of the nodes `ns`.
pub open spec fn keyset(ns: Seq<NodeModel>) -> Set<u128> {
    key_set(leaves_seq(ns))
}

pub proof fn lemma_key_set_concat(a: Seq<LeafView>, b: Seq<LeafView>)
    ensures
        key_set(a + b) == key_set(a).union(key_set(b)),
{
    assert forall|k: u128| key_set(a + b).contains(k) <==> key_set(a).union(key_set(b)).contains(k) by {
        if key_set(a + b).contains(k) {
            let j = choose|j: int| 0 <= j < (a + b).len() && (#[trigger] (a + b)[j]).0 == k;
            if j < a.len() {
                assert((a + b)[j] == a[j]);
            } else {
                assert((a + b)[j] == b[j - a.len()]);
            }
        }
        if key_set(a).contains(k) {
            let j = choose|j: int| 0 <= j < a.len() && (#[trigger] a[j]).0 == k;
            assert((a + b)[j] == a[j]);
        }
        if key_set(b).contains(k) {
            let j = choose|j: int| 0 <= j < b.len() && (#[trigger] b[j]).0 == k;
            assert((a + b)[a.len() + j] == b[j]);
        }
    }
    assert(key_set(a + b) =~= key_set(a).union(key_set(b)));
}

pub proof fn lemma_keyset_concat(a: Seq<NodeModel>, b: Seq<NodeModel>)
    ensures
        keyset(a + b) == keyset(a).union(keyset(b)),
{
    lemma_leaves_seq_concat(a, b);
    lemma_key_set_concat(leaves_seq(a), leaves_seq(b));
}

pub proof fn lemma_keyset_push(a: Seq<NodeModel>, x: NodeModel)
    ensures
        keyset(a.push(x)) == keyset(a).union(key_set(x.leaves())),
{
    crate::model::lemma_leaves_seq_push(a, x);
    lemma_key_set_concat(leaves_seq(a), x.leaves());
}

/// The keys of one node of a sequence are keys of the sequence.
pub proof fn lemma_keyset_member(ns: Seq<NodeModel>, t: int)
    requires
        0 <= t < ns.len(),
    ensures
        key_set(ns[t].leaves()).subset_of(keyset(ns)),
{
    crate::lemmas::lemma_child_leaves_within(ns, t);
    assert forall|k: u128| key_set(ns[t].leaves()).contains(k) implies keyset(ns).contains(k) by {
        let j = choose|j: int| 0 <= j < ns[t].leaves().len() && (#[trigger] ns[t].leaves()[j]).0 == k;
        assert(leaves_seq(ns).contains(ns[t].leaves()[j]));
        let p = choose|p: int| 0 <= p < leaves_seq(ns).len() && leaves_seq(ns)[p] == ns[t].leaves()[j];
        assert(leaves_seq(ns)[p].0 == k);
    }
}

/// Every key of a sequence is a key of one of its nodes.
pub proof fn lemma_keyset_owner(ns: Seq<NodeModel>, k: u128)
    requires
        keyset(ns).contains(k),
    ensures
        exists|t: int| 0 <= t < ns.len() && key_set((#[trigger] ns[t]).leaves()).contains(k),
{
    let p = choose|p: int| 0 <= p < leaves_seq(ns).len() && (#[trigger] leaves_seq(ns)[p]).0 == k;
    lemma_leaves_seq_member(ns, p);
    let (t, q) = choose|t: int, q: int| 0 <= t < ns.len() && 0 <= q < ns[t].leaves().len() && leaves_seq(ns)[p] == #[trigger] ns[t].leaves()[q];
    assert(ns[t].leaves()[q].0 == k);
}

/// Leaves that are the same up to order have the same keys.
pub proof fn lemma_key_set_perm(a: Seq<LeafView>, b: Seq<LeafView>)
    requires
        a.to_multiset() == b.to_multiset(),
    ensures
        key_set(a) == key_set(b),
{
    crate::construct::lemma_perm_contains(a, b);
    crate::construct::lemma_perm_contains(b, a);
    assert forall|k: u128| key_set(a).contains(k) <==> key_set(b).contains(k) by {
        if key_set(a).contains(k) {
            let j = choose|j: int| 0 <= j < a.len() && (#[trigger] a[j]).0 == k;
            assert(b.contains(a[j]));
            let i = choose|i: int| 0 <= i < b.len() && b[i] == a[j];
            assert(b[i].0 == k);
        }
        if key_set(b).contains(k) {
            let j = choose|j: int| 0 <= j < b.len() && (#[trigger] b[j]).0 == k;
            assert(a.contains(b[j]));
            let i = choose|i: int| 0 <= i < a.len() && a[i] == b[j];
            assert(a[i].0 == k);
        }
    }
    assert(key_set(a) =~= key_set(b));
}

/// Key `k` lies in `a`, or in the leaves of a witness lower than `below`.
pub open spec fn covered_by(k: u128, wit: Seq<NodeModel>, below: nat, a: Set<u128>) -> bool {
    ||| a.contains(k)
    ||| exists|j: int| 0 <= j < wit.len() && (#[trigger] wit[j]).height < below && key_set(wit[j].leaves()).contains(k)
}

/// Every key of witness `i` is covered.
pub open spec fn witness_done(wit: Seq<NodeModel>, i: int, a: Set<u128>) -> bool {
    forall|k: u128| #[trigger] key_set(wit[i].leaves()).contains(k) ==> covered_by(k, wit, wit[i].height as nat, a)
}

/// Every key of witness `i` is covered, unless the witness is still to be visited.
pub open spec fn witness_ok(wit: Seq<NodeModel>, i: int, a: Set<u128>, pending: Seq<NodeModel>) -> bool {
    pending.contains(wit[i]) || witness_done(wit, i, a)
}

/// When no witness is pending, the keys of every witness lie in `a`.
pub proof fn lemma_witnesses_closed(wit: Seq<NodeModel>, a: Set<u128>, h: nat)
    requires
        forall|i: int| 0 <= i < wit.len() ==> #[trigger] witness_done(wit, i, a),
    ensures
        forall|i: int| 0 <= i < wit.len() && wit[i].height <= h ==> key_set((#[trigger] wit[i]).leaves()).subset_of(a),
    decreases h,
{
    if h > 0 {
        lemma_witnesses_closed(wit, a, (h - 1) as nat);
    }
    assert forall|i: int| 0 <= i < wit.len() && wit[i].height <= h implies key_set((#[trigger] wit[i]).leaves()).subset_of(a) by {
        assert forall|k: u128| key_set(wit[i].leaves()).contains(k) implies a.contains(k) by {
            assert(witness_done(wit, i, a));
            assert(covered_by(k, wit, wit[i].height as nat, a));
            if !a.contains(k) {
                let j = choose|j: int| 0 <= j < wit.len() && (#[trigger] wit[j]).height < wit[i].height as nat && key_set(wit[j].leaves()).contains(k);
                assert(h > 0);
                assert(wit[j].height <= h - 1);
            }
        }
    }
}

/// Covering is kept when `a` grows and witnesses are added.
pub proof fn lemma_covered_grow(k: u128, wit: Seq<NodeModel>, below: nat, a: Set<u128>, wit2: Seq<NodeModel>, a2: Set<u128>)
    requires
        covered_by(k, wit, below, a),
        a.subset_of(a2),
        wit.len() <= wit2.len(),
        forall|j: int| 0 <= j < wit.len() ==> wit2[j] == wit[j],
    ensures
        covered_by(k, wit2, below, a2),
{
    if !a.contains(k) {
        let j = choose|j: int| 0 <= j < wit.len() && (#[trigger] wit[j]).height < below && key_set(wit[j].leaves()).contains(k);
        assert(wit2[j] == wit[j]);
    }
}

/// Parents built over faithful siblings are faithful internal nodes one level up, and
/// hold the same keys.
pub proof fn lemma_parents_faithful(ps: Seq<NodeModel>, input: Seq<NodeModel>, h: u8)
    requires
        crate::construct::parents_of(ps, input),
        h < 255,
        crate::split::faithful_siblings(input, h),
    ensures
        crate::split::faithful_siblings(ps, (h + 1) as u8),
        keyset(ps) == keyset(input),
{
    let gs = ps.map_values(|p: NodeModel| crate::construct::children_of(p));
    let f = crate::group::flatten(gs);
    crate::construct::lemma_perm_contains(f, input);
    assert forall|t: int| 0 <= t < ps.len() implies {
        &&& crate::faithful::faithful(#[trigger] ps[t])
        &&& ps[t].height == h + 1
        &&& !ps[t].is_empty()
        &&& ps[t].hkey.len() <= 255
        &&& ((h + 1) as u8 > 0 ==> ps[t].state is Internal)
        &&& ps[t].leaves() == leaves_seq(gs[t])
    } by {
        let cs = crate::construct::children_of(ps[t]);
        assert(gs[t] == cs);
        crate::construct::lemma_group_members(gs, t);
        assert(cs.len() > 0);
        assert forall|i: int| 0 <= i < cs.len() implies {
            &&& (#[trigger] cs[i]).height + 1 == ps[t].height
            &&& !cs[i].is_empty()
            &&& cs[i].hkey.len() <= 255
            &&& crate::faithful::faithful(cs[i])
        } by {
            assert(f.contains(gs[t][i]));
            let k = choose|k: int| 0 <= k < f.len() && f[k] == gs[t][i];
            assert(input.contains(f[k]));
            assert(f.contains(gs[t][0]));
            let k0 = choose|k0: int| 0 <= k0 < f.len() && f[k0] == gs[t][0];
            assert(input.contains(f[k0]));
        }
        assert(f.contains(gs[t][0]));
        let k0 = choose|k0: int| 0 <= k0 < f.len() && f[k0] == gs[t][0];
        assert(input.contains(f[k0]));
        assert(ps[t].hkey.len() <= crate::store::MAX_COMPACT_HKEY);
    }
    crate::lemmas::lemma_leaves_parents(ps, gs);
    crate::lemmas::lemma_perm_leaves(f, input);
    lemma_key_set_perm(leaves_seq(f), leaves_seq(input));
}

/// Replacing a node by a leaf with the key of that node's leaves keeps every key.
pub proof fn lemma_keyset_update(ns: Seq<NodeModel>, i: int, x: NodeModel)
    requires
        0 <= i < ns.len(),
        key_set(ns[i].leaves()).subset_of(key_set(x.leaves())),
    ensures
        keyset(ns).union(key_set(x.leaves())).subset_of(keyset(ns.update(i, x))),
{
    let n2 = ns.update(i, x);
    assert(n2[i] == x);
    lemma_keyset_member(n2, i);
    assert forall|k: u128| keyset(ns).contains(k) implies keyset(n2).contains(k) by {
        lemma_keyset_owner(ns, k);
        let t = choose|t: int| 0 <= t < ns.len() && key_set((#[trigger] ns[t]).leaves()).contains(k);
        if t == i {
        } else {
            assert(n2[t] == ns[t]);
            lemma_keyset_member(n2, t);
        }
    }
}

/// Inserting a node keeps every key and adds its keys.
pub proof fn lemma_keyset_insert(ns: Seq<NodeModel>, i: int, x: NodeModel)
    requires
        0 <= i <= ns.len(),
    ensures
        keyset(ns).union(key_set(x.leaves())).subset_of(keyset(ns.insert(i, x))),
{
    let n2 = ns.insert(i, x);
    assert(n2[i] == x);
    lemma_keyset_member(n2, i);
    assert forall|k: u128| keyset(ns).contains(k) implies keyset(n2).contains(k) by {
        lemma_keyset_owner(ns, k);
        let t = choose|t: int| 0 <= t < ns.len() && key_set((#[trigger] ns[t]).leaves()).contains(k);
        if t < i {
            assert(n2[t] == ns[t]);
            lemma_keyset_member(n2, t);
        } else {
            assert(n2[t + 1] == ns[t]);
            lemma_keyset_member(n2, t + 1);
        }
    }
}

/// Every node is faithful.
pub open spec fn all_faithful(ns: Seq<NodeModel>) -> bool {
    forall|t: int| 0 <= t < ns.len() ==> crate::faithful::faithful(#[trigger] ns[t])
}

/// Every node is a faithful internal node that is not empty and whose hkey fits a length
/// byte.
pub open spec fn faithful_nodes(ns: Seq<NodeModel>) -> bool {
    forall|t: int| 0 <= t < ns.len() ==> {
        &&& crate::faithful::faithful(#[trigger] ns[t])
        &&& !ns[t].is_empty()
        &&& ns[t].hkey.len() <= 255
        &&& ns[t].state is Internal
    }
}

/// Key `k` lies in partition `p` for the split keys `sk`.
pub open spec fn in_part(sk: Seq<u128>, p: int, k: u128) -> bool {
    !crate::split::outside_part(crate::split::part_lo(sk, p), crate::split::part_hi(sk, p)).contains(k)
}

/// Every key lies in some partition.
pub proof fn lemma_some_part(sk: Seq<u128>, k: u128)
    ensures
        exists|p: int| 0 <= p <= sk.len() && #[trigger] in_part(sk, p, k),
{
    lemma_some_part_from(sk, k, 0);
}

proof fn lemma_some_part_from(sk: Seq<u128>, k: u128, p: int)
    requires
        0 <= p <= sk.len(),
        p == 0 || sk[p - 1] <= k,
    ensures
        exists|q: int| 0 <= q <= sk.len() && #[trigger] in_part(sk, q, k),
    decreases sk.len() - p,
{
    if p == sk.len() || k < sk[p] {
        assert(in_part(sk, p, k));
    } else {
        lemma_some_part_from(sk, k, p + 1);
    }
}

/// A leaf whose key is not removed is kept.
pub proof fn lemma_without_keeps(ls: Seq<LeafView>, ks: Set<u128>, l: LeafView)
    requires
        ls.contains(l),
        !ks.contains(l.0),
    ensures
        crate::keys::without_keys(ls, ks).contains(l),
{
    crate::keys::lemma_without_count(ls, ks, l);
    vstd::seq_lib::to_multiset_contains(ls, l);
    vstd::seq_lib::to_multiset_contains(crate::keys::without_keys(ls, ks), l);
}

/// A key of `m` inside the range is a key of the part of `m` in the range.
pub proof fn lemma_part_key(ls: Seq<LeafView>, lo: Option<u128>, hi: Option<u128>, out: Seq<LeafView>, k: u128)
    requires
        key_set(ls).contains(k),
        !crate::split::outside_part(lo, hi).contains(k),
        out.to_multiset() == crate::split::part_leaves(ls, lo, hi).to_multiset(),
    ensures
        key_set(out).contains(k),
        crate::split::part_leaves(ls, lo, hi).len() > 0,
{
    let j = choose|j: int| 0 <= j < ls.len() && (#[trigger] ls[j]).0 == k;
    let l = ls[j];
    lemma_without_keeps(ls, crate::split::outside_part(lo, hi), l);
    let pl = crate::split::part_leaves(ls, lo, hi);
    crate::construct::lemma_perm_contains(pl, out);
    let q = choose|q: int| 0 <= q < pl.len() && pl[q] == l;
    assert(out.contains(pl[q]));
    let r = choose|r: int| 0 <= r < out.len() && out[r] == pl[q];
    assert(out[r].0 == k);
}

} // verus!
