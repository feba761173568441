use vstd::prelude::*;

use crate::construct::{children_of, parent_model, parents_of};
use crate::group::{all_same_key, boundary_ok, flatten, lemma_flatten_concat, lemma_flatten_single, sizes_ok};
use crate::model::{
    child_facts, keys_nondecreasing, leaves_seq, lemma_children_leaves, lemma_leaves_seq_concat,
    lemma_leaves_seq_push, lemma_nodes_sorted_keys, lemma_valid_leaves, nodes_sorted, separated, sep,
    LeafView, NodeModel,
};

verus! {

broadcast use vstd::multiset::group_multiset_axioms;

/// A value counted twice in a sequence stands at two distinct places.
pub proof fn lemma_two_copies<A>(s: Seq<A>, x: A)
    requires
        s.to_multiset().count(x) >= 2,
    ensures
        exists|i: int, j: int| 0 <= i < j < s.len() && s[i] == x && s[j] == x,
    decreases s.len(),
{
    if s.len() == 0 {
        crate::model::lemma_empty_to_multiset(s);
    } else {
        let d = s.drop_last();
        assert(d.push(s.last()) =~= s);
        vstd::seq_lib::to_multiset_build(d, s.last());
        if d.to_multiset().count(x) >= 2 {
            lemma_two_copies(d, x);
            let (i, j) = choose|i: int, j: int| 0 <= i < j < d.len() && d[i] == x && d[j] == x;
            assert(s[i] == x && s[j] == x);
        } else {
            assert(s.last() == x);
            vstd::seq_lib::to_multiset_contains(d, x);
            let i = choose|i: int| 0 <= i < d.len() && d[i] == x;
            assert(s[i] == x && s[s.len() - 1] == x);
        }
    }
}

/// A value at two distinct places of a sequence is counted at least twice.
pub proof fn lemma_two_places<A>(s: Seq<A>, i: int, j: int)
    requires
        0 <= i < s.len(),
        0 <= j < s.len(),
        i != j,
        s[i] == s[j],
    ensures
        s.to_multiset().count(s[i]) >= 2,
{
    let r = s.remove(i);
    vstd::seq_lib::to_multiset_remove(s, i);
    s.remove_ensures(i);
    let k = if j < i { j } else { j - 1 };
    assert(r[k] == s[i]);
    vstd::seq_lib::to_multiset_contains(r, s[i]);
    assert(r.contains(s[i]));
}

/// Separation does not depend on the order of the nodes.
pub proof fn lemma_perm_separated(a: Seq<NodeModel>, b: Seq<NodeModel>)
    requires
        a.to_multiset() == b.to_multiset(),
        separated(a),
    ensures
        separated(b),
{
    assert forall|i: int, j: int| 0 <= i < b.len() && 0 <= j < b.len() && i != j implies sep(#[trigger] b[i], #[trigger] b[j]) by {
        vstd::seq_lib::to_multiset_contains(b, b[i]);
        vstd::seq_lib::to_multiset_contains(b, b[j]);
        vstd::seq_lib::to_multiset_contains(a, b[i]);
        vstd::seq_lib::to_multiset_contains(a, b[j]);
        assert(b.contains(b[i]) && b.contains(b[j]));
        if b[i] != b[j] {
            let i2 = choose|k: int| 0 <= k < a.len() && a[k] == b[i];
            let j2 = choose|k: int| 0 <= k < a.len() && a[k] == b[j];
            assert(sep(a[i2], a[j2]));
        } else {
            lemma_two_places(b, i, j);
            lemma_two_copies(a, b[i]);
            let (i2, j2) = choose|i2: int, j2: int| 0 <= i2 < j2 < a.len() && a[i2] == b[i] && a[j2] == b[i];
            assert(sep(a[i2], a[j2]));
        }
    }
}

/// Reordering nodes reorders their leaves.
pub proof fn lemma_perm_leaves(a: Seq<NodeModel>, b: Seq<NodeModel>)
    requires
        a.to_multiset() == b.to_multiset(),
    ensures
        leaves_seq(a).to_multiset() == leaves_seq(b).to_multiset(),
    decreases a.len(),
{
    vstd::seq_lib::to_multiset_len(a);
    vstd::seq_lib::to_multiset_len(b);
    if a.len() == 0 {
        assert(a =~= Seq::<NodeModel>::empty());
        assert(b =~= Seq::<NodeModel>::empty());
    } else {
        let x = a.last();
        let a2 = a.drop_last();
        assert(a2.push(x) =~= a);
        vstd::seq_lib::to_multiset_build(a2, x);
        vstd::seq_lib::to_multiset_contains(b, x);
        assert(a.to_multiset().count(x) > 0);
        let j = choose|j: int| 0 <= j < b.len() && b[j] == x;
        let b2 = b.remove(j);
        vstd::seq_lib::to_multiset_remove(b, j);
        assert(a2.to_multiset() =~= b2.to_multiset());
        lemma_perm_leaves(a2, b2);
        let pre = b.subrange(0, j);
        let post = b.subrange(j + 1, b.len() as int);
        assert(b2 =~= pre + post);
        assert(b =~= pre + (seq![x] + post));
        lemma_leaves_seq_concat(pre, post);
        lemma_leaves_seq_concat(pre, seq![x] + post);
        lemma_leaves_seq_concat(seq![x], post);
        crate::model::lemma_leaves_seq_single(x);
        lemma_leaves_seq_push(a2, x);
        let lp = leaves_seq(pre);
        let lq = leaves_seq(post);
        let lx = x.leaves();
        vstd::seq_lib::lemma_multiset_commutative(lp, lq);
        vstd::seq_lib::lemma_multiset_commutative(lp, lx + lq);
        vstd::seq_lib::lemma_multiset_commutative(lx, lq);
        vstd::seq_lib::lemma_multiset_commutative(leaves_seq(a2), lx);
        assert(leaves_seq(a).to_multiset() =~= leaves_seq(b).to_multiset());
    }
}

/// The offset at which group `t` starts in the flattened groups.
pub open spec fn offset(gs: Seq<Seq<NodeModel>>, t: int) -> int {
    flatten(gs.subrange(0, t)).len() as int
}

pub proof fn lemma_flatten_split(gs: Seq<Seq<NodeModel>>, t: int)
    requires
        0 <= t < gs.len(),
    ensures
        flatten(gs) == flatten(gs.subrange(0, t)) + gs[t] + flatten(gs.subrange(t + 1, gs.len() as int)),
        offset(gs, t + 1) == offset(gs, t) + gs[t].len(),
        forall|i: int| 0 <= i < gs[t].len() ==> flatten(gs)[offset(gs, t) + i] == #[trigger] gs[t][i],
        offset(gs, t) + gs[t].len() <= flatten(gs).len(),
{
    let pre = gs.subrange(0, t);
    let post = gs.subrange(t + 1, gs.len() as int);
    assert(gs =~= pre + (seq![gs[t]] + post));
    lemma_flatten_concat(pre, seq![gs[t]] + post);
    lemma_flatten_concat(seq![gs[t]], post);
    lemma_flatten_single(gs[t]);
    assert(gs.subrange(0, t + 1) =~= pre.push(gs[t]));
    assert(flatten(pre.push(gs[t])) == flatten(pre) + gs[t]) by {
        assert(pre.push(gs[t]).drop_last() =~= pre);
    }
    assert(flatten(gs) =~= flatten(pre) + gs[t] + flatten(post));
}

pub proof fn lemma_offset_monotone(gs: Seq<Seq<NodeModel>>, t: int, u: int)
    requires
        0 <= t <= u <= gs.len(),
    ensures
        offset(gs, t) <= offset(gs, u),
    decreases u - t,
{
    if t < u {
        lemma_offset_monotone(gs, t, u - 1);
        lemma_flatten_split(gs, u - 1);
    }
}

/// The leaves of parents are the leaves of their children in order.
pub proof fn lemma_leaves_parents(ps: Seq<NodeModel>, gs: Seq<Seq<NodeModel>>)
    requires
        ps.len() == gs.len(),
        forall|t: int| 0 <= t < ps.len() ==> (#[trigger] ps[t]).leaves() == leaves_seq(gs[t]),
    ensures
        leaves_seq(ps) == leaves_seq(flatten(gs)),
    decreases ps.len(),
{
    if ps.len() == 0 {
        assert(flatten(gs) == Seq::<NodeModel>::empty());
    } else {
        let pd = ps.drop_last();
        let gd = gs.drop_last();
        lemma_leaves_parents(pd, gd);
        assert(pd.push(ps.last()) =~= ps);
        lemma_leaves_seq_push(pd, ps.last());
        lemma_leaves_seq_concat(flatten(gd), gs.last());
        assert(flatten(gs) == flatten(gd) + gs.last());
        assert(ps.last() == ps[ps.len() - 1]);
    }
}

/// The last leaf of a sequence of nodes is the last leaf of its last node.
pub proof fn lemma_leaves_seq_last(g: Seq<NodeModel>)
    requires
        g.len() > 0,
        g.last().leaves().len() > 0,
    ensures
        leaves_seq(g).len() > 0,
        leaves_seq(g).last() == g.last().leaves().last(),
{
    assert(g.drop_last().push(g.last()) =~= g);
    lemma_leaves_seq_push(g.drop_last(), g.last());
}

/// Valid nodes that start at their key: what every child of a valid node of height
/// `h + 1` is.
pub open spec fn good_child(c: NodeModel, h: u8) -> bool {
    c.height == h && c.valid() && c.nonempty_at_key()
}

/// Parents built over valid, non-interleaving children of one height are themselves
/// valid and non-interleaving, they are ordered by key, and together they hold exactly
/// the leaves of the children.
pub proof fn lemma_parents_valid(ps: Seq<NodeModel>, input: Seq<NodeModel>, h: u8)
    requires
        parents_of(ps, input),
        h < 255,
        crate::model::hkeys_fit(input),
        forall|i: int| 0 <= i < input.len() ==> good_child(#[trigger] input[i], h),
        separated(input),
    ensures
        forall|t: int| 0 <= t < ps.len() ==> good_child(#[trigger] ps[t], (h + 1) as u8),
        separated(ps),
        keys_nondecreasing(ps),
        leaves_seq(ps).to_multiset() == leaves_seq(input).to_multiset(),
{
    let gs = ps.map_values(|p: NodeModel| children_of(p));
    let f = flatten(gs);
    lemma_perm_separated(input, f);
    crate::construct::lemma_perm_contains(f, input);
    lemma_nodes_sorted_keys(f);
    assert forall|k: int| 0 <= k < f.len() implies good_child(#[trigger] f[k], h) && child_facts(f[k]) by {
        assert(input.contains(f[k]));
        lemma_valid_leaves(f[k]);
    }
    // each parent
    assert forall|t: int| 0 <= t < ps.len() implies good_child(#[trigger] ps[t], (h + 1) as u8)
        && ps[t].leaves() == leaves_seq(gs[t]) by {
        let g = gs[t];
        assert(g == children_of(ps[t]));
        lemma_flatten_split(gs, t);
        let off = offset(gs, t);
        assert(g.len() > 0);
        assert(f[off] == g[0]);
        assert(g[0].height == h);
        assert forall|i: int, j: int| 0 <= i <= j < g.len() implies (#[trigger] g[i]).key <= (#[trigger] g[j]).key by {
            assert(f[off + i] == g[i] && f[off + j] == g[j]);
        }
        assert forall|i: int, j: int| 0 <= i < g.len() && 0 <= j < g.len() && i != j implies sep(#[trigger] g[i], #[trigger] g[j]) by {
            assert(f[off + i] == g[i] && f[off + j] == g[j]);
        }
        assert forall|i: int| 0 <= i < g.len() implies good_child(#[trigger] g[i], h) && child_facts(g[i]) && g[i].hkey.len() <= 255 by {
            assert(f[off + i] == g[i]);
            assert(input.contains(f[off + i]));
        }
        lemma_children_leaves(g);
        assert(ps[t].leaves() == leaves_seq(g));
    }
    // keys of parents never decrease
    assert forall|t: int, u: int| 0 <= t <= u < ps.len() implies (#[trigger] ps[t]).key <= (#[trigger] ps[u]).key by {
        lemma_flatten_split(gs, t);
        lemma_flatten_split(gs, u);
        lemma_offset_monotone(gs, t, u);
        assert(ps[t].key == gs[t][0].key && ps[u].key == gs[u][0].key);
        assert(f[offset(gs, t)] == gs[t][0] && f[offset(gs, u)] == gs[u][0]);
    }
    // parents do not interleave
    assert forall|t: int, u: int| 0 <= t < ps.len() && 0 <= u < ps.len() && t != u implies sep(#[trigger] ps[t], #[trigger] ps[u]) by {
        if t < u {
            lemma_parents_sep(ps, gs, h, t, u);
        } else {
            lemma_parents_sep(ps, gs, h, u, t);
        }
    }
    lemma_leaves_parents(ps, gs);
    lemma_perm_leaves(f, input);
}

proof fn lemma_parents_sep(ps: Seq<NodeModel>, gs: Seq<Seq<NodeModel>>, h: u8, t: int, u: int)
    requires
        0 <= t < u < ps.len(),
        gs == ps.map_values(|p: NodeModel| children_of(p)),
        forall|x: int| 0 <= x < ps.len() ==> (#[trigger] ps[x]).leaves() == leaves_seq(gs[x]),
        forall|x: int| 0 <= x < ps.len() ==> (#[trigger] ps[x]).key == gs[x][0].key,
        sizes_ok(gs),
        boundary_ok(gs),
        separated(flatten(gs)),
        keys_nondecreasing(flatten(gs)),
        forall|k: int| 0 <= k < flatten(gs).len() ==> child_facts(#[trigger] flatten(gs)[k]),
    ensures
        sep(ps[t], ps[u]),
        sep(ps[u], ps[t]),
{
    let f = flatten(gs);
    lemma_flatten_split(gs, t);
    lemma_flatten_split(gs, u);
    lemma_offset_monotone(gs, t + 1, u);
    let gt = gs[t];
    let gu = gs[u];
    let ia = offset(gs, t) + gt.len() - 1;
    let ib = offset(gs, u);
    let ic = offset(gs, u) + gu.len() - 1;
    let a = f[ia];
    let b = f[ib];
    let c = f[ic];
    assert(a == gt.last() && b == gu[0] && c == gu.last());
    assert(ia < ib && ib <= ic);
    assert(child_facts(a) && child_facts(b) && child_facts(c));
    lemma_leaves_seq_last(gt);
    lemma_leaves_seq_last(gu);
    assert(ps[t].max_key() == a.max_key());
    assert(ps[u].max_key() == c.max_key());
    assert(a.leaves()[0].0 <= a.leaves().last().0);
    assert(b.leaves()[0].0 <= b.leaves().last().0);
    assert(c.leaves()[0].0 <= c.leaves().last().0);
    assert(sep(f[ia], f[ib]));
    if a.key < b.key {
        assert(a.max_key() < b.key);
    } else {
        let k = a.key;
        assert(b.key == k);
        // the group after `gt` starts with the same key
        lemma_flatten_split(gs, t + 1);
        let n = f[offset(gs, t + 1)];
        assert(n == gs[t + 1][0]);
        assert(n.key == k);
        assert(all_same_key(gs[t]) && all_same_key(gs[t + 1])) by {
            assert(gs[t].last().key == gs[t + 1][0].key);
        }
        if u > t + 1 {
            lemma_flatten_split(gs, u - 1);
            lemma_offset_monotone(gs, t + 1, u - 1);
            let m = f[offset(gs, u - 1) + gs[u - 1].len() - 1];
            assert(m == gs[u - 1].last());
            assert(m.key == k);
            assert(all_same_key(gs[u])) by {
                assert(gs[u - 1].last().key == gs[u][0].key);
            }
        }
        assert(all_same_key(gu));
        assert(c.key == k);
        assert(a.pure());
        if ic != ia {
            assert(sep(f[ia], f[ic]));
        }
        assert(c.pure());
        assert(ps[t].key == k && ps[u].key == k);
        assert(ps[t].pure() && ps[u].pure());
    }
}

} // verus!

verus! {

/// Some leaf of `ls` has key `k`.
pub open spec fn has_key(ls: Seq<LeafView>, k: u128) -> bool {
    exists|i: int| 0 <= i < ls.len() && (#[trigger] ls[i]).0 == k
}

/// Every leaf of `a` is a leaf of `b`.
pub open spec fn leaves_within(a: Seq<LeafView>, b: Seq<LeafView>) -> bool {
    forall|i: int| 0 <= i < a.len() ==> b.contains(#[trigger] a[i])
}

pub proof fn lemma_leaves_seq_member(s: Seq<NodeModel>, p: int)
    requires
        0 <= p < leaves_seq(s).len(),
    ensures
        exists|j: int, q: int| 0 <= j < s.len() && 0 <= q < s[j].leaves().len() && leaves_seq(s)[p] == #[trigger] s[j].leaves()[q],
    decreases s.len(),
{
    let rest = s.subrange(1, s.len() as int);
    assert(leaves_seq(s) == s[0].leaves() + leaves_seq(rest));
    if p < s[0].leaves().len() {
        assert(leaves_seq(s)[p] == s[0].leaves()[p]);
    } else {
        lemma_leaves_seq_member(rest, p - s[0].leaves().len());
        let (j, q) = choose|j: int, q: int| 0 <= j < rest.len() && 0 <= q < rest[j].leaves().len() && leaves_seq(rest)[p - s[0].leaves().len()] == #[trigger] rest[j].leaves()[q];
        assert(rest[j] == s[j + 1]);
        assert(leaves_seq(s)[p] == s[j + 1].leaves()[q]);
    }
}

pub proof fn lemma_child_leaves_within(s: Seq<NodeModel>, j: int)
    requires
        0 <= j < s.len(),
    ensures
        leaves_within(s[j].leaves(), leaves_seq(s)),
    decreases s.len(),
{
    let rest = s.subrange(1, s.len() as int);
    assert(leaves_seq(s) == s[0].leaves() + leaves_seq(rest));
    if j == 0 {
        assert forall|i: int| 0 <= i < s[0].leaves().len() implies leaves_seq(s).contains(#[trigger] s[0].leaves()[i]) by {
            assert(leaves_seq(s)[i] == s[0].leaves()[i]);
        }
    } else {
        lemma_child_leaves_within(rest, j - 1);
        assert(rest[j - 1] == s[j]);
        assert forall|i: int| 0 <= i < s[j].leaves().len() implies leaves_seq(s).contains(#[trigger] s[j].leaves()[i]) by {
            let x = s[j].leaves()[i];
            assert(leaves_seq(rest).contains(x));
            let k = choose|k: int| 0 <= k < leaves_seq(rest).len() && leaves_seq(rest)[k] == x;
            assert(leaves_seq(s)[s[0].leaves().len() + k] == x);
        }
    }
}

/// In a valid internal node, a key that the node holds is held by the last child whose
/// key does not exceed it; when no child's key is small enough, the node does not hold it.
pub proof fn lemma_select(m: NodeModel, k: u128, idx: int)
    requires
        m.valid(),
        m.height > 0,
        0 <= idx < children_of(m).len(),
        children_of(m)[idx].key <= k,
        forall|j: int| idx < j < children_of(m).len() ==> (#[trigger] children_of(m)[j]).key > k,
    ensures
        has_key(m.leaves(), k) ==> has_key(children_of(m)[idx].leaves(), k),
{
    let cs = children_of(m);
    if has_key(m.leaves(), k) {
        let p = choose|p: int| 0 <= p < m.leaves().len() && (#[trigger] m.leaves()[p]).0 == k;
        assert(m.leaves() == leaves_seq(cs));
        lemma_leaves_seq_member(cs, p);
        let (j, q) = choose|j: int, q: int| 0 <= j < cs.len() && 0 <= q < cs[j].leaves().len() && leaves_seq(cs)[p] == #[trigger] cs[j].leaves()[q];
        let cj = cs[j];
        let ci = cs[idx];
        lemma_valid_leaves(cj);
        lemma_valid_leaves(ci);
        assert(cj.leaves()[0].0 <= cj.leaves()[q].0);
        assert(cj.leaves()[q].0 <= cj.leaves().last().0);
        assert(ci.leaves()[0].0 <= ci.leaves().last().0);
        if j > idx {
            assert(cj.key > k);
        } else if j < idx {
            assert(cj.key <= ci.key);
            assert(sep(cs[j], cs[idx]));
            assert(ci.leaves()[0].0 == ci.key);
        } else {
            assert(cj.leaves()[q].0 == k);
        }
    }
}

pub proof fn lemma_select_none(m: NodeModel, k: u128)
    requires
        m.valid(),
        m.height > 0,
        children_of(m)[0].key > k,
    ensures
        !has_key(m.leaves(), k),
{
    lemma_valid_leaves(m);
    if has_key(m.leaves(), k) {
        let p = choose|p: int| 0 <= p < m.leaves().len() && (#[trigger] m.leaves()[p]).0 == k;
        assert(m.leaves()[0].0 <= m.leaves()[p].0);
    }
}

} // verus!

verus! {

/// A parent built over valid, non-interleaving children of one height is valid and
/// holds exactly the leaves of its children.
pub proof fn lemma_parent_valid(n: NodeModel, input: Seq<NodeModel>, h: u8)
    requires
        crate::construct::sorted_parent_of(n, input),
        input.len() > 0,
        h < 255,
        crate::model::hkeys_fit(input),
        forall|i: int| 0 <= i < input.len() ==> good_child(#[trigger] input[i], h),
        separated(input),
    ensures
        good_child(n, (h + 1) as u8),
        n.leaves().to_multiset() == leaves_seq(input).to_multiset(),
{
    let cs = children_of(n);
    crate::construct::lemma_perm_contains(cs, input);
    lemma_perm_separated(input, cs);
    lemma_nodes_sorted_keys(cs);
    assert forall|k: int| 0 <= k < cs.len() implies good_child(#[trigger] cs[k], h) && child_facts(cs[k])
        && cs[k].hkey.len() <= 255 by {
        assert(input.contains(cs[k]));
        lemma_valid_leaves(cs[k]);
    }
    lemma_children_leaves(cs);
    assert(n.leaves() == leaves_seq(cs));
    lemma_perm_leaves(cs, input);
}

/// A node that keeps some of another's leaves, starting at its own key, does not
/// interleave with anything the other did not interleave with.
pub proof fn lemma_sep_shrink(a: NodeModel, a2: NodeModel, b: NodeModel)
    requires
        sep(a, b),
        child_facts(a),
        child_facts(a2),
        child_facts(b),
        leaves_within(a2.leaves(), a.leaves()),
    ensures
        sep(a2, b),
        sep(b, a2),
{
    let la = a.leaves();
    let l2 = a2.leaves();
    assert(la.contains(l2[0]));
    assert(la.contains(l2.last()));
    let i0 = choose|i: int| 0 <= i < la.len() && la[i] == l2[0];
    let i1 = choose|i: int| 0 <= i < la.len() && la[i] == l2.last();
    assert(la[0].0 <= la[i0].0 && la[i1].0 <= la.last().0);
    assert(la[0].0 <= la[i1].0 && la[i0].0 <= la.last().0);
    assert(l2[0].0 <= l2.last().0);
    assert(a2.key >= a.key);
    assert(a2.max_key() <= a.max_key());
}

} // verus!
