use vstd::prelude::*;

use ps_hkey::{InMemoryStore, InMemoryStoreError};

use crate::construct::{children_of, empty_model, parents_of, parents_result, same_height, HtreeNodeFromChildrenError};
use crate::group::flatten;
use crate::keys::bounded;
use crate::lemmas::{good_child, lemma_child_leaves_within, lemma_leaves_seq_member, lemma_two_copies, lemma_two_places, offset};
use crate::model::{child_facts, keys_sorted, leaves_seq, lemma_valid_leaves, nodes_sorted, sep, LeafView, NodeModel};
use crate::node::{lemma_view_nodes, lemma_view_nodes_push, view_nodes, HtreeNode};

verus! {

broadcast use vstd::multiset::group_multiset_axioms;

/// Every leaf of `a` comes before every leaf of `b`.
pub open spec fn apart(a: NodeModel, b: NodeModel) -> bool {
    a.max_key() < b.key
}

/// Each node lies wholly before the next ones.
pub open spec fn strictly_apart(ns: Seq<NodeModel>) -> bool {
    forall|i: int, j: int| 0 <= i < j < ns.len() ==> apart(#[trigger] ns[i], #[trigger] ns[j])
}

/// No two of the nodes share a key range: of any two, one lies wholly before the other.
pub open spec fn disjoint(ns: Seq<NodeModel>) -> bool {
    forall|i: int, j: int| 0 <= i < ns.len() && 0 <= j < ns.len() && i != j ==> apart(#[trigger] ns[i], #[trigger] ns[j]) || apart(ns[j], ns[i])
}

/// A valid subtree that holds a leaf and can be a child.
pub open spec fn tree_ok(c: NodeModel) -> bool {
    &&& c.valid()
    &&& c.nonempty_at_key()
    &&& c.hkey.len() <= 255
}

/// Every node is such a subtree.
pub open spec fn trees_ok(ns: Seq<NodeModel>) -> bool {
    forall|t: int| 0 <= t < ns.len() ==> tree_ok(#[trigger] ns[t])
}

/// The keys of distinct places differ.
pub open spec fn distinct_keys(ns: Seq<NodeModel>) -> bool {
    forall|i: int, j: int| 0 <= i < ns.len() && 0 <= j < ns.len() && i != j ==> (#[trigger] ns[i]).key != (#[trigger] ns[j]).key
}

proof fn lemma_tree_span(c: NodeModel)
    requires
        tree_ok(c),
    ensures
        c.key <= c.max_key(),
        child_facts(c),
{
    lemma_valid_leaves(c);
    assert(c.leaves()[0].0 <= c.leaves().last().0);
}

/// Disjoint subtrees sorted by key lie one after the other.
pub proof fn lemma_sorted_apart(ns: Seq<NodeModel>)
    requires
        trees_ok(ns),
        disjoint(ns),
        nodes_sorted(ns),
    ensures
        strictly_apart(ns),
{
    crate::model::lemma_nodes_sorted_keys(ns);
    assert forall|i: int, j: int| 0 <= i < j < ns.len() implies apart(#[trigger] ns[i], #[trigger] ns[j]) by {
        lemma_tree_span(ns[i]);
        lemma_tree_span(ns[j]);
        assert(ns[i].key <= ns[j].key);
    }
}

/// Nodes that lie one after the other have increasing keys.
pub proof fn lemma_apart_keys(ns: Seq<NodeModel>)
    requires
        trees_ok(ns),
        strictly_apart(ns),
    ensures
        distinct_keys(ns),
        forall|i: int, j: int| 0 <= i < j < ns.len() ==> (#[trigger] ns[i]).key < (#[trigger] ns[j]).key,
{
    assert forall|i: int, j: int| 0 <= i < j < ns.len() implies (#[trigger] ns[i]).key < (#[trigger] ns[j]).key by {
        lemma_tree_span(ns[i]);
    }
    assert forall|i: int, j: int| 0 <= i < ns.len() && 0 <= j < ns.len() && i != j implies (#[trigger] ns[i]).key != (#[trigger] ns[j]).key by {
        if i < j {
            lemma_tree_span(ns[i]);
        } else {
            lemma_tree_span(ns[j]);
        }
    }
}

/// A reordering keeps keys distinct.
pub proof fn lemma_perm_distinct(f: Seq<NodeModel>, input: Seq<NodeModel>)
    requires
        f.to_multiset() == input.to_multiset(),
        distinct_keys(input),
    ensures
        distinct_keys(f),
{
    crate::construct::lemma_perm_contains(f, input);
    assert forall|i: int, j: int| 0 <= i < f.len() && 0 <= j < f.len() && i != j implies (#[trigger] f[i]).key != (#[trigger] f[j]).key by {
        if f[i].key == f[j].key {
            assert(input.contains(f[i]));
            assert(input.contains(f[j]));
            let a = choose|a: int| 0 <= a < input.len() && input[a] == f[i];
            let b = choose|b: int| 0 <= b < input.len() && input[b] == f[j];
            if a == b {
                lemma_two_places(f, i, j);
                lemma_two_copies(input, f[i]);
                let (x, y) = choose|x: int, y: int| 0 <= x < y < input.len() && input[x] == f[i] && input[y] == f[i];
                assert(input[x].key == input[y].key);
            } else {
                assert(input[a].key == input[b].key);
            }
        }
    }
}

/// Parents over subtrees that lie one after the other, all of one height, lie one after
/// the other too, are valid, one level higher, and hold the same leaves.
pub proof fn lemma_parents_apart(ps: Seq<NodeModel>, input: Seq<NodeModel>, h: u8)
    requires
        parents_of(ps, input),
        h < 255,
        trees_ok(input),
        strictly_apart(input),
        forall|i: int| 0 <= i < input.len() ==> (#[trigger] input[i]).height == h,
    ensures
        trees_ok(ps),
        strictly_apart(ps),
        forall|t: int| 0 <= t < ps.len() ==> (#[trigger] ps[t]).height == h + 1,
        leaves_seq(ps).to_multiset() == leaves_seq(input).to_multiset(),
        (forall|i: int| 0 <= i < input.len() ==> bounded(#[trigger] input[i])) ==> forall|t: int| 0 <= t < ps.len() ==> bounded(#[trigger] ps[t]),
{
    assert forall|i: int| 0 <= i < input.len() implies good_child(#[trigger] input[i], h) by {
        assert(tree_ok(input[i]));
    }
    assert forall|i: int, j: int| 0 <= i < input.len() && 0 <= j < input.len() && i != j implies sep(#[trigger] input[i], #[trigger] input[j]) by {
        if i < j {
            assert(apart(input[i], input[j]));
        } else {
            assert(apart(input[j], input[i]));
        }
    }
    assert(crate::model::hkeys_fit(input)) by {
        assert forall|i: int| 0 <= i < input.len() implies (#[trigger] input[i]).hkey.len() <= 255 by {
            assert(tree_ok(input[i]));
        }
    }
    crate::lemmas::lemma_parents_valid(ps, input, h);
    crate::insert::lemma_parents_height(ps, input, h);
    if forall|i: int| 0 <= i < input.len() ==> bounded(#[trigger] input[i]) {
        crate::insert::lemma_bounded_parents(ps, input);
    }
    let gs = ps.map_values(|p: NodeModel| children_of(p));
    let f = flatten(gs);
    lemma_apart_keys(input);
    lemma_perm_distinct(f, input);
    assert forall|t: int| 0 <= t < ps.len() implies tree_ok(#[trigger] ps[t]) && ps[t].key == f[offset(gs, t)].key
        && offset(gs, t) < f.len() by {
        assert(good_child(ps[t], (h + 1) as u8));
        assert(ps[t].hkey.len() <= crate::store::MAX_COMPACT_HKEY);
        assert(gs[t] == children_of(ps[t]));
        crate::lemmas::lemma_flatten_split(gs, t);
        assert(gs[t].len() > 0);
        assert(f[offset(gs, t)] == gs[t][0]);
    }
    assert forall|t: int, u: int| 0 <= t < u < ps.len() implies apart(#[trigger] ps[t], #[trigger] ps[u]) by {
        crate::lemmas::lemma_flatten_split(gs, t);
        crate::lemmas::lemma_offset_monotone(gs, t + 1, u);
        assert(gs[t] == children_of(ps[t]));
        assert(gs[t].len() > 0);
        assert(offset(gs, t) < offset(gs, u));
        assert(ps[t].key != ps[u].key);
        assert(ps[t].key <= ps[u].key);
        assert(sep(ps[t], ps[u]));
        lemma_tree_span(ps[u]);
    }
}

/// The leaves of the nodes from `k` up to `i` lie from node `k`'s key up to below node
/// `i`'s key.
pub proof fn lemma_run_leaf_bounds(ns: Seq<NodeModel>, k: int, i: int, p: int)
    requires
        trees_ok(ns),
        strictly_apart(ns),
        0 <= k <= i <= ns.len(),
        0 <= p < leaves_seq(ns.subrange(k, i)).len(),
    ensures
        ns[k].key <= leaves_seq(ns.subrange(k, i))[p].0,
        i < ns.len() ==> leaves_seq(ns.subrange(k, i))[p].0 < ns[i].key,
{
    let sub = ns.subrange(k, i);
    lemma_leaves_seq_member(sub, p);
    let (j, q) = choose|j: int, q: int| 0 <= j < sub.len() && 0 <= q < sub[j].leaves().len() && leaves_seq(sub)[p] == #[trigger] sub[j].leaves()[q];
    assert(sub[j] == ns[k + j]);
    let c = ns[k + j];
    assert(tree_ok(c));
    lemma_tree_span(c);
    let ls = c.leaves();
    assert(ls[0].0 <= ls[q].0 <= ls.last().0);
    lemma_apart_keys(ns);
    if j > 0 {
        assert(ns[k].key < ns[k + j].key);
    }
    if i < ns.len() {
        assert(apart(ns[k + j], ns[i]));
    }
}

/// The state of lifting runs of lowest nodes: `rv` stands for the nodes before `k`, and
/// the nodes from `k` up to `i` form the current run.
#[verifier::opaque]
pub open spec fn lift_inv(ns: Seq<NodeModel>, rv: Seq<NodeModel>, k: int, i: int) -> bool {
    &&& 0 <= k <= i <= ns.len()
    &&& trees_ok(ns)
    &&& strictly_apart(ns)
    &&& trees_ok(rv)
    &&& strictly_apart(rv)
    &&& leaves_seq(rv).to_multiset().add(leaves_seq(ns.subrange(k, i)).to_multiset()) == leaves_seq(ns.subrange(0, i)).to_multiset()
    &&& k < ns.len() ==> forall|t: int| 0 <= t < rv.len() ==> (#[trigger] rv[t]).max_key() < ns[k].key
    &&& (forall|t: int| 0 <= t < ns.len() ==> bounded(#[trigger] ns[t])) ==> forall|t: int| 0 <= t < rv.len() ==> bounded(#[trigger] rv[t])
}

pub proof fn lemma_lift_start(ns: Seq<NodeModel>)
    requires
        trees_ok(ns),
        strictly_apart(ns),
    ensures
        lift_inv(ns, Seq::empty(), 0, 0),
{
    reveal(lift_inv);
    assert(ns.subrange(0, 0) =~= Seq::<NodeModel>::empty());
    assert(leaves_seq(Seq::<NodeModel>::empty()) == Seq::<LeafView>::empty());
    crate::model::lemma_empty_to_multiset(Seq::<LeafView>::empty());
    assert(vstd::multiset::Multiset::<LeafView>::empty().add(vstd::multiset::Multiset::empty()) =~= vstd::multiset::Multiset::empty());
}

/// The run takes in node `i`.
pub proof fn lemma_lift_extend(ns: Seq<NodeModel>, rv: Seq<NodeModel>, k: int, i: int)
    requires
        lift_inv(ns, rv, k, i),
        i < ns.len(),
    ensures
        lift_inv(ns, rv, k, i + 1),
{
    reveal(lift_inv);
    assert(ns.subrange(k, i + 1) =~= ns.subrange(k, i).push(ns[i]));
    assert(ns.subrange(0, i + 1) =~= ns.subrange(0, i).push(ns[i]));
    crate::model::lemma_leaves_seq_push(ns.subrange(k, i), ns[i]);
    crate::model::lemma_leaves_seq_push(ns.subrange(0, i), ns[i]);
    vstd::seq_lib::lemma_multiset_commutative(leaves_seq(ns.subrange(k, i)), ns[i].leaves());
    vstd::seq_lib::lemma_multiset_commutative(leaves_seq(ns.subrange(0, i)), ns[i].leaves());
    let a = leaves_seq(rv).to_multiset();
    let b = leaves_seq(ns.subrange(k, i)).to_multiset();
    let c = ns[i].leaves().to_multiset();
    assert(a.add(b.add(c)) =~= a.add(b).add(c));
}

/// Node `i` is kept as it is (the run is empty).
pub proof fn lemma_lift_keep(ns: Seq<NodeModel>, rv: Seq<NodeModel>, i: int)
    requires
        lift_inv(ns, rv, i, i),
        i < ns.len(),
    ensures
        lift_inv(ns, rv.push(ns[i]), i + 1, i + 1),
{
    reveal(lift_inv);
    let r2 = rv.push(ns[i]);
    lemma_apart_keys(ns);
    assert forall|a: int, b: int| 0 <= a < b < r2.len() implies apart(#[trigger] r2[a], #[trigger] r2[b]) by {
        assert(r2[a] == rv[a]);
        if b < rv.len() {
            assert(r2[b] == rv[b]);
        } else {
            assert(r2[b] == ns[i]);
        }
    }
    assert forall|t: int| 0 <= t < r2.len() implies tree_ok(#[trigger] r2[t]) by {
        if t < rv.len() {
            assert(r2[t] == rv[t]);
        }
    }
    if i + 1 < ns.len() {
        assert(apart(ns[i], ns[i + 1]));
        assert forall|t: int| 0 <= t < r2.len() implies (#[trigger] r2[t]).max_key() < ns[i + 1].key by {
            if t < rv.len() {
                assert(r2[t] == rv[t]);
                assert(ns[i].key < ns[i + 1].key);
            }
        }
    }
    if forall|t: int| 0 <= t < ns.len() ==> bounded(#[trigger] ns[t]) {
        assert forall|t: int| 0 <= t < r2.len() implies bounded(#[trigger] r2[t]) by {
            if t < rv.len() {
                assert(r2[t] == rv[t]);
            }
        }
    }
    assert(ns.subrange(i, i) =~= Seq::<NodeModel>::empty());
    assert(ns.subrange(i + 1, i + 1) =~= Seq::<NodeModel>::empty());
    assert(leaves_seq(Seq::<NodeModel>::empty()) == Seq::<LeafView>::empty());
    crate::model::lemma_empty_to_multiset(Seq::<LeafView>::empty());
    assert(ns.subrange(0, i + 1) =~= ns.subrange(0, i).push(ns[i]));
    crate::model::lemma_leaves_seq_push(ns.subrange(0, i), ns[i]);
    crate::model::lemma_leaves_seq_push(rv, ns[i]);
    vstd::seq_lib::lemma_multiset_commutative(leaves_seq(ns.subrange(0, i)), ns[i].leaves());
    vstd::seq_lib::lemma_multiset_commutative(leaves_seq(rv), ns[i].leaves());
    let e = vstd::multiset::Multiset::<LeafView>::empty();
    assert(leaves_seq(rv).to_multiset().add(e) =~= leaves_seq(rv).to_multiset());
    assert(leaves_seq(r2).to_multiset().add(e) =~= leaves_seq(r2).to_multiset());
}

/// The run from `k` up to `i` is replaced by the parents `ps` over it.
pub proof fn lemma_lift_flush(ns: Seq<NodeModel>, rv: Seq<NodeModel>, k: int, i: int, ps: Seq<NodeModel>, h: u8)
    requires
        lift_inv(ns, rv, k, i),
        k < i,
        h < 255,
        forall|j: int| k <= j < i ==> (#[trigger] ns[j]).height == h,
        parents_of(ps, ns.subrange(k, i)),
    ensures
        lift_inv(ns, rv + ps, i, i),
        forall|t: int| 0 <= t < ps.len() ==> (#[trigger] ps[t]).height == h + 1,
{
    reveal(lift_inv);
    let run = ns.subrange(k, i);
    assert forall|t: int| 0 <= t < run.len() implies tree_ok(#[trigger] run[t]) && run[t].height == h by {
        assert(run[t] == ns[k + t]);
    }
    assert forall|a: int, b: int| 0 <= a < b < run.len() implies apart(#[trigger] run[a], #[trigger] run[b]) by {
        assert(run[a] == ns[k + a] && run[b] == ns[k + b]);
    }
    lemma_parents_apart(ps, run, h);
    crate::construct::lemma_perm_contains(leaves_seq(ps), leaves_seq(run));
    // where each parent lies
    assert forall|t: int| 0 <= t < ps.len() implies ns[k].key <= (#[trigger] ps[t]).key
        && (i < ns.len() ==> ps[t].max_key() < ns[i].key) by {
        let p = ps[t];
        assert(tree_ok(p));
        lemma_tree_span(p);
        lemma_child_leaves_within(ps, t);
        let l0 = p.leaves()[0];
        let l1 = p.leaves().last();
        assert(l1 == p.leaves()[p.leaves().len() - 1]);
        assert(leaves_seq(ps).contains(l0));
        assert(leaves_seq(ps).contains(l1));
        let a = choose|a: int| 0 <= a < leaves_seq(ps).len() && leaves_seq(ps)[a] == l0;
        let b = choose|b: int| 0 <= b < leaves_seq(ps).len() && leaves_seq(ps)[b] == l1;
        assert(leaves_seq(run).contains(l0));
        assert(leaves_seq(run).contains(l1));
        let a2 = choose|a2: int| 0 <= a2 < leaves_seq(run).len() && leaves_seq(run)[a2] == l0;
        let b2 = choose|b2: int| 0 <= b2 < leaves_seq(run).len() && leaves_seq(run)[b2] == l1;
        lemma_run_leaf_bounds(ns, k, i, a2);
        lemma_run_leaf_bounds(ns, k, i, b2);
    }
    let r2 = rv + ps;
    assert forall|a: int, b: int| 0 <= a < b < r2.len() implies apart(#[trigger] r2[a], #[trigger] r2[b]) by {
        if b < rv.len() {
            assert(r2[a] == rv[a] && r2[b] == rv[b]);
        } else if a >= rv.len() {
            assert(r2[a] == ps[a - rv.len()] && r2[b] == ps[b - rv.len()]);
        } else {
            assert(r2[a] == rv[a] && r2[b] == ps[b - rv.len()]);
            assert(rv[a].max_key() < ns[k].key);
        }
    }
    assert forall|t: int| 0 <= t < r2.len() implies tree_ok(#[trigger] r2[t]) by {
        if t < rv.len() {
            assert(r2[t] == rv[t]);
        } else {
            assert(r2[t] == ps[t - rv.len()]);
        }
    }
    lemma_apart_keys(ns);
    if i < ns.len() {
        assert forall|t: int| 0 <= t < r2.len() implies (#[trigger] r2[t]).max_key() < ns[i].key by {
            if t < rv.len() {
                assert(r2[t] == rv[t]);
                assert(ns[k].key < ns[i].key);
            } else {
                assert(r2[t] == ps[t - rv.len()]);
            }
        }
    }
    if forall|t: int| 0 <= t < ns.len() ==> bounded(#[trigger] ns[t]) {
        assert forall|t: int| 0 <= t < run.len() implies bounded(#[trigger] run[t]) by {
            assert(run[t] == ns[k + t]);
        }
        assert forall|t: int| 0 <= t < r2.len() implies bounded(#[trigger] r2[t]) by {
            if t < rv.len() {
                assert(r2[t] == rv[t]);
            } else {
                assert(r2[t] == ps[t - rv.len()]);
            }
        }
    }
    crate::model::lemma_leaves_seq_concat(rv, ps);
    vstd::seq_lib::lemma_multiset_commutative(leaves_seq(rv), leaves_seq(ps));
    assert(ns.subrange(i, i) =~= Seq::<NodeModel>::empty());
    assert(leaves_seq(Seq::<NodeModel>::empty()) == Seq::<LeafView>::empty());
    crate::model::lemma_empty_to_multiset(Seq::<LeafView>::empty());
    let e = vstd::multiset::Multiset::<LeafView>::empty();
    assert(leaves_seq(r2).to_multiset().add(e) =~= leaves_seq(r2).to_multiset());
}

/// When all nodes were handled, the lifted nodes hold every leaf.
pub proof fn lemma_lift_end(ns: Seq<NodeModel>, rv: Seq<NodeModel>)
    requires
        lift_inv(ns, rv, ns.len() as int, ns.len() as int),
    ensures
        trees_ok(rv),
        strictly_apart(rv),
        leaves_seq(rv).to_multiset() == leaves_seq(ns).to_multiset(),
        (forall|t: int| 0 <= t < ns.len() ==> bounded(#[trigger] ns[t])) ==> forall|t: int| 0 <= t < rv.len() ==> bounded(#[trigger] rv[t]),
{
    reveal(lift_inv);
    let n = ns.len() as int;
    assert(ns.subrange(n, n) =~= Seq::<NodeModel>::empty());
    assert(ns.subrange(0, n) =~= ns);
    assert(leaves_seq(Seq::<NodeModel>::empty()) == Seq::<LeafView>::empty());
    crate::model::lemma_empty_to_multiset(Seq::<LeafView>::empty());
    let e = vstd::multiset::Multiset::<LeafView>::empty();
    assert(leaves_seq(rv).to_multiset().add(e) =~= leaves_seq(rv).to_multiset());
}

} // verus!

verus! {

/// Why subtrees could not be combined.
#[derive(Debug)]
pub enum HtreeNodeMergeDisjointSubtreesError {
    /// Building a level failed for a reason other than the store.
    FromChildren(HtreeNodeFromChildrenError),
    /// The store failed.
    Store(InMemoryStoreError),
}

fn disjoint_build_error(e: HtreeNodeFromChildrenError) -> (r: HtreeNodeMergeDisjointSubtreesError)
    ensures
        e is Store ==> r is Store,
        e is HeightOverflow ==> r matches HtreeNodeMergeDisjointSubtreesError::FromChildren(HtreeNodeFromChildrenError::HeightOverflow),
{
    match e {
        HtreeNodeFromChildrenError::Store(e) => HtreeNodeMergeDisjointSubtreesError::Store(e),
        e => HtreeNodeMergeDisjointSubtreesError::FromChildren(e),
    }
}

/// The lowest and the highest height among `nodes` (both zero when there are none).
fn height_range(nodes: &Vec<HtreeNode>) -> (r: (u8, u8))
    ensures
        nodes@.len() == 0 ==> r.0 == 0 && r.1 == 0,
        nodes@.len() > 0 ==> (exists|t: int| 0 <= t < nodes@.len() && (#[trigger] view_nodes(nodes@)[t]).height == r.0),
        nodes@.len() > 0 ==> (exists|t: int| 0 <= t < nodes@.len() && (#[trigger] view_nodes(nodes@)[t]).height == r.1),
        forall|t: int| 0 <= t < nodes@.len() ==> r.0 <= (#[trigger] view_nodes(nodes@)[t]).height <= r.1,
{
    proof { lemma_view_nodes(nodes@); }
    if nodes.len() == 0 {
        return (0, 0);
    }
    let mut lo = nodes[0].height;
    let mut hi = nodes[0].height;
    let mut i: usize = 1;
    assert(view_nodes(nodes@)[0].height == lo);
    while i < nodes.len()
        invariant
            1 <= i <= nodes@.len(),
            view_nodes(nodes@).len() == nodes@.len(),
            forall|t: int| 0 <= t < nodes@.len() ==> #[trigger] view_nodes(nodes@)[t] == nodes@[t]@,
            exists|t: int| 0 <= t < nodes@.len() && (#[trigger] view_nodes(nodes@)[t]).height == lo,
            exists|t: int| 0 <= t < nodes@.len() && (#[trigger] view_nodes(nodes@)[t]).height == hi,
            forall|t: int| 0 <= t < i ==> lo <= (#[trigger] view_nodes(nodes@)[t]).height <= hi,
        decreases nodes@.len() - i,
    {
        let h = nodes[i].height;
        if h < lo {
            lo = h;
            assert(view_nodes(nodes@)[i as int].height == lo);
        }
        if h > hi {
            hi = h;
            assert(view_nodes(nodes@)[i as int].height == hi);
        }
        i += 1;
    }
    (lo, hi)
}

/// Replaces each run of consecutive nodes of height `minh` by parents over the run.
/// Parents built over a run of faithful subtrees of one height are faithful.
proof fn lemma_lift_faithful(ns: Seq<NodeModel>, k: int, i: int, minh: u8, pv: Seq<NodeModel>)
    requires
        0 <= k <= i <= ns.len(),
        k < i,
        minh < 255,
        trees_ok(ns),
        crate::cover::all_faithful(ns),
        forall|j: int| k <= j < i ==> (#[trigger] ns[j]).height == minh,
        crate::construct::parents_of(pv, ns.subrange(k, i)),
    ensures
        crate::cover::all_faithful(pv),
{
    let sub = ns.subrange(k, i);
    assert(crate::split::faithful_siblings(sub, minh)) by {
        assert forall|t: int| 0 <= t < sub.len() implies crate::faithful::faithful(#[trigger] sub[t])
            && !sub[t].is_empty() && sub[t].height == minh && sub[t].hkey.len() <= 255 by {
            assert(sub[t] == ns[k + t]);
            assert(tree_ok(ns[k + t]));
        }
    }
    crate::cover::lemma_parents_faithful(pv, sub, minh);
}

fn lift_runs(nodes: Vec<HtreeNode>, minh: u8, store: &InMemoryStore) -> (r: Result<Vec<HtreeNode>, HtreeNodeFromChildrenError>)
    requires
        minh < 255,
        forall|t: int| 0 <= t < nodes@.len() ==> (#[trigger] view_nodes(nodes@)[t]).height >= minh,
    ensures
        r matches Ok(v) ==> forall|t: int| 0 <= t < v@.len() ==> (#[trigger] view_nodes(v@)[t]).height > minh,
        r matches Ok(v) ==> v@.len() <= nodes@.len(),
        r matches Ok(v) ==> forall|t: int| 0 <= t < v@.len() ==> (#[trigger] view_nodes(v@)[t]).height == minh + 1
            || view_nodes(v@)[t].height <= crate::merge::max_height(view_nodes(nodes@)),
        trees_ok(view_nodes(nodes@)) && strictly_apart(view_nodes(nodes@)) ==> match r {
            Ok(v) => {
                &&& trees_ok(view_nodes(v@))
                &&& strictly_apart(view_nodes(v@))
                &&& leaves_seq(view_nodes(v@)).to_multiset() == leaves_seq(view_nodes(nodes@)).to_multiset()
                &&& (forall|t: int| 0 <= t < nodes@.len() ==> bounded(#[trigger] view_nodes(nodes@)[t]))
                    ==> forall|t: int| 0 <= t < v@.len() ==> bounded(#[trigger] view_nodes(v@)[t])
            },
            Err(e) => e is Store,
        },
        trees_ok(view_nodes(nodes@)) && crate::cover::all_faithful(view_nodes(nodes@)) ==> (r matches Ok(v)
            ==> crate::cover::all_faithful(view_nodes(v@))),
{
    let ghost ns = view_nodes(nodes@);
    let ghost good = trees_ok(ns) && strictly_apart(ns);
    let ghost fg = trees_ok(ns) && crate::cover::all_faithful(ns);
    proof {
        lemma_view_nodes(nodes@);
        if good {
            lemma_lift_start(ns);
        }
    }
    let n = nodes.len();
    let mut run: Vec<HtreeNode> = Vec::new();
    let mut result: Vec<HtreeNode> = Vec::new();
    let ghost mut k: int = 0;
    let mut i: usize = 0;
    proof {
        lemma_view_nodes(run@);
        lemma_view_nodes(result@);
        assert(view_nodes(run@) =~= ns.subrange(0, 0));
        assert(view_nodes(result@) =~= Seq::<NodeModel>::empty());
        crate::merge::lemma_max_height(ns);
    }
    while i < n
        invariant
            n == nodes@.len(),
            ns == view_nodes(nodes@),
            ns.len() == n,
            forall|t: int| 0 <= t < n ==> #[trigger] ns[t] == nodes@[t]@,
            forall|t: int| 0 <= t < n ==> (#[trigger] ns[t]).height >= minh,
            minh < 255,
            0 <= k <= i <= n,
            view_nodes(run@) == ns.subrange(k, i as int),
            forall|j: int| k <= j < i ==> (#[trigger] ns[j]).height == minh,
            forall|t: int| 0 <= t < result@.len() ==> (#[trigger] view_nodes(result@)[t]).height > minh,
            view_nodes(result@).len() == result@.len(),
            good == (trees_ok(ns) && strictly_apart(ns)),
            good ==> lift_inv(ns, view_nodes(result@), k, i as int),
            fg == (trees_ok(ns) && crate::cover::all_faithful(ns)),
            fg ==> crate::cover::all_faithful(view_nodes(result@)),
            result@.len() <= k,
            forall|t: int| 0 <= t < result@.len() ==> (#[trigger] view_nodes(result@)[t]).height == minh + 1
                || view_nodes(result@)[t].height <= crate::merge::max_height(ns),
            forall|t: int| 0 <= t < n ==> (#[trigger] ns[t]).height <= crate::merge::max_height(ns),
        decreases n - i,
    {
        let node = nodes[i].copy();
        assert(node@ == ns[i as int]);
        if node.height == minh {
            proof {
                lemma_view_nodes_push(run@, node);
                assert(ns.subrange(k, i + 1) =~= ns.subrange(k, i as int).push(node@));
                if good {
                    lemma_lift_extend(ns, view_nodes(result@), k, i as int);
                }
            }
            run.push(node);
        } else {
            if run.len() > 0 {
                proof {
                    lemma_view_nodes(run@);
                    assert(k < i);
                }
                let mut taken: Vec<HtreeNode> = Vec::new();
                std::mem::swap(&mut taken, &mut run);
                assert(view_nodes(taken@) == ns.subrange(k, i as int));
                let ghost rv = view_nodes(result@);
                let ghost sub = ns.subrange(k, i as int);
                let res = HtreeNode::from_many_children(taken, store);
                proof {
                    lemma_view_nodes(run@);
                    assert(view_nodes(run@) =~= Seq::<NodeModel>::empty());
                    assert(same_height(sub)) by {
                        assert forall|t: int| 0 <= t < sub.len() implies (#[trigger] sub[t]).height == sub[0].height by {
                            assert(sub[t] == ns[k + t]);
                            assert(sub[0] == ns[k]);
                        }
                    }
                    if good {
                        assert(crate::model::hkeys_fit(sub)) by {
                            reveal(lift_inv);
                            assert forall|t: int| 0 <= t < sub.len() implies (#[trigger] sub[t]).hkey.len() <= 255 by {
                                assert(sub[t] == ns[k + t]);
                                assert(tree_ok(ns[k + t]));
                            }
                        }
                    }
                    if res is Ok {
                        let ps = res->Ok_0;
                        lemma_view_nodes(ps@);
                        assert forall|t: int| 0 <= t < sub.len() implies (#[trigger] sub[t]).height == minh by {
                            assert(sub[t] == ns[k + t]);
                        }
                        crate::insert::lemma_parents_height(view_nodes(ps@), sub, minh);
                        if good {
                            lemma_lift_flush(ns, rv, k, i as int, view_nodes(ps@), minh);
                        }
                        if fg {
                            lemma_lift_faithful(ns, k, i as int, minh, view_nodes(ps@));
                        }
                    }
                }
                let mut ps = match res {
                    Ok(ps) => ps,
                    Err(e) => return Err(e),
                };
                let ghost before = result@;
                let ghost praw = ps@;
                result.append(&mut ps);
                proof {
                    assert(result@ == before + praw);
                    crate::node::lemma_view_nodes_concat(before, praw);
                    crate::merge::lemma_raw_append(before, praw);
                    lemma_view_nodes(result@);
                    lemma_view_nodes(praw);
                    assert forall|t: int| 0 <= t < result@.len() implies (#[trigger] view_nodes(result@)[t]).height > minh by {
                        if t < before.len() {
                            assert(view_nodes(result@)[t] == view_nodes(before)[t]);
                        } else {
                            assert(view_nodes(result@)[t] == view_nodes(praw)[t - before.len()]);
                        }
                    }
                    k = i as int;
                    assert(view_nodes(run@) =~= ns.subrange(k, i as int));
                }
            }
            proof {
                assert(ns.subrange(k, i as int).len() == 0);
                assert(k == i);
                lemma_view_nodes_push(result@, node);
                crate::merge::lemma_raw_push(result@, node);
                if good {
                    lemma_lift_keep(ns, view_nodes(result@), i as int);
                }
            }
            result.push(node);
            proof {
                k = i + 1;
                lemma_view_nodes(result@);
                assert(view_nodes(run@) =~= ns.subrange(k, i + 1));
            }
        }
        i += 1;
    }
    if run.len() > 0 {
        proof {
            lemma_view_nodes(run@);
            assert(k < n);
        }
        let ghost rv = view_nodes(result@);
        let ghost sub = ns.subrange(k, n as int);
        let res = HtreeNode::from_many_children(run, store);
        proof {
            assert(same_height(sub)) by {
                assert forall|t: int| 0 <= t < sub.len() implies (#[trigger] sub[t]).height == sub[0].height by {
                    assert(sub[t] == ns[k + t]);
                    assert(sub[0] == ns[k]);
                }
            }
            if good {
                assert(crate::model::hkeys_fit(sub)) by {
                    reveal(lift_inv);
                    assert forall|t: int| 0 <= t < sub.len() implies (#[trigger] sub[t]).hkey.len() <= 255 by {
                        assert(sub[t] == ns[k + t]);
                        assert(tree_ok(ns[k + t]));
                    }
                }
            }
            if res is Ok {
                let ps = res->Ok_0;
                lemma_view_nodes(ps@);
                assert forall|t: int| 0 <= t < sub.len() implies (#[trigger] sub[t]).height == minh by {
                    assert(sub[t] == ns[k + t]);
                }
                crate::insert::lemma_parents_height(view_nodes(ps@), sub, minh);
                if good {
                    lemma_lift_flush(ns, rv, k, n as int, view_nodes(ps@), minh);
                }
                if fg {
                    lemma_lift_faithful(ns, k, n as int, minh, view_nodes(ps@));
                }
            }
        }
        let mut ps = match res {
            Ok(ps) => ps,
            Err(e) => return Err(e),
        };
        let ghost before = result@;
        let ghost praw = ps@;
        result.append(&mut ps);
        proof {
            assert(result@ == before + praw);
            crate::node::lemma_view_nodes_concat(before, praw);
            crate::merge::lemma_raw_append(before, praw);
            lemma_view_nodes(result@);
            lemma_view_nodes(praw);
            assert forall|t: int| 0 <= t < result@.len() implies (#[trigger] view_nodes(result@)[t]).height > minh by {
                if t < before.len() {
                    assert(view_nodes(result@)[t] == view_nodes(before)[t]);
                } else {
                    assert(view_nodes(result@)[t] == view_nodes(praw)[t - before.len()]);
                }
            }
            k = n as int;
        }
    }
    proof {
        if good {
            assert(ns.subrange(k, n as int).len() == 0);
            assert(k == n);
            lemma_lift_end(ns, view_nodes(result@));
        }
    }
    Ok(result)
}

/// Of the subtrees that are not empty, any two lie one before the other.
pub open spec fn disjoint_nonempty(ss: Seq<NodeModel>) -> bool {
    forall|i: int, j: int| 0 <= i < ss.len() && 0 <= j < ss.len() && i != j && !(#[trigger] ss[i]).is_empty() && !(#[trigger] ss[j]).is_empty()
        ==> apart(ss[i], ss[j]) || apart(ss[j], ss[i])
}

/// Subtree `t` is the only one that is not empty.
pub open spec fn only_nonempty(ss: Seq<NodeModel>, t: int) -> bool {
    &&& 0 <= t < ss.len()
    &&& !ss[t].is_empty()
    &&& forall|u: int| 0 <= u < ss.len() && u != t ==> ss[u].is_empty()
}

/// Subtrees that can be combined: each is empty or a valid subtree holding a leaf, and no
/// two of the non-empty ones share a key range.
pub open spec fn mergeable(ss: Seq<NodeModel>) -> bool {
    &&& forall|t: int| 0 <= t < ss.len() ==> (#[trigger] ss[t]).is_empty() || tree_ok(ss[t])
    &&& disjoint_nonempty(ss)
}

/// Reordering keeps subtrees valid and disjoint.
pub proof fn lemma_perm_disjoint(a: Seq<NodeModel>, b: Seq<NodeModel>)
    requires
        a.to_multiset() == b.to_multiset(),
        trees_ok(a),
        disjoint(a),
    ensures
        trees_ok(b),
        disjoint(b),
{
    crate::construct::lemma_perm_contains(b, a);
    assert forall|t: int| 0 <= t < b.len() implies tree_ok(#[trigger] b[t]) by {
        assert(a.contains(b[t]));
    }
    assert forall|i: int, j: int| 0 <= i < b.len() && 0 <= j < b.len() && i != j implies apart(#[trigger] b[i], #[trigger] b[j]) || apart(b[j], b[i]) by {
        assert(a.contains(b[i]) && a.contains(b[j]));
        let x = choose|x: int| 0 <= x < a.len() && a[x] == b[i];
        let y = choose|y: int| 0 <= y < a.len() && a[y] == b[j];
        if x == y {
            lemma_two_places(b, i, j);
            lemma_two_copies(a, b[i]);
            let (u, v) = choose|u: int, v: int| 0 <= u < v < a.len() && a[u] == b[i] && a[v] == b[i];
            assert(apart(a[u], a[v]) || apart(a[v], a[u]));
            lemma_tree_span(b[i]);
        }
    }
}

impl HtreeNode {
    /// Combines subtrees whose key ranges do not overlap into one tree. Empty subtrees are
    /// left out; no subtree gives the empty tree and one gives itself. Otherwise the
    /// subtrees are sorted, and runs of the lowest ones are lifted by building parents
    /// over them until all have one height; then levels of parents are built until one
    /// node remains. Lifting never adds nodes and each level of parents has fewer, so the
    /// greatest height is reached only when the greatest input height plus the number of
    /// subtrees exceeds 255.
    #[verifier::rlimit(100)]
    pub fn merge_disjoint_subtrees(subtrees: Vec<HtreeNode>, store: &InMemoryStore) -> (r: Result<HtreeNode, HtreeNodeMergeDisjointSubtreesError>)
        ensures
            (forall|t: int| 0 <= t < subtrees@.len() ==> (#[trigger] view_nodes(subtrees@)[t]).is_empty()) ==> (r matches Ok(n) && n@ == empty_model()),
            mergeable(view_nodes(subtrees@)) ==> match r {
                Ok(n) => {
                    &&& n@.valid()
                    &&& n@.leaves().to_multiset() == leaves_seq(view_nodes(subtrees@)).to_multiset()
                    &&& (forall|t: int| 0 <= t < subtrees@.len() ==> bounded(#[trigger] view_nodes(subtrees@)[t])) ==> bounded(n@)
                },
                Err(e) => e is Store || (e matches HtreeNodeMergeDisjointSubtreesError::FromChildren(HtreeNodeFromChildrenError::HeightOverflow)
                    && crate::merge::max_height(view_nodes(subtrees@)) + subtrees@.len() > 255),
            },
            forall|t: int| #[trigger] only_nonempty(view_nodes(subtrees@), t) ==> (r matches Ok(n) && n@ == view_nodes(subtrees@)[t]),
            mergeable(view_nodes(subtrees@)) && crate::cover::all_faithful(view_nodes(subtrees@)) ==> (r matches Ok(n)
                ==> crate::faithful::faithful(n@)),
    {
        let ghost ss = view_nodes(subtrees@);
        let ghost good = mergeable(ss);
        let ghost fg = mergeable(ss) && crate::cover::all_faithful(ss);
        let ghost all_bounded = forall|t: int| 0 <= t < subtrees@.len() ==> bounded(#[trigger] view_nodes(subtrees@)[t]);
        proof { lemma_view_nodes(subtrees@); }
        let mut nodes: Vec<HtreeNode> = Vec::new();
        let ghost mut idx: Seq<int> = Seq::empty();
        let mut t: usize = 0;
        proof {
            lemma_view_nodes(nodes@);
            assert(ss.subrange(0, 0) =~= Seq::<NodeModel>::empty());
            assert(leaves_seq(Seq::<NodeModel>::empty()) == Seq::<LeafView>::empty());
        }
        while t < subtrees.len()
            invariant
                t <= subtrees@.len(),
                ss == view_nodes(subtrees@),
                ss.len() == subtrees@.len(),
                forall|u: int| 0 <= u < ss.len() ==> #[trigger] ss[u] == subtrees@[u]@,
                view_nodes(nodes@).len() == nodes@.len(),
                idx.len() == nodes@.len(),
                forall|u: int| 0 <= u < idx.len() ==> 0 <= #[trigger] idx[u] < t && view_nodes(nodes@)[u] == ss[idx[u]],
                forall|u: int, v: int| 0 <= u < v < idx.len() ==> #[trigger] idx[u] < #[trigger] idx[v],
                forall|u: int| 0 <= u < nodes@.len() ==> !(#[trigger] view_nodes(nodes@)[u]).is_empty(),
                leaves_seq(view_nodes(nodes@)) == leaves_seq(ss.subrange(0, t as int)),
                (forall|u: int| 0 <= u < ss.len() ==> (#[trigger] ss[u]).is_empty()) ==> nodes@.len() == 0,
                forall|u: int| 0 <= u < t && !(#[trigger] ss[u]).is_empty() ==> exists|j: int| 0 <= j < idx.len() && idx[j] == u,
            decreases subtrees@.len() - t,
        {
            let c = &subtrees[t];
            proof {
                assert(ss.subrange(0, t + 1) =~= ss.subrange(0, t as int).push(ss[t as int]));
                crate::model::lemma_leaves_seq_push(ss.subrange(0, t as int), ss[t as int]);
            }
            if !c.is_empty() {
                let x = c.copy();
                let ghost before = view_nodes(nodes@);
                proof { lemma_view_nodes_push(nodes@, x); }
                nodes.push(x);
                proof {
                    crate::model::lemma_leaves_seq_push(before, x@);
                    lemma_view_nodes(nodes@);
                    let i0 = idx;
                    idx = idx.push(t as int);
                    assert(view_nodes(nodes@) == before.push(x@));
                    assert forall|u: int| 0 <= u < t + 1 && !(#[trigger] ss[u]).is_empty() implies exists|j: int| 0 <= j < idx.len() && idx[j] == u by {
                        if u < t {
                            let j = choose|j: int| 0 <= j < i0.len() && i0[j] == u;
                            assert(idx[j] == u);
                        } else {
                            assert(idx[i0.len() as int] == u);
                        }
                    }
                }
            } else {
                proof {
                    assert(ss[t as int].leaves() =~= Seq::<LeafView>::empty());
                    assert(leaves_seq(ss.subrange(0, t + 1)) =~= leaves_seq(ss.subrange(0, t as int)));
                }
            }
            t += 1;
        }
        let ghost fv = view_nodes(nodes@);
        proof {
            assert(ss.subrange(0, ss.len() as int) =~= ss);
            if good {
                assert forall|u: int| 0 <= u < fv.len() implies tree_ok(#[trigger] fv[u]) by {
                    assert(fv[u] == ss[idx[u]]);
                }
                assert forall|u: int, v: int| 0 <= u < fv.len() && 0 <= v < fv.len() && u != v implies apart(#[trigger] fv[u], #[trigger] fv[v]) || apart(fv[v], fv[u]) by {
                    assert(fv[u] == ss[idx[u]] && fv[v] == ss[idx[v]]);
                    if u < v {
                        assert(idx[u] < idx[v]);
                    } else {
                        assert(idx[v] < idx[u]);
                    }
                }
            }
            if all_bounded {
                assert forall|u: int| 0 <= u < fv.len() implies bounded(#[trigger] fv[u]) by {
                    assert(fv[u] == ss[idx[u]]);
                }
            }
            if fg {
                assert forall|u: int| 0 <= u < fv.len() implies crate::faithful::faithful(#[trigger] fv[u]) by {
                    assert(fv[u] == ss[idx[u]]);
                }
            }
        }
        proof {
            assert forall|t: int| #[trigger] only_nonempty(ss, t) implies nodes@.len() == 1 && fv[0] == ss[t] by {
                let j = choose|j: int| 0 <= j < idx.len() && idx[j] == t;
                if nodes@.len() >= 2 {
                    let o = if j == 0 { 1int } else { 0int };
                    assert(idx[o] != idx[j]) by {
                        if o < j { assert(idx[o] < idx[j]); } else { assert(idx[j] < idx[o]); }
                    }
                    assert(!fv[o].is_empty());
                    assert(fv[o] == ss[idx[o]]);
                }
                assert(j == 0);
            }
        }
        if nodes.len() == 0 {
            proof {
                assert(fv =~= Seq::<NodeModel>::empty());
                assert(leaves_seq(fv) == Seq::<LeafView>::empty());
                assert(empty_model().leaves() == Seq::<LeafView>::empty());
            }
            return Ok(Self::default_node());
        }
        if nodes.len() == 1 {
            let only = nodes[0].copy();
            proof {
                assert(fv =~= seq![only@]);
                crate::model::lemma_leaves_seq_single(only@);
                if fg {
                    assert(crate::faithful::faithful(fv[0]));
                }
            }
            return Ok(only);
        }
        let mut nodes = crate::construct::sort_nodes(nodes);
        let ghost ls = leaves_seq(fv);
        proof {
            lemma_view_nodes(nodes@);
            if good {
                lemma_perm_disjoint(fv, view_nodes(nodes@));
                lemma_sorted_apart(view_nodes(nodes@));
                crate::lemmas::lemma_perm_leaves(fv, view_nodes(nodes@));
            }
            if all_bounded {
                crate::construct::lemma_perm_contains(view_nodes(nodes@), fv);
                assert forall|u: int| 0 <= u < nodes@.len() implies bounded(#[trigger] view_nodes(nodes@)[u]) by {
                    assert(fv.contains(view_nodes(nodes@)[u]));
                }
            }
            if fg {
                crate::construct::lemma_perm_contains(view_nodes(nodes@), fv);
                assert forall|u: int| 0 <= u < nodes@.len() implies crate::faithful::faithful(#[trigger] view_nodes(nodes@)[u]) by {
                    assert(fv.contains(view_nodes(nodes@)[u]));
                }
            }
            assert(!view_nodes(subtrees@)[idx[0]].is_empty());
            let nv0 = view_nodes(nodes@);
            crate::construct::lemma_perm_contains(nv0, fv);
            crate::merge::lemma_max_height(ss);
            assert forall|u: int| 0 <= u < nv0.len() implies (#[trigger] nv0[u]).height <= crate::merge::max_height(ss) by {
                assert(fv.contains(nv0[u]));
                let j = choose|j: int| 0 <= j < fv.len() && fv[j] == nv0[u];
                assert(fv[j] == ss[idx[j]]);
            }
            crate::merge::lemma_max_height_bound(nv0, crate::merge::max_height(ss));
            vstd::seq_lib::to_multiset_len(nv0);
            vstd::seq_lib::to_multiset_len(fv);
            crate::retain::lemma_orig_grows(idx, idx.len() - 1);
            assert(idx.len() <= ss.len());
        }
        let ghost mut lo: int = 0;
        loop
            invariant
                0 <= lo <= 256,
                view_nodes(nodes@).len() == nodes@.len(),
                forall|u: int| 0 <= u < nodes@.len() ==> (#[trigger] view_nodes(nodes@)[u]).height >= lo,
                good == mergeable(ss),
                ls == leaves_seq(fv),
                fv.len() >= 2,
                ss == view_nodes(subtrees@),
                exists|u: int| 0 <= u < subtrees@.len() && !(#[trigger] view_nodes(subtrees@)[u]).is_empty(),
                all_bounded == (forall|t: int| 0 <= t < subtrees@.len() ==> bounded(#[trigger] view_nodes(subtrees@)[t])),
                leaves_seq(fv) == leaves_seq(ss),
                good ==> fv.len() >= 2 && trees_ok(fv),
                good ==> trees_ok(view_nodes(nodes@)) && strictly_apart(view_nodes(nodes@))
                    && leaves_seq(view_nodes(nodes@)).to_multiset() == ls.to_multiset(),
                good && all_bounded ==> forall|u: int| 0 <= u < nodes@.len() ==> bounded(#[trigger] view_nodes(nodes@)[u]),
                fg == (mergeable(ss) && crate::cover::all_faithful(ss)),
                fg ==> crate::cover::all_faithful(view_nodes(nodes@)),
                forall|t: int| !(#[trigger] only_nonempty(ss, t)),
                crate::merge::max_height(view_nodes(nodes@)) + nodes@.len() <= crate::merge::max_height(ss) + ss.len(),
            decreases 256 - lo,
        {
            let ghost nv = view_nodes(nodes@);
            let (minh, maxh) = height_range(&nodes);
            if minh == maxh {
                let res = Self::from_many_children(nodes, store);
                proof {
                    if nv.len() > 0 {
                        assert(same_height(nv)) by {
                            assert forall|u: int| 0 <= u < nv.len() implies (#[trigger] nv[u]).height == nv[0].height by {
                                assert(minh <= nv[u].height <= maxh);
                                assert(minh <= nv[0].height <= maxh);
                            }
                        }
                        if good {
                            assert(crate::model::hkeys_fit(nv)) by {
                                assert forall|u: int| 0 <= u < nv.len() implies (#[trigger] nv[u]).hkey.len() <= 255 by {
                                    assert(tree_ok(nv[u]));
                                }
                            }
                        }
                        if res is Ok && minh < 255 {
                            let ps = res->Ok_0;
                            lemma_view_nodes(ps@);
                            assert forall|u: int| 0 <= u < nv.len() implies (#[trigger] nv[u]).height == minh by {
                                assert(minh <= nv[u].height <= maxh);
                            }
                            if good {
                                lemma_parents_apart(view_nodes(ps@), nv, minh);
                            } else {
                                crate::insert::lemma_parents_height(view_nodes(ps@), nv, minh);
                            }
                            if fg {
                                assert(nv.subrange(0, nv.len() as int) =~= nv);
                                lemma_lift_faithful(nv, 0, nv.len() as int, minh, view_nodes(ps@));
                            }
                        }
                        if res is Ok && minh == 255 {
                            assert(nv[0].height == 255);
                        }
                        crate::merge::lemma_max_height(nv);
                        assert(nv[0].height == minh);
                        if res is Ok && minh < 255 {
                            let pv = view_nodes(res->Ok_0@);
                            assert forall|u: int| 0 <= u < pv.len() implies (#[trigger] pv[u]).height <= minh + 1 by {}
                            crate::merge::lemma_max_height_bound(pv, (minh + 1) as nat);
                        }
                    }
                }
                let ps = match res {
                    Ok(ps) => ps,
                    Err(e) => {
                        proof {
                            if good && e is HeightOverflow {
                                assert(nv.len() > 0);
                                assert(nv[0].height == 255);
                                assert(crate::merge::max_height(nv) >= 255);
                                assert(crate::merge::max_height(ss) + ss.len() > 255);
                                lemma_view_nodes(subtrees@);
                                assert(ss.len() == subtrees@.len());
                            }
                        }
                        return Err(disjoint_build_error(e));
                    },
                };
                proof { lemma_view_nodes(ps@); }
                if ps.len() <= 1 {
                    proof {
                        if good {
                            let pv = view_nodes(ps@);
                            assert(ls.len() > 0) by {
                                assert(tree_ok(fv[0]));
                                crate::lemmas::lemma_child_leaves_within(fv, 0);
                                assert(ls.contains(fv[0].leaves()[0]));
                            }
                            crate::construct::lemma_perm_contains(leaves_seq(pv), ls);
                            if pv.len() == 0 {
                                assert(pv =~= Seq::<NodeModel>::empty());
                                assert(leaves_seq(pv) == Seq::<LeafView>::empty());
                            }
                            assert(pv =~= seq![pv[0]]);
                            crate::model::lemma_leaves_seq_single(pv[0]);
                            assert(tree_ok(pv[0]));
                        }
                    }
                    if ps.len() == 0 {
                        return Ok(Self::default_node());
                    }
                    proof {
                        if fg {
                            assert(crate::faithful::faithful(view_nodes(ps@)[0]));
                        }
                    }
                    return Ok(ps[0].copy());
                }
                nodes = ps;
                proof {
                    lo = minh + 1;
                }
                continue;
            }
            proof {
                assert(minh < 255);
            }
            let res = lift_runs(nodes, minh, store);
            nodes = match res {
                Ok(v) => v,
                Err(e) => return Err(disjoint_build_error(e)),
            };
            proof {
                lemma_view_nodes(nodes@);
                lo = minh + 1;
                crate::merge::lemma_max_height(nv);
                assert(maxh <= crate::merge::max_height(nv));
                let vv = view_nodes(nodes@);
                assert forall|u: int| 0 <= u < vv.len() implies (#[trigger] vv[u]).height <= crate::merge::max_height(nv) by {}
                crate::merge::lemma_max_height_bound(vv, crate::merge::max_height(nv));
            }
        }
    }
}

} // verus!
