use vstd::prelude::*;

use ps_hkey::{HkeyFromCompactError, InMemoryStore, InMemoryStoreError};

use crate::codec::HtreeNodeUnpackChildrenError;
use crate::construct::{children_of, parents_of, HtreeNodeFromChildrenError};
use crate::delete::sibling_facts;
use crate::fetch::HtreeNodeFetchChildrenError;
use crate::keys::bounded;
use crate::leaves::leaf_nodes;
use crate::lemmas::{good_child, leaves_within, lemma_child_leaves_within, lemma_leaves_seq_member};
use crate::node::{lemma_view_nodes, lemma_view_nodes_push, view_nodes, HtreeNode};
use crate::model::{child_facts, hkeys_fit, leaves_seq, lemma_leaves_seq_concat, sep, separated, LeafView, NodeModel, StateModel};

verus! {

broadcast use vstd::multiset::group_multiset_axioms;

/// Key `k` goes to child `i` of `cs`: the last child whose key does not exceed `k`, or the
/// first child when none does.
pub open spec fn routes_to(cs: Seq<NodeModel>, k: u128, i: int) -> bool {
    &&& 0 <= i < cs.len()
    &&& (i == 0 || cs[i].key <= k)
    &&& (i + 1 == cs.len() || k < cs[i + 1].key)
}

/// Child `i` shares its key with a neighbour.
pub open spec fn shares_key(cs: Seq<NodeModel>, i: int) -> bool {
    ||| (i > 0 && cs[i - 1].key == cs[i].key)
    ||| (i + 1 < cs.len() && cs[i + 1].key == cs[i].key)
}

/// The keys of `ks` that go to child `i`.
pub open spec fn routed(cs: Seq<NodeModel>, ks: Set<u128>, i: int) -> Set<u128> {
    ks.filter(|k: u128| routes_to(cs, k, i))
}

/// Inserting keys `ks` into `m` keeps every node's children from interleaving: a child
/// that shares its key with a neighbour (it holds only that key) is sent no other key,
/// here and further down.
pub open spec fn routes_ok(m: NodeModel, ks: Set<u128>) -> bool
    decreases m,
{
    if m.height <= 1 {
        true
    } else {
        match m.state {
            StateModel::Internal(cs) => forall|i: int|
                0 <= i < cs.len() ==> {
                    &&& (shares_key(cs, i) ==> forall|k: u128| #[trigger] routed(cs, ks, i).contains(k) ==> k == cs[i].key)
                    &&& routes_ok(#[trigger] cs[i], routed(cs, ks, i))
                },
            _ => true,
        }
    }
}

/// The keys of the leaves `ls`.
pub open spec fn key_set(ls: Seq<LeafView>) -> Set<u128> {
    Set::new(|k: u128| exists|j: int| 0 <= j < ls.len() && (#[trigger] ls[j]).0 == k)
}

/// A node that can be inserted: a valid tree that holds at least one leaf.
pub open spec fn insertable(c: NodeModel) -> bool {
    &&& c.valid()
    &&& c.leaves().len() > 0
    &&& c.height == 0 ==> c.hkey.len() <= 255
}

/// The leaves of `m` that an insertion keeps: all of them, a leaf's own one included.
pub open spec fn insert_base(m: NodeModel) -> Seq<LeafView> {
    m.leaves()
}

/// A node that leaves can be inserted into: a valid tree, whose hkey fits a length byte
/// when it is a leaf (the leaf then becomes a child).
pub open spec fn insert_target(m: NodeModel) -> bool {
    &&& m.valid()
    &&& m.height == 0 ==> m.hkey.len() <= 255
}

/// The height of the nodes that inserting into `m` gives.
pub open spec fn insert_height(m: NodeModel) -> u8 {
    if m.height == 0 {
        1
    } else {
        m.height
    }
}

/// Nodes `ps` hold the leaves `ls`: valid siblings of height `h` that do not interleave.
pub open spec fn holds_leaves(ps: Seq<NodeModel>, h: u8, ls: Seq<LeafView>) -> bool {
    &&& forall|t: int| 0 <= t < ps.len() ==> good_child(#[trigger] ps[t], h) && ps[t].hkey.len() <= 255
    &&& separated(ps)
    &&& leaves_seq(ps).to_multiset() == ls.to_multiset()
}

/// Adding keys to the set can only be refused where fewer keys were.
pub proof fn lemma_routes_ok_mono(m: NodeModel, ks: Set<u128>, ks2: Set<u128>)
    requires
        routes_ok(m, ks),
        ks2.subset_of(ks),
    ensures
        routes_ok(m, ks2),
    decreases m,
{
    if m.height > 1 {
        if let StateModel::Internal(cs) = m.state {
            assert forall|i: int| 0 <= i < cs.len() implies {
                &&& (shares_key(cs, i) ==> forall|k: u128| #[trigger] routed(cs, ks2, i).contains(k) ==> k == cs[i].key)
                &&& routes_ok(#[trigger] cs[i], routed(cs, ks2, i))
            } by {
                assert(routed(cs, ks2, i).subset_of(routed(cs, ks, i)));
                lemma_routes_ok_mono(cs[i], routed(cs, ks, i), routed(cs, ks2, i));
                if shares_key(cs, i) {
                    assert forall|k: u128| #[trigger] routed(cs, ks2, i).contains(k) implies k == cs[i].key by {
                        assert(routed(cs, ks, i).contains(k));
                    }
                }
            }
        }
    }
}

/// Every key goes to some child, searching from child `i` on.
pub proof fn lemma_route_from(cs: Seq<NodeModel>, k: u128, i: int)
    requires
        0 <= i < cs.len(),
        i == 0 || cs[i].key <= k,
    ensures
        exists|j: int| routes_to(cs, k, j),
    decreases cs.len() - i,
{
    if !routes_to(cs, k, i) {
        lemma_route_from(cs, k, i + 1);
    }
}

/// The bounds on a key that goes to child `i`.
pub proof fn lemma_routed_key(cs: Seq<NodeModel>, i: int, k: u128)
    requires
        routes_to(cs, k, i),
        sibling_facts(cs, cs[i].height),
    ensures
        i > 0 ==> k >= cs[i].key,
        i + 1 < cs.len() ==> k < cs[i + 1].key,
{
}

/// The leaves of a child lie between its key and the next child's key.
pub proof fn lemma_child_bounds(cs: Seq<NodeModel>, i: int, q: int)
    requires
        0 <= i < cs.len(),
        sibling_facts(cs, cs[i].height),
        0 <= q < cs[i].leaves().len(),
    ensures
        cs[i].leaves()[q].0 >= cs[i].key,
        i + 1 < cs.len() && cs[i + 1].key != cs[i].key ==> cs[i].leaves()[q].0 < cs[i + 1].key,
        shares_key(cs, i) ==> cs[i].leaves()[q].0 == cs[i].key,
{
    let c = cs[i];
    assert(child_facts(c));
    let ls = c.leaves();
    assert(ls[0].0 <= ls[q].0 <= ls.last().0);
    if i + 1 < cs.len() {
        assert(sep(cs[i], cs[i + 1]));
        assert(child_facts(cs[i + 1]));
        let l1 = cs[i + 1].leaves();
        assert(l1[0].0 <= l1.last().0);
        assert(cs[i].key <= cs[i + 1].key);
    }
    if i > 0 {
        assert(sep(cs[i - 1], cs[i]));
        assert(child_facts(cs[i - 1]));
        let l0 = cs[i - 1].leaves();
        assert(l0[0].0 <= l0.last().0);
        assert(cs[i - 1].key <= cs[i].key);
    }
}

/// The leaves of leaf nodes are the nodes' own keys.
pub proof fn lemma_leaf_keys(g: Seq<NodeModel>, p: int)
    requires
        leaf_nodes(g),
        0 <= p < leaves_seq(g).len(),
    ensures
        exists|t: int| 0 <= t < g.len() && leaves_seq(g)[p].0 == (#[trigger] g[t]).key,
{
    lemma_leaves_seq_member(g, p);
    let (j, q) = choose|j: int, q: int| 0 <= j < g.len() && 0 <= q < g[j].leaves().len() && leaves_seq(g)[p] == #[trigger] g[j].leaves()[q];
    assert(good_child(g[j], 0));
    assert(g[j].leaves() == seq![(g[j].key, g[j].hkey)]);
}

/// Where the leaves of the nodes rebuilt from child `i` lie, when they are those of the
/// child and of the leaf nodes `g` sent to it.
pub proof fn lemma_segment_keys(cs: Seq<NodeModel>, i: int, g: Seq<NodeModel>, s: Seq<NodeModel>, ks: Set<u128>)
    requires
        0 <= i < cs.len(),
        sibling_facts(cs, cs[i].height),
        leaf_nodes(g),
        forall|t: int| 0 <= t < g.len() ==> routes_to(cs, (#[trigger] g[t]).key, i),
        shares_key(cs, i) ==> forall|t: int| 0 <= t < g.len() ==> (#[trigger] g[t]).key == cs[i].key,
        leaves_seq(s).to_multiset() == (cs[i].leaves() + leaves_seq(g)).to_multiset(),
    ensures
        forall|y: int, q: int| 0 <= y < s.len() && 0 <= q < s[y].leaves().len() ==> {
            &&& (i > 0 ==> (#[trigger] s[y].leaves()[q]).0 >= cs[i].key)
            &&& (i + 1 < cs.len() && cs[i + 1].key != cs[i].key ==> s[y].leaves()[q].0 < cs[i + 1].key)
            &&& (shares_key(cs, i) ==> s[y].leaves()[q].0 == cs[i].key)
        },
{
    let all = cs[i].leaves() + leaves_seq(g);
    crate::construct::lemma_perm_contains(leaves_seq(s), all);
    assert forall|y: int, q: int| 0 <= y < s.len() && 0 <= q < s[y].leaves().len() implies {
        &&& (i > 0 ==> (#[trigger] s[y].leaves()[q]).0 >= cs[i].key)
        &&& (i + 1 < cs.len() && cs[i + 1].key != cs[i].key ==> s[y].leaves()[q].0 < cs[i + 1].key)
        &&& (shares_key(cs, i) ==> s[y].leaves()[q].0 == cs[i].key)
    } by {
        let l = s[y].leaves()[q];
        lemma_child_leaves_within(s, y);
        assert(leaves_seq(s).contains(l));
        let p = choose|p: int| 0 <= p < leaves_seq(s).len() && leaves_seq(s)[p] == l;
        assert(all.contains(l));
        let a = choose|a: int| 0 <= a < all.len() && all[a] == l;
        if a < cs[i].leaves().len() {
            assert(all[a] == cs[i].leaves()[a]);
            lemma_child_bounds(cs, i, a);
        } else {
            let b = a - cs[i].leaves().len();
            assert(all[a] == leaves_seq(g)[b]);
            lemma_leaf_keys(g, b);
            let t = choose|t: int| 0 <= t < g.len() && leaves_seq(g)[b].0 == (#[trigger] g[t]).key;
            assert(routes_to(cs, g[t].key, i));
            lemma_routed_key(cs, i, g[t].key);
            if i + 1 < cs.len() && cs[i + 1].key != cs[i].key {
                assert(l.0 < cs[i + 1].key);
            }
        }
    }
}

/// Every parent that `parents_of` describes is bounded when the children are.
pub proof fn lemma_bounded_parents(ps: Seq<NodeModel>, input: Seq<NodeModel>)
    requires
        parents_of(ps, input),
        forall|i: int| 0 <= i < input.len() ==> bounded(#[trigger] input[i]),
    ensures
        forall|t: int| 0 <= t < ps.len() ==> bounded(#[trigger] ps[t]),
{
    let gs = ps.map_values(|p: NodeModel| children_of(p));
    let f = crate::group::flatten(gs);
    crate::construct::lemma_perm_contains(f, input);
    assert forall|t: int| 0 <= t < ps.len() implies bounded(#[trigger] ps[t]) by {
        assert(gs[t] == children_of(ps[t]));
        crate::construct::lemma_group_members(gs, t);
        assert(gs[t].len() <= crate::MAX_CHILDREN);
        assert forall|i: int| 0 <= i < gs[t].len() implies bounded(#[trigger] gs[t][i]) by {
            assert(f.contains(gs[t][i]));
            let k = choose|k: int| 0 <= k < f.len() && f[k] == gs[t][i];
            assert(input.contains(f[k]));
        }
    }
}

/// A node rebuilt from the children before child `i` stays clear of it: it ends below
/// child `i`'s key, or it holds only that key and child `i` shares it with a neighbour.
pub open spec fn below_next(cs: Seq<NodeModel>, i: int, x: NodeModel) -> bool {
    ||| x.max_key() < cs[i].key
    ||| (x.pure() && x.key == cs[i].key && shares_key(cs, i))
}

/// The state of an insertion into the valid node `m` after its first `i` children `cs`
/// were handled: `rv` are the rebuilt nodes, `rem` the leaf nodes not yet placed, and
/// `inc` the leaves that are being inserted.
#[verifier::opaque]
pub open spec fn insert_inv(m: NodeModel, cs: Seq<NodeModel>, rv: Seq<NodeModel>, rem: Seq<NodeModel>, inc: Seq<LeafView>, ks: Set<u128>, i: int, h1: u8) -> bool {
    &&& 0 <= i <= cs.len()
    &&& cs.len() > 0
    &&& cs == children_of(m)
    &&& m.height == h1 + 1
    &&& h1 >= 1
    &&& m.state is Internal
    &&& sibling_facts(cs, h1)
    &&& routes_ok(m, ks)
    &&& leaf_nodes(rem)
    &&& hkeys_fit(rem)
    &&& forall|t: int| 0 <= t < rem.len() ==> ks.contains(#[trigger] rem[t].key)
    &&& forall|t: int, j: int| 0 <= t < rem.len() && 0 <= j < i ==> !(#[trigger] routes_to(cs, rem[t].key, j))
    &&& forall|t: int| 0 <= t < rv.len() ==> good_child(#[trigger] rv[t], h1) && rv[t].hkey.len() <= 255
    &&& separated(rv)
    &&& i == 0 ==> rv.len() == 0
    &&& leaves_seq(rv).to_multiset().add(leaves_seq(rem).to_multiset()) == (leaves_seq(cs.subrange(0, i)) + inc).to_multiset()
    &&& i < cs.len() ==> forall|t: int| 0 <= t < rv.len() ==> below_next(cs, i, #[trigger] rv[t])
    &&& bounded(m) ==> forall|t: int| 0 <= t < rv.len() ==> bounded(#[trigger] rv[t])
}

pub proof fn lemma_insert_start(m: NodeModel, rem: Seq<NodeModel>, ks: Set<u128>)
    requires
        m.valid(),
        m.height >= 2,
        leaf_nodes(rem),
        hkeys_fit(rem),
        forall|t: int| 0 <= t < rem.len() ==> ks.contains(#[trigger] rem[t].key),
        routes_ok(m, ks),
    ensures
        insert_inv(m, children_of(m), Seq::empty(), rem, leaves_seq(rem), ks, 0, (m.height - 1) as u8),
{
    reveal(insert_inv);
    let cs = children_of(m);
    let h1 = (m.height - 1) as u8;
    assert forall|k: int| 0 <= k < cs.len() implies good_child(#[trigger] cs[k], h1) && child_facts(cs[k]) by {
        crate::model::lemma_valid_leaves(cs[k]);
    }
    assert(cs.subrange(0, 0) =~= Seq::<NodeModel>::empty());
    assert(leaves_seq(Seq::<NodeModel>::empty()) == Seq::<LeafView>::empty());
    crate::model::lemma_empty_to_multiset(Seq::<LeafView>::empty());
    assert(Seq::<LeafView>::empty() + leaves_seq(rem) =~= leaves_seq(rem));
    assert(vstd::multiset::Multiset::<LeafView>::empty().add(leaves_seq(rem).to_multiset()) =~= leaves_seq(rem).to_multiset());
}

/// What the leaf nodes `g` sent to child `i` satisfy, and what the rest keeps.
pub proof fn lemma_group_facts(m: NodeModel, cs: Seq<NodeModel>, rv: Seq<NodeModel>, rem: Seq<NodeModel>, inc: Seq<LeafView>, ks: Set<u128>, i: int, h1: u8, g: Seq<NodeModel>, rest: Seq<NodeModel>)
    requires
        insert_inv(m, cs, rv, rem, inc, ks, i, h1),
        i < cs.len(),
        (g + rest).to_multiset() == rem.to_multiset(),
        forall|t: int| 0 <= t < g.len() ==> routes_to(cs, (#[trigger] g[t]).key, i),
    ensures
        leaf_nodes(g),
        leaf_nodes(rest),
        hkeys_fit(rest),
        forall|t: int| 0 <= t < g.len() ==> insertable(#[trigger] g[t]),
        forall|t: int| 0 <= t < rest.len() ==> ks.contains(#[trigger] rest[t].key),
        forall|t: int, j: int| 0 <= t < rest.len() && 0 <= j < i ==> !(#[trigger] routes_to(cs, rest[t].key, j)),
        routes_ok(cs[i], key_set(leaves_seq(g))),
        shares_key(cs, i) ==> forall|t: int| 0 <= t < g.len() ==> (#[trigger] g[t]).key == cs[i].key,
        good_child(cs[i], h1),
        cs[i].hkey.len() <= 255,
        cs[i].valid(),
        bounded(m) ==> bounded(cs[i]),
{
    reveal(insert_inv);
    let both = g + rest;
    crate::construct::lemma_perm_contains(both, rem);
    assert forall|t: int| 0 <= t < g.len() implies good_child(#[trigger] g[t], 0) && ks.contains(g[t].key) && g[t].hkey.len() <= 255 by {
        assert(both[t] == g[t]);
        assert(rem.contains(g[t]));
    }
    assert forall|t: int| 0 <= t < g.len() implies insertable(#[trigger] g[t]) by {
        assert(good_child(g[t], 0));
    }
    assert forall|t: int| 0 <= t < rest.len() implies good_child(#[trigger] rest[t], 0) && ks.contains(rest[t].key) && rest[t].hkey.len() <= 255
        && forall|j: int| 0 <= j < i ==> !routes_to(cs, rest[t].key, j) by {
        assert(both[g.len() + t] == rest[t]);
        assert(rem.contains(rest[t]));
        let u = choose|u: int| 0 <= u < rem.len() && rem[u] == rest[t];
        assert forall|j: int| 0 <= j < i implies !routes_to(cs, rest[t].key, j) by {
            assert(!routes_to(cs, rem[u].key, j));
        }
    }
    let kg = key_set(leaves_seq(g));
    assert(kg.subset_of(routed(cs, ks, i))) by {
        assert forall|k: u128| kg.contains(k) implies routed(cs, ks, i).contains(k) by {
            let j = choose|j: int| 0 <= j < leaves_seq(g).len() && (#[trigger] leaves_seq(g)[j]).0 == k;
            lemma_leaf_keys(g, j);
            let t = choose|t: int| 0 <= t < g.len() && leaves_seq(g)[j].0 == (#[trigger] g[t]).key;
            assert(routes_to(cs, g[t].key, i));
        }
    }
    assert(cs[i] == children_of(m)[i]);
    assert(routes_ok(cs[i], routed(cs, ks, i)));
    lemma_routes_ok_mono(cs[i], routed(cs, ks, i), kg);
    if shares_key(cs, i) {
        assert forall|t: int| 0 <= t < g.len() implies (#[trigger] g[t]).key == cs[i].key by {
            assert(routed(cs, ks, i).contains(g[t].key));
        }
    }
    assert(good_child(cs[i], h1));
}

} // verus!

verus! {

/// Where the nodes that stand in place of child `i` lie.
pub open spec fn segment_bounds(cs: Seq<NodeModel>, i: int, s: Seq<NodeModel>) -> bool {
    forall|b: int| 0 <= b < s.len() ==> {
        &&& (i > 0 ==> (#[trigger] s[b]).key >= cs[i].key)
        &&& (i + 1 < cs.len() && cs[i + 1].key != cs[i].key ==> s[b].max_key() < cs[i + 1].key)
        &&& (shares_key(cs, i) ==> s[b].pure() && s[b].key == cs[i].key)
    }
}

proof fn lemma_segment_bounds(cs: Seq<NodeModel>, i: int, g: Seq<NodeModel>, s: Seq<NodeModel>, ks: Set<u128>, h1: u8)
    requires
        0 <= i < cs.len(),
        sibling_facts(cs, cs[i].height),
        leaf_nodes(g),
        forall|t: int| 0 <= t < g.len() ==> routes_to(cs, (#[trigger] g[t]).key, i),
        shares_key(cs, i) ==> forall|t: int| 0 <= t < g.len() ==> (#[trigger] g[t]).key == cs[i].key,
        leaves_seq(s).to_multiset() == (cs[i].leaves() + leaves_seq(g)).to_multiset(),
        forall|t: int| 0 <= t < s.len() ==> good_child(#[trigger] s[t], h1),
    ensures
        segment_bounds(cs, i, s),
{
    lemma_segment_keys(cs, i, g, s, ks);
    assert forall|b: int| 0 <= b < s.len() implies {
        &&& (i > 0 ==> (#[trigger] s[b]).key >= cs[i].key)
        &&& (i + 1 < cs.len() && cs[i + 1].key != cs[i].key ==> s[b].max_key() < cs[i + 1].key)
        &&& (shares_key(cs, i) ==> s[b].pure() && s[b].key == cs[i].key)
    } by {
        let y = s[b];
        assert(good_child(y, h1));
        let q = y.leaves().len() - 1;
        assert(y.leaves()[0] == y.leaves()[0]);
        assert(y.leaves()[q] == y.leaves().last());
    }
}

proof fn lemma_step_separated(cs: Seq<NodeModel>, i: int, rv: Seq<NodeModel>, s: Seq<NodeModel>, h1: u8)
    requires
        0 <= i < cs.len(),
        i == 0 ==> rv.len() == 0,
        separated(rv),
        separated(s),
        forall|t: int| 0 <= t < rv.len() ==> below_next(cs, i, #[trigger] rv[t]),
        forall|t: int| 0 <= t < s.len() ==> good_child(#[trigger] s[t], h1),
        segment_bounds(cs, i, s),
    ensures
        separated(rv + s),
{
    let r2 = rv + s;
    assert forall|a: int, b: int| 0 <= a < r2.len() && 0 <= b < r2.len() && a != b implies sep(#[trigger] r2[a], #[trigger] r2[b]) by {
        if a < rv.len() && b < rv.len() {
            assert(r2[a] == rv[a] && r2[b] == rv[b]);
        } else if a >= rv.len() && b >= rv.len() {
            assert(r2[a] == s[a - rv.len()] && r2[b] == s[b - rv.len()]);
        } else {
            let (x, y) = if a < rv.len() { (rv[a], s[b - rv.len()]) } else { (rv[b], s[a - rv.len()]) };
            if a < rv.len() {
                assert(r2[a] == x && r2[b] == y);
            } else {
                assert(r2[b] == x && r2[a] == y);
            }
            assert(i > 0);
            assert(below_next(cs, i, x));
            assert(good_child(y, h1));
            let ly = y.leaves();
            assert(ly[0].0 <= ly.last().0) by {
                crate::model::lemma_valid_leaves(y);
            }
        }
    }
}

proof fn lemma_step_leaves(cs: Seq<NodeModel>, i: int, rv: Seq<NodeModel>, rem: Seq<NodeModel>, inc: Seq<LeafView>, g: Seq<NodeModel>, rest: Seq<NodeModel>, s: Seq<NodeModel>)
    requires
        0 <= i < cs.len(),
        leaves_seq(rv).to_multiset().add(leaves_seq(rem).to_multiset()) == (leaves_seq(cs.subrange(0, i)) + inc).to_multiset(),
        (g + rest).to_multiset() == rem.to_multiset(),
        leaves_seq(s).to_multiset() == (cs[i].leaves() + leaves_seq(g)).to_multiset(),
    ensures
        leaves_seq(rv + s).to_multiset().add(leaves_seq(rest).to_multiset()) == (leaves_seq(cs.subrange(0, i + 1)) + inc).to_multiset(),
{
    let r2 = rv + s;
    let lg = leaves_seq(g);
    let lr = leaves_seq(rest);
    crate::lemmas::lemma_perm_leaves(g + rest, rem);
    lemma_leaves_seq_concat(g, rest);
    vstd::seq_lib::lemma_multiset_commutative(lg, lr);
    lemma_leaves_seq_concat(rv, s);
    vstd::seq_lib::lemma_multiset_commutative(leaves_seq(rv), leaves_seq(s));
    vstd::seq_lib::lemma_multiset_commutative(cs[i].leaves(), lg);
    assert(cs.subrange(0, i + 1) =~= cs.subrange(0, i).push(cs[i]));
    crate::model::lemma_leaves_seq_push(cs.subrange(0, i), cs[i]);
    let before = leaves_seq(cs.subrange(0, i));
    vstd::seq_lib::lemma_multiset_commutative(before, inc);
    vstd::seq_lib::lemma_multiset_commutative(before + cs[i].leaves(), inc);
    vstd::seq_lib::lemma_multiset_commutative(before, cs[i].leaves());
    let ma = leaves_seq(rv).to_multiset();
    let mr = lr.to_multiset();
    let mgr = lg.to_multiset().add(mr);
    assert(leaves_seq(rem).to_multiset() == mgr);
    assert(ma.add(mgr) == before.to_multiset().add(inc.to_multiset()));
    assert(leaves_seq(s).to_multiset() == cs[i].leaves().to_multiset().add(lg.to_multiset()));
    assert(leaves_seq(r2).to_multiset() == ma.add(leaves_seq(s).to_multiset()));
    assert(leaves_seq(cs.subrange(0, i + 1)) == before + cs[i].leaves());
    assert((leaves_seq(cs.subrange(0, i + 1)) + inc).to_multiset() == before.to_multiset().add(cs[i].leaves().to_multiset()).add(inc.to_multiset()));
    let lhs = leaves_seq(r2).to_multiset().add(mr);
    let rhs = (leaves_seq(cs.subrange(0, i + 1)) + inc).to_multiset();
    assert forall|v: LeafView| #[trigger] lhs.count(v) == rhs.count(v) by {
        assert(ma.add(mgr).count(v) == before.to_multiset().add(inc.to_multiset()).count(v));
    }
    assert(lhs =~= rhs);
}

proof fn lemma_step_next(cs: Seq<NodeModel>, i: int, rv: Seq<NodeModel>, s: Seq<NodeModel>, h1: u8)
    requires
        0 <= i,
        i + 1 < cs.len(),
        crate::model::keys_nondecreasing(cs),
        forall|t: int| 0 <= t < rv.len() ==> below_next(cs, i, #[trigger] rv[t]),
        segment_bounds(cs, i, s),
    ensures
        forall|t: int| 0 <= t < (rv + s).len() ==> below_next(cs, i + 1, #[trigger] (rv + s)[t]),
{
    let r2 = rv + s;
    assert forall|t: int| 0 <= t < r2.len() implies below_next(cs, i + 1, #[trigger] r2[t]) by {
        assert(cs[i].key <= cs[i + 1].key);
        if t < rv.len() {
            let x = rv[t];
            assert(r2[t] == x);
            assert(below_next(cs, i, x));
            if x.max_key() < cs[i].key {
            } else if cs[i + 1].key == cs[i].key {
                assert(shares_key(cs, i + 1));
            }
        } else {
            let y = s[t - rv.len()];
            assert(r2[t] == y);
            if cs[i + 1].key == cs[i].key {
                assert(shares_key(cs, i));
                assert(shares_key(cs, i + 1));
            }
        }
    }
}

/// Handling child `i`: `g` are the leaf nodes sent to it, `rest` those left, and `s` the
/// nodes that now stand in its place.
pub proof fn lemma_insert_step(m: NodeModel, cs: Seq<NodeModel>, rv: Seq<NodeModel>, rem: Seq<NodeModel>, inc: Seq<LeafView>, ks: Set<u128>, i: int, h1: u8, g: Seq<NodeModel>, rest: Seq<NodeModel>, s: Seq<NodeModel>)
    requires
        insert_inv(m, cs, rv, rem, inc, ks, i, h1),
        i < cs.len(),
        (g + rest).to_multiset() == rem.to_multiset(),
        forall|t: int| 0 <= t < g.len() ==> routes_to(cs, (#[trigger] g[t]).key, i),
        forall|t: int| 0 <= t < rest.len() ==> !routes_to(cs, (#[trigger] rest[t]).key, i),
        forall|t: int| 0 <= t < s.len() ==> good_child(#[trigger] s[t], h1) && s[t].hkey.len() <= 255,
        separated(s),
        leaves_seq(s).to_multiset() == (cs[i].leaves() + leaves_seq(g)).to_multiset(),
        bounded(m) ==> forall|t: int| 0 <= t < s.len() ==> bounded(#[trigger] s[t]),
    ensures
        insert_inv(m, cs, rv + s, rest, inc, ks, i + 1, h1),
{
    lemma_group_facts(m, cs, rv, rem, inc, ks, i, h1, g, rest);
    reveal(insert_inv);
    let r2 = rv + s;
    lemma_segment_bounds(cs, i, g, s, ks, h1);
    lemma_step_separated(cs, i, rv, s, h1);
    lemma_step_leaves(cs, i, rv, rem, inc, g, rest, s);
    if i + 1 < cs.len() {
        lemma_step_next(cs, i, rv, s, h1);
    }
    assert forall|t: int, j: int| 0 <= t < rest.len() && 0 <= j < i + 1 implies !(#[trigger] routes_to(cs, rest[t].key, j)) by {
        if j < i {
        } else {
            assert(!routes_to(cs, rest[t].key, i));
        }
    }
    assert forall|t: int| 0 <= t < r2.len() implies good_child(#[trigger] r2[t], h1) && r2[t].hkey.len() <= 255 by {
        if t < rv.len() {
            assert(r2[t] == rv[t]);
        } else {
            assert(r2[t] == s[t - rv.len()]);
        }
    }
    if bounded(m) {
        assert forall|t: int| 0 <= t < r2.len() implies bounded(#[trigger] r2[t]) by {
            if t < rv.len() {
                assert(r2[t] == rv[t]);
            } else {
                assert(r2[t] == s[t - rv.len()]);
            }
        }
    }
}

/// After the last child, every leaf node was placed, and the rebuilt nodes hold the
/// leaves of `m` and the inserted ones.
pub proof fn lemma_insert_end(m: NodeModel, cs: Seq<NodeModel>, rv: Seq<NodeModel>, rem: Seq<NodeModel>, inc: Seq<LeafView>, ks: Set<u128>, h1: u8)
    requires
        insert_inv(m, cs, rv, rem, inc, ks, cs.len() as int, h1),
    ensures
        rem.len() == 0,
        forall|t: int| 0 <= t < rv.len() ==> good_child(#[trigger] rv[t], h1) && rv[t].hkey.len() <= 255,
        separated(rv),
        leaves_seq(rv).to_multiset() == (m.leaves() + inc).to_multiset(),
        bounded(m) ==> forall|t: int| 0 <= t < rv.len() ==> bounded(#[trigger] rv[t]),
        cs.len() > 0,
{
    reveal(insert_inv);
    if rem.len() > 0 {
        assert(cs.len() > 0);
        lemma_route_from(cs, rem[0].key, 0);
        let j = choose|j: int| routes_to(cs, rem[0].key, j);
        assert(!routes_to(cs, rem[0].key, j));
    }
    assert(rem =~= Seq::<NodeModel>::empty());
    assert(leaves_seq(rem) == Seq::<LeafView>::empty());
    crate::model::lemma_empty_to_multiset(leaves_seq(rem));
    assert(leaves_seq(rv).to_multiset().add(vstd::multiset::Multiset::empty()) =~= leaves_seq(rv).to_multiset());
    assert(cs.subrange(0, cs.len() as int) =~= cs);
}

} // verus!

verus! {

/// Why an insertion could not be completed.
#[derive(Debug)]
pub enum HtreeNodeInsertLeavesError {
    /// An inserted node's state is corrupted.
    CorruptedLeaf,
    /// This node's state is corrupted.
    CorruptedNode,
    /// Rebuilding a node failed for a reason other than the store.
    FromChildren(HtreeNodeFromChildrenError),
    /// A node's hkey does not describe a reference.
    Hkey(HkeyFromCompactError),
    /// The reference is to a list of parts, which is not read.
    ListReference,
    /// The store failed.
    Store(InMemoryStoreError),
    /// A node's stored children could not be read.
    UnpackChildren(HtreeNodeUnpackChildrenError),
}

fn insert_fetch_error(e: HtreeNodeFetchChildrenError) -> (r: HtreeNodeInsertLeavesError)
    ensures
        match e {
            HtreeNodeFetchChildrenError::CorruptedState => r == HtreeNodeInsertLeavesError::CorruptedNode,
            HtreeNodeFetchChildrenError::Hkey(x) => r == HtreeNodeInsertLeavesError::Hkey(x),
            HtreeNodeFetchChildrenError::ListReference => r == HtreeNodeInsertLeavesError::ListReference,
            HtreeNodeFetchChildrenError::Store(x) => r == HtreeNodeInsertLeavesError::Store(x),
            HtreeNodeFetchChildrenError::UnpackChildren(x) => r == HtreeNodeInsertLeavesError::UnpackChildren(x),
        },
{
    match e {
        HtreeNodeFetchChildrenError::CorruptedState => HtreeNodeInsertLeavesError::CorruptedNode,
        HtreeNodeFetchChildrenError::Hkey(e) => HtreeNodeInsertLeavesError::Hkey(e),
        HtreeNodeFetchChildrenError::ListReference => HtreeNodeInsertLeavesError::ListReference,
        HtreeNodeFetchChildrenError::Store(e) => HtreeNodeInsertLeavesError::Store(e),
        HtreeNodeFetchChildrenError::UnpackChildren(e) => HtreeNodeInsertLeavesError::UnpackChildren(e),
    }
}

fn insert_leaf_error(e: HtreeNodeFetchChildrenError) -> (r: HtreeNodeInsertLeavesError)
    ensures
        match e {
            HtreeNodeFetchChildrenError::CorruptedState => r == HtreeNodeInsertLeavesError::CorruptedLeaf,
            HtreeNodeFetchChildrenError::Hkey(x) => r == HtreeNodeInsertLeavesError::Hkey(x),
            HtreeNodeFetchChildrenError::ListReference => r == HtreeNodeInsertLeavesError::ListReference,
            HtreeNodeFetchChildrenError::Store(x) => r == HtreeNodeInsertLeavesError::Store(x),
            HtreeNodeFetchChildrenError::UnpackChildren(x) => r == HtreeNodeInsertLeavesError::UnpackChildren(x),
        },
{
    match e {
        HtreeNodeFetchChildrenError::CorruptedState => HtreeNodeInsertLeavesError::CorruptedLeaf,
        HtreeNodeFetchChildrenError::Hkey(e) => HtreeNodeInsertLeavesError::Hkey(e),
        HtreeNodeFetchChildrenError::ListReference => HtreeNodeInsertLeavesError::ListReference,
        HtreeNodeFetchChildrenError::Store(e) => HtreeNodeInsertLeavesError::Store(e),
        HtreeNodeFetchChildrenError::UnpackChildren(e) => HtreeNodeInsertLeavesError::UnpackChildren(e),
    }
}

fn insert_build_error(e: HtreeNodeFromChildrenError) -> (r: HtreeNodeInsertLeavesError)
    ensures
        e is Store ==> r is Store,
{
    match e {
        HtreeNodeFromChildrenError::Store(e) => HtreeNodeInsertLeavesError::Store(e),
        e => HtreeNodeInsertLeavesError::FromChildren(e),
    }
}

/// What an insertion into `m` of the nodes `ins` needs to keep the tree well formed:
/// `m` is valid, each inserted node is a valid non-empty tree, and the keys route
/// without making siblings interleave.
pub open spec fn insert_ok(m: NodeModel, ins: Seq<NodeModel>) -> bool {
    &&& insert_target(m)
    &&& forall|t: int| 0 <= t < ins.len() ==> insertable(#[trigger] ins[t])
    &&& routes_ok(m, key_set(leaves_seq(ins)))
}

/// What inserting `ins` into `m` gives.
pub open spec fn insert_spec(m: NodeModel, ins: Seq<NodeModel>, r: Result<Vec<HtreeNode>, HtreeNodeInsertLeavesError>) -> bool {
    match r {
        Ok(ps) => {
            &&& holds_leaves(view_nodes(ps@), insert_height(m), insert_base(m) + leaves_seq(ins))
            &&& bounded(m) ==> forall|t: int| 0 <= t < ps@.len() ==> bounded(#[trigger] view_nodes(ps@)[t])
        },
        Err(e) => e is Store,
    }
}

/// Whether key `k` goes to child `i` of `own`.
fn routes_here(own: &Vec<HtreeNode>, i: usize, k: u128) -> (r: bool)
    requires
        i < own@.len(),
    ensures
        r == routes_to(view_nodes(own@), k, i as int),
{
    proof { lemma_view_nodes(own@); }
    let n = own.len();
    (i == 0 || own[i].key <= k) && (i + 1 == n || k < own[i + 1].key)
}

/// Splits `v` into the nodes whose keys go to child `i` of `own` and the others, each
/// part in its original order.
fn split_routed(own: &Vec<HtreeNode>, i: usize, v: Vec<HtreeNode>) -> (r: (Vec<HtreeNode>, Vec<HtreeNode>))
    requires
        i < own@.len(),
    ensures
        (view_nodes(r.0@) + view_nodes(r.1@)).to_multiset() == view_nodes(v@).to_multiset(),
        forall|t: int| 0 <= t < r.0@.len() ==> routes_to(view_nodes(own@), (#[trigger] view_nodes(r.0@)[t]).key, i as int),
        forall|t: int| 0 <= t < r.1@.len() ==> !routes_to(view_nodes(own@), (#[trigger] view_nodes(r.1@)[t]).key, i as int),
{
    let ghost vv = view_nodes(v@);
    proof { lemma_view_nodes(v@); }
    let mut here: Vec<HtreeNode> = Vec::new();
    let mut rest: Vec<HtreeNode> = Vec::new();
    let mut j: usize = 0;
    proof {
        lemma_view_nodes(here@);
        lemma_view_nodes(rest@);
        crate::model::lemma_empty_to_multiset(view_nodes(here@));
        crate::model::lemma_empty_to_multiset(view_nodes(rest@));
        crate::model::lemma_empty_to_multiset(vv.subrange(0, 0));
        assert(vstd::multiset::Multiset::<NodeModel>::empty().add(vstd::multiset::Multiset::empty()) =~= vstd::multiset::Multiset::empty());
    }
    while j < v.len()
        invariant
            j <= v@.len(),
            i < own@.len(),
            vv == view_nodes(v@),
            vv.len() == v@.len(),
            forall|k: int| 0 <= k < vv.len() ==> #[trigger] vv[k] == v@[k]@,
            view_nodes(here@).to_multiset().add(view_nodes(rest@).to_multiset()) == vv.subrange(0, j as int).to_multiset(),
            view_nodes(here@).len() == here@.len(),
            view_nodes(rest@).len() == rest@.len(),
            forall|t: int| 0 <= t < here@.len() ==> routes_to(view_nodes(own@), (#[trigger] view_nodes(here@)[t]).key, i as int),
            forall|t: int| 0 <= t < rest@.len() ==> !routes_to(view_nodes(own@), (#[trigger] view_nodes(rest@)[t]).key, i as int),
        decreases v@.len() - j,
    {
        let x = v[j].copy();
        let ghost hv = view_nodes(here@);
        let ghost rv = view_nodes(rest@);
        proof {
            assert(vv.subrange(0, j + 1) =~= vv.subrange(0, j as int).push(x@));
            vstd::seq_lib::to_multiset_build(vv.subrange(0, j as int), x@);
        }
        if routes_here(own, i, x.key) {
            proof {
                lemma_view_nodes_push(here@, x);
                vstd::seq_lib::to_multiset_build(hv, x@);
            }
            here.push(x);
            proof {
                lemma_view_nodes(here@);
                assert(view_nodes(here@).to_multiset().add(rv.to_multiset()) =~= vv.subrange(0, j + 1).to_multiset());
            }
        } else {
            proof {
                lemma_view_nodes_push(rest@, x);
                vstd::seq_lib::to_multiset_build(rv, x@);
            }
            rest.push(x);
            proof {
                lemma_view_nodes(rest@);
                assert(hv.to_multiset().add(view_nodes(rest@).to_multiset()) =~= vv.subrange(0, j + 1).to_multiset());
            }
        }
        j += 1;
    }
    proof {
        assert(vv.subrange(0, vv.len() as int) =~= vv);
        vstd::seq_lib::lemma_multiset_commutative(view_nodes(here@), view_nodes(rest@));
    }
    (here, rest)
}

/// The keys of leaf nodes are among the keys of their leaves.
pub proof fn lemma_leaf_node_keys(ns: Seq<NodeModel>)
    requires
        leaf_nodes(ns),
    ensures
        forall|t: int| 0 <= t < ns.len() ==> key_set(leaves_seq(ns)).contains(#[trigger] ns[t].key),
{
    assert forall|t: int| 0 <= t < ns.len() implies key_set(leaves_seq(ns)).contains(#[trigger] ns[t].key) by {
        lemma_child_leaves_within(ns, t);
        assert(good_child(ns[t], 0));
        assert(ns[t].leaves() == seq![(ns[t].key, ns[t].hkey)]);
        assert(leaves_seq(ns).contains(ns[t].leaves()[0]));
        let j = choose|j: int| 0 <= j < leaves_seq(ns).len() && leaves_seq(ns)[j] == ns[t].leaves()[0];
        assert(leaves_seq(ns)[j].0 == ns[t].key);
    }
}

impl HtreeNode {
    /// Inserts the leaves of `children` (leaves, or trees whose leaves are taken) into this
    /// node and rebuilds it. Below a node of height two or more each leaf goes to the last
    /// child whose key does not exceed its key (or the first child); a leaf becomes one of
    /// the children of parents built over it and the inserted leaves, and an empty node
    /// gives parents over the inserted leaves alone. The result is the sibling nodes
    /// that now hold everything, more than one when a node had to split.
    pub fn insert_leaves(&self, children: Vec<HtreeNode>, store: &InMemoryStore) -> (r: Result<Vec<HtreeNode>, HtreeNodeInsertLeavesError>)
        ensures
            insert_ok(self@, view_nodes(children@)) ==> insert_spec(self@, view_nodes(children@), r),
            r matches Ok(ps) ==> crate::model::keys_nondecreasing(view_nodes(ps@)),
            insert_ok(self@, view_nodes(children@)) && crate::faithful::faithful(self@) ==> (r matches Ok(ps)
                ==> crate::cover::all_faithful(view_nodes(ps@))),
        decreases self@.height,
    {
        let ghost m = self@;
        let ghost ins = view_nodes(children@);
        let ghost good = insert_ok(m, ins);
        let ghost fg = good && crate::faithful::faithful(m);
        let own = match self.fetch_children(store) {
            Ok(own) => own,
            Err(e) => return Err(insert_fetch_error(e)),
        };
        proof {
            lemma_view_nodes(children@);
            lemma_view_nodes(own@);
            lemma_view_nodes(Seq::<HtreeNode>::empty());
            assert(ins.subrange(0, 0) =~= Seq::<NodeModel>::empty());
            assert(leaves_seq(Seq::<NodeModel>::empty()) == Seq::<LeafView>::empty());
            assert(view_nodes(Seq::<HtreeNode>::empty()) =~= Seq::<NodeModel>::empty());
        }
        let mut incoming: Vec<HtreeNode> = Vec::new();
        let mut j: usize = 0;
        while j < children.len()
            invariant
                j <= children@.len(),
                ins == view_nodes(children@),
                ins.len() == children@.len(),
                forall|k: int| 0 <= k < ins.len() ==> #[trigger] ins[k] == children@[k]@,
                good == insert_ok(m, ins),
                good ==> leaf_nodes(view_nodes(incoming@)) && hkeys_fit(view_nodes(incoming@))
                    && leaves_seq(view_nodes(incoming@)) == leaves_seq(ins.subrange(0, j as int)),
            decreases children@.len() - j,
        {
            let c = &children[j];
            let ghost mid = incoming@;
            proof {
                assert(ins.subrange(0, j + 1) =~= ins.subrange(0, j as int).push(ins[j as int]));
                crate::model::lemma_leaves_seq_push(ins.subrange(0, j as int), ins[j as int]);
            }
            if c.is_leaf() {
                let x = c.copy();
                proof { lemma_view_nodes_push(incoming@, x); }
                incoming.push(x);
                proof {
                    if good {
                        assert(insertable(ins[j as int]));
                        crate::model::lemma_leaves_seq_push(view_nodes(mid), x@);
                        assert(x@.leaves().len() > 0 && x@.height == 0);
                        assert(x@.leaves() == seq![(x@.key, x@.hkey)]);
                        let nv = view_nodes(incoming@);
                        assert forall|t: int| 0 <= t < nv.len() implies good_child(#[trigger] nv[t], 0) && nv[t].hkey.len() <= 255 by {
                            if t < view_nodes(mid).len() {
                                assert(nv[t] == view_nodes(mid)[t]);
                            } else {
                                assert(nv[t] == x@);
                            }
                        }
                    }
                }
            } else {
                let res = c.collect_leaves(&mut incoming, store);
                proof {
                    crate::leaves::lemma_tail_split(mid, incoming@);
                }
                if let Err(e) = res {
                    return Err(insert_leaf_error(e));
                }
                proof {
                    if good {
                        assert(insertable(ins[j as int]));
                        let tl = crate::leaves::tail_of(incoming@, mid.len() as int);
                        crate::leaves::lemma_leaf_nodes_concat(view_nodes(mid), tl);
                        crate::leaves::lemma_fit_concat(view_nodes(mid), tl);
                        lemma_leaves_seq_concat(view_nodes(mid), tl);
                    }
                }
            }
            j += 1;
        }
        let ghost inc = view_nodes(incoming@);
        let ghost ks = key_set(leaves_seq(ins));
        proof {
            assert(ins.subrange(0, ins.len() as int) =~= ins);
            lemma_view_nodes(incoming@);
            if good {
                lemma_leaf_node_keys(inc);
            }
        }
        if self.height <= 1 {
            let mut leaves = own;
            if self.is_leaf() && !self.is_empty() {
                proof {
                    lemma_view_nodes_push(leaves@, *self);
                }
                leaves.push(self.copy());
            }
            let ghost ov = view_nodes(leaves@);
            let ghost before = leaves@;
            let ghost inc_raw = incoming@;
            leaves.append(&mut incoming);
            proof {
                assert(leaves@ == before + inc_raw);
                crate::node::lemma_view_nodes_concat(before, inc_raw);
                lemma_view_nodes(leaves@);
            }
            let res = Self::from_many_children(leaves, store);
            proof {
                if good {
                    let input = ov + inc;
                    if m.height == 1 {
                        assert(ov == children_of(m));
                        assert(m.leaves() == leaves_seq(ov));
                        assert forall|t: int| 0 <= t < ov.len() implies good_child(#[trigger] ov[t], 0) by {
                            crate::model::lemma_valid_leaves(ov[t]);
                        }
                    } else if m.is_empty() {
                        assert(ov.len() == 0);
                        assert(ov =~= Seq::<NodeModel>::empty());
                        assert(leaves_seq(ov) == Seq::<LeafView>::empty());
                        assert(m.leaves() == Seq::<LeafView>::empty());
                    } else {
                        assert(ov =~= seq![m]);
                        crate::model::lemma_leaves_seq_single(m);
                        assert(m.leaves() == seq![(m.key, m.hkey)]);
                        assert(good_child(ov[0], 0));
                    }
                    assert(leaf_nodes(ov));
                    crate::leaves::lemma_leaf_nodes_concat(ov, inc);
                    crate::leaves::lemma_fit_concat(ov, inc);
                    crate::leaves::lemma_leaf_nodes_separated(input);
                    lemma_leaves_seq_concat(ov, inc);
                    assert(insert_base(m) == leaves_seq(ov));
                    insert_base_case(input, res);
                    if res is Ok {
                        let pv = view_nodes(res->Ok_0@);
                        assert(crate::split::faithful_siblings(input, 0)) by {
                            assert forall|t: int| 0 <= t < input.len() implies crate::faithful::faithful(#[trigger] input[t])
                                && !input[t].is_empty() by {
                                assert(good_child(input[t], 0));
                            }
                        }
                        crate::cover::lemma_parents_faithful(pv, input, 0);
                    }
                }
            }
            return match res {
                Ok(ps) => Ok(ps),
                Err(e) => Err(insert_build_error(e)),
            };
        }
        let mut own = own;
        if own.len() == 0 {
            own.push(Self::default_node());
        }
        let ghost cs = view_nodes(own@);
        let ghost h1 = (m.height - 1) as u8;
        proof {
            lemma_view_nodes(own@);
            if good {
                assert(cs == children_of(m));
                lemma_insert_start(m, inc, ks);
            }
        }
        let n = own.len();
        let mut remaining = incoming;
        let mut rebuilt: Vec<HtreeNode> = Vec::new();
        let mut i: usize = 0;
        proof {
            lemma_view_nodes(rebuilt@);
            assert(view_nodes(rebuilt@) =~= Seq::<NodeModel>::empty());
            if fg {
                assert(cs == children_of(m));
                assert forall|k: int| 0 <= k < n implies crate::faithful::faithful(#[trigger] cs[k]) by {
                    assert(m.state is Internal);
                }
            }
        }
        while i < n
            invariant
                n == own@.len(),
                n > 0,
                cs == view_nodes(own@),
                cs.len() == n,
                forall|k: int| 0 <= k < n ==> #[trigger] cs[k] == own@[k]@,
                forall|k: int| 0 <= k < n ==> (#[trigger] cs[k]).height < m.height,
                m == self@,
                m.height >= 2,
                h1 == m.height - 1,
                i <= n,
                good == insert_ok(m, ins),
                ins == view_nodes(children@),
                good ==> insert_inv(m, cs, view_nodes(rebuilt@), view_nodes(remaining@), leaves_seq(inc), ks, i as int, h1),
                fg == (good && crate::faithful::faithful(m)),
                fg ==> crate::cover::all_faithful(view_nodes(rebuilt@)),
                fg ==> forall|k: int| 0 <= k < n ==> crate::faithful::faithful(#[trigger] cs[k]),
            decreases n - i,
        {
            let ghost rv = view_nodes(rebuilt@);
            let ghost rem = view_nodes(remaining@);
            let (group, rest) = split_routed(&own, i, remaining);
            remaining = rest;
            let ghost gv = view_nodes(group@);
            let ghost restv = view_nodes(remaining@);
            proof {
                lemma_view_nodes(group@);
                lemma_view_nodes(remaining@);
                if good {
                    lemma_group_facts(m, cs, rv, rem, leaves_seq(inc), ks, i as int, h1, gv, restv);
                }
            }
            let child = own[i].copy();
            if group.len() == 0 {
                proof {
                    lemma_view_nodes_push(rebuilt@, child);
                    crate::merge::lemma_raw_push(rebuilt@, child);
                }
                rebuilt.push(child);
                proof {
                    if good {
                        let c = cs[i as int];
                        assert(gv =~= Seq::<NodeModel>::empty());
                        assert(leaves_seq(gv) == Seq::<LeafView>::empty());
                        assert(c.leaves() + leaves_seq(gv) =~= c.leaves());
                        crate::model::lemma_leaves_seq_single(c);
                        assert(rv + seq![c] =~= rv.push(c));
                        lemma_insert_step(m, cs, rv, rem, leaves_seq(inc), ks, i as int, h1, gv, restv, seq![c]);
                    }
                }
            } else {
                proof {
                    if good {
                        assert(child@ == cs[i as int]);
                        assert(insert_ok(child@, gv));
                    }
                }
                let res = child.insert_leaves(group, store);
                proof {
                    if good {
                        assert(insert_spec(child@, gv, res));
                    }
                }
                let mut out = match res {
                    Ok(out) => out,
                    Err(e) => {
                        proof {
                            if good {
                                assert(e is Store);
                            }
                        }
                        return Err(e);
                    },
                };
                let ghost ov = view_nodes(out@);
                let ghost before = rebuilt@;
                let ghost out_raw = out@;
                proof {
                    lemma_view_nodes(out@);
                    if good {
                        lemma_insert_step(m, cs, rv, rem, leaves_seq(inc), ks, i as int, h1, gv, restv, ov);
                    }
                    crate::merge::lemma_raw_append(before, out_raw);
                }
                rebuilt.append(&mut out);
                proof {
                    assert(rebuilt@ == before + out_raw);
                    crate::node::lemma_view_nodes_concat(before, out_raw);
                }
            }
            i += 1;
        }
        let ghost rv = view_nodes(rebuilt@);
        proof {
            lemma_view_nodes(rebuilt@);
            if good {
                lemma_insert_end(m, cs, rv, view_nodes(remaining@), leaves_seq(inc), ks, h1);
            }
        }
        let res = Self::from_many_children(rebuilt, store);
        proof {
            if good {
                assert(insert_base(m) == m.leaves());
                insert_upper_case(m, rv, h1, leaves_seq(inc), res);
                if fg && res is Ok {
                    assert(crate::split::faithful_siblings(rv, h1)) by {
                        assert forall|t: int| 0 <= t < rv.len() implies crate::faithful::faithful(#[trigger] rv[t])
                            && !rv[t].is_empty() && rv[t].height == h1 by {
                            assert(good_child(rv[t], h1));
                        }
                    }
                    crate::cover::lemma_parents_faithful(view_nodes(res->Ok_0@), rv, h1);
                }
            }
        }
        match res {
            Ok(ps) => Ok(ps),
            Err(e) => Err(insert_build_error(e)),
        }
    }
}

/// Parents over leaf nodes hold those leaves.
pub proof fn insert_base_case(input: Seq<NodeModel>, res: Result<Vec<HtreeNode>, HtreeNodeFromChildrenError>)
    requires
        leaf_nodes(input),
        hkeys_fit(input),
        separated(input),
        crate::construct::parents_result(input, res),
    ensures
        match res {
            Ok(ps) => holds_leaves(view_nodes(ps@), 1, leaves_seq(input))
                && forall|t: int| 0 <= t < ps@.len() ==> bounded(#[trigger] view_nodes(ps@)[t]),
            Err(e) => e is Store,
        },
{
    if let Ok(ps) = res {
        let pv = view_nodes(ps@);
        lemma_view_nodes(ps@);
        if input.len() == 0 {
            assert(pv =~= Seq::<NodeModel>::empty());
            assert(leaves_seq(pv) == Seq::<LeafView>::empty());
            assert(input =~= Seq::<NodeModel>::empty());
            assert(leaves_seq(input) == Seq::<LeafView>::empty());
        } else {
            assert(good_child(input[0], 0));
            assert(crate::construct::same_height(input));
            crate::lemmas::lemma_parents_valid(pv, input, 0);
            assert forall|t: int| 0 <= t < input.len() implies bounded(#[trigger] input[t]) by {
                assert(good_child(input[t], 0));
            }
            lemma_bounded_parents(pv, input);
            assert forall|t: int| 0 <= t < pv.len() implies (#[trigger] pv[t]).hkey.len() <= 255 by {
                assert(pv[t].hkey.len() <= crate::store::MAX_COMPACT_HKEY);
            }
        }
    } else {
        if input.len() > 0 {
            assert(good_child(input[0], 0));
            assert(crate::construct::same_height(input));
        }
    }
}

/// Parents over the rebuilt children of `m` hold the leaves of `m` and the inserted ones.
proof fn insert_upper_case(m: NodeModel, rv: Seq<NodeModel>, h1: u8, inc: Seq<LeafView>, res: Result<Vec<HtreeNode>, HtreeNodeFromChildrenError>)
    requires
        m.height == h1 + 1,
        h1 >= 1,
        forall|t: int| 0 <= t < rv.len() ==> good_child(#[trigger] rv[t], h1) && rv[t].hkey.len() <= 255,
        separated(rv),
        leaves_seq(rv).to_multiset() == (m.leaves() + inc).to_multiset(),
        bounded(m) ==> forall|t: int| 0 <= t < rv.len() ==> bounded(#[trigger] rv[t]),
        crate::construct::parents_result(rv, res),
    ensures
        match res {
            Ok(ps) => holds_leaves(view_nodes(ps@), m.height, m.leaves() + inc)
                && (bounded(m) ==> forall|t: int| 0 <= t < ps@.len() ==> bounded(#[trigger] view_nodes(ps@)[t])),
            Err(e) => e is Store,
        },
{
    if let Ok(ps) = res {
        let pv = view_nodes(ps@);
        lemma_view_nodes(ps@);
        if rv.len() == 0 {
            assert(pv =~= Seq::<NodeModel>::empty());
            assert(leaves_seq(pv) == Seq::<LeafView>::empty());
            assert(rv =~= Seq::<NodeModel>::empty());
            assert(leaves_seq(rv) == Seq::<LeafView>::empty());
        } else {
            assert(good_child(rv[0], h1));
            assert(crate::construct::same_height(rv));
            crate::lemmas::lemma_parents_valid(pv, rv, h1);
            if bounded(m) {
                lemma_bounded_parents(pv, rv);
            }
            assert forall|t: int| 0 <= t < pv.len() implies (#[trigger] pv[t]).hkey.len() <= 255 by {
                assert(pv[t].hkey.len() <= crate::store::MAX_COMPACT_HKEY);
            }
        }
    } else {
        if rv.len() > 0 {
            assert(good_child(rv[0], h1));
            assert(crate::construct::same_height(rv));
        }
    }
}

/// Parents over valid siblings of height `h` that hold `ls` are valid siblings of height
/// `h + 1` that hold `ls`, each of height `h + 1`.
pub proof fn lemma_parents_hold(rv: Seq<NodeModel>, h: u8, ls: Seq<LeafView>, res: Result<Vec<HtreeNode>, HtreeNodeFromChildrenError>)
    requires
        h < 255,
        holds_leaves(rv, h, ls),
        forall|t: int| 0 <= t < rv.len() ==> bounded(#[trigger] rv[t]),
        crate::construct::parents_result(rv, res),
    ensures
        match res {
            Ok(ps) => holds_leaves(view_nodes(ps@), (h + 1) as u8, ls)
                && forall|t: int| 0 <= t < ps@.len() ==> bounded(#[trigger] view_nodes(ps@)[t]),
            Err(e) => e is Store,
        },
{
    if let Ok(ps) = res {
        let pv = view_nodes(ps@);
        lemma_view_nodes(ps@);
        if rv.len() == 0 {
            assert(pv =~= Seq::<NodeModel>::empty());
            assert(leaves_seq(pv) == Seq::<LeafView>::empty());
            assert(rv =~= Seq::<NodeModel>::empty());
            assert(leaves_seq(rv) == Seq::<LeafView>::empty());
        } else {
            assert(good_child(rv[0], h));
            assert(crate::construct::same_height(rv));
            assert(hkeys_fit(rv));
            crate::lemmas::lemma_parents_valid(pv, rv, h);
            lemma_bounded_parents(pv, rv);
            assert forall|t: int| 0 <= t < pv.len() implies (#[trigger] pv[t]).hkey.len() <= 255 by {
                assert(pv[t].hkey.len() <= crate::store::MAX_COMPACT_HKEY);
            }
        }
    } else {
        if rv.len() > 0 {
            assert(good_child(rv[0], h));
            assert(crate::construct::same_height(rv));
            assert(hkeys_fit(rv));
        }
    }
}

/// Every parent that `parents_of` describes is one level above the children.
pub proof fn lemma_parents_height(ps: Seq<NodeModel>, input: Seq<NodeModel>, h: u8)
    requires
        parents_of(ps, input),
        h < 255,
        forall|i: int| 0 <= i < input.len() ==> (#[trigger] input[i]).height == h,
    ensures
        forall|t: int| 0 <= t < ps.len() ==> (#[trigger] ps[t]).height == h + 1,
{
    let gs = ps.map_values(|p: NodeModel| children_of(p));
    let f = crate::group::flatten(gs);
    crate::construct::lemma_perm_contains(f, input);
    assert forall|t: int| 0 <= t < ps.len() implies (#[trigger] ps[t]).height == h + 1 by {
        assert(gs[t] == children_of(ps[t]));
        crate::construct::lemma_group_members(gs, t);
        assert(gs[t].len() > 0);
        assert(f.contains(gs[t][0]));
        let k = choose|k: int| 0 <= k < f.len() && f[k] == gs[t][0];
        assert(input.contains(f[k]));
    }
}

} // verus!
