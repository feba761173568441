use vstd::prelude::*;

use ps_hkey::{InMemoryStore, InMemoryStoreError};

use crate::construct::{empty_model, parents_result, same_height, HtreeNodeFromChildrenError};
use crate::insert::{
    holds_leaves, insert_base, insert_height, insert_ok, insert_spec, insertable, key_set, routes_ok,
    HtreeNodeInsertLeavesError,
};
use crate::keys::bounded;
use crate::lemmas::{good_child, lemma_parents_valid};
use crate::model::{hkeys_fit, leaves_seq, separated, LeafView, NodeModel, StateModel};
use crate::node::{lemma_view_nodes, lemma_view_nodes_push, view_nodes, HtreeNode, HtreeNodeWritable};
use crate::store::{store_bytes, stored_hkey, MAX_COMPACT_HKEY, MAX_RAW_VALUE};

verus! {

broadcast use vstd::multiset::group_multiset_axioms;

/// Why a leaf could not be made.
#[derive(Debug)]
pub enum HtreeNodeFromKvpError {
    /// The store failed.
    Store(InMemoryStoreError),
}

/// The leaf that holds `value` under `key`.
pub open spec fn leaf_model(key: u128, value: Seq<u8>) -> NodeModel {
    NodeModel { key, height: crate::LEAF_HEIGHT, hkey: stored_hkey(value), nil_hkey: false, state: StateModel::Leaf }
}

/// The leaves for the key-value pairs `items`, in order.
pub open spec fn items_model(items: Seq<(u128, Vec<u8>)>) -> Seq<NodeModel> {
    Seq::new(items.len(), |t: int| leaf_model(items[t].0, items[t].1@))
}

/// The leaf views for the key-value pairs `items`, in order.
pub open spec fn items_leaves(items: Seq<(u128, Vec<u8>)>) -> Seq<LeafView> {
    Seq::new(items.len(), |t: int| (items[t].0, stored_hkey(items[t].1@)))
}

/// The keys of the key-value pairs `items`.
pub open spec fn items_keys(items: Seq<(u128, Vec<u8>)>) -> Set<u128> {
    Set::new(|k: u128| exists|t: int| 0 <= t < items.len() && (#[trigger] items[t]).0 == k)
}

/// Every value of the pairs is short enough to be inlined into its reference.
pub open spec fn all_inline(items: Seq<(u128, Vec<u8>)>) -> bool {
    forall|t: int| 0 <= t < items.len() ==> (#[trigger] items[t]).1@.len() <= MAX_RAW_VALUE
}

/// The stored reference of each pair whose value is short enough to be inlined is that
/// value itself.
pub open spec fn inline_refs(items: Seq<(u128, Vec<u8>)>) -> bool {
    forall|t: int| 0 <= t < items.len() && (#[trigger] items[t]).1@.len() <= MAX_RAW_VALUE
        ==> stored_hkey(items[t].1@) == items[t].1@
}

impl HtreeNode {
    /// A leaf holding `value` under `key`: the value is stored and the leaf keeps the
    /// compact reference to it. A value of at most `MAX_RAW_VALUE` bytes is its own
    /// reference, and making its leaf does not fail.
    pub fn from_kvp(key: u128, value: &[u8], store: &InMemoryStore) -> (r: Result<HtreeNode, HtreeNodeFromKvpError>)
        ensures
            match r {
                Ok(n) => n@ == leaf_model(key, value@) && n@.hkey.len() <= MAX_COMPACT_HKEY,
                Err(e) => e is Store,
            },
            value@.len() <= MAX_RAW_VALUE ==> (r matches Ok(n) && n@.hkey == value@),
    {
        let hkey = match store_bytes(store, value) {
            Ok(hkey) => hkey,
            Err(e) => return Err(HtreeNodeFromKvpError::Store(e)),
        };
        Ok(HtreeNode { key, height: crate::LEAF_HEIGHT, hkey, nil_hkey: false, writable: HtreeNodeWritable::Leaf })
    }
}

/// The leaves for the key-value pairs `items`, in order.
fn leaves_of(items: &[(u128, Vec<u8>)], store: &InMemoryStore) -> (r: Result<Vec<HtreeNode>, InMemoryStoreError>)
    ensures
        r matches Ok(v) ==> view_nodes(v@) == items_model(items@) && hkeys_fit(view_nodes(v@)),
        items@.len() == 0 ==> r is Ok,
        all_inline(items@) ==> r is Ok,
        r is Ok ==> inline_refs(items@),
{
    let mut out: Vec<HtreeNode> = Vec::new();
    let mut t: usize = 0;
    proof {
        lemma_view_nodes(out@);
    }
    while t < items.len()
        invariant
            t <= items@.len(),
            view_nodes(out@) == items_model(items@).subrange(0, t as int),
            hkeys_fit(view_nodes(out@)),
            forall|i: int| 0 <= i < t && (#[trigger] items@[i]).1@.len() <= MAX_RAW_VALUE ==> stored_hkey(items@[i].1@) == items@[i].1@,
            all_inline(items@) ==> forall|i: int| 0 <= i < items@.len() ==> (#[trigger] items@[i]).1@.len() <= MAX_RAW_VALUE,
        decreases items@.len() - t,
    {
        let leaf = match HtreeNode::from_kvp(items[t].0, items[t].1.as_slice(), store) {
            Ok(leaf) => leaf,
            Err(HtreeNodeFromKvpError::Store(e)) => {
                proof {
                    if all_inline(items@) {
                        assert(items@[t as int].1@.len() <= MAX_RAW_VALUE);
                    }
                }
                return Err(e);
            },
        };
        let ghost before = view_nodes(out@);
        proof {
            lemma_view_nodes_push(out@, leaf);
            assert(items_model(items@).subrange(0, t + 1) =~= items_model(items@).subrange(0, t as int).push(leaf@));
        }
        out.push(leaf);
        proof {
            let ov = view_nodes(out@);
            assert(ov == before.push(leaf@));
            assert forall|i: int| 0 <= i < ov.len() implies (#[trigger] ov[i]).hkey.len() <= 255 by {
                if i < before.len() {
                    assert(ov[i] == before[i]);
                }
            }
        }
        t += 1;
    }
    proof {
        assert(items_model(items@).subrange(0, items@.len() as int) =~= items_model(items@));
    }
    Ok(out)
}

/// The leaves for the pairs hold the pairs' keys and stored references, and the
/// inserted keys are the pairs' keys.
proof fn lemma_items_leaves(items: Seq<(u128, Vec<u8>)>)
    ensures
        leaves_seq(items_model(items)) == items_leaves(items),
        key_set(items_leaves(items)) == items_keys(items),
    decreases items.len(),
{
    let ms = items_model(items);
    if items.len() > 0 {
        let d = items.drop_last();
        lemma_items_leaves(d);
        let x = ms.last();
        assert(x == leaf_model(items.last().0, items.last().1@));
        assert(!x.is_empty());
        assert(x.leaves() == seq![(x.key, x.hkey)]);
        assert(items_model(d) =~= ms.drop_last());
        assert(ms.drop_last().push(ms.last()) =~= ms);
        crate::model::lemma_leaves_seq_push(ms.drop_last(), ms.last());
        assert(items_leaves(items) =~= items_leaves(d) + seq![(items.last().0, stored_hkey(items.last().1@))]);
    } else {
        assert(ms =~= Seq::<NodeModel>::empty());
        assert(leaves_seq(ms) == Seq::<LeafView>::empty());
        assert(items_leaves(items) =~= Seq::<LeafView>::empty());
    }
    let kl = key_set(items_leaves(items));
    assert forall|k: u128| kl.contains(k) <==> items_keys(items).contains(k) by {
        if kl.contains(k) {
            let j = choose|j: int| 0 <= j < items_leaves(items).len() && (#[trigger] items_leaves(items)[j]).0 == k;
            assert(items[j].0 == k);
        }
        if items_keys(items).contains(k) {
            let t = choose|t: int| 0 <= t < items.len() && (#[trigger] items[t]).0 == k;
            assert(items_leaves(items)[t].0 == k);
        }
    }
    assert(kl =~= items_keys(items));
}

/// Leaves made from pairs can be inserted, unless one looks like the empty node.
proof fn lemma_items_insertable(items: Seq<(u128, Vec<u8>)>, v: Seq<NodeModel>)
    requires
        v == items_model(items),
        hkeys_fit(v),
    ensures
        forall|t: int| 0 <= t < v.len() ==> insertable(#[trigger] v[t]),
{
    assert forall|t: int| 0 <= t < v.len() implies insertable(#[trigger] v[t]) by {
        assert(v[t] == leaf_model(items[t].0, items[t].1@));
        assert(!v[t].is_empty());
        assert(v[t].leaves() == seq![(v[t].key, v[t].hkey)]);
    }
}

/// Why key-value pairs could not be inserted.
#[derive(Debug)]
pub enum HtreeNodeInsertManyError {
    /// Inserting the leaves failed for a reason other than the store.
    InsertLeaves(HtreeNodeInsertLeavesError),
    /// The store failed.
    Store(InMemoryStoreError),
}

/// Why one key-value pair could not be inserted.
#[derive(Debug)]
pub enum HtreeNodeInsertOneError {
    /// Inserting the leaf failed for a reason other than the store.
    InsertLeaves(HtreeNodeInsertLeavesError),
    /// The store failed.
    Store(InMemoryStoreError),
}

/// What inserting the pairs `items` into `m` gives, when `m` is valid and the keys route
/// without making siblings interleave.
pub open spec fn insert_many_spec(m: NodeModel, items: Seq<(u128, Vec<u8>)>, r: Result<Vec<HtreeNode>, HtreeNodeInsertManyError>) -> bool {
    crate::insert::insert_target(m) && routes_ok(m, items_keys(items)) ==> match r {
        Ok(ps) => {
            &&& holds_leaves(view_nodes(ps@), insert_height(m), insert_base(m) + items_leaves(items))
            &&& bounded(m) ==> forall|t: int| 0 <= t < ps@.len() ==> bounded(#[trigger] view_nodes(ps@)[t])
        },
        Err(e) => e is Store,
    }
}

impl HtreeNode {
    /// Inserts the key-value pairs `items`: each value is stored, a leaf is made for each
    /// pair and the leaves are inserted with `insert_leaves`. The result is the sibling
    /// nodes that now hold everything.
    pub fn insert_many(&self, items: &[(u128, Vec<u8>)], store: &InMemoryStore) -> (r: Result<Vec<HtreeNode>, HtreeNodeInsertManyError>)
        ensures
            insert_many_spec(self@, items@, r),
            r matches Ok(ps) ==> crate::model::keys_nondecreasing(view_nodes(ps@)),
            all_inline(items@) ==> inline_refs(items@),
            crate::insert::insert_target(self@) && routes_ok(self@, items_keys(items@)) && crate::faithful::faithful(self@) ==> (r matches Ok(ps)
                ==> crate::cover::all_faithful(view_nodes(ps@))),
    {
        let leaves = match leaves_of(items, store) {
            Ok(leaves) => leaves,
            Err(e) => return Err(HtreeNodeInsertManyError::Store(e)),
        };
        let ghost v = view_nodes(leaves@);
        proof {
            if crate::insert::insert_target(self@) && routes_ok(self@, items_keys(items@)) {
                lemma_items_leaves(items@);
                lemma_items_insertable(items@, v);
                assert(insert_ok(self@, v));
            }
        }
        match self.insert_leaves(leaves, store) {
            Ok(ps) => Ok(ps),
            Err(HtreeNodeInsertLeavesError::Store(e)) => Err(HtreeNodeInsertManyError::Store(e)),
            Err(e) => Err(HtreeNodeInsertManyError::InsertLeaves(e)),
        }
    }

    /// Inserts one key-value pair; see `insert_many`.
    pub fn insert_one(&self, key: u128, value: &[u8], store: &InMemoryStore) -> (r: Result<Vec<HtreeNode>, HtreeNodeInsertOneError>)
        ensures
            crate::insert::insert_target(self@) && routes_ok(self@, set![key]) ==> match r {
                Ok(ps) => {
                    &&& holds_leaves(view_nodes(ps@), insert_height(self@), insert_base(self@) + seq![(key, stored_hkey(value@))])
                    &&& bounded(self@) ==> forall|t: int| 0 <= t < ps@.len() ==> bounded(#[trigger] view_nodes(ps@)[t])
                },
                Err(e) => e is Store,
            },
            value@.len() <= MAX_RAW_VALUE ==> stored_hkey(value@) == value@,
            r matches Ok(ps) ==> crate::model::keys_nondecreasing(view_nodes(ps@)),
            crate::insert::insert_target(self@) && routes_ok(self@, set![key]) && crate::faithful::faithful(self@) ==> (r matches Ok(ps)
                ==> crate::cover::all_faithful(view_nodes(ps@))),
    {
        let mut v: Vec<u8> = Vec::new();
        let mut i: usize = 0;
        while i < value.len()
            invariant
                i <= value@.len(),
                v@ == value@.subrange(0, i as int),
            decreases value@.len() - i,
        {
            v.push(value[i]);
            i += 1;
            proof {
                assert(v@ =~= value@.subrange(0, i as int));
            }
        }
        proof {
            assert(v@ =~= value@);
        }
        let items: Vec<(u128, Vec<u8>)> = vec![(key, v)];
        proof {
            let it = items@;
            assert(it.len() == 1 && it[0].0 == key && it[0].1@ == value@);
            assert(items_leaves(it) =~= seq![(key, stored_hkey(value@))]);
            if value@.len() <= MAX_RAW_VALUE {
                assert(all_inline(it));
            }
            assert(items_keys(it) =~= set![key]) by {
                assert forall|k: u128| items_keys(it).contains(k) <==> k == key by {
                    if k == key {
                        assert(it[0].0 == k);
                    }
                }
            }
        }
        match self.insert_many(items.as_slice(), store) {
            Ok(ps) => Ok(ps),
            Err(HtreeNodeInsertManyError::Store(e)) => Err(HtreeNodeInsertOneError::Store(e)),
            Err(HtreeNodeInsertManyError::InsertLeaves(e)) => Err(HtreeNodeInsertOneError::InsertLeaves(e)),
        }
    }
}

/// Why a tree could not be built from key-value pairs.
#[derive(Debug)]
pub enum HtreeNodeFromKvpIterError {
    /// Building a level failed for a reason other than the store.
    FromChildren(HtreeNodeFromChildrenError),
    /// The store failed.
    Store(InMemoryStoreError),
}

fn kvp_iter_build_error(e: HtreeNodeFromChildrenError) -> (r: HtreeNodeFromKvpIterError)
    ensures
        e is Store ==> r is Store,
        e is HeightOverflow ==> r matches HtreeNodeFromKvpIterError::FromChildren(HtreeNodeFromChildrenError::HeightOverflow),
{
    match e {
        HtreeNodeFromChildrenError::Store(e) => HtreeNodeFromKvpIterError::Store(e),
        e => HtreeNodeFromKvpIterError::FromChildren(e),
    }
}

/// The leaves made from pairs are non-empty leaves whose views are the pairs'.
proof fn lemma_items_leaf_nodes(items: Seq<(u128, Vec<u8>)>, v: Seq<NodeModel>)
    requires
        v == items_model(items),
        hkeys_fit(v),
    ensures
        crate::leaves::leaf_nodes(v),
        separated(v),
        leaves_seq(v) == items_leaves(items),
{
    lemma_items_insertable(items, v);
    assert forall|t: int| 0 <= t < v.len() implies good_child(#[trigger] v[t], 0) by {
        assert(insertable(v[t]));
        assert(v[t].leaves() == seq![(v[t].key, v[t].hkey)]);
    }
    crate::leaves::lemma_leaf_nodes_separated(v);
    lemma_items_leaves(items);
}

impl HtreeNode {
    /// A tree holding the key-value pairs `items`: a leaf is made for each pair and levels
    /// of parents are built over them until one node remains. No pairs give the empty tree.
    /// Each level has fewer nodes than the one below, so the greatest height is reached only
    /// with more than 255 pairs.
    pub fn from_kvp_iter(items: &[(u128, Vec<u8>)], store: &InMemoryStore) -> (r: Result<HtreeNode, HtreeNodeFromKvpIterError>)
        ensures
            items@.len() == 0 ==> (r matches Ok(n) && n@ == empty_model()),
            match r {
                Ok(n) => {
                    &&& n@.valid()
                    &&& bounded(n@)
                    &&& n@.leaves().to_multiset() == items_leaves(items@).to_multiset()
                    &&& items@.len() > 0 ==> n@.height >= 1 && n@.nonempty_at_key()
                    &&& crate::faithful::faithful(n@)
                },
                Err(e) => e is Store || (e matches HtreeNodeFromKvpIterError::FromChildren(HtreeNodeFromChildrenError::HeightOverflow)
                    && items@.len() > 255),
            },
            all_inline(items@) ==> inline_refs(items@),
    {
        let leaves = match leaves_of(items, store) {
            Ok(leaves) => leaves,
            Err(e) => return Err(HtreeNodeFromKvpIterError::Store(e)),
        };
        let ghost v = view_nodes(leaves@);
        let ghost ls = items_leaves(items@);
        proof {
            lemma_view_nodes(leaves@);
        }
        if leaves.len() == 0 {
            proof {
                assert(items_leaves(items@) =~= Seq::<LeafView>::empty());
                assert(empty_model().leaves() == Seq::<LeafView>::empty());
            }
            return Ok(Self::default_node());
        }
        let first = Self::from_many_children(leaves, store);
        proof {
            lemma_items_leaf_nodes(items@, v);
            crate::insert::insert_base_case(v, first);
            if first is Ok {
                let ps = first->Ok_0;
                lemma_view_nodes(ps@);
                assert(same_height(v)) by {
                    assert forall|i: int| 0 <= i < v.len() implies (#[trigger] v[i]).height == v[0].height by {}
                }
                crate::insert::lemma_parents_height(view_nodes(ps@), v, 0);
                assert(crate::split::faithful_siblings(v, 0)) by {
                    assert forall|t: int| 0 <= t < v.len() implies crate::faithful::faithful(#[trigger] v[t]) && !v[t].is_empty() by {
                        assert(v[t] == leaf_model(items@[t].0, items@[t].1@));
                    }
                }
                crate::cover::lemma_parents_faithful(view_nodes(ps@), v, 0);
            }
        }
        let mut nodes = match first {
            Ok(ps) => ps,
            Err(e) => return Err(kvp_iter_build_error(e)),
        };
        let mut level: u8 = 1;
        while nodes.len() > 1
            invariant
                1 <= level,
                items@.len() > 0,
                ls == items_leaves(items@),
                forall|t: int| 0 <= t < nodes@.len() ==> (#[trigger] view_nodes(nodes@)[t]).height == level,
                view_nodes(nodes@).len() == nodes@.len(),
                holds_leaves(view_nodes(nodes@), level, ls),
                forall|t: int| 0 <= t < nodes@.len() ==> bounded(#[trigger] view_nodes(nodes@)[t]),
                inline_refs(items@),
                crate::split::faithful_siblings(view_nodes(nodes@), level),
                level + nodes@.len() <= items@.len() + 1,
            decreases 255 - level,
        {
            let ghost nv = view_nodes(nodes@);
            let res = Self::from_many_children(nodes, store);
            proof {
                assert(same_height(nv)) by {
                    assert forall|i: int| 0 <= i < nv.len() implies (#[trigger] nv[i]).height == nv[0].height by {}
                }
                if level < 255 {
                    crate::insert::lemma_parents_hold(nv, level, ls, res);
                    if res is Ok {
                        let ps = res->Ok_0;
                        lemma_view_nodes(ps@);
                        crate::insert::lemma_parents_height(view_nodes(ps@), nv, level);
                        crate::cover::lemma_parents_faithful(view_nodes(ps@), nv, level);
                    }
                }
            }
            nodes = match res {
                Ok(ps) => ps,
                Err(e) => return Err(kvp_iter_build_error(e)),
            };
            level = level + 1;
        }
        proof {
            let nv = view_nodes(nodes@);
            crate::construct::lemma_perm_contains(leaves_seq(nv), ls);
            assert(ls.len() > 0);
            if nv.len() == 0 {
                assert(nv =~= Seq::<NodeModel>::empty());
                assert(leaves_seq(nv) == Seq::<LeafView>::empty());
            }
            assert(nv.len() == 1);
            assert(nv =~= seq![nv[0]]);
            crate::model::lemma_leaves_seq_single(nv[0]);
            assert(good_child(nv[0], level));
            assert(crate::faithful::faithful(nv[0]));
        }
        if nodes.len() == 0 {
            return Ok(Self::default_node());
        }
        let root = nodes[0].copy();
        Ok(root)
    }
}

} // verus!
