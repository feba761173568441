use vstd::prelude::*;

use ps_hkey::{HkeyFromCompactError, InMemoryStore, InMemoryStoreError};

use crate::codec::HtreeNodeUnpackChildrenError;
use crate::construct::children_of;
use crate::fetch::{lemma_fetch_heights, HtreeNodeFetchChildrenError};
use crate::iter::{leaf_view, HtreeNodeIterLeaves, HtreeNodeIterLeavesError};
use crate::lemmas::{good_child, has_key};
use crate::model::{leaves_seq, LeafView, NodeModel};
use crate::node::{lemma_view_nodes, view_nodes, HtreeNode};
use crate::query::HtreeNodeFindOneError;
use crate::store::{load_bytes, value_read, HtreeLoadError, MAX_RAW_VALUE};

verus! {

/// `v` is what reading the value of some leaf of `m` with key `key` can give.
pub open spec fn value_of_key(m: NodeModel, key: u128, v: Seq<u8>) -> bool {
    exists|h: Seq<u8>| #[trigger] m.leaves().contains((key, h)) && value_read(h, v)
}

/// Some leaf of `m` with key `key` refers to a value filed in the store, not inlined.
pub open spec fn filed_under(m: NodeModel, key: u128) -> bool {
    exists|h: Seq<u8>| #[trigger] m.leaves().contains((key, h)) && h.len() > MAX_RAW_VALUE
}

/// What reading the value of the leaf `l` gives: the inlined value itself, or, only for
/// a value filed in the store, possibly an error.
pub open spec fn read_result<E>(l: LeafView, r: Result<Vec<u8>, E>) -> bool {
    match r {
        Ok(v) => value_read(l.1, v@),
        Err(_) => l.1.len() > MAX_RAW_VALUE,
    }
}

/// `n` capped at the largest `usize`.
pub open spec fn capped(n: nat) -> usize {
    if n > usize::MAX { usize::MAX } else { n as usize }
}

fn count_error(e: HtreeNodeFetchChildrenError) -> (r: HtreeNodeIterLeavesError)
    ensures
        match e {
            HtreeNodeFetchChildrenError::CorruptedState => r == HtreeNodeIterLeavesError::CorruptedState,
            HtreeNodeFetchChildrenError::Hkey(x) => r == HtreeNodeIterLeavesError::Hkey(x),
            HtreeNodeFetchChildrenError::ListReference => r == HtreeNodeIterLeavesError::ListReference,
            HtreeNodeFetchChildrenError::Store(x) => r == HtreeNodeIterLeavesError::Store(x),
            HtreeNodeFetchChildrenError::UnpackChildren(x) => r == HtreeNodeIterLeavesError::UnpackChildren(x),
        },
{
    match e {
        HtreeNodeFetchChildrenError::CorruptedState => HtreeNodeIterLeavesError::CorruptedState,
        HtreeNodeFetchChildrenError::Hkey(e) => HtreeNodeIterLeavesError::Hkey(e),
        HtreeNodeFetchChildrenError::ListReference => HtreeNodeIterLeavesError::ListReference,
        HtreeNodeFetchChildrenError::Store(e) => HtreeNodeIterLeavesError::Store(e),
        HtreeNodeFetchChildrenError::UnpackChildren(e) => HtreeNodeIterLeavesError::UnpackChildren(e),
    }
}

/// The number of leaves under `node`, capped at the largest `usize`.
fn count_under(node: &HtreeNode, store: &InMemoryStore) -> (r: Result<usize, HtreeNodeIterLeavesError>)
    ensures
        node@.valid() ==> r == Ok::<usize, HtreeNodeIterLeavesError>(capped(node@.leaves().len())),
    decreases node@.height,
{
    let ghost m = node@;
    if node.is_empty() {
        return Ok(0);
    }
    if node.is_leaf() {
        proof {
            if m.valid() {
                assert(m.leaves() == seq![(m.key, m.hkey)]);
            }
        }
        return Ok(1);
    }
    let children = match node.fetch_children(store) {
        Ok(children) => children,
        Err(e) => return Err(count_error(e)),
    };
    let ghost cs = view_nodes(children@);
    proof {
        lemma_view_nodes(children@);
        lemma_fetch_heights(m, children);
        if m.valid() {
            assert(cs == children_of(m));
        }
        assert(cs.subrange(0, 0) =~= Seq::<NodeModel>::empty());
        assert(leaves_seq(Seq::<NodeModel>::empty()) == Seq::<LeafView>::empty());
    }
    let mut total: usize = 0;
    let mut i: usize = 0;
    while i < children.len()
        invariant
            i <= children@.len(),
            cs == view_nodes(children@),
            cs.len() == children@.len(),
            forall|k: int| 0 <= k < cs.len() ==> #[trigger] cs[k] == children@[k]@,
            forall|k: int| 0 <= k < cs.len() ==> (#[trigger] cs[k]).height + 1 == m.height,
            m == node@,
            m.valid() ==> cs == children_of(m),
            m.valid() ==> total == capped(leaves_seq(cs.subrange(0, i as int)).len()),
        decreases children@.len() - i,
    {
        let c = match count_under(&children[i], store) {
            Ok(c) => c,
            Err(e) => return Err(e),
        };
        proof {
            if m.valid() {
                assert(cs[i as int].valid());
                assert(cs.subrange(0, i + 1) =~= cs.subrange(0, i as int).push(cs[i as int]));
                crate::model::lemma_leaves_seq_push(cs.subrange(0, i as int), cs[i as int]);
            }
        }
        total = total.saturating_add(c);
        i += 1;
    }
    proof {
        if m.valid() {
            assert(cs.subrange(0, cs.len() as int) =~= cs);
        }
    }
    Ok(total)
}

/// Why the first (or last) leaf could not be had.
#[derive(Debug)]
pub enum HtreeNodeFirstError {
    /// A node's state is internally corrupted.
    CorruptedState,
    /// A node's hkey does not describe a reference.
    Hkey(HkeyFromCompactError),
    /// The reference is to a list of parts, which is not read.
    ListReference,
    /// The store failed.
    Store(InMemoryStoreError),
    /// A node's stored children could not be read.
    UnpackChildren(HtreeNodeUnpackChildrenError),
}

fn first_error(e: HtreeNodeIterLeavesError) -> (r: HtreeNodeFirstError)
    ensures
        match e {
            HtreeNodeIterLeavesError::CorruptedState => r == HtreeNodeFirstError::CorruptedState,
            HtreeNodeIterLeavesError::Hkey(x) => r == HtreeNodeFirstError::Hkey(x),
            HtreeNodeIterLeavesError::ListReference => r == HtreeNodeFirstError::ListReference,
            HtreeNodeIterLeavesError::Store(x) => r == HtreeNodeFirstError::Store(x),
            HtreeNodeIterLeavesError::UnpackChildren(x) => r == HtreeNodeFirstError::UnpackChildren(x),
        },
{
    match e {
        HtreeNodeIterLeavesError::CorruptedState => HtreeNodeFirstError::CorruptedState,
        HtreeNodeIterLeavesError::Hkey(e) => HtreeNodeFirstError::Hkey(e),
        HtreeNodeIterLeavesError::ListReference => HtreeNodeFirstError::ListReference,
        HtreeNodeIterLeavesError::Store(e) => HtreeNodeFirstError::Store(e),
        HtreeNodeIterLeavesError::UnpackChildren(e) => HtreeNodeFirstError::UnpackChildren(e),
    }
}

impl HtreeNode {
    /// The number of leaves of the tree, found by visiting every node (capped at the
    /// largest `usize`).
    pub fn count_leaves(&self, store: &InMemoryStore) -> (r: Result<usize, HtreeNodeIterLeavesError>)
        ensures
            self@.valid() ==> r == Ok::<usize, HtreeNodeIterLeavesError>(capped(self@.leaves().len())),
    {
        count_under(self, store)
    }

    /// The leaf with the largest key: the first leaf from the right. `None` only for a
    /// tree without leaves.
    pub fn last(&self, store: &InMemoryStore) -> (r: Result<Option<HtreeNode>, HtreeNodeFirstError>)
        ensures
            r matches Ok(Some(l)) ==> l@.height == 0,
            self@.valid() ==> match r {
                Ok(None) => self@.leaves().len() == 0,
                Ok(Some(l)) => self@.leaves().len() > 0 && good_child(l@, 0) && leaf_view(l@) == self@.leaves().last(),
                Err(_) => false,
            },
    {
        let mut it = self.iter_leaves(store);
        match it.next_back() {
            None => Ok(None),
            Some(Ok(l)) => Ok(Some(l)),
            Some(Err(e)) => Err(first_error(e)),
        }
    }

    /// The leaf with the smallest key: the first leaf from the left. `None` only for a
    /// tree without leaves.
    pub fn first(&self, store: &InMemoryStore) -> (r: Result<Option<HtreeNode>, HtreeNodeFirstError>)
        ensures
            r matches Ok(Some(l)) ==> l@.height == 0,
            self@.valid() ==> match r {
                Ok(None) => self@.leaves().len() == 0,
                Ok(Some(l)) => self@.leaves().len() > 0 && good_child(l@, 0) && leaf_view(l@) == self@.leaves()[0],
                Err(_) => false,
            },
    {
        let mut it = self.iter_leaves(store);
        match it.next() {
            None => Ok(None),
            Some(Ok(l)) => Ok(Some(l)),
            Some(Err(e)) => Err(first_error(e)),
        }
    }
}

/// Why a value could not be had.
#[derive(Debug)]
pub enum HtreeNodeIterValuesError {
    /// A node's state is internally corrupted.
    CorruptedState,
    /// An hkey does not describe a reference.
    Hkey(HkeyFromCompactError),
    /// The reference is to a list of parts, which is not read.
    ListReference,
    /// The store failed.
    Store(InMemoryStoreError),
    /// A node's stored children could not be read.
    UnpackChildren(HtreeNodeUnpackChildrenError),
}

/// Why an entry could not be had.
#[derive(Debug)]
pub enum HtreeNodeIterEntriesError {
    /// A node's state is internally corrupted.
    CorruptedState,
    /// An hkey does not describe a reference.
    Hkey(HkeyFromCompactError),
    /// The reference is to a list of parts, which is not read.
    ListReference,
    /// The store failed.
    Store(InMemoryStoreError),
    /// A node's stored children could not be read.
    UnpackChildren(HtreeNodeUnpackChildrenError),
}

fn values_error(e: HtreeNodeIterLeavesError) -> (r: HtreeNodeIterValuesError)
    ensures
        match e {
            HtreeNodeIterLeavesError::CorruptedState => r == HtreeNodeIterValuesError::CorruptedState,
            HtreeNodeIterLeavesError::Hkey(x) => r == HtreeNodeIterValuesError::Hkey(x),
            HtreeNodeIterLeavesError::ListReference => r == HtreeNodeIterValuesError::ListReference,
            HtreeNodeIterLeavesError::Store(x) => r == HtreeNodeIterValuesError::Store(x),
            HtreeNodeIterLeavesError::UnpackChildren(x) => r == HtreeNodeIterValuesError::UnpackChildren(x),
        },
{
    match e {
        HtreeNodeIterLeavesError::CorruptedState => HtreeNodeIterValuesError::CorruptedState,
        HtreeNodeIterLeavesError::Hkey(e) => HtreeNodeIterValuesError::Hkey(e),
        HtreeNodeIterLeavesError::ListReference => HtreeNodeIterValuesError::ListReference,
        HtreeNodeIterLeavesError::Store(e) => HtreeNodeIterValuesError::Store(e),
        HtreeNodeIterLeavesError::UnpackChildren(e) => HtreeNodeIterValuesError::UnpackChildren(e),
    }
}

fn values_load_error(e: HtreeLoadError) -> (r: HtreeNodeIterValuesError)
    ensures
        match e {
            HtreeLoadError::Hkey(x) => r == HtreeNodeIterValuesError::Hkey(x),
            HtreeLoadError::ListReference => r == HtreeNodeIterValuesError::ListReference,
            HtreeLoadError::Store(x) => r == HtreeNodeIterValuesError::Store(x),
        },
{
    match e {
        HtreeLoadError::Hkey(e) => HtreeNodeIterValuesError::Hkey(e),
        HtreeLoadError::ListReference => HtreeNodeIterValuesError::ListReference,
        HtreeLoadError::Store(e) => HtreeNodeIterValuesError::Store(e),
    }
}

fn entries_error(e: HtreeNodeIterLeavesError) -> (r: HtreeNodeIterEntriesError)
    ensures
        match e {
            HtreeNodeIterLeavesError::CorruptedState => r == HtreeNodeIterEntriesError::CorruptedState,
            HtreeNodeIterLeavesError::Hkey(x) => r == HtreeNodeIterEntriesError::Hkey(x),
            HtreeNodeIterLeavesError::ListReference => r == HtreeNodeIterEntriesError::ListReference,
            HtreeNodeIterLeavesError::Store(x) => r == HtreeNodeIterEntriesError::Store(x),
            HtreeNodeIterLeavesError::UnpackChildren(x) => r == HtreeNodeIterEntriesError::UnpackChildren(x),
        },
{
    match e {
        HtreeNodeIterLeavesError::CorruptedState => HtreeNodeIterEntriesError::CorruptedState,
        HtreeNodeIterLeavesError::Hkey(e) => HtreeNodeIterEntriesError::Hkey(e),
        HtreeNodeIterLeavesError::ListReference => HtreeNodeIterEntriesError::ListReference,
        HtreeNodeIterLeavesError::Store(e) => HtreeNodeIterEntriesError::Store(e),
        HtreeNodeIterLeavesError::UnpackChildren(e) => HtreeNodeIterEntriesError::UnpackChildren(e),
    }
}

fn entries_load_error(e: HtreeLoadError) -> (r: HtreeNodeIterEntriesError)
    ensures
        match e {
            HtreeLoadError::Hkey(x) => r == HtreeNodeIterEntriesError::Hkey(x),
            HtreeLoadError::ListReference => r == HtreeNodeIterEntriesError::ListReference,
            HtreeLoadError::Store(x) => r == HtreeNodeIterEntriesError::Store(x),
        },
{
    match e {
        HtreeLoadError::Hkey(e) => HtreeNodeIterEntriesError::Hkey(e),
        HtreeLoadError::ListReference => HtreeNodeIterEntriesError::ListReference,
        HtreeLoadError::Store(e) => HtreeNodeIterEntriesError::Store(e),
    }
}

/// Walks the keys of a tree's leaves, in order.
pub struct HtreeNodeIterKeys<'s> {
    leaves: HtreeNodeIterLeaves<'s>,
}

/// Walks the values of a tree's leaves, in key order, reading each from the store.
pub struct HtreeNodeIterValues<'s> {
    leaves: HtreeNodeIterLeaves<'s>,
    store: &'s InMemoryStore,
}

/// Walks the key-value pairs of a tree's leaves, in key order, reading each value from
/// the store.
pub struct HtreeNodeIterEntries<'s> {
    leaves: HtreeNodeIterLeaves<'s>,
    store: &'s InMemoryStore,
}

impl<'s> HtreeNodeIterKeys<'s> {
    /// The leaves whose keys are not yet handed out.
    pub closed spec fn remaining(&self) -> Seq<LeafView> {
        self.leaves.remaining()
    }

    /// No step fails.
    pub closed spec fn well_formed(&self) -> bool {
        self.leaves.well_formed()
    }

    /// The next key from the left.
    pub fn next(&mut self) -> (r: Option<Result<u128, HtreeNodeIterLeavesError>>)
        ensures
            old(self).well_formed() ==> match r {
                None => old(self).remaining().len() == 0 && final(self).remaining().len() == 0 && final(self).well_formed(),
                Some(Ok(k)) => {
                    &&& old(self).remaining().len() > 0
                    &&& k == old(self).remaining()[0].0
                    &&& final(self).remaining() == old(self).remaining().drop_first()
                    &&& final(self).well_formed()
                },
                Some(Err(_)) => false,
            },
    {
        match self.leaves.next() {
            None => None,
            Some(Ok(l)) => Some(Ok(l.key)),
            Some(Err(e)) => Some(Err(e)),
        }
    }

    /// The next key from the right.
    pub fn next_back(&mut self) -> (r: Option<Result<u128, HtreeNodeIterLeavesError>>)
        ensures
            old(self).well_formed() ==> match r {
                None => old(self).remaining().len() == 0 && final(self).remaining().len() == 0 && final(self).well_formed(),
                Some(Ok(k)) => {
                    &&& old(self).remaining().len() > 0
                    &&& k == old(self).remaining().last().0
                    &&& final(self).remaining() == old(self).remaining().drop_last()
                    &&& final(self).well_formed()
                },
                Some(Err(_)) => false,
            },
    {
        match self.leaves.next_back() {
            None => None,
            Some(Ok(l)) => Some(Ok(l.key)),
            Some(Err(e)) => Some(Err(e)),
        }
    }
}

impl<'s> HtreeNodeIterValues<'s> {
    /// The leaves whose values are not yet handed out.
    pub closed spec fn remaining(&self) -> Seq<LeafView> {
        self.leaves.remaining()
    }

    /// No step fails to find its leaf.
    pub closed spec fn well_formed(&self) -> bool {
        self.leaves.well_formed()
    }

    /// The value of the next leaf from the left, read from the store. The leaf is used up
    /// even when reading its value fails.
    pub fn next(&mut self) -> (r: Option<Result<Vec<u8>, HtreeNodeIterValuesError>>)
        ensures
            old(self).well_formed() ==> match r {
                None => old(self).remaining().len() == 0 && final(self).remaining().len() == 0 && final(self).well_formed(),
                Some(x) => {
                    &&& old(self).remaining().len() > 0
                    &&& read_result(old(self).remaining()[0], x)
                    &&& final(self).remaining() == old(self).remaining().drop_first()
                    &&& final(self).well_formed()
                },
            },
    {
        let leaf = match self.leaves.next() {
            None => return None,
            Some(Ok(l)) => l,
            Some(Err(e)) => return Some(Err(values_error(e))),
        };
        match load_bytes(self.store, leaf.hkey.as_slice()) {
            Ok(bytes) => Some(Ok(bytes)),
            Err(e) => Some(Err(values_load_error(e))),
        }
    }

    /// The value of the next leaf from the right, read from the store. The leaf is used up
    /// even when reading its value fails.
    pub fn next_back(&mut self) -> (r: Option<Result<Vec<u8>, HtreeNodeIterValuesError>>)
        ensures
            old(self).well_formed() ==> match r {
                None => old(self).remaining().len() == 0 && final(self).remaining().len() == 0 && final(self).well_formed(),
                Some(x) => {
                    &&& old(self).remaining().len() > 0
                    &&& read_result(old(self).remaining().last(), x)
                    &&& final(self).remaining() == old(self).remaining().drop_last()
                    &&& final(self).well_formed()
                },
            },
    {
        let leaf = match self.leaves.next_back() {
            None => return None,
            Some(Ok(l)) => l,
            Some(Err(e)) => return Some(Err(values_error(e))),
        };
        match load_bytes(self.store, leaf.hkey.as_slice()) {
            Ok(bytes) => Some(Ok(bytes)),
            Err(e) => Some(Err(values_load_error(e))),
        }
    }
}

impl<'s> HtreeNodeIterEntries<'s> {
    /// The leaves whose entries are not yet handed out.
    pub closed spec fn remaining(&self) -> Seq<LeafView> {
        self.leaves.remaining()
    }

    /// No step fails to find its leaf.
    pub closed spec fn well_formed(&self) -> bool {
        self.leaves.well_formed()
    }

    /// The key and value of the next leaf from the left, the value read from the store.
    /// The leaf is used up even when reading its value fails.
    pub fn next(&mut self) -> (r: Option<Result<(u128, Vec<u8>), HtreeNodeIterEntriesError>>)
        ensures
            old(self).well_formed() ==> match r {
                None => old(self).remaining().len() == 0 && final(self).remaining().len() == 0 && final(self).well_formed(),
                Some(e) => {
                    &&& old(self).remaining().len() > 0
                    &&& (e matches Ok(kv) ==> kv.0 == old(self).remaining()[0].0 && value_read(old(self).remaining()[0].1, kv.1@))
                    &&& (e is Err ==> old(self).remaining()[0].1.len() > MAX_RAW_VALUE)
                    &&& final(self).remaining() == old(self).remaining().drop_first()
                    &&& final(self).well_formed()
                },
            },
    {
        let leaf = match self.leaves.next() {
            None => return None,
            Some(Ok(l)) => l,
            Some(Err(e)) => return Some(Err(entries_error(e))),
        };
        match load_bytes(self.store, leaf.hkey.as_slice()) {
            Ok(bytes) => Some(Ok((leaf.key, bytes))),
            Err(e) => Some(Err(entries_load_error(e))),
        }
    }

    /// The key and value of the next leaf from the right, the value read from the store.
    /// The leaf is used up even when reading its value fails.
    pub fn next_back(&mut self) -> (r: Option<Result<(u128, Vec<u8>), HtreeNodeIterEntriesError>>)
        ensures
            old(self).well_formed() ==> match r {
                None => old(self).remaining().len() == 0 && final(self).remaining().len() == 0 && final(self).well_formed(),
                Some(e) => {
                    &&& old(self).remaining().len() > 0
                    &&& (e matches Ok(kv) ==> kv.0 == old(self).remaining().last().0 && value_read(old(self).remaining().last().1, kv.1@))
                    &&& (e is Err ==> old(self).remaining().last().1.len() > MAX_RAW_VALUE)
                    &&& final(self).remaining() == old(self).remaining().drop_last()
                    &&& final(self).well_formed()
                },
            },
    {
        let leaf = match self.leaves.next_back() {
            None => return None,
            Some(Ok(l)) => l,
            Some(Err(e)) => return Some(Err(entries_error(e))),
        };
        match load_bytes(self.store, leaf.hkey.as_slice()) {
            Ok(bytes) => Some(Ok((leaf.key, bytes))),
            Err(e) => Some(Err(entries_load_error(e))),
        }
    }
}

impl HtreeNode {
    /// Walks the keys of this tree's leaves; see `HtreeNodeIterKeys`.
    pub fn iter_keys<'s>(&self, store: &'s InMemoryStore) -> (r: HtreeNodeIterKeys<'s>)
        ensures
            r.remaining() == self@.leaves(),
            self@.valid() ==> r.well_formed(),
    {
        HtreeNodeIterKeys { leaves: self.iter_leaves(store) }
    }

    /// Walks the values of this tree's leaves; see `HtreeNodeIterValues`.
    pub fn iter_values<'s>(&self, store: &'s InMemoryStore) -> (r: HtreeNodeIterValues<'s>)
        ensures
            r.remaining() == self@.leaves(),
            self@.valid() ==> r.well_formed(),
    {
        HtreeNodeIterValues { leaves: self.iter_leaves(store), store }
    }

    /// Walks the key-value pairs of this tree's leaves; see `HtreeNodeIterEntries`.
    pub fn iter_entries<'s>(&self, store: &'s InMemoryStore) -> (r: HtreeNodeIterEntries<'s>)
        ensures
            r.remaining() == self@.leaves(),
            self@.valid() ==> r.well_formed(),
    {
        HtreeNodeIterEntries { leaves: self.iter_leaves(store), store }
    }
}

/// Why a value could not be found.
#[derive(Debug)]
pub enum HtreeNodeFindOneValueError {
    /// A node's state is internally corrupted.
    CorruptedState,
    /// An hkey does not describe a reference.
    Hkey(HkeyFromCompactError),
    /// The reference is to a list of parts, which is not read.
    ListReference,
    /// The store failed.
    Store(InMemoryStoreError),
    /// A node's stored children could not be read.
    UnpackChildren(HtreeNodeUnpackChildrenError),
}

impl HtreeNode {
    /// The value stored under `key`, read from the store; `None` when no leaf has `key`.
    /// A value of at most `MAX_RAW_VALUE` bytes is its own reference and is read back
    /// without the store.
    pub fn find_one_value(&self, key: u128, store: &InMemoryStore) -> (r: Result<Option<Vec<u8>>, HtreeNodeFindOneValueError>)
        ensures
            self@.valid() ==> match r {
                Ok(None) => !has_key(self@.leaves(), key),
                Ok(Some(v)) => value_of_key(self@, key, v@),
                Err(e) => filed_under(self@, key) && (e is Hkey || e is Store || e is ListReference),
            },
    {
        let leaf = match self.find_one(key, store) {
            Ok(Some(l)) => l,
            Ok(None) => return Ok(None),
            Err(HtreeNodeFindOneError::CorruptedState) => return Err(HtreeNodeFindOneValueError::CorruptedState),
            Err(HtreeNodeFindOneError::Hkey(e)) => return Err(HtreeNodeFindOneValueError::Hkey(e)),
            Err(HtreeNodeFindOneError::ListReference) => return Err(HtreeNodeFindOneValueError::ListReference),
            Err(HtreeNodeFindOneError::Store(e)) => return Err(HtreeNodeFindOneValueError::Store(e)),
            Err(HtreeNodeFindOneError::UnpackChildren(e)) => return Err(HtreeNodeFindOneValueError::UnpackChildren(e)),
        };
        match load_bytes(store, leaf.hkey.as_slice()) {
            Ok(bytes) => Ok(Some(bytes)),
            Err(HtreeLoadError::Hkey(e)) => Err(HtreeNodeFindOneValueError::Hkey(e)),
            Err(HtreeLoadError::ListReference) => Err(HtreeNodeFindOneValueError::ListReference),
            Err(HtreeLoadError::Store(e)) => Err(HtreeNodeFindOneValueError::Store(e)),
        }
    }
}

} // verus!
