use vstd::prelude::*;

use ps_hkey::{HkeyFromCompactError, InMemoryStore, InMemoryStoreError};

use crate::codec::HtreeNodeUnpackChildrenError;
use crate::construct::{children_of, HtreeNodeFromChildrenError};
use crate::fetch::HtreeNodeFetchChildrenError;
use crate::lemmas::{good_child, leaves_within, lemma_parent_valid, lemma_sep_shrink};
use crate::model::{
    child_facts, hkeys_fit, leaves_seq, lemma_leaves_seq_concat, lemma_leaves_seq_push, lemma_valid_leaves,
    separated, sep, LeafView, NodeModel,
};
use crate::node::{lemma_view_nodes, lemma_view_nodes_push, view_nodes, HtreeNode};

verus! {

broadcast use vstd::multiset::group_multiset_axioms;

/// Result of a pop operation.
#[derive(Debug)]
pub struct PopResult {
    /// The popped leaf, or `None` if the tree was empty.
    pub popped: Option<HtreeNode>,
    /// The remaining tree after the pop, or `None` when nothing remains.
    pub remaining: Option<HtreeNode>,
}

/// Why the first leaf could not be popped.
#[derive(Debug)]
pub enum HtreeNodePopFirstError {
    /// A node's state is internally corrupted.
    CorruptedState,
    /// Rebuilding a node failed for a reason other than the store.
    FromChildren(HtreeNodeFromChildrenError),
    /// A node's hkey does not describe a reference.
    Hkey(HkeyFromCompactError),
    /// The reference is to a list of parts, which is not read.
    ListReference,
    /// The store failed.
    Store(InMemoryStoreError),
    /// A node's stored children could not be read.
    UnpackChildren(HtreeNodeUnpackChildrenError),
}

pub fn pop_fetch_error(e: HtreeNodeFetchChildrenError) -> (r: HtreeNodePopFirstError)
    ensures
        match e {
            HtreeNodeFetchChildrenError::CorruptedState => r == HtreeNodePopFirstError::CorruptedState,
            HtreeNodeFetchChildrenError::Hkey(x) => r == HtreeNodePopFirstError::Hkey(x),
            HtreeNodeFetchChildrenError::ListReference => r == HtreeNodePopFirstError::ListReference,
            HtreeNodeFetchChildrenError::Store(x) => r == HtreeNodePopFirstError::Store(x),
            HtreeNodeFetchChildrenError::UnpackChildren(x) => r == HtreeNodePopFirstError::UnpackChildren(x),
        },
{
    match e {
        HtreeNodeFetchChildrenError::CorruptedState => HtreeNodePopFirstError::CorruptedState,
        HtreeNodeFetchChildrenError::Hkey(e) => HtreeNodePopFirstError::Hkey(e),
        HtreeNodeFetchChildrenError::ListReference => HtreeNodePopFirstError::ListReference,
        HtreeNodeFetchChildrenError::Store(e) => HtreeNodePopFirstError::Store(e),
        HtreeNodeFetchChildrenError::UnpackChildren(e) => HtreeNodePopFirstError::UnpackChildren(e),
    }
}

pub fn pop_build_error(e: HtreeNodeFromChildrenError) -> (r: HtreeNodePopFirstError)
    ensures
        match e {
            HtreeNodeFromChildrenError::Store(x) => r == HtreeNodePopFirstError::Store(x),
            _ => r == HtreeNodePopFirstError::FromChildren(e),
        },
{
    match e {
        HtreeNodeFromChildrenError::Store(e) => HtreeNodePopFirstError::Store(e),
        e => HtreeNodePopFirstError::FromChildren(e),
    }
}

/// Why the last leaf could not be popped.
#[derive(Debug)]
pub enum HtreeNodePopLastError {
    /// A node's state is internally corrupted.
    CorruptedState,
    /// Rebuilding a node failed for a reason other than the store.
    FromChildren(HtreeNodeFromChildrenError),
    /// A node's hkey does not describe a reference.
    Hkey(HkeyFromCompactError),
    /// The reference is to a list of parts, which is not read.
    ListReference,
    /// The store failed.
    Store(InMemoryStoreError),
    /// A node's stored children could not be read.
    UnpackChildren(HtreeNodeUnpackChildrenError),
}

pub fn pop_last_fetch_error(e: HtreeNodeFetchChildrenError) -> (r: HtreeNodePopLastError)
    ensures
        match e {
            HtreeNodeFetchChildrenError::CorruptedState => r == HtreeNodePopLastError::CorruptedState,
            HtreeNodeFetchChildrenError::Hkey(x) => r == HtreeNodePopLastError::Hkey(x),
            HtreeNodeFetchChildrenError::ListReference => r == HtreeNodePopLastError::ListReference,
            HtreeNodeFetchChildrenError::Store(x) => r == HtreeNodePopLastError::Store(x),
            HtreeNodeFetchChildrenError::UnpackChildren(x) => r == HtreeNodePopLastError::UnpackChildren(x),
        },
{
    match e {
        HtreeNodeFetchChildrenError::CorruptedState => HtreeNodePopLastError::CorruptedState,
        HtreeNodeFetchChildrenError::Hkey(e) => HtreeNodePopLastError::Hkey(e),
        HtreeNodeFetchChildrenError::ListReference => HtreeNodePopLastError::ListReference,
        HtreeNodeFetchChildrenError::Store(e) => HtreeNodePopLastError::Store(e),
        HtreeNodeFetchChildrenError::UnpackChildren(e) => HtreeNodePopLastError::UnpackChildren(e),
    }
}

pub fn pop_last_build_error(e: HtreeNodeFromChildrenError) -> (r: HtreeNodePopLastError)
    ensures
        match e {
            HtreeNodeFromChildrenError::Store(x) => r == HtreeNodePopLastError::Store(x),
            _ => r == HtreeNodePopLastError::FromChildren(e),
        },
{
    match e {
        HtreeNodeFromChildrenError::Store(e) => HtreeNodePopLastError::Store(e),
        e => HtreeNodePopLastError::FromChildren(e),
    }
}

/// The leaf that a popped node stands for.
pub open spec fn leaf_of(n: NodeModel) -> LeafView {
    (n.key, n.hkey)
}

/// What popping the leaf at index `at` (the first or the last) of the valid tree `m`
/// gives: that leaf, and a valid tree of the same height holding the other leaves.
pub open spec fn pop_spec(m: NodeModel, p: PopResult, first: bool) -> bool {
    if m.leaves().len() == 0 {
        p.popped is None && p.remaining is None
    } else {
        let at = if first { 0 } else { m.leaves().len() - 1 };
        let rest = if first { m.leaves().drop_first() } else { m.leaves().drop_last() };
        &&& p.popped matches Some(l) && l@.height == 0 && leaf_of(l@) == m.leaves()[at]
        &&& (p.remaining is None <==> m.leaves().len() == 1)
        &&& (p.remaining matches Some(t) ==> {
            &&& good_child(t@, m.height)
            &&& t@.hkey.len() <= 255
            &&& t@.leaves().to_multiset() == rest.to_multiset()
        })
    }
}

proof fn lemma_ms_within(a: Seq<LeafView>, b: Seq<LeafView>)
    requires
        a.to_multiset() == b.to_multiset(),
    ensures
        leaves_within(a, b),
{
    crate::construct::lemma_perm_contains(a, b);
}

impl HtreeNode {
    /// Removes the leaf with the smallest key, returning it and the remaining tree.
    ///
    /// The first child is popped recursively and the tree is rebuilt from what remains
    /// of it and its siblings.
    pub fn pop_first(self, store: &InMemoryStore) -> (r: Result<PopResult, HtreeNodePopFirstError>)
        ensures
            self@.valid() ==> match r {
                Ok(p) => pop_spec(self@, p, true),
                Err(e) => e is Store,
            },
            r matches Ok(p) ==> (p.popped matches Some(l) ==> l@.height == 0),
            self@.valid() && crate::faithful::faithful(self@) ==> (r matches Ok(p) ==> (p.remaining matches Some(t)
                ==> crate::faithful::faithful(t@))),
        decreases self@.height,
    {
        if self.is_empty() {
            return Ok(PopResult { popped: None, remaining: None });
        }
        if self.is_leaf() {
            proof {
                assert(self@.leaves() == seq![(self@.key, self@.hkey)]);
            }
            return Ok(PopResult { popped: Some(self), remaining: None });
        }
        let children = match self.fetch_children(store) {
            Ok(children) => children,
            Err(e) => return Err(pop_fetch_error(e)),
        };
        let ghost m = self@;
        let ghost cs = view_nodes(children@);
        proof {
            lemma_view_nodes(children@);
            crate::fetch::lemma_fetch_heights(m, children);
            if m.valid() {
                assert(cs == children_of(m));
            }
        }
        let n = children.len();
        let mut i: usize = 0;
        while i < n
            invariant
                n == children@.len(),
                cs == view_nodes(children@),
                cs.len() == n,
                forall|j: int| 0 <= j < n ==> #[trigger] cs[j] == children@[j]@,
                m == self@,
                forall|j: int| 0 <= j < n ==> (#[trigger] cs[j]).height + 1 == m.height,
                m.valid() ==> i == 0 && cs == children_of(m),
            decreases n - i,
        {
            let child = children[i].copy();
            assert(child@ == cs[i as int]);
            assert(cs[i as int].height + 1 == m.height);
            assert(child@.height < self@.height);
            let res = match child.pop_first(store) {
                Ok(res) => res,
                Err(e) => return Err(e),
            };
            let ghost res_view = res;
            let popped = match res.popped {
                Some(popped) => popped,
                None => {
                    proof {
                        if m.valid() {
                            assert(good_child(cs[0], (m.height - 1) as u8));
                        }
                    }
                    i += 1;
                    continue;
                },
            };
            let mut list: Vec<HtreeNode> = Vec::new();
            let ghost mut had_rem = false;
            match res.remaining {
                Some(rem) => {
                    if !rem.is_empty() {
                        proof { lemma_view_nodes_push(list@, rem); had_rem = true; }
                        list.push(rem);
                    }
                },
                None => {},
            }
            let ghost base = view_nodes(list@);
            proof { lemma_view_nodes(list@); }
            let mut j: usize = i + 1;
            while j < n
                invariant
                    i < j <= n,
                    n == children@.len(),
                    cs == view_nodes(children@),
                    cs.len() == n,
                    forall|k: int| 0 <= k < n ==> #[trigger] cs[k] == children@[k]@,
                    m.valid() ==> i == 0 && cs == children_of(m),
                    m.valid() ==> view_nodes(list@) == base + cs.subrange(i + 1, j as int),
                decreases n - j,
            {
                if !children[j].is_empty() {
                    let c = children[j].copy();
                    proof { lemma_view_nodes_push(list@, c); }
                    list.push(c);
                    proof {
                        if m.valid() {
                            assert(base + cs.subrange(i + 1, j + 1) =~= (base + cs.subrange(i + 1, j as int)).push(cs[j as int]));
                        }
                    }
                } else {
                    proof {
                        if m.valid() {
                            assert(good_child(cs[j as int], (m.height - 1) as u8));
                            assert(cs[j as int].leaves().len() > 0);
                        }
                    }
                }
                j += 1;
            }
            let ghost lv = view_nodes(list@);
            proof {
                if m.valid() {
                    assert(cs.subrange(1, n as int) =~= cs.subrange(i + 1, n as int));
                    lemma_pop_first_list(m, res_view, had_rem, base, lv);
                }
            }
            let parent = match Self::from_children(list, store) {
                Ok(parent) => parent,
                Err(e) => return Err(pop_build_error(e)),
            };
            proof {
                if m.valid() && lv.len() > 0 {
                    lemma_parent_valid(parent@, lv, (m.height - 1) as u8);
                    if crate::faithful::faithful(m) {
                        assert forall|t: int| 0 <= t < lv.len() implies crate::faithful::faithful(#[trigger] lv[t]) by {
                            if t < base.len() {
                                assert(lv[t] == base[t]);
                            } else {
                                assert(lv[t] == cs[t - base.len() + 1]);
                                assert(m.state is Internal);
                            }
                        }
                        lemma_pop_faithful(parent@, lv, (m.height - 1) as u8);
                    }
                }
            }
            let remaining = if parent.is_empty() { None } else { Some(parent) };
            return Ok(PopResult { popped: Some(popped), remaining });
        }
        proof {
            if m.valid() {
                assert(false);
            }
        }
        Ok(PopResult { popped: None, remaining: None })
    }

    /// Removes the leaf with the largest key, returning it and the remaining tree.
    ///
    /// The last child is popped recursively and the tree is rebuilt from its siblings
    /// and what remains of it.
    pub fn pop_last(self, store: &InMemoryStore) -> (r: Result<PopResult, HtreeNodePopLastError>)
        ensures
            self@.valid() ==> match r {
                Ok(p) => pop_spec(self@, p, false),
                Err(e) => e is Store,
            },
            r matches Ok(p) ==> (p.popped matches Some(l) ==> l@.height == 0),
            self@.valid() && crate::faithful::faithful(self@) ==> (r matches Ok(p) ==> (p.remaining matches Some(t)
                ==> crate::faithful::faithful(t@))),
        decreases self@.height,
    {
        if self.is_empty() {
            return Ok(PopResult { popped: None, remaining: None });
        }
        if self.is_leaf() {
            proof {
                assert(self@.leaves() == seq![(self@.key, self@.hkey)]);
            }
            return Ok(PopResult { popped: Some(self), remaining: None });
        }
        let children = match self.fetch_children(store) {
            Ok(children) => children,
            Err(e) => return Err(pop_last_fetch_error(e)),
        };
        let ghost m = self@;
        let ghost cs = view_nodes(children@);
        proof {
            lemma_view_nodes(children@);
            crate::fetch::lemma_fetch_heights(m, children);
            if m.valid() {
                assert(cs == children_of(m));
            }
        }
        let n = children.len();
        let mut i: usize = n;
        while i > 0
            invariant
                i <= n,
                n == children@.len(),
                cs == view_nodes(children@),
                cs.len() == n,
                forall|j: int| 0 <= j < n ==> #[trigger] cs[j] == children@[j]@,
                m == self@,
                forall|j: int| 0 <= j < n ==> (#[trigger] cs[j]).height + 1 == m.height,
                m.valid() ==> i == n && cs == children_of(m) && n > 0,
            decreases i,
        {
            i -= 1;
            let child = children[i].copy();
            assert(child@ == cs[i as int]);
            assert(cs[i as int].height + 1 == m.height);
            assert(child@.height < self@.height);
            let res = match child.pop_last(store) {
                Ok(res) => res,
                Err(e) => return Err(e),
            };
            let ghost res_view = res;
            let popped = match res.popped {
                Some(popped) => popped,
                None => {
                    proof {
                        if m.valid() {
                            assert(good_child(cs[n - 1], (m.height - 1) as u8));
                        }
                    }
                    continue;
                },
            };
            let mut list: Vec<HtreeNode> = Vec::new();
            let mut j: usize = 0;
            proof { lemma_view_nodes(list@); }
            while j < i
                invariant
                    j <= i,
                    i < n,
                    n == children@.len(),
                    cs == view_nodes(children@),
                    cs.len() == n,
                    forall|k: int| 0 <= k < n ==> #[trigger] cs[k] == children@[k]@,
                    m.valid() ==> i == n - 1 && cs == children_of(m),
                    m.valid() ==> view_nodes(list@) == cs.subrange(0, j as int),
                decreases i - j,
            {
                if !children[j].is_empty() {
                    let c = children[j].copy();
                    proof { lemma_view_nodes_push(list@, c); }
                    list.push(c);
                    proof {
                        if m.valid() {
                            assert(cs.subrange(0, j + 1) =~= cs.subrange(0, j as int).push(cs[j as int]));
                        }
                    }
                } else {
                    proof {
                        if m.valid() {
                            assert(good_child(cs[j as int], (m.height - 1) as u8));
                            assert(cs[j as int].leaves().len() > 0);
                        }
                    }
                }
                j += 1;
            }
            let ghost front = view_nodes(list@);
            let ghost mut had_rem = false;
            match res.remaining {
                Some(rem) => {
                    if !rem.is_empty() {
                        proof { lemma_view_nodes_push(list@, rem); had_rem = true; }
                        list.push(rem);
                    }
                },
                None => {},
            }
            let ghost lv = view_nodes(list@);
            proof {
                if m.valid() {
                    lemma_view_nodes(list@);
                    lemma_pop_last_list(m, res_view, had_rem, front, lv);
                }
            }
            let parent = match Self::from_children(list, store) {
                Ok(parent) => parent,
                Err(e) => return Err(pop_last_build_error(e)),
            };
            proof {
                if m.valid() && lv.len() > 0 {
                    lemma_parent_valid(parent@, lv, (m.height - 1) as u8);
                    if crate::faithful::faithful(m) {
                        assert forall|t: int| 0 <= t < lv.len() implies crate::faithful::faithful(#[trigger] lv[t]) by {
                            if t < front.len() {
                                assert(lv[t] == front[t]);
                                assert(front[t] == cs[t]);
                                assert(m.state is Internal);
                            }
                        }
                        lemma_pop_faithful(parent@, lv, (m.height - 1) as u8);
                    }
                }
            }
            let remaining = if parent.is_empty() { None } else { Some(parent) };
            return Ok(PopResult { popped: Some(popped), remaining });
        }
        proof {
            if m.valid() {
                assert(false);
            }
        }
        Ok(PopResult { popped: None, remaining: None })
    }
}

} // verus!

verus! {

/// A parent built over faithful children that a valid parent can take is faithful.
proof fn lemma_pop_faithful(parent: NodeModel, lv: Seq<NodeModel>, h: u8)
    requires
        crate::construct::sorted_parent_of(parent, lv),
        lv.len() > 0,
        h < 255,
        hkeys_fit(lv),
        forall|i: int| 0 <= i < lv.len() ==> good_child(#[trigger] lv[i], h) && crate::faithful::faithful(lv[i]),
    ensures
        crate::faithful::faithful(parent),
{
    assert(crate::split::faithful_siblings(lv, h)) by {
        assert forall|t: int| 0 <= t < lv.len() implies crate::faithful::faithful(#[trigger] lv[t])
            && !lv[t].is_empty() && lv[t].height == h && lv[t].hkey.len() <= 255 by {
            assert(good_child(lv[t], h));
        }
    }
    crate::split::lemma_parent_faithful(parent, lv, h);
}

proof fn lemma_first_nonempty(s: Seq<NodeModel>, h: u8)
    requires
        forall|i: int| 0 <= i < s.len() ==> good_child(#[trigger] s[i], h),
    ensures
        s.len() > 0 ==> leaves_seq(s).len() > 0,
        s.len() == 0 ==> leaves_seq(s).len() == 0,
{
    if s.len() > 0 {
        assert(good_child(s[0], h));
        assert(leaves_seq(s) == s[0].leaves() + leaves_seq(s.subrange(1, s.len() as int)));
    }
}

/// What is left after popping the first leaf of the first child, together with the
/// other children, is a list of children that a valid parent can be built over.
proof fn lemma_pop_first_list(
    m: NodeModel,
    res: PopResult,
    had_rem: bool,
    base: Seq<NodeModel>,
    lv: Seq<NodeModel>,
)
    requires
        m.valid(),
        m.height > 0,
        children_of(m).len() > 0,
        pop_spec(children_of(m)[0], res, true),
        had_rem <==> (res.remaining matches Some(t) && !t@.is_empty()),
        had_rem ==> base == seq![res.remaining->Some_0@],
        !had_rem ==> base == Seq::<NodeModel>::empty(),
        lv == base + children_of(m).subrange(1, children_of(m).len() as int),
    ensures
        res.popped matches Some(l) && leaf_of(l@) == m.leaves()[0],
        lv.len() == 0 <==> m.leaves().len() == 1,
        lv.len() > 0 ==> {
            &&& crate::construct::same_height(lv)
            &&& lv[0].height == m.height - 1
            &&& hkeys_fit(lv)
            &&& forall|i: int| 0 <= i < lv.len() ==> good_child(#[trigger] lv[i], (m.height - 1) as u8)
            &&& separated(lv)
        },
        leaves_seq(lv).to_multiset() == m.leaves().drop_first().to_multiset(),
        m.leaves().len() > 0,
{
    let cs = children_of(m);
    let n = cs.len();
    let h1 = (m.height - 1) as u8;
    let c0 = cs[0];
    let rest = cs.subrange(1, n as int);
    assert(good_child(c0, h1));
    lemma_valid_leaves(c0);
    assert(m.leaves() == leaves_seq(cs));
    assert(leaves_seq(cs) == c0.leaves() + leaves_seq(rest));
    assert forall|i: int| 0 <= i < rest.len() implies good_child(#[trigger] rest[i], h1) && child_facts(rest[i])
        && rest[i].hkey.len() <= 255 by {
        assert(rest[i] == cs[i + 1]);
        lemma_valid_leaves(cs[i + 1]);
    }
    lemma_first_nonempty(rest, h1);
    assert(m.leaves()[0] == c0.leaves()[0]);
    assert(m.leaves().drop_first() =~= c0.leaves().drop_first() + leaves_seq(rest));
    if had_rem {
        let t = res.remaining->Some_0@;
        assert(good_child(t, h1));
        lemma_valid_leaves(t);
        lemma_ms_within(t.leaves(), c0.leaves().drop_first());
        assert(leaves_within(t.leaves(), c0.leaves())) by {
            assert forall|i: int| 0 <= i < t.leaves().len() implies c0.leaves().contains(#[trigger] t.leaves()[i]) by {
                let x = t.leaves()[i];
                assert(c0.leaves().drop_first().contains(x));
                let k = choose|k: int| 0 <= k < c0.leaves().drop_first().len() && c0.leaves().drop_first()[k] == x;
                assert(c0.leaves()[k + 1] == x);
            }
        }
        assert(lv == seq![t] + rest);
        assert forall|i: int| 0 <= i < lv.len() implies good_child(#[trigger] lv[i], h1) && lv[i].hkey.len() <= 255 by {
            if i > 0 {
                assert(lv[i] == rest[i - 1]);
            }
        }
        assert forall|i: int, j: int| 0 <= i < lv.len() && 0 <= j < lv.len() && i != j implies sep(#[trigger] lv[i], #[trigger] lv[j]) by {
            if i == 0 {
                assert(lv[j] == cs[j]);
                assert(sep(cs[0], cs[j]));
                lemma_valid_leaves(cs[j]);
                lemma_sep_shrink(c0, t, cs[j]);
            } else if j == 0 {
                assert(lv[i] == cs[i]);
                assert(sep(cs[0], cs[i]));
                lemma_valid_leaves(cs[i]);
                lemma_sep_shrink(c0, t, cs[i]);
            } else {
                assert(lv[i] == cs[i] && lv[j] == cs[j]);
            }
        }
        lemma_leaves_seq_concat(seq![t], rest);
        crate::model::lemma_leaves_seq_single(t);
        vstd::seq_lib::lemma_multiset_commutative(t.leaves(), leaves_seq(rest));
        vstd::seq_lib::lemma_multiset_commutative(c0.leaves().drop_first(), leaves_seq(rest));
        assert(t.leaves().len() > 0);
        if c0.leaves().len() == 1 {
            assert(res.remaining is None);
        }
    } else {
        assert(lv =~= rest);
        if res.remaining is Some {
            let t = res.remaining->Some_0@;
            assert(good_child(t, h1));
            assert(t.leaves().len() > 0);
        }
        assert(c0.leaves().len() == 1);
        assert(c0.leaves().drop_first() =~= Seq::<LeafView>::empty());
        assert(m.leaves().drop_first() =~= leaves_seq(rest));
        assert forall|i: int, j: int| 0 <= i < lv.len() && 0 <= j < lv.len() && i != j implies sep(#[trigger] lv[i], #[trigger] lv[j]) by {
            assert(lv[i] == cs[i + 1] && lv[j] == cs[j + 1]);
        }
    }
}

} // verus!

verus! {

/// What is left of the other children, together with what remains after popping the
/// last leaf of the last child, is a list of children that a valid parent can be built over.
proof fn lemma_pop_last_list(
    m: NodeModel,
    res: PopResult,
    had_rem: bool,
    front: Seq<NodeModel>,
    lv: Seq<NodeModel>,
)
    requires
        m.valid(),
        m.height > 0,
        children_of(m).len() > 0,
        front == children_of(m).subrange(0, children_of(m).len() - 1),
        pop_spec(children_of(m).last(), res, false),
        had_rem <==> (res.remaining matches Some(t) && !t@.is_empty()),
        had_rem ==> lv == front.push(res.remaining->Some_0@),
        !had_rem ==> lv == front,
    ensures
        res.popped matches Some(l) && leaf_of(l@) == m.leaves().last(),
        lv.len() == 0 <==> m.leaves().len() == 1,
        lv.len() > 0 ==> {
            &&& crate::construct::same_height(lv)
            &&& lv[0].height == m.height - 1
            &&& hkeys_fit(lv)
            &&& forall|i: int| 0 <= i < lv.len() ==> good_child(#[trigger] lv[i], (m.height - 1) as u8)
            &&& separated(lv)
        },
        leaves_seq(lv).to_multiset() == m.leaves().drop_last().to_multiset(),
        m.leaves().len() > 0,
{
    let cs = children_of(m);
    let n = cs.len();
    let h1 = (m.height - 1) as u8;
    let cl = cs.last();
    assert(cl == cs[n - 1]);
    assert(good_child(cl, h1));
    lemma_valid_leaves(cl);
    assert(m.leaves() == leaves_seq(cs));
    assert(front.push(cl) =~= cs);
    lemma_leaves_seq_push(front, cl);
    assert forall|i: int| 0 <= i < front.len() implies good_child(#[trigger] front[i], h1) && child_facts(front[i])
        && front[i].hkey.len() <= 255 by {
        assert(front[i] == cs[i]);
        lemma_valid_leaves(cs[i]);
    }
    lemma_first_nonempty(front, h1);
    assert(m.leaves().last() == cl.leaves().last());
    assert(m.leaves().drop_last() =~= leaves_seq(front) + cl.leaves().drop_last());
    if had_rem {
        let t = res.remaining->Some_0@;
        assert(good_child(t, h1));
        lemma_valid_leaves(t);
        lemma_ms_within(t.leaves(), cl.leaves().drop_last());
        assert(leaves_within(t.leaves(), cl.leaves())) by {
            assert forall|i: int| 0 <= i < t.leaves().len() implies cl.leaves().contains(#[trigger] t.leaves()[i]) by {
                let x = t.leaves()[i];
                assert(cl.leaves().drop_last().contains(x));
                let k = choose|k: int| 0 <= k < cl.leaves().drop_last().len() && cl.leaves().drop_last()[k] == x;
                assert(cl.leaves()[k] == x);
            }
        }
        assert forall|i: int| 0 <= i < lv.len() implies good_child(#[trigger] lv[i], h1) && lv[i].hkey.len() <= 255 by {
            if i < front.len() {
                assert(lv[i] == front[i]);
            }
        }
        assert forall|i: int, j: int| 0 <= i < lv.len() && 0 <= j < lv.len() && i != j implies sep(#[trigger] lv[i], #[trigger] lv[j]) by {
            let last = lv.len() - 1;
            if i == last {
                assert(lv[j] == cs[j]);
                assert(sep(cs[n - 1], cs[j]));
                lemma_valid_leaves(cs[j]);
                lemma_sep_shrink(cl, t, cs[j]);
            } else if j == last {
                assert(lv[i] == cs[i]);
                assert(sep(cs[n - 1], cs[i]));
                lemma_valid_leaves(cs[i]);
                lemma_sep_shrink(cl, t, cs[i]);
            } else {
                assert(lv[i] == cs[i] && lv[j] == cs[j]);
            }
        }
        lemma_leaves_seq_push(front, t);
        vstd::seq_lib::lemma_multiset_commutative(leaves_seq(front), t.leaves());
        vstd::seq_lib::lemma_multiset_commutative(leaves_seq(front), cl.leaves().drop_last());
        assert(t.leaves().len() > 0);
    } else {
        if res.remaining is Some {
            let t = res.remaining->Some_0@;
            assert(good_child(t, h1));
            assert(t.leaves().len() > 0);
        }
        assert(cl.leaves().len() == 1);
        assert(cl.leaves().drop_last() =~= Seq::<LeafView>::empty());
        assert(m.leaves().drop_last() =~= leaves_seq(front));
        assert forall|i: int, j: int| 0 <= i < lv.len() && 0 <= j < lv.len() && i != j implies sep(#[trigger] lv[i], #[trigger] lv[j]) by {
            assert(lv[i] == cs[i] && lv[j] == cs[j]);
        }
    }
}

} // verus!
