use vstd::prelude::*;

use std::collections::VecDeque;

use ps_hkey::{HkeyFromCompactError, InMemoryStore, InMemoryStoreError};

use crate::codec::HtreeNodeUnpackChildrenError;
use crate::construct::children_of;
use crate::fetch::{lemma_fetch_heights, HtreeNodeFetchChildrenError};
use crate::lemmas::good_child;
use crate::model::{leaves_seq, lemma_leaves_seq_concat, lemma_valid_leaves, LeafView, NodeModel};
use crate::node::{lemma_view_nodes, lemma_view_nodes_concat, view_nodes, HtreeNode};

verus! {

/// Why the next leaf could not be had.
#[derive(Debug)]
pub enum HtreeNodeIterLeavesError {
    /// A node's state is internally corrupted.
    CorruptedState,
    /// A node's hkey does not describe a reference.
    Hkey(HkeyFromCompactError),
    /// The reference is to a list of parts, which is not read.
    ListReference,
    /// The store failed.
    Store(InMemoryStoreError),
    /// A node's stored children could not be read.
    UnpackChildren(HtreeNodeUnpackChildrenError),
}

fn iter_error(e: HtreeNodeFetchChildrenError) -> (r: HtreeNodeIterLeavesError)
    ensures
        match e {
            HtreeNodeFetchChildrenError::CorruptedState => r == HtreeNodeIterLeavesError::CorruptedState,
            HtreeNodeFetchChildrenError::Hkey(x) => r == HtreeNodeIterLeavesError::Hkey(x),
            HtreeNodeFetchChildrenError::ListReference => r == HtreeNodeIterLeavesError::ListReference,
            HtreeNodeFetchChildrenError::Store(x) => r == HtreeNodeIterLeavesError::Store(x),
            HtreeNodeFetchChildrenError::UnpackChildren(x) => r == HtreeNodeIterLeavesError::UnpackChildren(x),
        },
{
    match e {
        HtreeNodeFetchChildrenError::CorruptedState => HtreeNodeIterLeavesError::CorruptedState,
        HtreeNodeFetchChildrenError::Hkey(e) => HtreeNodeIterLeavesError::Hkey(e),
        HtreeNodeFetchChildrenError::ListReference => HtreeNodeIterLeavesError::ListReference,
        HtreeNodeFetchChildrenError::Store(e) => HtreeNodeIterLeavesError::Store(e),
        HtreeNodeFetchChildrenError::UnpackChildren(e) => HtreeNodeIterLeavesError::UnpackChildren(e),
    }
}

/// Every node is valid.
pub open spec fn all_valid(q: Seq<NodeModel>) -> bool {
    forall|t: int| 0 <= t < q.len() ==> (#[trigger] q[t]).valid()
}

/// A leaf's view: its key and hkey.
pub open spec fn leaf_view(n: NodeModel) -> LeafView {
    (n.key, n.hkey)
}

proof fn lemma_all_valid_concat(a: Seq<NodeModel>, b: Seq<NodeModel>)
    requires
        all_valid(a),
        all_valid(b),
    ensures
        all_valid(a + b),
{
    assert forall|t: int| 0 <= t < (a + b).len() implies (#[trigger] (a + b)[t]).valid() by {
        if t < a.len() {
            assert((a + b)[t] == a[t]);
        } else {
            assert((a + b)[t] == b[t - a.len()]);
        }
    }
}

/// Finds the first leaf under `node`: the children of the nodes on the way down go to the
/// front of `queue`, left to right, ahead of what it held. A subtree without leaves leaves
/// `queue` as it was. When fetching children fails, the node goes back to the front.
fn front_leaf(queue: &mut VecDeque<HtreeNode>, node: HtreeNode, store: &InMemoryStore) -> (r: Option<Result<HtreeNode, HtreeNodeIterLeavesError>>)
    ensures
        r is None ==> final(queue)@ == old(queue)@,
        r matches Some(Ok(l)) ==> l@.height == 0,
        node@.valid() ==> (r is None <==> node@.leaves().len() == 0) && !(r matches Some(Err(_))),
        node@.valid() && all_valid(view_nodes(old(queue)@)) ==> (r matches Some(Ok(l)) ==> {
            &&& good_child(l@, 0)
            &&& leaf_view(l@) == node@.leaves()[0]
            &&& leaves_seq(view_nodes(final(queue)@)) == node@.leaves().drop_first() + leaves_seq(view_nodes(old(queue)@))
            &&& all_valid(view_nodes(final(queue)@))
        }),
    decreases node@.height,
{
    let ghost m = node@;
    let ghost q0 = queue@;
    if node.is_empty() {
        return None;
    }
    if node.is_leaf() {
        proof {
            if m.valid() {
                assert(m.leaves() == seq![(m.key, m.hkey)]);
                assert(m.leaves().drop_first() =~= Seq::<LeafView>::empty());
                assert(Seq::<LeafView>::empty() + leaves_seq(view_nodes(q0)) =~= leaves_seq(view_nodes(q0)));
            }
        }
        return Some(Ok(node));
    }
    let children = match node.fetch_children(store) {
        Ok(children) => children,
        Err(e) => {
            queue.push_front(node);
            return Some(Err(iter_error(e)));
        },
    };
    let ghost cs = view_nodes(children@);
    proof {
        lemma_view_nodes(children@);
        lemma_fetch_heights(m, children);
        if m.valid() {
            assert(cs == children_of(m));
            assert(m.leaves() == leaves_seq(cs));
        }
    }
    let n = children.len();
    let mut j: usize = n;
    proof {
        assert(queue@.subrange(0, 0) =~= Seq::<HtreeNode>::empty());
        assert(queue@ =~= queue@.subrange(0, 0) + q0);
        assert(cs.subrange(n as int, n as int) =~= Seq::<NodeModel>::empty());
        lemma_view_nodes(Seq::<HtreeNode>::empty());
    }
    while j > 0
        invariant
            j <= n,
            n == children@.len(),
            cs == view_nodes(children@),
            cs.len() == n,
            forall|k: int| 0 <= k < n ==> #[trigger] cs[k] == children@[k]@,
            queue@.len() == q0.len() + (n - j),
            queue@.subrange(n - j, queue@.len() as int) == q0,
            view_nodes(queue@.subrange(0, n - j)) == cs.subrange(j as int, n as int),
        decreases j,
    {
        j -= 1;
        let c = children[j].copy();
        let ghost before = queue@;
        queue.push_front(c);
        proof {
            let pre = before.subrange(0, n - j - 1);
            assert(queue@.subrange(0, n - j) =~= seq![c] + pre);
            lemma_view_nodes_concat(seq![c], pre);
            lemma_view_nodes(seq![c]);
            assert(view_nodes(seq![c]) =~= seq![c@]);
            assert(cs.subrange(j as int, n as int) =~= seq![cs[j as int]] + cs.subrange(j + 1, n as int));
            assert(queue@.subrange(n - j, queue@.len() as int) =~= before.subrange(n - j - 1, before.len() as int));
        }
    }
    proof {
        assert(cs.subrange(0, n as int) =~= cs);
        assert(queue@ =~= queue@.subrange(0, n as int) + q0);
        lemma_view_nodes_concat(queue@.subrange(0, n as int), q0);
        assert(cs.subrange(0, 0) =~= Seq::<NodeModel>::empty());
        assert(leaves_seq(Seq::<NodeModel>::empty()) == Seq::<LeafView>::empty());
        if m.valid() && all_valid(view_nodes(q0)) {
            assert forall|k: int| 0 <= k < cs.len() implies (#[trigger] cs[k]).valid() by {}
            lemma_all_valid_concat(cs, view_nodes(q0));
        }
    }
    let mut i: usize = 0;
    while i < n
        invariant
            i <= n,
            n == children@.len(),
            cs == view_nodes(children@),
            cs.len() == n,
            forall|k: int| 0 <= k < n ==> (#[trigger] cs[k]).height + 1 == m.height,
            m == node@,
            q0 == old(queue)@,
            queue@.len() == q0.len() + (n - i),
            queue@.subrange(n - i, queue@.len() as int) == q0,
            view_nodes(queue@) == cs.subrange(i as int, n as int) + view_nodes(q0),
            m.valid() ==> cs == children_of(m) && m.leaves() == leaves_seq(cs),
            m.valid() ==> leaves_seq(cs.subrange(0, i as int)) == Seq::<LeafView>::empty(),
            m.valid() && all_valid(view_nodes(q0)) ==> all_valid(view_nodes(queue@)),
        decreases n - i,
    {
        let ghost qb = queue@;
        let c = match queue.pop_front() {
            Some(c) => c,
            None => {
                proof { assert(false); }
                return None;
            },
        };
        let ghost ci = cs[i as int];
        proof {
            lemma_view_nodes(qb);
            assert(c@ == view_nodes(qb)[0]);
            assert(view_nodes(qb)[0] == (cs.subrange(i as int, n as int) + view_nodes(q0))[0]);
            assert(c@ == ci);
            assert(queue@ == qb.subrange(1, qb.len() as int));
            assert(qb =~= seq![c] + queue@);
            lemma_view_nodes_concat(seq![c], queue@);
            lemma_view_nodes(seq![c]);
            assert(view_nodes(seq![c]) =~= seq![c@]);
            assert(view_nodes(qb) == seq![c@] + view_nodes(queue@));
            assert(view_nodes(queue@) =~= view_nodes(qb).subrange(1, view_nodes(qb).len() as int));
            assert(view_nodes(queue@) =~= cs.subrange(i + 1, n as int) + view_nodes(q0));
            assert(queue@.subrange(n - i - 1, queue@.len() as int) =~= qb.subrange(n - i, qb.len() as int));
            if m.valid() && all_valid(view_nodes(q0)) {
                assert(all_valid(view_nodes(queue@))) by {
                    assert forall|t: int| 0 <= t < view_nodes(queue@).len() implies (#[trigger] view_nodes(queue@)[t]).valid() by {
                        assert(view_nodes(queue@)[t] == view_nodes(qb)[t + 1]);
                    }
                }
            }
        }
        let ghost qa = queue@;
        let res = front_leaf(queue, c, store);
        match res {
            Some(r) => {
                proof {
                    if m.valid() && all_valid(view_nodes(q0)) {
                        assert(ci.valid());
                        if r is Ok {
                            let rest = cs.subrange(i + 1, n as int);
                            assert(cs =~= cs.subrange(0, i as int) + (seq![ci] + rest));
                            lemma_leaves_seq_concat(cs.subrange(0, i as int), seq![ci] + rest);
                            lemma_leaves_seq_concat(seq![ci], rest);
                            crate::model::lemma_leaves_seq_single(ci);
                            lemma_leaves_seq_concat(rest, view_nodes(q0));
                            assert(m.leaves() =~= ci.leaves() + leaves_seq(rest));
                            assert(m.leaves().drop_first() =~= ci.leaves().drop_first() + leaves_seq(rest));
                            assert(leaves_seq(view_nodes(qa)) == leaves_seq(rest) + leaves_seq(view_nodes(q0)));
                        }
                    }
                }
                return Some(r);
            },
            None => {},
        }
        proof {
            if m.valid() {
                assert(ci.valid());
                assert(cs.subrange(0, i + 1) =~= cs.subrange(0, i as int).push(ci));
                crate::model::lemma_leaves_seq_push(cs.subrange(0, i as int), ci);
                assert(leaves_seq(cs.subrange(0, i + 1)) =~= Seq::<LeafView>::empty());
            }
        }
        i += 1;
    }
    proof {
        assert(queue@ =~= q0);
        if m.valid() {
            assert(cs.subrange(0, n as int) =~= cs);
        }
    }
    None
}

/// Finds the last leaf under `node`: the children of the nodes on the way down go to the
/// back of `queue`, left to right, behind what it held. A subtree without leaves leaves
/// `queue` as it was. When fetching children fails, the node goes back to the back.
fn back_leaf(queue: &mut VecDeque<HtreeNode>, node: HtreeNode, store: &InMemoryStore) -> (r: Option<Result<HtreeNode, HtreeNodeIterLeavesError>>)
    ensures
        r is None ==> final(queue)@ == old(queue)@,
        r matches Some(Ok(l)) ==> l@.height == 0,
        node@.valid() ==> (r is None <==> node@.leaves().len() == 0) && !(r matches Some(Err(_))),
        node@.valid() && all_valid(view_nodes(old(queue)@)) ==> (r matches Some(Ok(l)) ==> {
            &&& good_child(l@, 0)
            &&& leaf_view(l@) == node@.leaves().last()
            &&& leaves_seq(view_nodes(final(queue)@)) == leaves_seq(view_nodes(old(queue)@)) + node@.leaves().drop_last()
            &&& all_valid(view_nodes(final(queue)@))
        }),
    decreases node@.height,
{
    let ghost m = node@;
    let ghost q0 = queue@;
    if node.is_empty() {
        return None;
    }
    if node.is_leaf() {
        proof {
            if m.valid() {
                assert(m.leaves() == seq![(m.key, m.hkey)]);
                assert(m.leaves().drop_last() =~= Seq::<LeafView>::empty());
                assert(leaves_seq(view_nodes(q0)) + Seq::<LeafView>::empty() =~= leaves_seq(view_nodes(q0)));
            }
        }
        return Some(Ok(node));
    }
    let children = match node.fetch_children(store) {
        Ok(children) => children,
        Err(e) => {
            queue.push_back(node);
            return Some(Err(iter_error(e)));
        },
    };
    let ghost cs = view_nodes(children@);
    proof {
        lemma_view_nodes(children@);
        lemma_fetch_heights(m, children);
        if m.valid() {
            assert(cs == children_of(m));
            assert(m.leaves() == leaves_seq(cs));
        }
    }
    let n = children.len();
    let mut j: usize = 0;
    let ghost l0 = q0.len();
    proof {
        assert(queue@.subrange(0, l0 as int) =~= q0);
        assert(queue@.subrange(l0 as int, queue@.len() as int) =~= Seq::<HtreeNode>::empty());
        lemma_view_nodes(Seq::<HtreeNode>::empty());
        assert(view_nodes(Seq::<HtreeNode>::empty()) =~= cs.subrange(0, 0));
    }
    while j < n
        invariant
            j <= n,
            n == children@.len(),
            cs == view_nodes(children@),
            cs.len() == n,
            forall|k: int| 0 <= k < n ==> #[trigger] cs[k] == children@[k]@,
            l0 == q0.len(),
            queue@.len() == l0 + j,
            queue@.subrange(0, l0 as int) == q0,
            view_nodes(queue@.subrange(l0 as int, queue@.len() as int)) == cs.subrange(0, j as int),
        decreases n - j,
    {
        let c = children[j].copy();
        let ghost before = queue@;
        queue.push_back(c);
        proof {
            let post = before.subrange(l0 as int, before.len() as int);
            assert(queue@.subrange(l0 as int, queue@.len() as int) =~= post.push(c));
            crate::node::lemma_view_nodes_push(post, c);
            assert(cs.subrange(0, j + 1) =~= cs.subrange(0, j as int).push(cs[j as int]));
            assert(queue@.subrange(0, l0 as int) =~= before.subrange(0, l0 as int));
        }
        j += 1;
    }
    proof {
        assert(cs.subrange(0, n as int) =~= cs);
        assert(queue@ =~= q0 + queue@.subrange(l0 as int, queue@.len() as int));
        lemma_view_nodes_concat(q0, queue@.subrange(l0 as int, queue@.len() as int));
        assert(cs.subrange(n as int, n as int) =~= Seq::<NodeModel>::empty());
        assert(leaves_seq(Seq::<NodeModel>::empty()) == Seq::<LeafView>::empty());
        if m.valid() && all_valid(view_nodes(q0)) {
            assert forall|k: int| 0 <= k < cs.len() implies (#[trigger] cs[k]).valid() by {}
            lemma_all_valid_concat(view_nodes(q0), cs);
        }
    }
    let mut i: usize = n;
    while i > 0
        invariant
            i <= n,
            n == children@.len(),
            cs == view_nodes(children@),
            cs.len() == n,
            forall|k: int| 0 <= k < n ==> (#[trigger] cs[k]).height + 1 == m.height,
            m == node@,
            q0 == old(queue)@,
            l0 == q0.len(),
            queue@.len() == l0 + i,
            queue@.subrange(0, l0 as int) == q0,
            view_nodes(queue@) == view_nodes(q0) + cs.subrange(0, i as int),
            m.valid() ==> cs == children_of(m) && m.leaves() == leaves_seq(cs),
            m.valid() ==> leaves_seq(cs.subrange(i as int, n as int)) == Seq::<LeafView>::empty(),
            m.valid() && all_valid(view_nodes(q0)) ==> all_valid(view_nodes(queue@)),
        decreases i,
    {
        let ghost qb = queue@;
        let c = match queue.pop_back() {
            Some(c) => c,
            None => {
                proof { assert(false); }
                return None;
            },
        };
        let ghost k = i - 1;
        let ghost ci = cs[k as int];
        proof {
            lemma_view_nodes(qb);
            assert(c@ == view_nodes(qb)[qb.len() - 1]);
            assert(c@ == ci);
            assert(queue@ == qb.subrange(0, qb.len() - 1));
            assert(qb =~= queue@.push(c));
            crate::node::lemma_view_nodes_push(queue@, c);
            assert(view_nodes(queue@) =~= view_nodes(qb).subrange(0, view_nodes(qb).len() - 1));
            assert(view_nodes(queue@) =~= view_nodes(q0) + cs.subrange(0, k as int));
            assert(queue@.subrange(0, l0 as int) =~= qb.subrange(0, l0 as int));
            if m.valid() && all_valid(view_nodes(q0)) {
                assert(all_valid(view_nodes(queue@))) by {
                    assert forall|t: int| 0 <= t < view_nodes(queue@).len() implies (#[trigger] view_nodes(queue@)[t]).valid() by {
                        assert(view_nodes(queue@)[t] == view_nodes(qb)[t]);
                    }
                }
            }
        }
        let ghost qa = queue@;
        let res = back_leaf(queue, c, store);
        match res {
            Some(r) => {
                proof {
                    if m.valid() && all_valid(view_nodes(q0)) {
                        assert(ci.valid());
                        if r is Ok {
                            let pre = cs.subrange(0, k as int);
                            let post = cs.subrange(k + 1, n as int);
                            assert(cs =~= pre + (seq![ci] + post));
                            lemma_leaves_seq_concat(pre, seq![ci] + post);
                            lemma_leaves_seq_concat(seq![ci], post);
                            crate::model::lemma_leaves_seq_single(ci);
                            lemma_leaves_seq_concat(view_nodes(q0), pre);
                            assert(m.leaves() =~= leaves_seq(pre) + ci.leaves());
                            assert(m.leaves().drop_last() =~= leaves_seq(pre) + ci.leaves().drop_last());
                            assert(m.leaves().last() == ci.leaves().last());
                        }
                    }
                }
                return Some(r);
            },
            None => {},
        }
        proof {
            if m.valid() {
                assert(ci.valid());
                assert(cs.subrange(k as int, n as int) =~= seq![ci] + cs.subrange(i as int, n as int));
                lemma_leaves_seq_concat(seq![ci], cs.subrange(i as int, n as int));
                crate::model::lemma_leaves_seq_single(ci);
                assert(leaves_seq(cs.subrange(k as int, n as int)) =~= Seq::<LeafView>::empty());
            }
        }
        i -= 1;
    }
    proof {
        assert(queue@ =~= q0);
        if m.valid() {
            assert(cs.subrange(0, n as int) =~= cs);
        }
    }
    None
}

/// Walks the leaves of a tree, from the left with `next` and from the right with
/// `next_back`; the two ends meet in the middle.
pub struct HtreeNodeIterLeaves<'s> {
    queue: VecDeque<HtreeNode>,
    store: &'s InMemoryStore,
}

impl<'s> HtreeNodeIterLeaves<'s> {
    /// The leaves not yet handed out, left to right.
    pub closed spec fn remaining(&self) -> Seq<LeafView> {
        leaves_seq(view_nodes(self.queue@))
    }

    /// Every subtree still to walk is valid, so no step fails.
    pub closed spec fn well_formed(&self) -> bool {
        all_valid(view_nodes(self.queue@))
    }

    /// The next leaf from the left. On an error the node whose children could not be had
    /// stays in place, so a later call tries it again.
    pub fn next(&mut self) -> (r: Option<Result<HtreeNode, HtreeNodeIterLeavesError>>)
        ensures
            r matches Some(Ok(l)) ==> l@.height == 0,
            old(self).well_formed() ==> match r {
                None => old(self).remaining().len() == 0 && final(self).remaining().len() == 0 && final(self).well_formed(),
                Some(Ok(l)) => {
                    &&& old(self).remaining().len() > 0
                    &&& good_child(l@, 0)
                    &&& leaf_view(l@) == old(self).remaining()[0]
                    &&& final(self).remaining() == old(self).remaining().drop_first()
                    &&& final(self).well_formed()
                },
                Some(Err(_)) => false,
            },
    {
        let ghost good = old(self).well_formed();
        let ghost orig = old(self).remaining();
        loop
            invariant
                good == old(self).well_formed(),
                orig == old(self).remaining(),
                good ==> self.well_formed() && self.remaining() == orig,
            decreases self.queue@.len(),
        {
            let ghost q = self.queue@;
            let node = match self.queue.pop_front() {
                Some(node) => node,
                None => {
                    proof {
                        assert(view_nodes(q) =~= Seq::<NodeModel>::empty()) by { lemma_view_nodes(q); }
                        assert(leaves_seq(Seq::<NodeModel>::empty()) == Seq::<LeafView>::empty());
                    }
                    return None;
                },
            };
            let ghost rest = self.queue@;
            proof {
                lemma_view_nodes(q);
                assert(q =~= seq![node] + rest);
                lemma_view_nodes_concat(seq![node], rest);
                lemma_view_nodes(seq![node]);
                assert(view_nodes(seq![node]) =~= seq![node@]);
                assert(view_nodes(q) == seq![node@] + view_nodes(rest));
                lemma_leaves_seq_concat(seq![node@], view_nodes(rest));
                crate::model::lemma_leaves_seq_single(node@);
                if good {
                    assert(view_nodes(q)[0] == node@);
                    assert(node@.valid());
                    assert forall|t: int| 0 <= t < view_nodes(rest).len() implies (#[trigger] view_nodes(rest)[t]).valid() by {
                        assert(view_nodes(rest)[t] == view_nodes(q)[t + 1]);
                    }
                }
            }
            match front_leaf(&mut self.queue, node, self.store) {
                Some(r) => {
                    return Some(r);
                },
                None => {},
            }
            proof {
                if good {
                    assert(node@.leaves() =~= Seq::<LeafView>::empty());
                    assert(self.remaining() =~= orig);
                }
            }
        }
    }

    /// The next leaf from the right. On an error the node whose children could not be had
    /// stays in place, so a later call tries it again.
    pub fn next_back(&mut self) -> (r: Option<Result<HtreeNode, HtreeNodeIterLeavesError>>)
        ensures
            r matches Some(Ok(l)) ==> l@.height == 0,
            old(self).well_formed() ==> match r {
                None => old(self).remaining().len() == 0 && final(self).remaining().len() == 0 && final(self).well_formed(),
                Some(Ok(l)) => {
                    &&& old(self).remaining().len() > 0
                    &&& good_child(l@, 0)
                    &&& leaf_view(l@) == old(self).remaining().last()
                    &&& final(self).remaining() == old(self).remaining().drop_last()
                    &&& final(self).well_formed()
                },
                Some(Err(_)) => false,
            },
    {
        let ghost good = old(self).well_formed();
        let ghost orig = old(self).remaining();
        loop
            invariant
                good == old(self).well_formed(),
                orig == old(self).remaining(),
                good ==> self.well_formed() && self.remaining() == orig,
            decreases self.queue@.len(),
        {
            let ghost q = self.queue@;
            let node = match self.queue.pop_back() {
                Some(node) => node,
                None => {
                    proof {
                        assert(view_nodes(q) =~= Seq::<NodeModel>::empty()) by { lemma_view_nodes(q); }
                        assert(leaves_seq(Seq::<NodeModel>::empty()) == Seq::<LeafView>::empty());
                    }
                    return None;
                },
            };
            let ghost rest = self.queue@;
            proof {
                lemma_view_nodes(q);
                assert(q =~= rest.push(node));
                crate::node::lemma_view_nodes_push(rest, node);
                crate::model::lemma_leaves_seq_push(view_nodes(rest), node@);
                if good {
                    assert(view_nodes(q)[q.len() - 1] == node@);
                    assert(node@.valid());
                    assert forall|t: int| 0 <= t < view_nodes(rest).len() implies (#[trigger] view_nodes(rest)[t]).valid() by {
                        assert(view_nodes(rest)[t] == view_nodes(q)[t]);
                    }
                }
            }
            match back_leaf(&mut self.queue, node, self.store) {
                Some(r) => {
                    proof {
                        if good && r is Ok {
                            let lv = node@.leaves();
                            assert(orig == leaves_seq(view_nodes(rest)) + lv);
                            assert(orig.drop_last() =~= leaves_seq(view_nodes(rest)) + lv.drop_last());
                            assert(orig.last() == lv.last());
                        }
                    }
                    return Some(r);
                },
                None => {},
            }
            proof {
                if good {
                    assert(node@.leaves() =~= Seq::<LeafView>::empty());
                    assert(self.remaining() =~= orig);
                }
            }
        }
    }
}

impl HtreeNode {
    /// Walks the leaves of this tree; see `HtreeNodeIterLeaves`.
    pub fn iter_leaves<'s>(&self, store: &'s InMemoryStore) -> (r: HtreeNodeIterLeaves<'s>)
        ensures
            r.remaining() == self@.leaves(),
            self@.valid() ==> r.well_formed(),
    {
        let mut queue: VecDeque<HtreeNode> = VecDeque::new();
        let c = self.copy();
        queue.push_back(c);
        proof {
            assert(queue@ =~= seq![c]);
            lemma_view_nodes(seq![c]);
            assert(view_nodes(seq![c]) =~= seq![c@]);
            crate::model::lemma_leaves_seq_single(c@);
        }
        HtreeNodeIterLeaves { queue, store }
    }
}

} // verus!
