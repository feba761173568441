use vstd::prelude::*;

use ps_hkey::{InMemoryStore, InMemoryStoreError};

use crate::codec::{encode_entries, entries_of, serialize_children};
use crate::model::{hkeys_fit, lex_lt, lemma_node_lt_irreflexive, lemma_node_lt_transitive, node_lt, nodes_sorted, NodeModel, StateModel};
use crate::group::{boundary_ok, flatten, group_sorted, groups_view, lemma_flatten_single, lemma_group_in_flatten, sizes_ok};
use crate::node::{lemma_view_nodes, view_nodes, HtreeNode, HtreeNodeReadonly, HtreeNodeWritable};
use vstd::std_specs::cmp::PartialEqSpecImpl;
use crate::MAX_CHILDREN;
use crate::store::{store_bytes, stored_hkey};

verus! {

/// Why a parent node could not be built from its children.
#[derive(Debug)]
pub enum HtreeNodeFromChildrenError {
    /// The children do not all have the same height.
    ChildHeightInconsistent,
    /// The children already have the largest height a node can have.
    HeightOverflow,
    /// A child's hkey is longer than a length byte can record.
    IntConv,
    /// The store failed.
    Store(InMemoryStoreError),
}

/// The model of the default (empty) node.
pub open spec fn empty_model() -> NodeModel {
    NodeModel { key: 0, height: 0, hkey: Seq::empty(), nil_hkey: true, state: StateModel::Empty }
}

/// All nodes have the height of the first one.
pub open spec fn same_height(cs: Seq<NodeModel>) -> bool {
    forall|i: int| 0 <= i < cs.len() ==> (#[trigger] cs[i]).height == cs[0].height
}

/// The record that a parent over `cs` stores: its height, then each child's key and hkey.
pub open spec fn children_bytes(cs: Seq<NodeModel>) -> Seq<u8> {
    seq![(cs[0].height + 1) as u8] + encode_entries(entries_of(cs))
}

/// The parent that holds `cs`, in this order, under the reference to their stored record.
pub open spec fn parent_model(cs: Seq<NodeModel>) -> NodeModel {
    NodeModel {
        key: cs[0].key,
        height: (cs[0].height + 1) as u8,
        hkey: stored_hkey(children_bytes(cs)),
        nil_hkey: false,
        state: StateModel::Internal(cs),
    }
}

/// What building a parent over `cs` (in this order) gives, apart from the store's part.
pub open spec fn parent_result(cs: Seq<NodeModel>, r: Result<HtreeNode, HtreeNodeFromChildrenError>) -> bool {
    if cs.len() == 0 {
        r matches Ok(n) && n@ == empty_model()
    } else if !same_height(cs) {
        r matches Err(HtreeNodeFromChildrenError::ChildHeightInconsistent)
    } else if cs[0].height == 255 {
        r matches Err(HtreeNodeFromChildrenError::HeightOverflow)
    } else if !hkeys_fit(cs) {
        r matches Err(HtreeNodeFromChildrenError::IntConv)
    } else {
        match r {
            Ok(n) => n@ == parent_model(cs) && n.hkey@.len() <= crate::store::MAX_COMPACT_HKEY,
            Err(e) => e is Store,
        }
    }
}

/// `a` comes strictly before `b` in lexicographic byte order.
pub fn bytes_less(a: &Vec<u8>, b: &Vec<u8>) -> (r: bool)
    ensures
        r == lex_lt(a@, b@),
{
    let mut i: usize = 0;
    assert(a@.skip(0) =~= a@ && b@.skip(0) =~= b@);
    while i < a.len() && i < b.len()
        invariant
            i <= a@.len(),
            i <= b@.len(),
            lex_lt(a@, b@) == lex_lt(a@.skip(i as int), b@.skip(i as int)),
        decreases a@.len() - i,
    {
        let x = a[i];
        let y = b[i];
        assert(a@.skip(i as int)[0] == x && b@.skip(i as int)[0] == y);
        if x != y {
            return x < y;
        }
        assert(a@.skip(i as int).drop_first() =~= a@.skip(i + 1));
        assert(b@.skip(i as int).drop_first() =~= b@.skip(i + 1));
        i += 1;
    }
    i < b.len()
}

/// `a` and `b` hold the same bytes.
pub fn bytes_equal(a: &Vec<u8>, b: &Vec<u8>) -> (r: bool)
    ensures
        r == (a@ == b@),
{
    if a.len() != b.len() {
        return false;
    }
    let mut i: usize = 0;
    while i < a.len()
        invariant
            i <= a@.len(),
            a@.len() == b@.len(),
            a@.subrange(0, i as int) == b@.subrange(0, i as int),
        decreases a@.len() - i,
    {
        if a[i] != b[i] {
            return false;
        }
        assert(a@.subrange(0, i + 1) =~= a@.subrange(0, i as int).push(a[i as int]));
        assert(b@.subrange(0, i + 1) =~= b@.subrange(0, i as int).push(b[i as int]));
        i += 1;
    }
    assert(a@ =~= a@.subrange(0, i as int));
    assert(b@ =~= b@.subrange(0, i as int));
    true
}

/// `a` comes strictly before `b`: by key, then by the kind of reference of the hkey, then
/// by the hkey's bytes.
pub fn node_less(a: &HtreeNode, b: &HtreeNode) -> (r: bool)
    ensures
        r == node_lt(a@, b@),
{
    if a.key != b.key {
        return a.key < b.key;
    }
    let ra = hkey_rank_of(a);
    let rb = hkey_rank_of(b);
    if ra != rb {
        ra < rb
    } else {
        bytes_less(&a.hkey, &b.hkey)
    }
}

/// The rank of the kind of reference `n`'s hkey is.
fn hkey_rank_of(n: &HtreeNode) -> (r: u8)
    ensures
        r as nat == crate::model::hkey_rank(n@),
{
    proof {
        reveal(crate::model::hkey_rank);
    }
    if n.nil_hkey {
        0
    } else if n.hkey.len() == 42 {
        2
    } else if n.hkey.len() == 84 {
        if n.hkey[0] % 2 == 0 { 3 } else { 4 }
    } else {
        1
    }
}

/// The nodes of `v`, sorted by key and then by hkey.
pub fn sort_nodes(v: Vec<HtreeNode>) -> (r: Vec<HtreeNode>)
    ensures
        view_nodes(r@).to_multiset() == view_nodes(v@).to_multiset(),
        nodes_sorted(view_nodes(r@)),
        r@.len() == v@.len(),
{
    let mut v = v;
    let ghost orig = view_nodes(v@);
    let mut r: Vec<HtreeNode> = Vec::new();
    proof {
        lemma_view_nodes(v@);
        lemma_view_nodes(r@);
        assert(view_nodes(v@) =~= orig);
        assert(view_nodes(r@) =~= Seq::<NodeModel>::empty());
        crate::model::lemma_empty_to_multiset(view_nodes(r@));
        assert(vstd::multiset::Multiset::<NodeModel>::empty().add(orig.to_multiset()) =~= orig.to_multiset());
    }
    while v.len() > 0
        invariant
            view_nodes(r@).to_multiset().add(view_nodes(v@).to_multiset()) == orig.to_multiset(),
            nodes_sorted(view_nodes(r@)),
            r@.len() + v@.len() == orig.len(),
        decreases v@.len(),
    {
        let ghost vv = view_nodes(v@);
        let ghost rv = view_nodes(r@);
        let ghost old_v = v@;
        let x = v.pop().unwrap();
        proof {
            assert(old_v =~= v@.push(x));
            crate::node::lemma_view_nodes_push(v@, x);
        }
        let mut p: usize = 0;
        proof { lemma_view_nodes(r@); }
        while p < r.len() && !node_less(&x, &r[p])
            invariant
                p <= r@.len(),
                rv == view_nodes(r@),
                rv.len() == r@.len(),
                forall|q: int| 0 <= q < p ==> !node_lt(x@, #[trigger] rv[q]),
            decreases r@.len() - p,
        {
            proof { lemma_view_nodes(r@); }
            p += 1;
        }
        r.insert(p, x);
        proof {
            lemma_view_nodes(r@);
            let nr = view_nodes(r@);
            assert(nr =~= rv.insert(p as int, x@));
            rv.insert_ensures(p as int, x@);
            assert forall|i: int, j: int| 0 <= i < j < nr.len() implies !node_lt(nr[j], nr[i]) by {
                if j < p {
                    assert(nr[i] == rv[i] && nr[j] == rv[j]);
                } else if j == p {
                    assert(nr[i] == rv[i]);
                } else if i == p {
                    assert(nr[j] == rv[j - 1]);
                    assert(node_lt(x@, rv[p as int]));
                    if node_lt(rv[j - 1], x@) {
                        lemma_node_lt_transitive(rv[j - 1], x@, rv[p as int]);
                        if j - 1 == p {
                            lemma_node_lt_irreflexive(rv[p as int]);
                        }
                    }
                } else if i < p {
                    assert(nr[i] == rv[i] && nr[j] == rv[j - 1]);
                } else {
                    assert(nr[i] == rv[i - 1] && nr[j] == rv[j - 1]);
                }
            }
            assert(nr.remove(p as int) =~= rv);
            assert(nr[p as int] == x@);
            vstd::seq_lib::to_multiset_remove(nr, p as int);
            assert(nr.to_multiset().remove(x@) == rv.to_multiset());
            vstd::seq_lib::to_multiset_build(view_nodes(v@), x@);
            assert(nr.contains(x@));
            assert(nr.to_multiset().count(x@) > 0) by {
                nr.to_multiset_ensures();
            }
            assert(nr.to_multiset() =~= rv.to_multiset().insert(x@));
            assert(vv =~= view_nodes(v@).push(x@));
            assert(vv.to_multiset() =~= view_nodes(v@).to_multiset().insert(x@));
            assert(nr.to_multiset().add(view_nodes(v@).to_multiset()) =~= rv.to_multiset().add(vv.to_multiset()));
        }
    }
    proof {
        lemma_view_nodes(v@);
        assert(view_nodes(v@) =~= Seq::<NodeModel>::empty());
        crate::model::lemma_empty_to_multiset(view_nodes(v@));
        assert(view_nodes(r@).to_multiset().add(vstd::multiset::Multiset::empty()) =~= view_nodes(r@).to_multiset());
    }
    r
}

} // verus!

verus! {

/// The children held by a node's model (none unless it is internal).
pub open spec fn children_of(n: NodeModel) -> Seq<NodeModel> {
    match n.state {
        StateModel::Internal(cs) => cs,
        _ => Seq::empty(),
    }
}

/// `n` is the parent that building over `input` (in any order) gives: its children are
/// those of `input`, sorted by key and then hkey.
pub open spec fn sorted_parent_of(n: NodeModel, input: Seq<NodeModel>) -> bool {
    &&& n.state is Internal
    &&& children_of(n).to_multiset() == input.to_multiset()
    &&& nodes_sorted(children_of(n))
    &&& n == parent_model(children_of(n))
}

/// What building a parent over `input` (in any order) gives, apart from the store's part.
pub open spec fn parent_result_any_order(input: Seq<NodeModel>, r: Result<HtreeNode, HtreeNodeFromChildrenError>) -> bool {
    if input.len() == 0 {
        r matches Ok(n) && n@ == empty_model()
    } else if !same_height(input) {
        r matches Err(HtreeNodeFromChildrenError::ChildHeightInconsistent)
    } else if input[0].height == 255 {
        r matches Err(HtreeNodeFromChildrenError::HeightOverflow)
    } else if !hkeys_fit(input) {
        r matches Err(HtreeNodeFromChildrenError::IntConv)
    } else {
        match r {
            Ok(n) => sorted_parent_of(n@, input) && n.hkey@.len() <= crate::store::MAX_COMPACT_HKEY,
            Err(e) => e is Store,
        }
    }
}

pub proof fn lemma_perm_contains<A>(a: Seq<A>, b: Seq<A>)
    requires
        a.to_multiset() == b.to_multiset(),
    ensures
        forall|i: int| 0 <= i < a.len() ==> b.contains(#[trigger] a[i]),
        a.len() == b.len(),
{
    vstd::seq_lib::to_multiset_len(a);
    vstd::seq_lib::to_multiset_len(b);
    assert forall|i: int| 0 <= i < a.len() implies b.contains(#[trigger] a[i]) by {
        vstd::seq_lib::to_multiset_contains(a, a[i]);
        vstd::seq_lib::to_multiset_contains(b, a[i]);
        assert(a.contains(a[i]));
    }
}

proof fn lemma_perm_conditions(a: Seq<NodeModel>, b: Seq<NodeModel>)
    requires
        a.to_multiset() == b.to_multiset(),
    ensures
        a.len() == b.len(),
        same_height(a) <==> same_height(b),
        hkeys_fit(a) <==> hkeys_fit(b),
        a.len() > 0 && same_height(a) ==> a[0].height == b[0].height,
{
    lemma_perm_contains(a, b);
    lemma_perm_contains(b, a);
    if a.len() > 0 {
        if same_height(a) {
            assert(a.contains(b[0]));
            assert forall|i: int| 0 <= i < b.len() implies (#[trigger] b[i]).height == b[0].height by {
                assert(a.contains(b[i]));
            }
        }
        if same_height(b) {
            assert(b.contains(a[0]));
            assert forall|i: int| 0 <= i < a.len() implies (#[trigger] a[i]).height == a[0].height by {
                assert(b.contains(a[i]));
            }
        }
        if hkeys_fit(a) {
            assert forall|i: int| 0 <= i < b.len() implies (#[trigger] b[i]).hkey.len() <= 255 by {
                assert(a.contains(b[i]));
            }
        }
        if hkeys_fit(b) {
            assert forall|i: int| 0 <= i < a.len() implies (#[trigger] a[i]).hkey.len() <= 255 by {
                assert(b.contains(a[i]));
            }
        }
    }
}

impl HtreeNode {
    /// The empty tree: height `0`, nil key, the empty reference as hkey, nothing held.
    pub fn default_node() -> (r: Self)
        ensures
            r@ == empty_model(),
    {
        let r = HtreeNode { key: 0, height: 0, hkey: Vec::new(), nil_hkey: true, writable: HtreeNodeWritable::Empty };
        assert(r.hkey@ =~= Seq::<u8>::empty());
        r
    }

    /// Builds a parent over `children`, which are taken in the order given.
    ///
    /// The parent's key is its first child's key and its height is one more than the
    /// children's; the children's records are serialized and stored, and the reference
    /// to them becomes the parent's hkey. No children give the empty tree.
    pub fn from_sorted_children(children: Vec<HtreeNode>, store: &InMemoryStore) -> (r: Result<HtreeNode, HtreeNodeFromChildrenError>)
        ensures
            parent_result(view_nodes(children@), r),
    {
        let ghost cs = view_nodes(children@);
        proof { lemma_view_nodes(children@); }
        if children.len() == 0 {
            return Ok(Self::default_node());
        }
        let height = children[0].height;
        let mut i: usize = 1;
        while i < children.len()
            invariant
                1 <= i <= children@.len(),
                cs == view_nodes(children@),
                cs.len() == children@.len(),
                height == cs[0].height,
                forall|j: int| 0 <= j < i ==> (#[trigger] cs[j]).height == height,
            decreases children@.len() - i,
        {
            proof { lemma_view_nodes(children@); }
            if children[i].height != height {
                assert(!same_height(cs)) by {
                    assert(cs[i as int].height != cs[0].height);
                }
                return Err(HtreeNodeFromChildrenError::ChildHeightInconsistent);
            }
            i += 1;
        }
        assert(same_height(cs));
        if height == 255 {
            return Err(HtreeNodeFromChildrenError::HeightOverflow);
        }
        let buf = match serialize_children(height + 1, children.as_slice()) {
            Some(buf) => buf,
            None => {
                proof {
                    let i = choose|i: int| 0 <= i < children@.len() && (#[trigger] children@[i]).hkey@.len() > 255;
                    assert(cs[i].hkey.len() > 255);
                }
                return Err(HtreeNodeFromChildrenError::IntConv);
            }
        };
        proof {
            assert forall|i: int| 0 <= i < cs.len() implies (#[trigger] cs[i]).hkey.len() <= 255 by {
                assert(children@[i].hkey@.len() <= 255);
            }
        }
        let hkey = match store_bytes(store, buf.as_slice()) {
            Ok(hkey) => hkey,
            Err(err) => return Err(HtreeNodeFromChildrenError::Store(err)),
        };
        let key = children[0].key;
        let r = HtreeNode { key, height: height + 1, hkey, nil_hkey: false, writable: HtreeNodeWritable::Internal { children: std::sync::Arc::new(children) } };
        assert(r@ == parent_model(cs));
        Ok(r)
    }

    /// Builds a parent over `children`, which are first sorted by key and then by hkey.
    ///
    /// No children give the empty tree.
    pub fn from_children(children: Vec<HtreeNode>, store: &InMemoryStore) -> (r: Result<HtreeNode, HtreeNodeFromChildrenError>)
        ensures
            parent_result_any_order(view_nodes(children@), r),
    {
        let ghost input = view_nodes(children@);
        let sorted = sort_nodes(children);
        let ghost cs = view_nodes(sorted@);
        let r = Self::from_sorted_children(sorted, store);
        proof {
            lemma_perm_conditions(cs, input);
            if input.len() == 0 {
            } else if same_height(input) && input[0].height != 255 && hkeys_fit(input) {
                if r is Ok {
                    assert(children_of(r->Ok_0@) == cs);
                }
            }
        }
        r
    }
}

impl Default for HtreeNode {
    /// The empty tree: height zero, nil key, the empty reference as hkey, no state.
    fn default() -> (r: Self)
        ensures
            r@ == empty_model(),
    {
        Self::default_node()
    }
}

impl Default for HtreeNodeReadonly {
    /// Height zero, nil key, the empty reference as hkey.
    fn default() -> (r: Self)
        ensures
            r.key == 0,
            r.height == 0,
            r.hkey@ == Seq::<u8>::empty(),
            r.nil_hkey,
    {
        HtreeNodeReadonly { key: 0, height: 0, hkey: Vec::new(), nil_hkey: true }
    }
}

impl Default for HtreeNodeWritable {
    /// No state.
    fn default() -> (r: Self)
        ensures
            r is Empty,
    {
        HtreeNodeWritable::Empty
    }
}

/// The nodes `a` and `b` have the same hkeys, place by place.
pub open spec fn same_hkeys(a: Seq<HtreeNode>, b: Seq<HtreeNode>) -> bool {
    &&& a.len() == b.len()
    &&& forall|i: int| 0 <= i < a.len() ==> (#[trigger] a[i]).nil_hkey == b[i].nil_hkey && a[i].hkey@ == b[i].hkey@
}

/// Whether `a` and `b` have the same hkeys, place by place.
fn nodes_equal(a: &Vec<HtreeNode>, b: &Vec<HtreeNode>) -> (r: bool)
    ensures
        r == same_hkeys(a@, b@),
{
    if a.len() != b.len() {
        return false;
    }
    let mut i: usize = 0;
    while i < a.len()
        invariant
            i <= a@.len(),
            a@.len() == b@.len(),
            forall|j: int| 0 <= j < i ==> (#[trigger] a@[j]).nil_hkey == b@[j].nil_hkey && a@[j].hkey@ == b@[j].hkey@,
        decreases a@.len() - i,
    {
        if a[i].nil_hkey != b[i].nil_hkey || !bytes_equal(&a[i].hkey, &b[i].hkey) {
            return false;
        }
        i += 1;
    }
    true
}

impl PartialEq for HtreeNodeWritable {
    /// Two states are equal when they hold children with the same hkeys (no children
    /// counting as the empty state), or are both leaves, or both unresolved.
    fn eq(&self, other: &Self) -> (r: bool) {
        match (self, other) {
            (HtreeNodeWritable::Empty, HtreeNodeWritable::Empty) => true,
            (HtreeNodeWritable::Empty, HtreeNodeWritable::Internal { children }) => children.len() == 0,
            (HtreeNodeWritable::Internal { children }, HtreeNodeWritable::Empty) => children.len() == 0,
            (HtreeNodeWritable::Internal { children: a }, HtreeNodeWritable::Internal { children: b }) => nodes_equal(&**a, &**b),
            (HtreeNodeWritable::Leaf, HtreeNodeWritable::Leaf) => true,
            (HtreeNodeWritable::Wrapped, HtreeNodeWritable::Wrapped) => true,
            _ => false,
        }
    }
}

impl PartialEqSpecImpl for HtreeNodeWritable {
    open spec fn obeys_eq_spec() -> bool {
        true
    }

    open spec fn eq_spec(&self, other: &Self) -> bool {
        match (self, other) {
            (HtreeNodeWritable::Empty, HtreeNodeWritable::Empty) => true,
            (HtreeNodeWritable::Empty, HtreeNodeWritable::Internal { children }) => children@.len() == 0,
            (HtreeNodeWritable::Internal { children }, HtreeNodeWritable::Empty) => children@.len() == 0,
            (HtreeNodeWritable::Internal { children: a }, HtreeNodeWritable::Internal { children: b }) => same_hkeys(a@, b@),
            (HtreeNodeWritable::Leaf, HtreeNodeWritable::Leaf) => true,
            (HtreeNodeWritable::Wrapped, HtreeNodeWritable::Wrapped) => true,
            _ => false,
        }
    }
}

impl PartialEq for HtreeNode {
    /// Two nodes are equal when their hkeys are: the hkey identifies a node's content.
    fn eq(&self, other: &Self) -> (r: bool) {
        self.nil_hkey == other.nil_hkey && bytes_equal(&self.hkey, &other.hkey)
    }
}

impl PartialEqSpecImpl for HtreeNode {
    open spec fn obeys_eq_spec() -> bool {
        true
    }

    open spec fn eq_spec(&self, other: &Self) -> bool {
        self.nil_hkey == other.nil_hkey && self.hkey@ == other.hkey@
    }
}

} // verus!

verus! {

/// `ps` are parents over `input` (in any order): their children, concatenated, are the
/// nodes of `input` sorted by key and then hkey, at most `MAX_CHILDREN` per parent, and a
/// key that two neighbouring parents share is the only key either holds.
pub open spec fn parents_of(ps: Seq<NodeModel>, input: Seq<NodeModel>) -> bool {
    let gs = ps.map_values(|p: NodeModel| children_of(p));
    &&& forall|t: int| 0 <= t < ps.len() ==> (#[trigger] ps[t]).state is Internal
        && ps[t] == parent_model(children_of(ps[t])) && ps[t].hkey.len() <= crate::store::MAX_COMPACT_HKEY
    &&& flatten(gs).to_multiset() == input.to_multiset()
    &&& nodes_sorted(flatten(gs))
    &&& sizes_ok(gs)
    &&& boundary_ok(gs)
}

/// What building parents over `input` gives, apart from the store's part.
pub open spec fn parents_result(input: Seq<NodeModel>, r: Result<Vec<HtreeNode>, HtreeNodeFromChildrenError>) -> bool {
    if input.len() == 0 {
        r matches Ok(ps) && ps@.len() == 0
    } else if !same_height(input) {
        r matches Err(HtreeNodeFromChildrenError::ChildHeightInconsistent)
    } else if input[0].height == 255 {
        r matches Err(HtreeNodeFromChildrenError::HeightOverflow)
    } else if !hkeys_fit(input) {
        r matches Err(HtreeNodeFromChildrenError::IntConv)
    } else {
        match r {
            Ok(ps) => parents_of(view_nodes(ps@), input) && (input.len() <= MAX_CHILDREN ==> ps@.len() == 1),
            Err(e) => e is Store,
        }
    }
}

/// Checks what every parent needs of the children: one height, below the largest, and
/// hkeys whose lengths fit in a byte.
fn check_children(children: &Vec<HtreeNode>) -> (r: Option<HtreeNodeFromChildrenError>)
    requires
        children@.len() > 0,
    ensures
        match r {
            None => same_height(view_nodes(children@)) && view_nodes(children@)[0].height != 255
                && hkeys_fit(view_nodes(children@)),
            Some(e) => if !same_height(view_nodes(children@)) {
                e is ChildHeightInconsistent
            } else if view_nodes(children@)[0].height == 255 {
                e is HeightOverflow
            } else {
                !hkeys_fit(view_nodes(children@)) && e is IntConv
            },
        },
{
    let ghost cs = view_nodes(children@);
    proof { lemma_view_nodes(children@); }
    let height = children[0].height;
    let mut i: usize = 0;
    while i < children.len()
        invariant
            i <= children@.len(),
            cs == view_nodes(children@),
            cs.len() == children@.len(),
            height == cs[0].height,
            forall|j: int| 0 <= j < cs.len() ==> #[trigger] cs[j] == children@[j]@,
            forall|j: int| 0 <= j < i ==> (#[trigger] cs[j]).height == height,
        decreases children@.len() - i,
    {
        if children[i].height != height {
            assert(cs[i as int].height != cs[0].height);
            return Some(HtreeNodeFromChildrenError::ChildHeightInconsistent);
        }
        i += 1;
    }
    assert(same_height(cs));
    if height == 255 {
        return Some(HtreeNodeFromChildrenError::HeightOverflow);
    }
    let mut i: usize = 0;
    while i < children.len()
        invariant
            i <= children@.len(),
            cs == view_nodes(children@),
            cs.len() == children@.len(),
            forall|j: int| 0 <= j < cs.len() ==> #[trigger] cs[j] == children@[j]@,
            forall|j: int| 0 <= j < i ==> (#[trigger] cs[j]).hkey.len() <= 255,
            same_height(cs),
            cs[0].height != 255,
        decreases children@.len() - i,
    {
        if children[i].hkey.len() > 255 {
            assert(cs[i as int].hkey.len() > 255);
            return Some(HtreeNodeFromChildrenError::IntConv);
        }
        i += 1;
    }
    None
}

impl HtreeNode {
    /// Builds parent nodes over `children`, which may come in any order.
    ///
    /// The children are sorted by key and then hkey and split into groups of at most
    /// `MAX_CHILDREN`; children with the same key are kept together in one parent unless
    /// there are more of them than one parent holds, in which case they fill parents of
    /// their own. No children give no parents.
    pub fn from_many_children(children: Vec<HtreeNode>, store: &InMemoryStore) -> (r: Result<Vec<HtreeNode>, HtreeNodeFromChildrenError>)
        ensures
            parents_result(view_nodes(children@), r),
            r matches Ok(ps) ==> ps@.len() <= children@.len(),
            children@.len() >= 2 ==> (r matches Ok(ps) ==> ps@.len() < children@.len()),
            r matches Ok(ps) ==> crate::model::keys_nondecreasing(view_nodes(ps@)),
    {
        let ghost input = view_nodes(children@);
        proof { lemma_view_nodes(children@); }
        if children.len() == 0 {
            return Ok(Vec::new());
        }
        if let Some(err) = check_children(&children) {
            return Err(err);
        }
        if children.len() <= MAX_CHILDREN {
            let parent = match Self::from_children(children, store) {
                Ok(p) => p,
                Err(e) => return Err(e),
            };
            let mut out: Vec<HtreeNode> = Vec::new();
            out.push(parent);
            proof {
                lemma_view_nodes(out@);
                let ps = view_nodes(out@);
                let gs = ps.map_values(|p: NodeModel| children_of(p));
                assert(gs =~= seq![children_of(ps[0])]);
                lemma_flatten_single(children_of(ps[0]));
                lemma_perm_contains(children_of(ps[0]), input);
                assert(gs[0] == children_of(ps[0]));
            }
            return Ok(out);
        }
        let sorted = sort_nodes(children);
        let ghost sv = view_nodes(sorted@);
        proof {
            lemma_view_nodes(sorted@);
            lemma_perm_conditions(sv, input);
            crate::model::lemma_nodes_sorted_keys(sv);
        }
        let groups = group_sorted(sorted);
        let ghost gv = groups_view(groups@);
        proof {
            crate::group::lemma_big_fewer(gv);
            assert(gv.len() < input.len());
        }
        let mut out: Vec<HtreeNode> = Vec::new();
        let mut groups = groups;
        let mut rev: Vec<Vec<HtreeNode>> = Vec::new();
        while groups.len() > 0
            invariant
                rev@.len() + groups@.len() == gv.len(),
                forall|t: int| 0 <= t < groups@.len() ==> view_nodes((#[trigger] groups@[t])@) == gv[t],
                forall|k: int| 0 <= k < rev@.len() ==> view_nodes((#[trigger] rev@[k])@) == gv[gv.len() - 1 - k],
            decreases groups@.len(),
        {
            let g = groups.pop().unwrap();
            rev.push(g);
        }
        let ghost mut t: int = 0;
        while rev.len() > 0
            invariant
                0 <= t <= gv.len(),
                rev@.len() == gv.len() - t,
                forall|k: int| 0 <= k < rev@.len() ==> view_nodes((#[trigger] rev@[k])@) == gv[gv.len() - 1 - k],
                out@.len() == t,
                forall|u: int| 0 <= u < t ==> (#[trigger] view_nodes(out@)[u]) == parent_model(gv[u])
                    && view_nodes(out@)[u].hkey.len() <= crate::store::MAX_COMPACT_HKEY,
                flatten(gv) == sv,
                sizes_ok(gv),
                input.len() > MAX_CHILDREN,
                input == view_nodes(children@),
                same_height(input),
                input[0].height != 255,
                hkeys_fit(input),
                same_height(sv),
                sv[0].height != 255,
                hkeys_fit(sv),
            decreases rev@.len(),
        {
            let g = rev.pop().unwrap();
            let ghost g_view = view_nodes(g@);
            proof {
                assert(g_view == gv[t]);
                assert forall|k: int| 0 <= k < rev@.len() implies view_nodes((#[trigger] rev@[k])@) == gv[gv.len() - 1 - k] by {
                    assert(rev@[k] == old_elem(rev@, k));
                }
                lemma_group_members(gv, t);
                assert(g_view.len() > 0);
                assert(same_height(g_view) && g_view[0].height != 255 && hkeys_fit(g_view)) by {
                    assert(sv.contains(g_view[0]));
                    assert forall|i: int| 0 <= i < g_view.len() implies (#[trigger] g_view[i]).height == g_view[0].height by {
                        assert(sv.contains(g_view[i]));
                    }
                    assert forall|i: int| 0 <= i < g_view.len() implies (#[trigger] g_view[i]).hkey.len() <= 255 by {
                        assert(sv.contains(g_view[i]));
                    }
                }
            }
            let pr = Self::from_sorted_children(g, store);
            let parent = match pr {
                Ok(p) => p,
                Err(e) => {
                    assert(parent_result(g_view, Err(e)));
                    assert(e is Store);
                    assert(input.len() > 0);
                    assert(same_height(input));
                    assert(hkeys_fit(input));
                    assert(input[0].height != 255);
                    let rr: Result<Vec<HtreeNode>, HtreeNodeFromChildrenError> = Err(e);
                    assert(parents_result(input, rr));
                    return rr;
                }
            };
            proof { lemma_view_nodes(out@); crate::node::lemma_view_nodes_push(out@, parent); }
            out.push(parent);
            proof {
                lemma_view_nodes(out@);
                t = t + 1;
            }
        }
        proof {
            lemma_view_nodes(out@);
            let ps = view_nodes(out@);
            let gs = ps.map_values(|p: NodeModel| children_of(p));
            assert(gs =~= gv);
        }
        proof {
            crate::merge::lemma_parents_sorted(view_nodes(out@), input);
        }
        Ok(out)
    }
}

spec fn old_elem(r: Seq<Vec<HtreeNode>>, k: int) -> Vec<HtreeNode> {
    r[k]
}

/// Every member of a group is a member of the flattened sequence.
pub proof fn lemma_group_members(gs: Seq<Seq<NodeModel>>, t: int)
    requires
        0 <= t < gs.len(),
    ensures
        forall|i: int| 0 <= i < gs[t].len() ==> flatten(gs).contains(#[trigger] gs[t][i]),
{
    assert forall|i: int| 0 <= i < gs[t].len() implies flatten(gs).contains(#[trigger] gs[t][i]) by {
        lemma_group_in_flatten(gs, t, i);
    }
}

} // verus!
