use vstd::prelude::*;

verus! {

/// A leaf as the specifications see it: its key and the compact form of its hkey.
pub type LeafView = (u128, Seq<u8>);

/// The mathematical model of a node's writable state.
pub enum StateModel {
    Empty,
    Internal(Seq<NodeModel>),
    Leaf,
    Wrapped,
}

/// The mathematical model of a node.
pub struct NodeModel {
    pub key: u128,
    pub height: u8,
    pub hkey: Seq<u8>,
    pub nil_hkey: bool,
    pub state: StateModel,
}

impl NodeModel {
    /// The node is structurally equal to the default node.
    pub open spec fn is_empty(self) -> bool {
        self.height == 0 && self.key == 0 && self.nil_hkey
    }

    /// The leaves held by the subtree, left to right.
    pub open spec fn leaves(self) -> Seq<LeafView>
        decreases self,
    {
        if self.is_empty() {
            Seq::empty()
        } else if self.height == 0 {
            seq![(self.key, self.hkey)]
        } else {
            match self.state {
                StateModel::Internal(children) => leaves_seq(children),
                _ => Seq::empty(),
            }
        }
    }

    /// Every node of the subtree is held in memory and the subtree keeps the
    /// ordering invariants that searching relies on.
    pub open spec fn valid(self) -> bool
        decreases self,
    {
        if self.height == 0 {
            self.state is Leaf || self.state is Empty
        } else {
            match self.state {
                StateModel::Internal(children) => {
                    &&& children.len() > 0
                    &&& self.key == children[0].key
                    &&& keys_nondecreasing(children)
                    &&& separated(children)
                    &&& hkeys_fit(children)
                    &&& forall|i: int|
                        0 <= i < children.len() ==> {
                            &&& (#[trigger] children[i]).height + 1 == self.height
                            &&& children[i].valid()
                            &&& children[i].leaves().len() > 0
                            &&& children[i].key == children[i].leaves()[0].0
                        }
                },
                _ => false,
            }
        }
    }

    /// The largest key held by the subtree (meaningful when it holds a leaf).
    pub open spec fn max_key(self) -> u128 {
        self.leaves().last().0
    }

    /// Every leaf of the subtree has the node's key.
    pub open spec fn pure(self) -> bool {
        self.max_key() == self.key
    }

    /// The node's leaves, plus the promise that it holds at least one and starts at its key.
    pub open spec fn nonempty_at_key(self) -> bool {
        self.leaves().len() > 0 && self.key == self.leaves()[0].0
    }
}

/// Two siblings do not interleave: one ends before the other starts, or both hold
/// only one and the same key.
pub open spec fn sep(a: NodeModel, b: NodeModel) -> bool {
    ||| a.max_key() < b.key
    ||| b.max_key() < a.key
    ||| (a.key == b.key && a.pure() && b.pure())
}

/// Distinct siblings never interleave.
pub open spec fn separated(s: Seq<NodeModel>) -> bool {
    forall|i: int, j: int| 0 <= i < s.len() && 0 <= j < s.len() && i != j ==> sep(#[trigger] s[i], #[trigger] s[j])
}

/// Every hkey's length fits in one byte.
pub open spec fn hkeys_fit(cs: Seq<NodeModel>) -> bool {
    forall|i: int| 0 <= i < cs.len() ==> (#[trigger] cs[i]).hkey.len() <= 255
}

/// The keys of the nodes never decrease along the sequence.
pub open spec fn keys_nondecreasing(s: Seq<NodeModel>) -> bool {
    forall|i: int, j: int| 0 <= i <= j < s.len() ==> (#[trigger] s[i]).key <= (#[trigger] s[j]).key
}

/// The leaves of a sequence of nodes, concatenated in order.
pub open spec fn leaves_seq(nodes: Seq<NodeModel>) -> Seq<LeafView>
    decreases nodes,
{
    if nodes.len() == 0 {
        Seq::empty()
    } else {
        nodes[0].leaves() + leaves_seq(nodes.subrange(1, nodes.len() as int))
    }
}

/// Keys never decrease along the sequence.
pub open spec fn keys_sorted(ls: Seq<LeafView>) -> bool {
    forall|i: int, j: int| 0 <= i <= j < ls.len() ==> ls[i].0 <= ls[j].0
}

} // verus!

verus! {

/// `a` comes strictly before `b` in lexicographic byte order.
pub open spec fn lex_lt(a: Seq<u8>, b: Seq<u8>) -> bool
    decreases a.len(),
{
    if a.len() == 0 {
        b.len() > 0
    } else if b.len() == 0 {
        false
    } else if a[0] != b[0] {
        a[0] < b[0]
    } else {
        lex_lt(a.drop_first(), b.drop_first())
    }
}

/// The rank of the kind of reference a node's hkey is, in the order in which the store's
/// references are ordered: the empty reference, inline bytes, one hash, a hash and a key,
/// then a list reference.
#[verifier::opaque]
pub open spec fn hkey_rank(m: NodeModel) -> nat {
    if m.nil_hkey {
        0
    } else if m.hkey.len() == 42 {
        2
    } else if m.hkey.len() == 84 {
        if m.hkey[0] % 2 == 0 { 3 } else { 4 }
    } else {
        1
    }
}

/// The order in which siblings are kept: by key, then by the kind of reference of the
/// hkey, then by the hkey's bytes.
pub open spec fn node_lt(a: NodeModel, b: NodeModel) -> bool {
    ||| a.key < b.key
    ||| a.key == b.key && hkey_rank(a) < hkey_rank(b)
    ||| a.key == b.key && hkey_rank(a) == hkey_rank(b) && lex_lt(a.hkey, b.hkey)
}

/// No node of the sequence comes strictly before an earlier one.
pub open spec fn nodes_sorted(s: Seq<NodeModel>) -> bool {
    forall|i: int, j: int| 0 <= i < j < s.len() ==> !node_lt(s[j], s[i])
}

pub proof fn lemma_lex_irreflexive(a: Seq<u8>)
    ensures
        !lex_lt(a, a),
    decreases a.len(),
{
    if a.len() > 0 {
        lemma_lex_irreflexive(a.drop_first());
    }
}

pub proof fn lemma_lex_transitive(a: Seq<u8>, b: Seq<u8>, c: Seq<u8>)
    requires
        lex_lt(a, b),
        lex_lt(b, c),
    ensures
        lex_lt(a, c),
    decreases a.len(),
{
    if a.len() > 0 && b.len() > 0 && c.len() > 0 && a[0] == b[0] && b[0] == c[0] {
        lemma_lex_transitive(a.drop_first(), b.drop_first(), c.drop_first());
    }
}

pub proof fn lemma_lex_total(a: Seq<u8>, b: Seq<u8>)
    ensures
        lex_lt(a, b) || lex_lt(b, a) || a == b,
    decreases a.len(),
{
    if a.len() > 0 && b.len() > 0 && a[0] == b[0] {
        lemma_lex_total(a.drop_first(), b.drop_first());
        if a.drop_first() == b.drop_first() {
            assert(a =~= seq![a[0]] + a.drop_first());
            assert(b =~= seq![b[0]] + b.drop_first());
        }
    } else if a.len() == 0 && b.len() == 0 {
        assert(a =~= b);
    }
}

pub proof fn lemma_node_lt_transitive(a: NodeModel, b: NodeModel, c: NodeModel)
    requires
        node_lt(a, b),
        node_lt(b, c),
    ensures
        node_lt(a, c),
{
    if a.key == b.key && b.key == c.key && hkey_rank(a) == hkey_rank(b) && hkey_rank(b) == hkey_rank(c) {
        lemma_lex_transitive(a.hkey, b.hkey, c.hkey);
    }
}

pub proof fn lemma_node_lt_irreflexive(a: NodeModel)
    ensures
        !node_lt(a, a),
{
    lemma_lex_irreflexive(a.hkey);
}

} // verus!

verus! {

pub proof fn lemma_leaves_seq_concat(a: Seq<NodeModel>, b: Seq<NodeModel>)
    ensures
        leaves_seq(a + b) == leaves_seq(a) + leaves_seq(b),
    decreases a.len(),
{
    if a.len() == 0 {
        assert(a + b =~= b);
    } else {
        let rest = a.subrange(1, a.len() as int);
        lemma_leaves_seq_concat(rest, b);
        assert((a + b).subrange(1, (a + b).len() as int) =~= rest + b);
        assert((a + b)[0] == a[0]);
    }
}

pub proof fn lemma_leaves_seq_single(x: NodeModel)
    ensures
        leaves_seq(seq![x]) == x.leaves(),
{
    assert(seq![x].subrange(1, 1) =~= Seq::<NodeModel>::empty());
    assert(leaves_seq(Seq::<NodeModel>::empty()) == Seq::<LeafView>::empty());
    assert(x.leaves() + Seq::<LeafView>::empty() =~= x.leaves());
}

pub proof fn lemma_leaves_seq_push(s: Seq<NodeModel>, x: NodeModel)
    ensures
        leaves_seq(s.push(x)) == leaves_seq(s) + x.leaves(),
{
    assert(s.push(x) =~= s + seq![x]);
    lemma_leaves_seq_concat(s, seq![x]);
    lemma_leaves_seq_single(x);
}

} // verus!

verus! {

/// Every leaf of the sequence has a key of at least `b`.
pub open spec fn all_ge(ls: Seq<LeafView>, b: u128) -> bool {
    forall|k: int| 0 <= k < ls.len() ==> (#[trigger] ls[k]).0 >= b
}

pub proof fn lemma_leaves_seq_ge(s: Seq<NodeModel>, b: u128)
    requires
        forall|j: int| 0 <= j < s.len() ==> all_ge((#[trigger] s[j]).leaves(), b),
    ensures
        all_ge(leaves_seq(s), b),
    decreases s.len(),
{
    if s.len() > 0 {
        let rest = s.subrange(1, s.len() as int);
        assert forall|j: int| 0 <= j < rest.len() implies all_ge((#[trigger] rest[j]).leaves(), b) by {
            assert(rest[j] == s[j + 1]);
        }
        lemma_leaves_seq_ge(rest, b);
        assert(all_ge(s[0].leaves(), b));
        let l = leaves_seq(s);
        assert(l == s[0].leaves() + leaves_seq(rest));
        assert forall|k: int| 0 <= k < l.len() implies (#[trigger] l[k]).0 >= b by {
            if k < s[0].leaves().len() {
                assert(l[k] == s[0].leaves()[k]);
            } else {
                assert(l[k] == leaves_seq(rest)[k - s[0].leaves().len()]);
            }
        }
    }
}

pub proof fn lemma_sorted_concat(a: Seq<LeafView>, b: Seq<LeafView>)
    requires
        keys_sorted(a),
        keys_sorted(b),
        forall|i: int, j: int| 0 <= i < a.len() && 0 <= j < b.len() ==> a[i].0 <= b[j].0,
    ensures
        keys_sorted(a + b),
{
    let c = a + b;
    assert forall|i: int, j: int| 0 <= i <= j < c.len() implies c[i].0 <= c[j].0 by {
        if j < a.len() {
            assert(c[i] == a[i] && c[j] == a[j]);
        } else if i >= a.len() {
            assert(c[i] == b[i - a.len()] && c[j] == b[j - a.len()]);
        } else {
            assert(c[i] == a[i] && c[j] == b[j - a.len()]);
        }
    }
}

/// Facts about one child that the ordering lemmas use.
pub open spec fn child_facts(c: NodeModel) -> bool {
    c.nonempty_at_key() && keys_sorted(c.leaves())
}

pub proof fn lemma_children_leaves(cs: Seq<NodeModel>)
    requires
        cs.len() > 0,
        keys_nondecreasing(cs),
        separated(cs),
        forall|i: int| 0 <= i < cs.len() ==> child_facts(#[trigger] cs[i]),
    ensures
        keys_sorted(leaves_seq(cs)),
        leaves_seq(cs).len() > 0,
        leaves_seq(cs)[0].0 == cs[0].key,
    decreases cs.len(),
{
    let c0 = cs[0];
    let rest = cs.subrange(1, cs.len() as int);
    assert(child_facts(c0));
    assert(leaves_seq(cs) == c0.leaves() + leaves_seq(rest));
    if rest.len() == 0 {
        assert(leaves_seq(rest) == Seq::<LeafView>::empty());
        assert(leaves_seq(cs) =~= c0.leaves());
    } else {
        assert forall|i: int, j: int| 0 <= i <= j < rest.len() implies (#[trigger] rest[i]).key <= (#[trigger] rest[j]).key by {
            assert(rest[i] == cs[i + 1] && rest[j] == cs[j + 1]);
        }
        assert forall|i: int, j: int| 0 <= i < rest.len() && 0 <= j < rest.len() && i != j implies sep(#[trigger] rest[i], #[trigger] rest[j]) by {
            assert(rest[i] == cs[i + 1] && rest[j] == cs[j + 1]);
        }
        assert forall|i: int| 0 <= i < rest.len() implies child_facts(#[trigger] rest[i]) by {
            assert(rest[i] == cs[i + 1]);
        }
        lemma_children_leaves(rest);
        let m0 = c0.max_key();
        let l0 = c0.leaves();
        assert forall|j: int| 0 <= j < rest.len() implies all_ge((#[trigger] rest[j]).leaves(), m0) by {
            let cj = rest[j];
            assert(cj == cs[j + 1]);
            assert(child_facts(cj));
            assert(sep(cs[0], cs[j + 1]));
            assert(c0.key <= cj.key);
            assert(cj.leaves().last().0 >= cj.key);
            assert(l0.last().0 >= c0.key);
            assert(cj.key >= m0);
            assert forall|k: int| 0 <= k < cj.leaves().len() implies (#[trigger] cj.leaves()[k]).0 >= m0 by {
                assert(cj.leaves()[0].0 <= cj.leaves()[k].0);
            }
        }
        lemma_leaves_seq_ge(rest, m0);
        assert forall|i: int, j: int| 0 <= i < l0.len() && 0 <= j < leaves_seq(rest).len() implies l0[i].0 <= leaves_seq(rest)[j].0 by {
            assert(l0[i].0 <= l0[l0.len() - 1].0);
        }
        lemma_sorted_concat(l0, leaves_seq(rest));
    }
}

pub proof fn lemma_valid_leaves(m: NodeModel)
    requires
        m.valid(),
    ensures
        keys_sorted(m.leaves()),
        m.height > 0 ==> m.nonempty_at_key(),
        m.leaves().len() > 0 ==> m.leaves()[0].0 == m.key,
    decreases m,
{
    if m.height > 0 {
        if let StateModel::Internal(cs) = m.state {
            assert forall|i: int| 0 <= i < cs.len() implies child_facts(#[trigger] cs[i]) by {
                lemma_valid_leaves(cs[i]);
            }
            lemma_children_leaves(cs);
        }
    }
}

} // verus!

verus! {

pub proof fn lemma_empty_to_multiset<A>(s: Seq<A>)
    requires
        s.len() == 0,
    ensures
        s.to_multiset() == vstd::multiset::Multiset::<A>::empty(),
{
    vstd::seq_lib::to_multiset_len(s);
    vstd::multiset::lemma_multiset_empty_len(s.to_multiset());
}

} // verus!

verus! {

pub proof fn lemma_nodes_sorted_keys(s: Seq<NodeModel>)
    requires
        nodes_sorted(s),
    ensures
        keys_nondecreasing(s),
{
    assert forall|i: int, j: int| 0 <= i <= j < s.len() implies (#[trigger] s[i]).key <= (#[trigger] s[j]).key by {
        if i < j {
            assert(!node_lt(s[j], s[i]));
        }
    }
}

} // verus!
