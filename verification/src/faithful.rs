use vstd::prelude::*;

use crate::codec::{encode_entries, entries_of, lemma_parse_encode};
use crate::construct::children_bytes;
use crate::model::{leaves_seq, LeafView, NodeModel, StateModel};
use crate::store::stored_hkey;

verus! {

/// Every node of the subtree above the leaves is held in memory with its children, under
/// the reference to its stored children, and its children sit one level lower and are not
/// empty.
pub open spec fn faithful(m: NodeModel) -> bool
    decreases m,
{
    &&& m.height > 0 ==> m.state is Internal
    &&& match m.state {
        StateModel::Internal(cs) => {
            &&& m.height > 0
            &&& cs.len() > 0
            &&& m.hkey == stored_hkey(children_bytes(cs))
            &&& forall|i: int| 0 <= i < cs.len() ==> {
                &&& (#[trigger] cs[i]).height + 1 == m.height
                &&& !cs[i].is_empty()
                &&& cs[i].hkey.len() <= 255
                &&& faithful(cs[i])
            }
        },
        _ => true,
    }
}

/// The store files distinct contents under distinct references.
pub open spec fn references_distinct() -> bool {
    forall|a: Seq<u8>, b: Seq<u8>| #[trigger] stored_hkey(a) == #[trigger] stored_hkey(b) ==> a == b
}

/// Sequences of nodes whose nodes hold the same leaves, place by place, hold the same
/// leaves.
pub proof fn lemma_leaves_seq_pointwise(a: Seq<NodeModel>, b: Seq<NodeModel>)
    requires
        a.len() == b.len(),
        forall|i: int| 0 <= i < a.len() ==> (#[trigger] a[i]).leaves() == b[i].leaves(),
    ensures
        leaves_seq(a) == leaves_seq(b),
    decreases a.len(),
{
    if a.len() > 0 {
        let ra = a.subrange(1, a.len() as int);
        let rb = b.subrange(1, b.len() as int);
        assert forall|i: int| 0 <= i < ra.len() implies (#[trigger] ra[i]).leaves() == rb[i].leaves() by {
            assert(ra[i] == a[i + 1] && rb[i] == b[i + 1]);
        }
        lemma_leaves_seq_pointwise(ra, rb);
        assert(a[0].leaves() == b[0].leaves());
    }
}

/// The records of children fix the children's keys and hkeys.
proof fn lemma_entries_equal(a: Seq<NodeModel>, b: Seq<NodeModel>)
    requires
        forall|i: int| 0 <= i < a.len() ==> (#[trigger] a[i]).hkey.len() <= 255,
        forall|i: int| 0 <= i < b.len() ==> (#[trigger] b[i]).hkey.len() <= 255,
        encode_entries(entries_of(a)) == encode_entries(entries_of(b)),
    ensures
        a.len() == b.len(),
        forall|i: int| 0 <= i < a.len() ==> (#[trigger] a[i]).key == b[i].key && a[i].hkey == b[i].hkey,
{
    let ea = entries_of(a);
    let eb = entries_of(b);
    assert forall|i: int| 0 <= i < ea.len() implies (#[trigger] ea[i]).1.len() <= 255 by {
        assert(ea[i].1 == a[i].hkey);
    }
    assert forall|i: int| 0 <= i < eb.len() implies (#[trigger] eb[i]).1.len() <= 255 by {
        assert(eb[i].1 == b[i].hkey);
    }
    lemma_parse_encode(ea);
    lemma_parse_encode(eb);
    assert(ea == eb);
    assert forall|i: int| 0 <= i < a.len() implies (#[trigger] a[i]).key == b[i].key && a[i].hkey == b[i].hkey by {
        assert(ea[i] == (a[i].key, a[i].hkey));
        assert(eb[i] == (b[i].key, b[i].hkey));
    }
}

/// Where references are distinct, two faithful internal nodes under one reference have
/// the same height and hold the same leaves.
pub proof fn lemma_same_reference(x: NodeModel, y: NodeModel)
    requires
        references_distinct(),
        faithful(x),
        faithful(y),
        x.state is Internal,
        y.state is Internal,
        x.hkey == y.hkey,
    ensures
        x.height == y.height,
        x.leaves() == y.leaves(),
    decreases x,
{
    let cx = x.state->Internal_0;
    let cy = y.state->Internal_0;
    assert(stored_hkey(children_bytes(cx)) == stored_hkey(children_bytes(cy)));
    assert(children_bytes(cx) == children_bytes(cy));
    let bx = children_bytes(cx);
    let by = children_bytes(cy);
    assert(bx[0] == (cx[0].height + 1) as u8);
    assert(by[0] == (cy[0].height + 1) as u8);
    assert(x.height == y.height);
    assert(bx.subrange(1, bx.len() as int) =~= encode_entries(entries_of(cx)));
    assert(by.subrange(1, by.len() as int) =~= encode_entries(entries_of(cy)));
    lemma_entries_equal(cx, cy);
    assert forall|i: int| 0 <= i < cx.len() implies (#[trigger] cx[i]).leaves() == cy[i].leaves() by {
        let a = cx[i];
        let b = cy[i];
        assert(a.height == b.height);
        if a.height == 0 {
            assert(!a.is_empty() && !b.is_empty());
            assert(a.leaves() == seq![(a.key, a.hkey)]);
            assert(b.leaves() == seq![(b.key, b.hkey)]);
        } else {
            assert(decreases_to!(x => x.state));
            assert(decreases_to!(x.state => cx));
            assert(decreases_to!(cx => cx[i]));
            lemma_same_reference(a, b);
        }
    }
    lemma_leaves_seq_pointwise(cx, cy);
}

} // verus!
