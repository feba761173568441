use vstd::prelude::*;

use crate::model::{LeafView, NodeModel, StateModel};

verus! {

/// The leaves whose keys are not in `ks`, in order.
pub open spec fn without_keys(ls: Seq<LeafView>, ks: Set<u128>) -> Seq<LeafView>
    decreases ls.len(),
{
    if ls.len() == 0 {
        Seq::empty()
    } else {
        let r = without_keys(ls.drop_last(), ks);
        if ks.contains(ls.last().0) {
            r
        } else {
            r.push(ls.last())
        }
    }
}

pub proof fn lemma_without_concat(a: Seq<LeafView>, b: Seq<LeafView>, ks: Set<u128>)
    ensures
        without_keys(a + b, ks) == without_keys(a, ks) + without_keys(b, ks),
    decreases b.len(),
{
    if b.len() == 0 {
        assert(a + b =~= a);
        assert(without_keys(a, ks) + without_keys(b, ks) =~= without_keys(a, ks));
    } else {
        lemma_without_concat(a, b.drop_last(), ks);
        assert((a + b).drop_last() =~= a + b.drop_last());
        assert((a + b).last() == b.last());
        if ks.contains(b.last().0) {
        } else {
            assert(without_keys(a + b, ks) =~= without_keys(a, ks) + without_keys(b, ks));
        }
    }
}

/// Two key sets that agree on the keys of `ls` remove the same leaves.
pub proof fn lemma_without_agree(ls: Seq<LeafView>, k1: Set<u128>, k2: Set<u128>)
    requires
        forall|i: int| 0 <= i < ls.len() ==> (k1.contains(#[trigger] ls[i].0) <==> k2.contains(ls[i].0)),
    ensures
        without_keys(ls, k1) == without_keys(ls, k2),
    decreases ls.len(),
{
    if ls.len() > 0 {
        let d = ls.drop_last();
        assert forall|i: int| 0 <= i < d.len() implies (k1.contains(#[trigger] d[i].0) <==> k2.contains(d[i].0)) by {
            assert(d[i] == ls[i]);
        }
        lemma_without_agree(d, k1, k2);
        assert(ls.last() == ls[ls.len() - 1]);
    }
}

/// When no key of `ls` is in `ks`, nothing is removed.
pub proof fn lemma_without_none(ls: Seq<LeafView>, ks: Set<u128>)
    requires
        forall|i: int| 0 <= i < ls.len() ==> !ks.contains(#[trigger] ls[i].0),
    ensures
        without_keys(ls, ks) == ls,
    decreases ls.len(),
{
    if ls.len() == 0 {
        assert(without_keys(ls, ks) =~= ls);
    } else {
        let d = ls.drop_last();
        assert forall|i: int| 0 <= i < d.len() implies !ks.contains(#[trigger] d[i].0) by {
            assert(d[i] == ls[i]);
        }
        lemma_without_none(d, ks);
        assert(ls.last() == ls[ls.len() - 1]);
        assert(d.push(ls.last()) =~= ls);
    }
}

/// When every key of `ls` is in `ks`, everything is removed.
pub proof fn lemma_without_all(ls: Seq<LeafView>, ks: Set<u128>)
    requires
        forall|i: int| 0 <= i < ls.len() ==> ks.contains(#[trigger] ls[i].0),
    ensures
        without_keys(ls, ks) == Seq::<LeafView>::empty(),
    decreases ls.len(),
{
    if ls.len() == 0 {
        assert(without_keys(ls, ks) =~= Seq::<LeafView>::empty());
    } else {
        let d = ls.drop_last();
        assert forall|i: int| 0 <= i < d.len() implies ks.contains(#[trigger] d[i].0) by {
            assert(d[i] == ls[i]);
        }
        lemma_without_all(d, ks);
        assert(ls.last() == ls[ls.len() - 1]);
    }
}

/// What is kept is a part of `ls` and holds no key of `ks`.
pub proof fn lemma_without_within(ls: Seq<LeafView>, ks: Set<u128>)
    ensures
        forall|i: int| 0 <= i < without_keys(ls, ks).len() ==> ls.contains(#[trigger] without_keys(ls, ks)[i])
            && !ks.contains(without_keys(ls, ks)[i].0),
    decreases ls.len(),
{
    if ls.len() > 0 {
        let d = ls.drop_last();
        lemma_without_within(d, ks);
        let w = without_keys(ls, ks);
        assert forall|i: int| 0 <= i < w.len() implies ls.contains(#[trigger] w[i]) && !ks.contains(w[i].0) by {
            if i < without_keys(d, ks).len() {
                assert(w[i] == without_keys(d, ks)[i]);
                let k = choose|k: int| 0 <= k < d.len() && d[k] == w[i];
                assert(ls[k] == w[i]);
            } else {
                assert(w[i] == ls.last());
                assert(ls[ls.len() - 1] == ls.last());
            }
        }
    }
}

/// A leaf is kept as often as it occurs in `ls`, unless its key is in `ks`.
pub proof fn lemma_without_count(ls: Seq<LeafView>, ks: Set<u128>, l: LeafView)
    ensures
        without_keys(ls, ks).to_multiset().count(l) == if ks.contains(l.0) { 0 } else { ls.to_multiset().count(l) },
    decreases ls.len(),
{
    broadcast use vstd::multiset::group_multiset_axioms;
    if ls.len() == 0 {
        crate::model::lemma_empty_to_multiset(ls);
        crate::model::lemma_empty_to_multiset(without_keys(ls, ks));
    } else {
        let d = ls.drop_last();
        lemma_without_count(d, ks, l);
        assert(ls =~= d.push(ls.last()));
        vstd::seq_lib::to_multiset_build(d, ls.last());
        if !ks.contains(ls.last().0) {
            vstd::seq_lib::to_multiset_build(without_keys(d, ks), ls.last());
        }
    }
}

/// Leaves that are the same up to order keep the same leaves up to order.
pub proof fn lemma_without_perm(a: Seq<LeafView>, b: Seq<LeafView>, ks: Set<u128>)
    requires
        a.to_multiset() == b.to_multiset(),
    ensures
        without_keys(a, ks).to_multiset() == without_keys(b, ks).to_multiset(),
{
    assert forall|l: LeafView| #[trigger] without_keys(a, ks).to_multiset().count(l) == without_keys(b, ks).to_multiset().count(l) by {
        lemma_without_count(a, ks, l);
        lemma_without_count(b, ks, l);
    }
    assert(without_keys(a, ks).to_multiset() =~= without_keys(b, ks).to_multiset());
}

/// Removing the same keys a second time removes nothing more.
pub proof fn lemma_without_twice(ls: Seq<LeafView>, ks: Set<u128>)
    ensures
        without_keys(without_keys(ls, ks), ks) == without_keys(ls, ks),
{
    lemma_without_within(ls, ks);
    lemma_without_none(without_keys(ls, ks), ks);
}

/// Every node of the subtree that has children has at most `MAX_CHILDREN` of them.
pub open spec fn bounded(m: NodeModel) -> bool
    decreases m,
{
    match m.state {
        StateModel::Internal(cs) => cs.len() <= crate::MAX_CHILDREN && forall|i: int|
            0 <= i < cs.len() ==> bounded(#[trigger] cs[i]),
        _ => true,
    }
}

/// The keys of `v` strictly increase.
pub open spec fn strictly_sorted(v: Seq<u128>) -> bool {
    forall|i: int, j: int| 0 <= i < j < v.len() ==> v[i] < v[j]
}

/// The keys of `v`, sorted, each once.
pub fn sort_dedup(v: &[u128]) -> (r: Vec<u128>)
    ensures
        strictly_sorted(r@),
        r@.to_set() == v@.to_set(),
{
    let mut r: Vec<u128> = Vec::new();
    let mut i: usize = 0;
    while i < v.len()
        invariant
            i <= v@.len(),
            strictly_sorted(r@),
            r@.to_set() == v@.subrange(0, i as int).to_set(),
        decreases v@.len() - i,
    {
        let x = v[i];
        let mut p: usize = 0;
        while p < r.len() && r[p] < x
            invariant
                p <= r@.len(),
                forall|q: int| 0 <= q < p ==> r@[q] < x,
            decreases r@.len() - p,
        {
            p += 1;
        }
        let ghost before = r@;
        if p < r.len() && r[p] == x {
            proof {
                assert(v@.subrange(0, i + 1) =~= v@.subrange(0, i as int).push(x));
                assert(v@.subrange(0, i + 1).to_set() =~= v@.subrange(0, i as int).to_set().insert(x)) by {
                    v@.subrange(0, i as int).lemma_push_to_set_commute(x);
                }
                assert(r@.contains(x));
                assert(r@.to_set().insert(x) =~= r@.to_set());
            }
        } else {
            r.insert(p, x);
            proof {
                before.insert_ensures(p as int, x);
                assert(r@ == before.insert(p as int, x));
                assert forall|a: int, b: int| 0 <= a < b < r@.len() implies r@[a] < r@[b] by {
                    if b < p {
                        assert(r@[a] == before[a] && r@[b] == before[b]);
                    } else if b == p {
                        assert(r@[a] == before[a]);
                    } else if a == p {
                        assert(r@[b] == before[b - 1]);
                        if b - 1 > p {
                            assert(before[p as int] < before[b - 1]);
                        }
                        assert(before[p as int] != x);
                        assert(!(before[p as int] < x));
                    } else if a < p {
                        assert(r@[a] == before[a] && r@[b] == before[b - 1]);
                    } else {
                        assert(r@[a] == before[a - 1] && r@[b] == before[b - 1]);
                    }
                }
                assert(v@.subrange(0, i + 1) =~= v@.subrange(0, i as int).push(x));
                v@.subrange(0, i as int).lemma_push_to_set_commute(x);
                assert(r@.to_set() =~= before.to_set().insert(x)) by {
                    assert forall|y: u128| r@.contains(y) <==> before.contains(y) || y == x by {
                        if r@.contains(y) {
                            let k = choose|k: int| 0 <= k < r@.len() && r@[k] == y;
                            if k < p {
                                assert(before[k] == y);
                            } else if k > p {
                                assert(before[k - 1] == y);
                            }
                        }
                        if before.contains(y) {
                            let k = choose|k: int| 0 <= k < before.len() && before[k] == y;
                            if k < p {
                                assert(r@[k] == y);
                            } else {
                                assert(r@[k + 1] == y);
                            }
                        }
                        if y == x {
                            assert(r@[p as int] == x);
                        }
                    }
                }
            }
        }
        i += 1;
    }
    assert(v@.subrange(0, i as int) =~= v@);
    r
}

/// The keys `keys[lo..hi]`.
pub open spec fn key_range(keys: Seq<u128>, lo: int, hi: int) -> Set<u128> {
    Set::new(|k: u128| exists|q: int| lo <= q < hi && keys[q] == k)
}

/// Whether `k` is among `keys[lo..hi]`, which strictly increase.
pub fn contains_sorted(keys: &Vec<u128>, lo: usize, hi: usize, k: u128) -> (r: bool)
    requires
        lo <= hi <= keys@.len(),
        strictly_sorted(keys@),
    ensures
        r == key_range(keys@, lo as int, hi as int).contains(k),
{
    let mut a = lo;
    let mut b = hi;
    while a < b
        invariant
            lo <= a <= b <= hi,
            hi <= keys@.len(),
            strictly_sorted(keys@),
            forall|q: int| lo <= q < a ==> keys@[q] < k,
            forall|q: int| b <= q < hi ==> keys@[q] > k,
        decreases b - a,
    {
        let mid = a + (b - a) / 2;
        if keys[mid] == k {
            assert(lo <= mid < hi && keys@[mid as int] == k);
            return true;
        } else if keys[mid] < k {
            a = mid + 1;
        } else {
            b = mid;
        }
    }
    proof {
        if key_range(keys@, lo as int, hi as int).contains(k) {
            let q = choose|q: int| lo <= q < hi && keys@[q] == k;
            assert(keys@[q] == k);
        }
    }
    false
}

} // verus!
