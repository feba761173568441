use vstd::prelude::*;

use crate::codec::{encode_entries, entries_of, lemma_parse_encode, parse_entries};
use crate::insert::holds_leaves;
use crate::lemmas::{good_child, has_key, lemma_leaves_seq_member};
use crate::model::{hkeys_fit, keys_sorted, leaves_seq, LeafView, NodeModel};
use crate::store::MAX_RAW_VALUE;
use crate::values::value_of_key;
use crate::key::HtreeKey;

verus! {

/// What a parent stores of its children reads back as the same records: after the
/// height byte, the records parse to the children's keys and hkeys, in order.
pub proof fn law_children_record_roundtrip(cs: Seq<NodeModel>, height: u8)
    requires
        hkeys_fit(cs),
    ensures
        (seq![height] + encode_entries(entries_of(cs)))[0] == height,
        parse_entries((seq![height] + encode_entries(entries_of(cs))).subrange(
            1,
            (seq![height] + encode_entries(entries_of(cs))).len() as int,
        )) == Some(entries_of(cs)),
{
    let es = entries_of(cs);
    assert forall|i: int| 0 <= i < es.len() implies (#[trigger] es[i]).1.len() <= 255 by {
        assert(es[i].1 == cs[i].hkey);
    }
    lemma_parse_encode(es);
    let b = seq![height] + encode_entries(es);
    assert(b.subrange(1, b.len() as int) =~= encode_entries(es));
}

/// A leaf that was inserted is found afterwards: some node of the result is a valid tree
/// holding a leaf with its key, so `find_one` on that node gives a leaf.
pub proof fn law_insert_then_find(ps: Seq<NodeModel>, h: u8, base: Seq<LeafView>, ins: Seq<LeafView>, l: LeafView)
    requires
        holds_leaves(ps, h, base + ins),
        ins.contains(l),
    ensures
        exists|t: int| 0 <= t < ps.len() && (#[trigger] ps[t]).valid() && has_key(ps[t].leaves(), l.0),
{
    let all = base + ins;
    let j = choose|j: int| 0 <= j < ins.len() && ins[j] == l;
    assert(all[base.len() + j] == l);
    vstd::seq_lib::to_multiset_contains(all, l);
    vstd::seq_lib::to_multiset_contains(leaves_seq(ps), l);
    let p = choose|p: int| 0 <= p < leaves_seq(ps).len() && leaves_seq(ps)[p] == l;
    lemma_leaves_seq_member(ps, p);
    let (t, q) = choose|t: int, q: int| 0 <= t < ps.len() && 0 <= q < ps[t].leaves().len() && leaves_seq(ps)[p] == #[trigger] ps[t].leaves()[q];
    assert(good_child(ps[t], h));
    assert(ps[t].leaves()[q].0 == l.0);
}

/// A value of at most `MAX_RAW_VALUE` bytes inserted under a key that the tree did not
/// hold is read back unchanged: whatever `find_one_value` gives for that key on a node of
/// the result is that value.
pub proof fn law_insert_then_read(ps: Seq<NodeModel>, h: u8, base: Seq<LeafView>, key: u128, value: Seq<u8>, t: int, v: Seq<u8>)
    requires
        holds_leaves(ps, h, base + seq![(key, value)]),
        !has_key(base, key),
        value.len() <= MAX_RAW_VALUE,
        0 <= t < ps.len(),
        value_of_key(ps[t], key, v),
    ensures
        v == value,
{
    let hk = choose|hk: Seq<u8>| #[trigger] ps[t].leaves().contains((key, hk)) && crate::store::value_read(hk, v);
    let all = base + seq![(key, value)];
    let q = choose|q: int| 0 <= q < ps[t].leaves().len() && ps[t].leaves()[q] == (key, hk);
    crate::lemmas::lemma_child_leaves_within(ps, t);
    assert(leaves_seq(ps).contains((key, hk)));
    vstd::seq_lib::to_multiset_contains(leaves_seq(ps), (key, hk));
    vstd::seq_lib::to_multiset_contains(all, (key, hk));
    let j = choose|j: int| 0 <= j < all.len() && all[j] == (key, hk);
    if j < base.len() {
        assert(all[j] == base[j]);
        assert(has_key(base, key));
    } else {
        assert(all[j] == (key, value));
    }
}

/// A valid tree holds its leaves in key order: walking it from the front gives its keys
/// from the smallest to the largest, and its first leaf carries the tree's own key.
pub proof fn law_leaves_in_key_order(m: NodeModel)
    requires
        m.valid(),
    ensures
        keys_sorted(m.leaves()),
        m.leaves().len() > 0 ==> m.leaves()[0].0 == m.key,
{
    crate::model::lemma_valid_leaves(m);
}

/// Popping the first leaf of a valid tree gives its smallest key: every leaf that remains
/// has a key at least as large, so repeated pops give the keys in order.
pub proof fn law_pop_first_smallest(m: NodeModel, p: crate::update::PopResult, i: int)
    requires
        m.valid(),
        crate::update::pop_spec(m, p, true),
        p.popped is Some,
        p.remaining is Some,
        0 <= i < p.remaining->Some_0@.leaves().len(),
    ensures
        p.popped->Some_0@.key <= p.remaining->Some_0@.leaves()[i].0,
{
    broadcast use vstd::multiset::group_multiset_axioms;
    crate::model::lemma_valid_leaves(m);
    let ls = m.leaves();
    let t = p.remaining->Some_0@;
    let x = t.leaves()[i];
    vstd::seq_lib::to_multiset_contains(t.leaves(), x);
    assert(ls.drop_first().to_multiset().count(x) > 0);
    vstd::seq_lib::to_multiset_contains(ls.drop_first(), x);
    let j = choose|j: int| 0 <= j < ls.drop_first().len() && ls.drop_first()[j] == x;
    assert(ls[j + 1] == x);
    assert(ls[0].0 <= ls[j + 1].0);
}

/// Popping the last leaf of a valid tree gives its largest key: every leaf that remains
/// has a key at most as large.
pub proof fn law_pop_last_largest(m: NodeModel, p: crate::update::PopResult, i: int)
    requires
        m.valid(),
        crate::update::pop_spec(m, p, false),
        p.popped is Some,
        p.remaining is Some,
        0 <= i < p.remaining->Some_0@.leaves().len(),
    ensures
        p.remaining->Some_0@.leaves()[i].0 <= p.popped->Some_0@.key,
{
    broadcast use vstd::multiset::group_multiset_axioms;
    crate::model::lemma_valid_leaves(m);
    let ls = m.leaves();
    let t = p.remaining->Some_0@;
    let x = t.leaves()[i];
    vstd::seq_lib::to_multiset_contains(t.leaves(), x);
    assert(ls.drop_last().to_multiset().count(x) > 0);
    vstd::seq_lib::to_multiset_contains(ls.drop_last(), x);
    let j = choose|j: int| 0 <= j < ls.drop_last().len() && ls.drop_last()[j] == x;
    assert(ls[j] == x);
    assert(ls[j].0 <= ls[ls.len() - 1].0);
}

/// Deleting keys leaves every leaf whose key was not deleted as often as it was there.
pub proof fn law_delete_keeps_other_leaves(t: NodeModel, keys: Set<u128>, r: crate::node::HtreeNode, l: LeafView)
    requires
        t.valid(),
        crate::delete::delete_spec(t, keys, Ok(r)),
        !keys.contains(l.0),
    ensures
        r@.leaves().to_multiset().count(l) == t.leaves().to_multiset().count(l),
{
    crate::keys::lemma_without_count(t.leaves(), keys, l);
}

/// Draining a valid tree whose leaves are all held as leaf nodes hands out exactly its
/// leaves, in order.
pub proof fn law_drain_gives_leaves(m: NodeModel)
    requires
        m.valid(),
        crate::drain::leaf_states(m),
    ensures
        leaves_seq(crate::drain::drained(m)) == m.leaves(),
    decreases m,
{
    crate::drain::lemma_drained_leaves(m);
}

/// Flags that say, for each leaf, whether its key is not among `keys` keep exactly the
/// leaves that deleting `keys` keeps.
proof fn lemma_masked_without(ls: Seq<LeafView>, keep: Seq<bool>, keys: Set<u128>)
    requires
        keep.len() == ls.len(),
        forall|i: int| 0 <= i < ls.len() ==> keep[i] == !keys.contains(#[trigger] ls[i].0),
    ensures
        crate::retain::masked(ls, keep) == crate::keys::without_keys(ls, keys),
    decreases ls.len(),
{
    if ls.len() > 0 {
        let ld = ls.drop_last();
        let kd = keep.drop_last();
        assert forall|i: int| 0 <= i < ld.len() implies kd[i] == !keys.contains(#[trigger] ld[i].0) by {
            assert(ld[i] == ls[i] && kd[i] == keep[i]);
        }
        lemma_masked_without(ld, kd, keys);
        assert(keep.last() == !keys.contains(ls.last().0)) by {
            assert(ls.last() == ls[ls.len() - 1]);
        }
    }
}

/// Keeping the leaves whose keys are not among `keys`, with a predicate that answers
/// exactly that, keeps what deleting `keys` keeps.
pub proof fn law_retain_is_delete<F: Fn(u128, Vec<u8>) -> bool>(predicate: F, keys: Set<u128>, ls: Seq<LeafView>, out: Seq<LeafView>)
    requires
        forall|k: u128, v: Vec<u8>, b: bool| #[trigger] predicate.ensures((k, v), b) ==> b == !keys.contains(k),
        crate::retain::kept_by(predicate, ls, out),
    ensures
        out.to_multiset() == crate::keys::without_keys(ls, keys).to_multiset(),
{
    let keep = choose|keep: Seq<bool>| crate::retain::decided_by(predicate, ls, keep)
        && out.to_multiset() == #[trigger] crate::retain::masked(ls, keep).to_multiset();
    assert forall|i: int| 0 <= i < ls.len() implies keep[i] == !keys.contains(#[trigger] ls[i].0) by {
        assert(crate::retain::answered(predicate, ls[i], keep[i]));
        let v = choose|v: Vec<u8>| crate::store::value_read(ls[i].1, v@) && #[trigger] predicate.ensures((ls[i].0, v), keep[i]);
    }
    lemma_masked_without(ls, keep, keys);
}

/// How many leaves of `ls` have key `k`.
pub open spec fn key_count(ls: Seq<LeafView>, k: u128) -> nat
    decreases ls.len(),
{
    if ls.len() == 0 {
        0
    } else {
        key_count(ls.drop_last(), k) + (if ls.last().0 == k { 1nat } else { 0nat })
    }
}

proof fn lemma_without_one_len(ls: Seq<LeafView>, k: u128)
    ensures
        crate::keys::without_keys(ls, set![k]).len() + key_count(ls, k) == ls.len(),
    decreases ls.len(),
{
    if ls.len() > 0 {
        lemma_without_one_len(ls.drop_last(), k);
    }
}

/// Deleting a key held by exactly one leaf leaves one leaf fewer.
pub proof fn law_delete_one_count(t: NodeModel, key: u128, r: crate::node::HtreeNode)
    requires
        t.valid(),
        crate::delete::delete_spec(t, set![key], Ok(r)),
        key_count(t.leaves(), key) == 1,
    ensures
        r@.leaves().len() + 1 == t.leaves().len(),
{
    lemma_without_one_len(t.leaves(), key);
    vstd::seq_lib::to_multiset_len(r@.leaves());
    vstd::seq_lib::to_multiset_len(crate::keys::without_keys(t.leaves(), set![key]));
}

/// A `i8` key is its two's-complement bits widened to 128 bits: a value that is not
/// negative is itself, and a negative value `x` is `2^128 + x` (so `-1` is `u128::MAX`).
/// Widening the value to `i128` first gives the same key, and the conversion never fails.
pub proof fn law_i8_key(x: i8)
    ensures
        x.tree_key() as int == (if x >= 0 { x as int } else { x as int + 0x1_0000_0000_0000_0000_0000_0000_0000_0000int }),
        x.tree_key() == (x as i128).tree_key(),
        x.converts_directly(),
{
}

/// A `i16` key is its two's-complement bits widened to 128 bits: a value that is not
/// negative is itself, and a negative value `x` is `2^128 + x` (so `-1` is `u128::MAX`).
/// Widening the value to `i128` first gives the same key, and the conversion never fails.
pub proof fn law_i16_key(x: i16)
    ensures
        x.tree_key() as int == (if x >= 0 { x as int } else { x as int + 0x1_0000_0000_0000_0000_0000_0000_0000_0000int }),
        x.tree_key() == (x as i128).tree_key(),
        x.converts_directly(),
{
}

/// A `i32` key is its two's-complement bits widened to 128 bits: a value that is not
/// negative is itself, and a negative value `x` is `2^128 + x` (so `-1` is `u128::MAX`).
/// Widening the value to `i128` first gives the same key, and the conversion never fails.
pub proof fn law_i32_key(x: i32)
    ensures
        x.tree_key() as int == (if x >= 0 { x as int } else { x as int + 0x1_0000_0000_0000_0000_0000_0000_0000_0000int }),
        x.tree_key() == (x as i128).tree_key(),
        x.converts_directly(),
{
}

/// A `i64` key is its two's-complement bits widened to 128 bits: a value that is not
/// negative is itself, and a negative value `x` is `2^128 + x` (so `-1` is `u128::MAX`).
/// Widening the value to `i128` first gives the same key, and the conversion never fails.
pub proof fn law_i64_key(x: i64)
    ensures
        x.tree_key() as int == (if x >= 0 { x as int } else { x as int + 0x1_0000_0000_0000_0000_0000_0000_0000_0000int }),
        x.tree_key() == (x as i128).tree_key(),
        x.converts_directly(),
{
}

/// A `isize` key is its two's-complement bits widened to 128 bits: a value that is not
/// negative is itself, and a negative value `x` is `2^128 + x` (so `-1` is `u128::MAX`).
/// Widening the value to `i128` first gives the same key, and the conversion never fails.
pub proof fn law_isize_key(x: isize)
    ensures
        x.tree_key() as int == (if x >= 0 { x as int } else { x as int + 0x1_0000_0000_0000_0000_0000_0000_0000_0000int }),
        x.tree_key() == (x as i128).tree_key(),
        x.converts_directly(),
{
}

/// A `i128` key is its two's-complement bits widened to 128 bits: a value that is not
/// negative is itself, and a negative value `x` is `2^128 + x` (so `-1` is `u128::MAX`).
/// Widening the value to `i128` first gives the same key, and the conversion never fails.
pub proof fn law_i128_key(x: i128)
    ensures
        x.tree_key() as int == (if x >= 0 { x as int } else { x as int + 0x1_0000_0000_0000_0000_0000_0000_0000_0000int }),
        x.tree_key() == (x as i128).tree_key(),
        x.converts_directly(),
{
}

/// A `u8` key is its value, widened to 128 bits without change, and the conversion never
/// fails.
pub proof fn law_u8_key(x: u8)
    ensures
        x.tree_key() as int == x as int,
        x.converts_directly(),
{
}

/// A `u16` key is its value, widened to 128 bits without change, and the conversion never
/// fails.
pub proof fn law_u16_key(x: u16)
    ensures
        x.tree_key() as int == x as int,
        x.converts_directly(),
{
}

/// A `u32` key is its value, widened to 128 bits without change, and the conversion never
/// fails.
pub proof fn law_u32_key(x: u32)
    ensures
        x.tree_key() as int == x as int,
        x.converts_directly(),
{
}

/// A `u64` key is its value, widened to 128 bits without change, and the conversion never
/// fails.
pub proof fn law_u64_key(x: u64)
    ensures
        x.tree_key() as int == x as int,
        x.converts_directly(),
{
}

/// A `usize` key is its value, widened to 128 bits without change, and the conversion never
/// fails.
pub proof fn law_usize_key(x: usize)
    ensures
        x.tree_key() as int == x as int,
        x.converts_directly(),
{
}

/// A `u128` key is its value, widened to 128 bits without change, and the conversion never
/// fails.
pub proof fn law_u128_key(x: u128)
    ensures
        x.tree_key() as int == x as int,
        x.converts_directly(),
{
}

/// A `bool` key is 1 for `true` and 0 for `false`; a `char` key is its code point; the unit
/// key is 0. None of these conversions fails.
pub proof fn law_small_keys(b: bool, c: char)
    ensures
        b.tree_key() == (if b { 1u128 } else { 0u128 }),
        c.tree_key() as int == c as u32 as int,
        ().tree_key() == 0,
        b.converts_directly() && c.converts_directly() && ().converts_directly(),
{
}

/// Keys of signed integers of different widths agree on every value they share: a value
/// keeps its key when it is widened.
pub proof fn law_signed_widening(x: i8, y: i16, z: i32)
    ensures
        x.tree_key() == (x as i16).tree_key(),
        y.tree_key() == (y as i32).tree_key(),
        z.tree_key() == (z as i64).tree_key(),
        (x as i64).tree_key() == (x as i128).tree_key(),
{
}

} // verus!
