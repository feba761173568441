# ps_htree

A content-addressed B-tree ("htree") of leaves keyed by 128-bit keys, whose internal
nodes are filed in a `ps_hkey` store under the reference to the record of their
children. The library is written in Verus: every operation carries a contract over a
mathematical model of the tree (`NodeModel`: key, height, hkey and the state of the
node, with its leaves as a sequence of key/hkey pairs), and Verus proves the code
against it. Most contracts speak of trees held in memory; what a tree read back from
the store holds is not modelled. That merging keeps every key is proved on the premise
that the store never files two different records under one reference.

Layout of `src/`:

- `model.rs`, `node.rs`: the node type, its model and the validity invariant.
- `codec.rs`, `store.rs`: the record of children and the calls into the store.
- `construct.rs`, `group.rs`: building parents over children.
- `fetch.rs`, `query.rs`, `range.rs`, `values.rs`, `iter.rs`, `leaves.rs`, `drain.rs`:
  reading trees.
- `insert.rs`, `kvp.rs`, `delete.rs`, `update.rs`, `retain.rs`, `disjoint.rs`,
  `split.rs`, `merge.rs`: building new trees from old ones.
- `faithful.rs`, `cover.rs`, `keys.rs`, `lemmas.rs`, `laws.rs`: the proofs that span
  several operations.
- `key.rs`: turning integer-like values into tree keys; `order.rs`: ordering nodes.

`app/` holds what needs serde, rkyv, postcard or UUID values; `tests/` runs the library
with the real store.
