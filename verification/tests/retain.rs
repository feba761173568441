use std::collections::HashSet;

use ps_hkey::InMemoryStore;
use ps_htree::HtreeNode;
use ps_uuid::UUID;

fn gen_key() -> u128 {
    UUID::gen_v4().to_u128()
}

fn value(v: u64) -> Vec<u8> {
    v.to_le_bytes().to_vec()
}

fn number(bytes: &[u8]) -> u64 {
    let mut array = [0u8; 8];
    array.copy_from_slice(bytes);
    u64::from_le_bytes(array)
}

fn text_key(text: &str) -> u128 {
    let mut bytes = [0u8; 16];
    bytes[..text.len()].copy_from_slice(text.as_bytes());
    u128::from_be_bytes(bytes)
}

fn unit_leaf(key: u128, store: &InMemoryStore) -> HtreeNode {
    HtreeNode::from_kvp(key, &[], store).expect("create leaf")
}

fn make_tree(store: &InMemoryStore, count: usize) -> (Vec<u128>, HtreeNode) {
    let leaves: Vec<_> = (0..count)
        .map(|i| {
            let key = gen_key();
            (key, HtreeNode::from_kvp(key, &value(i as u64), store).expect("from_kvp should create leaf node"))
        })
        .collect();
    let keys: Vec<_> = leaves.iter().map(|(k, _)| *k).collect();
    let nodes: Vec<_> = leaves.into_iter().map(|(_, n)| n).collect();
    let mut roots = HtreeNode::from_many_children(nodes, store).expect("from_many_children should build tree");
    while roots.len() > 1 {
        roots = HtreeNode::from_many_children(roots, store).expect("from_many_children should succeed");
    }
    let tree = roots.into_iter().next().unwrap_or_default();
    (keys, tree)
}

fn collapse_to_root(mut roots: Vec<HtreeNode>, store: &InMemoryStore) -> HtreeNode {
    if roots.is_empty() {
        return HtreeNode::default();
    }
    while roots.len() > 1 {
        roots = HtreeNode::from_many_children(roots, store).expect("from_many_children should succeed");
    }
    roots.into_iter().next().expect("non-empty roots should contain one node")
}

fn entries_of(tree: &HtreeNode, store: &InMemoryStore) -> Vec<(u128, u64)> {
    let mut it = tree.iter_entries(store);
    let mut out = Vec::new();
    while let Some(e) = it.next() {
        let (k, v) = e.expect("iter");
        out.push((k, number(&v)));
    }
    out
}

fn keys_of(tree: &HtreeNode, store: &InMemoryStore) -> Vec<u128> {
    let mut it = tree.iter_keys(store);
    let mut out = Vec::new();
    while let Some(k) = it.next() {
        out.push(k.expect("iter_keys"));
    }
    out
}

#[test]
fn empty_tree_returns_empty() {
    let store = InMemoryStore::default();
    let tree = HtreeNode::default();
    let result = tree.retain(|_, _| true, &store).expect("retain should succeed");
    assert!(result.is_empty());
}

#[test]
fn retain_all_returns_equivalent_tree() {
    let store = InMemoryStore::default();
    let (keys, tree) = make_tree(&store, 10);
    let result = tree.retain(|_, _| true, &store).expect("retain should succeed");
    for key in &keys {
        assert!(result.contains_key(*key, &store).expect("contains_key"), "key should be present");
    }
}

#[test]
fn retain_none_returns_empty() {
    let store = InMemoryStore::default();
    let (_, tree) = make_tree(&store, 10);
    let result = tree.retain(|_, _| false, &store).expect("retain should succeed");
    assert!(result.is_empty());
}

#[test]
fn retain_filters_by_value() {
    let store = InMemoryStore::default();
    let (_, tree) = make_tree(&store, 20);
    let result = tree.retain(|_, v| number(&v) % 2 == 0, &store).expect("retain should succeed");
    let entries = entries_of(&result, &store);
    assert_eq!(entries.len(), 10);
    for (_, value) in &entries {
        assert_eq!(value % 2, 0);
    }
}

#[test]
fn retain_filters_by_key() {
    let store = InMemoryStore::default();
    let (keys, tree) = make_tree(&store, 10);
    let keys_to_keep: HashSet<_> = keys.iter().take(5).copied().collect();
    let result = tree.retain(|key, _| keys_to_keep.contains(&key), &store).expect("retain should succeed");
    let entries = entries_of(&result, &store);
    assert_eq!(entries.len(), 5);
    for (key, _) in &entries {
        assert!(keys_to_keep.contains(key));
    }
}

#[test]
fn retain_single_leaf_matching() {
    let store = InMemoryStore::default();
    let key = gen_key();
    let tree = HtreeNode::from_kvp(key, &value(42), &store).expect("from_kvp should create leaf");
    let result = tree.retain(|_, v| number(&v) == 42, &store).expect("retain should succeed");
    assert!(!result.is_empty());
    assert!(result.contains_key(key, &store).expect("contains_key"));
}

#[test]
fn retain_single_leaf_not_matching() {
    let store = InMemoryStore::default();
    let key = gen_key();
    let tree = HtreeNode::from_kvp(key, &value(42), &store).expect("from_kvp should create leaf");
    let result = tree.retain(|_, v| number(&v) != 42, &store).expect("retain should succeed");
    assert!(result.is_empty());
}

#[test]
fn retain_preserves_sorted_order() {
    let store = InMemoryStore::default();
    let (_, tree) = make_tree(&store, 30);
    let result = tree.retain(|_, v| number(&v) % 3 == 0, &store).expect("retain should succeed");
    let keys = keys_of(&result, &store);
    let mut sorted = keys.clone();
    sorted.sort();
    assert_eq!(keys, sorted, "keys should be in sorted order");
}

#[test]
fn retain_large_tree() {
    let store = InMemoryStore::default();
    let (_, tree) = make_tree(&store, 100);
    let result = tree.retain(|_, v| (25..75).contains(&number(&v)), &store).expect("retain should succeed");
    let entries = entries_of(&result, &store);
    assert_eq!(entries.len(), 50);
    for (_, value) in &entries {
        assert!(*value >= 25 && *value < 75);
    }
}

#[test]
fn retain_structural_sharing_all_kept() {
    let store = InMemoryStore::default();
    let (_, tree) = make_tree(&store, 10);
    let original_hkey = tree.hkey.clone();
    let result = tree.retain(|_, _| true, &store).expect("retain should succeed");
    assert_eq!(result.hkey, original_hkey, "root hkey should be unchanged");
}

#[test]
fn retain_complex_predicate() {
    let store = InMemoryStore::default();
    let (_, tree) = make_tree(&store, 30);
    let is_prime = |n: u64| -> bool {
        if n < 2 {
            return false;
        }
        for i in 2..=n.isqrt() {
            if n.is_multiple_of(i) {
                return false;
            }
        }
        true
    };
    let result = tree.retain(|_, v| is_prime(number(&v)) || number(&v) % 10 == 0, &store).expect("retain should succeed");
    let entries = entries_of(&result, &store);
    assert_eq!(entries.len(), 13);
    for (_, value) in &entries {
        assert!(is_prime(*value) || *value % 10 == 0, "value {value} should match predicate");
    }
}

#[test]
fn retain_stress_alternating_pattern() {
    let store = InMemoryStore::default();
    let (_, tree) = make_tree(&store, 200);
    let result = tree.retain(|_, v| number(&v) % 2 == 0, &store).expect("retain should succeed");
    let count = result.count_leaves(&store).expect("count_leaves should succeed");
    assert_eq!(count, 100);
}

#[test]
fn retain_keeps_one_from_each_subtree() {
    let store = InMemoryStore::default();
    let (_, tree) = make_tree(&store, 50);
    let result = tree.retain(|_, v| number(&v) % 7 == 0, &store).expect("retain should succeed");
    let count = entries_of(&result, &store).len();
    assert_eq!(count, 8);
}

#[test]
fn retain_prunes_entire_deep_wrapper_chain_when_leaf_removed() {
    let store = InMemoryStore::default();
    let leaf = unit_leaf(text_key("only"), &store);
    let mut tree = leaf;
    for _ in 0..12 {
        tree = HtreeNode::from_children(vec![tree], &store).expect("wrap tree");
    }
    let result = tree.retain(|_, _| false, &store).expect("retain should prune deep wrapper chain");
    assert!(result.is_empty());
    assert_eq!(result.count_leaves(&store).expect("count_leaves should work on empty tree"), 0);
    assert!(result.iter_leaves(&store).next().is_none());
}

#[test]
fn retain_prunes_sparse_branch_and_keeps_dense_branch_stable() {
    let store = InMemoryStore::default();
    let sparse_leaf = unit_leaf(text_key("sparse"), &store);
    let sparse_key = sparse_leaf.key;
    let sparse_branch = HtreeNode::from_children(vec![sparse_leaf], &store).expect("create sparse branch");
    let sparse_branch = HtreeNode::from_children(vec![sparse_branch], &store).expect("wrap sparse branch");
    let dense_leaves: Vec<_> = (0..256).map(|n: u128| unit_leaf(n, &store)).collect();
    let dense_keys: Vec<_> = dense_leaves.iter().map(|leaf| leaf.key).collect();
    let dense_packed = HtreeNode::from_many_children(dense_leaves, &store).expect("build dense packed subtree");
    let dense_branch = HtreeNode::from_children(dense_packed, &store).expect("wrap dense branch");
    let root = HtreeNode::from_children(vec![sparse_branch, dense_branch], &store).expect("combine sparse and dense branches");
    let result = root.retain(|key, _| key != sparse_key, &store).expect("retain should prune sparse branch");
    assert!(!result.contains_key(sparse_key, &store).expect("contains_key"));
    assert_eq!(result.count_leaves(&store).expect("count_leaves should succeed"), dense_keys.len());
    for key in dense_keys.iter().take(8) {
        assert!(result.contains_key(*key, &store).expect("contains_key"), "dense key should remain after pruning sparse branch");
    }
}

#[test]
fn retain_sequential_sparse_pruning_remains_traversable() {
    let store = InMemoryStore::default();
    let a = unit_leaf(text_key("a"), &store);
    let b = unit_leaf(text_key("b"), &store);
    let c = unit_leaf(text_key("c"), &store);
    let ak = a.key;
    let bk = b.key;
    let ck = c.key;
    let group_a = HtreeNode::from_children(vec![a], &store).expect("group single leaf");
    let group_b = HtreeNode::from_children(vec![b, c], &store).expect("group two leaves");
    let dense_count = 300usize;
    let packed = HtreeNode::from_many_children(
        (10_000..10_000 + dense_count as u64).map(|n| unit_leaf(n as u128, &store)).collect(),
        &store,
    )
    .expect("build dense subtree");
    let root = HtreeNode::from_children(
        vec![
            HtreeNode::from_children(vec![group_a], &store).expect("wrap sparse group"),
            HtreeNode::from_children(vec![group_b], &store).expect("wrap sparse group"),
            HtreeNode::from_children(packed, &store).expect("wrap dense subtree"),
        ],
        &store,
    )
    .expect("combine branches");
    let ret1 = root.retain(|_, _| true, &store).expect("retain should keep all");
    assert_eq!(ret1.count_leaves(&store).expect("count"), dense_count + 3);
    let ret2 = ret1.retain(|key, _| key != bk, &store).expect("retain should prune one sparse leaf");
    assert_eq!(ret2.count_leaves(&store).expect("count"), dense_count + 2);
    let ret3 = ret2.retain(|key, _| key != ck, &store).expect("retain should prune second sparse leaf");
    assert_eq!(ret3.count_leaves(&store).expect("count"), dense_count + 1);
    let ret4 = ret3.retain(|key, _| key != ak, &store).expect("retain should prune final sparse leaf");
    assert_eq!(ret4.count_leaves(&store).expect("count"), dense_count);
    let keys = keys_of(&ret4, &store);
    assert_eq!(keys.len(), dense_count);
    let mut sorted = keys.clone();
    sorted.sort();
    assert_eq!(keys, sorted, "resulting dense tree should stay sorted");
}

#[test]
fn retain_to_empty_is_idempotent_across_repeated_calls() {
    let store = InMemoryStore::default();
    let (_, tree) = make_tree(&store, 128);
    let filtered = tree.retain(|_, v| number(&v) % 2 == 0, &store).expect("retain should succeed");
    let mut empty = filtered.retain(|_, _| false, &store).expect("retain should produce empty tree");
    for _ in 0..5 {
        assert!(empty.is_empty());
        assert_eq!(empty.count_leaves(&store).expect("count"), 0);
        assert!(empty.iter_entries(&store).next().is_none());
        empty = empty.retain(|_, _| true, &store).expect("retain on empty tree should be stable");
    }
}

#[test]
fn retain_removing_duplicate_key_run_keeps_tree_valid() {
    let store = InMemoryStore::default();
    let duplicate_key = gen_key();
    let mut nodes: Vec<HtreeNode> = (0_u64..40)
        .map(|i| HtreeNode::from_kvp(duplicate_key, &value(i), &store).expect("create duplicate-key leaf"))
        .collect();
    nodes.extend((0_u64..30).map(|i| HtreeNode::from_kvp(gen_key(), &value(100 + i), &store).expect("create unique-key leaf")));
    let root = collapse_to_root(HtreeNode::from_many_children(nodes, &store).expect("build mixed tree"), &store);
    let result = root.retain(|key, _| key != duplicate_key, &store).expect("retain should remove duplicate-key run");
    assert_eq!(result.count_leaves(&store).expect("count"), 30);
    assert!(!result.contains_key(duplicate_key, &store).expect("contains_key"));
    assert!(entries_of(&result, &store).iter().all(|(key, _)| *key != duplicate_key));
}

#[test]
fn retain_single_survivor_remains_queryable() {
    let store = InMemoryStore::default();
    let (keys, tree) = make_tree(&store, 300);
    let survivor_index = 157usize;
    let survivor_key = keys[survivor_index];
    let result = tree.retain(|key, _| key == survivor_key, &store).expect("retain should keep one key");
    assert_eq!(result.count_leaves(&store).expect("count"), 1);
    assert!(result.contains_key(survivor_key, &store).expect("contains_key"));
    let first = result.first(&store).expect("first should succeed");
    let last = result.last(&store).expect("last should succeed");
    assert_eq!(first.expect("single survivor should have first").key, survivor_key);
    assert_eq!(last.expect("single survivor should have last").key, survivor_key);
    let v = result
        .find_one_value(survivor_key, &store)
        .expect("find_one_value should succeed")
        .expect("survivor key should exist");
    assert_eq!(number(&v), survivor_index as u64);
}

#[test]
fn retain_matches_delete_one_for_key_removal_set() {
    let store = InMemoryStore::default();
    let (keys, tree) = make_tree(&store, 90);
    let keys_to_drop: Vec<_> = keys.iter().take(30).copied().collect();
    let keys_to_drop_set: HashSet<_> = keys_to_drop.iter().copied().collect();
    let retained = tree.retain(|key, _| !keys_to_drop_set.contains(&key), &store).expect("retain should succeed");
    let deleted = keys_to_drop.iter().fold(tree, |acc, key| acc.delete_one(*key, &store).expect("delete_one should succeed"));
    let retained_keys = keys_of(&retained, &store);
    let deleted_keys = keys_of(&deleted, &store);
    assert_eq!(retained_keys, deleted_keys);
    assert_eq!(retained.count_leaves(&store).expect("count"), deleted.count_leaves(&store).expect("count"));
}

#[test]
fn retain_with_multiple_predicate_rounds_preserves_order_and_validity() {
    let store = InMemoryStore::default();
    let (_, tree) = make_tree(&store, 240);
    let mut current = tree;
    let mut predicates_applied: Vec<u64> = Vec::new();
    for divisor in [2_u64, 3, 5, 7, 11] {
        predicates_applied.push(divisor);
        current = current
            .retain(|_, v| !predicates_applied.iter().any(|d| number(&v) % d == 0), &store)
            .expect("retain should succeed");
        let entries = entries_of(&current, &store);
        let keys: Vec<_> = entries.iter().map(|(k, _)| *k).collect();
        let mut sorted = keys.clone();
        sorted.sort();
        assert_eq!(keys, sorted, "keys should remain sorted after each retain");
        assert!(entries.iter().all(|(_, value)| !predicates_applied.iter().any(|divisor| value % divisor == 0)));
    }
}

#[test]
fn various_density() {
    let store = InMemoryStore::default();
    let a = unit_leaf(text_key("a"), &store);
    let b = unit_leaf(text_key("b"), &store);
    let c = unit_leaf(text_key("c"), &store);
    let ak = a.key;
    let bk = b.key;
    let ck = c.key;
    let group_a = HtreeNode::from_children(vec![a], &store).expect("group single leaf");
    let group_b = HtreeNode::from_children(vec![b, c], &store).expect("group two leaves");
    let packed = HtreeNode::from_many_children((1000..2000).map(|n: u128| unit_leaf(n, &store)).collect(), &store)
        .expect("build dense subtree from 1000 leaves");
    let node = HtreeNode::from_children(
        vec![
            HtreeNode::from_children(vec![group_a], &store).expect("wrap sparse group"),
            HtreeNode::from_children(vec![group_b], &store).expect("wrap sparse group"),
            HtreeNode::from_children(packed, &store).expect("wrap dense subtree"),
        ],
        &store,
    )
    .expect("combine sparse and dense subtrees");
    let ret1 = node.retain(|_, _| true, &store).expect("retain should handle mixed-density tree");
    let ret2 = ret1.retain(|key, _| key != bk, &store).expect("retain should handle mixed-density tree");
    let ret3 = ret2.retain(|key, _| key != ck, &store).expect("retain should handle an empty subtree");
    let ret4 = ret3.retain(|key, _| key != ak, &store).expect("retain should handle an empty subtree");
    let leaf_count = ret4.count_leaves(&store).expect("counting leaves shouldn't fail");
    assert_eq!(&leaf_count, &1000, "Incorrect number of leaves after retain operations.");
}
