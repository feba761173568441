use std::collections::HashSet;

use ps_hkey::InMemoryStore;
use ps_htree::{HtreeNode, MAX_CHILDREN};
use ps_uuid::UUID;

fn gen_key() -> u128 {
    UUID::gen_v4().to_u128()
}

fn gen_key_v8() -> u128 {
    UUID::gen_v4().with_version(8).to_u128()
}

fn value(v: u64) -> Vec<u8> {
    v.to_le_bytes().to_vec()
}

fn leaf(key: u128, v: u64, store: &InMemoryStore) -> HtreeNode {
    HtreeNode::from_kvp(key, &value(v), store).expect("from_kvp should create leaf")
}

fn collapse_to_root(mut roots: Vec<HtreeNode>, store: &InMemoryStore) -> HtreeNode {
    if roots.is_empty() {
        return HtreeNode::default();
    }
    while roots.len() > 1 {
        roots = HtreeNode::from_many_children(roots, store).expect("from_many_children should succeed");
    }
    roots.into_iter().next().expect("non-empty roots should contain one node")
}

fn tree_from_keys(keys: &[u128], store: &InMemoryStore) -> HtreeNode {
    if keys.is_empty() {
        return HtreeNode::default();
    }
    let leaves: Vec<_> = keys.iter().enumerate().map(|(idx, key)| leaf(*key, idx as u64, store)).collect();
    let roots = HtreeNode::from_many_children(leaves, store).expect("from_many_children should succeed");
    collapse_to_root(roots, store)
}

fn all_keys(tree: &HtreeNode, store: &InMemoryStore) -> Vec<u128> {
    let mut it = tree.iter_keys(store);
    let mut out = Vec::new();
    while let Some(item) = it.next() {
        out.push(item.expect("iter_keys should succeed"));
    }
    out
}

fn collect_sorted_keys(tree: &HtreeNode, store: &InMemoryStore) -> Vec<u128> {
    let mut keys = all_keys(tree, store);
    keys.sort_unstable();
    keys
}

fn key_occurrence_count(tree: &HtreeNode, key: u128, store: &InMemoryStore) -> usize {
    all_keys(tree, store).into_iter().filter(|candidate| *candidate == key).count()
}

fn unique_sorted(mut keys: Vec<u128>) -> Vec<u128> {
    keys.sort_unstable();
    keys.dedup();
    keys
}

fn missing_keys(existing: &[u128], count: usize) -> Vec<u128> {
    let existing_set: HashSet<_> = existing.iter().copied().collect();
    let mut missing = Vec::with_capacity(count);
    while missing.len() < count {
        let candidate = gen_key();
        if existing_set.contains(&candidate) || missing.contains(&candidate) {
            continue;
        }
        missing.push(candidate);
    }
    missing
}

fn patterned_keys(total: usize, distinct: usize) -> Vec<u128> {
    if total == 0 {
        return Vec::new();
    }
    let distinct = distinct.clamp(1, total);
    let mut unique_keys: Vec<_> = (0..distinct).map(|_| gen_key()).collect();
    unique_keys.sort_unstable();
    let mut keys = Vec::with_capacity(total);
    for idx in 0..total {
        keys.push(unique_keys[idx % unique_keys.len()]);
    }
    keys.sort_unstable();
    keys
}

fn delete_many_reference(tree: HtreeNode, delete_keys: &[u128], store: &InMemoryStore) -> HtreeNode {
    let normalized_keys = unique_sorted(delete_keys.to_vec());
    tree.retain(|key, _| normalized_keys.binary_search(&key).is_err(), store).expect("retain should succeed")
}

fn assert_matches_reference(tree: &HtreeNode, delete_keys: &[u128], store: &InMemoryStore) {
    let actual = tree.delete_many(delete_keys, store).expect("delete_many should succeed");
    let expected = delete_many_reference(tree.clone(), delete_keys, store);
    assert_eq!(collect_sorted_keys(&actual, store), collect_sorted_keys(&expected, store));
}

#[test]
fn delete_many_leaf_with_matching_key_returns_default() {
    let store = InMemoryStore::default();
    let key = gen_key();
    let leaf = leaf(key, 7, &store);
    let deleted = leaf.delete_many(&[key], &store).expect("delete_many should succeed");
    assert!(deleted.is_empty());
}

#[test]
fn delete_many_leaf_with_missing_key_is_noop() {
    let store = InMemoryStore::default();
    let key = gen_key();
    let missing = gen_key();
    let leaf = leaf(key, 11, &store);
    let deleted = leaf.delete_many(&[missing], &store).expect("delete_many should succeed");
    assert_eq!(collect_sorted_keys(&deleted, &store), vec![key]);
}

#[test]
fn delete_many_empty_tree_is_noop() {
    let store = InMemoryStore::default();
    let empty = HtreeNode::default();
    let delete_keys: Vec<_> = (0..8).map(|_| gen_key()).collect();
    let deleted = empty.delete_many(&delete_keys, &store).expect("delete_many should succeed");
    assert!(deleted.is_empty());
}

#[test]
fn delete_many_unsorted_duplicate_inputs_match_reference() {
    let store = InMemoryStore::default();
    let keys = patterned_keys(40, 24);
    let tree = tree_from_keys(&keys, &store);
    let unique = unique_sorted(keys);
    let delete_keys = vec![unique[7], unique[1], unique[7], unique[3], unique[1]];
    assert_matches_reference(&tree, &delete_keys, &store);
}

#[test]
fn delete_many_removes_all_duplicates_across_sibling_subtrees() {
    let store = InMemoryStore::default();
    let duplicate_key = gen_key();
    let leaves: Vec<_> = (0..=MAX_CHILDREN).map(|idx| leaf(duplicate_key, idx as u64, &store)).collect();
    let mut roots = HtreeNode::from_many_children(leaves, &store).expect("expected success");
    while roots.len() > 1 {
        roots = HtreeNode::from_many_children(roots, &store).expect("expected success");
    }
    let root = roots.into_iter().next().unwrap_or_default();
    let before_count = all_keys(&root, &store).len();
    assert_eq!(before_count, MAX_CHILDREN + 1);
    let deleted = root.delete_many(&[duplicate_key], &store).expect("expected success");
    assert!(!deleted.contains_key(duplicate_key, &store).expect("expected success"));
    assert_eq!(all_keys(&deleted, &store).len(), 0);
}

#[test]
fn delete_many_removes_multiple_duplicate_runs_spanning_siblings() {
    let store = InMemoryStore::default();
    let mut ordered_keys = [gen_key(), gen_key(), gen_key()];
    ordered_keys.sort_unstable();
    let key_a = ordered_keys[0];
    let key_b = ordered_keys[1];
    let key_c = ordered_keys[2];
    let mut keys = Vec::new();
    keys.extend(std::iter::repeat_n(key_a, MAX_CHILDREN + 1));
    keys.extend(std::iter::repeat_n(key_b, MAX_CHILDREN + 2));
    keys.extend(std::iter::repeat_n(key_c, 3));
    let tree = tree_from_keys(&keys, &store);
    let deleted = tree.delete_many(&[key_a, key_b], &store).expect("delete_many should succeed");
    assert_eq!(key_occurrence_count(&deleted, key_a, &store), 0);
    assert_eq!(key_occurrence_count(&deleted, key_b, &store), 0);
    assert_eq!(key_occurrence_count(&deleted, key_c, &store), 3);
}

#[test]
fn delete_many_is_idempotent_for_mixed_existing_and_missing_keys() {
    let store = InMemoryStore::default();
    let keys = patterned_keys(MAX_CHILDREN + 19, 17);
    let tree = tree_from_keys(&keys, &store);
    let unique = unique_sorted(keys);
    let missing = missing_keys(&unique, 6);
    let delete_keys = vec![
        unique[0],
        missing[0],
        unique[0],
        unique[unique.len() / 2],
        missing[3],
        unique[unique.len() - 1],
        missing[0],
    ];
    let once = tree.delete_many(&delete_keys, &store).expect("delete_many should succeed");
    let twice = once.delete_many(&delete_keys, &store).expect("delete_many should succeed");
    assert_eq!(collect_sorted_keys(&once, &store), collect_sorted_keys(&twice, &store));
    assert_matches_reference(&tree, &delete_keys, &store);
}

#[test]
fn delete_many_matches_retain_reference_for_varied_tree_sizes() {
    let store = InMemoryStore::default();
    let varied_sizes = [0, 1, 2, 3, 7, 16, MAX_CHILDREN.saturating_sub(1), MAX_CHILDREN, MAX_CHILDREN + 1, MAX_CHILDREN + 17];
    for size in varied_sizes {
        let distinct = if size == 0 { 0 } else { (size / 3).max(1) };
        let keys = patterned_keys(size, distinct);
        let tree = tree_from_keys(&keys, &store);
        let unique = unique_sorted(keys);
        let missing = missing_keys(&unique, 4);
        let mut delete_cases = vec![Vec::new(), missing.clone()];
        if let Some(first) = unique.first() {
            delete_cases.push(vec![*first]);
        }
        if let Some(last) = unique.last() {
            delete_cases.push(vec![*last, *last]);
        }
        if unique.len() >= 3 {
            delete_cases.push(vec![unique[2], unique[0], unique[2], unique[1]]);
        }
        if !unique.is_empty() {
            delete_cases.push(unique.clone());
        }
        let mut mixed = missing;
        if let Some(first) = unique.first() {
            mixed.push(*first);
            mixed.push(*first);
        }
        if let Some(last) = unique.last() {
            mixed.push(*last);
        }
        mixed.reverse();
        delete_cases.push(mixed);
        for delete_keys in delete_cases {
            assert_matches_reference(&tree, &delete_keys, &store);
        }
    }
}

#[test]
fn delete_many_matches_retain_reference_for_mixed_duplicate_patterns() {
    let store = InMemoryStore::default();
    for case_idx in 0_usize..32 {
        let total = 5 + case_idx;
        let distinct = (case_idx % 9) + 1;
        let mut keys = patterned_keys(total, distinct.min(total));
        if !keys.is_empty() {
            let key_count = keys.len();
            keys.rotate_left(case_idx % key_count);
        }
        let tree = tree_from_keys(&keys, &store);
        let unique = unique_sorted(keys);
        let missing = missing_keys(&unique, 8);
        let mut delete_keys = Vec::new();
        for idx in 0_usize..12 {
            if idx % 3 == 0 && !unique.is_empty() {
                delete_keys.push(unique[(idx + case_idx) % unique.len()]);
            } else {
                delete_keys.push(missing[(idx + case_idx) % missing.len()]);
            }
            if idx % 4 == 0 {
                delete_keys.push(*delete_keys.last().expect("delete_keys should not be empty"));
            }
        }
        assert_matches_reference(&tree, &delete_keys, &store);
    }
}

#[test]
fn delete_existing_key() {
    let store = InMemoryStore::default();
    let key = gen_key_v8();
    let tree = leaf(key, 42, &store);
    assert!(tree.find_one(key, &store).expect("find_one should succeed").is_some());
    let tree = tree.delete_one(key, &store).expect("delete_one should succeed");
    assert!(tree.find_one(key, &store).expect("find_one should succeed after deletion").is_none());
}

#[test]
fn delete_nonexistent_key_is_idempotent() {
    let store = InMemoryStore::default();
    let key1 = gen_key_v8();
    let key2 = gen_key_v8();
    let tree = leaf(key1, 42, &store);
    let tree_before = tree.clone();
    let tree_after = tree.delete_one(key2, &store).expect("delete_one should succeed even for nonexistent key");
    assert_eq!(tree_before.hkey, tree_after.hkey);
    assert!(tree_after.find_one(key1, &store).expect("find_one should succeed").is_some());
}

#[test]
fn delete_from_multi_leaf_tree() {
    let store = InMemoryStore::default();
    let key1 = gen_key_v8();
    let key2 = gen_key_v8();
    let key3 = gen_key_v8();
    let leaf1 = leaf(key1, 1, &store);
    let leaf2 = leaf(key2, 2, &store);
    let leaf3 = leaf(key3, 3, &store);
    let tree = HtreeNode::from_many_children(vec![leaf1, leaf2, leaf3], &store)
        .expect("from_many_children should build tree from leaves")
        .into_iter()
        .next()
        .expect("from_many_children should return at least one root node");
    assert!(tree.find_one(key1, &store).expect("find_one should find key1").is_some());
    assert!(tree.find_one(key2, &store).expect("find_one should find key2").is_some());
    assert!(tree.find_one(key3, &store).expect("find_one should find key3").is_some());
    let tree = tree.delete_one(key2, &store).expect("delete_one should succeed");
    assert!(tree.find_one(key1, &store).expect("find_one should still find key1").is_some());
    assert!(tree.find_one(key2, &store).expect("find_one should succeed but return None for deleted key2").is_none());
    assert!(tree.find_one(key3, &store).expect("find_one should still find key3").is_some());
}

#[test]
fn delete_all_leaves_returns_default() {
    let store = InMemoryStore::default();
    let key = gen_key_v8();
    let tree = leaf(key, 42, &store);
    let tree = tree.delete_one(key, &store).expect("delete_one should succeed");
    assert_eq!(tree, HtreeNode::default());
}

#[test]
fn double_delete_is_idempotent() {
    let store = InMemoryStore::default();
    let key = gen_key_v8();
    let tree = leaf(key, 42, &store);
    let tree = tree.delete_one(key, &store).expect("first delete_one should succeed");
    let tree = tree.delete_one(key, &store).expect("second delete_one should succeed (idempotent)");
    assert_eq!(tree, HtreeNode::default());
}
