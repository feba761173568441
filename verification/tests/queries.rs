use ps_hkey::InMemoryStore;
use ps_htree::HtreeNode;
use ps_uuid::UUID;

fn gen_key() -> u128 {
    UUID::gen_v4().to_u128()
}

fn gen_key_v8() -> u128 {
    UUID::gen_v4().with_version(8).to_u128()
}

fn value(v: u64) -> Vec<u8> {
    v.to_le_bytes().to_vec()
}

fn leaf(key: u128, v: u64, store: &InMemoryStore) -> HtreeNode {
    HtreeNode::from_kvp(key, &value(v), store).expect("from_kvp should create leaf")
}

fn root_of(leaves: Vec<HtreeNode>, store: &InMemoryStore) -> HtreeNode {
    HtreeNode::from_many_children(leaves, store)
        .expect("from_many_children should build tree from leaves")
        .into_iter()
        .next()
        .expect("from_many_children should return at least one root node")
}

fn numbered_leaves(keys: &[u128], store: &InMemoryStore) -> Vec<HtreeNode> {
    keys.iter().enumerate().map(|(i, k)| leaf(*k, i as u64, store)).collect()
}

#[test]
fn empty_tree_contains_nothing() {
    let store = InMemoryStore::default();
    let tree = HtreeNode::default();
    let key = gen_key_v8();
    assert!(!tree.contains_key(key, &store).expect("contains_key should not fail on empty tree"));
}

#[test]
fn single_leaf_contains_its_key() {
    let store = InMemoryStore::default();
    let key = gen_key_v8();
    let tree = leaf(key, 42, &store);
    assert!(tree.contains_key(key, &store).expect("contains_key should find the key that was just inserted"));
}

#[test]
fn single_leaf_does_not_contain_other_key() {
    let store = InMemoryStore::default();
    let key = gen_key_v8();
    let other_key = gen_key_v8();
    let tree = leaf(key, 42, &store);
    assert!(!tree.contains_key(other_key, &store).expect("contains_key should not fail when checking for missing key"));
}

#[test]
fn multi_leaf_tree_contains_all_its_keys() {
    let store = InMemoryStore::default();
    let key1 = gen_key_v8();
    let key2 = gen_key_v8();
    let key3 = gen_key_v8();
    let tree = root_of(vec![leaf(key1, 1, &store), leaf(key2, 2, &store), leaf(key3, 3, &store)], &store);
    assert!(tree.contains_key(key1, &store).expect("tree should contain key1"));
    assert!(tree.contains_key(key2, &store).expect("tree should contain key2"));
    assert!(tree.contains_key(key3, &store).expect("tree should contain key3"));
}

#[test]
fn multi_leaf_tree_does_not_contain_missing_key() {
    let store = InMemoryStore::default();
    let key1 = gen_key_v8();
    let key2 = gen_key_v8();
    let missing_key = gen_key_v8();
    let tree = root_of(vec![leaf(key1, 1, &store), leaf(key2, 2, &store)], &store);
    assert!(!tree.contains_key(missing_key, &store).expect("contains_key should not fail when checking for missing key"));
}

#[test]
fn contains_key_after_deletion_returns_false() {
    let store = InMemoryStore::default();
    let key = gen_key_v8();
    let tree = leaf(key, 42, &store);
    assert!(tree.contains_key(key, &store).expect("tree should contain the key before deletion"));
    let tree = tree.delete_one(key, &store).expect("delete_one should succeed");
    assert!(!tree.contains_key(key, &store).expect("tree should not contain the key after deletion"));
}

#[test]
fn contains_key_after_partial_deletion() {
    let store = InMemoryStore::default();
    let key1 = gen_key_v8();
    let key2 = gen_key_v8();
    let tree = root_of(vec![leaf(key1, 1, &store), leaf(key2, 2, &store)], &store);
    let tree = tree.delete_one(key1, &store).expect("delete_one should succeed");
    assert!(!tree.contains_key(key1, &store).expect("tree should not contain key1 after deletion"));
    assert!(tree.contains_key(key2, &store).expect("tree should still contain key2 after deleting key1"));
}

#[test]
fn empty_tree_has_count_zero() {
    let store = InMemoryStore::default();
    let tree = HtreeNode::default();
    assert_eq!(tree.count_leaves(&store).expect("count_leaves should not fail on empty tree"), 0);
}

#[test]
fn single_leaf_has_count_one() {
    let store = InMemoryStore::default();
    let key = gen_key();
    let tree = leaf(key, 42, &store);
    assert_eq!(tree.count_leaves(&store).expect("count_leaves should succeed"), 1);
}

#[test]
fn multi_leaf_tree_counts_all_leaves() {
    let store = InMemoryStore::default();
    let keys: Vec<u128> = (0..10).map(|_| gen_key()).collect();
    let tree = root_of(numbered_leaves(&keys, &store), &store);
    assert_eq!(tree.count_leaves(&store).expect("count_leaves should succeed"), 10);
}

#[test]
fn count_after_deletion() {
    let store = InMemoryStore::default();
    let keys: Vec<u128> = (0..5).map(|_| gen_key()).collect();
    let tree = root_of(numbered_leaves(&keys, &store), &store);
    let tree = tree.delete_one(keys[0], &store).expect("delete_one should succeed");
    assert_eq!(tree.count_leaves(&store).expect("count_leaves should succeed"), 4);
}

#[test]
fn count_of_large_tree() {
    let store = InMemoryStore::default();
    let keys: Vec<u128> = (0..100).map(|_| gen_key()).collect();
    let mut nodes = HtreeNode::from_many_children(numbered_leaves(&keys, &store), &store).expect("from_many_children should build tree");
    while nodes.len() > 1 {
        nodes = HtreeNode::from_many_children(nodes, &store).expect("from_many_children should succeed");
    }
    let tree = nodes.into_iter().next().expect("should have a root node");
    assert_eq!(tree.count_leaves(&store).expect("count_leaves should succeed"), 100);
}

#[test]
fn first_empty_tree_returns_none() {
    let store = InMemoryStore::default();
    let tree = HtreeNode::default();
    assert!(tree.first(&store).expect("first should not fail on empty tree").is_none());
}

#[test]
fn single_leaf_returns_itself() {
    let store = InMemoryStore::default();
    let key = gen_key_v8();
    let tree = leaf(key, 42, &store);
    let first = tree
        .first(&store)
        .expect("first should succeed on single leaf tree")
        .expect("first should return Some for non-empty tree");
    assert_eq!(first.key, key);
    assert!(first.is_leaf());
}

#[test]
fn two_leaves_returns_smaller_key() {
    let store = InMemoryStore::default();
    let key1 = gen_key_v8();
    let key2 = gen_key_v8();
    let tree = root_of(vec![leaf(key1, 1, &store), leaf(key2, 2, &store)], &store);
    let first = tree.first(&store).expect("first should succeed").expect("first should return Some for non-empty tree");
    let expected_key = std::cmp::min(key1, key2);
    assert_eq!(first.key, expected_key);
    assert!(first.is_leaf());
}

#[test]
fn many_leaves_returns_smallest_key() {
    let store = InMemoryStore::default();
    let keys: Vec<u128> = (0..10).map(|_| gen_key_v8()).collect();
    let tree = root_of(numbered_leaves(&keys, &store), &store);
    let first = tree.first(&store).expect("first should succeed").expect("first should return Some for non-empty tree");
    let expected_key = *keys.iter().min().expect("keys vector should not be empty");
    assert_eq!(first.key, expected_key);
    assert!(first.is_leaf());
}

#[test]
fn first_on_leaf_returns_self() {
    let store = InMemoryStore::default();
    let key = gen_key_v8();
    let leaf = leaf(key, 42, &store);
    assert!(leaf.is_leaf());
    let first = leaf.first(&store).expect("first should succeed").expect("first should return Some for non-empty tree");
    assert_eq!(first.key, leaf.key);
}

#[test]
fn default_is_empty() {
    let tree = HtreeNode::default();
    assert!(tree.is_empty());
}

#[test]
fn single_leaf_is_not_empty() {
    let store = InMemoryStore::default();
    let key = gen_key_v8();
    let tree = leaf(key, 42, &store);
    assert!(!tree.is_empty());
}

#[test]
fn multi_leaf_tree_is_not_empty() {
    let store = InMemoryStore::default();
    let key1 = gen_key_v8();
    let key2 = gen_key_v8();
    let tree = root_of(vec![leaf(key1, 1, &store), leaf(key2, 2, &store)], &store);
    assert!(!tree.is_empty());
}

#[test]
fn tree_after_deleting_all_leaves_is_empty() {
    let store = InMemoryStore::default();
    let key = gen_key_v8();
    let tree = leaf(key, 42, &store);
    assert!(!tree.is_empty());
    let tree = tree.delete_one(key, &store).unwrap();
    assert!(tree.is_empty());
}

#[test]
fn tree_after_partial_deletion_is_not_empty() {
    let store = InMemoryStore::default();
    let key1 = gen_key_v8();
    let key2 = gen_key_v8();
    let tree = root_of(vec![leaf(key1, 1, &store), leaf(key2, 2, &store)], &store);
    let tree = tree.delete_one(key1, &store).unwrap();
    assert!(!tree.is_empty());
}

#[test]
fn get_from_empty_tree_returns_none() {
    let store = InMemoryStore::default();
    let tree = HtreeNode::default();
    let key = gen_key();
    assert_eq!(tree.find_one_value(key, &store).expect("get should not fail on empty tree"), None);
}

#[test]
fn get_existing_key_returns_value() {
    let store = InMemoryStore::default();
    let key = gen_key();
    let tree = leaf(key, 42, &store);
    assert_eq!(tree.find_one_value(key, &store).expect("get should succeed"), Some(value(42)));
}

#[test]
fn get_missing_key_returns_none() {
    let store = InMemoryStore::default();
    let key = gen_key();
    let other = gen_key();
    let tree = leaf(key, 42, &store);
    assert_eq!(tree.find_one_value(other, &store).expect("get should succeed"), None);
}

#[test]
fn get_from_multi_leaf_tree() {
    let store = InMemoryStore::default();
    let keys: Vec<u128> = (0..10).map(|_| gen_key()).collect();
    let tree = root_of(numbered_leaves(&keys, &store), &store);
    for (i, key) in keys.iter().enumerate() {
        assert_eq!(tree.find_one_value(*key, &store).expect("get should succeed"), Some(value(i as u64)));
    }
    let missing = gen_key();
    assert_eq!(tree.find_one_value(missing, &store).expect("get should succeed"), None);
}

#[test]
fn get_after_deletion_returns_none() {
    let store = InMemoryStore::default();
    let keys: Vec<u128> = (0..3).map(|_| gen_key()).collect();
    let tree = root_of(numbered_leaves(&keys, &store), &store);
    let tree = tree.delete_one(keys[1], &store).expect("delete_one should succeed");
    assert_eq!(tree.find_one_value(keys[1], &store).expect("get should succeed"), None);
    assert_eq!(tree.find_one_value(keys[0], &store).expect("get should succeed"), Some(value(0)));
    assert_eq!(tree.find_one_value(keys[2], &store).expect("get should succeed"), Some(value(2)));
}

#[test]
fn from_kvp_iter_empty_returns_default() {
    let store = InMemoryStore::default();
    let items: Vec<(u128, Vec<u8>)> = Vec::new();
    let tree = HtreeNode::from_kvp_iter(&items, &store).expect("from_kvp_iter should succeed");
    assert!(tree.is_empty());
}

#[test]
fn from_kvp_iter_single_item() {
    let store = InMemoryStore::default();
    let key = gen_key();
    let tree = HtreeNode::from_kvp_iter(&[(key, value(42))], &store).expect("from_kvp_iter should succeed");
    assert_eq!(tree.count_leaves(&store).expect("count_leaves should succeed"), 1);
    assert_eq!(tree.find_one_value(key, &store).expect("find_one_value should succeed"), Some(value(42)));
}

#[test]
fn from_kvp_iter_multiple_items() {
    let store = InMemoryStore::default();
    let pairs: Vec<(u128, u64)> = (0_u64..10).map(|i| (gen_key(), i)).collect();
    let items: Vec<(u128, Vec<u8>)> = pairs.iter().map(|(k, v)| (*k, value(*v))).collect();
    let tree = HtreeNode::from_kvp_iter(&items, &store).expect("from_kvp_iter should succeed");
    assert_eq!(tree.count_leaves(&store).expect("count_leaves should succeed"), 10);
    for (key, v) in &pairs {
        assert_eq!(tree.find_one_value(*key, &store).expect("find_one_value should succeed"), Some(value(*v)));
    }
}

#[test]
fn from_kvp_iter_large_input() {
    let store = InMemoryStore::default();
    let items: Vec<(u128, Vec<u8>)> = (0_u64..100).map(|i| (gen_key(), value(i))).collect();
    let tree = HtreeNode::from_kvp_iter(&items, &store).expect("from_kvp_iter should succeed");
    assert_eq!(tree.count_leaves(&store).expect("count_leaves should succeed"), 100);
}

#[test]
fn from_kvp_iter_preserves_values() {
    let store = InMemoryStore::default();
    let pairs: Vec<(u128, u64)> = (0..20).map(|i| (gen_key(), i * 10)).collect();
    let items: Vec<(u128, Vec<u8>)> = pairs.iter().map(|(k, v)| (*k, value(*v))).collect();
    let tree = HtreeNode::from_kvp_iter(&items, &store).expect("from_kvp_iter should succeed");
    let mut it = tree.iter_entries(&store);
    while let Some(result) = it.next() {
        let (key, v) = result.expect("iter_entries should not fail");
        let original = pairs.iter().find(|(k, _)| *k == key).expect("key should exist in original pairs");
        assert_eq!(v, value(original.1));
    }
}

#[test]
fn from_kvp_iter_keys_are_sorted() {
    let store = InMemoryStore::default();
    let items: Vec<(u128, Vec<u8>)> = (0_u64..15).map(|i| (gen_key(), value(i))).collect();
    let tree = HtreeNode::from_kvp_iter(&items, &store).expect("from_kvp_iter should succeed");
    let mut keys = Vec::new();
    let mut it = tree.iter_keys(&store);
    while let Some(k) = it.next() {
        keys.push(k.expect("iter_keys should not fail"));
    }
    let mut sorted = keys.clone();
    sorted.sort();
    assert_eq!(keys, sorted);
}
