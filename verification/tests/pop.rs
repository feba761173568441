use ps_hkey::InMemoryStore;
use ps_htree::{HtreeNode, MAX_CHILDREN};
use ps_uuid::UUID;

fn gen_key_v8() -> u128 {
    UUID::gen_v4().with_version(8).to_u128()
}

fn value(v: u64) -> Vec<u8> {
    v.to_le_bytes().to_vec()
}

fn leaf(key: u128, v: u64, store: &InMemoryStore) -> HtreeNode {
    HtreeNode::from_kvp(key, &value(v), store).expect("from_kvp should create leaf")
}

fn numbered_leaves(keys: &[u128], store: &InMemoryStore) -> Vec<HtreeNode> {
    keys.iter().enumerate().map(|(i, k)| leaf(*k, i as u64, store)).collect()
}

fn root_of(leaves: Vec<HtreeNode>, store: &InMemoryStore) -> HtreeNode {
    HtreeNode::from_many_children(leaves, store)
        .expect("from_many_children should build tree from leaves")
        .into_iter()
        .next()
        .expect("from_many_children should return at least one root node")
}

#[test]
fn pop_first_empty_tree_returns_none() {
    let store = InMemoryStore::default();
    let tree = HtreeNode::default();
    let result = tree.pop_first(&store).expect("pop_first should not fail on empty tree");
    assert!(result.popped.is_none());
    assert!(result.remaining.is_none());
}

#[test]
fn pop_first_single_leaf_pops_and_returns_empty() {
    let store = InMemoryStore::default();
    let key = gen_key_v8();
    let tree = leaf(key, 42, &store);
    let result = tree.pop_first(&store).expect("pop_first should succeed on single leaf tree");
    let popped = result.popped.expect("popped should be Some");
    assert_eq!(popped.key, key);
    assert!(popped.is_leaf());
    assert!(result.remaining.is_none());
}

#[test]
fn two_leaves_pops_smaller_key() {
    let store = InMemoryStore::default();
    let key1 = gen_key_v8();
    let key2 = gen_key_v8();
    let tree = root_of(vec![leaf(key1, 1, &store), leaf(key2, 2, &store)], &store);
    let result = tree.pop_first(&store).expect("pop_first should succeed");
    let min_key = std::cmp::min(key1, key2);
    let max_key = std::cmp::max(key1, key2);
    let popped = result.popped.expect("popped should be Some");
    assert_eq!(popped.key, min_key);
    assert!(popped.is_leaf());
    let remaining = result.remaining.expect("remaining should contain the larger leaf");
    assert!(remaining.find_one(max_key, &store).expect("find_one should succeed").is_some());
    assert!(remaining.find_one(min_key, &store).expect("find_one should succeed").is_none());
}

#[test]
fn many_leaves_pops_smallest_key() {
    let store = InMemoryStore::default();
    let keys: Vec<u128> = (0..10).map(|_| gen_key_v8()).collect();
    let tree = root_of(numbered_leaves(&keys, &store), &store);
    let result = tree.pop_first(&store).expect("pop_first should succeed");
    let min_key = *keys.iter().min().expect("keys vector should not be empty");
    let popped = result.popped.expect("popped should be Some");
    assert_eq!(popped.key, min_key);
    assert!(popped.is_leaf());
    let remaining = result.remaining.expect("remaining should contain all non-popped leaves");
    assert!(remaining.find_one(min_key, &store).expect("find_one should succeed").is_none());
    for key in keys.iter().filter(|&&k| k != min_key) {
        assert!(remaining.find_one(*key, &store).expect("find_one should succeed").is_some());
    }
}

#[test]
fn successive_pop_first_removes_in_ascending_order() {
    let store = InMemoryStore::default();
    let mut keys: Vec<u128> = (0..5).map(|_| gen_key_v8()).collect();
    keys.sort();
    let mut tree = root_of(numbered_leaves(&keys, &store), &store);
    for expected_key in &keys {
        let result = tree.pop_first(&store).expect("pop_first should succeed");
        let popped = result.popped.expect("popped should be Some");
        assert_eq!(popped.key, *expected_key);
        tree = result.remaining.unwrap_or_default();
    }
    assert!(tree.is_empty());
}

#[test]
fn successive_pop_first_removes_in_ascending_order_deep_tree() {
    let store = InMemoryStore::default();
    let pairs: Vec<(u128, u64)> = (0..(MAX_CHILDREN + 5)).map(|i| (gen_key_v8(), i as u64)).collect();
    let items: Vec<(u128, Vec<u8>)> = pairs.iter().map(|(k, v)| (*k, value(*v))).collect();
    let mut keys: Vec<u128> = pairs.iter().map(|(key, _)| *key).collect();
    keys.sort();
    let mut tree = HtreeNode::from_kvp_iter(&items, &store).expect("from_kvp_iter should build a valid deep tree");
    assert!(tree.height() > 1, "tree should be deep enough for recursion");
    for expected_key in keys {
        let result = tree.pop_first(&store).expect("pop_first should succeed on deep tree");
        let popped = result.popped.expect("popped should be Some");
        assert_eq!(popped.key, expected_key);
        tree = result.remaining.unwrap_or_default();
    }
    assert!(tree.is_empty());
}

#[test]
fn pop_first_returns_valid_leaf() {
    let store = InMemoryStore::default();
    let key1 = gen_key_v8();
    let key2 = gen_key_v8();
    let (smaller_key, larger_key) = if key1 < key2 { (key1, key2) } else { (key2, key1) };
    let leaf1 = leaf(smaller_key, 100, &store);
    let leaf2 = leaf(larger_key, 200, &store);
    let tree = root_of(vec![leaf1.clone(), leaf2], &store);
    let result = tree.pop_first(&store).expect("pop_first should succeed");
    let popped = result.popped.expect("popped should be Some");
    assert_eq!(popped.key, smaller_key);
    assert!(popped.is_leaf());
    assert_eq!(popped.hkey, leaf1.hkey);
    let remaining = result.remaining.expect("remaining should contain the larger leaf");
    assert!(remaining.find_one(larger_key, &store).expect("find_one should succeed").is_some());
}

#[test]
fn pop_last_empty_tree_returns_none() {
    let store = InMemoryStore::default();
    let tree = HtreeNode::default();
    let result = tree.pop_last(&store).expect("pop_last should not fail on empty tree");
    assert!(result.popped.is_none());
    assert!(result.remaining.is_none());
}

#[test]
fn pop_last_single_leaf_pops_and_returns_empty() {
    let store = InMemoryStore::default();
    let key = gen_key_v8();
    let tree = leaf(key, 42, &store);
    let result = tree.pop_last(&store).expect("pop_last should succeed on single leaf tree");
    let popped = result.popped.expect("popped should be Some");
    assert_eq!(popped.key, key);
    assert!(popped.is_leaf());
    assert!(result.remaining.is_none());
}

#[test]
fn two_leaves_pops_larger_key() {
    let store = InMemoryStore::default();
    let key1 = gen_key_v8();
    let key2 = gen_key_v8();
    let tree = root_of(vec![leaf(key1, 1, &store), leaf(key2, 2, &store)], &store);
    let result = tree.pop_last(&store).expect("pop_last should succeed");
    let min_key = std::cmp::min(key1, key2);
    let max_key = std::cmp::max(key1, key2);
    let popped = result.popped.expect("popped should be Some");
    assert_eq!(popped.key, max_key);
    assert!(popped.is_leaf());
    let remaining = result.remaining.expect("remaining should contain the smaller leaf");
    assert!(remaining.find_one(min_key, &store).expect("find_one should succeed").is_some());
    assert!(remaining.find_one(max_key, &store).expect("find_one should succeed").is_none());
}

#[test]
fn many_leaves_pops_largest_key() {
    let store = InMemoryStore::default();
    let keys: Vec<u128> = (0..10).map(|_| gen_key_v8()).collect();
    let tree = root_of(numbered_leaves(&keys, &store), &store);
    let result = tree.pop_last(&store).expect("pop_last should succeed");
    let max_key = *keys.iter().max().expect("keys vector should not be empty");
    let popped = result.popped.expect("popped should be Some");
    assert_eq!(popped.key, max_key);
    assert!(popped.is_leaf());
    let remaining = result.remaining.expect("remaining should contain all non-popped leaves");
    assert!(remaining.find_one(max_key, &store).expect("find_one should succeed").is_none());
    for key in keys.iter().filter(|&&k| k != max_key) {
        assert!(remaining.find_one(*key, &store).expect("find_one should succeed").is_some());
    }
}

#[test]
fn successive_pop_last_removes_in_descending_order() {
    let store = InMemoryStore::default();
    let mut keys: Vec<u128> = (0..5).map(|_| gen_key_v8()).collect();
    keys.sort();
    let mut tree = root_of(numbered_leaves(&keys, &store), &store);
    for expected_key in keys.iter().rev() {
        let result = tree.pop_last(&store).expect("pop_last should succeed");
        let popped = result.popped.expect("popped should be Some");
        assert_eq!(popped.key, *expected_key);
        tree = result.remaining.unwrap_or_default();
    }
    assert!(tree.is_empty());
}

#[test]
fn successive_pop_last_removes_in_descending_order_deep_tree() {
    let store = InMemoryStore::default();
    let pairs: Vec<(u128, u64)> = (0..(MAX_CHILDREN + 5)).map(|i| (gen_key_v8(), i as u64)).collect();
    let items: Vec<(u128, Vec<u8>)> = pairs.iter().map(|(k, v)| (*k, value(*v))).collect();
    let mut keys: Vec<u128> = pairs.iter().map(|(key, _)| *key).collect();
    keys.sort();
    keys.reverse();
    let mut tree = HtreeNode::from_kvp_iter(&items, &store).expect("from_kvp_iter should build a valid deep tree");
    assert!(tree.height() > 1, "tree should be deep enough for recursion");
    for expected_key in keys {
        let result = tree.pop_last(&store).expect("pop_last should succeed on deep tree");
        let popped = result.popped.expect("popped should be Some");
        assert_eq!(popped.key, expected_key);
        tree = result.remaining.unwrap_or_default();
    }
    assert!(tree.is_empty());
}

#[test]
fn pop_last_returns_valid_leaf() {
    let store = InMemoryStore::default();
    let key1 = gen_key_v8();
    let key2 = gen_key_v8();
    let (smaller_key, larger_key) = if key1 < key2 { (key1, key2) } else { (key2, key1) };
    let leaf1 = leaf(smaller_key, 100, &store);
    let leaf2 = leaf(larger_key, 200, &store);
    let tree = root_of(vec![leaf1, leaf2.clone()], &store);
    let result = tree.pop_last(&store).expect("pop_last should succeed");
    let popped = result.popped.expect("popped should be Some");
    assert_eq!(popped.key, larger_key);
    assert!(popped.is_leaf());
    assert_eq!(popped.hkey, leaf2.hkey);
    let remaining = result.remaining.expect("remaining should contain the smaller leaf");
    assert!(remaining.find_one(smaller_key, &store).expect("find_one should succeed").is_some());
}

#[test]
fn pop_first_and_pop_last_on_same_tree() {
    let store = InMemoryStore::default();
    let mut keys: Vec<u128> = (0..4).map(|_| gen_key_v8()).collect();
    keys.sort();
    let tree = root_of(numbered_leaves(&keys, &store), &store);
    let result = tree.pop_first(&store).expect("pop_first should succeed");
    let popped = result.popped.expect("popped should be Some");
    assert_eq!(popped.key, keys[0]);
    let remaining = result.remaining.expect("remaining should contain keys[1..]");
    let result = remaining.pop_last(&store).expect("pop_last should succeed");
    let popped = result.popped.expect("popped should be Some");
    assert_eq!(popped.key, keys[3]);
    let remaining = result.remaining.expect("remaining should contain the middle keys");
    assert!(remaining.find_one(keys[1], &store).expect("find_one should succeed").is_some());
    assert!(remaining.find_one(keys[2], &store).expect("find_one should succeed").is_some());
}
