use ps_hkey::InMemoryStore;
use ps_htree::HtreeNode;
use ps_uuid::UUID;

fn make_leaf(key: u128, v: u64, store: &InMemoryStore) -> HtreeNode {
    HtreeNode::from_kvp(key, &v.to_le_bytes(), store).expect("from_kvp should succeed")
}

fn sorted_keys(n: usize) -> Vec<u128> {
    let mut keys: Vec<u128> = (0..n).map(|_| UUID::gen_v4().to_u128()).collect();
    keys.sort();
    keys
}

fn collect_keys(tree: &HtreeNode, store: &InMemoryStore) -> Vec<u128> {
    let mut it = tree.iter_keys(store);
    let mut out = Vec::new();
    while let Some(k) = it.next() {
        out.push(k.expect("iter_keys should succeed"));
    }
    out
}

fn make_tree(keys: &[u128], store: &InMemoryStore) -> HtreeNode {
    if keys.is_empty() {
        return HtreeNode::default();
    }
    let leaves: Vec<_> = keys.iter().enumerate().map(|(i, k)| make_leaf(*k, i as u64, store)).collect();
    let parents = HtreeNode::from_many_children(leaves, store).expect("from_many_children should succeed");
    if parents.len() <= 1 {
        return parents.into_iter().next().unwrap_or_default();
    }
    HtreeNode::from_children(parents, store).expect("from_children should succeed")
}

fn key_from_bytes(bytes: [u8; 16]) -> u128 {
    UUID::from(bytes).to_u128()
}

#[test]
fn test_empty_input() {
    let store = InMemoryStore::default();
    let result = HtreeNode::merge_disjoint_subtrees(Vec::new(), &store).expect("should succeed");
    assert!(result.is_empty());
}

#[test]
fn test_single_leaf() {
    let store = InMemoryStore::default();
    let key = UUID::gen_v4().to_u128();
    let leaf = make_leaf(key, 42, &store);
    let result = HtreeNode::merge_disjoint_subtrees(vec![leaf.clone()], &store).expect("should succeed");
    assert_eq!(result.key, leaf.key);
    assert_eq!(result.height(), 0);
}

#[test]
fn test_multiple_leaves_same_height() {
    let store = InMemoryStore::default();
    let keys = sorted_keys(5);
    let leaves: Vec<_> = keys.iter().enumerate().map(|(i, k)| make_leaf(*k, i as u64, &store)).collect();
    let result = HtreeNode::merge_disjoint_subtrees(leaves, &store).expect("should succeed");
    assert_eq!(collect_keys(&result, &store), keys);
}

#[test]
fn test_subtrees_different_heights() {
    let store = InMemoryStore::default();
    let keys_a: Vec<u128> = (0..1)
        .map(|i: u8| {
            let mut bytes = [0u8; 16];
            bytes[0] = 0x10;
            bytes[15] = i;
            key_from_bytes(bytes)
        })
        .collect();
    let keys_b: Vec<u128> = (0..50)
        .map(|i: u8| {
            let mut bytes = [0u8; 16];
            bytes[0] = 0x20;
            bytes[15] = i;
            key_from_bytes(bytes)
        })
        .collect();
    let keys_c: Vec<u128> = (0..10)
        .map(|i: u8| {
            let mut bytes = [0u8; 16];
            bytes[0] = 0x30;
            bytes[15] = i;
            key_from_bytes(bytes)
        })
        .collect();
    let mut all_keys: Vec<u128> = keys_a.iter().chain(keys_b.iter()).chain(keys_c.iter()).copied().collect();
    all_keys.sort();
    let tree_a = make_tree(&keys_a, &store);
    let tree_b = make_tree(&keys_b, &store);
    let tree_c = make_tree(&keys_c, &store);
    let result = HtreeNode::merge_disjoint_subtrees(vec![tree_a, tree_b, tree_c], &store).expect("should succeed");
    assert_eq!(collect_keys(&result, &store), all_keys);
}

#[test]
fn test_with_empty_nodes() {
    let store = InMemoryStore::default();
    let keys = sorted_keys(3);
    let leaves: Vec<_> = keys.iter().enumerate().map(|(i, k)| make_leaf(*k, i as u64, &store)).collect();
    let input = vec![HtreeNode::default(), leaves[0].clone(), HtreeNode::default(), leaves[1].clone(), leaves[2].clone()];
    let result = HtreeNode::merge_disjoint_subtrees(input, &store).expect("should succeed");
    assert_eq!(collect_keys(&result, &store), keys);
}

#[test]
fn test_preserves_key_ordering() {
    let store = InMemoryStore::default();
    let keys_high: Vec<u128> = (0..5)
        .map(|i| {
            let mut bytes = [0xFFu8; 16];
            bytes[15] = i;
            key_from_bytes(bytes)
        })
        .collect();
    let keys_low: Vec<u128> = (0..5)
        .map(|i| {
            let mut bytes = [0x00u8; 16];
            bytes[15] = i;
            key_from_bytes(bytes)
        })
        .collect();
    let tree_high = make_tree(&keys_high, &store);
    let tree_low = make_tree(&keys_low, &store);
    let result = HtreeNode::merge_disjoint_subtrees(vec![tree_high, tree_low], &store).expect("should succeed");
    let mut expected: Vec<u128> = keys_low.iter().chain(keys_high.iter()).copied().collect();
    expected.sort();
    assert_eq!(collect_keys(&result, &store), expected);
}

#[test]
fn test_all_empty_nodes() {
    let store = InMemoryStore::default();
    let empties: Vec<HtreeNode> = (0..5).map(|_| HtreeNode::default()).collect();
    let result = HtreeNode::merge_disjoint_subtrees(empties, &store).expect("should succeed");
    assert!(result.is_empty());
}
