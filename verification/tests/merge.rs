use ps_hkey::InMemoryStore;
use ps_uuid::UUID;

use ps_htree::HtreeNode;

/// Collects all keys from a tree in sorted order.
fn collect_keys(
    tree: &HtreeNode,
    store: &InMemoryStore,
) -> Result<Vec<u128>, Box<dyn std::error::Error>> {
    let mut it = tree.iter_keys(store);
    let mut keys = Vec::new();
    while let Some(k) = it.next() {
        keys.push(k.unwrap());
    }
    Ok(keys)
}

/// Collects all keys from multiple trees in sorted order.
fn collect_keys_many(
    trees: &[HtreeNode],
    store: &InMemoryStore,
) -> Result<Vec<u128>, Box<dyn std::error::Error>> {
    let mut keys = Vec::new();
    for tree in trees {
        keys.extend(collect_keys(tree, store)?);
    }
    keys.sort();
    Ok(keys)
}

/// Builds a single-root tree from the given keys (with dummy u64 values).
fn make_tree(
    keys: &[u128],
    store: &InMemoryStore,
) -> Result<HtreeNode, Box<dyn std::error::Error>> {
    if keys.is_empty() {
        return Ok(HtreeNode::default());
    }

    let leaves: Vec<HtreeNode> = keys
        .iter()
        .enumerate()
        .map(|(i, k)| HtreeNode::from_kvp(*k, &(i as u64).to_le_bytes(), store).unwrap())
        .collect();

    let mut nodes = HtreeNode::from_many_children(leaves, store).unwrap();
    while nodes.len() > 1 {
        nodes = HtreeNode::from_many_children(nodes, store).unwrap();
    }
    nodes
        .into_iter()
        .next()
        .ok_or("expected at least one node".into())
}

/// Generates `n` random sorted UUIDs.
fn gen_keys(n: usize) -> Vec<u128> {
    let mut keys: Vec<u128> = (0..n).map(|_| UUID::gen_v4().to_u128()).collect();
    keys.sort();
    keys
}

// -- empty trees --

#[test]
fn merge_empty_trees() -> Result<(), Box<dyn std::error::Error>> {
    let store = InMemoryStore::default();
    let a: HtreeNode = HtreeNode::default();
    let b: HtreeNode = HtreeNode::default();

    let merged = a.merge(b, &store).unwrap();
    assert!(merged.is_empty());
    Ok(())
}

#[test]
fn merge_many_empty() -> Result<(), Box<dyn std::error::Error>> {
    let store = InMemoryStore::default();
    let merged = HtreeNode::merge_many(Vec::new(), &store).unwrap();
    assert!(merged.is_empty());
    Ok(())
}

// -- single tree --

#[test]
fn merge_single_tree_preserves_keys() -> Result<(), Box<dyn std::error::Error>> {
    let store = InMemoryStore::default();
    let keys = gen_keys(10);
    let tree = make_tree(&keys, &store)?;

    let merged = HtreeNode::merge_many(vec![tree], &store).unwrap();
    let merged_keys = collect_keys_many(&merged, &store)?;

    assert_eq!(merged_keys, keys);
    Ok(())
}

// -- with empty --

#[test]
fn merge_with_empty_preserves_keys() -> Result<(), Box<dyn std::error::Error>> {
    let store = InMemoryStore::default();
    let keys = gen_keys(10);
    let tree = make_tree(&keys, &store)?;
    let empty: HtreeNode = HtreeNode::default();

    let merged = tree.merge(empty, &store).unwrap();
    let merged_keys = collect_keys(&merged, &store)?;

    assert_eq!(merged_keys, keys);
    Ok(())
}

// -- disjoint trees --

#[test]
fn merge_disjoint_trees() -> Result<(), Box<dyn std::error::Error>> {
    let store = InMemoryStore::default();
    let all_keys = gen_keys(20);
    let a = make_tree(&all_keys[..10], &store)?;
    let b = make_tree(&all_keys[10..], &store)?;

    let merged = a.merge(b, &store).unwrap();
    let merged_keys = collect_keys(&merged, &store)?;

    assert_eq!(merged_keys, all_keys);
    Ok(())
}

// -- split then merge --

#[test]
fn merge_after_split_restores_keys() -> Result<(), Box<dyn std::error::Error>> {
    let store = InMemoryStore::default();
    let keys = gen_keys(20);
    let tree = make_tree(&keys, &store)?;

    let (lt, gte) = tree.split_at(keys[10], &store).unwrap();
    let lt = lt.ok_or("expected lesser")?;
    let gte = gte.ok_or("expected greater")?;

    let merged = lt.merge(gte, &store).unwrap();
    let merged_keys = collect_keys(&merged, &store)?;

    assert_eq!(merged_keys, keys);
    Ok(())
}

#[test]
fn merge_after_split_at_every_position() -> Result<(), Box<dyn std::error::Error>> {
    let store = InMemoryStore::default();
    let keys = gen_keys(15);
    let tree = make_tree(&keys, &store)?;

    for &split_key in &keys {
        let (lt, gte) = tree.split_at(split_key, &store).unwrap();

        let parts: Vec<HtreeNode> = [lt, gte].into_iter().flatten().collect();
        let merged = HtreeNode::merge_many(parts, &store).unwrap();
        let merged_keys = collect_keys_many(&merged, &store)?;

        assert_eq!(
            merged_keys, keys,
            "merge failed after split at {split_key:?}"
        );
    }
    Ok(())
}

// -- overlapping trees --

#[test]
fn merge_overlapping_trees() -> Result<(), Box<dyn std::error::Error>> {
    let store = InMemoryStore::default();
    let keys = gen_keys(20);

    // a has keys[0..15], b has keys[5..20] -- overlap at [5..15]
    let a = make_tree(&keys[..15], &store)?;
    let b = make_tree(&keys[5..], &store)?;

    let merged = a.merge(b, &store).unwrap();
    let merged_keys = collect_keys(&merged, &store)?;

    assert_eq!(merged_keys, keys);
    Ok(())
}

// -- identical trees --

#[test]
fn merge_identical_trees() -> Result<(), Box<dyn std::error::Error>> {
    let store = InMemoryStore::default();
    let keys = gen_keys(10);
    let a = make_tree(&keys, &store)?;
    let b = make_tree(&keys, &store)?;

    let merged = a.merge(b, &store).unwrap();
    let merged_keys = collect_keys(&merged, &store)?;

    assert_eq!(merged_keys, keys);
    Ok(())
}

// -- different heights --

#[test]
fn merge_leaf_with_tall_tree() -> Result<(), Box<dyn std::error::Error>> {
    let store = InMemoryStore::default();
    let keys = gen_keys(21);
    let tree = make_tree(&keys[..20], &store)?;
    let leaf = HtreeNode::from_kvp(keys[20], &(99 as u64).to_le_bytes(), &store).unwrap();

    let merged = tree.merge(leaf, &store).unwrap();
    let merged_keys = collect_keys(&merged, &store)?;

    assert_eq!(merged_keys, keys);
    Ok(())
}

#[test]
fn merge_trees_of_different_heights() -> Result<(), Box<dyn std::error::Error>> {
    let store = InMemoryStore::default();
    let keys = gen_keys(25);

    // small tree (few keys, low height) and large tree (many keys, higher height)
    let small = make_tree(&keys[..3], &store)?;
    let large = make_tree(&keys[3..], &store)?;

    let merged = small.merge(large, &store).unwrap();
    let merged_keys = collect_keys(&merged, &store)?;

    assert_eq!(merged_keys, keys);
    Ok(())
}

// -- merge_many with multiple trees --

#[test]
fn merge_many_disjoint() -> Result<(), Box<dyn std::error::Error>> {
    let store = InMemoryStore::default();
    let keys = gen_keys(30);

    let a = make_tree(&keys[..10], &store)?;
    let b = make_tree(&keys[10..20], &store)?;
    let c = make_tree(&keys[20..], &store)?;

    let merged = HtreeNode::merge_many(vec![a, b, c], &store).unwrap();
    let merged_keys = collect_keys_many(&merged, &store)?;

    assert_eq!(merged_keys, keys);
    Ok(())
}

// -- three-way split and merge --

#[test]
fn three_way_split_and_merge() -> Result<(), Box<dyn std::error::Error>> {
    let store = InMemoryStore::default();
    let keys = gen_keys(30);
    let tree = make_tree(&keys, &store)?;

    let (lt, rest) = tree.split_at(keys[10], &store).unwrap();
    let rest = rest.ok_or("expected rest")?;
    let (mid, gte) = rest.split_at(keys[20], &store).unwrap();

    let parts: Vec<HtreeNode> = [lt, mid, gte].into_iter().flatten().collect();
    let merged = HtreeNode::merge_many(parts, &store).unwrap();
    let merged_keys = collect_keys_many(&merged, &store)?;

    assert_eq!(merged_keys, keys);
    Ok(())
}

// -- large tree --

#[test]
fn large_merge_preserves_all_keys() -> Result<(), Box<dyn std::error::Error>> {
    let store = InMemoryStore::default();
    let keys = gen_keys(100);
    let tree = make_tree(&keys, &store)?;

    let (lt, gte) = tree.split_at(keys[50], &store).unwrap();
    let lt = lt.ok_or("expected lesser")?;
    let gte = gte.ok_or("expected greater")?;

    let merged = lt.merge(gte, &store).unwrap();
    let merged_keys = collect_keys(&merged, &store)?;

    assert_eq!(merged_keys, keys);
    Ok(())
}

// -- find_one on merged tree --

#[test]
fn find_one_works_on_merged_tree() -> Result<(), Box<dyn std::error::Error>> {
    let store = InMemoryStore::default();
    let keys = gen_keys(20);
    let tree = make_tree(&keys, &store)?;

    let (lt, gte) = tree.split_at(keys[10], &store).unwrap();
    let lt = lt.ok_or("expected lesser")?;
    let gte = gte.ok_or("expected greater")?;

    let merged = lt.merge(gte, &store).unwrap();

    for &k in &keys {
        assert!(
            merged.find_one(k, &store).unwrap().is_some(),
            "key {k:?} not found in merged tree"
        );
    }
    Ok(())
}

// =========================================================================
// SIGNIFICANTLY SIMILAR TREES
// =========================================================================

#[test]
fn merge_trees_with_90_percent_overlap() -> Result<(), Box<dyn std::error::Error>> {
    let store = InMemoryStore::default();
    let keys = gen_keys(100);

    // a has keys[0..95], b has keys[5..100] -- 90% overlap at [5..95]
    let a = make_tree(&keys[..95], &store)?;
    let b = make_tree(&keys[5..], &store)?;

    let merged = a.merge(b, &store).unwrap();
    let merged_keys = collect_keys(&merged, &store)?;

    assert_eq!(merged_keys, keys);
    Ok(())
}

#[test]
fn merge_trees_with_99_percent_overlap() -> Result<(), Box<dyn std::error::Error>> {
    let store = InMemoryStore::default();
    let keys = gen_keys(100);

    // a has keys[0..100], b has keys[1..100] -- 99% overlap
    let a = make_tree(&keys, &store)?;
    let b = make_tree(&keys[1..], &store)?;

    let merged = a.merge(b, &store).unwrap();
    let merged_keys = collect_keys(&merged, &store)?;

    assert_eq!(merged_keys, keys);
    Ok(())
}

#[test]
fn merge_nearly_identical_trees_differ_by_one_leaf() -> Result<(), Box<dyn std::error::Error>> {
    let store = InMemoryStore::default();
    let keys = gen_keys(51);

    // a has all but the middle key, b has all but the first key
    let mut a_keys: Vec<u128> = keys[..25].to_vec();
    a_keys.extend_from_slice(&keys[26..]);

    let b_keys: Vec<u128> = keys[1..].to_vec();

    let a = make_tree(&a_keys, &store)?;
    let b = make_tree(&b_keys, &store)?;

    let merged = a.merge(b, &store).unwrap();
    let merged_keys = collect_keys(&merged, &store)?;

    assert_eq!(merged_keys, keys);
    Ok(())
}

#[test]
fn merge_tree_with_itself() -> Result<(), Box<dyn std::error::Error>> {
    let store = InMemoryStore::default();
    let keys = gen_keys(50);
    let tree = make_tree(&keys, &store)?;

    let merged = tree.clone().merge(tree.clone(), &store).unwrap();
    let merged_keys = collect_keys(&merged, &store)?;

    assert_eq!(merged_keys, keys);
    Ok(())
}

#[test]
fn merge_subset_into_superset() -> Result<(), Box<dyn std::error::Error>> {
    let store = InMemoryStore::default();
    let keys = gen_keys(50);

    let superset = make_tree(&keys, &store)?;
    let subset = make_tree(&keys[10..40], &store)?;

    let merged = superset.merge(subset, &store).unwrap();
    let merged_keys = collect_keys(&merged, &store)?;

    assert_eq!(merged_keys, keys);
    Ok(())
}

#[test]
fn merge_superset_into_subset() -> Result<(), Box<dyn std::error::Error>> {
    let store = InMemoryStore::default();
    let keys = gen_keys(50);

    let superset = make_tree(&keys, &store)?;
    let subset = make_tree(&keys[10..40], &store)?;

    // Reverse order from previous test
    let merged = subset.merge(superset, &store).unwrap();
    let merged_keys = collect_keys(&merged, &store)?;

    assert_eq!(merged_keys, keys);
    Ok(())
}

// =========================================================================
// SIGNIFICANTLY DIVERGENT TREES
// =========================================================================

#[test]
fn merge_interleaved_keys_even_odd() -> Result<(), Box<dyn std::error::Error>> {
    let store = InMemoryStore::default();
    let keys = gen_keys(100);

    // a has even indices, b has odd indices -- completely disjoint, interleaved
    let even_keys: Vec<u128> = keys.iter().step_by(2).copied().collect();
    let odd_keys: Vec<u128> = keys.iter().skip(1).step_by(2).copied().collect();

    let a = make_tree(&even_keys, &store)?;
    let b = make_tree(&odd_keys, &store)?;

    let merged = a.merge(b, &store).unwrap();
    let merged_keys = collect_keys(&merged, &store)?;

    assert_eq!(merged_keys, keys);
    Ok(())
}

#[test]
fn merge_interleaved_keys_thirds() -> Result<(), Box<dyn std::error::Error>> {
    let store = InMemoryStore::default();
    let keys = gen_keys(90);

    // Split into three interleaved parts
    let a_keys: Vec<u128> = keys.iter().step_by(3).copied().collect();
    let b_keys: Vec<u128> = keys.iter().skip(1).step_by(3).copied().collect();
    let c_keys: Vec<u128> = keys.iter().skip(2).step_by(3).copied().collect();

    let a = make_tree(&a_keys, &store)?;
    let b = make_tree(&b_keys, &store)?;
    let c = make_tree(&c_keys, &store)?;

    let merged = HtreeNode::merge_many(vec![a, b, c], &store).unwrap();
    let merged_keys = collect_keys_many(&merged, &store)?;

    assert_eq!(merged_keys, keys);
    Ok(())
}

#[test]
fn merge_completely_disjoint_ranges() -> Result<(), Box<dyn std::error::Error>> {
    let store = InMemoryStore::default();
    let keys = gen_keys(100);

    // a has first 25, b has last 25 -- large gap in the middle
    let a = make_tree(&keys[..25], &store)?;
    let b = make_tree(&keys[75..], &store)?;

    let merged = a.merge(b, &store).unwrap();
    let merged_keys = collect_keys(&merged, &store)?;

    let mut expected: Vec<u128> = keys[..25].to_vec();
    expected.extend_from_slice(&keys[75..]);
    assert_eq!(merged_keys, expected);
    Ok(())
}

#[test]
fn merge_many_small_disjoint_ranges() -> Result<(), Box<dyn std::error::Error>> {
    let store = InMemoryStore::default();
    let keys = gen_keys(100);

    // Create 10 trees, each with 10 consecutive keys from disjoint ranges
    let trees: Vec<HtreeNode> = (0..10)
        .map(|i| make_tree(&keys[i * 10..(i + 1) * 10], &store))
        .collect::<Result<Vec<_>, _>>()?;

    let merged = HtreeNode::merge_many(trees, &store).unwrap();
    let merged_keys = collect_keys_many(&merged, &store)?;

    assert_eq!(merged_keys, keys);
    Ok(())
}

#[test]
fn merge_alternating_blocks() -> Result<(), Box<dyn std::error::Error>> {
    let store = InMemoryStore::default();
    let keys = gen_keys(100);

    // a has blocks 0-9, 20-29, 40-49, 60-69, 80-89
    // b has blocks 10-19, 30-39, 50-59, 70-79, 90-99
    let a_keys: Vec<u128> = (0..5)
        .flat_map(|i| keys[i * 20..i * 20 + 10].iter().copied())
        .collect();
    let b_keys: Vec<u128> = (0..5)
        .flat_map(|i| keys[i * 20 + 10..i * 20 + 20].iter().copied())
        .collect();

    let a = make_tree(&a_keys, &store)?;
    let b = make_tree(&b_keys, &store)?;

    let merged = a.merge(b, &store).unwrap();
    let merged_keys = collect_keys(&merged, &store)?;

    assert_eq!(merged_keys, keys);
    Ok(())
}

// =========================================================================
// HEIGHT EDGE CASES
// =========================================================================

#[test]
fn merge_single_leaf_trees() -> Result<(), Box<dyn std::error::Error>> {
    let store = InMemoryStore::default();
    let keys = gen_keys(2);

    let a = HtreeNode::from_kvp(keys[0], &(0 as u64).to_le_bytes(), &store).unwrap();
    let b = HtreeNode::from_kvp(keys[1], &(1 as u64).to_le_bytes(), &store).unwrap();

    let merged = a.merge(b, &store).unwrap();
    let merged_keys = collect_keys(&merged, &store)?;

    assert_eq!(merged_keys, keys);
    Ok(())
}

#[test]
fn merge_single_leaf_with_two_leaf_tree() -> Result<(), Box<dyn std::error::Error>> {
    let store = InMemoryStore::default();
    let keys = gen_keys(3);

    let a = HtreeNode::from_kvp(keys[0], &(0 as u64).to_le_bytes(), &store).unwrap();
    let b = make_tree(&keys[1..], &store)?;

    let merged = a.merge(b, &store).unwrap();
    let merged_keys = collect_keys(&merged, &store)?;

    assert_eq!(merged_keys, keys);
    Ok(())
}

#[test]
fn merge_trees_with_height_difference_of_two() -> Result<(), Box<dyn std::error::Error>> {
    let store = InMemoryStore::default();
    let keys = gen_keys(505);

    // Create a very small tree (height 1) and a larger tree (height 3+)
    let small = make_tree(&keys[..5], &store)?;
    let large = make_tree(&keys[5..], &store)?;

    // The exact height difference depends on MAX_CHILDREN, but we want
    // to test merging trees with significantly different heights
    assert!(
        large.height() > small.height(),
        "large tree should be taller than small tree"
    );

    let merged = small.merge(large, &store).unwrap();
    let merged_keys = collect_keys(&merged, &store)?;

    assert_eq!(merged_keys, keys);
    Ok(())
}

#[test]
fn merge_trees_with_large_height_difference() -> Result<(), Box<dyn std::error::Error>> {
    let store = InMemoryStore::default();
    let keys = gen_keys(202);

    let tiny = make_tree(&keys[..2], &store)?;
    let huge = make_tree(&keys[2..], &store)?;

    let merged = tiny.merge(huge, &store).unwrap();
    let merged_keys = collect_keys(&merged, &store)?;

    assert_eq!(merged_keys, keys);
    Ok(())
}

// =========================================================================
// COMMUTATIVITY AND ASSOCIATIVITY
// =========================================================================

#[test]
fn merge_is_commutative_on_keys() -> Result<(), Box<dyn std::error::Error>> {
    let store = InMemoryStore::default();
    let keys = gen_keys(50);

    let a = make_tree(&keys[..30], &store)?;
    let b = make_tree(&keys[20..], &store)?;

    let ab = a.clone().merge(b.clone(), &store).unwrap();
    let ba = b.merge(a, &store).unwrap();

    let ab_keys = collect_keys(&ab, &store)?;
    let ba_keys = collect_keys(&ba, &store)?;

    assert_eq!(ab_keys, ba_keys);
    Ok(())
}

#[test]
fn merge_many_order_independent_keys() -> Result<(), Box<dyn std::error::Error>> {
    let store = InMemoryStore::default();
    let keys = gen_keys(60);

    let a = make_tree(&keys[..20], &store)?;
    let b = make_tree(&keys[20..40], &store)?;
    let c = make_tree(&keys[40..], &store)?;

    let abc = HtreeNode::merge_many(vec![a.clone(), b.clone(), c.clone()], &store).unwrap();
    let cba = HtreeNode::merge_many(vec![c.clone(), b.clone(), a.clone()], &store).unwrap();
    let bac = HtreeNode::merge_many(vec![b, a, c], &store).unwrap();

    let abc_keys = collect_keys_many(&abc, &store)?;
    let cba_keys = collect_keys_many(&cba, &store)?;
    let bac_keys = collect_keys_many(&bac, &store)?;

    assert_eq!(abc_keys, cba_keys);
    assert_eq!(abc_keys, bac_keys);
    Ok(())
}

#[test]
fn merge_associative_on_keys() -> Result<(), Box<dyn std::error::Error>> {
    let store = InMemoryStore::default();
    let keys = gen_keys(60);

    let a = make_tree(&keys[..20], &store)?;
    let b = make_tree(&keys[20..40], &store)?;
    let c = make_tree(&keys[40..], &store)?;

    // (a merge b) merge c
    let ab = a.clone().merge(b.clone(), &store).unwrap();
    let ab_c = ab.merge(c.clone(), &store).unwrap();

    // a merge (b merge c)
    let bc = b.merge(c, &store).unwrap();
    let a_bc = a.merge(bc, &store).unwrap();

    let ab_c_keys = collect_keys(&ab_c, &store)?;
    let a_bc_keys = collect_keys(&a_bc, &store)?;

    assert_eq!(ab_c_keys, a_bc_keys);
    Ok(())
}

// =========================================================================
// MERGE_MANY EDGE CASES
// =========================================================================

#[test]
fn merge_many_with_empty_in_the_middle() -> Result<(), Box<dyn std::error::Error>> {
    let store = InMemoryStore::default();
    let keys = gen_keys(30);

    let a = make_tree(&keys[..15], &store)?;
    let empty: HtreeNode = HtreeNode::default();
    let b = make_tree(&keys[15..], &store)?;

    let merged = HtreeNode::merge_many(vec![a, empty, b], &store).unwrap();
    let merged_keys = collect_keys_many(&merged, &store)?;

    assert_eq!(merged_keys, keys);
    Ok(())
}

#[test]
fn merge_many_all_empty() -> Result<(), Box<dyn std::error::Error>> {
    let store = InMemoryStore::default();
    let empties: Vec<HtreeNode> = (0..5).map(|_| HtreeNode::default()).collect();

    let merged = HtreeNode::merge_many(empties, &store).unwrap();
    assert!(merged.is_empty());
    Ok(())
}

#[test]
fn merge_many_single_non_empty_among_empties() -> Result<(), Box<dyn std::error::Error>> {
    let store = InMemoryStore::default();
    let keys = gen_keys(10);
    let tree = make_tree(&keys, &store)?;

    let trees: Vec<HtreeNode> = vec![
        HtreeNode::default(),
        HtreeNode::default(),
        tree,
        HtreeNode::default(),
    ];

    let merged = HtreeNode::merge_many(trees, &store).unwrap();
    let merged_keys = collect_keys_many(&merged, &store)?;

    assert_eq!(merged_keys, keys);
    Ok(())
}

#[test]
fn merge_many_with_varying_sizes() -> Result<(), Box<dyn std::error::Error>> {
    let store = InMemoryStore::default();
    let keys = gen_keys(111);

    // Trees of sizes: 1, 10, 50, 50 (disjoint)
    let tiny = make_tree(&keys[..1], &store)?;
    let small = make_tree(&keys[1..11], &store)?;
    let medium = make_tree(&keys[11..61], &store)?;
    let large = make_tree(&keys[61..], &store)?;

    let merged = HtreeNode::merge_many(vec![tiny, small, medium, large], &store).unwrap();
    let merged_keys = collect_keys_many(&merged, &store)?;

    assert_eq!(merged_keys, keys);
    Ok(())
}

#[test]
fn merge_many_ten_overlapping_trees() -> Result<(), Box<dyn std::error::Error>> {
    let store = InMemoryStore::default();
    let keys = gen_keys(100);

    // Create 10 overlapping trees
    let trees: Vec<HtreeNode> = (0..10)
        .map(|i| {
            let start = i * 5;
            let end = (start + 60).min(100);
            make_tree(&keys[start..end], &store)
        })
        .collect::<Result<Vec<_>, _>>()?;

    let merged = HtreeNode::merge_many(trees, &store).unwrap();
    let merged_keys = collect_keys_many(&merged, &store)?;

    assert_eq!(merged_keys, keys);
    Ok(())
}

// =========================================================================
// SEQUENTIAL MERGES
// =========================================================================

#[test]
fn sequential_merges_preserve_keys() -> Result<(), Box<dyn std::error::Error>> {
    let store = InMemoryStore::default();
    let keys = gen_keys(80);

    let a = make_tree(&keys[..20], &store)?;
    let b = make_tree(&keys[20..40], &store)?;
    let c = make_tree(&keys[40..60], &store)?;
    let d = make_tree(&keys[60..], &store)?;

    let merged = a.merge(b, &store).unwrap().merge(c, &store).unwrap().merge(d, &store).unwrap();
    let merged_keys = collect_keys(&merged, &store)?;

    assert_eq!(merged_keys, keys);
    Ok(())
}

#[test]
fn sequential_merges_into_growing_tree() -> Result<(), Box<dyn std::error::Error>> {
    let store = InMemoryStore::default();
    let keys = gen_keys(100);

    let mut merged = HtreeNode::default();

    // Merge single leaves one by one
    for (i, key) in keys.iter().enumerate() {
        let leaf = HtreeNode::from_kvp(*key, &(i as u64).to_le_bytes(), &store).unwrap();
        merged = merged.merge(leaf, &store).unwrap();
    }

    let merged_keys = collect_keys(&merged, &store)?;
    assert_eq!(merged_keys, keys);
    Ok(())
}

// =========================================================================
// BOUNDARY KEYS
// =========================================================================

#[test]
fn merge_with_min_max_keys() -> Result<(), Box<dyn std::error::Error>> {
    let store = InMemoryStore::default();
    let mut keys = gen_keys(10);
    keys.insert(0, 0u128);
    keys.push(u128::MAX);
    keys.sort();

    let a = make_tree(&keys[..6], &store)?;
    let b = make_tree(&keys[6..], &store)?;

    let merged = a.merge(b, &store).unwrap();
    let merged_keys = collect_keys(&merged, &store)?;

    assert_eq!(merged_keys, keys);
    Ok(())
}

#[test]
fn merge_trees_both_containing_nil_key() -> Result<(), Box<dyn std::error::Error>> {
    let store = InMemoryStore::default();
    let mut a_keys = gen_keys(5);
    let mut b_keys = gen_keys(5);
    a_keys.insert(0, 0u128);
    b_keys.insert(0, 0u128);
    a_keys.sort();
    b_keys.sort();

    let a = make_tree(&a_keys, &store)?;
    let b = make_tree(&b_keys, &store)?;

    let merged = a.merge(b, &store).unwrap();
    let merged_keys = collect_keys(&merged, &store)?;

    // Union should have nil exactly once
    let mut expected = a_keys.clone();
    expected.extend_from_slice(&b_keys);
    expected.sort();
    expected.dedup();
    assert_eq!(merged_keys, expected);
    Ok(())
}

// =========================================================================
// STRESS TESTS
// =========================================================================

#[test]
fn stress_merge_200_keys() -> Result<(), Box<dyn std::error::Error>> {
    let store = InMemoryStore::default();
    let keys = gen_keys(200);

    let a = make_tree(&keys[..100], &store)?;
    let b = make_tree(&keys[100..], &store)?;

    let merged = a.merge(b, &store).unwrap();
    let merged_keys = collect_keys(&merged, &store)?;

    assert_eq!(merged_keys, keys);
    Ok(())
}

#[test]
fn stress_merge_many_20_trees() -> Result<(), Box<dyn std::error::Error>> {
    let store = InMemoryStore::default();
    let keys = gen_keys(200);

    let trees: Vec<HtreeNode> = (0..20)
        .map(|i| make_tree(&keys[i * 10..(i + 1) * 10], &store))
        .collect::<Result<Vec<_>, _>>()?;

    let merged = HtreeNode::merge_many(trees, &store).unwrap();
    let merged_keys = collect_keys_many(&merged, &store)?;

    assert_eq!(merged_keys, keys);
    Ok(())
}

#[test]
fn stress_complex_overlapping_merge() -> Result<(), Box<dyn std::error::Error>> {
    let store = InMemoryStore::default();
    let keys = gen_keys(150);

    // Create complex overlapping pattern
    let a = make_tree(&keys[0..100], &store)?;
    let b = make_tree(&keys[25..125], &store)?;
    let c = make_tree(&keys[50..150], &store)?;

    let merged = HtreeNode::merge_many(vec![a, b, c], &store).unwrap();
    let merged_keys = collect_keys_many(&merged, &store)?;

    assert_eq!(merged_keys, keys);
    Ok(())
}

// =========================================================================
// FIND/ITERATION ON MERGED TREES
// =========================================================================

#[test]
fn find_one_works_on_divergent_merge() -> Result<(), Box<dyn std::error::Error>> {
    let store = InMemoryStore::default();
    let keys = gen_keys(100);

    let even: Vec<u128> = keys.iter().step_by(2).copied().collect();
    let odd: Vec<u128> = keys.iter().skip(1).step_by(2).copied().collect();

    let a = make_tree(&even, &store)?;
    let b = make_tree(&odd, &store)?;

    let merged = a.merge(b, &store).unwrap();

    for &k in &keys {
        assert!(
            merged.find_one(k, &store).unwrap().is_some(),
            "key {k:?} not found"
        );
    }
    Ok(())
}

#[test]
fn find_one_works_on_similar_merge() -> Result<(), Box<dyn std::error::Error>> {
    let store = InMemoryStore::default();
    let keys = gen_keys(100);

    let a = make_tree(&keys[..95], &store)?;
    let b = make_tree(&keys[5..], &store)?;

    let merged = a.merge(b, &store).unwrap();

    for &k in &keys {
        assert!(
            merged.find_one(k, &store).unwrap().is_some(),
            "key {k:?} not found"
        );
    }
    Ok(())
}

#[test]
fn iter_keys_on_complex_merge() -> Result<(), Box<dyn std::error::Error>> {
    let store = InMemoryStore::default();
    let keys = gen_keys(100);

    // Create 5 trees with different patterns
    let trees = vec![
        make_tree(&keys[..40], &store)?,
        make_tree(&keys[20..60], &store)?,
        make_tree(&keys[40..80], &store)?,
        make_tree(&keys[60..100], &store)?,
        make_tree(&keys[30..70], &store)?,
    ];

    let merged = HtreeNode::merge_many(trees, &store).unwrap();
    let merged_keys = collect_keys_many(&merged, &store)?;

    assert_eq!(merged_keys, keys);

    // Verify iteration is in sorted order
    let mut prev: Option<u128> = None;
    for k in &merged_keys {
        if let Some(p) = prev {
            assert!(p < *k, "keys not sorted: {p:?} >= {k:?}");
        }
        prev = Some(*k);
    }
    Ok(())
}

// =========================================================================
// SPLIT-MERGE ROUND-TRIP
// =========================================================================

#[test]
fn split_merge_roundtrip_at_random_positions() -> Result<(), Box<dyn std::error::Error>> {
    let store = InMemoryStore::default();
    let keys = gen_keys(50);
    let tree = make_tree(&keys, &store)?;

    // Split at various positions and verify merge restores
    for split_pos in [0, 1, 10, 25, 40, 49] {
        let (lt, gte) = tree.split_at(keys[split_pos], &store).unwrap();
        let parts: Vec<HtreeNode> = [lt, gte].into_iter().flatten().collect();
        let merged = HtreeNode::merge_many(parts, &store).unwrap();
        let merged_keys = collect_keys_many(&merged, &store)?;

        assert_eq!(merged_keys, keys, "failed at split position {split_pos}");
    }
    Ok(())
}

#[test]
fn multiple_split_merge_cycles() -> Result<(), Box<dyn std::error::Error>> {
    let store = InMemoryStore::default();
    let keys = gen_keys(40);
    let tree = make_tree(&keys, &store)?;

    // Split, merge, split again, merge again
    let (lt, gte) = tree.split_at(keys[20], &store).unwrap();
    let lt = lt.unwrap_or_default();
    let gte = gte.unwrap_or_default();

    let merged1 = lt.merge(gte, &store).unwrap();

    let (lt2, gte2) = merged1.split_at(keys[10], &store).unwrap();
    let lt2 = lt2.unwrap_or_default();
    let gte2 = gte2.unwrap_or_default();

    let merged2 = lt2.merge(gte2, &store).unwrap();

    let merged_keys = collect_keys(&merged2, &store)?;
    assert_eq!(merged_keys, keys);
    Ok(())
}

// =========================================================================
// COMPLEXITY TESTS
// =========================================================================
