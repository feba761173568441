use ps_hkey::InMemoryStore;

use ps_htree::{HtreeKey, HtreeNode, HtreeNodeFromChildrenError, HtreeNodeWritable};

fn value_of(i: u128) -> Vec<u8> {
    (i as u64).to_le_bytes().to_vec()
}

fn tree_of(keys: &[u128], store: &InMemoryStore) -> HtreeNode {
    if keys.is_empty() {
        return HtreeNode::default();
    }
    let leaves: Vec<HtreeNode> = keys.iter().map(|k| HtreeNode::from_kvp(*k, &value_of(*k), store).unwrap()).collect();
    let mut nodes = HtreeNode::from_many_children(leaves, store).unwrap();
    while nodes.len() > 1 {
        nodes = HtreeNode::from_many_children(nodes, store).unwrap();
    }
    nodes.into_iter().next().unwrap()
}

fn keys_in(tree: &HtreeNode, store: &InMemoryStore) -> Vec<u128> {
    let mut it = tree.iter_keys(store);
    let mut out = Vec::new();
    while let Some(k) = it.next() {
        out.push(k.unwrap());
    }
    out
}

#[test]
fn unsigned_keys_widen_unchanged() {
    let store = InMemoryStore::default();
    assert_eq!(7u8.try_to_uuid(&store).unwrap(), 7);
    assert_eq!(0xBEEFu16.try_to_uuid(&store).unwrap(), 0xBEEF);
    assert_eq!(u32::MAX.try_to_uuid(&store).unwrap(), u32::MAX as u128);
    assert_eq!(u64::MAX.try_to_uuid(&store).unwrap(), u64::MAX as u128);
    assert_eq!(u128::MAX.try_to_uuid(&store).unwrap(), u128::MAX);
    assert_eq!(42usize.try_to_uuid(&store).unwrap(), 42);
}

#[test]
fn signed_keys_sign_extend() {
    let store = InMemoryStore::default();
    assert_eq!((-1i8).try_to_uuid(&store).unwrap(), u128::MAX);
    assert_eq!((-2i16).try_to_uuid(&store).unwrap(), u128::MAX - 1);
    assert_eq!(5i32.try_to_uuid(&store).unwrap(), 5);
    assert_eq!(i64::MIN.try_to_uuid(&store).unwrap(), (i64::MIN as i128) as u128);
    assert_eq!(i128::MIN.try_to_uuid(&store).unwrap(), 1u128 << 127);
    assert_eq!((-3isize).try_to_uuid(&store).unwrap(), u128::MAX - 2);
}

#[test]
fn bool_char_and_unit_keys() {
    let store = InMemoryStore::default();
    assert_eq!(true.try_to_uuid(&store).unwrap(), 1);
    assert_eq!(false.try_to_uuid(&store).unwrap(), 0);
    assert_eq!('A'.try_to_uuid(&store).unwrap(), 65);
    assert_eq!('\u{1F600}'.try_to_uuid(&store).unwrap(), 0x1F600);
    assert_eq!(().try_to_uuid(&store).unwrap(), 0);
}

#[test]
fn stored_value_reads_back() {
    let store = InMemoryStore::default();
    let long: Vec<u8> = (0..500u32).map(|i| (i % 251) as u8).collect();
    let leaf = HtreeNode::from_kvp(9, &long, &store).unwrap();
    assert_eq!(leaf.key(), 9);
    assert_eq!(leaf.find_one_value(9, &store).unwrap(), Some(long.clone()));
    assert_eq!(leaf.find_one_value(10, &store).unwrap(), None);
    let short = vec![1u8, 2, 3];
    let small = HtreeNode::from_kvp(9, &short, &store).unwrap();
    assert_eq!(small.find_one_value(9, &store).unwrap(), Some(short));
    assert!(small != leaf);
}

#[test]
fn merge_keeps_keys_of_both_trees() {
    let store = InMemoryStore::default();
    let a: Vec<u128> = (1..=40).collect();
    let b: Vec<u128> = (30..=70).collect();
    let merged = tree_of(&a, &store).merge(tree_of(&b, &store), &store).unwrap();
    let expected: Vec<u128> = (1..=70).collect();
    assert_eq!(keys_in(&merged, &store), expected);
}

#[test]
fn merge_with_empty_tree_keeps_keys() {
    let store = InMemoryStore::default();
    let a: Vec<u128> = (100..=160).collect();
    let merged = tree_of(&a, &store).merge(HtreeNode::default(), &store).unwrap();
    assert_eq!(keys_in(&merged, &store), a);
    let both_empty = HtreeNode::default().merge(HtreeNode::default(), &store).unwrap();
    assert!(both_empty.is_empty());
}

#[test]
fn merge_many_of_leaves_builds_parents() {
    let store = InMemoryStore::default();
    let leaves: Vec<HtreeNode> = [5u128, 3, 9].iter().map(|k| HtreeNode::from_kvp(*k, &value_of(*k), &store).unwrap()).collect();
    let parents = HtreeNode::merge_many(leaves, &store).unwrap();
    assert_eq!(parents.len(), 1);
    assert_eq!(parents[0].height(), 1);
    assert_eq!(keys_in(&parents[0], &store), vec![3, 5, 9]);
}

#[test]
fn insert_then_find_gives_inserted_value() {
    let store = InMemoryStore::default();
    let keys: Vec<u128> = (0..50).map(|i| i * 10).collect();
    let tree = tree_of(&keys, &store);
    let roots = tree.insert_one(255, b"inserted", &store).unwrap();
    let root = if roots.len() == 1 {
        roots.into_iter().next().unwrap()
    } else {
        HtreeNode::from_children(roots, &store).unwrap()
    };
    assert_eq!(root.find_one_value(255, &store).unwrap(), Some(b"inserted".to_vec()));
    assert_eq!(root.find_one_value(250, &store).unwrap(), Some(value_of(250)));
    assert_eq!(root.count_leaves(&store).unwrap(), 51);
}

#[test]
fn delete_many_twice_is_delete_many_once() {
    let store = InMemoryStore::default();
    let keys: Vec<u128> = (1..=90).collect();
    let tree = tree_of(&keys, &store);
    let gone = [3u128, 40, 41, 89, 1000];
    let once = tree.delete_many(&gone, &store).unwrap();
    let twice = once.delete_many(&gone, &store).unwrap();
    assert_eq!(keys_in(&once, &store), keys_in(&twice, &store));
    let expected: Vec<u128> = keys.iter().copied().filter(|k| !gone.contains(k)).collect();
    assert_eq!(keys_in(&once, &store), expected);
}

#[test]
fn split_at_parts_by_key() {
    let store = InMemoryStore::default();
    let keys: Vec<u128> = (1..=60).collect();
    let tree = tree_of(&keys, &store);
    let (left, right) = tree.split_at(25, &store).unwrap();
    let left = left.unwrap();
    let right = right.unwrap();
    assert_eq!(keys_in(&left, &store), (1..25).collect::<Vec<u128>>());
    assert_eq!(keys_in(&right, &store), (25..=60).collect::<Vec<u128>>());
    assert_eq!(left.height(), tree.height());
    let (none, all) = tree.split_at(0, &store).unwrap();
    assert!(none.is_none());
    assert_eq!(keys_in(&all.unwrap(), &store), keys);
    let (all, none) = tree.split_at(61, &store).unwrap();
    assert!(none.is_none());
    assert_eq!(keys_in(&all.unwrap(), &store), keys);
}

#[test]
fn first_and_last_leaves() {
    let store = InMemoryStore::default();
    let keys: Vec<u128> = (7..=77).collect();
    let tree = tree_of(&keys, &store);
    assert_eq!(tree.first(&store).unwrap().unwrap().key(), 7);
    assert_eq!(tree.last(&store).unwrap().unwrap().key(), 77);
    let empty = HtreeNode::default();
    assert!(empty.first(&store).unwrap().is_none());
    assert!(empty.last(&store).unwrap().is_none());
}

#[test]
fn find_range_is_inclusive() {
    let store = InMemoryStore::default();
    let keys: Vec<u128> = (0..100).map(|i| i * 2).collect();
    let tree = tree_of(&keys, &store);
    let found: Vec<u128> = tree.find_range(10, 20, &store).unwrap().iter().map(|l| l.key()).collect();
    assert_eq!(found, vec![10, 12, 14, 16, 18, 20]);
    let found: Vec<u128> = tree.find_range(11, 11, &store).unwrap().iter().map(|l| l.key()).collect();
    assert!(found.is_empty());
    let found: Vec<u128> = tree.find_range(20, 10, &store).unwrap().iter().map(|l| l.key()).collect();
    assert!(found.is_empty());
}

#[test]
fn drain_all_moves_leaves_out() {
    let store = InMemoryStore::default();
    let keys: Vec<u128> = (1..=5).collect();
    let mut tree = tree_of(&keys, &store);
    assert_eq!(tree.height(), 1);
    let drained: Vec<u128> = tree.drain_all().iter().map(|l| l.key()).collect();
    assert_eq!(drained, keys);
    assert!(tree.is_empty());
    assert_eq!(tree.count_leaves(&store).unwrap(), 0);
    assert!(tree.drain_all().is_empty());
    let mut leaf = HtreeNode::from_kvp(1, b"v", &store).unwrap();
    let out = leaf.drain_all();
    assert_eq!(out.len(), 1);
    assert!(out[0].is_leaf());
    assert_eq!(out[0].key(), 1);
    assert!(leaf.is_empty());
}

#[test]
fn pop_first_and_last_take_the_ends() {
    let store = InMemoryStore::default();
    let keys: Vec<u128> = (1..=45).collect();
    let tree = tree_of(&keys, &store);
    let popped = tree.pop_first(&store).unwrap();
    assert_eq!(popped.popped.unwrap().key(), 1);
    let rest = popped.remaining.unwrap();
    assert_eq!(keys_in(&rest, &store), (2..=45).collect::<Vec<u128>>());
    let popped = rest.pop_last(&store).unwrap();
    assert_eq!(popped.popped.unwrap().key(), 45);
    assert_eq!(keys_in(&popped.remaining.unwrap(), &store), (2..45).collect::<Vec<u128>>());
    let empty = HtreeNode::default().pop_first(&store).unwrap();
    assert!(empty.popped.is_none());
}

#[test]
fn from_children_refuses_mixed_heights() {
    let store = InMemoryStore::default();
    let leaf = HtreeNode::from_kvp(1, b"a", &store).unwrap();
    let parent = tree_of(&[5, 6, 7], &store);
    let r = HtreeNode::from_children(vec![leaf, parent], &store);
    assert!(matches!(r, Err(HtreeNodeFromChildrenError::ChildHeightInconsistent)));
    let empty = HtreeNode::from_children(Vec::new(), &store).unwrap();
    assert!(empty.is_empty());
}

#[test]
fn count_leaves_counts_every_leaf() {
    let store = InMemoryStore::default();
    let keys: Vec<u128> = (0..333).collect();
    let tree = tree_of(&keys, &store);
    assert_eq!(tree.count_leaves(&store).unwrap(), 333);
    assert_eq!(HtreeNode::default().count_leaves(&store).unwrap(), 0);
}

#[test]
fn fetch_children_gives_children_in_order() {
    let store = InMemoryStore::default();
    let keys: Vec<u128> = (10..=14).collect();
    let tree = tree_of(&keys, &store);
    let kids: Vec<u128> = tree.fetch_children(&store).unwrap().iter().map(|c| c.key()).collect();
    assert_eq!(kids, keys);
    let leaf = HtreeNode::from_kvp(3, b"x", &store).unwrap();
    assert!(leaf.fetch_children(&store).unwrap().is_empty());
}

#[test]
fn values_and_entries_read_back_in_key_order() {
    let store = InMemoryStore::default();
    let keys: Vec<u128> = vec![30, 10, 20];
    let items: Vec<(u128, Vec<u8>)> = keys.iter().map(|k| (*k, format!("value-{k}").into_bytes())).collect();
    let tree = HtreeNode::from_kvp_iter(&items, &store).unwrap();
    let mut values = Vec::new();
    let mut it = tree.iter_values(&store);
    while let Some(v) = it.next() {
        values.push(String::from_utf8(v.unwrap()).unwrap());
    }
    assert_eq!(values, vec!["value-10", "value-20", "value-30"]);
    let mut back = Vec::new();
    let mut it = tree.iter_entries(&store);
    while let Some(e) = it.next_back() {
        let (k, v) = e.unwrap();
        back.push((k, String::from_utf8(v).unwrap()));
    }
    assert_eq!(back, vec![(30, "value-30".to_string()), (20, "value-20".to_string()), (10, "value-10".to_string())]);
}

#[test]
fn retain_sees_each_value() {
    let store = InMemoryStore::default();
    let items: Vec<(u128, Vec<u8>)> = (1..=20u128).map(|k| (k, vec![(k % 3) as u8])).collect();
    let tree = HtreeNode::from_kvp_iter(&items, &store).unwrap();
    let kept = tree.retain(|_, v| v == vec![0u8], &store).unwrap();
    assert_eq!(keys_in(&kept, &store), vec![3, 6, 9, 12, 15, 18]);
}

#[test]
fn merge_after_delete_and_insert_keeps_keys() {
    let store = InMemoryStore::default();
    let a: Vec<u128> = (1..=50).collect();
    let gone: Vec<u128> = (10..=20).collect();
    let t1 = tree_of(&a, &store).delete_many(&gone, &store).unwrap();
    let roots = t1.insert_one(100, b"late", &store).unwrap();
    assert_eq!(roots.len(), 1);
    let t1 = roots.into_iter().next().unwrap();
    let b: Vec<u128> = (15..=30).collect();
    let merged = t1.merge(tree_of(&b, &store), &store).unwrap();
    let mut expected: Vec<u128> = (1..=9).chain(15..=50).collect();
    expected.push(100);
    assert_eq!(keys_in(&merged, &store), expected);
    assert_eq!(merged.find_one_value(100, &store).unwrap(), Some(b"late".to_vec()));
}

#[test]
fn nodes_order_by_key_then_hkey() {
    let store = InMemoryStore::default();
    let a = HtreeNode::from_kvp(1, b"b", &store).unwrap();
    let b = HtreeNode::from_kvp(2, b"a", &store).unwrap();
    let c = HtreeNode::from_kvp(1, b"a", &store).unwrap();
    assert!(a < b);
    assert!(c < a);
    assert_eq!(a.partial_cmp(&HtreeNode::from_kvp(1, b"b", &store).unwrap()), Some(std::cmp::Ordering::Equal));
    assert!(a == HtreeNode::from_kvp(1, b"b", &store).unwrap());
}

#[test]
fn writable_states_compare_by_children() {
    let store = InMemoryStore::default();
    let leaf = |k: u128| HtreeNode::from_kvp(k, b"v", &store).unwrap();
    let no_children = HtreeNodeWritable::Internal { children: std::sync::Arc::new(Vec::new()) };
    assert!(HtreeNodeWritable::Empty == HtreeNodeWritable::Empty);
    assert!(no_children == HtreeNodeWritable::Empty);
    assert!(HtreeNodeWritable::Leaf == HtreeNodeWritable::Leaf);
    assert!(HtreeNodeWritable::Leaf != HtreeNodeWritable::Empty);
    assert!(HtreeNodeWritable::Wrapped == HtreeNodeWritable::Wrapped);
    let a = HtreeNodeWritable::Internal { children: std::sync::Arc::new(vec![leaf(1), leaf(2)]) };
    let b = HtreeNodeWritable::Internal { children: std::sync::Arc::new(vec![leaf(1), leaf(2)]) };
    let c = HtreeNodeWritable::Internal { children: std::sync::Arc::new(vec![leaf(1)]) };
    assert!(a == b);
    assert!(a != c);
}

#[test]
fn insert_into_leaf_keeps_its_leaf() {
    let store = InMemoryStore::default();
    let s = HtreeNode::from_kvp(1, &1u64.to_le_bytes(), &store).unwrap();
    let c = HtreeNode::from_kvp(2, &2u64.to_le_bytes(), &store).unwrap();
    let out = s.insert_leaves(vec![c], &store).unwrap();
    let mut keys = Vec::new();
    for n in &out {
        keys.extend(keys_in(n, &store));
    }
    assert_eq!(keys, vec![1, 2]);
}

#[test]
fn delete_from_wide_node_keeps_other_leaves() {
    let store = InMemoryStore::default();
    let leaves: Vec<HtreeNode> = (1..=40u128).map(|k| HtreeNode::from_kvp(k, &value_of(k), &store).unwrap()).collect();
    let wide = HtreeNode::from_children(leaves, &store).unwrap();
    assert_eq!(wide.height(), 1);
    let after = wide.delete_many(&[7], &store).unwrap();
    assert_eq!(after.height(), 1);
    let expected: Vec<u128> = (1..=40).filter(|k| *k != 7).collect();
    assert_eq!(keys_in(&after, &store), expected);
    assert_eq!(after.find_one_value(8, &store).unwrap(), Some(value_of(8)));
}

#[test]
fn byte_keys_read_compact_forms() {
    let store = InMemoryStore::default();
    let k = ps_htree::key::bytes_key(&store, b"abc").unwrap();
    assert_eq!(k, 0x616263u128 << (13 * 8));
    let full: Vec<u8> = (1..=20u8).collect();
    let mut first16 = [0u8; 16];
    first16.copy_from_slice(&full[..16]);
    assert_eq!(full.try_to_uuid(&store).unwrap(), u128::from_be_bytes(first16));
    let long: Vec<u8> = (0..100u32).map(|i| (i * 7 % 256) as u8).collect();
    let a = ps_htree::key::bytes_key(&store, &long).unwrap();
    let other = InMemoryStore::default();
    let b = long.try_to_uuid(&other).unwrap();
    assert_eq!(a, b);
    assert_ne!(a, ps_htree::key::bytes_key(&store, &long[..99]).unwrap());
}

#[test]
fn key_bytes_and_references() {
    let store = InMemoryStore::default();
    let bytes = 0x0102u16.try_to_bytes(&store).unwrap();
    let mut expected = vec![0u8; 14];
    expected.extend_from_slice(&[1, 2]);
    assert_eq!(bytes, expected);
    assert_eq!(0x0102u16.try_to_hkey(&store).unwrap(), expected);
}

#[test]
fn disjoint_single_subtree_is_itself() {
    let store = InMemoryStore::default();
    let keys: Vec<u128> = (1..=10).collect();
    let t = tree_of(&keys, &store);
    let merged = HtreeNode::merge_disjoint_subtrees(vec![HtreeNode::default(), t.clone(), HtreeNode::default()], &store).unwrap();
    assert!(merged == t);
    assert_eq!(keys_in(&merged, &store), keys);
}

#[test]
fn retain_all_inline_keeps_tree() {
    let store = InMemoryStore::default();
    let items: Vec<(u128, Vec<u8>)> = (1..=40u128).map(|k| (k, vec![k as u8])).collect();
    let tree = HtreeNode::from_kvp_iter(&items, &store).unwrap();
    let kept = tree.retain(|_, _| true, &store).unwrap();
    assert!(kept == tree);
}

#[test]
fn array_and_reference_keys() {
    let store = InMemoryStore::default();
    let arr: [u8; 3] = *b"abc";
    assert_eq!(arr.try_to_uuid(&store).unwrap(), 0x616263u128 << (13 * 8));
    let x = 9u32;
    let r = &x;
    assert_eq!(r.try_to_uuid(&store).unwrap(), 9);
    let rr = &r;
    assert_eq!(rr.try_to_uuid(&store).unwrap(), 9);
}

#[test]
fn merge_many_of_leaves_keeps_last_of_each_key() {
    let store = InMemoryStore::default();
    let a = HtreeNode::from_kvp(1, b"ten", &store).unwrap();
    let b = HtreeNode::from_kvp(1, b"twenty", &store).unwrap();
    let c = HtreeNode::from_kvp(2, b"thirty", &store).unwrap();
    let v = HtreeNode::merge_many(vec![a, b, c], &store).unwrap();
    assert_eq!(v.len(), 1);
    assert_eq!(v[0].height(), 1);
    assert_eq!(keys_in(&v[0], &store), vec![1, 2]);
    assert_eq!(v[0].find_one_value(1, &store).unwrap(), Some(b"twenty".to_vec()));
}
