use bustubx::buffer::BufferPoolManager;
use bustubx::catalog::Column;
use bustubx::catalog::DataType;
use bustubx::catalog::Schema;
use bustubx::common::bound::Bound;
use bustubx::common::rid::RecordId;
use bustubx::storage::BPlusTreeIndex;
use bustubx::storage::BPlusTreePage;
use bustubx::storage::DiskManager;
use bustubx::storage::ScalarValue;
use bustubx::storage::TreeIndexIterator;
use bustubx::storage::Tuple;

fn key_schema() -> Schema {
    Schema::new(vec![
        Column::new("a".to_string(), DataType::Int8, false),
        Column::new("b".to_string(), DataType::Int16, false),
    ])
}

fn key(i: i8) -> Tuple {
    Tuple::new(vec![i.into(), (i as i16).into()])
}

fn build_index() -> BPlusTreeIndex {
    let disk_manager = DiskManager::new();
    let buffer_pool = BufferPoolManager::new(1000, disk_manager);
    assert!(BPlusTreeIndex::parameters_fit(&key_schema(), 4, 4));
    let mut index = BPlusTreeIndex::new(key_schema(), buffer_pool, 4, 4);
    for i in 1..=11i8 {
        index.insert(&key(i), RecordId::new(i as u32, i as u32)).unwrap();
    }
    index
}

fn leaf_keys(index: &mut BPlusTreeIndex, page_id: u32) -> (Vec<Tuple>, u32) {
    match index.tree_page(page_id).unwrap() {
        BPlusTreePage::Leaf(leaf) => (
            leaf.array.iter().map(|kv| kv.0.clone()).collect(),
            leaf.next_page_id,
        ),
        BPlusTreePage::Internal(_) => panic!("page {} is not a leaf", page_id),
    }
}

fn children(index: &mut BPlusTreeIndex, page_id: u32) -> (Vec<Tuple>, Vec<u32>) {
    match index.tree_page(page_id).unwrap() {
        BPlusTreePage::Internal(page) => (
            page.array.iter().map(|kv| kv.0.clone()).collect(),
            page.array.iter().map(|kv| kv.1).collect(),
        ),
        BPlusTreePage::Leaf(_) => panic!("page {} is not internal", page_id),
    }
}

#[test]
pub fn test_index_insert() {
    let mut index = build_index();
    let null_key = Tuple::new(vec![ScalarValue::Int8(None), ScalarValue::Int16(None)]);
    let root = index.root_page_id();
    let (root_keys, root_children) = children(&mut index, root);
    assert_eq!(root_keys, vec![null_key.clone(), key(5)]);
    assert_eq!(root_children.len(), 2);

    let (left_keys, left_children) = children(&mut index, root_children[0]);
    assert_eq!(left_keys, vec![null_key.clone(), key(3)]);
    let (right_keys, right_children) = children(&mut index, root_children[1]);
    assert_eq!(right_keys, vec![key(5), key(7), key(9)]);

    let leaves: Vec<u32> = left_children.iter().chain(right_children.iter()).copied().collect();
    assert_eq!(leaves.len(), 5);
    let expected: Vec<Vec<i8>> = vec![vec![1, 2], vec![3, 4], vec![5, 6], vec![7, 8], vec![9, 10, 11]];
    for (n, leaf_id) in leaves.iter().enumerate() {
        let (keys, next) = leaf_keys(&mut index, *leaf_id);
        let want: Vec<Tuple> = expected[n].iter().map(|i| key(*i)).collect();
        assert_eq!(keys, want);
        if n + 1 < leaves.len() {
            assert_eq!(next, leaves[n + 1]);
        } else {
            assert_eq!(next, 0);
        }
    }
}

#[test]
pub fn test_index_get() {
    let mut index = build_index();
    assert_eq!(index.get(&key(3)).unwrap(), Some(RecordId::new(3, 3)));
    assert_eq!(index.get(&key(10)).unwrap(), Some(RecordId::new(10, 10)));
}

#[test]
pub fn test_index_delete() {
    let mut index = build_index();
    let null_key = Tuple::new(vec![ScalarValue::Int8(None), ScalarValue::Int16(None)]);

    index.delete(&key(3)).unwrap();
    index.delete(&key(10)).unwrap();
    index.delete(&key(8)).unwrap();

    let root = index.root_page_id();
    let (root_keys, leaves) = children(&mut index, root);
    assert_eq!(root_keys, vec![null_key, key(5), key(7)]);
    assert_eq!(leaves.len(), 3);
    let expected: Vec<Vec<i8>> = vec![vec![1, 2, 4], vec![5, 6], vec![7, 9, 11]];
    for (n, leaf_id) in leaves.iter().enumerate() {
        let (keys, next) = leaf_keys(&mut index, *leaf_id);
        let want: Vec<Tuple> = expected[n].iter().map(|i| key(*i)).collect();
        assert_eq!(keys, want);
        if n + 1 < leaves.len() {
            assert_eq!(next, leaves[n + 1]);
        } else {
            assert_eq!(next, 0);
        }
    }
    assert_eq!(index.get(&key(3)).unwrap(), None);
    assert_eq!(index.get(&key(10)).unwrap(), None);
    assert_eq!(index.get(&key(8)).unwrap(), None);
    assert_eq!(index.get(&key(9)).unwrap(), Some(RecordId::new(9, 9)));
}

#[test]
pub fn test_index_iterator() {
    let mut index = build_index();

    let end_tuple1 = key(3);
    let mut iterator1 = TreeIndexIterator::new(Bound::Unbounded, Bound::Excluded(end_tuple1));
    assert_eq!(iterator1.next(&mut index).unwrap(), Some(RecordId::new(1, 1)));
    assert_eq!(iterator1.next(&mut index).unwrap(), Some(RecordId::new(2, 2)));
    assert_eq!(iterator1.next(&mut index).unwrap(), None);

    let start_tuple2 = key(3);
    let end_tuple2 = key(5);
    let mut iterator2 =
        TreeIndexIterator::new(Bound::Included(start_tuple2), Bound::Included(end_tuple2));
    assert_eq!(iterator2.next(&mut index).unwrap(), Some(RecordId::new(3, 3)));
    assert_eq!(iterator2.next(&mut index).unwrap(), Some(RecordId::new(4, 4)));
    assert_eq!(iterator2.next(&mut index).unwrap(), Some(RecordId::new(5, 5)));
    assert_eq!(iterator2.next(&mut index).unwrap(), None);

    let start_tuple3 = key(6);
    let end_tuple3 = key(8);
    let mut iterator3 =
        TreeIndexIterator::new(Bound::Excluded(start_tuple3), Bound::Excluded(end_tuple3));
    assert_eq!(iterator3.next(&mut index).unwrap(), Some(RecordId::new(7, 7)));

    let start_tuple4 = key(9);
    let mut iterator4 = TreeIndexIterator::new(Bound::Included(start_tuple4), Bound::Unbounded);
    assert_eq!(iterator4.next(&mut index).unwrap(), Some(RecordId::new(9, 9)));
    assert_eq!(iterator4.next(&mut index).unwrap(), Some(RecordId::new(10, 10)));
    assert_eq!(iterator4.next(&mut index).unwrap(), Some(RecordId::new(11, 11)));
    assert_eq!(iterator4.next(&mut index).unwrap(), None);
    assert_eq!(iterator4.next(&mut index).unwrap(), None);
}

#[test]
pub fn index_iterator_range_stops_before_excluded_end() {
    let mut index = build_index();
    let mut iterator = TreeIndexIterator::new(Bound::Excluded(key(6)), Bound::Excluded(key(8)));
    assert_eq!(iterator.next(&mut index).unwrap(), Some(RecordId::new(7, 7)));
    assert_eq!(iterator.next(&mut index).unwrap(), None);
    assert_eq!(iterator.next(&mut index).unwrap(), None);
}

fn check_tree(index: &mut BPlusTreeIndex) -> Vec<Tuple> {
    // every page but the root is at least half full and none is overfull;
    // the leaves, taken in the order of the children, are chained and hold
    // their keys in ascending order
    let root = index.root_page_id();
    if root == 0 {
        return Vec::new();
    }
    let mut level = vec![root];
    loop {
        let mut next_level = Vec::new();
        let mut leaves = false;
        for page_id in level.iter() {
            match index.tree_page(*page_id).unwrap() {
                BPlusTreePage::Internal(page) => {
                    assert!(page.array.len() <= page.max_size as usize);
                    if *page_id != root {
                        assert!(page.array.len() >= ((page.max_size + 1) / 2) as usize);
                    } else {
                        assert!(page.array.len() >= 2);
                    }
                    for kv in page.array.iter() {
                        next_level.push(kv.1);
                    }
                }
                BPlusTreePage::Leaf(_) => {
                    leaves = true;
                }
            }
        }
        if leaves {
            break;
        }
        level = next_level;
    }
    let mut keys: Vec<Tuple> = Vec::new();
    for (n, page_id) in level.iter().enumerate() {
        match index.tree_page(*page_id).unwrap() {
            BPlusTreePage::Leaf(leaf) => {
                assert!(leaf.array.len() <= leaf.max_size as usize);
                if *page_id != root {
                    assert!(leaf.array.len() >= ((leaf.max_size + 1) / 2) as usize);
                }
                let next = if n + 1 < level.len() { level[n + 1] } else { 0 };
                assert_eq!(leaf.next_page_id, next);
                for kv in leaf.array.iter() {
                    keys.push(kv.0.clone());
                }
            }
            BPlusTreePage::Internal(_) => panic!("a leaf and an internal page on one level"),
        }
    }
    for pair in keys.windows(2) {
        assert_ne!(pair[0].key_order(&pair[1]), bustubx::storage::KeyOrder::Greater);
    }
    keys
}

#[test]
fn index_stays_ordered_and_balanced() {
    for (internal_max, leaf_max, frames) in
        [(3u32, 1u32, 1usize), (3, 2, 2), (3, 3, 8), (4, 4, 1), (5, 5, 3), (7, 4, 100)]
    {
        let buffer_pool = BufferPoolManager::new(frames, DiskManager::new());
        let mut index = BPlusTreeIndex::new(key_schema(), buffer_pool, internal_max, leaf_max);
        let mut present: Vec<i8> = Vec::new();
        // 37 steps through the keys 0..101 in an order that mixes them up
        let mut k: i32 = 0;
        for _ in 0..101 {
            k = (k + 37) % 101;
            let i = k as i8;
            index.insert(&key(i), RecordId::new(i as u32, 7)).unwrap();
            assert_eq!(index.get(&key(i)).unwrap(), Some(RecordId::new(i as u32, 7)));
            present.push(i);
            let keys = check_tree(&mut index);
            assert_eq!(keys.len(), present.len());
        }
        let mut sorted = present.clone();
        sorted.sort();
        let all: Vec<Tuple> = sorted.iter().map(|i| key(*i)).collect();
        assert_eq!(check_tree(&mut index), all);
        let mut k: i32 = 0;
        for n in 0..101 {
            k = (k + 59) % 101;
            let i = k as i8;
            index.delete(&key(i)).unwrap();
            assert_eq!(index.get(&key(i)).unwrap(), None);
            assert_eq!(check_tree(&mut index).len(), 100 - n);
        }
        assert!(check_tree(&mut index).is_empty());
        // what is left is a root without entries, which takes entries again
        assert!(!index.is_empty());
        index.insert(&key(5), RecordId::new(5, 5)).unwrap();
        assert_eq!(index.get(&key(5)).unwrap(), Some(RecordId::new(5, 5)));
    }
}

#[test]
fn index_get_and_delete_of_keys_that_are_not_there() {
    let buffer_pool = BufferPoolManager::new(8, DiskManager::new());
    let mut index = BPlusTreeIndex::new(key_schema(), buffer_pool, 4, 4);
    assert!(index.is_empty());
    assert_eq!(index.get(&key(1)).unwrap(), None);
    index.delete(&key(1)).unwrap();
    assert!(index.is_empty());
    index.insert(&key(1), RecordId::new(1, 1)).unwrap();
    assert!(!index.is_empty());
    assert_eq!(index.get(&key(2)).unwrap(), None);
    index.delete(&key(2)).unwrap();
    assert_eq!(index.get(&key(1)).unwrap(), Some(RecordId::new(1, 1)));
}

#[test]
fn index_keeps_equal_keys() {
    let buffer_pool = BufferPoolManager::new(8, DiskManager::new());
    let mut index = BPlusTreeIndex::new(key_schema(), buffer_pool, 4, 4);
    index.insert(&key(1), RecordId::new(1, 1)).unwrap();
    index.insert(&key(1), RecordId::new(1, 2)).unwrap();
    index.insert(&key(1), RecordId::new(1, 3)).unwrap();
    assert_eq!(index.get(&key(1)).unwrap(), Some(RecordId::new(1, 1)));
    index.delete(&key(1)).unwrap();
    assert_eq!(index.get(&key(1)).unwrap(), Some(RecordId::new(1, 2)));
    let mut iterator = TreeIndexIterator::new(Bound::Unbounded, Bound::Unbounded);
    assert_eq!(iterator.next(&mut index).unwrap(), Some(RecordId::new(1, 2)));
    assert_eq!(iterator.next(&mut index).unwrap(), Some(RecordId::new(1, 3)));
    assert_eq!(iterator.next(&mut index).unwrap(), None);
}

#[test]
fn index_rejects_keys_of_another_schema() {
    let buffer_pool = BufferPoolManager::new(8, DiskManager::new());
    let mut index = BPlusTreeIndex::new(key_schema(), buffer_pool, 4, 4);
    assert_eq!(
        index.insert(&Tuple::new(vec![1i8.into()]), RecordId::new(1, 1)),
        Err(bustubx::BustubxError::SchemaMismatch)
    );
    assert!(index.is_empty());
}

#[test]
fn index_parameters() {
    assert!(BPlusTreeIndex::parameters_fit(&key_schema(), 2, 1));
    assert!(!BPlusTreeIndex::parameters_fit(&key_schema(), 1, 4));
    assert!(!BPlusTreeIndex::parameters_fit(&key_schema(), 4, 0));
    // 26 bytes for each entry of a leaf after 13 of header, 22 for each of an
    // internal page after 9
    assert!(BPlusTreeIndex::parameters_fit(&key_schema(), 185, 157));
    assert!(!BPlusTreeIndex::parameters_fit(&key_schema(), 185, 158));
    assert!(!BPlusTreeIndex::parameters_fit(&key_schema(), 186, 157));
}

#[test]
fn index_page_without_neighbour_cannot_rebalance() {
    let buffer_pool = BufferPoolManager::new(8, DiskManager::new());
    let mut index = BPlusTreeIndex::new(key_schema(), buffer_pool, 2, 2);
    for i in 1..=4i8 {
        index.insert(&key(i), RecordId::new(i as u32, 0)).unwrap();
    }
    // the leaf that holds key 1 is now the only child of its parent
    assert_eq!(index.delete(&key(1)), Err(bustubx::BustubxError::NoSibling));
}

#[test]
fn index_iterator_on_an_empty_index() {
    let buffer_pool = BufferPoolManager::new(8, DiskManager::new());
    let mut index = BPlusTreeIndex::new(key_schema(), buffer_pool, 4, 4);
    let mut bounded = TreeIndexIterator::new(Bound::Included(key(1)), Bound::Unbounded);
    assert_eq!(bounded.next(&mut index).unwrap(), None);
    assert_eq!(bounded.next(&mut index).unwrap(), None);
    let mut unbounded = TreeIndexIterator::new(Bound::Unbounded, Bound::Unbounded);
    assert_eq!(unbounded.next(&mut index), Err(bustubx::BustubxError::Io));
    assert_eq!(unbounded.next(&mut index).unwrap(), None);
}

#[test]
fn index_iterator_goes_through_all_leaves() {
    let mut index = build_index();
    let mut iterator = TreeIndexIterator::new(Bound::Unbounded, Bound::Unbounded);
    for i in 1..=11u32 {
        assert_eq!(iterator.next(&mut index).unwrap(), Some(RecordId::new(i, i)));
    }
    assert_eq!(iterator.next(&mut index).unwrap(), None);
    assert_eq!(iterator.next(&mut index).unwrap(), None);
    let mut beyond = TreeIndexIterator::new(Bound::Excluded(key(11)), Bound::Unbounded);
    assert_eq!(beyond.next(&mut index).unwrap(), None);
    let mut between = TreeIndexIterator::new(Bound::Included(key(0)), Bound::Included(key(1)));
    assert_eq!(between.next(&mut index).unwrap(), Some(RecordId::new(1, 1)));
    assert_eq!(between.next(&mut index).unwrap(), None);
    let first_leaf = index.get_first_leaf_page().unwrap();
    assert_eq!(first_leaf.array.len(), 2);
    assert_eq!(first_leaf.array[0].0, key(1));
}
