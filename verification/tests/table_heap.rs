use bustubx::buffer::BufferPoolManager;
use bustubx::catalog::Column;
use bustubx::catalog::DataType;
use bustubx::catalog::Schema;
use bustubx::common::bound::Bound;
use bustubx::common::rid::empty_tuple_meta;
use bustubx::common::rid::RecordId;
use bustubx::common::rid::TupleMeta;
use bustubx::storage::DiskManager;
use bustubx::storage::ScalarValue;
use bustubx::storage::TableHeap;
use bustubx::storage::TableIterator;
use bustubx::storage::Tuple;
use bustubx::BustubxError;

fn schema() -> Schema {
    Schema::new(vec![
        Column::new("a".to_string(), DataType::Int8, false),
        Column::new("b".to_string(), DataType::Int16, false),
    ])
}

fn row(a: i8, b: i16) -> Vec<ScalarValue> {
    vec![a.into(), b.into()]
}

#[test]
pub fn test_table_heap_update_tuple_meta() {
    let disk_manager = DiskManager::new();
    let buffer_pool = BufferPoolManager::new(1000, disk_manager);
    let mut table_heap = TableHeap::try_new(schema(), buffer_pool).unwrap();

    let _rid1 = table_heap
        .insert_tuple(&empty_tuple_meta(), &Tuple::new(row(1, 1)))
        .unwrap();
    let rid2 = table_heap
        .insert_tuple(&empty_tuple_meta(), &Tuple::new(row(2, 2)))
        .unwrap();
    let _rid3 = table_heap
        .insert_tuple(&empty_tuple_meta(), &Tuple::new(row(3, 3)))
        .unwrap();

    let mut meta = table_heap.tuple_meta(rid2).unwrap();
    meta.insert_txn_id = 1;
    meta.delete_txn_id = 2;
    meta.is_deleted = true;
    table_heap.update_tuple_meta(meta, rid2).unwrap();

    let meta = table_heap.tuple_meta(rid2).unwrap();
    assert_eq!(meta.insert_txn_id, 1);
    assert_eq!(meta.delete_txn_id, 2);
    assert!(meta.is_deleted);
}

#[test]
pub fn test_table_heap_insert_tuple() {
    let disk_manager = DiskManager::new();
    let buffer_pool = BufferPoolManager::new(1000, disk_manager);
    let mut table_heap = TableHeap::try_new(schema(), buffer_pool).unwrap();

    let meta1 = TupleMeta { insert_txn_id: 1, delete_txn_id: 1, is_deleted: false };
    let rid1 = table_heap.insert_tuple(&meta1, &Tuple::new(row(1, 1))).unwrap();
    let meta2 = TupleMeta { insert_txn_id: 2, delete_txn_id: 2, is_deleted: false };
    let rid2 = table_heap.insert_tuple(&meta2, &Tuple::new(row(2, 2))).unwrap();
    let meta3 = TupleMeta { insert_txn_id: 3, delete_txn_id: 3, is_deleted: false };
    let rid3 = table_heap.insert_tuple(&meta3, &Tuple::new(row(3, 3))).unwrap();

    let (meta, tuple) = table_heap.full_tuple(rid1).unwrap();
    assert_eq!(meta, meta1);
    assert_eq!(tuple.data, row(1, 1));

    let (meta, tuple) = table_heap.full_tuple(rid2).unwrap();
    assert_eq!(meta, meta2);
    assert_eq!(tuple.data, row(2, 2));

    let (meta, tuple) = table_heap.full_tuple(rid3).unwrap();
    assert_eq!(meta, meta3);
    assert_eq!(tuple.data, row(3, 3));
}

#[test]
pub fn test_table_heap_iterator() {
    let disk_manager = DiskManager::new();
    let buffer_pool = BufferPoolManager::new(1000, disk_manager);
    let mut table_heap = TableHeap::try_new(schema(), buffer_pool).unwrap();

    let meta1 = TupleMeta { insert_txn_id: 1, delete_txn_id: 1, is_deleted: false };
    let rid1 = table_heap.insert_tuple(&meta1, &Tuple::new(row(1, 1))).unwrap();
    let meta2 = TupleMeta { insert_txn_id: 2, delete_txn_id: 2, is_deleted: false };
    let rid2 = table_heap.insert_tuple(&meta2, &Tuple::new(row(2, 2))).unwrap();
    let meta3 = TupleMeta { insert_txn_id: 3, delete_txn_id: 3, is_deleted: false };
    let rid3 = table_heap.insert_tuple(&meta3, &Tuple::new(row(3, 3))).unwrap();

    let mut iterator = TableIterator::new(Bound::Unbounded, Bound::Unbounded);

    let (rid, tuple) = iterator.next(&mut table_heap).unwrap().unwrap();
    assert_eq!(rid, rid1);
    assert_eq!(tuple.data, row(1, 1));

    let (rid, tuple) = iterator.next(&mut table_heap).unwrap().unwrap();
    assert_eq!(rid, rid2);
    assert_eq!(tuple.data, row(2, 2));

    let (rid, tuple) = iterator.next(&mut table_heap).unwrap().unwrap();
    assert_eq!(rid, rid3);
    assert_eq!(tuple.data, row(3, 3));

    assert!(iterator.next(&mut table_heap).unwrap().is_none());
}

#[test]
fn table_heap_goes_on_to_new_pages() {
    let disk_manager = DiskManager::new();
    let buffer_pool = BufferPoolManager::new(2, disk_manager);
    let mut table_heap = TableHeap::try_new(schema(), buffer_pool).unwrap();
    assert_eq!(table_heap.get_first_rid().unwrap(), None);
    let per_page = ((4096 - 8) / 43) as u32;
    let mut rids = Vec::new();
    for n in 0..(3 * per_page + 1) {
        let meta = TupleMeta { insert_txn_id: n as u64, delete_txn_id: 0, is_deleted: false };
        let rid = table_heap
            .insert_tuple(&meta, &Tuple::new(row((n % 100) as i8, n as i16)))
            .unwrap();
        assert_eq!(rid.page_id, 1 + n / per_page);
        assert_eq!(rid.slot_num, n % per_page);
        rids.push(rid);
    }
    assert_eq!(table_heap.first_page_id(), 1);
    assert_eq!(table_heap.last_page_id(), 4);

    // iteration visits the rows in the order in which they were inserted
    let mut iterator = TableIterator::new(Bound::Unbounded, Bound::Unbounded);
    for (n, rid) in rids.iter().enumerate() {
        let (found, tuple) = iterator.next(&mut table_heap).unwrap().unwrap();
        assert_eq!(found, *rid);
        assert_eq!(tuple.data, row((n % 100) as i8, n as i16));
        assert_eq!(table_heap.tuple_meta(*rid).unwrap().insert_txn_id, n as u64);
    }
    assert!(iterator.next(&mut table_heap).unwrap().is_none());
    assert!(iterator.next(&mut table_heap).unwrap().is_none());
    assert_eq!(table_heap.get_first_rid().unwrap(), Some(rids[0]));
    assert_eq!(table_heap.get_next_rid(rids[0]).unwrap(), Some(rids[1]));
    assert_eq!(
        table_heap.get_next_rid(rids[per_page as usize - 1]).unwrap(),
        Some(rids[per_page as usize])
    );
    assert_eq!(table_heap.get_next_rid(*rids.last().unwrap()).unwrap(), None);
}

#[test]
fn table_heap_iterator_bounds() {
    let disk_manager = DiskManager::new();
    let buffer_pool = BufferPoolManager::new(10, disk_manager);
    let mut table_heap = TableHeap::try_new(schema(), buffer_pool).unwrap();
    let mut rids = Vec::new();
    for n in 0..5i8 {
        rids.push(
            table_heap
                .insert_tuple(&empty_tuple_meta(), &Tuple::new(row(n, n as i16)))
                .unwrap(),
        );
    }
    let mut iterator = TableIterator::new(Bound::Included(rids[1]), Bound::Included(rids[3]));
    assert_eq!(iterator.next(&mut table_heap).unwrap().unwrap().0, rids[1]);
    assert_eq!(iterator.next(&mut table_heap).unwrap().unwrap().0, rids[2]);
    assert_eq!(iterator.next(&mut table_heap).unwrap().unwrap().0, rids[3]);
    assert!(iterator.next(&mut table_heap).unwrap().is_none());
    assert!(iterator.next(&mut table_heap).unwrap().is_none());

    let mut iterator = TableIterator::new(Bound::Excluded(rids[1]), Bound::Excluded(rids[3]));
    assert_eq!(iterator.next(&mut table_heap).unwrap().unwrap().0, rids[2]);
    assert!(iterator.next(&mut table_heap).unwrap().is_none());
    assert!(iterator.next(&mut table_heap).unwrap().is_none());

    let mut iterator = TableIterator::new(Bound::Excluded(rids[4]), Bound::Unbounded);
    assert!(iterator.next(&mut table_heap).unwrap().is_none());
    assert!(iterator.next(&mut table_heap).unwrap().is_none());
}

#[test]
fn table_heap_update_tuple() {
    let disk_manager = DiskManager::new();
    let buffer_pool = BufferPoolManager::new(10, disk_manager);
    let mut table_heap = TableHeap::try_new(schema(), buffer_pool).unwrap();
    let meta = TupleMeta { insert_txn_id: 4, delete_txn_id: 5, is_deleted: false };
    let rid1 = table_heap.insert_tuple(&meta, &Tuple::new(row(1, 1))).unwrap();
    let rid2 = table_heap.insert_tuple(&meta, &Tuple::new(row(2, 2))).unwrap();
    table_heap.update_tuple(rid1, Tuple::new(row(9, 9))).unwrap();
    assert_eq!(table_heap.full_tuple(rid1).unwrap(), (meta, Tuple::new(row(9, 9))));
    assert_eq!(table_heap.tuple(rid2).unwrap(), Tuple::new(row(2, 2)));
}

#[test]
fn table_heap_errors() {
    let disk_manager = DiskManager::new();
    let buffer_pool = BufferPoolManager::new(10, disk_manager);
    let mut table_heap = TableHeap::try_new(schema(), buffer_pool).unwrap();
    let rid = table_heap
        .insert_tuple(&empty_tuple_meta(), &Tuple::new(row(1, 1)))
        .unwrap();
    assert_eq!(
        table_heap.insert_tuple(&empty_tuple_meta(), &Tuple::new(vec![1i8.into()])),
        Err(BustubxError::SchemaMismatch)
    );
    assert_eq!(
        table_heap.tuple(RecordId::new(rid.page_id, 1)),
        Err(BustubxError::OutOfRange)
    );
    assert_eq!(table_heap.tuple(RecordId::new(77, 0)), Err(BustubxError::Io));
    assert_eq!(
        table_heap.update_tuple(rid, Tuple::new(vec![1i8.into()])),
        Err(BustubxError::SchemaMismatch)
    );
    assert_eq!(
        table_heap.update_tuple_meta(empty_tuple_meta(), RecordId::new(rid.page_id, 5)),
        Err(BustubxError::OutOfRange)
    );
    assert_eq!(table_heap.get_next_rid(RecordId::new(77, 0)), Err(BustubxError::Io));

    let columns: Vec<Column> = (0..500)
        .map(|n| Column::new(format!("c{}", n), DataType::Int64, false))
        .collect();
    let too_wide = TableHeap::try_new(
        Schema::new(columns),
        BufferPoolManager::new(10, DiskManager::new()),
    );
    assert_eq!(too_wide.err(), Some(BustubxError::PageOverflow));
    let no_frames = TableHeap::try_new(schema(), BufferPoolManager::new(0, DiskManager::new()));
    assert_eq!(no_frames.err(), Some(BustubxError::BufferPoolFull));
}
