use bustubx::catalog::Column;
use bustubx::catalog::DataType;
use bustubx::catalog::Schema;
use bustubx::common::rid::RecordId;
use bustubx::common::rid::TupleMeta;
use bustubx::common::rid::PAGE_SIZE;
use bustubx::storage::codec::BPlusTreeInternalPageCodec;
use bustubx::storage::codec::BPlusTreeLeafPageCodec;
use bustubx::storage::codec::BPlusTreePageCodec;
use bustubx::storage::codec::TablePageCodec;
use bustubx::storage::codec::TupleCodec;
use bustubx::storage::BPlusTreeInternalPage;
use bustubx::storage::BPlusTreeLeafPage;
use bustubx::storage::BPlusTreePage;
use bustubx::storage::KeyOrder;
use bustubx::storage::ScalarValue;
use bustubx::storage::TablePage;
use bustubx::storage::Tuple;
use bustubx::BustubxError;

fn wide_schema() -> Schema {
    Schema::new(vec![
        Column::new("flag".to_string(), DataType::Boolean, true),
        Column::new("a".to_string(), DataType::Int8, true),
        Column::new("b".to_string(), DataType::Int16, true),
        Column::new("c".to_string(), DataType::Int32, true),
        Column::new("d".to_string(), DataType::Int64, true),
    ])
}

fn key_schema() -> Schema {
    Schema::new(vec![
        Column::new("a".to_string(), DataType::Int8, false),
        Column::new("b".to_string(), DataType::Int16, false),
    ])
}

fn key(i: i8) -> Tuple {
    Tuple::new(vec![i.into(), (i as i16).into()])
}

#[test]
fn value_takes_nine_bytes() {
    assert_eq!(
        TupleCodec::encode_value(&ScalarValue::Int8(Some(1))),
        vec![1, 1, 0, 0, 0, 0, 0, 0, 0x80]
    );
    assert_eq!(
        TupleCodec::encode_value(&ScalarValue::Int8(Some(-1))),
        vec![1, 0xff, 0xff, 0xff, 0xff, 0xff, 0xff, 0xff, 0x7f]
    );
    assert_eq!(TupleCodec::encode_value(&ScalarValue::Int64(None)), vec![0; 9]);
    assert_eq!(
        TupleCodec::encode_value(&ScalarValue::Boolean(Some(true))),
        vec![1, 1, 0, 0, 0, 0, 0, 0, 0x80]
    );
}

#[test]
fn tuple_round_trip_over_all_types() {
    let schema = wide_schema();
    let tuple = Tuple::new(vec![
        true.into(),
        (-128i8).into(),
        i16::MAX.into(),
        i32::MIN.into(),
        i64::MAX.into(),
    ]);
    let bytes = TupleCodec::encode(&tuple);
    assert_eq!(bytes.len(), 45);
    assert_eq!(TupleCodec::decode(&schema, &bytes, 0).unwrap(), tuple);

    let nulls = Tuple::empty(&schema);
    let bytes = TupleCodec::encode(&nulls);
    assert_eq!(TupleCodec::decode(&schema, &bytes, 0).unwrap(), nulls);
}

#[test]
fn tuple_decode_rejects_values_out_of_range() {
    let schema = Schema::new(vec![Column::new("a".to_string(), DataType::Int8, false)]);
    let bytes = TupleCodec::encode(&Tuple::new(vec![300i16.into()]));
    assert_eq!(TupleCodec::decode(&schema, &bytes, 0), Err(BustubxError::Corrupt));
    let mut bytes = TupleCodec::encode(&Tuple::new(vec![3i8.into()]));
    bytes[0] = 2;
    assert_eq!(TupleCodec::decode(&schema, &bytes, 0), Err(BustubxError::Corrupt));
}

#[test]
fn tuple_conforms_to_its_schema_only() {
    let schema = key_schema();
    assert!(key(1).conforms(&schema));
    assert!(Tuple::empty(&schema).conforms(&schema));
    assert!(!Tuple::new(vec![1i8.into()]).conforms(&schema));
    assert!(!Tuple::new(vec![1i16.into(), 1i16.into()]).conforms(&schema));
}

#[test]
fn keys_compare_column_by_column() {
    let a = Tuple::new(vec![1i8.into(), 5i16.into()]);
    let b = Tuple::new(vec![1i8.into(), 6i16.into()]);
    let c = Tuple::new(vec![2i8.into(), 0i16.into()]);
    assert_eq!(a.key_order(&b), KeyOrder::Less);
    assert_eq!(b.key_order(&a), KeyOrder::Greater);
    assert_eq!(b.key_order(&c), KeyOrder::Less);
    assert_eq!(a.key_order(&a.duplicate()), KeyOrder::Equal);
    let null = Tuple::new(vec![ScalarValue::Int8(None), ScalarValue::Int16(None)]);
    assert_eq!(null.key_order(&Tuple::new(vec![i8::MIN.into(), i16::MIN.into()])), KeyOrder::Less);
    let short = Tuple::new(vec![1i8.into()]);
    assert_eq!(short.key_order(&a), KeyOrder::Less);
}

#[test]
fn table_page_round_trip() {
    let schema = key_schema();
    let mut page = TablePage::new(7);
    let meta1 = TupleMeta { insert_txn_id: 1, delete_txn_id: 2, is_deleted: false };
    let meta2 = TupleMeta { insert_txn_id: u64::MAX, delete_txn_id: 0, is_deleted: true };
    assert_eq!(page.insert_tuple(&meta1, &key(1), &schema), Ok(0));
    assert_eq!(page.insert_tuple(&meta2, &key(2), &schema), Ok(1));
    let bytes = TablePageCodec::encode(&page, &schema);
    assert_eq!(bytes.len(), PAGE_SIZE);
    // the header: next page, number of tuples; the first slot names the last bytes of the page
    assert_eq!(&bytes[0..8], &[7, 0, 0, 0, 2, 0, 0, 0]);
    assert_eq!(&bytes[8..12], &((PAGE_SIZE - 18) as u32).to_le_bytes());
    assert_eq!(&bytes[12..16], &18u32.to_le_bytes());
    let decoded = TablePageCodec::decode(&schema, &bytes).unwrap();
    assert_eq!(decoded, page);
    assert_eq!(decoded.tuple(1).unwrap(), (meta2, key(2)));
}

#[test]
fn table_page_decode_rejects_garbage() {
    let schema = key_schema();
    assert_eq!(TablePageCodec::decode(&schema, &vec![0u8; 10]), Err(BustubxError::Corrupt));
    assert_eq!(
        TablePageCodec::decode(&schema, &vec![0xffu8; PAGE_SIZE]),
        Err(BustubxError::Corrupt)
    );
    let empty = TablePageCodec::decode(&schema, &vec![0u8; PAGE_SIZE]).unwrap();
    assert_eq!(empty.num_tuples(), 0);
}

#[test]
fn table_page_fills_up() {
    let schema = key_schema();
    let mut page = TablePage::new(0);
    let meta = TupleMeta { insert_txn_id: 0, delete_txn_id: 0, is_deleted: false };
    // 8 bytes of header, 25 + 18 bytes for each row
    let capacity = (PAGE_SIZE - 8) / 43;
    for slot in 0..capacity {
        assert_eq!(page.next_tuple_offset(&schema), Ok(PAGE_SIZE - (slot + 1) * 18));
        assert_eq!(page.insert_tuple(&meta, &key(1), &schema), Ok(slot as u32));
    }
    assert_eq!(page.next_tuple_offset(&schema), Err(BustubxError::PageOverflow));
    assert_eq!(page.insert_tuple(&meta, &key(1), &schema), Err(BustubxError::PageOverflow));
    assert_eq!(
        page.insert_tuple(&meta, &Tuple::new(vec![1i8.into()]), &schema),
        Err(BustubxError::SchemaMismatch)
    );
    let bytes = TablePageCodec::encode(&page, &schema);
    assert_eq!(TablePageCodec::decode(&schema, &bytes).unwrap(), page);
}

#[test]
fn leaf_page_round_trip() {
    let schema = key_schema();
    let mut leaf = BPlusTreeLeafPage::new(4);
    leaf.next_page_id = 12;
    leaf.insert(key(2), RecordId::new(2, 20));
    leaf.insert(key(1), RecordId::new(1, 10));
    let bytes = BPlusTreeLeafPageCodec::encode(&leaf, &schema).unwrap();
    assert_eq!(bytes.len(), PAGE_SIZE);
    assert_eq!(&bytes[0..13], &[1, 2, 0, 0, 0, 4, 0, 0, 0, 12, 0, 0, 0]);
    assert_eq!(BPlusTreeLeafPageCodec::decode(&schema, &bytes).unwrap(), leaf);
    assert_eq!(
        BPlusTreePageCodec::decode(&schema, &bytes).unwrap(),
        BPlusTreePage::Leaf(leaf)
    );
    assert_eq!(
        BPlusTreeInternalPageCodec::decode(&schema, &bytes),
        Err(BustubxError::Corrupt)
    );
}

#[test]
fn internal_page_round_trip() {
    let schema = key_schema();
    let mut page = BPlusTreeInternalPage::new(4);
    page.push(Tuple::empty(&schema), 3);
    page.push(key(5), 4);
    let bytes = BPlusTreeInternalPageCodec::encode(&page, &schema).unwrap();
    assert_eq!(&bytes[0..9], &[2, 2, 0, 0, 0, 4, 0, 0, 0]);
    assert_eq!(BPlusTreeInternalPageCodec::decode(&schema, &bytes).unwrap(), page);
    assert_eq!(
        BPlusTreePageCodec::decode(&schema, &bytes).unwrap(),
        BPlusTreePage::Internal(page)
    );
    assert_eq!(BPlusTreeLeafPageCodec::decode(&schema, &bytes), Err(BustubxError::Corrupt));
}

#[test]
fn index_page_encode_reports_what_does_not_fit() {
    let schema = key_schema();
    let mut leaf = BPlusTreeLeafPage::new(1000);
    // 13 bytes of header, 26 for each entry
    for i in 0..157u32 {
        leaf.insert(key(1), RecordId::new(i, i));
    }
    assert!(BPlusTreeLeafPageCodec::encode(&leaf, &schema).is_ok());
    leaf.insert(key(1), RecordId::new(0, 0));
    assert_eq!(
        BPlusTreeLeafPageCodec::encode(&leaf, &schema),
        Err(BustubxError::PageOverflow)
    );
    let mut odd = BPlusTreeLeafPage::new(4);
    odd.insert(Tuple::new(vec![1i8.into()]), RecordId::new(0, 0));
    assert_eq!(
        BPlusTreeLeafPageCodec::encode(&odd, &schema),
        Err(BustubxError::SchemaMismatch)
    );
    assert_eq!(
        BPlusTreePageCodec::decode(&schema, &vec![0u8; PAGE_SIZE]),
        Err(BustubxError::Corrupt)
    );
}

#[test]
fn leaf_page_keeps_equal_keys_in_the_order_they_came() {
    let mut leaf = BPlusTreeLeafPage::new(8);
    leaf.insert(key(2), RecordId::new(0, 1));
    leaf.insert(key(1), RecordId::new(0, 2));
    leaf.insert(key(2), RecordId::new(0, 3));
    leaf.insert(key(3), RecordId::new(0, 4));
    leaf.insert(key(2), RecordId::new(0, 5));
    let rids: Vec<u32> = leaf.array.iter().map(|kv| kv.1.slot_num).collect();
    assert_eq!(rids, vec![2, 1, 3, 5, 4]);
    assert_eq!(leaf.look_up(&key(2)), Some(RecordId::new(0, 1)));
    assert_eq!(leaf.look_up(&key(4)), None);
    assert_eq!(leaf.next_closest(&key(2), true), Some(1));
    assert_eq!(leaf.next_closest(&key(2), false), Some(4));
    assert_eq!(leaf.next_closest(&key(3), false), None);
    assert!(leaf.delete(&key(2)));
    assert_eq!(leaf.look_up(&key(2)), Some(RecordId::new(0, 3)));
    assert!(!leaf.delete(&key(9)));
}

#[test]
fn internal_page_routes_keys() {
    let schema = key_schema();
    let mut page = BPlusTreeInternalPage::new(4);
    page.push(Tuple::empty(&schema), 10);
    page.push(key(3), 11);
    page.push(key(6), 12);
    assert_eq!(page.look_up(&key(1)), 10);
    assert_eq!(page.look_up(&key(3)), 11);
    assert_eq!(page.look_up(&key(5)), 11);
    assert_eq!(page.look_up(&key(6)), 12);
    assert_eq!(page.look_up(&key(100)), 12);
    assert_eq!(page.sibling_page_ids(10), (None, Some(11)));
    assert_eq!(page.sibling_page_ids(11), (Some(10), Some(12)));
    assert_eq!(page.sibling_page_ids(12), (Some(11), None));
    assert_eq!(page.sibling_page_ids(13), (None, None));
    assert_eq!(page.index_of(12), Some(2));
    assert_eq!(page.min_size(), 2);
    assert!(page.can_borrow());
    assert!(!page.is_full());
}
