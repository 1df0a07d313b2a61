use crate::catalog::schema::DataType;
use crate::catalog::schema::Schema;
use crate::common::rid::TupleMeta;
use crate::common::rid::PAGE_SIZE;
use crate::error::BustubxError;
use crate::storage::codec::tuple_codec::key_bytes;
use crate::storage::codec::tuple_codec::key_from;
use crate::storage::codec::tuple_codec::key_size;
use crate::storage::codec::tuple_codec::lemma_key_round_trip;
use crate::storage::codec::tuple_codec::TupleCodec;
use crate::storage::codec::wire::get_u32;
use crate::storage::codec::wire::get_u64;
use crate::storage::codec::wire::lemma_region_of_region;
use crate::storage::codec::wire::put;
use crate::storage::codec::wire::region;
use crate::storage::codec::wire::u32_at;
use crate::storage::codec::wire::u64_at;
use crate::storage::codec::wire::zero_block;
use crate::storage::table_page::fits;
use crate::storage::table_page::lemma_fits;
use crate::storage::table_page::room_for;
use crate::storage::table_page::Row;
use crate::storage::table_page::TablePage;
use crate::storage::table_page::TablePageView;
use crate::storage::tuple::ScalarValue;
use vstd::bytes::*;
use vstd::prelude::*;

verus! {

/// Where the directory entry of slot `i` starts.
pub open spec fn slot_pos(i: int) -> int {
    8 + 25 * i
}

/// The bytes of the header of a table page.
pub open spec fn table_header_bytes(next_page_id: u32, num_tuples: u32) -> Seq<u8> {
    spec_u32_to_le_bytes(next_page_id) + spec_u32_to_le_bytes(num_tuples)
}

/// The bytes of one entry of the slot directory.
pub open spec fn slot_bytes(offset: u32, size: u32, meta: TupleMeta) -> Seq<u8> {
    spec_u32_to_le_bytes(offset) + spec_u32_to_le_bytes(size) + spec_u64_to_le_bytes(
        meta.insert_txn_id,
    ) + spec_u64_to_le_bytes(meta.delete_txn_id) + seq![if meta.is_deleted { 1u8 } else { 0u8 }]
}

/// The bookkeeping that an entry of the slot directory holds.
pub open spec fn slot_meta(s: Seq<u8>) -> TupleMeta {
    TupleMeta {
        insert_txn_id: u64_at(s, 8),
        delete_txn_id: u64_at(s, 16),
        is_deleted: s[24] == 1,
    }
}

/// Whether slot `i` of the page can be read: its entry names a tuple of the
/// right length that lies within the page and holds a tuple of the column
/// types.
pub open spec fn slot_ok(types: Seq<DataType>, b: Seq<u8>, i: int) -> bool {
    let s = region(b, slot_pos(i), 25);
    let offset = u32_at(s, 0) as int;
    &&& u32_at(s, 4) == key_size(types)
    &&& offset + key_size(types) <= PAGE_SIZE
    &&& s[24] <= 1
    &&& key_from(types, region(b, offset, key_size(types))) is Some
}

/// The row in slot `i` of the page.
pub open spec fn row_at(types: Seq<DataType>, b: Seq<u8>, i: int) -> (TupleMeta, Seq<ScalarValue>) {
    let s = region(b, slot_pos(i), 25);
    (slot_meta(s), key_from(types, region(b, u32_at(s, 0) as int, key_size(types))).unwrap())
}

/// The table page of these column types that the bytes hold, if they hold
/// one.
pub open spec fn table_page_from(types: Seq<DataType>, b: Seq<u8>) -> Option<TablePageView> {
    let n = u32_at(b, 4) as int;
    if b.len() == PAGE_SIZE && fits(n, key_size(types)) && (forall|i: int|
        0 <= i < n ==> slot_ok(types, b, i)) {
        Some(
            TablePageView {
                next_page_id: u32_at(b, 0),
                rows: Seq::new(n as nat, |i: int| row_at(types, b, i)),
            },
        )
    } else {
        None
    }
}

/// The fields of a directory entry read back from its bytes.
pub proof fn lemma_slot_fields(offset: u32, size: u32, meta: TupleMeta)
    ensures
        slot_bytes(offset, size, meta).len() == 25,
        u32_at(slot_bytes(offset, size, meta), 0) == offset,
        u32_at(slot_bytes(offset, size, meta), 4) == size,
        slot_meta(slot_bytes(offset, size, meta)) == meta,
        slot_bytes(offset, size, meta)[24] <= 1,
{
    lemma_auto_spec_u32_to_from_le_bytes();
    lemma_auto_spec_u64_to_from_le_bytes();
    let s = slot_bytes(offset, size, meta);
    assert(region(s, 0, 4) =~= spec_u32_to_le_bytes(offset));
    assert(region(s, 4, 4) =~= spec_u32_to_le_bytes(size));
    assert(region(s, 8, 8) =~= spec_u64_to_le_bytes(meta.insert_txn_id));
    assert(region(s, 16, 8) =~= spec_u64_to_le_bytes(meta.delete_txn_id));
}

/// The fields of a header read back from its bytes.
pub proof fn lemma_table_header_fields(next_page_id: u32, num_tuples: u32)
    ensures
        table_header_bytes(next_page_id, num_tuples).len() == 8,
        u32_at(table_header_bytes(next_page_id, num_tuples), 0) == next_page_id,
        u32_at(table_header_bytes(next_page_id, num_tuples), 4) == num_tuples,
{
    lemma_auto_spec_u32_to_from_le_bytes();
    let s = table_header_bytes(next_page_id, num_tuples);
    assert(region(s, 0, 4) =~= spec_u32_to_le_bytes(next_page_id));
    assert(region(s, 4, 4) =~= spec_u32_to_le_bytes(num_tuples));
}

/// A page that the bytes hold is well-formed.
pub proof fn lemma_table_page_from_wf(types: Seq<DataType>, b: Seq<u8>)
    requires
        table_page_from(types, b) is Some,
    ensures
        table_page_from(types, b)->Some_0.wf(types),
{
    let page = table_page_from(types, b)->Some_0;
    assert forall|i: int| 0 <= i < page.rows.len() implies crate::storage::tuple::conforms_to(
        (#[trigger] page.rows[i]).1,
        types,
    ) by {
        assert(slot_ok(types, b, i));
        crate::storage::codec::tuple_codec::lemma_key_from_conforms(
            types,
            region(b, u32_at(region(b, slot_pos(i), 25), 0) as int, key_size(types)),
        );
    }
}

pub struct TablePageCodec;

impl TablePageCodec {
    fn encode_slot(offset: u32, size: u32, meta: &TupleMeta) -> (out: Vec<u8>)
        ensures
            out@ == slot_bytes(offset, size, *meta),
            out@.len() == 25,
    {
        let mut out = u32_to_le_bytes(offset);
        let mut b = u32_to_le_bytes(size);
        out.append(&mut b);
        let mut c = u64_to_le_bytes(meta.insert_txn_id);
        out.append(&mut c);
        let mut d = u64_to_le_bytes(meta.delete_txn_id);
        out.append(&mut d);
        out.push(if meta.is_deleted { 1u8 } else { 0u8 });
        proof {
            lemma_slot_fields(offset, size, *meta);
            assert(out@ =~= slot_bytes(offset, size, *meta));
        }
        out
    }

    /// The page as a block of the page size: the header and the slot directory
    /// from the start, the tuples from the end.
    pub fn encode(page: &TablePage, schema: &Schema) -> (out: Vec<u8>)
        requires
            page.wf(schema.types()),
        ensures
            out@.len() == PAGE_SIZE,
            table_page_from(schema.types(), out@) == Some(page@),
    {
        let ghost types = schema.types();
        let n: usize = page.rows.len();
        proof {
            lemma_fits(n as int, 0, key_size(types));
        }
        let mut buf = zero_block(PAGE_SIZE);
        let mut header = u32_to_le_bytes(page.next_page_id);
        let mut count = u32_to_le_bytes(n as u32);
        header.append(&mut count);
        proof {
            lemma_table_header_fields(page.next_page_id, n as u32);
            assert(header@ =~= table_header_bytes(page.next_page_id, n as u32));
        }
        put(&mut buf, 0, &header);
        let ghost mut offs: Seq<int> = Seq::empty();
        let mut offset: usize = PAGE_SIZE;
        let mut i: usize = 0;
        while i < n
            invariant
                i <= n,
                n == page.rows@.len(),
                n <= PAGE_SIZE,
                types == schema.types(),
                page.wf(types),
                buf.len() == PAGE_SIZE,
                offs.len() == i,
                offset == PAGE_SIZE - i * key_size(types),
                8 + 25 * n <= offset,
                region(buf@, 0, 8) == table_header_bytes(page.next_page_id, n as u32),
                forall|j: int|
                    0 <= j < i ==> {
                        &&& offset <= (#[trigger] offs[j])
                        &&& offs[j] + key_size(types) <= PAGE_SIZE
                        &&& region(buf@, slot_pos(j), 25) == slot_bytes(
                            offs[j] as u32,
                            key_size(types) as u32,
                            page.rows@[j].meta,
                        )
                        &&& region(buf@, offs[j], key_size(types)) == key_bytes(page.rows@[j].tuple@)
                    },
            decreases n - i,
        {
            let bytes = TupleCodec::encode(&page.rows[i].tuple);
            proof {
                assert(page@.rows[i as int] == (page.rows@[i as int].meta, page.rows@[i as int].tuple@));
                lemma_key_round_trip(page.rows@[i as int].tuple@, types);
                lemma_fits(n as int, i + 1, key_size(types));
                assert((i + 1) * key_size(types) == i * key_size(types) + key_size(types))
                    by (nonlinear_arith);
            }
            let t: usize = bytes.len();
            offset = offset - t;
            let slot = TablePageCodec::encode_slot(offset as u32, t as u32, &page.rows[i].meta);
            put(&mut buf, 8 + 25 * i, &slot);
            put(&mut buf, offset, &bytes);
            proof {
                offs = offs.push(offset as int);
            }
            i += 1;
        }
        proof {
            let b = buf@;
            lemma_region_of_region(b, 0, 8, 0, 4);
            lemma_region_of_region(b, 0, 8, 4, 4);
            assert forall|j: int| 0 <= j < n implies slot_ok(types, b, j) && row_at(types, b, j)
                == page@.rows[j] by {
                lemma_slot_fields(offs[j] as u32, key_size(types) as u32, page.rows@[j].meta);
                assert(page@.rows[j] == (page.rows@[j].meta, page.rows@[j].tuple@));
                lemma_key_round_trip(page.rows@[j].tuple@, types);
            }
            assert(table_page_from(types, b)->Some_0.rows =~= page@.rows);
        }
        buf
    }

    /// Reads a table page of the schema from a block.
    pub fn decode(schema: &Schema, buf: &Vec<u8>) -> (res: Result<TablePage, BustubxError>)
        ensures
            match table_page_from(schema.types(), buf@) {
                Some(page) => res is Ok && res->Ok_0@ == page && page.wf(schema.types()),
                None => res == Err::<TablePage, BustubxError>(BustubxError::Corrupt),
            },
    {
        let ghost types = schema.types();
        if buf.len() != PAGE_SIZE {
            return Err(BustubxError::Corrupt);
        }
        let next_page_id: u32 = get_u32(buf, 0);
        let n: usize = get_u32(buf, 4) as usize;
        let columns: usize = schema.column_count();
        let mut rows: Vec<Row> = Vec::new();
        if n == 0 {
            proof {
                assert(0 * key_size(types) == 0);
                assert(table_page_from(types, buf@)->Some_0.rows =~= rows_view_of(rows@));
                lemma_table_page_from_wf(types, buf@);
            }
            return Ok(TablePage { next_page_id, rows });
        }
        if columns > PAGE_SIZE {
            assert(n * key_size(types) >= key_size(types)) by (nonlinear_arith)
                requires
                    n >= 1,
                    key_size(types) >= 0,
            ;
            return Err(BustubxError::Corrupt);
        }
        let t: usize = 9 * columns;
        if !room_for(n, t) {
            return Err(BustubxError::Corrupt);
        }
        proof {
            lemma_fits(n as int, n as int, t as int);
            assert(n * t >= t) by (nonlinear_arith)
                requires
                    n >= 1,
                    t >= 0,
            ;
        }
        let mut i: usize = 0;
        while i < n
            invariant
                i <= n,
                n == u32_at(buf@, 4),
                n <= PAGE_SIZE,
                t <= PAGE_SIZE,
                fits(n as int, t as int),
                t == key_size(types),
                types == schema.types(),
                buf.len() == PAGE_SIZE,
                rows@.len() == i,
                forall|j: int| 0 <= j < i ==> slot_ok(types, buf@, j),
                forall|j: int|
                    0 <= j < i ==> (rows@[j].meta, rows@[j].tuple@) == row_at(types, buf@, j),
            decreases n - i,
        {
            let pos: usize = 8 + 25 * i;
            proof {
                lemma_region_of_region(buf@, pos as int, 25, 0, 4);
                lemma_region_of_region(buf@, pos as int, 25, 4, 4);
                lemma_region_of_region(buf@, pos as int, 25, 8, 8);
                lemma_region_of_region(buf@, pos as int, 25, 16, 8);
            }
            let offset: usize = get_u32(buf, pos) as usize;
            let size: usize = get_u32(buf, pos + 4) as usize;
            let insert_txn_id: u64 = get_u64(buf, pos + 8);
            let delete_txn_id: u64 = get_u64(buf, pos + 16);
            let flag: u8 = buf[pos + 24];
            if size != t || offset > PAGE_SIZE - t || flag > 1 {
                assert(!slot_ok(types, buf@, i as int));
                return Err(BustubxError::Corrupt);
            }
            let tuple = match TupleCodec::decode(schema, buf, offset) {
                Ok(tuple) => tuple,
                Err(_) => {
                    assert(!slot_ok(types, buf@, i as int));
                    return Err(BustubxError::Corrupt);
                },
            };
            let meta = TupleMeta { insert_txn_id, delete_txn_id, is_deleted: flag == 1 };
            rows.push(Row { meta, tuple });
            i += 1;
        }
        proof {
            assert(table_page_from(types, buf@)->Some_0.rows =~= rows_view_of(rows@));
            lemma_table_page_from_wf(types, buf@);
        }
        Ok(TablePage { next_page_id, rows })
    }
}

/// The rows of a page as values.
pub open spec fn rows_view_of(rows: Seq<Row>) -> Seq<(TupleMeta, Seq<ScalarValue>)> {
    crate::storage::table_page::rows_view(rows)
}

} // verus!
