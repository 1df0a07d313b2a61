use crate::catalog::schema::DataType;
use crate::catalog::schema::Schema;
use crate::common::rid::RecordId;
use crate::common::rid::PAGE_SIZE;
use crate::error::BustubxError;
use crate::storage::codec::tuple_codec::key_bytes;
use crate::storage::codec::tuple_codec::key_from;
use crate::storage::codec::tuple_codec::key_size;
use crate::storage::codec::tuple_codec::lemma_key_from_conforms;
use crate::storage::codec::tuple_codec::lemma_key_round_trip;
use crate::storage::codec::tuple_codec::TupleCodec;
use crate::storage::codec::wire::get_u32;
use crate::storage::codec::wire::lemma_region_of_region;
use crate::storage::codec::wire::put;
use crate::storage::codec::wire::region;
use crate::storage::codec::wire::u32_at;
use crate::storage::codec::wire::zero_block;
use crate::storage::index_page::internal_entries;
use crate::storage::index_page::leaf_entries;
use crate::storage::index_page::BPlusTreeInternalPage;
use crate::storage::index_page::BPlusTreeLeafPage;
use crate::storage::index_page::BPlusTreePage;
use crate::storage::index_page::InternalKV;
use crate::storage::index_page::InternalView;
use crate::storage::index_page::LeafKV;
use crate::storage::index_page::LeafView;
use crate::storage::index_page::TreePageView;
use crate::storage::tuple::conforms_to;
use crate::storage::tuple::ScalarValue;
use vstd::bytes::*;
use vstd::prelude::*;

verus! {

/// The byte that marks a leaf page.
pub const LEAF_KIND: u8 = 1;

/// The byte that marks an internal page.
pub const INTERNAL_KIND: u8 = 2;

/// Bytes of the header of a leaf page: kind, size, maximum size, next page.
pub const LEAF_HEADER_SIZE: usize = 13;

/// Bytes of the header of an internal page: kind, size, maximum size.
pub const INTERNAL_HEADER_SIZE: usize = 9;

/// Bytes of one entry of a leaf: the key and a record id.
pub open spec fn leaf_entry_size(types: Seq<DataType>) -> int {
    key_size(types) + 8
}

/// Bytes of one entry of an internal page: the key and a page id.
pub open spec fn internal_entry_size(types: Seq<DataType>) -> int {
    key_size(types) + 4
}

/// Whether `n` entries of `e` bytes fit a page after a header of `h` bytes.
pub open spec fn entries_fit(h: int, n: int, e: int) -> bool {
    h + n * e <= PAGE_SIZE
}

/// Whether a leaf of `n` entries with keys of these types fits a page.
pub open spec fn leaf_fits(types: Seq<DataType>, n: int) -> bool {
    entries_fit(13, n, leaf_entry_size(types))
}

/// Whether an internal page of `n` entries with keys of these types fits a
/// page.
pub open spec fn internal_fits(types: Seq<DataType>, n: int) -> bool {
    entries_fit(9, n, internal_entry_size(types))
}

/// The bytes of entry `i` of a leaf.
pub open spec fn leaf_entry_region(types: Seq<DataType>, b: Seq<u8>, i: int) -> Seq<u8> {
    region(b, 13 + i * leaf_entry_size(types), leaf_entry_size(types))
}

/// The bytes of entry `i` of an internal page.
pub open spec fn internal_entry_region(types: Seq<DataType>, b: Seq<u8>, i: int) -> Seq<u8> {
    region(b, 9 + i * internal_entry_size(types), internal_entry_size(types))
}

/// The key that the bytes of an entry start with, if they hold one.
pub open spec fn entry_key(types: Seq<DataType>, e: Seq<u8>) -> Option<Seq<ScalarValue>> {
    key_from(types, region(e, 0, key_size(types)))
}

/// The entry of a leaf that the bytes hold.
pub open spec fn leaf_entry_of(types: Seq<DataType>, e: Seq<u8>) -> (Seq<ScalarValue>, RecordId) {
    (
        entry_key(types, e).unwrap(),
        RecordId {
            page_id: u32_at(e, key_size(types)),
            slot_num: u32_at(e, key_size(types) + 4),
        },
    )
}

/// The entry of an internal page that the bytes hold.
pub open spec fn internal_entry_of(types: Seq<DataType>, e: Seq<u8>) -> (Seq<ScalarValue>, u32) {
    (entry_key(types, e).unwrap(), u32_at(e, key_size(types)))
}

/// The bytes of an entry of a leaf.
pub open spec fn leaf_entry_bytes(entry: (Seq<ScalarValue>, RecordId)) -> Seq<u8> {
    key_bytes(entry.0) + spec_u32_to_le_bytes(entry.1.page_id) + spec_u32_to_le_bytes(
        entry.1.slot_num,
    )
}

/// The bytes of an entry of an internal page.
pub open spec fn internal_entry_bytes(entry: (Seq<ScalarValue>, u32)) -> Seq<u8> {
    key_bytes(entry.0) + spec_u32_to_le_bytes(entry.1)
}

/// The leaf with keys of these types that the bytes hold, if they hold one.
pub open spec fn leaf_from(types: Seq<DataType>, b: Seq<u8>) -> Option<LeafView> {
    let n = u32_at(b, 1) as int;
    if b.len() == PAGE_SIZE && b[0] == LEAF_KIND && leaf_fits(types, n) && (forall|i: int|
        0 <= i < n ==> entry_key(types, #[trigger] leaf_entry_region(types, b, i)) is Some) {
        Some(
            LeafView {
                max_size: u32_at(b, 5),
                next_page_id: u32_at(b, 9),
                entries: Seq::new(
                    n as nat,
                    |i: int| leaf_entry_of(types, leaf_entry_region(types, b, i)),
                ),
            },
        )
    } else {
        None
    }
}

/// The internal page with keys of these types that the bytes hold, if they
/// hold one.
pub open spec fn internal_from(types: Seq<DataType>, b: Seq<u8>) -> Option<InternalView> {
    let n = u32_at(b, 1) as int;
    if b.len() == PAGE_SIZE && b[0] == INTERNAL_KIND && internal_fits(types, n) && (forall|i: int|
        0 <= i < n ==> entry_key(types, #[trigger] internal_entry_region(types, b, i)) is Some) {
        Some(
            InternalView {
                max_size: u32_at(b, 5),
                entries: Seq::new(
                    n as nat,
                    |i: int| internal_entry_of(types, internal_entry_region(types, b, i)),
                ),
            },
        )
    } else {
        None
    }
}

/// The page of the index that the bytes hold, if they hold one.
pub open spec fn tree_page_from(types: Seq<DataType>, b: Seq<u8>) -> Option<TreePageView> {
    match leaf_from(types, b) {
        Some(leaf) => Some(TreePageView::Leaf(leaf)),
        None => match internal_from(types, b) {
            Some(internal) => Some(TreePageView::Internal(internal)),
            None => None,
        },
    }
}

/// Whether a page of the index can be written as a block: its keys have the
/// column types and its entries fit a page.
pub open spec fn encodable(page: TreePageView, types: Seq<DataType>) -> bool {
    match page {
        TreePageView::Leaf(leaf) => keys_conform(leaf.entries, types) && leaf_fits(
            types,
            leaf.entries.len() as int,
        ),
        TreePageView::Internal(internal) => keys_conform(internal.entries, types) && internal_fits(
            types,
            internal.entries.len() as int,
        ),
    }
}

/// The error that writing a page as a block gives where the page cannot be
/// written: `SchemaMismatch` for a key that has not the column types, else
/// `PageOverflow`.
pub open spec fn encode_error(page: TreePageView, types: Seq<DataType>) -> BustubxError {
    let conform = match page {
        TreePageView::Leaf(leaf) => keys_conform(leaf.entries, types),
        TreePageView::Internal(internal) => keys_conform(internal.entries, types),
    };
    if conform {
        BustubxError::PageOverflow
    } else {
        BustubxError::SchemaMismatch
    }
}

/// Whether every key of the entries has the column types.
pub open spec fn keys_conform<V>(entries: Seq<(Seq<ScalarValue>, V)>, types: Seq<DataType>) -> bool {
    forall|i: int| 0 <= i < entries.len() ==> conforms_to((#[trigger] entries[i]).0, types)
}

/// Entries of a fixed size lie one after the other.
pub proof fn lemma_entry_pos(i: int, j: int, e: int)
    requires
        0 <= j < i,
        0 <= e,
    ensures
        (j + 1) * e <= i * e,
        (j + 1) * e == j * e + e,
        0 <= j * e,
{
    assert((j + 1) * e <= i * e) by (nonlinear_arith)
        requires
            0 <= j + 1 <= i,
            0 <= e,
    ;
    assert((j + 1) * e == j * e + e) by (nonlinear_arith);
    assert(0 <= j * e) by (nonlinear_arith)
        requires
            0 <= j,
            0 <= e,
    ;
}

/// Where entries fit, fewer of them fit.
pub proof fn lemma_fits_fewer(h: int, n: int, m: int, e: int)
    requires
        entries_fit(h, n, e),
        0 <= m <= n,
        0 <= e,
    ensures
        entries_fit(h, m, e),
{
    assert(m * e <= n * e) by (nonlinear_arith)
        requires
            0 <= m <= n,
            0 <= e,
    ;
}

/// Whether `n` entries of `e` bytes fit a page after a header of `h` bytes.
pub fn room(h: usize, n: usize, e: usize) -> (b: bool)
    requires
        h <= PAGE_SIZE,
    ensures
        b == entries_fit(h as int, n as int, e as int),
{
    if n == 0 {
        assert(0 * (e as int) == 0);
        return true;
    }
    if e == 0 {
        assert(n * 0 == 0);
        return true;
    }
    if n > PAGE_SIZE || e > PAGE_SIZE {
        assert(n * e >= e && n * e >= n) by (nonlinear_arith)
            requires
                n >= 1,
                e >= 1,
        ;
        return false;
    }
    assert(n * e <= 4096 * 4096) by (nonlinear_arith)
        requires
            n <= 4096,
            e <= 4096,
    ;
    let total: u64 = (h as u64) + (n as u64) * (e as u64);
    total <= PAGE_SIZE as u64
}

/// An internal page that the bytes hold has keys of the column types and
/// fits a page.
pub proof fn lemma_internal_from(types: Seq<DataType>, b: Seq<u8>)
    requires
        internal_from(types, b) is Some,
    ensures
        keys_conform(internal_from(types, b)->Some_0.entries, types),
        internal_fits(types, internal_from(types, b)->Some_0.entries.len() as int),
        leaf_from(types, b) is None,
{
    let page = internal_from(types, b)->Some_0;
    assert forall|i: int| 0 <= i < page.entries.len() implies conforms_to(
        (#[trigger] page.entries[i]).0,
        types,
    ) by {
        let e = internal_entry_region(types, b, i);
        assert(entry_key(types, e) is Some);
        lemma_key_from_conforms(types, region(e, 0, key_size(types)));
    }
}

/// An entry of a leaf reads back from its bytes.
pub proof fn lemma_leaf_entry_round_trip(entry: (Seq<ScalarValue>, RecordId), types: Seq<DataType>)
    requires
        conforms_to(entry.0, types),
    ensures
        leaf_entry_bytes(entry).len() == leaf_entry_size(types),
        entry_key(types, leaf_entry_bytes(entry)) == Some(entry.0),
        leaf_entry_of(types, leaf_entry_bytes(entry)) == entry,
{
    lemma_auto_spec_u32_to_from_le_bytes();
    lemma_key_round_trip(entry.0, types);
    let e = leaf_entry_bytes(entry);
    let k = key_size(types);
    assert(region(e, 0, k) =~= key_bytes(entry.0));
    assert(region(e, k, 4) =~= spec_u32_to_le_bytes(entry.1.page_id));
    assert(region(e, k + 4, 4) =~= spec_u32_to_le_bytes(entry.1.slot_num));
}

/// An entry of an internal page reads back from its bytes.
pub proof fn lemma_internal_entry_round_trip(entry: (Seq<ScalarValue>, u32), types: Seq<DataType>)
    requires
        conforms_to(entry.0, types),
    ensures
        internal_entry_bytes(entry).len() == internal_entry_size(types),
        entry_key(types, internal_entry_bytes(entry)) == Some(entry.0),
        internal_entry_of(types, internal_entry_bytes(entry)) == entry,
{
    lemma_auto_spec_u32_to_from_le_bytes();
    lemma_key_round_trip(entry.0, types);
    let e = internal_entry_bytes(entry);
    let k = key_size(types);
    assert(region(e, 0, k) =~= key_bytes(entry.0));
    assert(region(e, k, 4) =~= spec_u32_to_le_bytes(entry.1));
}

pub struct BPlusTreeLeafPageCodec;

pub struct BPlusTreeInternalPageCodec;

pub struct BPlusTreePageCodec;

impl BPlusTreeLeafPageCodec {
    fn encode_entry(kv: &LeafKV) -> (out: Vec<u8>)
        ensures
            out@ == leaf_entry_bytes((kv.0@, kv.1)),
    {
        let mut out = TupleCodec::encode(&kv.0);
        let mut a = u32_to_le_bytes(kv.1.page_id);
        let mut b = u32_to_le_bytes(kv.1.slot_num);
        out.append(&mut a);
        out.append(&mut b);
        out
    }

    /// The leaf as a block of the page size. `SchemaMismatch` where a key has
    /// not the column types, `PageOverflow` where the entries do not fit.
    pub fn encode(page: &BPlusTreeLeafPage, schema: &Schema) -> (res: Result<Vec<u8>, BustubxError>)
        ensures
            !keys_conform(page@.entries, schema.types()) ==> res is Err && res->Err_0
                == BustubxError::SchemaMismatch,
            keys_conform(page@.entries, schema.types()) && !leaf_fits(
                schema.types(),
                page@.entries.len() as int,
            ) ==> res is Err && res->Err_0 == BustubxError::PageOverflow,
            keys_conform(page@.entries, schema.types()) && leaf_fits(
                schema.types(),
                page@.entries.len() as int,
            ) ==> res is Ok,
            res is Ok ==> res->Ok_0@.len() == PAGE_SIZE && leaf_from(schema.types(), res->Ok_0@)
                == Some(page@),
    {
        let ghost types = schema.types();
        let n: usize = page.array.len();
        let mut c: usize = 0;
        while c < n
            invariant
                c <= n,
                n == page.array@.len(),
                forall|j: int| 0 <= j < c ==> conforms_to((#[trigger] page@.entries[j]).0, schema.types()),
            decreases n - c,
        {
            if !page.array[c].0.conforms(schema) {
                assert(!conforms_to(page@.entries[c as int].0, schema.types()));
                return Err(BustubxError::SchemaMismatch);
            }
            c += 1;
        }
        let columns: usize = schema.column_count();
        if n > 0 && columns > PAGE_SIZE {
            assert(n * leaf_entry_size(types) >= leaf_entry_size(types)) by (nonlinear_arith)
                requires
                    n >= 1,
                    leaf_entry_size(types) >= 0,
            ;
            return Err(BustubxError::PageOverflow);
        }
        let e: usize = if n > 0 {
            9 * columns + 8
        } else {
            0
        };
        if n > 0 && !room(13, n, e) {
            return Err(BustubxError::PageOverflow);
        }
        proof {
            if n == 0 {
                assert(0 * leaf_entry_size(types) == 0);
            } else {
                assert(n * e >= n) by (nonlinear_arith)
                    requires
                        n >= 1,
                        e >= 8,
                ;
            }
        }
        let mut buf = zero_block(PAGE_SIZE);
        let mut header: Vec<u8> = Vec::new();
        header.push(LEAF_KIND);
        let mut a = u32_to_le_bytes(n as u32);
        let mut b = u32_to_le_bytes(page.max_size);
        let mut d = u32_to_le_bytes(page.next_page_id);
        header.append(&mut a);
        header.append(&mut b);
        header.append(&mut d);
        let ghost header_bytes = header@;
        proof {
            lemma_auto_spec_u32_to_from_le_bytes();
            assert(region(header_bytes, 1, 4) =~= spec_u32_to_le_bytes(n as u32));
            assert(region(header_bytes, 5, 4) =~= spec_u32_to_le_bytes(page.max_size));
            assert(region(header_bytes, 9, 4) =~= spec_u32_to_le_bytes(page.next_page_id));
        }
        put(&mut buf, 0, &header);
        let mut pos: usize = 13;
        let mut i: usize = 0;
        while i < n
            invariant
                i <= n,
                n == page.array@.len(),
                n > 0 ==> e == leaf_entry_size(types),
                types == schema.types(),
                keys_conform(page@.entries, types),
                leaf_fits(types, n as int),
                buf.len() == PAGE_SIZE,
                pos == 13 + i * leaf_entry_size(types),
                pos <= PAGE_SIZE,
                region(buf@, 0, 13) == header_bytes,
                forall|j: int|
                    0 <= j < i ==> #[trigger] leaf_entry_region(types, buf@, j) == leaf_entry_bytes(
                        page@.entries[j],
                    ),
            decreases n - i,
        {
            let bytes = BPlusTreeLeafPageCodec::encode_entry(&page.array[i]);
            proof {
                lemma_leaf_entry_round_trip(page@.entries[i as int], types);
                lemma_entry_pos(n as int, i as int, leaf_entry_size(types));
            }
            let ghost before = buf@;
            put(&mut buf, pos, &bytes);
            proof {
                let es = leaf_entry_size(types);
                assert forall|j: int| 0 <= j < i + 1 implies #[trigger] leaf_entry_region(
                    types,
                    buf@,
                    j,
                ) == leaf_entry_bytes(page@.entries[j]) by {
                    if j < i {
                        lemma_entry_pos(i as int, j, es);
                        assert(leaf_entry_region(types, before, j) == leaf_entry_bytes(page@.entries[j]));
                        assert(region(buf@, 13 + j * es, es) == region(before, 13 + j * es, es));
                    } else {
                        assert(bytes@.len() == es);
                        assert(region(buf@, pos as int, es) == bytes@);
                    }
                }
            }
            pos = pos + e;
            i += 1;
        }
        proof {
            let bb = buf@;
            lemma_region_of_region(bb, 0, 13, 1, 4);
            lemma_region_of_region(bb, 0, 13, 5, 4);
            lemma_region_of_region(bb, 0, 13, 9, 4);
            assert(bb[0] == region(bb, 0, 13)[0]);
            assert forall|j: int| 0 <= j < n implies entry_key(
                types,
                #[trigger] leaf_entry_region(types, bb, j),
            ) is Some && leaf_entry_of(types, leaf_entry_region(types, bb, j)) == page@.entries[j] by {
                lemma_leaf_entry_round_trip(page@.entries[j], types);
            }
            assert(leaf_from(types, bb)->Some_0.entries =~= page@.entries);
        }
        Ok(buf)
    }

    /// Reads a leaf with keys of the schema from a block.
    pub fn decode(schema: &Schema, buf: &Vec<u8>) -> (res: Result<BPlusTreeLeafPage, BustubxError>)
        ensures
            match leaf_from(schema.types(), buf@) {
                Some(page) => res is Ok && res->Ok_0@ == page,
                None => res is Err && res->Err_0 == BustubxError::Corrupt,
            },
    {
        let ghost types = schema.types();
        if buf.len() != PAGE_SIZE || buf[0] != LEAF_KIND {
            return Err(BustubxError::Corrupt);
        }
        let n: usize = get_u32(buf, 1) as usize;
        let max_size: u32 = get_u32(buf, 5);
        let next_page_id: u32 = get_u32(buf, 9);
        let columns: usize = schema.column_count();
        let mut array: Vec<LeafKV> = Vec::new();
        if n == 0 {
            proof {
                assert(0 * leaf_entry_size(types) == 0);
                assert(leaf_from(types, buf@)->Some_0.entries =~= leaf_entries(array@));
            }
            return Ok(BPlusTreeLeafPage { max_size, next_page_id, array });
        }
        if columns > PAGE_SIZE {
            assert(n * leaf_entry_size(types) >= leaf_entry_size(types)) by (nonlinear_arith)
                requires
                    n >= 1,
                    leaf_entry_size(types) >= 0,
            ;
            return Err(BustubxError::Corrupt);
        }
        let k: usize = 9 * columns;
        let e: usize = k + 8;
        if !room(13, n, e) {
            return Err(BustubxError::Corrupt);
        }
        let mut pos: usize = 13;
        let mut i: usize = 0;
        while i < n
            invariant
                i <= n,
                n == u32_at(buf@, 1),
                k == key_size(types),
                e == leaf_entry_size(types),
                types == schema.types(),
                leaf_fits(types, n as int),
                buf.len() == PAGE_SIZE,
                pos == 13 + i * leaf_entry_size(types),
                pos <= PAGE_SIZE,
                array@.len() == i,
                forall|j: int|
                    0 <= j < i ==> entry_key(types, #[trigger] leaf_entry_region(types, buf@, j)) is Some,
                forall|j: int|
                    0 <= j < i ==> (array@[j].0@, array@[j].1) == leaf_entry_of(
                        types,
                        leaf_entry_region(types, buf@, j),
                    ),
            decreases n - i,
        {
            proof {
                lemma_entry_pos(n as int, i as int, leaf_entry_size(types));
                lemma_region_of_region(buf@, pos as int, e as int, 0, k as int);
                lemma_region_of_region(buf@, pos as int, e as int, k as int, 4);
                lemma_region_of_region(buf@, pos as int, e as int, k + 4, 4);
            }
            let key = match TupleCodec::decode(schema, buf, pos) {
                Ok(key) => key,
                Err(_) => {
                    assert(entry_key(types, leaf_entry_region(types, buf@, i as int)) is None);
                    return Err(BustubxError::Corrupt);
                },
            };
            let page_id: u32 = get_u32(buf, pos + k);
            let slot_num: u32 = get_u32(buf, pos + k + 4);
            array.push((key, RecordId::new(page_id, slot_num)));
            pos = pos + e;
            i += 1;
        }
        assert(leaf_from(types, buf@)->Some_0.entries =~= leaf_entries(array@));
        Ok(BPlusTreeLeafPage { max_size, next_page_id, array })
    }
}

impl BPlusTreeInternalPageCodec {
    fn encode_entry(kv: &InternalKV) -> (out: Vec<u8>)
        ensures
            out@ == internal_entry_bytes((kv.0@, kv.1)),
    {
        let mut out = TupleCodec::encode(&kv.0);
        let mut a = u32_to_le_bytes(kv.1);
        out.append(&mut a);
        out
    }

    /// The internal page as a block of the page size. `SchemaMismatch` where
    /// a key has not the column types, `PageOverflow` where the entries do
    /// not fit.
    pub fn encode(page: &BPlusTreeInternalPage, schema: &Schema) -> (res: Result<
        Vec<u8>,
        BustubxError,
    >)
        ensures
            !keys_conform(page@.entries, schema.types()) ==> res is Err && res->Err_0
                == BustubxError::SchemaMismatch,
            keys_conform(page@.entries, schema.types()) && !internal_fits(
                schema.types(),
                page@.entries.len() as int,
            ) ==> res is Err && res->Err_0 == BustubxError::PageOverflow,
            keys_conform(page@.entries, schema.types()) && internal_fits(
                schema.types(),
                page@.entries.len() as int,
            ) ==> res is Ok,
            res is Ok ==> res->Ok_0@.len() == PAGE_SIZE && internal_from(
                schema.types(),
                res->Ok_0@,
            ) == Some(page@),
    {
        let ghost types = schema.types();
        let n: usize = page.array.len();
        let mut c: usize = 0;
        while c < n
            invariant
                c <= n,
                n == page.array@.len(),
                forall|j: int| 0 <= j < c ==> conforms_to((#[trigger] page@.entries[j]).0, schema.types()),
            decreases n - c,
        {
            if !page.array[c].0.conforms(schema) {
                assert(!conforms_to(page@.entries[c as int].0, schema.types()));
                return Err(BustubxError::SchemaMismatch);
            }
            c += 1;
        }
        let columns: usize = schema.column_count();
        if n > 0 && columns > PAGE_SIZE {
            assert(n * internal_entry_size(types) >= internal_entry_size(types))
                by (nonlinear_arith)
                requires
                    n >= 1,
                    internal_entry_size(types) >= 0,
            ;
            return Err(BustubxError::PageOverflow);
        }
        let e: usize = if n > 0 {
            9 * columns + 4
        } else {
            0
        };
        if n > 0 && !room(9, n, e) {
            return Err(BustubxError::PageOverflow);
        }
        proof {
            if n == 0 {
                assert(0 * internal_entry_size(types) == 0);
            } else {
                assert(n * e >= n) by (nonlinear_arith)
                    requires
                        n >= 1,
                        e >= 4,
                ;
            }
        }
        let mut buf = zero_block(PAGE_SIZE);
        let mut header: Vec<u8> = Vec::new();
        header.push(INTERNAL_KIND);
        let mut a = u32_to_le_bytes(n as u32);
        let mut b = u32_to_le_bytes(page.max_size);
        header.append(&mut a);
        header.append(&mut b);
        let ghost header_bytes = header@;
        proof {
            lemma_auto_spec_u32_to_from_le_bytes();
            assert(region(header_bytes, 1, 4) =~= spec_u32_to_le_bytes(n as u32));
            assert(region(header_bytes, 5, 4) =~= spec_u32_to_le_bytes(page.max_size));
        }
        put(&mut buf, 0, &header);
        let mut pos: usize = 9;
        let mut i: usize = 0;
        while i < n
            invariant
                i <= n,
                n == page.array@.len(),
                n > 0 ==> e == internal_entry_size(types),
                types == schema.types(),
                keys_conform(page@.entries, types),
                internal_fits(types, n as int),
                buf.len() == PAGE_SIZE,
                pos == 9 + i * internal_entry_size(types),
                pos <= PAGE_SIZE,
                region(buf@, 0, 9) == header_bytes,
                forall|j: int|
                    0 <= j < i ==> #[trigger] internal_entry_region(types, buf@, j)
                        == internal_entry_bytes(page@.entries[j]),
            decreases n - i,
        {
            let bytes = BPlusTreeInternalPageCodec::encode_entry(&page.array[i]);
            proof {
                lemma_internal_entry_round_trip(page@.entries[i as int], types);
                lemma_entry_pos(n as int, i as int, internal_entry_size(types));
            }
            let ghost before = buf@;
            put(&mut buf, pos, &bytes);
            proof {
                let es = internal_entry_size(types);
                assert forall|j: int| 0 <= j < i + 1 implies #[trigger] internal_entry_region(
                    types,
                    buf@,
                    j,
                ) == internal_entry_bytes(page@.entries[j]) by {
                    if j < i {
                        lemma_entry_pos(i as int, j, es);
                        assert(internal_entry_region(types, before, j) == internal_entry_bytes(page@.entries[j]));
                        assert(region(buf@, 9 + j * es, es) == region(before, 9 + j * es, es));
                    } else {
                        assert(bytes@.len() == es);
                        assert(region(buf@, pos as int, es) == bytes@);
                    }
                }
            }
            pos = pos + e;
            i += 1;
        }
        proof {
            let bb = buf@;
            lemma_region_of_region(bb, 0, 9, 1, 4);
            lemma_region_of_region(bb, 0, 9, 5, 4);
            assert(bb[0] == region(bb, 0, 9)[0]);
            assert forall|j: int| 0 <= j < n implies entry_key(
                types,
                #[trigger] internal_entry_region(types, bb, j),
            ) is Some && internal_entry_of(types, internal_entry_region(types, bb, j))
                == page@.entries[j] by {
                lemma_internal_entry_round_trip(page@.entries[j], types);
            }
            assert(internal_from(types, bb)->Some_0.entries =~= page@.entries);
        }
        Ok(buf)
    }

    /// Reads an internal page with keys of the schema from a block.
    pub fn decode(schema: &Schema, buf: &Vec<u8>) -> (res: Result<
        BPlusTreeInternalPage,
        BustubxError,
    >)
        ensures
            match internal_from(schema.types(), buf@) {
                Some(page) => res is Ok && res->Ok_0@ == page,
                None => res is Err && res->Err_0 == BustubxError::Corrupt,
            },
    {
        let ghost types = schema.types();
        if buf.len() != PAGE_SIZE || buf[0] != INTERNAL_KIND {
            return Err(BustubxError::Corrupt);
        }
        let n: usize = get_u32(buf, 1) as usize;
        let max_size: u32 = get_u32(buf, 5);
        let columns: usize = schema.column_count();
        let mut array: Vec<InternalKV> = Vec::new();
        if n == 0 {
            proof {
                assert(0 * internal_entry_size(types) == 0);
                assert(internal_from(types, buf@)->Some_0.entries =~= internal_entries(array@));
            }
            return Ok(BPlusTreeInternalPage { max_size, array });
        }
        if columns > PAGE_SIZE {
            assert(n * internal_entry_size(types) >= internal_entry_size(types))
                by (nonlinear_arith)
                requires
                    n >= 1,
                    internal_entry_size(types) >= 0,
            ;
            return Err(BustubxError::Corrupt);
        }
        let k: usize = 9 * columns;
        let e: usize = k + 4;
        if !room(9, n, e) {
            return Err(BustubxError::Corrupt);
        }
        let mut pos: usize = 9;
        let mut i: usize = 0;
        while i < n
            invariant
                i <= n,
                n == u32_at(buf@, 1),
                k == key_size(types),
                e == internal_entry_size(types),
                types == schema.types(),
                internal_fits(types, n as int),
                buf.len() == PAGE_SIZE,
                pos == 9 + i * internal_entry_size(types),
                pos <= PAGE_SIZE,
                array@.len() == i,
                forall|j: int|
                    0 <= j < i ==> entry_key(types, #[trigger] internal_entry_region(types, buf@, j)) is Some,
                forall|j: int|
                    0 <= j < i ==> (array@[j].0@, array@[j].1) == internal_entry_of(
                        types,
                        internal_entry_region(types, buf@, j),
                    ),
            decreases n - i,
        {
            proof {
                lemma_entry_pos(n as int, i as int, internal_entry_size(types));
                lemma_region_of_region(buf@, pos as int, e as int, 0, k as int);
                lemma_region_of_region(buf@, pos as int, e as int, k as int, 4);
            }
            let key = match TupleCodec::decode(schema, buf, pos) {
                Ok(key) => key,
                Err(_) => {
                    assert(entry_key(types, internal_entry_region(types, buf@, i as int)) is None);
                    return Err(BustubxError::Corrupt);
                },
            };
            let child: u32 = get_u32(buf, pos + k);
            array.push((key, child));
            pos = pos + e;
            i += 1;
        }
        assert(internal_from(types, buf@)->Some_0.entries =~= internal_entries(array@));
        Ok(BPlusTreeInternalPage { max_size, array })
    }
}

impl BPlusTreePageCodec {
    /// The page as a block of the page size.
    pub fn encode(page: &BPlusTreePage, schema: &Schema) -> (res: Result<Vec<u8>, BustubxError>)
        ensures
            res is Ok ==> res->Ok_0@.len() == PAGE_SIZE && tree_page_from(
                schema.types(),
                res->Ok_0@,
            ) == Some(page@),
            res is Ok <==> encodable(page@, schema.types()),
            res is Err ==> res->Err_0 == encode_error(page@, schema.types()),
    {
        match page {
            BPlusTreePage::Leaf(leaf) => BPlusTreeLeafPageCodec::encode(leaf, schema),
            BPlusTreePage::Internal(internal) => {
                let res = BPlusTreeInternalPageCodec::encode(internal, schema);
                proof {
                    if res is Ok {
                        lemma_internal_from(schema.types(), res->Ok_0@);
                    }
                }
                res
            },
        }
    }

    /// Reads a page of the index with keys of the schema from a block.
    pub fn decode(schema: &Schema, buf: &Vec<u8>) -> (res: Result<BPlusTreePage, BustubxError>)
        ensures
            match tree_page_from(schema.types(), buf@) {
                Some(page) => res is Ok && res->Ok_0@ == page,
                None => res is Err && res->Err_0 == BustubxError::Corrupt,
            },
    {
        if buf.len() > 0 && buf[0] == LEAF_KIND {
            match BPlusTreeLeafPageCodec::decode(schema, buf) {
                Ok(leaf) => Ok(BPlusTreePage::Leaf(leaf)),
                Err(e) => Err(e),
            }
        } else {
            match BPlusTreeInternalPageCodec::decode(schema, buf) {
                Ok(internal) => Ok(BPlusTreePage::Internal(internal)),
                Err(e) => Err(e),
            }
        }
    }
}

} // verus!
