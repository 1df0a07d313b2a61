use crate::catalog::schema::DataType;
use crate::catalog::schema::Schema;
use crate::common::rid::PageId;
use crate::common::rid::RecordId;
use crate::common::rid::TupleMeta;
use crate::common::rid::PAGE_SIZE;
use crate::error::BustubxError;
use crate::storage::codec::tuple_codec::key_size;
use crate::storage::tuple::conforms_to;
use crate::storage::tuple::ScalarValue;
use crate::storage::tuple::Tuple;
use vstd::prelude::*;

verus! {

/// Bytes of the header of a table page: the next page's id and the number of
/// tuples.
pub const TABLE_HEADER_SIZE: usize = 8;

/// Bytes of one entry of the slot directory: offset, length and the tuple's
/// bookkeeping.
pub const SLOT_SIZE: usize = 25;

/// Whether a page has room for `n` tuples of `t` bytes each: the slot
/// directory, which grows from the header, must end at or before the start of
/// the tuple bytes, which grow from the end of the page.
pub open spec fn fits(n: int, t: int) -> bool {
    8 + 25 * n + n * t <= PAGE_SIZE
}

/// One row of a table page.
#[derive(Debug, Clone, PartialEq, Eq)]
pub struct Row {
    pub meta: TupleMeta,
    pub tuple: Tuple,
}

/// The rows of a table page as values.
pub open spec fn rows_view(rows: Seq<Row>) -> Seq<(TupleMeta, Seq<ScalarValue>)> {
    Seq::new(rows.len(), |i: int| (rows[i].meta, rows[i].tuple@))
}

/// What a table page holds: the id of the page that follows it in its table,
/// and its rows by slot number.
pub struct TablePageView {
    pub next_page_id: PageId,
    pub rows: Seq<(TupleMeta, Seq<ScalarValue>)>,
}

/// A page of rows. Slots are only ever added at the end; a row is deleted by
/// a flag in its bookkeeping.
#[derive(Debug, Clone, PartialEq, Eq)]
pub struct TablePage {
    pub next_page_id: PageId,
    pub rows: Vec<Row>,
}

impl View for TablePage {
    type V = TablePageView;

    open spec fn view(&self) -> TablePageView {
        TablePageView { next_page_id: self.next_page_id, rows: rows_view(self.rows@) }
    }
}

impl TablePageView {
    /// Whether the rows have the column types and fit a page together.
    pub open spec fn wf(self, types: Seq<DataType>) -> bool {
        &&& self.has_room(types, 0)
        &&& forall|i: int| 0 <= i < self.rows.len() ==> conforms_to((#[trigger] self.rows[i]).1, types)
    }

    /// Whether the page has room for its rows and `extra` more.
    pub open spec fn has_room(self, types: Seq<DataType>, extra: int) -> bool {
        fits(self.rows.len() as int + extra, key_size(types))
    }

    /// The row that follows `rid` on this page, if there is one.
    pub open spec fn next_rid(self, rid: RecordId) -> Option<RecordId> {
        if rid.slot_num < u32::MAX && rid.slot_num + 1 < self.rows.len() {
            Some(RecordId { page_id: rid.page_id, slot_num: (rid.slot_num + 1) as u32 })
        } else {
            None
        }
    }
}

/// A page that fits `n` tuples fits fewer, and has at most as many tuples as
/// it has bytes.
pub proof fn lemma_fits(n: int, m: int, t: int)
    requires
        0 <= m <= n,
        0 <= t,
        fits(n, t),
    ensures
        fits(m, t),
        n <= PAGE_SIZE,
        0 <= m * t <= n * t <= PAGE_SIZE,
{
    assert(m * t <= n * t) by (nonlinear_arith)
        requires
            0 <= m <= n,
            0 <= t,
    ;
    assert(0 <= m * t) by (nonlinear_arith)
        requires
            0 <= m,
            0 <= t,
    ;
}

/// Whether `n` tuples of `t` bytes fit a page.
pub fn room_for(n: usize, t: usize) -> (b: bool)
    ensures
        b == fits(n as int, t as int),
{
    if n == 0 {
        assert(0 * (t as int) == 0);
        return true;
    }
    if n > PAGE_SIZE || t > PAGE_SIZE {
        assert(n * t >= t && n * t >= 0) by (nonlinear_arith)
            requires
                n >= 1,
                t >= 0,
        ;
        return false;
    }
    assert(n * t <= 4096 * 4096) by (nonlinear_arith)
        requires
            n <= 4096,
            t <= 4096,
    ;
    let total: u64 = 8 + 25 * (n as u64) + (n as u64) * (t as u64);
    total <= PAGE_SIZE as u64
}

impl TablePage {
    pub open spec fn wf(&self, types: Seq<DataType>) -> bool {
        self@.wf(types)
    }

    /// A page without rows.
    pub fn new(next_page_id: PageId) -> (page: TablePage)
        ensures
            page@.next_page_id == next_page_id,
            page@.rows.len() == 0,
    {
        TablePage { next_page_id, rows: Vec::new() }
    }

    pub fn num_tuples(&self) -> (n: usize)
        ensures
            n == self@.rows.len(),
    {
        self.rows.len()
    }

    /// The offset in the page at which the bytes of one more tuple of the
    /// schema would start, or `PageOverflow` where the page has no room for
    /// it.
    pub fn next_tuple_offset(&self, schema: &Schema) -> (res: Result<usize, BustubxError>)
        requires
            self.wf(schema.types()),
        ensures
            self@.has_room(schema.types(), 1) ==> res is Ok && res->Ok_0 == PAGE_SIZE - (
            self@.rows.len() + 1) * key_size(schema.types()),
            !self@.has_room(schema.types(), 1) ==> res == Err::<
                usize,
                BustubxError,
            >(BustubxError::PageOverflow),
    {
        let n: usize = self.rows.len();
        let columns: usize = schema.column_count();
        proof {
            lemma_fits(n as int, 0, 9 * columns);
        }
        if columns > PAGE_SIZE {
            assert((n + 1) * (9 * columns) >= 9 * columns) by (nonlinear_arith)
                requires
                    n >= 0,
                    columns >= 0,
            ;
            return Err(BustubxError::PageOverflow);
        }
        let t: usize = 9 * columns;
        if !room_for(n + 1, t) {
            return Err(BustubxError::PageOverflow);
        }
        proof {
            lemma_fits(n + 1, n + 1, t as int);
        }
        Ok(PAGE_SIZE - (n + 1) * t)
    }

    /// Adds a row in the next free slot and returns the slot's number.
    pub fn insert_tuple(&mut self, meta: &TupleMeta, tuple: &Tuple, schema: &Schema) -> (res: Result<
        u32,
        BustubxError,
    >)
        requires
            old(self).wf(schema.types()),
        ensures
            final(self).wf(schema.types()),
            final(self)@.next_page_id == old(self)@.next_page_id,
            !conforms_to(tuple@, schema.types()) ==> res == Err::<u32, BustubxError>(
                BustubxError::SchemaMismatch,
            ),
            conforms_to(tuple@, schema.types()) && !old(self)@.has_room(schema.types(), 1) ==> res == Err::<u32, BustubxError>(BustubxError::PageOverflow),
            conforms_to(tuple@, schema.types()) && old(self)@.has_room(schema.types(), 1) ==> res == Ok::<u32, BustubxError>(old(self)@.rows.len() as u32),
            res is Ok ==> final(self)@.rows == old(self)@.rows.push((*meta, tuple@)),
            res is Err ==> final(self)@ == old(self)@,
    {
        if !tuple.conforms(schema) {
            return Err(BustubxError::SchemaMismatch);
        }
        match self.next_tuple_offset(schema) {
            Ok(_) => {},
            Err(e) => {
                return Err(e);
            },
        }
        let slot: usize = self.rows.len();
        proof {
            lemma_fits(slot + 1, slot + 1, key_size(schema.types()));
        }
        self.rows.push(Row { meta: *meta, tuple: tuple.duplicate() });
        assert(self@.rows =~= old(self)@.rows.push((*meta, tuple@)));
        Ok(slot as u32)
    }

    /// Replaces the bookkeeping of the row in a slot.
    pub fn update_tuple_meta(&mut self, meta: TupleMeta, slot_num: u32) -> (res: Result<
        (),
        BustubxError,
    >)
        ensures
            final(self)@.next_page_id == old(self)@.next_page_id,
            slot_num < old(self)@.rows.len() ==> res is Ok && final(self)@.rows == old(self)@.rows.update(slot_num as int, (meta, old(self)@.rows[slot_num as int].1)),
            slot_num >= old(self)@.rows.len() ==> res == Err::<(), BustubxError>(
                BustubxError::OutOfRange,
            ) && final(self)@ == old(self)@,
    {
        if slot_num as usize >= self.rows.len() {
            return Err(BustubxError::OutOfRange);
        }
        self.rows[slot_num as usize].meta = meta;
        assert(self@.rows =~= old(self)@.rows.update(
            slot_num as int,
            (meta, old(self)@.rows[slot_num as int].1),
        ));
        Ok(())
    }

    /// Replaces the values of the row in a slot by a tuple of the same schema,
    /// which takes the same bytes.
    pub fn update_tuple(&mut self, tuple: Tuple, slot_num: u32, schema: &Schema) -> (res: Result<
        (),
        BustubxError,
    >)
        requires
            old(self).wf(schema.types()),
        ensures
            final(self).wf(schema.types()),
            final(self)@.next_page_id == old(self)@.next_page_id,
            slot_num >= old(self)@.rows.len() ==> res == Err::<(), BustubxError>(
                BustubxError::OutOfRange,
            ),
            slot_num < old(self)@.rows.len() && !conforms_to(tuple@, schema.types()) ==> res
                == Err::<(), BustubxError>(BustubxError::SchemaMismatch),
            slot_num < old(self)@.rows.len() && conforms_to(tuple@, schema.types()) ==> res is Ok
                && final(self)@.rows == old(self)@.rows.update(
                slot_num as int,
                (old(self)@.rows[slot_num as int].0, tuple@),
            ),
            res is Err ==> final(self)@ == old(self)@,
    {
        if slot_num as usize >= self.rows.len() {
            return Err(BustubxError::OutOfRange);
        }
        if !tuple.conforms(schema) {
            return Err(BustubxError::SchemaMismatch);
        }
        self.rows[slot_num as usize].tuple = tuple;
        assert(self@.rows =~= old(self)@.rows.update(
            slot_num as int,
            (old(self)@.rows[slot_num as int].0, tuple@),
        ));
        Ok(())
    }

    /// The row in a slot.
    pub fn tuple(&self, slot_num: u32) -> (res: Result<(TupleMeta, Tuple), BustubxError>)
        ensures
            slot_num < self@.rows.len() ==> res is Ok && res->Ok_0.0 == self@.rows[slot_num as int].0
                && res->Ok_0.1@ == self@.rows[slot_num as int].1,
            slot_num >= self@.rows.len() ==> res == Err::<(TupleMeta, Tuple), BustubxError>(
                BustubxError::OutOfRange,
            ),
    {
        if slot_num as usize >= self.rows.len() {
            return Err(BustubxError::OutOfRange);
        }
        let row = &self.rows[slot_num as usize];
        Ok((row.meta, row.tuple.duplicate()))
    }

    /// The bookkeeping of the row in a slot.
    pub fn tuple_meta(&self, slot_num: u32) -> (res: Result<TupleMeta, BustubxError>)
        ensures
            slot_num < self@.rows.len() ==> res == Ok::<TupleMeta, BustubxError>(
                self@.rows[slot_num as int].0,
            ),
            slot_num >= self@.rows.len() ==> res == Err::<TupleMeta, BustubxError>(
                BustubxError::OutOfRange,
            ),
    {
        if slot_num as usize >= self.rows.len() {
            return Err(BustubxError::OutOfRange);
        }
        Ok(self.rows[slot_num as usize].meta)
    }

    /// The record id of the slot after `rid`'s on this page, if the page has
    /// that slot. Rows that are flagged as deleted are not skipped.
    pub fn get_next_rid(&self, rid: &RecordId) -> (next: Option<RecordId>)
        ensures
            next == self@.next_rid(*rid),
    {
        if rid.slot_num < u32::MAX && ((rid.slot_num + 1) as usize) < self.rows.len() {
            Some(RecordId::new(rid.page_id, rid.slot_num + 1))
        } else {
            None
        }
    }
}

} // verus!
