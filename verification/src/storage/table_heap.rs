use crate::buffer::buffer_pool::BufferPoolManager;
use crate::catalog::schema::DataType;
use crate::catalog::schema::Schema;
use crate::common::bound::Bound;
use crate::common::rid::invalid_rid;
use crate::common::rid::PageId;
use crate::common::rid::RecordId;
use crate::common::rid::TupleMeta;
use crate::common::rid::INVALID_PAGE_ID;
use crate::error::BustubxError;
use crate::storage::codec::table_page_codec::table_page_from;
use crate::storage::codec::tuple_codec::key_size;
use crate::storage::table_page::fits;
use crate::storage::table_page::lemma_fits;
use crate::storage::table_page::room_for;
use crate::storage::table_page::TablePage;
use crate::storage::table_page::TablePageView;
use crate::storage::tuple::conforms_to;
use crate::storage::tuple::ScalarValue;
use crate::storage::tuple::Tuple;
use vstd::prelude::*;

verus! {

/// The rows of one table: a chain of table pages in a buffer pool that the
/// heap owns. Rows are added at the end of the last page; a page that is
/// full gets a successor.
pub struct TableHeap {
    schema: Schema,
    buffer_pool: BufferPoolManager,
    first_page_id: PageId,
    last_page_id: PageId,
    /// The pages of the heap, first to last.
    chain: Ghost<Seq<PageId>>,
    /// For each page of the chain, the number of rows on the pages before it.
    starts: Ghost<Seq<int>>,
    /// The record ids of the rows, in the order in which they were inserted.
    log: Ghost<Seq<RecordId>>,
    /// For each row, the place of its page in the chain.
    owner: Ghost<Seq<int>>,
}

impl TableHeap {
    /// The column types of the rows.
    pub closed spec fn types(&self) -> Seq<DataType> {
        self.schema.types()
    }

    pub closed spec fn first_page(&self) -> PageId {
        self.first_page_id
    }

    pub closed spec fn last_page(&self) -> PageId {
        self.last_page_id
    }

    /// Whether the disk has a page of this id.
    pub closed spec fn readable(&self, page_id: PageId) -> bool {
        self.buffer_pool.on_disk(page_id)
    }

    /// Number of page ids handed out so far.
    pub closed spec fn page_count(&self) -> nat {
        self.buffer_pool.page_count()
    }

    /// The table page under an id, where the disk has such a page and it
    /// holds a table page of the heap's schema.
    pub closed spec fn page_view(&self, page_id: PageId) -> Option<TablePageView> {
        if self.buffer_pool.on_disk(page_id) {
            table_page_from(self.schema.types(), self.buffer_pool.image(page_id))
        } else {
            None
        }
    }

    /// The record ids of the rows of the heap, in the order in which they were
    /// inserted.
    pub closed spec fn rids(&self) -> Seq<RecordId> {
        self.log@
    }

    /// The error that reading a page gives where `page_view` has nothing.
    pub open spec fn page_error(&self, page_id: PageId) -> BustubxError {
        if self.readable(page_id) {
            BustubxError::Corrupt
        } else {
            BustubxError::Io
        }
    }

    /// The row under a record id, if there is one.
    pub open spec fn row(&self, rid: RecordId) -> Option<(TupleMeta, Seq<ScalarValue>)> {
        match self.page_view(rid.page_id) {
            Some(page) => if rid.slot_num < page.rows.len() {
                Some(page.rows[rid.slot_num as int])
            } else {
                None
            },
            None => None,
        }
    }

    /// What reading the row under a record id gives.
    pub open spec fn row_result(&self, rid: RecordId) -> Result<
        (TupleMeta, Seq<ScalarValue>),
        BustubxError,
    > {
        match self.page_view(rid.page_id) {
            Some(page) => if rid.slot_num < page.rows.len() {
                Ok(page.rows[rid.slot_num as int])
            } else {
                Err(BustubxError::OutOfRange)
            },
            None => Err(self.page_error(rid.page_id)),
        }
    }

    /// The first record id of the heap: slot 0 of the first page, if that page
    /// has a row.
    pub open spec fn first_rid(&self) -> Result<Option<RecordId>, BustubxError> {
        match self.page_view(self.first_page()) {
            Some(page) => if page.rows.len() == 0 {
                Ok(None)
            } else {
                Ok(Some(RecordId { page_id: self.first_page(), slot_num: 0 }))
            },
            None => Err(self.page_error(self.first_page())),
        }
    }

    /// The record id after `rid`: the next slot of its page, else slot 0 of
    /// the page that follows, if there is one and it has a row.
    pub open spec fn next_rid(&self, rid: RecordId) -> Result<Option<RecordId>, BustubxError> {
        match self.page_view(rid.page_id) {
            Some(page) => match page.next_rid(rid) {
                Some(next) => Ok(Some(next)),
                None => if page.next_page_id == INVALID_PAGE_ID {
                    Ok(None)
                } else {
                    match self.page_view(page.next_page_id) {
                        Some(next_page) => if next_page.rows.len() == 0 {
                            Ok(None)
                        } else {
                            Ok(Some(RecordId { page_id: page.next_page_id, slot_num: 0 }))
                        },
                        None => Err(self.page_error(page.next_page_id)),
                    }
                },
            },
            None => Err(self.page_error(rid.page_id)),
        }
    }

    /// Whether the last page has room for one more row.
    pub open spec fn last_has_room(&self) -> bool {
        self.page_view(self.last_page()) is Some && self.page_view(self.last_page())->Some_0.has_room(
            self.types(),
            1,
        )
    }

    spec fn rows_on(&self, i: int) -> int {
        self.page_view(self.chain@[i])->Some_0.rows.len() as int
    }

    spec fn chain_ok(&self, i: int) -> bool {
        let page_id = self.chain@[i];
        &&& self.buffer_pool.on_disk(page_id)
        &&& self.page_view(page_id) is Some
        &&& self.page_view(page_id)->Some_0.wf(self.schema.types())
        &&& self.page_view(page_id)->Some_0.next_page_id == if i + 1 < self.chain@.len() {
            self.chain@[i + 1]
        } else {
            INVALID_PAGE_ID
        }
        &&& (i >= 1 || self.chain@.len() >= 2) ==> self.rows_on(i) >= 1
        &&& i >= 1 ==> self.starts@[i] >= 1
        &&& self.starts@[i] + self.rows_on(i) <= self.log@.len()
        &&& self.starts@[i] + self.rows_on(i) == if i + 1 < self.chain@.len() {
            self.starts@[i + 1]
        } else {
            self.log@.len() as int
        }
    }

    spec fn row_ok(&self, k: int) -> bool {
        let i = self.owner@[k];
        &&& 0 <= i < self.chain@.len()
        &&& self.starts@[i] <= k < self.starts@[i] + self.rows_on(i)
        &&& self.log@[k] == RecordId {
            page_id: self.chain@[i],
            slot_num: (k - self.starts@[i]) as u32,
        }
        &&& k + 1 < self.log@.len() ==> i <= self.owner@[k + 1] <= i + 1
        &&& k + 1 == self.log@.len() ==> i == self.chain@.len() - 1
    }

    /// The pages form a chain from the first to the last, each a table page
    /// of the schema that names its successor; the rows are those of the
    /// pages taken in chain order; the pool is at rest.
    pub closed spec fn wf(&self) -> bool {
        &&& self.buffer_pool.at_rest()
        &&& fits(1, key_size(self.schema.types()))
        &&& self.chain@.len() >= 1
        &&& self.chain@[0] == self.first_page_id
        &&& self.chain@[self.chain@.len() - 1] == self.last_page_id
        &&& self.chain@.no_duplicates()
        &&& self.starts@.len() == self.chain@.len()
        &&& self.starts@[0] == 0
        &&& self.owner@.len() == self.log@.len()
        &&& forall|i: int| 0 <= i < self.chain@.len() ==> #[trigger] self.chain_ok(i)
        &&& forall|k: int| 0 <= k < self.log@.len() ==> #[trigger] self.row_ok(k)
    }

    /// The pages hold the same bytes in both heaps, and all else is the same.
    spec fn same_pages(&self, other: &TableHeap) -> bool {
        &&& self.schema == other.schema
        &&& self.first_page_id == other.first_page_id
        &&& self.last_page_id == other.last_page_id
        &&& self.chain@ == other.chain@
        &&& self.starts@ == other.starts@
        &&& self.log@ == other.log@
        &&& self.owner@ == other.owner@
        &&& self.buffer_pool.page_count() == other.buffer_pool.page_count()
        &&& forall|q: PageId| #[trigger] self.buffer_pool.image(q) == other.buffer_pool.image(q)
    }

    proof fn lemma_same_pages(&self, other: &TableHeap)
        requires
            self.wf(),
            self.same_pages(other),
            other.buffer_pool.at_rest(),
        ensures
            other.wf(),
            forall|q: PageId| #[trigger] other.page_view(q) == self.page_view(q),
    {
        assert forall|q: PageId| #[trigger] other.page_view(q) == self.page_view(q) by {
            assert(self.buffer_pool.image(q) == other.buffer_pool.image(q));
        }
        assert forall|i: int| 0 <= i < other.chain@.len() implies #[trigger] other.chain_ok(i) by {
            assert(self.chain_ok(i));
        }
        assert forall|k: int| 0 <= k < other.log@.len() implies #[trigger] other.row_ok(k) by {
            assert(self.row_ok(k));
        }
    }

    /// Iteration goes through the rows in the order in which they were
    /// inserted: it starts at the first row that was inserted, and after each
    /// row comes the one that was inserted next.
    pub proof fn lemma_iteration_follows_insertion(&self, k: int)
        requires
            self.wf(),
            0 <= k < self.rids().len(),
        ensures
            self.first_rid() == Ok::<Option<RecordId>, BustubxError>(Some(self.rids()[0])),
            self.row(self.rids()[k]) is Some,
            self.next_rid(self.rids()[k]) == Ok::<Option<RecordId>, BustubxError>(
                if k + 1 < self.rids().len() {
                    Some(self.rids()[k + 1])
                } else {
                    None
                },
            ),
    {
        assert(self.row_ok(0));
        let i0 = self.owner@[0];
        assert(self.chain_ok(i0));
        assert(i0 == 0);
        assert(self.row_ok(k));
        let i = self.owner@[k];
        assert(self.chain_ok(i));
        let page = self.page_view(self.chain@[i])->Some_0;
        lemma_fits(page.rows.len() as int, 0, key_size(self.schema.types()));
        if k + 1 < self.log@.len() {
            assert(self.row_ok(k + 1));
            assert(self.chain_ok(self.owner@[k + 1]));
            if i + 1 < self.chain@.len() {
                assert(self.chain_ok(i + 1));
            }
        }
    }

    /// A heap without rows has no first record id.
    pub proof fn lemma_empty_heap(&self)
        requires
            self.wf(),
            self.rids().len() == 0,
        ensures
            self.first_rid() == Ok::<Option<RecordId>, BustubxError>(None),
    {
        assert(self.chain_ok(0));
    }

    /// A heap with one empty page in the pool.
    pub fn try_new(schema: Schema, buffer_pool: BufferPoolManager) -> (res: Result<
        TableHeap,
        BustubxError,
    >)
        requires
            buffer_pool.wf(),
            buffer_pool.unpinned(),
        ensures
            buffer_pool.capacity() == 0 ==> res is Err && res->Err_0 == BustubxError::BufferPoolFull,
            buffer_pool.capacity() > 0 && !fits(1, key_size(schema.types())) ==> res is Err
                && res->Err_0 == BustubxError::PageOverflow,
            buffer_pool.capacity() > 0 && fits(1, key_size(schema.types()))
                && buffer_pool.page_count() >= u32::MAX ==> res is Err && res->Err_0
                == BustubxError::DiskFull,
            buffer_pool.capacity() > 0 && fits(1, key_size(schema.types()))
                && buffer_pool.page_count() < u32::MAX ==> res is Ok,
            res is Ok ==> {
                let heap = res->Ok_0;
                &&& heap.wf()
                &&& heap.types() == schema.types()
                &&& heap.rids().len() == 0
                &&& heap.first_page() == buffer_pool.page_count() + 1
                &&& heap.last_page() == heap.first_page()
                &&& heap.page_count() == buffer_pool.page_count() + 1
            },
    {
        let mut buffer_pool = buffer_pool;
        if buffer_pool.pool_size() == 0 {
            return Err(BustubxError::BufferPoolFull);
        }
        let columns: usize = schema.column_count();
        if columns > 4096 {
            assert(1 * key_size(schema.types()) == key_size(schema.types()));
            return Err(BustubxError::PageOverflow);
        }
        if !room_for(1, 9 * columns) {
            return Err(BustubxError::PageOverflow);
        }
        let first_page_id: PageId = match buffer_pool.create_page() {
            Ok(page_id) => page_id,
            Err(e) => {
                return Err(e);
            },
        };
        let table_page = TablePage::new(INVALID_PAGE_ID);
        assert(0 * key_size(schema.types()) == 0);
        match buffer_pool.write_table_page(first_page_id, &table_page, &schema) {
            Ok(_) => {},
            Err(e) => {
                assert(false);
                return Err(e);
            },
        }
        let ghost chain: Seq<PageId> = Seq::empty().push(first_page_id);
        let ghost starts: Seq<int> = Seq::empty().push(0int);
        let ghost log: Seq<RecordId> = Seq::empty();
        let ghost owner: Seq<int> = Seq::empty();
        let heap = TableHeap {
            schema,
            buffer_pool,
            first_page_id,
            last_page_id: first_page_id,
            chain: Ghost(chain),
            starts: Ghost(starts),
            log: Ghost(log),
            owner: Ghost(owner),
        };
        proof {
            assert(heap.page_view(first_page_id) == Some(table_page@));
            assert(heap.chain_ok(0));
        }
        Ok(heap)
    }

    /// Adds a row at the end of the heap and returns its record id. The row
    /// goes to the last page, or, where that page is full, to a new page that
    /// becomes the last.
    pub fn insert_tuple(&mut self, meta: &TupleMeta, tuple: &Tuple) -> (res: Result<
        RecordId,
        BustubxError,
    >)
        requires
            old(self).wf(),
        ensures
            final(self).wf(),
            final(self).types() == old(self).types(),
            final(self).first_page() == old(self).first_page(),
            !conforms_to(tuple@, old(self).types()) ==> res is Err && res->Err_0
                == BustubxError::SchemaMismatch,
            conforms_to(tuple@, old(self).types()) && !old(self).last_has_room() && old(self).page_count() >= u32::MAX ==> res is Err && res->Err_0 == BustubxError::DiskFull,
            conforms_to(tuple@, old(self).types()) && (old(self).last_has_room() || old(self).page_count() < u32::MAX) ==> res is Ok,
            res is Err ==> final(self).rids() == old(self).rids() && final(self).last_page() == old(self).last_page() && forall|q: PageId| #[trigger]
                final(self).page_view(q) == old(self).page_view(q),
            res is Ok ==> {
                let rid = res->Ok_0;
                &&& final(self).rids() == old(self).rids().push(rid)
                &&& rid.page_id == final(self).last_page()
                &&& old(self).row(rid) is None
                &&& final(self).row(rid) == Some((*meta, tuple@))
                &&& forall|r: RecordId| r != rid ==> #[trigger] final(self).row(r) == old(self).row(r)
                &&& old(self).last_has_room() ==> final(self).last_page() == old(self).last_page()
                    && rid.slot_num == old(self).page_view(old(self).last_page())->Some_0.rows.len()
                &&& !old(self).last_has_room() ==> final(self).last_page() == old(self).page_count()
                    + 1 && rid.slot_num == 0
            },
    {
        if !tuple.conforms(&self.schema) {
            return Err(BustubxError::SchemaMismatch);
        }
        let last: PageId = self.last_page_id;
        let ghost m = self.chain@.len() - 1;
        assert(self.chain_ok(m));
        let mut page = match self.buffer_pool.read_table_page(last, &self.schema) {
            Ok(page) => page,
            Err(e) => {
                assert(false);
                return Err(e);
            },
        };
        proof {
            old(self).lemma_same_pages(self);
        }
        let ghost before = *self;
        let ghost types = self.schema.types();
        if page.next_tuple_offset(&self.schema).is_ok() {
            let slot: u32 = match page.insert_tuple(meta, tuple, &self.schema) {
                Ok(slot) => slot,
                Err(e) => {
                    assert(false);
                    return Err(e);
                },
            };
            match self.buffer_pool.write_table_page(last, &page, &self.schema) {
                Ok(_) => {},
                Err(e) => {
                    assert(false);
                    return Err(e);
                },
            }
            let rid = RecordId::new(last, slot);
            proof {
                let k = self.log@.len() as int;
                self.log@ = self.log@.push(rid);
                self.owner@ = self.owner@.push(m);
                assert(self.page_view(last) == Some(page@));
                assert forall|q: PageId| q != last implies #[trigger] self.page_view(q)
                    == before.page_view(q) by {
                    assert(self.buffer_pool.image(q) == before.buffer_pool.image(q));
                }
                assert forall|i: int| 0 <= i < self.chain@.len() implies #[trigger] self.chain_ok(
                    i,
                ) by {
                    assert(before.chain_ok(i));
                }
                assert forall|j: int| 0 <= j < self.log@.len() implies #[trigger] self.row_ok(j) by {
                    if j < k {
                        assert(before.row_ok(j));
                    }
                }
                assert forall|r: RecordId| r != rid implies #[trigger] self.row(r) == old(self).row(
                    r,
                ) by {
                    if r.page_id == last {
                        assert(before.page_view(last)->Some_0.rows.len() == slot);
                    }
                }
            }
            return Ok(rid);
        }
        assert(page@.rows.len() >= 1) by {
            if page@.rows.len() == 0 {
                assert(fits(1, key_size(types)));
            }
        }
        let new_id: PageId = match self.buffer_pool.create_page() {
            Ok(page_id) => page_id,
            Err(e) => {
                return Err(e);
            },
        };
        let mut next_page = TablePage::new(INVALID_PAGE_ID);
        assert(0 * key_size(types) == 0);
        match next_page.insert_tuple(meta, tuple, &self.schema) {
            Ok(_) => {},
            Err(e) => {
                assert(false);
                return Err(e);
            },
        }
        match self.buffer_pool.write_table_page(new_id, &next_page, &self.schema) {
            Ok(_) => {},
            Err(e) => {
                assert(false);
                return Err(e);
            },
        }
        page.next_page_id = new_id;
        match self.buffer_pool.write_table_page(last, &page, &self.schema) {
            Ok(_) => {},
            Err(e) => {
                assert(false);
                return Err(e);
            },
        }
        self.last_page_id = new_id;
        let rid = RecordId::new(new_id, 0);
        proof {
            let k = self.log@.len() as int;
            self.chain@ = self.chain@.push(new_id);
            self.starts@ = self.starts@.push(k);
            self.log@ = self.log@.push(rid);
            self.owner@ = self.owner@.push(m + 1);
            assert(self.page_view(last) == Some(page@));
            assert(self.page_view(new_id) == Some(next_page@));
            assert(before.page_view(new_id) is None);
            assert forall|q: PageId| q != last && q != new_id implies #[trigger] self.page_view(q)
                == before.page_view(q) by {
                assert(self.buffer_pool.image(q) == before.buffer_pool.image(q));
            }
            assert forall|i: int| 0 <= i < before.chain@.len() implies before.chain@[i]
                != new_id by {
                assert(before.chain_ok(i));
            }
            assert forall|i: int| 0 <= i < self.chain@.len() implies #[trigger] self.chain_ok(i) by {
                if i <= m {
                    assert(before.chain_ok(i));
                    assert(self.chain@[i] == before.chain@[i]);
                    if i < m {
                        assert(before.chain@[i] != before.chain@[m]);
                    }
                }
            }
            assert forall|j: int| 0 <= j < self.log@.len() implies #[trigger] self.row_ok(j) by {
                if j < k {
                    assert(before.row_ok(j));
                    assert(before.chain_ok(before.owner@[j]));
                }
            }
            assert forall|r: RecordId| r != rid implies #[trigger] self.row(r) == old(self).row(
                r,
            ) by {}
        }
        Ok(rid)
    }

    /// Replaces the values of the row under a record id by a tuple of the
    /// schema.
    pub fn update_tuple(&mut self, rid: RecordId, tuple: Tuple) -> (res: Result<(), BustubxError>)
        requires
            old(self).wf(),
        ensures
            final(self).wf(),
            final(self).types() == old(self).types(),
            final(self).rids() == old(self).rids(),
            final(self).first_page() == old(self).first_page(),
            final(self).last_page() == old(self).last_page(),
            old(self).row_result(rid) is Err ==> res is Err && res->Err_0 == old(self).row_result(
                rid,
            )->Err_0,
            old(self).row_result(rid) is Ok && !conforms_to(tuple@, old(self).types()) ==> res is Err
                && res->Err_0 == BustubxError::SchemaMismatch,
            old(self).row_result(rid) is Ok && conforms_to(tuple@, old(self).types()) ==> res is Ok,
            res is Ok ==> final(self).row(rid) == Some((old(self).row(rid)->Some_0.0, tuple@)),
            res is Err ==> final(self).row(rid) == old(self).row(rid),
            forall|r: RecordId| r != rid ==> #[trigger] final(self).row(r) == old(self).row(r),
    {
        let mut page = match self.buffer_pool.read_table_page(rid.page_id, &self.schema) {
            Ok(page) => page,
            Err(e) => {
                proof {
                    old(self).lemma_same_pages(self);
                }
                return Err(e);
            },
        };
        proof {
            old(self).lemma_same_pages(self);
        }
        let ghost before = *self;
        match page.update_tuple(tuple, rid.slot_num, &self.schema) {
            Ok(_) => {},
            Err(e) => {
                return Err(e);
            },
        }
        match self.buffer_pool.write_table_page(rid.page_id, &page, &self.schema) {
            Ok(_) => {},
            Err(e) => {
                assert(false);
                return Err(e);
            },
        }
        proof {
            before.lemma_rewritten(self, rid.page_id);
        }
        Ok(())
    }

    /// A heap stays well-formed when one page is rewritten with as many rows
    /// as it had and the same successor.
    proof fn lemma_rewritten(&self, after: &TableHeap, page_id: PageId)
        requires
            self.wf(),
            after.buffer_pool.at_rest(),
            after.schema == self.schema,
            after.first_page_id == self.first_page_id,
            after.last_page_id == self.last_page_id,
            after.chain@ == self.chain@,
            after.starts@ == self.starts@,
            after.log@ == self.log@,
            after.owner@ == self.owner@,
            after.buffer_pool.page_count() == self.buffer_pool.page_count(),
            forall|q: PageId|
                q != page_id ==> #[trigger] after.buffer_pool.image(q) == self.buffer_pool.image(q),
            self.page_view(page_id) is Some,
            after.page_view(page_id) is Some,
            after.page_view(page_id)->Some_0.wf(self.schema.types()),
            after.page_view(page_id)->Some_0.next_page_id
                == self.page_view(page_id)->Some_0.next_page_id,
            after.page_view(page_id)->Some_0.rows.len() == self.page_view(page_id)->Some_0.rows.len(),
        ensures
            after.wf(),
            forall|q: PageId| q != page_id ==> #[trigger] after.page_view(q) == self.page_view(q),
    {
        assert forall|q: PageId| q != page_id implies #[trigger] after.page_view(q)
            == self.page_view(q) by {
            assert(after.buffer_pool.image(q) == self.buffer_pool.image(q));
        }
        assert forall|i: int| 0 <= i < after.chain@.len() implies #[trigger] after.chain_ok(i) by {
            assert(self.chain_ok(i));
        }
        assert forall|k: int| 0 <= k < after.log@.len() implies #[trigger] after.row_ok(k) by {
            assert(self.row_ok(k));
        }
    }

    /// Replaces the bookkeeping of the row under a record id.
    pub fn update_tuple_meta(&mut self, meta: TupleMeta, rid: RecordId) -> (res: Result<
        (),
        BustubxError,
    >)
        requires
            old(self).wf(),
        ensures
            final(self).wf(),
            final(self).types() == old(self).types(),
            final(self).rids() == old(self).rids(),
            final(self).first_page() == old(self).first_page(),
            final(self).last_page() == old(self).last_page(),
            old(self).row_result(rid) is Err ==> res is Err && res->Err_0 == old(self).row_result(
                rid,
            )->Err_0,
            old(self).row_result(rid) is Ok ==> res is Ok,
            res is Ok ==> final(self).row(rid) == Some((meta, old(self).row(rid)->Some_0.1)),
            res is Err ==> final(self).row(rid) == old(self).row(rid),
            forall|r: RecordId| r != rid ==> #[trigger] final(self).row(r) == old(self).row(r),
    {
        let mut page = match self.buffer_pool.read_table_page(rid.page_id, &self.schema) {
            Ok(page) => page,
            Err(e) => {
                proof {
                    old(self).lemma_same_pages(self);
                }
                return Err(e);
            },
        };
        proof {
            old(self).lemma_same_pages(self);
        }
        let ghost before = *self;
        match page.update_tuple_meta(meta, rid.slot_num) {
            Ok(_) => {},
            Err(e) => {
                return Err(e);
            },
        }
        assert(page.wf(self.schema.types())) by {
            assert forall|i: int| 0 <= i < page@.rows.len() implies conforms_to(
                (#[trigger] page@.rows[i]).1,
                self.schema.types(),
            ) by {
                assert(conforms_to(before.page_view(rid.page_id)->Some_0.rows[i].1, self.schema.types()));
            }
        }
        match self.buffer_pool.write_table_page(rid.page_id, &page, &self.schema) {
            Ok(_) => {},
            Err(e) => {
                assert(false);
                return Err(e);
            },
        }
        proof {
            before.lemma_rewritten(self, rid.page_id);
        }
        Ok(())
    }

    /// The row under a record id, with its bookkeeping.
    pub fn full_tuple(&mut self, rid: RecordId) -> (res: Result<(TupleMeta, Tuple), BustubxError>)
        requires
            old(self).wf(),
        ensures
            final(self).wf(),
            final(self).types() == old(self).types(),
            final(self).rids() == old(self).rids(),
            final(self).first_page() == old(self).first_page(),
            final(self).last_page() == old(self).last_page(),
            forall|q: PageId| #[trigger] final(self).page_view(q) == old(self).page_view(q),
            match old(self).row_result(rid) {
                Ok(row) => res is Ok && res->Ok_0.0 == row.0 && res->Ok_0.1@ == row.1,
                Err(e) => res is Err && res->Err_0 == e,
            },
    {
        let page = match self.buffer_pool.read_table_page(rid.page_id, &self.schema) {
            Ok(page) => page,
            Err(e) => {
                proof {
                    old(self).lemma_same_pages(self);
                }
                return Err(e);
            },
        };
        proof {
            old(self).lemma_same_pages(self);
        }
        page.tuple(rid.slot_num)
    }

    /// The values of the row under a record id.
    pub fn tuple(&mut self, rid: RecordId) -> (res: Result<Tuple, BustubxError>)
        requires
            old(self).wf(),
        ensures
            final(self).wf(),
            final(self).types() == old(self).types(),
            final(self).rids() == old(self).rids(),
            final(self).first_page() == old(self).first_page(),
            final(self).last_page() == old(self).last_page(),
            forall|q: PageId| #[trigger] final(self).page_view(q) == old(self).page_view(q),
            match old(self).row_result(rid) {
                Ok(row) => res is Ok && res->Ok_0@ == row.1,
                Err(e) => res is Err && res->Err_0 == e,
            },
    {
        match self.full_tuple(rid) {
            Ok((_meta, tuple)) => Ok(tuple),
            Err(e) => Err(e),
        }
    }

    /// The bookkeeping of the row under a record id.
    pub fn tuple_meta(&mut self, rid: RecordId) -> (res: Result<TupleMeta, BustubxError>)
        requires
            old(self).wf(),
        ensures
            final(self).wf(),
            final(self).types() == old(self).types(),
            final(self).rids() == old(self).rids(),
            final(self).first_page() == old(self).first_page(),
            final(self).last_page() == old(self).last_page(),
            forall|q: PageId| #[trigger] final(self).page_view(q) == old(self).page_view(q),
            match old(self).row_result(rid) {
                Ok(row) => res is Ok && res->Ok_0 == row.0,
                Err(e) => res is Err && res->Err_0 == e,
            },
    {
        match self.full_tuple(rid) {
            Ok((meta, _tuple)) => Ok(meta),
            Err(e) => Err(e),
        }
    }

    /// The record id at which iteration starts. Rows that are flagged as
    /// deleted are not skipped.
    pub fn get_first_rid(&mut self) -> (res: Result<Option<RecordId>, BustubxError>)
        requires
            old(self).wf(),
        ensures
            final(self).wf(),
            final(self).types() == old(self).types(),
            final(self).rids() == old(self).rids(),
            final(self).first_page() == old(self).first_page(),
            final(self).last_page() == old(self).last_page(),
            forall|q: PageId| #[trigger] final(self).page_view(q) == old(self).page_view(q),
            res == old(self).first_rid(),
            res is Ok,
    {
        let first_page_id: PageId = self.first_page_id;
        assert(self.chain_ok(0));
        let page = match self.buffer_pool.read_table_page(first_page_id, &self.schema) {
            Ok(page) => page,
            Err(e) => {
                assert(false);
                return Err(e);
            },
        };
        proof {
            old(self).lemma_same_pages(self);
        }
        if page.num_tuples() == 0 {
            Ok(None)
        } else {
            Ok(Some(RecordId::new(first_page_id, 0)))
        }
    }

    /// The record id that iteration visits after `rid`. A page without rows
    /// ends the iteration, and rows that are flagged as deleted are not
    /// skipped.
    pub fn get_next_rid(&mut self, rid: RecordId) -> (res: Result<Option<RecordId>, BustubxError>)
        requires
            old(self).wf(),
        ensures
            final(self).wf(),
            final(self).types() == old(self).types(),
            final(self).rids() == old(self).rids(),
            final(self).first_page() == old(self).first_page(),
            final(self).last_page() == old(self).last_page(),
            forall|q: PageId| #[trigger] final(self).page_view(q) == old(self).page_view(q),
            res == old(self).next_rid(rid),
    {
        let page = match self.buffer_pool.read_table_page(rid.page_id, &self.schema) {
            Ok(page) => page,
            Err(e) => {
                proof {
                    old(self).lemma_same_pages(self);
                }
                return Err(e);
            },
        };
        proof {
            old(self).lemma_same_pages(self);
        }
        let ghost mid = *self;
        let next_rid = page.get_next_rid(&rid);
        if next_rid.is_some() {
            return Ok(next_rid);
        }
        if page.next_page_id == INVALID_PAGE_ID {
            return Ok(None);
        }
        let next_page = match self.buffer_pool.read_table_page(page.next_page_id, &self.schema) {
            Ok(page) => page,
            Err(e) => {
                proof {
                    mid.lemma_same_pages(self);
                }
                return Err(e);
            },
        };
        proof {
            mid.lemma_same_pages(self);
        }
        if next_page.num_tuples() == 0 {
            Ok(None)
        } else {
            Ok(Some(RecordId::new(page.next_page_id, 0)))
        }
    }

    /// The schema of the rows.
    pub fn schema(&self) -> (schema: &Schema)
        ensures
            schema.types() == self.types(),
    {
        &self.schema
    }

    /// The pool that holds the pages.
    pub fn buffer_pool(&self) -> (buffer_pool: &BufferPoolManager)
        requires
            self.wf(),
        ensures
            buffer_pool.at_rest(),
    {
        &self.buffer_pool
    }

    /// Gives the pool back, and with it the pages of the heap.
    pub fn into_buffer_pool(self) -> (buffer_pool: BufferPoolManager)
        requires
            self.wf(),
        ensures
            buffer_pool.at_rest(),
    {
        self.buffer_pool
    }

    pub fn first_page_id(&self) -> (page_id: PageId)
        ensures
            page_id == self.first_page(),
    {
        self.first_page_id
    }

    pub fn last_page_id(&self) -> (page_id: PageId)
        ensures
            page_id == self.last_page(),
    {
        self.last_page_id
    }
}

/// A forward cursor over the rows of a heap between two bounds. It can be
/// asked again after it has ended, and then has nothing more to give.
#[derive(Debug)]
pub struct TableIterator {
    start_bound: Bound<RecordId>,
    end_bound: Bound<RecordId>,
    cursor: RecordId,
    started: bool,
    ended: bool,
}

impl TableIterator {
    pub closed spec fn start(&self) -> Bound<RecordId> {
        self.start_bound
    }

    pub closed spec fn end(&self) -> Bound<RecordId> {
        self.end_bound
    }

    /// The record id that was visited last.
    pub closed spec fn cursor(&self) -> RecordId {
        self.cursor
    }

    pub closed spec fn started(&self) -> bool {
        self.started
    }

    pub closed spec fn ended(&self) -> bool {
        self.ended
    }

    /// The record id that comes up next: at the start the lower bound itself,
    /// its successor where it is excluded, the first of the heap where there
    /// is none; later the successor of the cursor.
    pub open spec fn candidate(&self, heap: &TableHeap) -> Result<Option<RecordId>, BustubxError> {
        if self.started() {
            heap.next_rid(self.cursor())
        } else {
            match self.start() {
                Bound::Included(rid) => Ok(Some(rid)),
                Bound::Excluded(rid) => heap.next_rid(rid),
                Bound::Unbounded => heap.first_rid(),
            }
        }
    }

    /// A cursor over the heap's rows from `start_bound` to `end_bound` that
    /// has not started.
    pub fn new(start_bound: Bound<RecordId>, end_bound: Bound<RecordId>) -> (iterator: TableIterator)
        ensures
            iterator.start() == start_bound,
            iterator.end() == end_bound,
            !iterator.started(),
            !iterator.ended(),
            iterator.cursor() == (RecordId { page_id: INVALID_PAGE_ID, slot_num: 0 }),
    {
        TableIterator { start_bound, end_bound, cursor: invalid_rid(), started: false, ended: false }
    }

    /// Moves to the next row and returns it with its record id; `None` when
    /// there is no further row within the bounds. The record id that comes up
    /// is checked against the upper bound: one that is the excluded bound ends
    /// the iteration and is not visited, one that is the included bound is
    /// visited and ends it. A record id without a row is visited and gives
    /// `None`.
    pub fn next(&mut self, heap: &mut TableHeap) -> (res: Result<
        Option<(RecordId, Tuple)>,
        BustubxError,
    >)
        requires
            old(heap).wf(),
        ensures
            final(heap).wf(),
            final(heap).types() == old(heap).types(),
            final(heap).rids() == old(heap).rids(),
            final(heap).first_page() == old(heap).first_page(),
            final(heap).last_page() == old(heap).last_page(),
            forall|q: PageId| #[trigger] final(heap).page_view(q) == old(heap).page_view(q),
            final(self).start() == old(self).start(),
            final(self).end() == old(self).end(),
            old(self).ended() ==> res is Ok && res->Ok_0 is None && *final(self) == *old(self),
            !old(self).ended() ==> final(self).started() && match old(self).candidate(old(heap)) {
                Err(e) => {
                    &&& res is Err
                    &&& res->Err_0 == e
                    &&& final(self).cursor() == old(self).cursor()
                    &&& !final(self).ended()
                },
                Ok(None) => {
                    &&& res is Ok
                    &&& res->Ok_0 is None
                    &&& final(self).cursor() == old(self).cursor()
                    &&& final(self).ended() == !old(self).started()
                },
                Ok(Some(rid)) => if old(self).end() == Bound::Excluded(rid) {
                    &&& res is Ok
                    &&& res->Ok_0 is None
                    &&& final(self).cursor() == old(self).cursor()
                    &&& final(self).ended()
                } else {
                    &&& res is Ok
                    &&& final(self).cursor() == rid
                    &&& final(self).ended() == (old(self).end() == Bound::Included(rid))
                    &&& match old(heap).row(rid) {
                        Some(row) => res->Ok_0 is Some && res->Ok_0->Some_0.0 == rid
                            && res->Ok_0->Some_0.1@ == row.1,
                        None => res->Ok_0 is None,
                    }
                },
            },
    {
        if self.ended {
            return Ok(None);
        }
        let was_started: bool = self.started;
        self.started = true;
        let candidate: Option<RecordId> = if was_started {
            match heap.get_next_rid(self.cursor) {
                Ok(candidate) => candidate,
                Err(e) => {
                    return Err(e);
                },
            }
        } else {
            match self.start_bound {
                Bound::Included(rid) => Some(rid),
                Bound::Excluded(rid) => match heap.get_next_rid(rid) {
                    Ok(candidate) => candidate,
                    Err(e) => {
                        return Err(e);
                    },
                },
                Bound::Unbounded => match heap.get_first_rid() {
                    Ok(candidate) => candidate,
                    Err(e) => {
                        return Err(e);
                    },
                },
            }
        };
        let rid: RecordId = match candidate {
            Some(rid) => rid,
            None => {
                if !was_started {
                    self.ended = true;
                }
                return Ok(None);
            },
        };
        match self.end_bound {
            Bound::Included(end) => {
                if rid == end {
                    self.ended = true;
                }
            },
            Bound::Excluded(end) => {
                if rid == end {
                    self.ended = true;
                    return Ok(None);
                }
            },
            Bound::Unbounded => {},
        }
        self.cursor = rid;
        match heap.tuple(rid) {
            Ok(tuple) => Ok(Some((rid, tuple))),
            Err(_) => Ok(None),
        }
    }
}

} // verus!
