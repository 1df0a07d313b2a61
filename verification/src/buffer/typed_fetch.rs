use crate::buffer::buffer_pool::BufferPoolManager;
use crate::buffer::page::PageRef;
use crate::catalog::schema::Schema;
use crate::common::rid::PageId;
use crate::common::rid::PAGE_SIZE;
use crate::error::BustubxError;
use crate::storage::codec::table_page_codec::table_page_from;
use crate::storage::codec::table_page_codec::TablePageCodec;
use crate::catalog::schema::DataType;
use crate::storage::codec::index_page_codec::encodable;
use crate::storage::codec::index_page_codec::encode_error;
use crate::storage::codec::index_page_codec::internal_from;
use crate::storage::codec::index_page_codec::leaf_from;
use crate::storage::codec::index_page_codec::tree_page_from;
use crate::storage::codec::index_page_codec::BPlusTreeInternalPageCodec;
use crate::storage::codec::index_page_codec::BPlusTreeLeafPageCodec;
use crate::storage::codec::index_page_codec::BPlusTreePageCodec;
use crate::storage::codec::wire::zeros;
use crate::storage::index_page::BPlusTreeInternalPage;
use crate::storage::index_page::BPlusTreeLeafPage;
use crate::storage::index_page::BPlusTreePage;
use crate::storage::index_page::TreePageView;
use crate::storage::table_page::TablePage;
use vstd::prelude::*;

verus! {

impl BufferPoolManager {
    /// Pins a page and reads it as a table page of the schema. The handle
    /// comes with the page so that the page stays in its frame while the
    /// caller works on what was read; where the bytes hold no table page the
    /// pin is given up again.
    pub fn fetch_table_page(&mut self, page_id: PageId, schema: &Schema) -> (res: Result<
        (PageRef, TablePage),
        BustubxError,
    >)
        requires
            old(self).wf(),
        ensures
            final(self).wf(),
            final(self).capacity() == old(self).capacity(),
            final(self).page_count() == old(self).page_count(),
            forall|q: PageId| #[trigger] final(self).image(q) == old(self).image(q),
            res is Ok ==> {
                let (handle, page) = res->Ok_0;
                &&& handle.id() == page_id
                &&& final(self).holds(&handle)
                &&& table_page_from(schema.types(), old(self).image(page_id)) == Some(page@)
                &&& page.wf(schema.types())
            },
            res is Err ==> forall|q: PageId| #[trigger] final(self).pin_count(q) == old(self).pin_count(q),
            (old(self).resident(page_id) && old(self).pin_count(page_id) < u32::MAX) || (
            !old(self).resident(page_id) && old(self).target_frame() is Some && old(self).on_disk(
                page_id,
            )) ==> match table_page_from(schema.types(), old(self).image(page_id)) {
                Some(_) => res is Ok,
                None => res is Err && res->Err_0 == BustubxError::Corrupt,
            },
    {
        let handle = match self.fetch_page(page_id) {
            Ok(handle) => handle,
            Err(e) => {
                return Err(e);
            },
        };
        let ghost pinned = *self;
        let data = match self.page_data(&handle) {
            Some(data) => data,
            None => {
                assert(false);
                return Err(BustubxError::Corrupt);
            },
        };
        match TablePageCodec::decode(schema, &data) {
            Ok(page) => Ok((handle, page)),
            Err(e) => {
                self.unpin_page(handle);
                proof {
                    assert forall|q: PageId| #[trigger] self.pin_count(q) == old(self).pin_count(
                        q,
                    ) by {
                        if q != page_id {
                            assert(self.pin_count(q) == pinned.pin_count(q));
                        }
                        if !old(self).resident(page_id) {
                            old(self).lemma_absent(page_id);
                            if q != page_id {
                                assert(pinned.resident(q) == (old(self).resident(q) && old(self).frame_of(q) != pinned.frame_of(page_id)));
                                if !pinned.resident(q) {
                                    if old(self).resident(q) {
                                        old(self).lemma_target_unpinned(q);
                                    } else {
                                        old(self).lemma_absent(q);
                                    }
                                }
                            }
                        }
                    }
                }
                Err(e)
            },
        }
    }

    /// Reads a page as a table page of the schema, without leaving it pinned.
    pub fn read_table_page(&mut self, page_id: PageId, schema: &Schema) -> (res: Result<
        TablePage,
        BustubxError,
    >)
        requires
            old(self).at_rest(),
        ensures
            final(self).at_rest(),
            final(self).capacity() == old(self).capacity(),
            final(self).page_count() == old(self).page_count(),
            forall|q: PageId| #[trigger] final(self).image(q) == old(self).image(q),
            !old(self).on_disk(page_id) ==> res is Err && res->Err_0 == BustubxError::Io,
            old(self).on_disk(page_id) ==> match table_page_from(
                schema.types(),
                old(self).image(page_id),
            ) {
                Some(page) => res is Ok && res->Ok_0@ == page && page.wf(schema.types()),
                None => res is Err && res->Err_0 == BustubxError::Corrupt,
            },
    {
        let data = match self.read_page(page_id) {
            Ok(data) => data,
            Err(e) => {
                return Err(e);
            },
        };
        TablePageCodec::decode(schema, &data)
    }

    /// Replaces a page by a table page of the schema, without leaving it
    /// pinned.
    pub fn write_table_page(&mut self, page_id: PageId, page: &TablePage, schema: &Schema) -> (res:
        Result<(), BustubxError>)
        requires
            old(self).at_rest(),
            page.wf(schema.types()),
        ensures
            final(self).at_rest(),
            final(self).capacity() == old(self).capacity(),
            final(self).page_count() == old(self).page_count(),
            forall|q: PageId| q != page_id ==> #[trigger] final(self).image(q) == old(self).image(q),
            old(self).on_disk(page_id) ==> res is Ok && table_page_from(
                schema.types(),
                final(self).image(page_id),
            ) == Some(page@),
            !old(self).on_disk(page_id) ==> res is Err && res->Err_0 == BustubxError::Io
                && final(self).image(page_id) == old(self).image(page_id),
    {
        let data = TablePageCodec::encode(page, schema);
        self.write_page(page_id, &data)
    }

    /// The pages that hold a page of an index with keys of these types, each
    /// with what it holds.
    pub open spec fn tree_pages(&self, types: Seq<DataType>) -> Map<PageId, TreePageView> {
        Map::new(
            |x: PageId| self.on_disk(x) && tree_page_from(types, self.image(x)) is Some,
            |x: PageId| tree_page_from(types, self.image(x))->Some_0,
        )
    }

    /// Pools that serve the same bytes hold the same index pages.
    pub proof fn lemma_tree_pages_same(&self, other: &BufferPoolManager, types: Seq<DataType>)
        requires
            self.page_count() == other.page_count(),
            forall|q: PageId| #[trigger] self.image(q) == other.image(q),
        ensures
            self.tree_pages(types) == other.tree_pages(types),
    {
        assert forall|q: PageId| #[trigger]
            self.tree_pages(types).contains_key(q) == other.tree_pages(types).contains_key(q) by {
            assert(self.image(q) == other.image(q));
        }
        assert forall|q: PageId| #[trigger]
            self.tree_pages(types).contains_key(q) implies self.tree_pages(types)[q]
            == other.tree_pages(types)[q] by {
            assert(self.image(q) == other.image(q));
        }
        assert(self.tree_pages(types) =~= other.tree_pages(types));
    }

    /// Writing one page changes what that page holds and nothing else.
    pub proof fn lemma_tree_pages_written(
        &self,
        after: &BufferPoolManager,
        types: Seq<DataType>,
        page_id: PageId,
        page: TreePageView,
    )
        requires
            self.page_count() == after.page_count(),
            self.on_disk(page_id),
            forall|q: PageId| q != page_id ==> #[trigger] self.image(q) == after.image(q),
            tree_page_from(types, after.image(page_id)) == Some(page),
        ensures
            after.tree_pages(types) == self.tree_pages(types).insert(page_id, page),
    {
        let want = self.tree_pages(types).insert(page_id, page);
        assert forall|q: PageId| #[trigger]
            after.tree_pages(types).contains_key(q) == want.contains_key(q) by {
            if q != page_id {
                assert(self.image(q) == after.image(q));
            }
        }
        assert forall|q: PageId| #[trigger]
            after.tree_pages(types).contains_key(q) implies after.tree_pages(types)[q]
            == want[q] by {
            if q != page_id {
                assert(self.image(q) == after.image(q));
            }
        }
        assert(after.tree_pages(types) =~= want);
    }

    /// A page that was given up holds no index page, and the other pages hold
    /// what they held.
    pub proof fn lemma_tree_pages_discarded(
        &self,
        after: &BufferPoolManager,
        types: Seq<DataType>,
        page_id: PageId,
    )
        requires
            self.page_count() == after.page_count(),
            after.image(page_id) == zeros(PAGE_SIZE as nat),
            forall|q: PageId| q != page_id ==> #[trigger] self.image(q) == after.image(q),
        ensures
            after.tree_pages(types) == self.tree_pages(types).remove(page_id),
    {
        let b = zeros(PAGE_SIZE as nat);
        assert(b[0] == 0);
        assert(leaf_from(types, b) is None);
        assert(internal_from(types, b) is None);
        let want = self.tree_pages(types).remove(page_id);
        assert forall|q: PageId| #[trigger]
            after.tree_pages(types).contains_key(q) == want.contains_key(q) by {
            if q != page_id {
                assert(self.image(q) == after.image(q));
            }
        }
        assert forall|q: PageId| #[trigger]
            after.tree_pages(types).contains_key(q) implies after.tree_pages(types)[q]
            == want[q] by {
            if q != page_id {
                assert(self.image(q) == after.image(q));
            }
        }
        assert(after.tree_pages(types) =~= want);
    }

    /// A page that has just been created holds no index page, so that the
    /// index pages are the same as before.
    pub proof fn lemma_tree_pages_created(
        &self,
        after: &BufferPoolManager,
        types: Seq<DataType>,
        page_id: PageId,
    )
        requires
            page_id == self.page_count() + 1,
            after.page_count() == self.page_count() + 1,
            after.image(page_id) == zeros(PAGE_SIZE as nat),
            forall|q: PageId| q != page_id ==> #[trigger] self.image(q) == after.image(q),
        ensures
            after.tree_pages(types) == self.tree_pages(types),
            !self.tree_pages(types).contains_key(page_id),
    {
        let b = zeros(PAGE_SIZE as nat);
        assert(b[0] == 0);
        assert(leaf_from(types, b) is None);
        assert(internal_from(types, b) is None);
        assert forall|q: PageId| #[trigger]
            after.tree_pages(types).contains_key(q) == self.tree_pages(types).contains_key(q) by {
            if q != page_id {
                assert(self.image(q) == after.image(q));
            }
        }
        assert forall|q: PageId| #[trigger]
            after.tree_pages(types).contains_key(q) implies after.tree_pages(types)[q]
            == self.tree_pages(types)[q] by {
            if q != page_id {
                assert(self.image(q) == after.image(q));
            }
        }
        assert(after.tree_pages(types) =~= self.tree_pages(types));
    }

    /// Pins a page and reads it as a page of an index with keys of the
    /// schema. Where the bytes hold no such page the pin is given up again.
    pub fn fetch_tree_page(&mut self, page_id: PageId, key_schema: &Schema) -> (res: Result<
        (PageRef, BPlusTreePage),
        BustubxError,
    >)
        requires
            old(self).wf(),
        ensures
            final(self).wf(),
            final(self).capacity() == old(self).capacity(),
            final(self).page_count() == old(self).page_count(),
            forall|q: PageId| #[trigger] final(self).image(q) == old(self).image(q),
            res is Ok ==> {
                let (handle, page) = res->Ok_0;
                &&& handle.id() == page_id
                &&& final(self).holds(&handle)
                &&& tree_page_from(key_schema.types(), old(self).image(page_id)) == Some(page@)
            },
            res is Err ==> forall|q: PageId| #[trigger] final(self).pin_count(q) == old(self).pin_count(q),
            (old(self).resident(page_id) && old(self).pin_count(page_id) < u32::MAX) || (
            !old(self).resident(page_id) && old(self).target_frame() is Some && old(self).on_disk(
                page_id,
            )) ==> match tree_page_from(key_schema.types(), old(self).image(page_id)) {
                Some(_) => res is Ok,
                None => res is Err && res->Err_0 == BustubxError::Corrupt,
            },
    {
        let handle = match self.fetch_page(page_id) {
            Ok(handle) => handle,
            Err(e) => {
                return Err(e);
            },
        };
        let ghost pinned = *self;
        let data = match self.page_data(&handle) {
            Some(data) => data,
            None => {
                assert(false);
                return Err(BustubxError::Corrupt);
            },
        };
        match BPlusTreePageCodec::decode(key_schema, &data) {
            Ok(page) => Ok((handle, page)),
            Err(e) => {
                self.unpin_page(handle);
                proof {
                    old(self).lemma_unpinned_again(&pinned, self, page_id);
                }
                Err(e)
            },
        }
    }

    /// Pins a page and reads it as an internal page of an index.
    pub fn fetch_tree_internal_page(&mut self, page_id: PageId, key_schema: &Schema) -> (res: Result<
        (PageRef, BPlusTreeInternalPage),
        BustubxError,
    >)
        requires
            old(self).wf(),
        ensures
            final(self).wf(),
            final(self).capacity() == old(self).capacity(),
            final(self).page_count() == old(self).page_count(),
            forall|q: PageId| #[trigger] final(self).image(q) == old(self).image(q),
            res is Ok ==> {
                let (handle, page) = res->Ok_0;
                &&& handle.id() == page_id
                &&& final(self).holds(&handle)
                &&& internal_from(key_schema.types(), old(self).image(page_id)) == Some(page@)
            },
            res is Err ==> forall|q: PageId| #[trigger] final(self).pin_count(q) == old(self).pin_count(q),
            (old(self).resident(page_id) && old(self).pin_count(page_id) < u32::MAX) || (
            !old(self).resident(page_id) && old(self).target_frame() is Some && old(self).on_disk(
                page_id,
            )) ==> match internal_from(key_schema.types(), old(self).image(page_id)) {
                Some(_) => res is Ok,
                None => res is Err && res->Err_0 == BustubxError::Corrupt,
            },
    {
        let handle = match self.fetch_page(page_id) {
            Ok(handle) => handle,
            Err(e) => {
                return Err(e);
            },
        };
        let ghost pinned = *self;
        let data = match self.page_data(&handle) {
            Some(data) => data,
            None => {
                assert(false);
                return Err(BustubxError::Corrupt);
            },
        };
        match BPlusTreeInternalPageCodec::decode(key_schema, &data) {
            Ok(page) => Ok((handle, page)),
            Err(e) => {
                self.unpin_page(handle);
                proof {
                    old(self).lemma_unpinned_again(&pinned, self, page_id);
                }
                Err(e)
            },
        }
    }

    /// Pins a page and reads it as a leaf of an index.
    pub fn fetch_tree_leaf_page(&mut self, page_id: PageId, key_schema: &Schema) -> (res: Result<
        (PageRef, BPlusTreeLeafPage),
        BustubxError,
    >)
        requires
            old(self).wf(),
        ensures
            final(self).wf(),
            final(self).capacity() == old(self).capacity(),
            final(self).page_count() == old(self).page_count(),
            forall|q: PageId| #[trigger] final(self).image(q) == old(self).image(q),
            res is Ok ==> {
                let (handle, page) = res->Ok_0;
                &&& handle.id() == page_id
                &&& final(self).holds(&handle)
                &&& leaf_from(key_schema.types(), old(self).image(page_id)) == Some(page@)
            },
            res is Err ==> forall|q: PageId| #[trigger] final(self).pin_count(q) == old(self).pin_count(q),
            (old(self).resident(page_id) && old(self).pin_count(page_id) < u32::MAX) || (
            !old(self).resident(page_id) && old(self).target_frame() is Some && old(self).on_disk(
                page_id,
            )) ==> match leaf_from(key_schema.types(), old(self).image(page_id)) {
                Some(_) => res is Ok,
                None => res is Err && res->Err_0 == BustubxError::Corrupt,
            },
    {
        let handle = match self.fetch_page(page_id) {
            Ok(handle) => handle,
            Err(e) => {
                return Err(e);
            },
        };
        let ghost pinned = *self;
        let data = match self.page_data(&handle) {
            Some(data) => data,
            None => {
                assert(false);
                return Err(BustubxError::Corrupt);
            },
        };
        match BPlusTreeLeafPageCodec::decode(key_schema, &data) {
            Ok(page) => Ok((handle, page)),
            Err(e) => {
                self.unpin_page(handle);
                proof {
                    old(self).lemma_unpinned_again(&pinned, self, page_id);
                }
                Err(e)
            },
        }
    }

    /// A page that was fetched and then given back is pinned as often as
    /// before.
    proof fn lemma_unpinned_again(
        &self,
        pinned: &BufferPoolManager,
        after: &BufferPoolManager,
        page_id: PageId,
    )
        requires
            self.wf(),
            self.resident(page_id) ==> pinned.pin_count(page_id) == self.pin_count(page_id) + 1
                && (forall|q: PageId|
                q != page_id ==> #[trigger] pinned.pin_count(q) == self.pin_count(q)),
            !self.resident(page_id) ==> self.target_frame() is Some && pinned.brought_in(
                self,
                page_id,
                self.target_frame()->Some_0,
                self.image(page_id),
            ),
            forall|q: PageId| q != page_id ==> #[trigger] after.pin_count(q) == pinned.pin_count(q),
            after.pin_count(page_id) + 1 == pinned.pin_count(page_id),
        ensures
            forall|q: PageId| #[trigger] after.pin_count(q) == self.pin_count(q),
    {
        assert forall|q: PageId| #[trigger] after.pin_count(q) == self.pin_count(q) by {
            if q != page_id {
                assert(after.pin_count(q) == pinned.pin_count(q));
            }
            if !self.resident(page_id) {
                self.lemma_absent(page_id);
                if q != page_id {
                    assert(pinned.resident(q) == (self.resident(q) && self.frame_of(q)
                        != pinned.frame_of(page_id)));
                    if !pinned.resident(q) {
                        if self.resident(q) {
                            self.lemma_target_unpinned(q);
                        } else {
                            self.lemma_absent(q);
                        }
                    }
                }
            }
        }
    }

    /// Reads a page as a page of an index with keys of the schema, without
    /// leaving it pinned.
    pub fn read_tree_page(&mut self, page_id: PageId, key_schema: &Schema) -> (res: Result<
        BPlusTreePage,
        BustubxError,
    >)
        requires
            old(self).at_rest(),
        ensures
            final(self).at_rest(),
            final(self).capacity() == old(self).capacity(),
            final(self).page_count() == old(self).page_count(),
            forall|q: PageId| #[trigger] final(self).image(q) == old(self).image(q),
            final(self).tree_pages(key_schema.types()) == old(self).tree_pages(key_schema.types()),
            old(self).tree_pages(key_schema.types()).contains_key(page_id) ==> res is Ok
                && res->Ok_0@ == old(self).tree_pages(key_schema.types())[page_id],
            !old(self).tree_pages(key_schema.types()).contains_key(page_id) ==> res is Err
                && res->Err_0 == if old(self).on_disk(page_id) {
                BustubxError::Corrupt
            } else {
                BustubxError::Io
            },
    {
        let data = match self.read_page(page_id) {
            Ok(data) => data,
            Err(e) => {
                proof {
                    old(self).lemma_tree_pages_same(self, key_schema.types());
                }
                return Err(e);
            },
        };
        proof {
            old(self).lemma_tree_pages_same(self, key_schema.types());
        }
        BPlusTreePageCodec::decode(key_schema, &data)
    }

    /// Replaces a page by a page of an index with keys of the schema, without
    /// leaving it pinned.
    pub fn write_tree_page(&mut self, page_id: PageId, page: &BPlusTreePage, key_schema: &Schema) -> (res:
        Result<(), BustubxError>)
        requires
            old(self).at_rest(),
        ensures
            final(self).at_rest(),
            final(self).capacity() == old(self).capacity(),
            final(self).page_count() == old(self).page_count(),
            forall|q: PageId| q != page_id ==> #[trigger] final(self).image(q) == old(self).image(q),
            res is Ok ==> final(self).tree_pages(key_schema.types()) == old(self).tree_pages(
                key_schema.types(),
            ).insert(page_id, page@),
            res is Err ==> final(self).tree_pages(key_schema.types()) == old(self).tree_pages(
                key_schema.types(),
            ),
            res is Ok <==> old(self).on_disk(page_id) && encodable(page@, key_schema.types()),
            res is Err ==> res->Err_0 == if encodable(page@, key_schema.types()) {
                BustubxError::Io
            } else {
                encode_error(page@, key_schema.types())
            },
    {
        let data = match BPlusTreePageCodec::encode(page, key_schema) {
            Ok(data) => data,
            Err(e) => {
                return Err(e);
            },
        };
        match self.write_page(page_id, &data) {
            Ok(_) => {
                proof {
                    old(self).lemma_tree_pages_written(self, key_schema.types(), page_id, page@);
                }
                Ok(())
            },
            Err(e) => {
                proof {
                    old(self).lemma_tree_pages_same(self, key_schema.types());
                }
                Err(e)
            },
        }
    }
}

} // verus!
