use vstd::prelude::*;

verus! {

pub type PageId = u32;

pub type FrameId = usize;

pub type TransactionId = u64;

/// Size in bytes of every page, on disk and in a frame.
pub const PAGE_SIZE: usize = 4096;

/// The page id that stands for "no page".
pub const INVALID_PAGE_ID: PageId = 0;

/// Default number of frames of a buffer pool.
pub const BUFFER_POOL_SIZE: usize = 1000;

/// Address of a row: the page that holds it and its slot on that page.
#[derive(Debug, Clone, Copy, PartialEq, Eq, Structural)]
pub struct RecordId {
    pub page_id: PageId,
    pub slot_num: u32,
}

impl RecordId {
    pub fn new(page_id: PageId, slot_num: u32) -> (rid: RecordId)
        ensures
            rid.page_id == page_id,
            rid.slot_num == slot_num,
    {
        RecordId { page_id, slot_num }
    }
}

/// The record id that stands for "no row".
pub fn invalid_rid() -> (rid: RecordId)
    ensures
        rid.page_id == INVALID_PAGE_ID,
        rid.slot_num == 0,
{
    RecordId { page_id: INVALID_PAGE_ID, slot_num: 0 }
}

/// Per-row bookkeeping kept for multi-version concurrency; stored, never interpreted.
#[derive(Debug, Clone, Copy, PartialEq, Eq, Structural)]
pub struct TupleMeta {
    pub insert_txn_id: TransactionId,
    pub delete_txn_id: TransactionId,
    pub is_deleted: bool,
}

/// The bookkeeping of a row that no transaction has touched.
pub fn empty_tuple_meta() -> (meta: TupleMeta)
    ensures
        meta.insert_txn_id == 0,
        meta.delete_txn_id == 0,
        !meta.is_deleted,
{
    TupleMeta { insert_txn_id: 0, delete_txn_id: 0, is_deleted: false }
}

} // verus!
