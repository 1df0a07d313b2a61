use crate::common::rid::FrameId;
use crate::common::rid::PageId;
use crate::common::rid::INVALID_PAGE_ID;
use crate::common::rid::PAGE_SIZE;
use crate::storage::codec::wire::zero_block;
use crate::storage::codec::wire::zeros;
use vstd::prelude::*;

verus! {

/// The image of one page in a frame, with its bookkeeping. A frame whose page
/// id is `INVALID_PAGE_ID` holds no page.
pub struct Page {
    pub page_id: PageId,
    pub data: Vec<u8>,
    pub pin_count: u32,
    pub is_dirty: bool,
}

impl Page {
    /// The content of a frame that holds no page.
    pub fn empty() -> (page: Page)
        ensures
            page.page_id == INVALID_PAGE_ID,
            page.data@ == zeros(PAGE_SIZE as nat),
            page.pin_count == 0,
            !page.is_dirty,
    {
        Page { page_id: INVALID_PAGE_ID, data: zero_block(PAGE_SIZE), pin_count: 0, is_dirty: false }
    }

    /// A clean, unpinned page of zeros under the given id.
    pub fn new(page_id: PageId) -> (page: Page)
        ensures
            page.page_id == page_id,
            page.data@ == zeros(PAGE_SIZE as nat),
            page.pin_count == 0,
            !page.is_dirty,
    {
        Page { page_id, data: zero_block(PAGE_SIZE), pin_count: 0, is_dirty: false }
    }
}

/// A pinned page: whoever holds the handle may read and write the page, and
/// hands the handle back to the pool to release it.
#[derive(Debug)]
pub struct PageRef {
    pub(crate) page_id: PageId,
    pub(crate) frame_id: FrameId,
}

impl PageRef {
    pub closed spec fn id(&self) -> PageId {
        self.page_id
    }

    pub closed spec fn frame(&self) -> FrameId {
        self.frame_id
    }

    pub(crate) fn make(page_id: PageId, frame_id: FrameId) -> (handle: PageRef)
        ensures
            handle.id() == page_id,
            handle.frame() == frame_id,
    {
        PageRef { page_id, frame_id }
    }

    /// The page the handle pins.
    pub fn page_id(&self) -> (page_id: PageId)
        ensures
            page_id == self.id(),
    {
        self.page_id
    }

    /// The frame the page sits in.
    pub fn frame_id(&self) -> (frame_id: FrameId)
        ensures
            frame_id == self.frame(),
    {
        self.frame_id
    }
}

} // verus!
