use crate::common::rid::PageId;
use crate::common::rid::PAGE_SIZE;
use crate::error::BustubxError;
use crate::storage::codec::wire::copy_block;
use crate::storage::codec::wire::zero_block;
use crate::storage::codec::wire::zeros;
use vstd::prelude::*;

verus! {

/// The paged file, held in memory: page `p` for every `p` from 1 up to the
/// number of pages handed out so far. Page 0 does not exist.
pub struct DiskManager {
    pages: Vec<Vec<u8>>,
}

impl DiskManager {
    /// Every page has the page size, and the ids fit a `PageId`.
    pub closed spec fn wf(&self) -> bool {
        &&& self.pages@.len() <= u32::MAX
        &&& forall|i: int| 0 <= i < self.pages@.len() ==> (#[trigger] self.pages@[i])@.len() == PAGE_SIZE
    }

    /// Number of page ids handed out so far; the next one is this plus one.
    pub closed spec fn page_count(&self) -> nat {
        self.pages@.len()
    }

    /// Whether the disk has a page under this id.
    pub open spec fn holds(&self, page_id: PageId) -> bool {
        1 <= page_id <= self.page_count()
    }

    /// The bytes of a page on disk; zeros where the disk has no such page.
    pub closed spec fn page(&self, page_id: PageId) -> Seq<u8> {
        if 1 <= page_id <= self.pages@.len() {
            self.pages@[page_id - 1]@
        } else {
            zeros(PAGE_SIZE as nat)
        }
    }

    /// Every page of a well-formed disk has the page size.
    pub proof fn lemma_page_len(&self, page_id: PageId)
        requires
            self.wf(),
        ensures
            self.page(page_id).len() == PAGE_SIZE,
            self.page_count() <= u32::MAX,
    {
    }

    /// An empty disk.
    pub fn new() -> (disk: DiskManager)
        ensures
            disk.wf(),
            disk.page_count() == 0,
    {
        DiskManager { pages: Vec::new() }
    }

    /// A disk over the given pages, page 1 first; `None` where a page has not
    /// the page size or there are more pages than page ids.
    pub fn from_pages(pages: Vec<Vec<u8>>) -> (disk: Option<DiskManager>)
        ensures
            disk is Some <==> (pages@.len() <= u32::MAX && forall|i: int|
                0 <= i < pages@.len() ==> (#[trigger] pages@[i])@.len() == PAGE_SIZE),
            disk is Some ==> {
                let d = disk->Some_0;
                &&& d.wf()
                &&& d.page_count() == pages@.len()
                &&& forall|p: PageId| 1 <= p <= pages@.len() ==> d.page(p) == pages@[p - 1]@
            },
    {
        if pages.len() > u32::MAX as usize {
            return None;
        }
        let mut i: usize = 0;
        while i < pages.len()
            invariant
                i <= pages@.len(),
                forall|j: int| 0 <= j < i ==> (#[trigger] pages@[j])@.len() == PAGE_SIZE,
            decreases pages@.len() - i,
        {
            if pages[i].len() != PAGE_SIZE {
                return None;
            }
            i += 1;
        }
        Some(DiskManager { pages })
    }

    /// Number of pages of the disk.
    pub fn num_pages(&self) -> (n: usize)
        ensures
            n == self.page_count(),
    {
        self.pages.len()
    }

    /// Hands out the next page id, with a page of zeros under it.
    pub fn allocate_page(&mut self) -> (res: Result<PageId, BustubxError>)
        requires
            old(self).wf(),
        ensures
            final(self).wf(),
            old(self).page_count() < u32::MAX ==> res == Ok::<PageId, BustubxError>(
                (old(self).page_count() + 1) as PageId,
            ),
            old(self).page_count() >= u32::MAX ==> res == Err::<PageId, BustubxError>(
                BustubxError::DiskFull,
            ) && *final(self) == *old(self),
            res is Ok ==> {
                &&& final(self).page_count() == old(self).page_count() + 1
                &&& final(self).page(res->Ok_0) == zeros(PAGE_SIZE as nat)
                &&& forall|p: PageId| p != res->Ok_0 ==> final(self).page(p) == old(self).page(p)
            },
    {
        if self.pages.len() >= u32::MAX as usize {
            return Err(BustubxError::DiskFull);
        }
        self.pages.push(zero_block(PAGE_SIZE));
        Ok(self.pages.len() as PageId)
    }

    /// Gives a page up: its bytes become zeros. The id is not handed out again.
    pub fn deallocate_page(&mut self, page_id: PageId) -> (res: Result<(), BustubxError>)
        requires
            old(self).wf(),
        ensures
            final(self).wf(),
            final(self).page_count() == old(self).page_count(),
            old(self).holds(page_id) ==> res is Ok && final(self).page(page_id) == zeros(
                PAGE_SIZE as nat,
            ),
            !old(self).holds(page_id) ==> res == Err::<(), BustubxError>(BustubxError::Io)
                && *final(self) == *old(self),
            forall|p: PageId| p != page_id ==> final(self).page(p) == old(self).page(p),
    {
        if page_id == 0 || page_id as usize > self.pages.len() {
            return Err(BustubxError::Io);
        }
        self.pages.set(page_id as usize - 1, zero_block(PAGE_SIZE));
        Ok(())
    }

    /// The bytes of a page.
    pub fn read_page(&self, page_id: PageId) -> (res: Result<Vec<u8>, BustubxError>)
        requires
            self.wf(),
        ensures
            self.holds(page_id) ==> res is Ok && res->Ok_0@ == self.page(page_id) && res->Ok_0@.len()
                == PAGE_SIZE,
            !self.holds(page_id) ==> res == Err::<Vec<u8>, BustubxError>(BustubxError::Io),
    {
        if page_id == 0 || page_id as usize > self.pages.len() {
            return Err(BustubxError::Io);
        }
        Ok(copy_block(&self.pages[page_id as usize - 1]))
    }

    /// Replaces the bytes of a page.
    pub fn write_page(&mut self, page_id: PageId, data: &Vec<u8>) -> (res: Result<(), BustubxError>)
        requires
            old(self).wf(),
        ensures
            final(self).wf(),
            final(self).page_count() == old(self).page_count(),
            (old(self).holds(page_id) && data@.len() == PAGE_SIZE) ==> res is Ok
                && final(self).page(page_id) == data@,
            !(old(self).holds(page_id) && data@.len() == PAGE_SIZE) ==> res == Err::<
                (),
                BustubxError,
            >(BustubxError::Io) && *final(self) == *old(self),
            forall|p: PageId| p != page_id ==> final(self).page(p) == old(self).page(p),
    {
        if page_id == 0 || page_id as usize > self.pages.len() || data.len() != PAGE_SIZE {
            return Err(BustubxError::Io);
        }
        self.pages.set(page_id as usize - 1, copy_block(data));
        Ok(())
    }
}

} // verus!
