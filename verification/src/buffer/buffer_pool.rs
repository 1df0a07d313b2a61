use crate::buffer::page::Page;
use crate::buffer::page::PageRef;
use crate::buffer::page_table::table_entries;
use crate::buffer::page_table::table_get;
use crate::buffer::page_table::table_insert;
use crate::buffer::page_table::table_keys;
use crate::buffer::page_table::table_len;
use crate::buffer::page_table::table_new;
use crate::buffer::page_table::table_remove;
use crate::buffer::replacer::next_tick;
use crate::buffer::replacer::LRUKReplacer;
use crate::common::count::count_true;
use crate::common::count::lemma_count_all;
use crate::common::count::lemma_count_bounds;
use crate::common::count::lemma_count_partition;
use crate::common::count::lemma_count_update;
use crate::common::rid::FrameId;
use crate::common::rid::PageId;
use crate::common::rid::INVALID_PAGE_ID;
use crate::common::rid::PAGE_SIZE;
use crate::error::BustubxError;
use crate::storage::codec::wire::copy_block;
use crate::storage::codec::wire::zero_block;
use crate::storage::codec::wire::zeros;
use crate::storage::disk_manager::DiskManager;
use dashmap::DashMap;
use std::collections::VecDeque;
use vstd::prelude::*;

verus! {

/// A bounded cache of disk pages. It owns the frames, the table that says
/// which frame holds which page, the list of frames that hold none, the
/// eviction policy and the disk.
pub struct BufferPoolManager {
    pool: Vec<Page>,
    replacer: LRUKReplacer,
    disk_manager: DiskManager,
    page_table: DashMap<PageId, FrameId>,
    free_list: VecDeque<FrameId>,
}

impl BufferPoolManager {
    spec fn table(&self) -> Map<PageId, FrameId> {
        table_entries(self.page_table)
    }

    spec fn free_flags(&self) -> Seq<bool> {
        Seq::new(self.pool@.len(), |f: int| self.pool@[f].page_id == INVALID_PAGE_ID)
    }

    spec fn pinned_flags(&self) -> Seq<bool> {
        Seq::new(
            self.pool@.len(),
            |f: int| self.pool@[f].page_id != INVALID_PAGE_ID && self.pool@[f].pin_count > 0,
        )
    }

    spec fn idle_flags(&self) -> Seq<bool> {
        Seq::new(
            self.pool@.len(),
            |f: int| self.pool@[f].page_id != INVALID_PAGE_ID && self.pool@[f].pin_count == 0,
        )
    }

    spec fn frame_ok(&self, f: int) -> bool {
        let page = self.pool@[f];
        &&& page.data@.len() == PAGE_SIZE
        &&& page.page_id == INVALID_PAGE_ID ==> page.pin_count == 0 && self.replacer.history(
            f as FrameId,
        ).len() == 0
        &&& page.page_id != INVALID_PAGE_ID ==> {
            &&& self.table().contains_key(page.page_id)
            &&& self.table()[page.page_id] == f
            &&& self.replacer.history(f as FrameId).len() > 0
            &&& !page.is_dirty ==> page.data@ == self.disk_manager.page(page.page_id)
        }
        &&& self.replacer.evictable(f as FrameId) == (page.page_id != INVALID_PAGE_ID
            && page.pin_count == 0)
    }

    spec fn entry_ok(&self, page_id: PageId) -> bool {
        &&& self.table()[page_id] < self.pool@.len()
        &&& self.pool@[self.table()[page_id] as int].page_id == page_id
        &&& page_id != INVALID_PAGE_ID
        &&& self.disk_manager.holds(page_id)
    }

    /// The invariant, where `pending` is a frame that has been taken to hold a
    /// page and holds none yet.
    spec fn inv(&self, pending: Option<FrameId>) -> bool {
        &&& self.replacer.wf()
        &&& self.replacer.capacity() == self.pool@.len()
        &&& self.replacer.horizon() == 2
        &&& self.pool@.len() <= usize::MAX
        &&& self.disk_manager.wf()
        &&& forall|f: int| 0 <= f < self.pool@.len() ==> #[trigger] self.frame_ok(f)
        &&& forall|page_id: PageId| #[trigger]
            self.table().contains_key(page_id) ==> self.entry_ok(page_id)
        &&& forall|i: int|
            0 <= i < self.free_list@.len() ==> {
                &&& (#[trigger] self.free_list@[i]) < self.pool@.len()
                &&& self.pool@[self.free_list@[i] as int].page_id == INVALID_PAGE_ID
                &&& Some(self.free_list@[i]) != pending
            }
        &&& self.free_list@.no_duplicates()
        &&& self.free_list@.len() + (if pending is Some { 1nat } else { 0nat }) == count_true(
            self.free_flags(),
        )
        &&& pending is Some ==> pending->Some_0 < self.pool@.len() && self.pool@[pending->Some_0 as int].page_id
            == INVALID_PAGE_ID
    }

    /// Every mapped page sits in the frame the table names, no frame holds two
    /// pages, the free list holds exactly the frames without a page, and the
    /// replacer's candidates are the frames whose page nobody pins.
    pub closed spec fn wf(&self) -> bool {
        self.inv(None)
    }

    /// Number of frames.
    pub closed spec fn capacity(&self) -> nat {
        self.pool@.len()
    }

    /// Whether the page sits in a frame.
    pub closed spec fn resident(&self, page_id: PageId) -> bool {
        self.table().contains_key(page_id)
    }

    /// The frame of a resident page.
    pub closed spec fn frame_of(&self, page_id: PageId) -> FrameId {
        self.table()[page_id]
    }

    /// The page in a frame; `INVALID_PAGE_ID` where the frame holds none.
    pub closed spec fn frame_page(&self, frame_id: FrameId) -> PageId {
        if frame_id < self.pool@.len() {
            self.pool@[frame_id as int].page_id
        } else {
            INVALID_PAGE_ID
        }
    }

    /// Number of handles out for a page.
    pub closed spec fn pin_count(&self, page_id: PageId) -> nat {
        if self.table().contains_key(page_id) {
            self.pool@[self.table()[page_id] as int].pin_count as nat
        } else {
            0
        }
    }

    /// Whether the page is resident and has been written since it was last
    /// in step with the disk.
    pub closed spec fn dirty(&self, page_id: PageId) -> bool {
        self.table().contains_key(page_id) && self.pool@[self.table()[page_id] as int].is_dirty
    }

    /// The bytes of a page as the pool serves them: those of its frame where it
    /// is resident, those on disk where it is not.
    pub closed spec fn image(&self, page_id: PageId) -> Seq<u8> {
        if self.table().contains_key(page_id) {
            self.pool@[self.table()[page_id] as int].data@
        } else {
            self.disk_manager.page(page_id)
        }
    }

    /// The bytes of a page on disk.
    pub closed spec fn disk_image(&self, page_id: PageId) -> Seq<u8> {
        self.disk_manager.page(page_id)
    }

    /// Number of page ids handed out so far.
    pub closed spec fn page_count(&self) -> nat {
        self.disk_manager.page_count()
    }

    /// Whether a page of this id exists.
    pub open spec fn on_disk(&self, page_id: PageId) -> bool {
        1 <= page_id <= self.page_count()
    }

    /// The frames that hold no page, in the order in which they will be used.
    pub closed spec fn free_frames(&self) -> Seq<FrameId> {
        self.free_list@
    }

    /// Number of frames whose page may be evicted.
    pub closed spec fn evictable_count(&self) -> nat {
        self.replacer.size_spec()
    }

    /// Number of frames whose page is pinned.
    pub closed spec fn pinned_count(&self) -> nat {
        count_true(self.pinned_flags())
    }

    /// Number of frames that hold a page nobody pins and that the replacer
    /// does not offer for eviction.
    pub closed spec fn stuck_count(&self) -> nat {
        count_true(
            Seq::new(
                self.pool@.len(),
                |f: int|
                    self.pool@[f].page_id != INVALID_PAGE_ID && self.pool@[f].pin_count == 0
                        && !self.replacer.evictable(f as FrameId),
            ),
        )
    }

    /// Whether the replacer offers the page's frame for eviction.
    pub closed spec fn evictable(&self, page_id: PageId) -> bool {
        self.table().contains_key(page_id) && self.replacer.evictable(self.table()[page_id])
    }

    /// The logical time of the replacer.
    pub closed spec fn clock(&self) -> u64 {
        self.replacer.clock()
    }

    /// The eviction policy with what it knows of the frames.
    pub closed spec fn policy(&self) -> LRUKReplacer {
        self.replacer
    }

    /// The frame the replacer would evict, if it has a candidate.
    pub closed spec fn victim(&self) -> Option<FrameId> {
        if exists|f: FrameId| self.replacer.is_victim(f) {
            Some(choose|f: FrameId| self.replacer.is_victim(f))
        } else {
            None
        }
    }

    /// The frame that the next page to come in will get: the first free one,
    /// else the replacer's victim.
    pub open spec fn target_frame(&self) -> Option<FrameId> {
        if self.free_frames().len() > 0 {
            Some(self.free_frames()[0])
        } else {
            self.victim()
        }
    }

    /// Whether the handle pins a page of this pool.
    pub open spec fn holds(&self, handle: &PageRef) -> bool {
        &&& self.resident(handle.id())
        &&& self.frame_of(handle.id()) == handle.frame()
        &&& self.pin_count(handle.id()) > 0
    }

    /// Whether no page is pinned.
    pub open spec fn unpinned(&self) -> bool {
        forall|page_id: PageId| self.pin_count(page_id) == 0
    }

    /// `self` is `before` after `page_id` came into `frame_id` with the bytes
    /// `bytes`, pinned once, and whatever sat in that frame left.
    pub open spec fn brought_in(
        &self,
        before: &BufferPoolManager,
        page_id: PageId,
        frame_id: FrameId,
        bytes: Seq<u8>,
    ) -> bool {
        &&& self.capacity() == before.capacity()
        &&& self.resident(page_id)
        &&& self.frame_of(page_id) == frame_id
        &&& self.pin_count(page_id) == 1
        &&& !self.dirty(page_id)
        &&& self.image(page_id) == bytes
        &&& forall|q: PageId|
            q != page_id ==> #[trigger] self.resident(q) == (before.resident(q) && before.frame_of(
                q,
            ) != frame_id)
        &&& forall|q: PageId|
            q != page_id && #[trigger] self.resident(q) ==> {
                &&& self.frame_of(q) == before.frame_of(q)
                &&& self.dirty(q) == before.dirty(q)
            }
        &&& forall|q: PageId|
            q != page_id ==> #[trigger] self.pin_count(q) == if self.resident(q) {
                before.pin_count(q)
            } else {
                0
            }
        &&& forall|q: PageId| q != page_id ==> #[trigger] self.image(q) == before.image(q)
        &&& self.free_frames() == if before.free_frames().len() > 0 {
            before.free_frames().drop_first()
        } else {
            before.free_frames()
        }
        &&& self.clock() == next_tick(before.clock())
        &&& self.policy().history(frame_id) == seq![before.clock()]
        &&& forall|f: FrameId|
            f != frame_id ==> #[trigger] self.policy().history(f) == before.policy().history(f)
    }

    /// No two pages share a frame, and no two frames hold the same page.
    pub proof fn lemma_one_frame_per_page(&self, p: PageId, q: PageId, f: FrameId, g: FrameId)
        requires
            self.wf(),
        ensures
            self.resident(p) && self.resident(q) && p != q ==> self.frame_of(p) != self.frame_of(q),
            self.resident(p) ==> self.frame_of(p) < self.capacity() && self.frame_page(
                self.frame_of(p),
            ) == p && p != INVALID_PAGE_ID,
            f < self.capacity() && self.frame_page(f) != INVALID_PAGE_ID ==> self.resident(
                self.frame_page(f),
            ) && self.frame_of(self.frame_page(f)) == f,
            f != g && self.frame_page(f) != INVALID_PAGE_ID ==> self.frame_page(f)
                != self.frame_page(g),
    {
        if self.resident(p) {
            assert(self.entry_ok(p));
        }
        if self.resident(q) {
            assert(self.entry_ok(q));
        }
        if f < self.capacity() {
            assert(self.frame_ok(f as int));
        }
        if g < self.capacity() {
            assert(self.frame_ok(g as int));
        }
    }

    /// Every frame is free, or holds a pinned page, or holds a page that may
    /// be evicted; none holds an unpinned page that may not.
    pub proof fn lemma_frame_census(&self)
        requires
            self.wf(),
        ensures
            self.free_frames().len() + self.pinned_count() + self.evictable_count()
                + self.stuck_count() == self.capacity(),
            self.stuck_count() == 0,
            self.unpinned() ==> self.pinned_count() == 0,
    {
        let stuck = Seq::new(
            self.pool@.len(),
            |f: int|
                self.pool@[f].page_id != INVALID_PAGE_ID && self.pool@[f].pin_count == 0
                    && !self.replacer.evictable(f as FrameId),
        );
        assert forall|f: int| 0 <= f < stuck.len() implies !stuck[f] by {
            assert(self.frame_ok(f));
        }
        lemma_count_bounds(stuck);
        assert forall|f: int| 0 <= f < self.idle_flags().len() implies self.idle_flags()[f]
            == self.replacer.evictable(f as FrameId) by {
            assert(self.frame_ok(f));
        }
        self.replacer.lemma_size_counts(self.idle_flags());
        lemma_count_partition(self.free_flags(), self.pinned_flags(), self.idle_flags());
        if self.unpinned() {
            assert forall|f: int| 0 <= f < self.pinned_flags().len() implies !self.pinned_flags()[f] by {
                assert(self.frame_ok(f));
                if self.pool@[f].page_id != INVALID_PAGE_ID {
                    assert(self.pin_count(self.pool@[f].page_id) == 0);
                }
            }
            lemma_count_bounds(self.pinned_flags());
        }
    }

    /// A page that nobody pins may be evicted, and a pinned page may not.
    pub proof fn lemma_unpinned_is_evictable(&self, page_id: PageId)
        requires
            self.wf(),
            self.resident(page_id),
        ensures
            self.evictable(page_id) <==> self.pin_count(page_id) == 0,
            self.on_disk(page_id),
            self.image(page_id).len() == PAGE_SIZE,
            !self.dirty(page_id) ==> self.image(page_id) == self.disk_image(page_id),
    {
        assert(self.entry_ok(page_id));
        assert(self.frame_ok(self.table()[page_id] as int));
    }

    /// A page that is not resident has no pins, is not dirty, and is served
    /// from disk.
    pub proof fn lemma_absent(&self, page_id: PageId)
        requires
            !self.resident(page_id),
        ensures
            self.pin_count(page_id) == 0,
            !self.dirty(page_id),
            !self.evictable(page_id),
            self.image(page_id) == self.disk_image(page_id),
    {
    }

    /// The page in the frame that the next page will get is not pinned.
    pub proof fn lemma_target_unpinned(&self, page_id: PageId)
        requires
            self.wf(),
            self.resident(page_id),
            self.target_frame() == Some(self.frame_of(page_id)),
        ensures
            self.pin_count(page_id) == 0,
    {
        assert(self.entry_ok(page_id));
        let f = self.frame_of(page_id);
        assert(self.frame_ok(f as int));
        if self.free_list@.len() > 0 {
            assert(self.free_list@[0] == f);
        } else {
            self.lemma_victim_exists();
        }
    }

    /// Every page image has the page size.
    pub proof fn lemma_image_len(&self, page_id: PageId)
        requires
            self.wf(),
        ensures
            self.image(page_id).len() == PAGE_SIZE,
            self.page_count() <= u32::MAX,
    {
        self.disk_manager.lemma_page_len(page_id);
        if self.resident(page_id) {
            assert(self.entry_ok(page_id));
            assert(self.frame_ok(self.table()[page_id] as int));
        }
    }

    /// With no page pinned, a pool of at least one frame has a frame for the
    /// next page.
    pub proof fn lemma_has_target(&self)
        requires
            self.wf(),
            self.unpinned(),
            self.capacity() >= 1,
        ensures
            self.target_frame() is Some,
            self.free_frames().len() > 0 || self.evictable_count() > 0,
    {
        self.lemma_frame_census();
        if self.free_frames().len() == 0 {
            self.lemma_victim_exists();
        }
    }

    /// The frame to evict is the one that the policy names, and there is one
    /// wherever a page may be evicted.
    pub proof fn lemma_victim(&self)
        requires
            self.wf(),
        ensures
            self.policy().wf(),
            self.policy().capacity() == self.capacity(),
            self.policy().horizon() == 2,
            self.policy().clock() == self.clock(),
            self.policy().size_spec() == self.evictable_count(),
            self.evictable_count() > 0 <==> self.victim() is Some,
            self.victim() is Some ==> self.policy().is_victim(self.victim()->Some_0),
            forall|page_id: PageId|
                self.resident(page_id) ==> (#[trigger] self.evictable(page_id)
                    <==> self.policy().evictable(self.frame_of(page_id))),
    {
        self.lemma_victim_exists();
    }

    proof fn lemma_victim_exists(&self)
        requires
            self.inv(None),
        ensures
            self.replacer.size_spec() > 0 ==> self.victim() is Some,
            self.replacer.size_spec() == 0 ==> self.victim() is None,
            self.victim() is Some ==> self.replacer.is_victim(self.victim()->Some_0),
    {
        assert forall|f: int| 0 <= f < self.idle_flags().len() implies self.idle_flags()[f]
            == self.replacer.evictable(f as FrameId) by {
            assert(self.frame_ok(f));
        }
        self.replacer.lemma_size_counts(self.idle_flags());
        if self.replacer.size_spec() > 0 {
            self.replacer.lemma_some_victim();
        }
    }

    /// A pool of `num_pages` empty frames over a disk.
    pub fn new(num_pages: usize, disk_manager: DiskManager) -> (pool: BufferPoolManager)
        requires
            disk_manager.wf(),
        ensures
            pool.wf(),
            pool.capacity() == num_pages,
            pool.unpinned(),
            pool.page_count() == disk_manager.page_count(),
            pool.clock() == 0,
            pool.free_frames() == Seq::new(num_pages as nat, |i: int| i as FrameId),
            forall|page_id: PageId| !pool.resident(page_id),
            forall|page_id: PageId| pool.image(page_id) == disk_manager.page(page_id),
            forall|f: FrameId| (#[trigger] pool.policy().history(f)).len() == 0,
    {
        let mut free_list: VecDeque<FrameId> = VecDeque::with_capacity(num_pages);
        let mut pool: Vec<Page> = Vec::new();
        let mut i: usize = 0;
        while i < num_pages
            invariant
                i <= num_pages,
                pool@.len() == i,
                free_list@ == Seq::new(i as nat, |j: int| j as FrameId),
                forall|f: int|
                    0 <= f < i ==> (#[trigger] pool@[f]).page_id == INVALID_PAGE_ID && pool@[f].pin_count
                        == 0 && pool@[f].data@.len() == PAGE_SIZE,
            decreases num_pages - i,
        {
            free_list.push_back(i);
            pool.push(Page::empty());
            assert(free_list@ =~= Seq::new((i + 1) as nat, |j: int| j as FrameId));
            i += 1;
        }
        let bpm = BufferPoolManager {
            pool,
            replacer: LRUKReplacer::new(num_pages, 2),
            disk_manager,
            page_table: table_new(),
            free_list,
        };
        proof {
            lemma_count_all(bpm.free_flags());
            assert forall|f: int| 0 <= f < bpm.pool@.len() implies #[trigger] bpm.frame_ok(f) by {
                assert(!bpm.replacer.evictable(f as FrameId));
                assert(bpm.replacer.history(f as FrameId).len() == 0);
            }
        }
        bpm
    }

    /// Takes a frame for a page to come: the first free frame, else the
    /// replacer's victim, whose page is written out if it is dirty and leaves
    /// the table.
    fn allocate_frame(&mut self) -> (res: Option<FrameId>)
        requires
            old(self).inv(None),
        ensures
            res == old(self).target_frame(),
            res is None ==> *final(self) == *old(self),
            res is None ==> old(self).free_list@.len() == 0 && old(self).replacer.size_spec() == 0,
            res is Some ==> {
                let f = res->Some_0;
                let evicted = old(self).pool@[f as int].page_id;
                &&& final(self).inv(Some(f))
                &&& f < old(self).pool@.len()
                &&& final(self).pool@.len() == old(self).pool@.len()
                &&& forall|g: int|
                    0 <= g < old(self).pool@.len() && g != f ==> final(self).pool@[g] == old(self).pool@[g]
                &&& final(self).pool@[f as int].pin_count == 0
                &&& final(self).table() == if evicted == INVALID_PAGE_ID {
                    old(self).table()
                } else {
                    old(self).table().remove(evicted)
                }
                &&& old(self).free_list@.len() > 0 ==> evicted == INVALID_PAGE_ID
                &&& final(self).free_list@ == if old(self).free_list@.len() > 0 {
                    old(self).free_list@.drop_first()
                } else {
                    old(self).free_list@
                }
                &&& final(self).disk_manager.page_count() == old(self).disk_manager.page_count()
                &&& forall|p: PageId|
                    (p != evicted || evicted == INVALID_PAGE_ID) ==> final(self).disk_manager.page(p)
                        == old(self).disk_manager.page(p)
                &&& evicted != INVALID_PAGE_ID ==> final(self).disk_manager.page(evicted) == old(self).pool@[f as int].data@
                &&& final(self).replacer.clock() == old(self).replacer.clock()
                &&& forall|g: FrameId|
                    g != f ==> #[trigger] final(self).replacer.history(g) == old(self).replacer.history(g)
            },
    {
        proof {
            self.lemma_victim_exists();
        }
        let ghost free_before = self.free_flags();
        if self.free_list.len() > 0 {
            let popped = self.free_list.pop_front();
            let frame_id: FrameId = match popped {
                Some(frame_id) => frame_id,
                None => {
                    assert(false);
                    return None;
                },
            };
            proof {
                assert(self.free_list@ =~= old(self).free_list@.drop_first());
                assert(old(self).free_list@[0] == frame_id);
                assert forall|i: int| 0 <= i < self.free_list@.len() implies {
                    &&& (#[trigger] self.free_list@[i]) < self.pool@.len()
                    &&& self.pool@[self.free_list@[i] as int].page_id == INVALID_PAGE_ID
                    &&& Some(self.free_list@[i]) != Some(frame_id)
                } by {
                    assert(self.free_list@[i] == old(self).free_list@[i + 1]);
                }
                assert forall|f: int| 0 <= f < self.pool@.len() implies #[trigger] self.frame_ok(
                    f,
                ) by {
                    assert(old(self).frame_ok(f));
                }
                assert forall|page_id: PageId| #[trigger]
                    self.table().contains_key(page_id) implies self.entry_ok(page_id) by {
                    assert(old(self).entry_ok(page_id));
                }
                assert(old(self).frame_ok(frame_id as int));
            }
            Some(frame_id)
        } else {
            match self.replacer.evict() {
                Some(frame_id) => {
                    proof {
                        old(self).replacer.lemma_evictable(frame_id);
                        assert(old(self).frame_ok(frame_id as int));
                        old(self).replacer.lemma_victim_unique(
                            frame_id,
                            old(self).victim()->Some_0,
                        );
                    }
                    let evicted: PageId = self.pool[frame_id].page_id;
                    assert(old(self).entry_ok(evicted));
                    if self.pool[frame_id].is_dirty {
                        match self.disk_manager.write_page(evicted, &self.pool[frame_id].data) {
                            Ok(_) => {},
                            Err(_) => {
                                assert(false);
                            },
                        }
                    }
                    table_remove(&mut self.page_table, evicted);
                    self.pool[frame_id].page_id = INVALID_PAGE_ID;
                    self.pool[frame_id].is_dirty = false;
                    proof {
                        assert(self.free_flags() =~= free_before.update(frame_id as int, true));
                        lemma_count_update(free_before, frame_id as int, true);
                        assert forall|f: int| 0 <= f < self.pool@.len() implies #[trigger] self.frame_ok(
                            f,
                        ) by {
                            assert(old(self).frame_ok(f));
                            if f != frame_id && old(self).pool@[f].page_id != INVALID_PAGE_ID {
                                assert(old(self).entry_ok(old(self).pool@[f].page_id));
                            }
                        }
                        assert forall|page_id: PageId| #[trigger]
                            self.table().contains_key(page_id) implies self.entry_ok(
                            page_id,
                        ) by {
                            assert(old(self).entry_ok(page_id));
                        }
                        assert forall|i: int| 0 <= i < self.free_list@.len() implies {
                            &&& (#[trigger] self.free_list@[i]) < self.pool@.len()
                            &&& self.pool@[self.free_list@[i] as int].page_id == INVALID_PAGE_ID
                            &&& Some(self.free_list@[i]) != Some(frame_id)
                        } by {}
                    }
                    Some(frame_id)
                },
                None => None,
            }
        }
    }

    /// Puts a page into the frame that was taken for it: pinned once, clean,
    /// known to the table and to the replacer.
    fn install(&mut self, frame_id: FrameId, page_id: PageId, data: Vec<u8>) -> (handle: PageRef)
        requires
            old(self).inv(Some(frame_id)),
            !old(self).table().contains_key(page_id),
            page_id != INVALID_PAGE_ID,
            old(self).disk_manager.holds(page_id),
            data@ == old(self).disk_manager.page(page_id),
            data@.len() == PAGE_SIZE,
            old(self).pool@[frame_id as int].pin_count == 0,
        ensures
            final(self).inv(None),
            handle.id() == page_id,
            handle.frame() == frame_id,
            final(self).pool@.len() == old(self).pool@.len(),
            forall|g: int|
                0 <= g < old(self).pool@.len() && g != frame_id ==> final(self).pool@[g] == old(self).pool@[g],
            final(self).pool@[frame_id as int].page_id == page_id,
            final(self).pool@[frame_id as int].data@ == data@,
            final(self).pool@[frame_id as int].pin_count == 1,
            !final(self).pool@[frame_id as int].is_dirty,
            final(self).table() == old(self).table().insert(page_id, frame_id),
            final(self).free_list@ == old(self).free_list@,
            final(self).disk_manager == old(self).disk_manager,
            final(self).replacer.clock() == next_tick(old(self).replacer.clock()),
            final(self).replacer.history(frame_id) == seq![old(self).replacer.clock()],
            forall|f: FrameId|
                f != frame_id ==> #[trigger] final(self).replacer.history(f) == old(self).replacer.history(f),
    {
        let ghost free_before = self.free_flags();
        proof {
            assert(self.frame_ok(frame_id as int));
        }
        self.pool[frame_id].page_id = page_id;
        self.pool[frame_id].data = data;
        self.pool[frame_id].pin_count = 1;
        self.pool[frame_id].is_dirty = false;
        table_insert(&mut self.page_table, page_id, frame_id);
        match self.replacer.record_access(frame_id) {
            Ok(_) => {},
            Err(_) => {
                assert(false);
            },
        }
        match self.replacer.set_evictable(frame_id, false) {
            Ok(_) => {},
            Err(_) => {
                assert(false);
            },
        }
        proof {
            assert(self.free_flags() =~= free_before.update(frame_id as int, false));
            lemma_count_update(free_before, frame_id as int, false);
            old(self).replacer.lemma_history(frame_id);
            assert(self.replacer.history(frame_id) =~= seq![old(self).replacer.clock()]);
            assert forall|f: int| 0 <= f < self.pool@.len() implies #[trigger] self.frame_ok(f) by {
                assert(old(self).frame_ok(f));
            }
            assert forall|q: PageId| #[trigger] self.table().contains_key(q) implies self.entry_ok(
                q,
            ) by {
                if q != page_id {
                    assert(old(self).entry_ok(q));
                }
            }
        }
        PageRef::make(page_id, frame_id)
    }

    /// Creates a page on disk and brings it into a frame, pinned once and
    /// filled with zeros.
    pub fn new_page(&mut self) -> (res: Result<PageRef, BustubxError>)
        requires
            old(self).wf(),
        ensures
            final(self).wf(),
            old(self).target_frame() is None ==> res == Err::<PageRef, BustubxError>(
                BustubxError::BufferPoolFull,
            ),
            old(self).target_frame() is Some && old(self).page_count() >= u32::MAX ==> res == Err::<
                PageRef,
                BustubxError,
            >(BustubxError::DiskFull),
            old(self).target_frame() is Some && old(self).page_count() < u32::MAX ==> res is Ok,
            res is Err ==> *final(self) == *old(self),
            res is Ok ==> {
                let handle = res->Ok_0;
                &&& handle.id() == old(self).page_count() + 1
                &&& Some(handle.frame()) == old(self).target_frame()
                &&& final(self).holds(&handle)
                &&& final(self).page_count() == old(self).page_count() + 1
                &&& final(self).brought_in(
                    old(self),
                    handle.id(),
                    handle.frame(),
                    zeros(PAGE_SIZE as nat),
                )
            },
    {
        proof {
            self.lemma_victim_exists();
            self.disk_manager.lemma_page_len(0);
        }
        if self.free_list.len() == 0 && self.replacer.size() == 0 {
            return Err(BustubxError::BufferPoolFull);
        }
        if self.disk_manager.num_pages() >= u32::MAX as usize {
            return Err(BustubxError::DiskFull);
        }
        let frame_id: FrameId = match self.allocate_frame() {
            Some(frame_id) => frame_id,
            None => {
                assert(false);
                return Err(BustubxError::BufferPoolFull);
            },
        };
        let ghost mid = *self;
        let new_page_id: PageId = match self.disk_manager.allocate_page() {
            Ok(page_id) => page_id,
            Err(e) => {
                assert(false);
                return Err(e);
            },
        };
        proof {
            assert(!self.table().contains_key(new_page_id)) by {
                if mid.table().contains_key(new_page_id) {
                    assert(mid.entry_ok(new_page_id));
                }
            }
            assert forall|f: int| 0 <= f < self.pool@.len() implies #[trigger] self.frame_ok(f) by {
                assert(mid.frame_ok(f));
                if mid.pool@[f].page_id != INVALID_PAGE_ID {
                    assert(mid.entry_ok(mid.pool@[f].page_id));
                }
            }
            assert forall|q: PageId| #[trigger] self.table().contains_key(q) implies self.entry_ok(
                q,
            ) by {
                assert(mid.entry_ok(q));
            }
        }
        let handle = self.install(frame_id, new_page_id, zero_block(PAGE_SIZE));
        proof {
            let evicted = old(self).pool@[frame_id as int].page_id;
            assert(old(self).frame_ok(frame_id as int));
            if evicted != INVALID_PAGE_ID {
                assert(old(self).entry_ok(evicted));
            }
            if old(self).table().contains_key(new_page_id) {
                assert(old(self).entry_ok(new_page_id));
            }
            old(self).lemma_brought_in(self, &mid, &handle, new_page_id, frame_id);
        }
        Ok(handle)
    }

    /// What `allocate_frame` and `install` do together, in the terms of the
    /// pool's public view.
    proof fn lemma_brought_in(
        &self,
        after: &BufferPoolManager,
        mid: &BufferPoolManager,
        handle: &PageRef,
        page_id: PageId,
        frame_id: FrameId,
    )
        requires
            self.inv(None),
            after.inv(None),
            handle.id() == page_id,
            handle.frame() == frame_id,
            !self.table().contains_key(page_id),
            frame_id < self.pool@.len(),
            Some(frame_id) == self.target_frame(),
            ({
                let evicted = self.pool@[frame_id as int].page_id;
                &&& mid.pool@.len() == self.pool@.len()
                &&& forall|g: int|
                    0 <= g < self.pool@.len() && g != frame_id ==> mid.pool@[g] == self.pool@[g]
                &&& mid.table() == if evicted == INVALID_PAGE_ID {
                    self.table()
                } else {
                    self.table().remove(evicted)
                }
                &&& mid.free_list@ == if self.free_list@.len() > 0 {
                    self.free_list@.drop_first()
                } else {
                    self.free_list@
                }
                &&& forall|p: PageId|
                    (p != evicted || evicted == INVALID_PAGE_ID) && p != page_id
                        ==> after.disk_manager.page(p) == self.disk_manager.page(p)
                &&& evicted != INVALID_PAGE_ID ==> evicted != page_id && after.disk_manager.page(evicted)
                    == self.pool@[frame_id as int].data@
                &&& mid.replacer.clock() == self.replacer.clock()
            }),
            after.pool@.len() == mid.pool@.len(),
            forall|g: int|
                0 <= g < mid.pool@.len() && g != frame_id ==> after.pool@[g] == mid.pool@[g],
            after.pool@[frame_id as int].page_id == page_id,
            after.pool@[frame_id as int].pin_count == 1,
            !after.pool@[frame_id as int].is_dirty,
            after.table() == mid.table().insert(page_id, frame_id),
            after.free_list@ == mid.free_list@,
            after.replacer.clock() == next_tick(mid.replacer.clock()),
            after.replacer.history(frame_id) == seq![mid.replacer.clock()],
            forall|f: FrameId|
                f != frame_id ==> #[trigger] after.replacer.history(f) == self.replacer.history(f),
        ensures
            after.brought_in(self, page_id, frame_id, after.pool@[frame_id as int].data@),
            after.holds(handle),
    {
        let evicted = self.pool@[frame_id as int].page_id;
        assert(self.frame_ok(frame_id as int));
        assert forall|q: PageId| q != page_id implies #[trigger] after.resident(q) == (
        self.resident(q) && self.frame_of(q) != frame_id) by {
            if self.table().contains_key(q) {
                assert(self.entry_ok(q));
            }
        }
        assert forall|q: PageId| q != page_id && #[trigger] after.resident(q) implies {
            &&& after.frame_of(q) == self.frame_of(q)
            &&& after.dirty(q) == self.dirty(q)
        } by {
            assert(self.entry_ok(q));
        }
        assert forall|q: PageId| q != page_id implies #[trigger] after.pin_count(q) == if after.resident(
            q,
        ) {
            self.pin_count(q)
        } else {
            0
        } by {
            if self.table().contains_key(q) {
                assert(self.entry_ok(q));
            }
        }
        assert forall|q: PageId| q != page_id implies #[trigger] after.image(q) == self.image(
            q,
        ) by {
            if self.table().contains_key(q) {
                assert(self.entry_ok(q));
                let g = self.table()[q];
                if g != frame_id {
                    assert(after.pool@[g as int] == mid.pool@[g as int]);
                    assert(mid.pool@[g as int] == self.pool@[g as int]);
                    assert(after.table().contains_key(q));
                } else {
                    assert(q == evicted);
                    assert(!after.table().contains_key(q));
                }
            } else {
                assert(!after.table().contains_key(q));
            }
        }
    }

    /// Pins a page and hands it out, bringing it in from disk if it is not
    /// resident.
    pub fn fetch_page(&mut self, page_id: PageId) -> (res: Result<PageRef, BustubxError>)
        requires
            old(self).wf(),
        ensures
            final(self).wf(),
            final(self).page_count() == old(self).page_count(),
            forall|q: PageId| #[trigger] final(self).image(q) == old(self).image(q),
            res is Err ==> *final(self) == *old(self),
            res is Ok ==> res->Ok_0.id() == page_id && final(self).holds(&res->Ok_0),
            old(self).resident(page_id) ==> {
                &&& old(self).pin_count(page_id) < u32::MAX ==> res is Ok
                &&& old(self).pin_count(page_id) >= u32::MAX ==> res == Err::<PageRef, BustubxError>(
                    BustubxError::CounterOverflow,
                )
                &&& res is Ok ==> {
                    &&& final(self).pin_count(page_id) == old(self).pin_count(page_id) + 1
                    &&& forall|q: PageId|
                        q != page_id ==> #[trigger] final(self).pin_count(q) == old(self).pin_count(
                            q,
                        )
                    &&& forall|q: PageId| #[trigger]
                        final(self).resident(q) == old(self).resident(q)
                    &&& forall|q: PageId| #[trigger]
                        final(self).frame_of(q) == old(self).frame_of(q)
                    &&& forall|q: PageId| #[trigger] final(self).dirty(q) == old(self).dirty(q)
                    &&& final(self).free_frames() == old(self).free_frames()
                    &&& final(self).clock() == old(self).clock()
                    &&& final(self).capacity() == old(self).capacity()
                    &&& forall|f: FrameId| #[trigger]
                        final(self).policy().history(f) == old(self).policy().history(f)
                }
            },
            !old(self).resident(page_id) ==> {
                &&& old(self).target_frame() is None ==> res == Err::<PageRef, BustubxError>(
                    BustubxError::NoFreeFrame,
                )
                &&& old(self).target_frame() is Some && !old(self).on_disk(page_id) ==> res == Err::<
                    PageRef,
                    BustubxError,
                >(BustubxError::Io)
                &&& old(self).target_frame() is Some && old(self).on_disk(page_id) ==> res is Ok
                &&& res is Ok ==> Some(res->Ok_0.frame()) == old(self).target_frame() && final(self).brought_in(old(self), page_id, res->Ok_0.frame(), old(self).image(page_id))
            },
    {
        proof {
            self.lemma_victim_exists();
        }
        match table_get(&self.page_table, page_id) {
            Some(frame_id) => {
                assert(self.entry_ok(page_id));
                assert(self.frame_ok(frame_id as int));
                if self.pool[frame_id].pin_count == u32::MAX {
                    return Err(BustubxError::CounterOverflow);
                }
                self.pool[frame_id].pin_count = self.pool[frame_id].pin_count + 1;
                match self.replacer.set_evictable(frame_id, false) {
                    Ok(_) => {},
                    Err(_) => {
                        assert(false);
                    },
                }
                proof {
                    assert(self.free_flags() =~= old(self).free_flags());
                    assert forall|f: int| 0 <= f < self.pool@.len() implies #[trigger] self.frame_ok(
                        f,
                    ) by {
                        assert(old(self).frame_ok(f));
                    }
                    assert forall|q: PageId| #[trigger]
                        self.table().contains_key(q) implies self.entry_ok(q) by {
                        assert(old(self).entry_ok(q));
                    }
                    assert forall|q: PageId| q != page_id implies #[trigger] self.pin_count(q)
                        == old(self).pin_count(q) by {
                        if self.table().contains_key(q) {
                            assert(old(self).entry_ok(q));
                        }
                    }
                    assert forall|q: PageId| #[trigger] self.dirty(q) == old(self).dirty(q) by {
                        if self.table().contains_key(q) {
                            assert(old(self).entry_ok(q));
                        }
                    }
                    assert forall|q: PageId| #[trigger] self.image(q) == old(self).image(q) by {
                        if self.table().contains_key(q) {
                            assert(old(self).entry_ok(q));
                        }
                    }
                }
                Ok(PageRef::make(page_id, frame_id))
            },
            None => {
                if self.free_list.len() == 0 && self.replacer.size() == 0 {
                    return Err(BustubxError::NoFreeFrame);
                }
                if page_id == INVALID_PAGE_ID || page_id as usize > self.disk_manager.num_pages() {
                    return Err(BustubxError::Io);
                }
                let frame_id: FrameId = match self.allocate_frame() {
                    Some(frame_id) => frame_id,
                    None => {
                        assert(false);
                        return Err(BustubxError::NoFreeFrame);
                    },
                };
                let ghost mid = *self;
                let data: Vec<u8> = match self.disk_manager.read_page(page_id) {
                    Ok(data) => data,
                    Err(e) => {
                        assert(false);
                        return Err(e);
                    },
                };
                let handle = self.install(frame_id, page_id, data);
                proof {
                    let evicted = old(self).pool@[frame_id as int].page_id;
                    assert(old(self).frame_ok(frame_id as int));
                    if evicted != INVALID_PAGE_ID {
                        assert(old(self).entry_ok(evicted));
                    }
                    old(self).lemma_brought_in(self, &mid, &handle, page_id, frame_id);
                    assert(self.image(page_id) == old(self).image(page_id));
                }
                Ok(handle)
            },
        }
    }

    /// Takes a handle back. When the last handle of a page has come back, the
    /// page may be evicted. Returns whether the handle pinned a page of this
    /// pool; a handle that does not changes nothing.
    pub fn unpin_page(&mut self, handle: PageRef) -> (released: bool)
        requires
            old(self).wf(),
        ensures
            final(self).wf(),
            released == old(self).holds(&handle),
            !released ==> *final(self) == *old(self),
            final(self).capacity() == old(self).capacity(),
            final(self).page_count() == old(self).page_count(),
            final(self).free_frames() == old(self).free_frames(),
            final(self).clock() == old(self).clock(),
            forall|f: FrameId| #[trigger] final(self).policy().history(f) == old(self).policy().history(f),
            forall|q: PageId| #[trigger] final(self).image(q) == old(self).image(q),
            forall|q: PageId| #[trigger] final(self).resident(q) == old(self).resident(q),
            forall|q: PageId| #[trigger] final(self).frame_of(q) == old(self).frame_of(q),
            forall|q: PageId| #[trigger] final(self).dirty(q) == old(self).dirty(q),
            forall|q: PageId|
                q != handle.id() ==> #[trigger] final(self).pin_count(q) == old(self).pin_count(q),
            released ==> final(self).pin_count(handle.id()) + 1 == old(self).pin_count(handle.id()),
            released ==> (final(self).evictable(handle.id()) <==> final(self).pin_count(handle.id())
                == 0),
    {
        let page_id: PageId = handle.page_id();
        let handle_frame: FrameId = handle.frame_id();
        match table_get(&self.page_table, page_id) {
            Some(frame_id) => {
                assert(self.entry_ok(page_id));
                assert(self.frame_ok(frame_id as int));
                if frame_id != handle_frame || self.pool[frame_id].pin_count == 0 {
                    return false;
                }
                self.pool[frame_id].pin_count = self.pool[frame_id].pin_count - 1;
                if self.pool[frame_id].pin_count == 0 {
                    match self.replacer.set_evictable(frame_id, true) {
                        Ok(_) => {},
                        Err(_) => {
                            assert(false);
                        },
                    }
                }
                proof {
                    assert(self.free_flags() =~= old(self).free_flags());
                    assert forall|f: int| 0 <= f < self.pool@.len() implies #[trigger] self.frame_ok(
                        f,
                    ) by {
                        assert(old(self).frame_ok(f));
                    }
                    assert forall|q: PageId| #[trigger]
                        self.table().contains_key(q) implies self.entry_ok(q) by {
                        assert(old(self).entry_ok(q));
                    }
                    assert forall|q: PageId| q != page_id implies #[trigger] self.pin_count(q)
                        == old(self).pin_count(q) by {
                        if self.table().contains_key(q) {
                            assert(old(self).entry_ok(q));
                        }
                    }
                    assert forall|q: PageId| #[trigger] self.dirty(q) == old(self).dirty(q) by {
                        if self.table().contains_key(q) {
                            assert(old(self).entry_ok(q));
                        }
                    }
                    assert forall|q: PageId| #[trigger] self.image(q) == old(self).image(q) by {
                        if self.table().contains_key(q) {
                            assert(old(self).entry_ok(q));
                        }
                    }
                }
                true
            },
            None => false,
        }
    }

    /// A copy of the bytes of a pinned page; `None` for a handle that pins no
    /// page of this pool.
    pub fn page_data(&self, handle: &PageRef) -> (data: Option<Vec<u8>>)
        requires
            self.wf(),
        ensures
            data is Some <==> self.holds(handle),
            data is Some ==> data->Some_0@ == self.image(handle.id()) && data->Some_0@.len()
                == PAGE_SIZE,
    {
        let page_id: PageId = handle.page_id();
        let handle_frame: FrameId = handle.frame_id();
        match table_get(&self.page_table, page_id) {
            Some(frame_id) => {
                assert(self.entry_ok(page_id));
                assert(self.frame_ok(frame_id as int));
                if frame_id != handle_frame || self.pool[frame_id].pin_count == 0 {
                    return None;
                }
                Some(copy_block(&self.pool[frame_id].data))
            },
            None => None,
        }
    }

    /// Replaces the bytes of a pinned page and marks it dirty. Returns whether
    /// it did: it does not for a handle that pins no page of this pool, nor for
    /// data that has not the page size.
    pub fn set_page_data(&mut self, handle: &PageRef, data: &Vec<u8>) -> (written: bool)
        requires
            old(self).wf(),
        ensures
            final(self).wf(),
            written == (old(self).holds(handle) && data@.len() == PAGE_SIZE),
            !written ==> *final(self) == *old(self),
            written ==> final(self).image(handle.id()) == data@ && final(self).dirty(handle.id()),
            final(self).capacity() == old(self).capacity(),
            final(self).page_count() == old(self).page_count(),
            final(self).free_frames() == old(self).free_frames(),
            final(self).clock() == old(self).clock(),
            forall|f: FrameId| #[trigger] final(self).policy().history(f) == old(self).policy().history(f),
            forall|q: PageId|
                q != handle.id() ==> #[trigger] final(self).image(q) == old(self).image(q),
            forall|q: PageId| #[trigger] final(self).resident(q) == old(self).resident(q),
            forall|q: PageId| #[trigger] final(self).frame_of(q) == old(self).frame_of(q),
            forall|q: PageId| #[trigger] final(self).pin_count(q) == old(self).pin_count(q),
            forall|q: PageId|
                q != handle.id() ==> #[trigger] final(self).dirty(q) == old(self).dirty(q),
    {
        if data.len() != PAGE_SIZE {
            return false;
        }
        let page_id: PageId = handle.page_id();
        let handle_frame: FrameId = handle.frame_id();
        match table_get(&self.page_table, page_id) {
            Some(frame_id) => {
                assert(self.entry_ok(page_id));
                assert(self.frame_ok(frame_id as int));
                if frame_id != handle_frame || self.pool[frame_id].pin_count == 0 {
                    return false;
                }
                self.pool[frame_id].data = copy_block(data);
                self.pool[frame_id].is_dirty = true;
                proof {
                    assert(self.free_flags() =~= old(self).free_flags());
                    assert forall|f: int| 0 <= f < self.pool@.len() implies #[trigger] self.frame_ok(
                        f,
                    ) by {
                        assert(old(self).frame_ok(f));
                    }
                    assert forall|q: PageId| #[trigger]
                        self.table().contains_key(q) implies self.entry_ok(q) by {
                        assert(old(self).entry_ok(q));
                    }
                    assert forall|q: PageId| q != handle.id() implies #[trigger] self.image(q)
                        == old(self).image(q) by {
                        if self.table().contains_key(q) {
                            assert(old(self).entry_ok(q));
                        }
                    }
                    assert forall|q: PageId| #[trigger] self.pin_count(q) == old(self).pin_count(
                        q,
                    ) by {
                        if self.table().contains_key(q) {
                            assert(old(self).entry_ok(q));
                        }
                    }
                    assert forall|q: PageId| q != handle.id() implies #[trigger] self.dirty(q)
                        == old(self).dirty(q) by {
                        if self.table().contains_key(q) {
                            assert(old(self).entry_ok(q));
                        }
                    }
                }
                true
            },
            None => false,
        }
    }

    /// Writes a resident page to disk and marks it clean. Returns whether the
    /// page is resident. Nothing is evicted.
    pub fn flush_page(&mut self, page_id: PageId) -> (res: Result<bool, BustubxError>)
        requires
            old(self).wf(),
        ensures
            final(self).wf(),
            res == Ok::<bool, BustubxError>(old(self).resident(page_id)),
            !old(self).resident(page_id) ==> *final(self) == *old(self),
            old(self).resident(page_id) ==> final(self).disk_image(page_id) == old(self).image(
                page_id,
            ),
            !final(self).dirty(page_id),
            final(self).capacity() == old(self).capacity(),
            final(self).page_count() == old(self).page_count(),
            final(self).free_frames() == old(self).free_frames(),
            final(self).clock() == old(self).clock(),
            forall|f: FrameId| #[trigger] final(self).policy().history(f) == old(self).policy().history(f),
            forall|q: PageId| #[trigger] final(self).image(q) == old(self).image(q),
            forall|q: PageId| #[trigger] final(self).resident(q) == old(self).resident(q),
            forall|q: PageId| #[trigger] final(self).frame_of(q) == old(self).frame_of(q),
            forall|q: PageId| #[trigger] final(self).pin_count(q) == old(self).pin_count(q),
            forall|q: PageId| q != page_id ==> #[trigger] final(self).dirty(q) == old(self).dirty(q),
            forall|q: PageId|
                q != page_id ==> #[trigger] final(self).disk_image(q) == old(self).disk_image(q),
    {
        match table_get(&self.page_table, page_id) {
            Some(frame_id) => {
                assert(self.entry_ok(page_id));
                assert(self.frame_ok(frame_id as int));
                match self.disk_manager.write_page(page_id, &self.pool[frame_id].data) {
                    Ok(_) => {},
                    Err(_) => {
                        assert(false);
                    },
                }
                self.pool[frame_id].is_dirty = false;
                proof {
                    assert(self.free_flags() =~= old(self).free_flags());
                    assert forall|f: int| 0 <= f < self.pool@.len() implies #[trigger] self.frame_ok(
                        f,
                    ) by {
                        assert(old(self).frame_ok(f));
                        if old(self).pool@[f].page_id != INVALID_PAGE_ID {
                            assert(old(self).entry_ok(old(self).pool@[f].page_id));
                        }
                    }
                    assert forall|q: PageId| #[trigger]
                        self.table().contains_key(q) implies self.entry_ok(q) by {
                        assert(old(self).entry_ok(q));
                    }
                    assert forall|q: PageId| #[trigger] self.image(q) == old(self).image(q) by {
                        if self.table().contains_key(q) {
                            assert(old(self).entry_ok(q));
                        }
                    }
                    assert forall|q: PageId| #[trigger] self.pin_count(q) == old(self).pin_count(
                        q,
                    ) by {
                        if self.table().contains_key(q) {
                            assert(old(self).entry_ok(q));
                        }
                    }
                    assert forall|q: PageId| q != page_id implies #[trigger] self.dirty(q) == old(self).dirty(q) by {
                        if self.table().contains_key(q) {
                            assert(old(self).entry_ok(q));
                        }
                    }
                }
                Ok(true)
            },
            None => Ok(false),
        }
    }

    /// Writes every resident page to disk. The page ids are listed first and
    /// flushed after that, so that the table is not walked while it is used.
    pub fn flush_all_pages(&mut self) -> (res: Result<(), BustubxError>)
        requires
            old(self).wf(),
        ensures
            final(self).wf(),
            res is Ok,
            forall|q: PageId| !final(self).dirty(q),
            forall|q: PageId|
                old(self).resident(q) ==> #[trigger] final(self).disk_image(q) == old(self).image(q),
            forall|q: PageId|
                !old(self).resident(q) ==> #[trigger] final(self).disk_image(q) == old(self).disk_image(q),
            final(self).capacity() == old(self).capacity(),
            final(self).page_count() == old(self).page_count(),
            final(self).free_frames() == old(self).free_frames(),
            final(self).clock() == old(self).clock(),
            forall|q: PageId| #[trigger] final(self).image(q) == old(self).image(q),
            forall|q: PageId| #[trigger] final(self).resident(q) == old(self).resident(q),
            forall|q: PageId| #[trigger] final(self).frame_of(q) == old(self).frame_of(q),
            forall|q: PageId| #[trigger] final(self).pin_count(q) == old(self).pin_count(q),
    {
        let page_ids: Vec<PageId> = table_keys(&self.page_table);
        let mut i: usize = 0;
        while i < page_ids.len()
            invariant
                i <= page_ids@.len(),
                self.wf(),
                page_ids@.no_duplicates(),
                forall|q: PageId| page_ids@.contains(q) <==> old(self).resident(q),
                forall|j: int| 0 <= j < i ==> !self.dirty(#[trigger] page_ids@[j]),
                forall|j: int|
                    0 <= j < i ==> self.disk_image(#[trigger] page_ids@[j]) == old(self).image(
                        page_ids@[j],
                    ),
                forall|q: PageId|
                    !page_ids@.subrange(0, i as int).contains(q) ==> #[trigger] self.disk_image(q)
                        == old(self).disk_image(q) && self.dirty(q) == old(self).dirty(q),
                self.capacity() == old(self).capacity(),
                self.page_count() == old(self).page_count(),
                self.free_frames() == old(self).free_frames(),
                self.clock() == old(self).clock(),
                forall|q: PageId| #[trigger] self.image(q) == old(self).image(q),
                forall|q: PageId| #[trigger] self.resident(q) == old(self).resident(q),
                forall|q: PageId| #[trigger] self.frame_of(q) == old(self).frame_of(q),
                forall|q: PageId| #[trigger] self.pin_count(q) == old(self).pin_count(q),
            decreases page_ids@.len() - i,
        {
            let ghost before = *self;
            let page_id: PageId = page_ids[i];
            assert(page_ids@.contains(page_id));
            let _ = self.flush_page(page_id);
            proof {
                let done = page_ids@.subrange(0, i as int);
                let done_next = page_ids@.subrange(0, i + 1);
                assert forall|q: PageId| !done_next.contains(q) implies #[trigger] self.disk_image(
                    q,
                ) == old(self).disk_image(q) && self.dirty(q) == old(self).dirty(q) by {
                    assert(done_next[i as int] == page_id);
                    if done.contains(q) {
                        let j = choose|j: int| 0 <= j < done.len() && done[j] == q;
                        assert(done_next[j] == q);
                    }
                }
                assert forall|j: int| 0 <= j < i + 1 implies !self.dirty(#[trigger] page_ids@[j])
                    && self.disk_image(page_ids@[j]) == old(self).image(page_ids@[j]) by {
                    if j < i {
                        assert(page_ids@[j] != page_id);
                    }
                }
            }
            i += 1;
        }
        proof {
            assert(page_ids@.subrange(0, i as int) =~= page_ids@);
            assert forall|q: PageId| !self.dirty(q) by {
                if page_ids@.contains(q) {
                    let j = choose|j: int| 0 <= j < page_ids@.len() && page_ids@[j] == q;
                    assert(!self.dirty(page_ids@[j]));
                } else {
                    assert(!old(self).resident(q));
                    assert(self.resident(q) == old(self).resident(q));
                }
            }
            assert forall|q: PageId| old(self).resident(q) implies #[trigger] self.disk_image(q)
                == old(self).image(q) by {
                let j = choose|j: int| 0 <= j < page_ids@.len() && page_ids@[j] == q;
                assert(self.disk_image(page_ids@[j]) == old(self).image(page_ids@[j]));
            }
        }
        Ok(())
    }

    /// Removes a page from the pool and gives it up on disk. A page that is
    /// not resident counts as deleted and stays as it is; a pinned page cannot
    /// be deleted.
    pub fn delete_page(&mut self, page_id: PageId) -> (res: Result<bool, BustubxError>)
        requires
            old(self).wf(),
        ensures
            final(self).wf(),
            res == Ok::<bool, BustubxError>(
                !(old(self).resident(page_id) && old(self).pin_count(page_id) > 0),
            ),
            !(old(self).resident(page_id) && old(self).pin_count(page_id) == 0) ==> *final(self)
                == *old(self),
            old(self).resident(page_id) && old(self).pin_count(page_id) == 0 ==> {
                &&& !final(self).resident(page_id)
                &&& final(self).image(page_id) == zeros(PAGE_SIZE as nat)
                &&& final(self).free_frames() == old(self).free_frames().push(
                    old(self).frame_of(page_id),
                )
            },
            final(self).capacity() == old(self).capacity(),
            final(self).page_count() == old(self).page_count(),
            final(self).clock() == old(self).clock(),
            old(self).resident(page_id) && old(self).pin_count(page_id) == 0 ==> final(self).policy().history(old(self).frame_of(page_id)).len() == 0,
            forall|f: FrameId|
                !(old(self).resident(page_id) && f == old(self).frame_of(page_id))
                    ==> #[trigger] final(self).policy().history(f) == old(self).policy().history(f),
            forall|q: PageId| q != page_id ==> #[trigger] final(self).image(q) == old(self).image(q),
            forall|q: PageId|
                q != page_id ==> #[trigger] final(self).resident(q) == old(self).resident(q),
            forall|q: PageId|
                q != page_id ==> #[trigger] final(self).frame_of(q) == old(self).frame_of(q),
            forall|q: PageId|
                q != page_id ==> #[trigger] final(self).pin_count(q) == old(self).pin_count(q),
            forall|q: PageId| q != page_id ==> #[trigger] final(self).dirty(q) == old(self).dirty(q),
    {
        match table_get(&self.page_table, page_id) {
            Some(frame_id) => {
                assert(self.entry_ok(page_id));
                assert(self.frame_ok(frame_id as int));
                if self.pool[frame_id].pin_count > 0 {
                    return Ok(false);
                }
                let ghost free_before = self.free_flags();
                self.pool[frame_id].page_id = INVALID_PAGE_ID;
                self.pool[frame_id].data = zero_block(PAGE_SIZE);
                self.pool[frame_id].is_dirty = false;
                table_remove(&mut self.page_table, page_id);
                self.free_list.push_back(frame_id);
                self.replacer.remove(frame_id);
                match self.disk_manager.deallocate_page(page_id) {
                    Ok(_) => {},
                    Err(_) => {
                        assert(false);
                    },
                }
                proof {
                    assert(self.free_flags() =~= free_before.update(frame_id as int, true));
                    lemma_count_update(free_before, frame_id as int, true);
                    assert forall|f: int| 0 <= f < self.pool@.len() implies #[trigger] self.frame_ok(
                        f,
                    ) by {
                        assert(old(self).frame_ok(f));
                        if f != frame_id && old(self).pool@[f].page_id != INVALID_PAGE_ID {
                            assert(old(self).entry_ok(old(self).pool@[f].page_id));
                        }
                    }
                    assert forall|q: PageId| #[trigger]
                        self.table().contains_key(q) implies self.entry_ok(q) by {
                        assert(old(self).entry_ok(q));
                    }
                    assert forall|i: int| 0 <= i < self.free_list@.len() implies {
                        &&& (#[trigger] self.free_list@[i]) < self.pool@.len()
                        &&& self.pool@[self.free_list@[i] as int].page_id == INVALID_PAGE_ID
                    } by {
                        if i < old(self).free_list@.len() {
                            assert(self.free_list@[i] == old(self).free_list@[i]);
                        }
                    }
                    assert(self.free_list@.no_duplicates()) by {
                        assert forall|i: int, j: int|
                            0 <= i < self.free_list@.len() && 0 <= j < self.free_list@.len() && i
                                != j implies self.free_list@[i] != self.free_list@[j] by {
                            if i < old(self).free_list@.len() {
                                assert(self.free_list@[i] == old(self).free_list@[i]);
                            }
                            if j < old(self).free_list@.len() {
                                assert(self.free_list@[j] == old(self).free_list@[j]);
                            }
                        }
                    }
                    assert forall|q: PageId| q != page_id implies #[trigger] self.image(q) == old(self).image(q) by {
                        if old(self).table().contains_key(q) {
                            assert(old(self).entry_ok(q));
                        }
                    }
                    assert forall|q: PageId| q != page_id implies #[trigger] self.pin_count(q)
                        == old(self).pin_count(q) by {
                        if old(self).table().contains_key(q) {
                            assert(old(self).entry_ok(q));
                        }
                    }
                    assert forall|q: PageId| q != page_id implies #[trigger] self.dirty(q) == old(self).dirty(q) by {
                        if old(self).table().contains_key(q) {
                            assert(old(self).entry_ok(q));
                        }
                    }
                }
                Ok(true)
            },
            None => Ok(true),
        }
    }

    /// Whether the pool is at rest: well-formed, with at least one frame and
    /// no page pinned. Every page on disk can then be brought in.
    pub open spec fn at_rest(&self) -> bool {
        self.wf() && self.unpinned() && self.capacity() >= 1
    }

    /// The bytes of a page, brought in from disk if need be. The page is
    /// pinned only while it is copied.
    pub fn read_page(&mut self, page_id: PageId) -> (res: Result<Vec<u8>, BustubxError>)
        requires
            old(self).at_rest(),
        ensures
            final(self).at_rest(),
            final(self).capacity() == old(self).capacity(),
            final(self).page_count() == old(self).page_count(),
            forall|q: PageId| #[trigger] final(self).image(q) == old(self).image(q),
            old(self).on_disk(page_id) ==> res is Ok && res->Ok_0@ == old(self).image(page_id)
                && res->Ok_0@.len() == PAGE_SIZE,
            !old(self).on_disk(page_id) ==> res == Err::<Vec<u8>, BustubxError>(BustubxError::Io),
    {
        proof {
            self.lemma_has_target();
            if self.resident(page_id) {
                self.lemma_unpinned_is_evictable(page_id);
                assert(self.pin_count(page_id) == 0);
            }
        }
        let handle = match self.fetch_page(page_id) {
            Ok(handle) => handle,
            Err(e) => {
                return Err(e);
            },
        };
        let data = match self.page_data(&handle) {
            Some(data) => data,
            None => {
                assert(false);
                return Err(BustubxError::Io);
            },
        };
        let ghost pinned = *self;
        self.unpin_page(handle);
        proof {
            assert forall|q: PageId| self.pin_count(q) == 0 by {
                if q != page_id {
                    assert(self.pin_count(q) == pinned.pin_count(q));
                    assert(old(self).pin_count(q) == 0);
                }
            }
        }
        Ok(data)
    }

    /// Replaces the bytes of a page, bringing it in from disk if need be. The
    /// page is pinned only while it is written.
    pub fn write_page(&mut self, page_id: PageId, data: &Vec<u8>) -> (res: Result<(), BustubxError>)
        requires
            old(self).at_rest(),
        ensures
            final(self).at_rest(),
            final(self).capacity() == old(self).capacity(),
            final(self).page_count() == old(self).page_count(),
            forall|q: PageId| q != page_id ==> #[trigger] final(self).image(q) == old(self).image(q),
            old(self).on_disk(page_id) && data@.len() == PAGE_SIZE ==> res is Ok && final(self).image(
                page_id,
            ) == data@,
            !(old(self).on_disk(page_id) && data@.len() == PAGE_SIZE) ==> res == Err::<
                (),
                BustubxError,
            >(BustubxError::Io) && final(self).image(page_id) == old(self).image(page_id),
    {
        proof {
            self.lemma_has_target();
            if self.resident(page_id) {
                self.lemma_unpinned_is_evictable(page_id);
                assert(self.pin_count(page_id) == 0);
            }
        }
        if data.len() != PAGE_SIZE {
            return Err(BustubxError::Io);
        }
        let handle = match self.fetch_page(page_id) {
            Ok(handle) => handle,
            Err(e) => {
                return Err(e);
            },
        };
        let ghost pinned = *self;
        let written = self.set_page_data(&handle, data);
        assert(written);
        self.unpin_page(handle);
        proof {
            assert forall|q: PageId| self.pin_count(q) == 0 by {
                if q != page_id {
                    assert(self.pin_count(q) == pinned.pin_count(q));
                    assert(old(self).pin_count(q) == 0);
                }
            }
        }
        Ok(())
    }

    /// Creates a page of zeros and returns its id. The page is not left
    /// pinned.
    pub fn create_page(&mut self) -> (res: Result<PageId, BustubxError>)
        requires
            old(self).at_rest(),
        ensures
            final(self).at_rest(),
            final(self).capacity() == old(self).capacity(),
            old(self).page_count() < u32::MAX ==> res == Ok::<PageId, BustubxError>(
                (old(self).page_count() + 1) as PageId,
            ),
            old(self).page_count() >= u32::MAX ==> res == Err::<PageId, BustubxError>(
                BustubxError::DiskFull,
            ),
            res is Ok ==> {
                &&& final(self).page_count() == old(self).page_count() + 1
                &&& final(self).image(res->Ok_0) == zeros(PAGE_SIZE as nat)
                &&& forall|q: PageId|
                    q != res->Ok_0 ==> #[trigger] final(self).image(q) == old(self).image(q)
            },
            res is Err ==> *final(self) == *old(self),
    {
        proof {
            self.lemma_has_target();
        }
        let handle = match self.new_page() {
            Ok(handle) => handle,
            Err(e) => {
                return Err(e);
            },
        };
        let page_id: PageId = handle.page_id();
        let ghost pinned = *self;
        self.unpin_page(handle);
        proof {
            assert forall|q: PageId| self.pin_count(q) == 0 by {
                if q != page_id {
                    assert(self.pin_count(q) == pinned.pin_count(q));
                    assert(old(self).pin_count(q) == 0);
                }
            }
        }
        Ok(page_id)
    }

    /// Gives a page up: brings it in if need be, removes it from the pool
    /// and deallocates it on disk, where its bytes become zeros.
    pub fn discard_page(&mut self, page_id: PageId)
        requires
            old(self).at_rest(),
            old(self).on_disk(page_id),
        ensures
            final(self).at_rest(),
            final(self).capacity() == old(self).capacity(),
            final(self).page_count() == old(self).page_count(),
            forall|q: PageId| q != page_id ==> #[trigger] final(self).image(q) == old(self).image(q),
            final(self).image(page_id) == zeros(PAGE_SIZE as nat),
    {
        proof {
            self.lemma_has_target();
            if self.resident(page_id) {
                assert(self.pin_count(page_id) == 0);
            }
        }
        let handle = match self.fetch_page(page_id) {
            Ok(handle) => handle,
            Err(_) => {
                assert(false);
                return ;
            },
        };
        let ghost pinned = *self;
        self.unpin_page(handle);
        let ghost resident = *self;
        proof {
            assert forall|q: PageId| #[trigger] resident.pin_count(q) == 0 by {
                if q != page_id {
                    assert(resident.pin_count(q) == pinned.pin_count(q));
                    assert(old(self).pin_count(q) == 0);
                }
            }
        }
        let _ = self.delete_page(page_id);
        proof {
            assert forall|q: PageId| self.pin_count(q) == 0 by {
                if q != page_id {
                    assert(self.pin_count(q) == resident.pin_count(q));
                }
            }
        }
    }

    /// Number of frames.
    pub fn pool_size(&self) -> (n: usize)
        ensures
            n == self.capacity(),
    {
        self.pool.len()
    }

    /// Number of frames that hold no page.
    pub fn free_list_len(&self) -> (n: usize)
        ensures
            n == self.free_frames().len(),
    {
        self.free_list.len()
    }

    /// Number of pages that sit in a frame.
    pub fn page_table_len(&self) -> (n: usize)
        ensures
            n == Set::new(|page_id: PageId| self.resident(page_id)).len(),
    {
        let n = table_len(&self.page_table);
        assert(Set::new(|page_id: PageId| self.resident(page_id)) =~= self.table().dom());
        n
    }

    /// The frame of a page, if it sits in one.
    pub fn frame_id_of(&self, page_id: PageId) -> (frame_id: Option<FrameId>)
        ensures
            frame_id is Some <==> self.resident(page_id),
            frame_id is Some ==> frame_id->Some_0 == self.frame_of(page_id),
    {
        table_get(&self.page_table, page_id)
    }

    /// The page in a frame, if the frame exists and holds one.
    pub fn page_id_in(&self, frame_id: FrameId) -> (page_id: Option<PageId>)
        ensures
            page_id is Some <==> self.frame_page(frame_id) != INVALID_PAGE_ID,
            page_id is Some ==> page_id->Some_0 == self.frame_page(frame_id),
    {
        if frame_id < self.pool.len() && self.pool[frame_id].page_id != INVALID_PAGE_ID {
            Some(self.pool[frame_id].page_id)
        } else {
            None
        }
    }

    /// Number of frames whose page may be evicted.
    pub fn replacer_size(&self) -> (n: usize)
        requires
            self.wf(),
        ensures
            n == self.evictable_count(),
    {
        self.replacer.size()
    }

    /// The eviction policy.
    pub fn replacer(&self) -> (replacer: &LRUKReplacer)
        requires
            self.wf(),
        ensures
            replacer.wf(),
            replacer.size_spec() == self.evictable_count(),
            replacer.capacity() == self.capacity(),
    {
        &self.replacer
    }

    /// The disk.
    pub fn disk_manager(&self) -> (disk: &DiskManager)
        requires
            self.wf(),
        ensures
            disk.wf(),
            disk.page_count() == self.page_count(),
            forall|q: PageId| #[trigger] disk.page(q) == self.disk_image(q),
    {
        &self.disk_manager
    }

    /// Number of page ids handed out so far.
    pub fn num_pages(&self) -> (n: usize)
        ensures
            n == self.page_count(),
    {
        self.disk_manager.num_pages()
    }
}

} // verus!
