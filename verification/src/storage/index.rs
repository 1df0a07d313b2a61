use crate::buffer::buffer_pool::BufferPoolManager;
use crate::catalog::schema::DataType;
use crate::catalog::schema::Schema;
use crate::common::bound::Bound;
use crate::common::rid::PageId;
use crate::common::rid::RecordId;
use crate::common::rid::INVALID_PAGE_ID;
use crate::common::rid::PAGE_SIZE;
use crate::error::BustubxError;
use crate::storage::codec::index_page_codec::internal_fits;
use crate::storage::codec::index_page_codec::keys_conform;
use crate::storage::codec::index_page_codec::leaf_fits;
use crate::storage::codec::index_page_codec::lemma_fits_fewer;
use crate::storage::codec::index_page_codec::room;
use crate::storage::index_model::descend;
use crate::storage::index_model::way;
use crate::storage::index_model::Key;
use crate::storage::index_model::leftmost;
use crate::storage::index_model::rightmost;
use crate::storage::index_model::Slack;
use crate::storage::index_model::TreeGhost;
use crate::storage::index_model::TreeModel;
use crate::storage::index_page::child_index;
use crate::storage::index_page::closest_from;
use crate::storage::index_page::lemma_closest_from;
use crate::storage::tuple::key_le;
use crate::storage::tuple::key_lt;
use crate::storage::tuple::KeyOrder;
use crate::storage::index_page::lemma_child_index;
use crate::storage::index_page::min_size_of;
use crate::storage::index_page::route_index;
use crate::storage::index_page::BPlusTreeInternalPage;
use crate::storage::index_page::BPlusTreeLeafPage;
use crate::storage::index_page::BPlusTreePage;
use crate::storage::index_page::InternalKV;
use crate::storage::index_page::InternalView;
use crate::storage::index_page::LeafKV;
use crate::storage::index_page::LeafView;
use crate::storage::index_page::TreePageView;
use crate::storage::tuple::conforms_to;
use crate::storage::tuple::null_key;
use crate::storage::tuple::Tuple;
use std::collections::VecDeque;
use vstd::prelude::*;

verus! {

/// What one descent through the index remembers: the root it started from
/// and the internal pages it went through, the deepest last.
pub struct Context {
    pub root_page_id: PageId,
    pub write_set: VecDeque<PageId>,
    pub read_set: VecDeque<PageId>,
}

impl Context {
    /// The context of a descent that has not started.
    pub fn new(root_page_id: PageId) -> (context: Context)
        ensures
            context.root_page_id == root_page_id,
            context.write_set@ == Seq::<PageId>::empty(),
            context.read_set@ == Seq::<PageId>::empty(),
    {
        Context { root_page_id, write_set: VecDeque::new(), read_set: VecDeque::new() }
    }
}

/// Whether an index can have these parameters: a leaf holds at least one
/// entry and an internal page at least two, and pages of the greatest size
/// fit a page of the disk.
pub open spec fn parameters_ok(types: Seq<DataType>, internal_max_size: u32, leaf_max_size: u32) -> bool {
    &&& leaf_max_size >= 1
    &&& internal_max_size >= 2
    &&& leaf_fits(types, leaf_max_size as int)
    &&& internal_fits(types, internal_max_size as int)
}

/// A B+ tree from keys to record ids, whose pages sit in a buffer pool that
/// the index owns.
pub struct BPlusTreeIndex {
    key_schema: Schema,
    buffer_pool: BufferPoolManager,
    internal_max_size: u32,
    leaf_max_size: u32,
    root_page_id: PageId,
    shape: Ghost<TreeGhost>,
}

impl BPlusTreeIndex {
    /// The index as a value.
    pub closed spec fn model(&self) -> TreeModel {
        TreeModel {
            types: self.key_schema.types(),
            leaf_max: self.leaf_max_size,
            internal_max: self.internal_max_size,
            root: self.root_page_id,
            pages: self.buffer_pool.tree_pages(self.key_schema.types()),
            limit: self.buffer_pool.page_count(),
            g: self.shape@,
        }
    }

    /// The pool is at rest and the tree is in order.
    pub closed spec fn wf(&self) -> bool {
        self.buffer_pool.at_rest() && self.model().ok(Slack::Tight)
    }

    /// The tree of a well-formed index is in order, so that what holds of
    /// every tree in order holds of it.
    pub proof fn lemma_in_order(&self)
        requires
            self.wf(),
        ensures
            self.model().ok(Slack::Tight),
    {
    }

    /// Whether an index can have these parameters.
    pub fn parameters_fit(key_schema: &Schema, internal_max_size: u32, leaf_max_size: u32) -> (b: bool)
        ensures
            b == parameters_ok(key_schema.types(), internal_max_size, leaf_max_size),
    {
        if leaf_max_size < 1 || internal_max_size < 2 {
            return false;
        }
        let columns: usize = key_schema.column_count();
        if columns > PAGE_SIZE {
            proof {
                let n = leaf_max_size as int;
                let e = 9 * columns + 8;
                assert(n * e >= e) by (nonlinear_arith)
                    requires
                        n >= 1,
                        e >= 0,
                ;
            }
            return false;
        }
        room(13, leaf_max_size as usize, 9 * columns + 8) && room(
            9,
            internal_max_size as usize,
            9 * columns + 4,
        )
    }

    /// An empty index over the pool.
    pub fn new(
        key_schema: Schema,
        buffer_pool: BufferPoolManager,
        internal_max_size: u32,
        leaf_max_size: u32,
    ) -> (index: BPlusTreeIndex)
        requires
            buffer_pool.wf(),
            buffer_pool.unpinned(),
            buffer_pool.capacity() >= 1,
            parameters_ok(key_schema.types(), internal_max_size, leaf_max_size),
        ensures
            index.wf(),
            index.model().root == INVALID_PAGE_ID,
            index.model().types == key_schema.types(),
            index.model().leaf_max == leaf_max_size,
            index.model().internal_max == internal_max_size,
            index.model().limit == buffer_pool.page_count(),
            forall|key: Seq<crate::storage::tuple::ScalarValue>, rid: RecordId|
                !index.model().stored(key, rid),
    {
        let ghost g = TreeGhost {
            level: Map::empty(),
            fl: Map::empty(),
            nl: Map::empty(),
            parent: Map::empty(),
            prev: Map::empty(),
            lowkey: Map::empty(),
            sep_child: Map::empty(),
        };
        proof {
            buffer_pool.lemma_image_len(0);
        }
        BPlusTreeIndex {
            key_schema,
            buffer_pool,
            internal_max_size,
            leaf_max_size,
            root_page_id: INVALID_PAGE_ID,
            shape: Ghost(g),
        }
    }

    /// The root page; `INVALID_PAGE_ID` for an empty index.
    pub fn root_page_id(&self) -> (page_id: PageId)
        ensures
            page_id == self.model().root,
    {
        self.root_page_id
    }

    /// The most entries a leaf may keep.
    pub fn leaf_max_size(&self) -> (n: u32)
        ensures
            n == self.model().leaf_max,
    {
        self.leaf_max_size
    }

    /// The most entries an internal page may keep.
    pub fn internal_max_size(&self) -> (n: u32)
        ensures
            n == self.model().internal_max,
    {
        self.internal_max_size
    }

    /// The schema of the keys.
    pub fn key_schema(&self) -> (schema: &Schema)
        ensures
            schema.types() == self.model().types,
    {
        &self.key_schema
    }

    /// The pool that holds the pages.
    pub fn buffer_pool(&self) -> (buffer_pool: &BufferPoolManager)
        requires
            self.wf(),
        ensures
            buffer_pool.at_rest(),
            buffer_pool.page_count() == self.model().limit,
    {
        &self.buffer_pool
    }

    /// Gives the pool back, and with it the pages of the index.
    pub fn into_buffer_pool(self) -> (buffer_pool: BufferPoolManager)
        requires
            self.wf(),
        ensures
            buffer_pool.at_rest(),
            buffer_pool.page_count() == self.model().limit,
            buffer_pool.tree_pages(self.model().types) == self.model().pages,
    {
        self.buffer_pool
    }

    /// What a page of the index holds.
    pub fn tree_page(&mut self, page_id: PageId) -> (res: Result<BPlusTreePage, BustubxError>)
        requires
            old(self).wf(),
        ensures
            final(self).wf(),
            final(self).model() == old(self).model(),
            old(self).model().pages.contains_key(page_id) ==> res is Ok && res->Ok_0@ == old(self).model().pages[page_id],
            !old(self).model().pages.contains_key(page_id) ==> res is Err,
    {
        self.buffer_pool.read_tree_page(page_id, &self.key_schema)
    }

    /// Whether the index has no root, and so holds nothing.
    pub fn is_empty(&self) -> (b: bool)
        ensures
            b == (self.model().root == INVALID_PAGE_ID),
    {
        self.root_page_id == INVALID_PAGE_ID
    }

    /// Goes from the root down to the leaf that the key is routed to, and
    /// adds the internal pages on the way to the read set of the context, the
    /// deepest last.
    fn find_leaf_page(&mut self, key: &Tuple, context: &mut Context) -> (res: Result<
        Option<PageId>,
        BustubxError,
    >)
        requires
            old(self).wf(),
        ensures
            final(self).wf(),
            final(self).model() == old(self).model(),
            final(context).root_page_id == old(context).root_page_id,
            final(context).write_set == old(context).write_set,
            res is Ok,
            res->Ok_0 == old(self).model().leaf_for(key@),
            old(self).model().root == INVALID_PAGE_ID ==> res->Ok_0 is None && final(context).read_set@ == old(context).read_set@,
            old(self).model().root != INVALID_PAGE_ID ==> {
                let before = old(context).read_set@.len() as int;
                let path = final(context).read_set@.subrange(
                    before,
                    final(context).read_set@.len() as int,
                );
                &&& res->Ok_0 is Some
                &&& final(context).read_set@.len() >= before
                &&& final(context).read_set@.subrange(0, before) == old(context).read_set@
                &&& old(self).model().path_ok(path, res->Ok_0->Some_0)
                &&& path == old(self).model().way_to(key@)
                &&& old(self).model().routed(path, res->Ok_0->Some_0, key@)
                &&& old(self).model().g.level[res->Ok_0->Some_0] == 0
                &&& old(self).model().in_range(res->Ok_0->Some_0, key@)
            },
    {
        if self.root_page_id == INVALID_PAGE_ID {
            return Ok(None);
        }
        let ghost t = self.model();
        let ghost base = context.read_set@;
        let ghost mut path: Seq<PageId> = Seq::empty();
        let mut cur: PageId = self.root_page_id;
        proof {
            assert(base + path =~= base);
            assert(path + way(t.pages, cur, key@, t.limit) =~= way(t.pages, cur, key@, t.limit));
        }
        loop
            invariant
                self.buffer_pool.at_rest(),
                self.model() == t,
                t == old(self).model(),
                t.ok(Slack::Tight),
                t.root != INVALID_PAGE_ID,
                t.path_ok(path, cur),
                t.routed(path, cur, key@),
                t.in_range(cur, key@),
                context.read_set@ == base + path,
                context.root_page_id == old(context).root_page_id,
                context.write_set == old(context).write_set,
                base == old(context).read_set@,
                path.len() < t.limit,
                descend(t.pages, t.root, key@, t.limit) == descend(
                    t.pages,
                    cur,
                    key@,
                    (t.limit - path.len()) as nat,
                ),
                t.limit - path.len() > t.g.level[cur],
                way(t.pages, t.root, key@, t.limit) == path + way(
                    t.pages,
                    cur,
                    key@,
                    (t.limit - path.len()) as nat,
                ),
            decreases t.g.level[cur],
        {
            assert(t.is_node(cur));
            assert(t.node_ok(cur, Slack::Tight));
            let page = match self.buffer_pool.read_tree_page(cur, &self.key_schema) {
                Ok(page) => page,
                Err(e) => {
                    assert(false);
                    return Err(e);
                },
            };
            match page {
                BPlusTreePage::Leaf(_) => {
                    proof {
                        assert(path + Seq::<PageId>::empty() =~= path);
                        assert((base + path).subrange(base.len() as int, (base + path).len() as int)
                            =~= path);
                        assert((base + path).subrange(0, base.len() as int) =~= base);
                    }
                    return Ok(Some(cur));
                },
                BPlusTreePage::Internal(node) => {
                    context.read_set.push_back(cur);
                    let next = node.look_up(key);
                    proof {
                        t.lemma_route_step(Slack::Tight, cur, key@);
                        t.lemma_path_step(Slack::Tight, path, cur, key@);
                        assert((base + path).push(cur) =~= base + path.push(cur));
                        let longer = path.push(cur);
                        assert(path + (seq![cur] + way(
                            t.pages,
                            next,
                            key@,
                            (t.limit - path.len() - 1) as nat,
                        )) =~= longer + way(t.pages, next, key@, (t.limit - path.len() - 1) as nat));
                        assert forall|j: int| 0 <= j < longer.len() implies (#[trigger] t.internal(
                            longer[j],
                        )).look_up(key@) == if j + 1 < longer.len() {
                            longer[j + 1]
                        } else {
                            next
                        } by {
                            if j < path.len() {
                                assert(longer[j] == path[j]);
                                assert(t.internal(path[j]).look_up(key@) == if j + 1 < path.len() {
                                    path[j + 1]
                                } else {
                                    cur
                                });
                            }
                        }
                        path = longer;
                    }
                    cur = next;
                },
            }
        }
    }

    /// The record id stored under a key: that of the first entry with the key
    /// on the leaf that the key is routed to.
    pub fn get(&mut self, key: &Tuple) -> (res: Result<Option<RecordId>, BustubxError>)
        requires
            old(self).wf(),
        ensures
            final(self).wf(),
            final(self).model() == old(self).model(),
            res is Ok,
            res->Ok_0 == old(self).model().lookup(key@),
    {
        if self.is_empty() {
            return Ok(None);
        }
        let mut context = Context::new(self.root_page_id);
        let leaf_id: PageId = match self.find_leaf_page(key, &mut context) {
            Ok(Some(leaf_id)) => leaf_id,
            Ok(None) => {
                return Ok(None);
            },
            Err(e) => {
                return Err(e);
            },
        };
        proof {
            let t = self.model();
            assert(t.is_node(leaf_id));
            assert(t.node_ok(leaf_id, Slack::Tight));
        }
        let page = match self.buffer_pool.read_tree_page(leaf_id, &self.key_schema) {
            Ok(page) => page,
            Err(e) => {
                assert(false);
                return Err(e);
            },
        };
        match page {
            BPlusTreePage::Leaf(leaf) => Ok(leaf.look_up(key)),
            BPlusTreePage::Internal(_) => {
                assert(false);
                Ok(None)
            },
        }
    }

    /// The leftmost leaf of the index.
    pub fn get_first_leaf_page(&mut self) -> (res: Result<BPlusTreeLeafPage, BustubxError>)
        requires
            old(self).wf(),
        ensures
            final(self).wf(),
            final(self).model() == old(self).model(),
            old(self).model().root == INVALID_PAGE_ID ==> res is Err && res->Err_0
                == BustubxError::Io,
            old(self).model().root != INVALID_PAGE_ID ==> {
                let t = old(self).model();
                &&& res is Ok
                &&& t.is_node(t.g.fl[t.root])
                &&& t.g.level[t.g.fl[t.root]] == 0
                &&& res->Ok_0@ == t.leaf(t.g.fl[t.root])
            },
    {
        if self.root_page_id == INVALID_PAGE_ID {
            return Err(BustubxError::Io);
        }
        let ghost t = self.model();
        let mut cur: PageId = self.root_page_id;
        loop
            invariant
                self.buffer_pool.at_rest(),
                self.model() == t,
                t == old(self).model(),
                t.ok(Slack::Tight),
                t.is_node(cur),
                t.g.fl[cur] == t.g.fl[t.root],
            decreases t.g.level[cur],
        {
            assert(t.node_ok(cur, Slack::Tight));
            let page = match self.buffer_pool.read_tree_page(cur, &self.key_schema) {
                Ok(page) => page,
                Err(e) => {
                    assert(false);
                    return Err(e);
                },
            };
            match page {
                BPlusTreePage::Leaf(leaf) => {
                    return Ok(leaf);
                },
                BPlusTreePage::Internal(node) => {
                    assert(t.child_ok(cur, 0));
                    cur = node.value_at(0);
                },
            }
        }
    }

    /// The first or the last entry of the leftmost or the rightmost leaf
    /// below a page. The pool may hold, at pages that are not below that
    /// page, something else than the tree `t` says.
    fn find_subtree_leafkv(
        buffer_pool: &mut BufferPoolManager,
        key_schema: &Schema,
        page_id: PageId,
        min_or_max: bool,
        Ghost(t): Ghost<TreeModel>,
        Ghost(slack): Ghost<Slack>,
    ) -> (res: Result<LeafKV, BustubxError>)
        requires
            old(buffer_pool).at_rest(),
            t.ok(slack),
            t.types == key_schema.types(),
            t.is_node(page_id),
            forall|z: PageId|
                #[trigger] t.is_node(z) && t.g.level[z] <= t.g.level[page_id] ==> old(buffer_pool).tree_pages(t.types).contains_key(z) && old(buffer_pool).tree_pages(t.types)[z]
                    == t.pages[z],
        ensures
            final(buffer_pool).at_rest(),
            final(buffer_pool).capacity() == old(buffer_pool).capacity(),
            final(buffer_pool).page_count() == old(buffer_pool).page_count(),
            final(buffer_pool).tree_pages(t.types) == old(buffer_pool).tree_pages(t.types),
            ({
                let leaf_id = if min_or_max {
                    leftmost(t.pages, page_id, t.g.level[page_id] + 1)
                } else {
                    rightmost(t.pages, page_id, t.g.level[page_id] + 1)
                };
                &&& leaf_id is Some
                &&& t.is_node(leaf_id->Some_0)
                &&& t.g.level[leaf_id->Some_0] == 0
                &&& min_or_max ==> leaf_id->Some_0 == t.g.fl[page_id]
                &&& t.leaf(leaf_id->Some_0).entries.len() == 0 ==> res is Err && res->Err_0
                    == BustubxError::OutOfRange
                &&& t.leaf(leaf_id->Some_0).entries.len() > 0 ==> {
                    let entries = t.leaf(leaf_id->Some_0).entries;
                    let want = if min_or_max {
                        entries[0]
                    } else {
                        entries[entries.len() - 1]
                    };
                    res is Ok && res->Ok_0.0@ == want.0 && res->Ok_0.1 == want.1
                }
            }),
    {
        let mut cur: PageId = page_id;
        let ghost pages0 = buffer_pool.tree_pages(t.types);
        proof {
            if min_or_max {
                t.lemma_leftmost(slack, t.pages, page_id, t.g.level[page_id] + 1);
            }
        }
        loop
            invariant
                buffer_pool.at_rest(),
                buffer_pool.capacity() == old(buffer_pool).capacity(),
                buffer_pool.page_count() == old(buffer_pool).page_count(),
                buffer_pool.tree_pages(t.types) == pages0,
                pages0 == old(buffer_pool).tree_pages(t.types),
                t.ok(slack),
                t.types == key_schema.types(),
                t.is_node(cur),
                t.is_node(page_id),
                t.g.level[cur] <= t.g.level[page_id],
                forall|z: PageId|
                    #[trigger] t.is_node(z) && t.g.level[z] <= t.g.level[page_id]
                        ==> pages0.contains_key(z) && pages0[z] == t.pages[z],
                min_or_max ==> leftmost(t.pages, page_id, t.g.level[page_id] + 1) == leftmost(
                    t.pages,
                    cur,
                    t.g.level[cur] + 1,
                ),
                !min_or_max ==> rightmost(t.pages, page_id, t.g.level[page_id] + 1) == rightmost(
                    t.pages,
                    cur,
                    t.g.level[cur] + 1,
                ),
                min_or_max ==> leftmost(t.pages, page_id, t.g.level[page_id] + 1) == Some(
                    t.g.fl[page_id],
                ),
            decreases t.g.level[cur],
        {
            assert(t.node_ok(cur, slack));
            let page = match buffer_pool.read_tree_page(cur, key_schema) {
                Ok(page) => page,
                Err(e) => {
                    assert(false);
                    return Err(e);
                },
            };
            match page {
                BPlusTreePage::Internal(internal_page) => {
                    let index: usize = if min_or_max {
                        0
                    } else {
                        internal_page.current_size() - 1
                    };
                    proof {
                        assert(t.child_ok(cur, index as int));
                        assert(t.child_ok(cur, 0));
                        assert(t.child_ok(cur, t.internal(cur).entries.len() - 1));
                    }
                    cur = internal_page.value_at(index);
                },
                BPlusTreePage::Leaf(leaf_page) => {
                    if leaf_page.current_size() == 0 {
                        return Err(BustubxError::OutOfRange);
                    }
                    let index: usize = if min_or_max {
                        0
                    } else {
                        leaf_page.current_size() - 1
                    };
                    let kv = leaf_page.kv_at(index);
                    return Ok((kv.0.duplicate(), kv.1));
                },
            }
        }
    }

    /// The least entry below a page: the first of its leftmost leaf.
    fn find_subtree_min_leafkv(
        buffer_pool: &mut BufferPoolManager,
        key_schema: &Schema,
        page_id: PageId,
        Ghost(t): Ghost<TreeModel>,
        Ghost(slack): Ghost<Slack>,
    ) -> (res: Result<LeafKV, BustubxError>)
        requires
            old(buffer_pool).at_rest(),
            t.ok(slack),
            t.types == key_schema.types(),
            t.is_node(page_id),
            forall|z: PageId|
                #[trigger] t.is_node(z) && t.g.level[z] <= t.g.level[page_id] ==> old(buffer_pool).tree_pages(t.types).contains_key(z) && old(buffer_pool).tree_pages(t.types)[z]
                    == t.pages[z],
        ensures
            final(buffer_pool).at_rest(),
            final(buffer_pool).capacity() == old(buffer_pool).capacity(),
            final(buffer_pool).page_count() == old(buffer_pool).page_count(),
            final(buffer_pool).tree_pages(t.types) == old(buffer_pool).tree_pages(t.types),
            t.is_node(t.g.fl[page_id]),
            t.g.level[t.g.fl[page_id]] == 0,
            t.leaf(t.g.fl[page_id]).entries.len() == 0 ==> res is Err && res->Err_0
                == BustubxError::OutOfRange,
            t.leaf(t.g.fl[page_id]).entries.len() > 0 ==> res is Ok && res->Ok_0.0@ == t.leaf(
                t.g.fl[page_id],
            ).entries[0].0 && res->Ok_0.1 == t.leaf(t.g.fl[page_id]).entries[0].1,
    {
        BPlusTreeIndex::find_subtree_leafkv(
            buffer_pool,
            key_schema,
            page_id,
            true,
            Ghost(t),
            Ghost(slack),
        )
    }

    /// The greatest entry below a page: the last of its rightmost leaf.
    #[allow(dead_code)]
    fn find_subtree_max_leafkv(
        buffer_pool: &mut BufferPoolManager,
        key_schema: &Schema,
        page_id: PageId,
        Ghost(t): Ghost<TreeModel>,
        Ghost(slack): Ghost<Slack>,
    ) -> (res: Result<LeafKV, BustubxError>)
        requires
            old(buffer_pool).at_rest(),
            t.ok(slack),
            t.types == key_schema.types(),
            t.is_node(page_id),
            forall|z: PageId|
                #[trigger] t.is_node(z) && t.g.level[z] <= t.g.level[page_id] ==> old(buffer_pool).tree_pages(t.types).contains_key(z) && old(buffer_pool).tree_pages(t.types)[z]
                    == t.pages[z],
        ensures
            final(buffer_pool).at_rest(),
            final(buffer_pool).capacity() == old(buffer_pool).capacity(),
            final(buffer_pool).page_count() == old(buffer_pool).page_count(),
            final(buffer_pool).tree_pages(t.types) == old(buffer_pool).tree_pages(t.types),
            ({
                let leaf_id = rightmost(t.pages, page_id, t.g.level[page_id] + 1);
                &&& leaf_id is Some
                &&& t.leaf(leaf_id->Some_0).entries.len() == 0 ==> res is Err && res->Err_0
                    == BustubxError::OutOfRange
                &&& t.leaf(leaf_id->Some_0).entries.len() > 0 ==> {
                    let entries = t.leaf(leaf_id->Some_0).entries;
                    res is Ok && res->Ok_0.0@ == entries[entries.len() - 1].0 && res->Ok_0.1
                        == entries[entries.len() - 1].1
                }
            }),
    {
        BPlusTreeIndex::find_subtree_leafkv(
            buffer_pool,
            key_schema,
            page_id,
            false,
            Ghost(t),
            Ghost(slack),
        )
    }

    /// Makes a leaf with one entry the root of an empty index.
    fn start_new_tree(&mut self, key: &Tuple, rid: RecordId) -> (res: Result<(), BustubxError>)
        requires
            old(self).wf(),
            old(self).model().root == INVALID_PAGE_ID,
            conforms_to(key@, old(self).model().types),
            old(self).model().limit < u32::MAX,
        ensures
            final(self).wf(),
            final(self).model().types == old(self).model().types,
            final(self).model().leaf_max == old(self).model().leaf_max,
            final(self).model().internal_max == old(self).model().internal_max,
            res is Ok,
            forall|k: Key, r: RecordId|
                #[trigger] final(self).model().stored(k, r) == (k == key@ && r == rid),
            final(self).model().lookup(key@) == Some(rid),
            final(self).model() == old(self).model().planted(key@, rid),
    {
        let ghost t0 = self.model();
        let ghost pool0 = self.buffer_pool;
        let new_page_id: PageId = match self.buffer_pool.create_page() {
            Ok(page_id) => page_id,
            Err(e) => {
                assert(false);
                return Err(e);
            },
        };
        proof {
            pool0.lemma_tree_pages_created(&self.buffer_pool, t0.types, new_page_id);
        }
        let mut leaf_page = BPlusTreeLeafPage::new(self.leaf_max_size);
        leaf_page.insert(key.duplicate(), rid);
        let page = BPlusTreePage::Leaf(leaf_page);
        proof {
            assert(page@->Leaf_0.entries =~= seq![(key@, rid)]);
            lemma_fits_fewer(
                13,
                t0.leaf_max as int,
                1,
                crate::storage::codec::index_page_codec::leaf_entry_size(t0.types),
            );
        }
        match self.buffer_pool.write_tree_page(new_page_id, &page, &self.key_schema) {
            Ok(_) => {},
            Err(e) => {
                assert(false);
                return Err(e);
            },
        }
        self.root_page_id = new_page_id;
        let ghost g = TreeGhost {
            level: Map::empty().insert(new_page_id, 0nat),
            fl: Map::empty().insert(new_page_id, new_page_id),
            nl: Map::empty().insert(new_page_id, INVALID_PAGE_ID),
            parent: Map::empty().insert(new_page_id, INVALID_PAGE_ID),
            prev: Map::empty(),
            lowkey: Map::empty().insert(new_page_id, None),
            sep_child: Map::empty(),
        };
        self.shape = Ghost(g);
        proof {
            let t = self.model();
            assert(t.leaf(new_page_id).entries =~= seq![(key@, rid)]);
            assert(t.pages =~= t0.planted(key@, rid).pages);
            assert(t.leaf_entry_ok(new_page_id, 0));
            assert(t.node_ok(new_page_id, Slack::Tight));
            assert forall|x: PageId| #[trigger] t.is_node(x) implies t.node_ok(x, Slack::Tight) by {
                assert(x == new_page_id);
            }
            assert forall|k: Key, r: RecordId| #[trigger]
                t.stored(k, r) == (k == key@ && r == rid) by {
                if k == key@ && r == rid {
                    t.lemma_stored_here(new_page_id, 0);
                }
            }
            assert(descend(t.pages, new_page_id, key@, t.limit) == Some(new_page_id));
            assert(crate::storage::index_page::first_match(t.leaf(new_page_id).entries, key@, 0)
                == 0);
        }
        Ok(())
    }

    /// Moves the upper half of a page that has one entry too many to a new
    /// page, and returns the id of the new page with the key under which it
    /// goes into the parent: for a leaf its first key, for an internal page
    /// the least key below it.
    fn split(
        buffer_pool: &mut BufferPoolManager,
        key_schema: &Schema,
        tree_page: &mut BPlusTreePage,
        Ghost(t): Ghost<TreeModel>,
        Ghost(cur): Ghost<PageId>,
    ) -> (res: Result<InternalKV, BustubxError>)
        requires
            old(buffer_pool).at_rest(),
            t.ok(Slack::Over(cur)),
            t.types == key_schema.types(),
            t.is_node(cur),
            t.pages == old(buffer_pool).tree_pages(t.types).insert(cur, old(tree_page)@),
            t.limit == old(buffer_pool).page_count(),
            old(tree_page)@.size() == old(tree_page)@.max_size() + 1,
            t.limit < u32::MAX,
        ensures
            final(buffer_pool).at_rest(),
            final(buffer_pool).capacity() == old(buffer_pool).capacity(),
            final(buffer_pool).page_count() == old(buffer_pool).page_count() + 1,
            res is Ok,
            res->Ok_0.1 == t.limit + 1,
            match old(tree_page)@ {
                TreePageView::Leaf(leaf) => {
                    let n = leaf.entries.len() as int;
                    let mid = n / 2;
                    &&& final(tree_page)@ == TreePageView::Leaf(
                        LeafView {
                            entries: leaf.entries.subrange(0, mid),
                            next_page_id: res->Ok_0.1,
                            ..leaf
                        },
                    )
                    &&& final(buffer_pool).tree_pages(t.types) == old(buffer_pool).tree_pages(
                        t.types,
                    ).insert(
                        res->Ok_0.1,
                        TreePageView::Leaf(LeafView { entries: leaf.entries.subrange(mid, n), ..leaf }),
                    )
                    &&& res->Ok_0.0@ == leaf.entries[mid].0
                },
                TreePageView::Internal(node) => {
                    let n = node.entries.len() as int;
                    let mid = n / 2;
                    let first = t.g.fl[node.entries[mid].1];
                    &&& final(tree_page)@ == TreePageView::Internal(
                        InternalView { entries: node.entries.subrange(0, mid), ..node },
                    )
                    &&& final(buffer_pool).tree_pages(t.types) == old(buffer_pool).tree_pages(
                        t.types,
                    ).insert(
                        res->Ok_0.1,
                        TreePageView::Internal(
                            InternalView { entries: node.entries.subrange(mid, n), ..node },
                        ),
                    )
                    &&& t.is_node(first)
                    &&& t.g.level[first] == 0
                    &&& t.leaf(first).entries.len() >= 1
                    &&& res->Ok_0.0@ == t.leaf(first).entries[0].0
                },
            },
    {
        let ghost slack = Slack::Over(cur);
        let ghost stored = buffer_pool.tree_pages(t.types);
        let ghost pool0 = *buffer_pool;
        proof {
            assert(t.node_ok(cur, slack));
        }
        match tree_page {
            BPlusTreePage::Leaf(leaf_page) => {
                let new_page_id: PageId = match buffer_pool.create_page() {
                    Ok(page_id) => page_id,
                    Err(e) => {
                        assert(false);
                        return Err(e);
                    },
                };
                proof {
                    pool0.lemma_tree_pages_created(buffer_pool, t.types, new_page_id);
                }
                let ghost leaf = leaf_page@;
                let mid: usize = leaf_page.current_size() / 2;
                let tail = leaf_page.split_off(mid);
                let mut new_leaf_page = BPlusTreeLeafPage::new(leaf_page.max_size);
                new_leaf_page.batch_insert(tail);
                new_leaf_page.next_page_id = leaf_page.next_page_id;
                leaf_page.next_page_id = new_page_id;
                let sep = new_leaf_page.key_at(0).duplicate();
                let new_page = BPlusTreePage::Leaf(new_leaf_page);
                proof {
                    let n = leaf.entries.len() as int;
                    assert(new_page@->Leaf_0.entries =~= leaf.entries.subrange(mid as int, n));
                    assert(keys_conform(new_page@->Leaf_0.entries, t.types)) by {
                        assert forall|i: int|
                            0 <= i < new_page@->Leaf_0.entries.len() implies conforms_to(
                            (#[trigger] new_page@->Leaf_0.entries[i]).0,
                            t.types,
                        ) by {
                            assert(new_page@->Leaf_0.entries[i] == leaf.entries[mid + i]);
                        }
                    }
                    lemma_fits_fewer(
                        13,
                        t.leaf_max as int,
                        n - mid,
                        crate::storage::codec::index_page_codec::leaf_entry_size(t.types),
                    );
                }
                match buffer_pool.write_tree_page(new_page_id, &new_page, key_schema) {
                    Ok(_) => {},
                    Err(e) => {
                        assert(false);
                        return Err(e);
                    },
                }
                Ok((sep, new_page_id))
            },
            BPlusTreePage::Internal(internal_page) => {
                let ghost node = internal_page@;
                let mid: usize = internal_page.current_size() / 2;
                let child: PageId = internal_page.value_at(mid);
                proof {
                    assert(t.child_ok(cur, mid as int));
                    assert forall|z: PageId|
                        #[trigger] t.is_node(z) && t.g.level[z] <= t.g.level[child]
                            implies stored.contains_key(z) && stored[z] == t.pages[z] by {
                        assert(t.node_ok(z, slack));
                    }
                    t.lemma_leftmost(slack, t.pages, child, t.g.level[child] + 1);
                    let first = t.g.fl[child];
                    assert(t.node_ok(first, slack));
                    assert(t.node_ok(child, slack));
                    assert(t.g.parent[first] != INVALID_PAGE_ID) by {
                        if t.g.level[child] == 0 {
                            assert(first == child);
                        }
                    }
                    assert(t.is_node(t.root));
                }
                let min_kv = match BPlusTreeIndex::find_subtree_min_leafkv(
                    buffer_pool,
                    key_schema,
                    child,
                    Ghost(t),
                    Ghost(slack),
                ) {
                    Ok(kv) => kv,
                    Err(e) => {
                        assert(false);
                        return Err(e);
                    },
                };
                let ghost pool1 = *buffer_pool;
                let new_page_id: PageId = match buffer_pool.create_page() {
                    Ok(page_id) => page_id,
                    Err(e) => {
                        assert(false);
                        return Err(e);
                    },
                };
                proof {
                    pool1.lemma_tree_pages_created(buffer_pool, t.types, new_page_id);
                }
                let tail = internal_page.split_off(mid);
                let mut new_internal_page = BPlusTreeInternalPage::new(internal_page.max_size);
                new_internal_page.batch_insert(tail);
                let new_page = BPlusTreePage::Internal(new_internal_page);
                proof {
                    let n = node.entries.len() as int;
                    assert(new_page@->Internal_0.entries =~= node.entries.subrange(mid as int, n));
                    assert(keys_conform(new_page@->Internal_0.entries, t.types)) by {
                        assert forall|i: int|
                            0 <= i < new_page@->Internal_0.entries.len() implies conforms_to(
                            (#[trigger] new_page@->Internal_0.entries[i]).0,
                            t.types,
                        ) by {
                            assert(new_page@->Internal_0.entries[i] == node.entries[mid + i]);
                        }
                    }
                    lemma_fits_fewer(
                        9,
                        t.internal_max as int,
                        n - mid,
                        crate::storage::codec::index_page_codec::internal_entry_size(t.types),
                    );
                }
                match buffer_pool.write_tree_page(new_page_id, &new_page, key_schema) {
                    Ok(_) => {},
                    Err(e) => {
                        assert(false);
                        return Err(e);
                    },
                }
                Ok((min_kv.0, new_page_id))
            },
        }
    }

    /// Puts an entry into the index. The entry goes to the leaf that its key
    /// is routed to, after the entries there whose key is at most its key. A
    /// page that has one entry too many is split, and the new page goes into
    /// the parent, which may then be split in turn; where the root is split
    /// the index gets a new root. Nothing is changed unless the disk has page
    /// ids left for all of that.
    pub fn insert(&mut self, key: &Tuple, rid: RecordId) -> (res: Result<(), BustubxError>)
        requires
            old(self).wf(),
        ensures
            final(self).wf(),
            final(self).model().types == old(self).model().types,
            final(self).model().leaf_max == old(self).model().leaf_max,
            final(self).model().internal_max == old(self).model().internal_max,
            !conforms_to(key@, old(self).model().types) ==> res is Err && res->Err_0
                == BustubxError::SchemaMismatch,
            conforms_to(key@, old(self).model().types) && !old(self).model().has_reserve()
                ==> res is Err && res->Err_0 == BustubxError::DiskFull,
            conforms_to(key@, old(self).model().types) && old(self).model().has_reserve()
                ==> res is Ok,
            res is Err ==> final(self).model() == old(self).model(),
            res is Ok ==> forall|k: Key, r: RecordId|
                #[trigger] final(self).model().stored(k, r) == (old(self).model().stored(k, r) || (k
                    == key@ && r == rid)),
            res is Ok && old(self).model().lookup(key@) is None ==> final(self).model().lookup(key@)
                == Some(rid),
            res is Ok ==> final(self).model() == old(self).model().with_entry(key@, rid),
    {
        if !key.conforms(&self.key_schema) {
            return Err(BustubxError::SchemaMismatch);
        }
        let ghost t0 = self.model();
        proof {
            self.buffer_pool.lemma_image_len(0);
        }
        if self.is_empty() {
            if self.buffer_pool.num_pages() >= u32::MAX as usize {
                return Err(BustubxError::DiskFull);
            }
            let res = self.start_new_tree(key, rid);
            proof {
                assert forall|k: Key, r: RecordId| !t0.stored(k, r) by {
                    if t0.stored(k, r) {
                        let (x, i) = choose|x: PageId, i: int|
                            t0.is_node(x) && t0.g.level[x] == 0 && 0 <= i < t0.leaf(x).entries.len()
                                && #[trigger] t0.leaf(x).entries[i] == (k, r);
                        assert(t0.is_node(x));
                    }
                }
            }
            return res;
        }
        let mut context = Context::new(self.root_page_id);
        let leaf_id: PageId = match self.find_leaf_page(key, &mut context) {
            Ok(Some(leaf_id)) => leaf_id,
            Ok(None) => {
                assert(false);
                return Err(BustubxError::Corrupt);
            },
            Err(e) => {
                assert(false);
                return Err(e);
            },
        };
        proof {
            assert(context.read_set@.subrange(0, context.read_set@.len() as int)
                =~= context.read_set@);
            assert(t0.path_ok(context.read_set@, leaf_id));
            assert(t0.routed(context.read_set@, leaf_id, key@));
            if context.read_set@.len() > 0 {
                assert(t0.step_ok(context.read_set@, 0, leaf_id));
            }
            assert(t0.g.level[t0.root] == context.read_set@.len());
        }
        if self.buffer_pool.num_pages() as u64 + context.read_set.len() as u64 + 2 > u32::MAX as u64 {
            return Err(BustubxError::DiskFull);
        }
        proof {
            assert(t0.node_ok(leaf_id, Slack::Tight));
        }
        let mut leaf_page = match self.buffer_pool.read_tree_page(leaf_id, &self.key_schema) {
            Ok(BPlusTreePage::Leaf(leaf_page)) => leaf_page,
            Ok(BPlusTreePage::Internal(_)) => {
                assert(false);
                return Err(BustubxError::Corrupt);
            },
            Err(e) => {
                assert(false);
                return Err(e);
            },
        };
        leaf_page.insert(key.duplicate(), rid);
        let mut cur_id: PageId = leaf_id;
        let mut cur_page = BPlusTreePage::Leaf(leaf_page);
        let ghost mut t = t0.with_page(leaf_id, cur_page@);
        let ghost goal = t0.with_entry(key@, rid);
        proof {
            assert(goal == t.settled(context.read_set@, leaf_id));
            t0.lemma_leaf_insert(leaf_id, key@, rid);
            assert forall|k: Key, r: RecordId| #[trigger]
                t.stored(k, r) == (t0.stored(k, r) || (k == key@ && r == rid)) by {
                t0.lemma_leaf_insert_stored(leaf_id, key@, rid, k, r);
            }
            assert forall|j: int| 0 <= j < context.read_set@.len() implies #[trigger] t.step_ok(
                context.read_set@,
                j,
                leaf_id,
            ) by {
                assert(t0.step_ok(context.read_set@, j, leaf_id));
                assert(t0.node_ok(context.read_set@[j], Slack::Tight));
            }
            assert forall|j: int| 0 <= j < context.read_set@.len() implies (#[trigger] t.internal(
                context.read_set@[j],
            )).look_up(key@) == if j + 1 < context.read_set@.len() {
                context.read_set@[j + 1]
            } else {
                leaf_id
            } by {
                assert(t0.step_ok(context.read_set@, j, leaf_id));
                assert(t0.internal(context.read_set@[j]).look_up(key@) == if j + 1
                    < context.read_set@.len() {
                    context.read_set@[j + 1]
                } else {
                    leaf_id
                });
            }
            if t0.lookup(key@) is None {
                t0.lemma_leaf_insert_finds(Slack::Tight, leaf_id, key@, rid);
            }
        }
        while cur_page.is_full()
            invariant
                self.buffer_pool.at_rest(),
                self.key_schema.types() == t.types,
                self.leaf_max_size == t.leaf_max,
                self.internal_max_size == t.internal_max,
                self.root_page_id == t.root,
                t.types == t0.types,
                t.leaf_max == t0.leaf_max,
                t.internal_max == t0.internal_max,
                t.pages == self.buffer_pool.tree_pages(t.types).insert(cur_id, cur_page@),
                t.limit == self.buffer_pool.page_count(),
                t.ok(Slack::Over(cur_id)),
                t.is_node(cur_id),
                t.path_ok(context.read_set@, cur_id),
                goal == t.settled(context.read_set@, cur_id),
                t.routed(context.read_set@, cur_id, key@),
                t0.lookup(key@) is None ==> t.finds(cur_id, key@, rid) && (t.g.level[cur_id] == 0
                    ==> t.once_on(cur_id, key@)),
                cur_page@.size() > cur_page@.max_size() ==> t.limit + context.read_set@.len() + 2
                    <= u32::MAX,
                forall|k: Key, r: RecordId|
                    #[trigger] t.stored(k, r) == (t0.stored(k, r) || (k == key@ && r == rid)),
            decreases
                    context.read_set@.len() * 2 + (if cur_page@.size() > cur_page@.max_size() {
                        1int
                    } else {
                        0int
                    }),
        {
            let ghost tb = t;
            let ghost x = cur_id;
            let ghost whole = cur_page@;
            let ghost path = context.read_set@;
            let ghost stored0 = self.buffer_pool.tree_pages(t.types);
            proof {
                assert(tb.node_ok(x, Slack::Over(x)));
                tb.lemma_fresh(Slack::Over(x), (tb.limit + 1) as PageId);
                tb.lemma_fresh(Slack::Over(x), (tb.limit + 2) as PageId);
            }
            let (sep, y) = match BPlusTreeIndex::split(
                &mut self.buffer_pool,
                &self.key_schema,
                &mut cur_page,
                Ghost(t),
                Ghost(cur_id),
            ) {
                Ok(kv) => kv,
                Err(e) => {
                    assert(false);
                    return Err(e);
                },
            };
            proof {
                match whole {
                    TreePageView::Leaf(leaf) => {
                        let n = leaf.entries.len() as int;
                        let left = cur_page@->Leaf_0.entries;
                        assert forall|i: int| 0 <= i < left.len() implies conforms_to(
                            (#[trigger] left[i]).0,
                            t.types,
                        ) by {
                            assert(left[i] == leaf.entries[i]);
                        }
                        lemma_fits_fewer(
                            13,
                            t.leaf_max as int,
                            n / 2,
                            crate::storage::codec::index_page_codec::leaf_entry_size(t.types),
                        );
                    },
                    TreePageView::Internal(node) => {
                        let n = node.entries.len() as int;
                        let left = cur_page@->Internal_0.entries;
                        assert forall|i: int| 0 <= i < left.len() implies conforms_to(
                            (#[trigger] left[i]).0,
                            t.types,
                        ) by {
                            assert(left[i] == node.entries[i]);
                        }
                        lemma_fits_fewer(
                            9,
                            t.internal_max as int,
                            n / 2,
                            crate::storage::codec::index_page_codec::internal_entry_size(t.types),
                        );
                    },
                }
            }
            match self.buffer_pool.write_tree_page(cur_id, &cur_page, &self.key_schema) {
                Ok(_) => {},
                Err(e) => {
                    assert(false);
                    return Err(e);
                },
            }
            let ghost left_view = cur_page@;
            match context.read_set.pop_back() {
                Some(parent_page_id) => {
                    proof {
                        assert(tb.step_ok(path, path.len() - 1, x));
                        assert(tb.node_ok(parent_page_id, Slack::Over(x)));
                    }
                    let mut parent_page = match self.buffer_pool.read_tree_page(
                        parent_page_id,
                        &self.key_schema,
                    ) {
                        Ok(BPlusTreePage::Internal(parent_page)) => parent_page,
                        Ok(BPlusTreePage::Leaf(_)) => {
                            assert(false);
                            return Err(BustubxError::Corrupt);
                        },
                        Err(e) => {
                            assert(false);
                            return Err(e);
                        },
                    };
                    let idx: usize = match parent_page.index_of(cur_id) {
                        Some(idx) => idx,
                        None => {
                            assert(false);
                            return Err(BustubxError::Corrupt);
                        },
                    };
                    parent_page.insert_at(idx + 1, sep, y);
                    proof {
                        let new_limit = (tb.limit + 1) as nat;
                        crate::storage::index_page::lemma_child_index(
                            tb.internal(parent_page_id).entries,
                            x,
                            0,
                        );
                        let ri = route_index(
                            tb.internal(parent_page_id).entries,
                            key@,
                            tb.internal(parent_page_id).entries.len() as int,
                        );
                        crate::storage::index_page::lemma_route_index(
                            tb.internal(parent_page_id).entries,
                            key@,
                            tb.internal(parent_page_id).entries.len() as int,
                        );
                        assert(tb.internal(parent_page_id).look_up(key@) == x);
                        assert(ri == idx) by {
                            let entries = tb.internal(parent_page_id).entries;
                            if ri < idx {
                                assert(entries[ri].1 != entries[idx as int].1);
                            } else if ri > idx {
                                assert(entries[idx as int].1 != entries[ri].1);
                            }
                        }
                        if t0.lookup(key@) is None {
                            match whole {
                                TreePageView::Leaf(leaf) => {
                                    assert(descend(tb.pages, x, key@, 1) == Some(x));
                                    tb.lemma_split_leaf_finds(
                                        Slack::Over(x),
                                        x,
                                        y,
                                        parent_page_id,
                                        idx as int,
                                        new_limit,
                                        key@,
                                        rid,
                                    );
                                },
                                TreePageView::Internal(node) => {
                                    tb.lemma_split_internal_finds(
                                        Slack::Over(x),
                                        x,
                                        y,
                                        parent_page_id,
                                        idx as int,
                                        sep@,
                                        new_limit,
                                        key@,
                                        rid,
                                    );
                                },
                            }
                        }
                        match whole {
                            TreePageView::Leaf(leaf) => {
                                tb.lemma_split_leaf(
                                    Slack::Over(x),
                                    x,
                                    y,
                                    parent_page_id,
                                    idx as int,
                                    new_limit,
                                );
                                t = tb.split_leaf(x, y, parent_page_id, idx as int, new_limit);
                                assert forall|k: Key, r: RecordId| #[trigger]
                                    t.stored(k, r) == tb.stored(k, r) by {
                                    tb.lemma_split_leaf_stored(
                                        x,
                                        y,
                                        parent_page_id,
                                        idx as int,
                                        new_limit,
                                        k,
                                        r,
                                    );
                                }
                            },
                            TreePageView::Internal(node) => {
                                tb.lemma_split_internal(
                                    Slack::Over(x),
                                    x,
                                    y,
                                    parent_page_id,
                                    idx as int,
                                    sep@,
                                    new_limit,
                                );
                                t = tb.split_internal(
                                    x,
                                    y,
                                    parent_page_id,
                                    idx as int,
                                    sep@,
                                    new_limit,
                                );
                                assert forall|k: Key, r: RecordId| #[trigger]
                                    t.stored(k, r) == tb.stored(k, r) by {
                                    tb.lemma_split_internal_stored(
                                        x,
                                        y,
                                        parent_page_id,
                                        idx as int,
                                        sep@,
                                        new_limit,
                                        k,
                                        r,
                                    );
                                }
                                assert forall|z: PageId|
                                    #[trigger] tb.is_node(z) && tb.g.level[z] > tb.g.level[x]
                                        implies t.g.parent[z] == tb.g.parent[z] by {
                                    if tb.moved(x, node.entries.len() as int / 2, z) {
                                        let j = choose|j: int|
                                            node.entries.len() as int / 2 <= j
                                                < tb.internal(x).entries.len()
                                                && #[trigger] tb.internal(x).entries[j].1 == z;
                                        assert(tb.child_ok(x, j));
                                    }
                                }
                            },
                        }
                        assert(t.pages =~= self.buffer_pool.tree_pages(t.types).insert(
                            parent_page_id,
                            TreePageView::Internal(parent_page@),
                        ));
                        tb.lemma_path_up(t, path, x);
                        assert(path.drop_last() =~= context.read_set@);
                        assert(t == tb.split_page(x, y, parent_page_id, idx as int, new_limit));
                        assert(tb.settled(path, x) == t.settled(path.drop_last(), parent_page_id));
                        let shorter = path.drop_last();
                        assert forall|j: int| 0 <= j < shorter.len() implies (#[trigger] t.internal(
                            shorter[j],
                        )).look_up(key@) == if j + 1 < shorter.len() {
                            shorter[j + 1]
                        } else {
                            parent_page_id
                        } by {
                            assert(shorter[j] == path[j]);
                            assert(tb.step_ok(path, j, x));
                            assert(tb.node_ok(path[j], Slack::Over(x)));
                            assert(tb.internal(path[j]).look_up(key@) == if j + 1 < path.len() {
                                path[j + 1]
                            } else {
                                x
                            });
                        }
                    }
                    cur_id = parent_page_id;
                    cur_page = BPlusTreePage::Internal(parent_page);
                },
                None => {
                    let ghost pool1 = self.buffer_pool;
                    let new_root_page_id: PageId = match self.buffer_pool.create_page() {
                        Ok(page_id) => page_id,
                        Err(e) => {
                            assert(false);
                            return Err(e);
                        },
                    };
                    proof {
                        pool1.lemma_tree_pages_created(&self.buffer_pool, t.types, new_root_page_id);
                    }
                    let mut new_root_internal_page = BPlusTreeInternalPage::new(
                        self.internal_max_size,
                    );
                    new_root_internal_page.push(Tuple::empty(&self.key_schema), cur_id);
                    new_root_internal_page.push(sep, y);
                    let new_root_page = BPlusTreePage::Internal(new_root_internal_page);
                    proof {
                        let new_limit = (tb.limit + 2) as nat;
                        let empty_key = null_key(tb.types);
                        assert(x == tb.root);
                        tb.lemma_grow_root(new_root_page_id, empty_key, new_limit, y);
                        let t1 = tb.grow_root(new_root_page_id, empty_key, new_limit);
                        assert(t1.internal(new_root_page_id).entries =~= seq![(empty_key, x)]);
                        if t0.lookup(key@) is None {
                            tb.lemma_grow_root_finds(
                                Slack::Over(x),
                                new_root_page_id,
                                empty_key,
                                new_limit,
                                key@,
                                rid,
                            );
                            match whole {
                                TreePageView::Leaf(leaf) => {
                                    assert(descend(tb.pages, x, key@, 1) == Some(x));
                                    assert(descend(t1.pages, x, key@, 1) == Some(x));
                                    t1.lemma_split_leaf_finds(
                                        Slack::Grown(x),
                                        x,
                                        y,
                                        new_root_page_id,
                                        0,
                                        new_limit,
                                        key@,
                                        rid,
                                    );
                                },
                                TreePageView::Internal(node) => {
                                    let mid = node.entries.len() as int / 2;
                                    assert(tb.child_ok(x, mid));
                                    assert(tb.is_node(node.entries[mid].1));
                                    assert(tb.is_node(tb.g.fl[node.entries[mid].1]));
                                    t1.lemma_split_internal_finds(
                                        Slack::Grown(x),
                                        x,
                                        y,
                                        new_root_page_id,
                                        0,
                                        sep@,
                                        new_limit,
                                        key@,
                                        rid,
                                    );
                                },
                            }
                        }
                        match whole {
                            TreePageView::Leaf(leaf) => {
                                t1.lemma_split_leaf(
                                    Slack::Grown(x),
                                    x,
                                    y,
                                    new_root_page_id,
                                    0,
                                    new_limit,
                                );
                                t = t1.split_leaf(x, y, new_root_page_id, 0, new_limit);
                                assert forall|k: Key, r: RecordId| #[trigger]
                                    t.stored(k, r) == tb.stored(k, r) by {
                                    tb.lemma_grow_root_stored(
                                        new_root_page_id,
                                        empty_key,
                                        new_limit,
                                        k,
                                        r,
                                    );
                                    t1.lemma_split_leaf_stored(
                                        x,
                                        y,
                                        new_root_page_id,
                                        0,
                                        new_limit,
                                        k,
                                        r,
                                    );
                                }
                            },
                            TreePageView::Internal(node) => {
                                let mid = node.entries.len() as int / 2;
                                assert(tb.child_ok(x, mid));
                                assert(tb.is_node(node.entries[mid].1));
                                assert(tb.is_node(tb.g.fl[node.entries[mid].1]));
                                t1.lemma_split_internal(
                                    Slack::Grown(x),
                                    x,
                                    y,
                                    new_root_page_id,
                                    0,
                                    sep@,
                                    new_limit,
                                );
                                t = t1.split_internal(x, y, new_root_page_id, 0, sep@, new_limit);
                                assert forall|k: Key, r: RecordId| #[trigger]
                                    t.stored(k, r) == tb.stored(k, r) by {
                                    tb.lemma_grow_root_stored(
                                        new_root_page_id,
                                        empty_key,
                                        new_limit,
                                        k,
                                        r,
                                    );
                                    t1.lemma_split_internal_stored(
                                        x,
                                        y,
                                        new_root_page_id,
                                        0,
                                        sep@,
                                        new_limit,
                                        k,
                                        r,
                                    );
                                }
                            },
                        }
                        assert(t.internal(new_root_page_id).entries =~= new_root_page@->Internal_0.entries);
                        assert(t == t1.split_page(x, y, new_root_page_id, 0, new_limit));
                        assert(path =~= Seq::<PageId>::empty());
                        assert(tb.settled(path, x) == t);
                        lemma_fits_fewer(
                            9,
                            t.internal_max as int,
                            2,
                            crate::storage::codec::index_page_codec::internal_entry_size(t.types),
                        );
                        assert(t.node_ok(new_root_page_id, Slack::Over(new_root_page_id)));
                    }
                    match self.buffer_pool.write_tree_page(
                        new_root_page_id,
                        &new_root_page,
                        &self.key_schema,
                    ) {
                        Ok(_) => {},
                        Err(e) => {
                            assert(false);
                            return Err(e);
                        },
                    }
                    self.root_page_id = new_root_page_id;
                    proof {
                        assert(t.pages =~= self.buffer_pool.tree_pages(t.types).insert(
                            new_root_page_id,
                            new_root_page@,
                        ));
                    }
                    cur_id = new_root_page_id;
                    cur_page = new_root_page;
                },
            }
        }
        proof {
            assert(t.node_ok(cur_id, Slack::Over(cur_id)));
            match cur_page@ {
                TreePageView::Leaf(leaf) => {
                    lemma_fits_fewer(
                        13,
                        t.leaf_max as int,
                        leaf.entries.len() as int,
                        crate::storage::codec::index_page_codec::leaf_entry_size(t.types),
                    );
                },
                TreePageView::Internal(node) => {
                    lemma_fits_fewer(
                        9,
                        t.internal_max as int,
                        node.entries.len() as int,
                        crate::storage::codec::index_page_codec::internal_entry_size(t.types),
                    );
                },
            }
        }
        match self.buffer_pool.write_tree_page(cur_id, &cur_page, &self.key_schema) {
            Ok(_) => {},
            Err(e) => {
                assert(false);
                return Err(e);
            },
        }
        self.shape = Ghost(t.g);
        proof {
            t.lemma_tighten(Slack::Over(cur_id));
            assert(self.model().pages =~= t.pages);
            assert(self.model() == t);
            assert(t.settled(context.read_set@, cur_id) == t);
            if t0.lookup(key@) is None {
                t.lemma_finds_up(Slack::Tight, context.read_set@, cur_id, key@);
                assert(t.is_node(t.root));
                t.lemma_lookup_is_found(Slack::Tight, key@);
            }
        }
        Ok(())
    }

    /// The pool is at rest and the tree is in order but for the slack.
    spec fn sound(&self, slack: Slack) -> bool {
        self.buffer_pool.at_rest() && self.model().ok(slack)
    }

    /// Whether the tree is in order but for one page that has one entry too
    /// few.
    pub closed spec fn lopsided(&self) -> bool {
        exists|x: PageId| self.sound(Slack::Under(x))
    }

    /// Writes a page of the tree `t` to its place.
    fn write_node(
        buffer_pool: &mut BufferPoolManager,
        key_schema: &Schema,
        page_id: PageId,
        page: &BPlusTreePage,
        Ghost(t): Ghost<TreeModel>,
        Ghost(slack): Ghost<Slack>,
    )
        requires
            old(buffer_pool).at_rest(),
            t.types == key_schema.types(),
            t.params_ok(),
            t.limit == old(buffer_pool).page_count(),
            t.is_node(page_id),
            t.node_ok(page_id, slack),
            slack != Slack::Over(page_id),
            slack != Slack::Grown(page_id),
            t.pages[page_id] == page@,
        ensures
            final(buffer_pool).at_rest(),
            final(buffer_pool).capacity() == old(buffer_pool).capacity(),
            final(buffer_pool).page_count() == old(buffer_pool).page_count(),
            final(buffer_pool).tree_pages(t.types) == old(buffer_pool).tree_pages(t.types).insert(
                page_id,
                page@,
            ),
    {
        proof {
            match page@ {
                TreePageView::Leaf(leaf) => {
                    lemma_fits_fewer(
                        13,
                        t.leaf_max as int,
                        leaf.entries.len() as int,
                        crate::storage::codec::index_page_codec::leaf_entry_size(t.types),
                    );
                },
                TreePageView::Internal(node) => {
                    lemma_fits_fewer(
                        9,
                        t.internal_max as int,
                        node.entries.len() as int,
                        crate::storage::codec::index_page_codec::internal_entry_size(t.types),
                    );
                },
            }
        }
        match buffer_pool.write_tree_page(page_id, page, key_schema) {
            Ok(_) => {},
            Err(_) => {
                assert(false);
            },
        }
    }

    /// The pages to the left and to the right of a page under its parent.
    fn find_sibling_pages(&mut self, parent_page_id: PageId, child_page_id: PageId, Ghost(slack): Ghost<
        Slack,
    >) -> (res: Result<(Option<PageId>, Option<PageId>), BustubxError>)
        requires
            old(self).sound(slack),
            old(self).model().is_node(parent_page_id),
            old(self).model().g.level[parent_page_id] >= 1,
        ensures
            final(self).sound(slack),
            final(self).model() == old(self).model(),
            res is Ok,
            res->Ok_0 == old(self).model().internal(parent_page_id).siblings(child_page_id),
    {
        proof {
            assert(self.model().node_ok(parent_page_id, slack));
        }
        match self.buffer_pool.read_tree_page(parent_page_id, &self.key_schema) {
            Ok(BPlusTreePage::Internal(parent_page)) => Ok(parent_page.sibling_page_ids(child_page_id)),
            Ok(BPlusTreePage::Leaf(_)) => {
                assert(false);
                Err(BustubxError::Corrupt)
            },
            Err(e) => {
                assert(false);
                Err(e)
            },
        }
    }

    /// Lets a page with one entry too few have the first entry of the page
    /// to its right, if that page can spare one.
    fn borrow_min_kv(&mut self, parent_page_id: PageId, page_id: PageId, borrowed_page_id: PageId) -> (res:
        Result<bool, BustubxError>)
        requires
            old(self).sound(Slack::Under(page_id)),
            old(self).model().link_ok(parent_page_id, page_id),
            old(self).model().pages[page_id].size() < min_size_of(
                old(self).model().pages[page_id].max_size(),
            ),
            ({
                let t = old(self).model();
                let entries = t.internal(parent_page_id).entries;
                let i = child_index(entries, page_id, 0);
                i + 1 < entries.len() && entries[i + 1].1 == borrowed_page_id
            }),
        ensures
            res is Ok,
            final(self).model().types == old(self).model().types,
            final(self).model().leaf_max == old(self).model().leaf_max,
            final(self).model().internal_max == old(self).model().internal_max,
            res->Ok_0 == (old(self).model().pages[borrowed_page_id].size() > min_size_of(
                old(self).model().pages[borrowed_page_id].max_size(),
            )),
            !res->Ok_0 ==> final(self).model() == old(self).model() && final(self).sound(
                Slack::Under(page_id),
            ),
            res->Ok_0 ==> final(self).model() == old(self).model().lend_right(
                parent_page_id,
                child_index(old(self).model().internal(parent_page_id).entries, page_id, 0),
            ),
            res->Ok_0 ==> final(self).sound(Slack::Tight) && forall|k: Key, r: RecordId|
                #[trigger] final(self).model().stored(k, r) == old(self).model().stored(k, r),
    {
        self.borrow(parent_page_id, page_id, borrowed_page_id, true)
    }

    /// Lets a page with one entry too few have the last entry of the page to
    /// its left, if that page can spare one.
    fn borrow_max_kv(&mut self, parent_page_id: PageId, page_id: PageId, borrowed_page_id: PageId) -> (res:
        Result<bool, BustubxError>)
        requires
            old(self).sound(Slack::Under(page_id)),
            old(self).model().link_ok(parent_page_id, page_id),
            old(self).model().pages[page_id].size() < min_size_of(
                old(self).model().pages[page_id].max_size(),
            ),
            ({
                let t = old(self).model();
                let entries = t.internal(parent_page_id).entries;
                let i = child_index(entries, page_id, 0);
                i >= 1 && entries[i - 1].1 == borrowed_page_id
            }),
        ensures
            res is Ok,
            final(self).model().types == old(self).model().types,
            final(self).model().leaf_max == old(self).model().leaf_max,
            final(self).model().internal_max == old(self).model().internal_max,
            res->Ok_0 == (old(self).model().pages[borrowed_page_id].size() > min_size_of(
                old(self).model().pages[borrowed_page_id].max_size(),
            )),
            !res->Ok_0 ==> final(self).model() == old(self).model() && final(self).sound(
                Slack::Under(page_id),
            ),
            res->Ok_0 ==> final(self).model() == old(self).model().lend_left(
                parent_page_id,
                child_index(old(self).model().internal(parent_page_id).entries, page_id, 0),
            ),
            res->Ok_0 ==> final(self).sound(Slack::Tight) && forall|k: Key, r: RecordId|
                #[trigger] final(self).model().stored(k, r) == old(self).model().stored(k, r),
    {
        self.borrow(parent_page_id, page_id, borrowed_page_id, false)
    }

    /// Lets a page with one entry too few have an entry of a neighbour under
    /// the same parent, if the neighbour can spare one: the first entry of
    /// the page to its right where `min_max` is true, the last of the page to
    /// its left where it is false. The parent gets the key at which the right
    /// one of the two pages now starts.
    fn borrow(&mut self, parent_page_id: PageId, page_id: PageId, borrowed_page_id: PageId, min_max: bool) -> (res:
        Result<bool, BustubxError>)
        requires
            old(self).sound(Slack::Under(page_id)),
            old(self).model().link_ok(parent_page_id, page_id),
            old(self).model().pages[page_id].size() < min_size_of(
                old(self).model().pages[page_id].max_size(),
            ),
            ({
                let t = old(self).model();
                let entries = t.internal(parent_page_id).entries;
                let i = child_index(entries, page_id, 0);
                if min_max {
                    i + 1 < entries.len() && entries[i + 1].1 == borrowed_page_id
                } else {
                    i >= 1 && entries[i - 1].1 == borrowed_page_id
                }
            }),
        ensures
            res is Ok,
            final(self).model().types == old(self).model().types,
            final(self).model().leaf_max == old(self).model().leaf_max,
            final(self).model().internal_max == old(self).model().internal_max,
            res->Ok_0 == (old(self).model().pages[borrowed_page_id].size() > min_size_of(
                old(self).model().pages[borrowed_page_id].max_size(),
            )),
            !res->Ok_0 ==> final(self).model() == old(self).model() && final(self).sound(
                Slack::Under(page_id),
            ),
            res->Ok_0 ==> final(self).model() == if min_max {
                old(self).model().lend_right(
                    parent_page_id,
                    child_index(old(self).model().internal(parent_page_id).entries, page_id, 0),
                )
            } else {
                old(self).model().lend_left(
                    parent_page_id,
                    child_index(old(self).model().internal(parent_page_id).entries, page_id, 0),
                )
            },
            res->Ok_0 ==> final(self).sound(Slack::Tight) && forall|k: Key, r: RecordId|
                #[trigger] final(self).model().stored(k, r) == old(self).model().stored(k, r),
    {
        let ghost t = self.model();
        let ghost slack = Slack::Under(page_id);
        let ghost i = child_index(t.internal(parent_page_id).entries, page_id, 0);
        proof {
            lemma_child_index(t.internal(parent_page_id).entries, page_id, 0);
            assert(t.node_ok(parent_page_id, slack));
            assert(t.child_ok(parent_page_id, i));
            if min_max {
                assert(t.child_ok(parent_page_id, i + 1));
            } else {
                assert(t.child_ok(parent_page_id, i - 1));
            }
            assert(t.is_node(borrowed_page_id));
            assert(t.node_ok(borrowed_page_id, slack));
            assert(t.node_ok(page_id, slack));
        }
        let borrowed_tree_page = match self.buffer_pool.read_tree_page(
            borrowed_page_id,
            &self.key_schema,
        ) {
            Ok(page) => page,
            Err(e) => {
                assert(false);
                return Err(e);
            },
        };
        if !borrowed_tree_page.can_borrow() {
            return Ok(false);
        }
        let tree_page = match self.buffer_pool.read_tree_page(page_id, &self.key_schema) {
            Ok(page) => page,
            Err(e) => {
                assert(false);
                return Err(e);
            },
        };
        let mut parent_page = match self.buffer_pool.read_tree_page(
            parent_page_id,
            &self.key_schema,
        ) {
            Ok(BPlusTreePage::Internal(page)) => page,
            Ok(BPlusTreePage::Leaf(_)) => {
                assert(false);
                return Err(BustubxError::Corrupt);
            },
            Err(e) => {
                assert(false);
                return Err(e);
            },
        };
        let idx: usize = match parent_page.index_of(page_id) {
            Some(idx) => idx,
            None => {
                assert(false);
                return Err(BustubxError::Corrupt);
            },
        };
        match (borrowed_tree_page, tree_page) {
            (BPlusTreePage::Leaf(mut borrowed_leaf), BPlusTreePage::Leaf(mut leaf)) => {
                let ghost after;
                if min_max {
                    let kv = borrowed_leaf.take_first();
                    leaf.push_back(kv);
                    parent_page.set_key_at(idx + 1, borrowed_leaf.key_at(0).duplicate());
                    proof {
                        after = t.borrow_leaf_right(parent_page_id, i);
                        t.lemma_borrow_leaf_right(parent_page_id, i);
                        assert forall|k: Key, r: RecordId| #[trigger]
                            after.stored(k, r) == t.stored(k, r) by {
                            t.lemma_borrow_leaf_right_stored(slack, parent_page_id, i, k, r);
                        }
                        assert(after.leaf(borrowed_page_id).entries =~= borrowed_leaf@.entries);
                        assert(after.internal(parent_page_id).entries =~= parent_page@.entries);
                    }
                } else {
                    let kv = borrowed_leaf.take_last();
                    let moved_key = kv.0.duplicate();
                    leaf.push_front(kv);
                    parent_page.set_key_at(idx, moved_key);
                    proof {
                        after = t.borrow_leaf_left(parent_page_id, i);
                        t.lemma_borrow_leaf_left(parent_page_id, i);
                        assert forall|k: Key, r: RecordId| #[trigger]
                            after.stored(k, r) == t.stored(k, r) by {
                            t.lemma_borrow_leaf_left_stored(slack, parent_page_id, i, k, r);
                        }
                        assert(after.leaf(page_id).entries =~= leaf@.entries);
                        assert(after.internal(parent_page_id).entries =~= parent_page@.entries);
                    }
                }
                let page = BPlusTreePage::Leaf(leaf);
                let borrowed_page = BPlusTreePage::Leaf(borrowed_leaf);
                let parent = BPlusTreePage::Internal(parent_page);
                proof {
                    assert(after.is_node(page_id));
                    assert(after.is_node(borrowed_page_id));
                    assert(after.is_node(parent_page_id));
                    assert(after.node_ok(page_id, Slack::Tight));
                    assert(after.node_ok(borrowed_page_id, Slack::Tight));
                    assert(after.node_ok(parent_page_id, Slack::Tight));
                }
                BPlusTreeIndex::write_node(
                    &mut self.buffer_pool,
                    &self.key_schema,
                    page_id,
                    &page,
                    Ghost(after),
                    Ghost(Slack::Tight),
                );
                BPlusTreeIndex::write_node(
                    &mut self.buffer_pool,
                    &self.key_schema,
                    borrowed_page_id,
                    &borrowed_page,
                    Ghost(after),
                    Ghost(Slack::Tight),
                );
                BPlusTreeIndex::write_node(
                    &mut self.buffer_pool,
                    &self.key_schema,
                    parent_page_id,
                    &parent,
                    Ghost(after),
                    Ghost(Slack::Tight),
                );
                self.shape = Ghost(after.g);
                proof {
                    assert(self.model().pages =~= after.pages);
                    assert(self.model() == after);
                }
                Ok(true)
            },
            (
                BPlusTreePage::Internal(mut borrowed_internal),
                BPlusTreePage::Internal(mut internal),
            ) => {
                let ghost after;
                let ghost pages0 = self.buffer_pool.tree_pages(t.types);
                if min_max {
                    let next_first: PageId = borrowed_internal.value_at(1);
                    proof {
                        assert(t.child_ok(borrowed_page_id, 1));
                        assert(t.child_ok(borrowed_page_id, 0));
                        t.lemma_leftmost(slack, t.pages, next_first, t.g.level[next_first] + 1);
                        assert(t.node_ok(t.g.fl[next_first], slack));
                        assert(t.node_ok(next_first, slack));
                        assert(t.is_node(t.root));
                    }
                    let min_kv = match BPlusTreeIndex::find_subtree_min_leafkv(
                        &mut self.buffer_pool,
                        &self.key_schema,
                        next_first,
                        Ghost(t),
                        Ghost(slack),
                    ) {
                        Ok(kv) => kv,
                        Err(e) => {
                            assert(false);
                            return Err(e);
                        },
                    };
                    let w = borrowed_internal.remove_at(0);
                    let old_sep = parent_page.key_at(idx + 1).duplicate();
                    internal.push(old_sep, w.1);
                    parent_page.set_key_at(idx + 1, min_kv.0);
                    proof {
                        after = t.borrow_internal_right(parent_page_id, i, min_kv.0@);
                        t.lemma_borrow_internal_right(parent_page_id, i, min_kv.0@);
                        assert forall|k: Key, r: RecordId| #[trigger]
                            after.stored(k, r) == t.stored(k, r) by {
                            t.lemma_inner_stored(after, INVALID_PAGE_ID, k, r);
                        }
                        assert(after.internal(borrowed_page_id).entries =~= borrowed_internal@.entries);
                        assert(after.internal(page_id).entries =~= internal@.entries);
                        assert(after.internal(parent_page_id).entries =~= parent_page@.entries);
                    }
                } else {
                    let last: usize = borrowed_internal.current_size() - 1;
                    let moved_child: PageId = borrowed_internal.value_at(last);
                    proof {
                        assert(t.child_ok(borrowed_page_id, last as int));
                        t.lemma_leftmost(slack, t.pages, moved_child, t.g.level[moved_child] + 1);
                        assert(t.node_ok(t.g.fl[moved_child], slack));
                        assert(t.node_ok(moved_child, slack));
                        assert(t.is_node(t.root));
                    }
                    let min_kv = match BPlusTreeIndex::find_subtree_min_leafkv(
                        &mut self.buffer_pool,
                        &self.key_schema,
                        moved_child,
                        Ghost(t),
                        Ghost(slack),
                    ) {
                        Ok(kv) => kv,
                        Err(e) => {
                            assert(false);
                            return Err(e);
                        },
                    };
                    let w = borrowed_internal.remove_at(last);
                    let old_sep = parent_page.key_at(idx).duplicate();
                    internal.set_key_at(0, old_sep);
                    internal.insert_at(0, w.0, w.1);
                    parent_page.set_key_at(idx, min_kv.0);
                    proof {
                        after = t.borrow_internal_left(parent_page_id, i, min_kv.0@);
                        t.lemma_borrow_internal_left(parent_page_id, i, min_kv.0@);
                        assert forall|k: Key, r: RecordId| #[trigger]
                            after.stored(k, r) == t.stored(k, r) by {
                            t.lemma_inner_stored(after, INVALID_PAGE_ID, k, r);
                        }
                        assert(after.internal(borrowed_page_id).entries =~= borrowed_internal@.entries);
                        assert(after.internal(page_id).entries =~= internal@.entries);
                        assert(after.internal(parent_page_id).entries =~= parent_page@.entries);
                    }
                }
                let page = BPlusTreePage::Internal(internal);
                let borrowed_page = BPlusTreePage::Internal(borrowed_internal);
                let parent = BPlusTreePage::Internal(parent_page);
                proof {
                    assert(after.is_node(page_id));
                    assert(after.is_node(borrowed_page_id));
                    assert(after.is_node(parent_page_id));
                    assert(after.node_ok(page_id, Slack::Tight));
                    assert(after.node_ok(borrowed_page_id, Slack::Tight));
                    assert(after.node_ok(parent_page_id, Slack::Tight));
                }
                BPlusTreeIndex::write_node(
                    &mut self.buffer_pool,
                    &self.key_schema,
                    page_id,
                    &page,
                    Ghost(after),
                    Ghost(Slack::Tight),
                );
                BPlusTreeIndex::write_node(
                    &mut self.buffer_pool,
                    &self.key_schema,
                    borrowed_page_id,
                    &borrowed_page,
                    Ghost(after),
                    Ghost(Slack::Tight),
                );
                BPlusTreeIndex::write_node(
                    &mut self.buffer_pool,
                    &self.key_schema,
                    parent_page_id,
                    &parent,
                    Ghost(after),
                    Ghost(Slack::Tight),
                );
                self.shape = Ghost(after.g);
                proof {
                    assert(self.model().pages =~= after.pages);
                    assert(self.model() == after);
                }
                Ok(true)
            },
            _ => {
                assert(false);
                Err(BustubxError::Corrupt)
            },
        }
    }

    /// Merges a page into the page to its left under the same parent, gives
    /// the page up, and takes it out of the parent. Where the parent is the
    /// root and has one child left, that child becomes the root and the
    /// parent is given up. Returns the page at which rebalancing goes on: the
    /// new root, or the parent.
    fn merge(
        &mut self,
        parent_page_id: PageId,
        left_page_id: PageId,
        right_page_id: PageId,
        Ghost(before_slack): Ghost<Slack>,
    ) -> (res: Result<PageId, BustubxError>)
        requires
            old(self).sound(before_slack),
            before_slack == Slack::Under(left_page_id) || before_slack == Slack::Under(
                right_page_id,
            ),
            old(self).model().link_ok(parent_page_id, left_page_id),
            ({
                let t = old(self).model();
                let entries = t.internal(parent_page_id).entries;
                let i = child_index(entries, left_page_id, 0);
                &&& i + 1 < entries.len()
                &&& entries[i + 1].1 == right_page_id
                &&& t.pages[left_page_id].size() + t.pages[right_page_id].size()
                    <= t.pages[left_page_id].max_size()
                &&& t.pages[left_page_id].size() + t.pages[right_page_id].size() >= min_size_of(
                    t.pages[left_page_id].max_size(),
                )
                &&& t.g.level[parent_page_id] >= 2 ==> t.pages[left_page_id].size()
                    + t.pages[right_page_id].size() >= 2
            }),
        ensures
            res is Ok,
            final(self).model().types == old(self).model().types,
            final(self).model().leaf_max == old(self).model().leaf_max,
            final(self).model().internal_max == old(self).model().internal_max,
            final(self).model().limit == old(self).model().limit,
            forall|k: Key, r: RecordId|
                #[trigger] final(self).model().stored(k, r) == old(self).model().stored(k, r),
            final(self).model() == old(self).model().merged_up(
                parent_page_id,
                child_index(old(self).model().internal(parent_page_id).entries, left_page_id, 0),
            ),
            ({
                let t = old(self).model();
                let collapse = parent_page_id == t.root && t.internal(parent_page_id).entries.len()
                    == 2;
                &&& collapse ==> res->Ok_0 == left_page_id && final(self).sound(Slack::Tight)
                    && final(self).model().root == left_page_id
                &&& !collapse ==> {
                    &&& res->Ok_0 == parent_page_id
                    &&& final(self).sound(Slack::Under(parent_page_id))
                    &&& final(self).model().root == t.root
                    &&& forall|z: PageId|
                        #[trigger] t.is_node(z) && t.g.level[z] > t.g.level[left_page_id]
                            ==> final(self).model().is_node(z) && final(self).model().g.level[z]
                            == t.g.level[z] && final(self).model().g.parent[z] == t.g.parent[z]
                    &&& forall|z: PageId|
                        #[trigger] t.is_node(z) && t.g.level[z] > t.g.level[left_page_id] + 1
                            ==> final(self).model().pages.contains_key(z) == t.pages.contains_key(z)
                            && final(self).model().pages[z] == t.pages[z]
                }
            }),
    {
        let ghost t = self.model();
        let ghost i = child_index(t.internal(parent_page_id).entries, left_page_id, 0);
        let ghost pool0 = self.buffer_pool;
        proof {
            lemma_child_index(t.internal(parent_page_id).entries, left_page_id, 0);
            assert(t.node_ok(parent_page_id, before_slack));
            assert(t.child_ok(parent_page_id, i));
            assert(t.child_ok(parent_page_id, i + 1));
            assert(t.is_node(right_page_id));
            assert(t.node_ok(right_page_id, before_slack));
            assert(t.node_ok(left_page_id, before_slack));
            assert(t.is_node(t.root));
        }
        let left_tree_page = match self.buffer_pool.read_tree_page(left_page_id, &self.key_schema) {
            Ok(page) => page,
            Err(e) => {
                assert(false);
                return Err(e);
            },
        };
        let right_tree_page = match self.buffer_pool.read_tree_page(
            right_page_id,
            &self.key_schema,
        ) {
            Ok(page) => page,
            Err(e) => {
                assert(false);
                return Err(e);
            },
        };
        let ghost merged;
        let left_page = match (left_tree_page, right_tree_page) {
            (BPlusTreePage::Internal(mut left_internal), BPlusTreePage::Internal(right_internal)) => {
                let first_child: PageId = right_internal.value_at(0);
                proof {
                    assert(t.child_ok(right_page_id, 0));
                    t.lemma_leftmost(before_slack, t.pages, first_child, t.g.level[first_child] + 1);
                    assert(t.node_ok(t.g.fl[first_child], before_slack));
                    assert(t.node_ok(first_child, before_slack));
                }
                let min_kv = match BPlusTreeIndex::find_subtree_min_leafkv(
                    &mut self.buffer_pool,
                    &self.key_schema,
                    first_child,
                    Ghost(t),
                    Ghost(before_slack),
                ) {
                    Ok(kv) => kv,
                    Err(e) => {
                        assert(false);
                        return Err(e);
                    },
                };
                let mut right_internal = right_internal;
                right_internal.set_key_at(0, min_kv.0);
                let ghost right_entries = right_internal@.entries;
                left_internal.batch_insert(right_internal.array);
                proof {
                    merged = t.merge_internals(parent_page_id, i, min_kv.0@);
                    t.lemma_merge_internals(before_slack, parent_page_id, i, min_kv.0@);
                    assert forall|k: Key, r: RecordId| #[trigger]
                        merged.stored(k, r) == t.stored(k, r) by {
                        t.lemma_inner_stored(merged, right_page_id, k, r);
                    }
                    assert(merged.internal(left_page_id).entries =~= left_internal@.entries);
                }
                BPlusTreePage::Internal(left_internal)
            },
            (BPlusTreePage::Leaf(mut left_leaf), BPlusTreePage::Leaf(right_leaf)) => {
                left_leaf.next_page_id = right_leaf.next_page_id;
                left_leaf.batch_insert(right_leaf.array);
                proof {
                    merged = t.merge_leaves(parent_page_id, i);
                    t.lemma_merge_leaves(before_slack, parent_page_id, i);
                    assert forall|k: Key, r: RecordId| #[trigger]
                        merged.stored(k, r) == t.stored(k, r) by {
                        t.lemma_merge_leaves_stored(before_slack, parent_page_id, i, k, r);
                    }
                    assert(merged.leaf(left_page_id).entries =~= left_leaf@.entries);
                }
                BPlusTreePage::Leaf(left_leaf)
            },
            _ => {
                assert(false);
                return Err(BustubxError::Corrupt);
            },
        };
        let ghost slack = t.slack_after_merge(parent_page_id, i);
        proof {
            assert(merged.ok(slack));
            assert(merged.is_node(left_page_id));
            assert(merged.node_ok(left_page_id, slack));
            assert(self.buffer_pool.tree_pages(t.types) == t.pages);
        }
        let ghost written = TreeModel { pages: t.pages.insert(left_page_id, left_page@), ..merged };
        proof {
            assert(written.node_ok(left_page_id, Slack::Tight)) by {
                if merged.g.level[left_page_id] == 0 {
                    assert forall|j: int|
                        0 <= j < written.leaf(left_page_id).entries.len() implies #[trigger] written.leaf_entry_ok(
                        left_page_id,
                        j,
                    ) by {
                        assert(merged.leaf_entry_ok(left_page_id, j));
                    }
                } else {
                    assert forall|j: int|
                        0 <= j < written.internal(left_page_id).entries.len() implies #[trigger] written.child_ok(
                        left_page_id,
                        j,
                    ) by {
                        assert(merged.child_ok(left_page_id, j));
                    }
                }
            }
        }
        BPlusTreeIndex::write_node(
            &mut self.buffer_pool,
            &self.key_schema,
            left_page_id,
            &left_page,
            Ghost(written),
            Ghost(Slack::Tight),
        );
        let ghost pool1 = self.buffer_pool;
        self.buffer_pool.discard_page(right_page_id);
        proof {
            pool1.lemma_tree_pages_discarded(&self.buffer_pool, t.types, right_page_id);
        }
        let mut parent_page = match self.buffer_pool.read_tree_page(
            parent_page_id,
            &self.key_schema,
        ) {
            Ok(BPlusTreePage::Internal(page)) => page,
            Ok(BPlusTreePage::Leaf(_)) => {
                assert(false);
                return Err(BustubxError::Corrupt);
            },
            Err(e) => {
                assert(false);
                return Err(e);
            },
        };
        proof {
            assert(parent_page@ == t.internal(parent_page_id));
            lemma_child_index(t.internal(parent_page_id).entries, right_page_id, 0);
        }
        let idx: usize = match parent_page.index_of(right_page_id) {
            Some(idx) => idx,
            None => {
                assert(false);
                return Err(BustubxError::Corrupt);
            },
        };
        proof {
            assert(idx == i + 1) by {
                let entries = t.internal(parent_page_id).entries;
                if idx < i + 1 {
                    assert(entries[idx as int].1 != entries[i + 1].1);
                }
            }
        }
        parent_page.remove_at(idx);
        proof {
            assert(merged.internal(parent_page_id).entries =~= parent_page@.entries);
        }
        if parent_page_id == self.root_page_id && parent_page.current_size() == 1 {
            self.root_page_id = left_page_id;
            let ghost pool2 = self.buffer_pool;
            self.buffer_pool.discard_page(parent_page_id);
            proof {
                pool2.lemma_tree_pages_discarded(&self.buffer_pool, t.types, parent_page_id);
                merged.lemma_collapse_root();
                let collapsed = merged.collapse_root();
                assert forall|k: Key, r: RecordId| #[trigger]
                    collapsed.stored(k, r) == t.stored(k, r) by {
                    merged.lemma_collapse_root_stored(k, r);
                }
                self.shape@ = collapsed.g;
                assert(self.model().pages =~= collapsed.pages);
                assert(self.model() == collapsed);
            }
            Ok(left_page_id)
        } else {
            let parent = BPlusTreePage::Internal(parent_page);
            let ghost before_write = TreeModel {
                pages: self.buffer_pool.tree_pages(t.types).insert(parent_page_id, parent@),
                ..merged
            };
            proof {
                assert(before_write.pages =~= merged.pages);
                assert(before_write == merged);
                assert(merged.is_node(parent_page_id));
                assert(merged.node_ok(parent_page_id, slack));
            }
            BPlusTreeIndex::write_node(
                &mut self.buffer_pool,
                &self.key_schema,
                parent_page_id,
                &parent,
                Ghost(merged),
                Ghost(slack),
            );
            proof {
                self.shape@ = merged.g;
                assert(self.model().pages =~= merged.pages);
                assert(self.model() == merged);
                assert forall|z: PageId|
                    #[trigger] t.is_node(z) && t.g.level[z] > t.g.level[left_page_id]
                        implies merged.is_node(z) && merged.g.level[z] == t.g.level[z]
                    && merged.g.parent[z] == t.g.parent[z] by {
                    if t.g.level[left_page_id] >= 1 && t.moved(right_page_id, 0, z) {
                        let j = choose|j: int|
                            0 <= j < t.internal(right_page_id).entries.len()
                                && #[trigger] t.internal(right_page_id).entries[j].1 == z;
                        assert(t.child_ok(right_page_id, j));
                    }
                }
                assert forall|z: PageId|
                    #[trigger] t.is_node(z) && t.g.level[z] > t.g.level[left_page_id] + 1
                        implies merged.pages.contains_key(z) == t.pages.contains_key(z)
                    && merged.pages[z] == t.pages[z] by {
                    assert(t.node_ok(z, before_slack));
                }
            }
            Ok(parent_page_id)
        }
    }

    /// Takes the first entry with the key off the leaf that the key is routed
    /// to. A page that has then one entry too few borrows an entry from a
    /// neighbour under the same parent that can spare one, the left one
    /// first; where none can, it is merged with a neighbour, the left one
    /// first, and the parent is looked at in turn. A key that is not there
    /// changes nothing.
    pub fn delete(&mut self, key: &Tuple) -> (res: Result<(), BustubxError>)
        requires
            old(self).wf(),
        ensures
            final(self).model().types == old(self).model().types,
            final(self).model().leaf_max == old(self).model().leaf_max,
            final(self).model().internal_max == old(self).model().internal_max,
            res is Ok ==> final(self).wf(),
            res is Err ==> res->Err_0 == BustubxError::NoSibling && final(self).lopsided()
                && !final(self).wf(),
            old(self).model().internal_max >= 3 ==> res is Ok,
            forall|k: Key, r: RecordId|
                #[trigger] final(self).model().stored(k, r) ==> old(self).model().stored(k, r),
            forall|k: Key, r: RecordId|
                old(self).model().stored(k, r) && !(k == key@ && old(self).model().lookup(key@)
                    == Some(r)) ==> #[trigger] final(self).model().stored(k, r),
            old(self).model().lookup(key@) is None ==> res is Ok && final(self).model() == old(self).model(),
            res is Ok && old(self).model().key_once(key@) ==> final(self).model().lookup(key@) is None,
            final(self).model() == old(self).model().without_entry(key@),
    {
        if self.is_empty() {
            return Ok(());
        }
        let ghost t0 = self.model();
        let mut context = Context::new(self.root_page_id);
        let leaf_id: PageId = match self.find_leaf_page(key, &mut context) {
            Ok(Some(leaf_id)) => leaf_id,
            Ok(None) => {
                assert(false);
                return Err(BustubxError::Corrupt);
            },
            Err(e) => {
                assert(false);
                return Err(e);
            },
        };
        proof {
            assert(context.read_set@.subrange(0, context.read_set@.len() as int)
                =~= context.read_set@);
            assert(t0.node_ok(leaf_id, Slack::Tight));
        }
        let mut leaf_page = match self.buffer_pool.read_tree_page(leaf_id, &self.key_schema) {
            Ok(BPlusTreePage::Leaf(leaf_page)) => leaf_page,
            Ok(BPlusTreePage::Internal(_)) => {
                assert(false);
                return Err(BustubxError::Corrupt);
            },
            Err(e) => {
                assert(false);
                return Err(e);
            },
        };
        leaf_page.delete(key);
        let cur_page = BPlusTreePage::Leaf(leaf_page);
        let mut cur_id: PageId = leaf_id;
        let ghost t1 = t0.with_page(leaf_id, cur_page@);
        proof {
            t0.lemma_leaf_delete(leaf_id, key@);
            assert(t1.is_node(leaf_id));
            assert(t1.node_ok(leaf_id, Slack::Under(leaf_id)));
        }
        BPlusTreeIndex::write_node(
            &mut self.buffer_pool,
            &self.key_schema,
            leaf_id,
            &cur_page,
            Ghost(t1),
            Ghost(Slack::Under(leaf_id)),
        );
        let ghost gone = t0.lookup(key@) is Some && t0.key_once(key@);
        let ghost goal = t0.without_entry(key@);
        proof {
            assert(self.model().pages =~= t1.pages);
            assert(self.model() == t1);
            assert(goal == t1.rebalanced(context.read_set@, leaf_id));
            if t0.lookup(key@) is None {
                assert(t1.pages =~= t0.pages);
                assert(t1 == t0);
            }
            if gone {
                assert forall|r: RecordId| !t1.stored(key@, r) by {
                    t0.lemma_leaf_delete_gone(leaf_id, key@, r);
                }
            }
            assert forall|k: Key, r: RecordId| #[trigger] t1.stored(k, r) implies t0.stored(k, r) by {
                t0.lemma_leaf_delete_stored(leaf_id, key@, k, r);
            }
            assert forall|k: Key, r: RecordId|
                t0.stored(k, r) && !(k == key@ && t0.lookup(key@) == Some(r)) implies #[trigger] t1.stored(
                k,
                r,
            ) by {
                t0.lemma_leaf_delete_stored(leaf_id, key@, k, r);
            }
            assert forall|j: int| 0 <= j < context.read_set@.len() implies #[trigger] t1.step_ok(
                context.read_set@,
                j,
                leaf_id,
            ) by {
                assert(t0.step_ok(context.read_set@, j, leaf_id));
                assert(t0.node_ok(context.read_set@[j], Slack::Tight));
            }
        }
        loop
            invariant
                self.sound(Slack::Under(cur_id)),
                self.model().is_node(cur_id),
                self.model().path_ok(context.read_set@, cur_id),
                goal == self.model().rebalanced(context.read_set@, cur_id),
                goal == t0.without_entry(key@),
                self.model().types == t0.types,
                self.model().leaf_max == t0.leaf_max,
                self.model().internal_max == t0.internal_max,
                forall|k: Key, r: RecordId|
                    #[trigger] self.model().stored(k, r) == t1.stored(k, r),
                t0 == old(self).model(),
                t0.ok(Slack::Tight),
                t0.lookup(key@) is None ==> self.model() == t0,
                gone == (t0.lookup(key@) is Some && t0.key_once(key@)),
                gone ==> forall|r: RecordId| !t1.stored(key@, r),
                forall|k: Key, r: RecordId| #[trigger] t1.stored(k, r) ==> t0.stored(k, r),
                forall|k: Key, r: RecordId|
                    t0.stored(k, r) && !(k == key@ && t0.lookup(key@) == Some(r))
                        ==> #[trigger] t1.stored(k, r),
            decreases context.read_set@.len(),
        {
            proof {
                assert(self.model().node_ok(cur_id, Slack::Under(cur_id)));
            }
            let cur_page = match self.buffer_pool.read_tree_page(cur_id, &self.key_schema) {
                Ok(page) => page,
                Err(e) => {
                    assert(false);
                    return Err(e);
                },
            };
            if !cur_page.is_underflow(self.root_page_id == cur_id) {
                proof {
                    assert(!self.model().short(cur_id));
                    assert(self.model().rebalanced(context.read_set@, cur_id) == self.model());
                    self.model().lemma_tighten(Slack::Under(cur_id));
                    if gone && self.model().lookup(key@) is Some {
                        self.model().lemma_lookup_sound(Slack::Tight, key@);
                    }
                }
                return Ok(());
            }
            proof {
                if t0.lookup(key@) is None {
                    assert(t0.node_ok(cur_id, Slack::Tight));
                    assert(false);
                }
            }
            match self.rebalance_step(&mut context, cur_id) {
                Ok(Some(next_page_id)) => {
                    cur_id = next_page_id;
                },
                Ok(None) => {
                    proof {
                        if gone && self.model().lookup(key@) is Some {
                            self.model().lemma_lookup_sound(Slack::Tight, key@);
                        }
                    }
                    return Ok(());
                },
                Err(e) => {
                    proof {
                        if self.model().ok(Slack::Tight) {
                            assert(self.model().node_ok(cur_id, Slack::Tight));
                        }
                    }
                    return Err(e);
                },
            }
        }
    }

    /// Brings one page with one entry too few into balance: by borrowing from
    /// the page to its left or to its right, else by merging it with one of
    /// them. Returns the page that is to be looked at next, if there is one.
    fn rebalance_step(&mut self, context: &mut Context, cur_id: PageId) -> (res: Result<
        Option<PageId>,
        BustubxError,
    >)
        requires
            old(self).sound(Slack::Under(cur_id)),
            old(self).model().is_node(cur_id),
            old(self).model().short(cur_id),
            old(self).model().path_ok(old(context).read_set@, cur_id),
        ensures
            final(self).model().types == old(self).model().types,
            final(self).model().leaf_max == old(self).model().leaf_max,
            final(self).model().internal_max == old(self).model().internal_max,
            forall|k: Key, r: RecordId|
                #[trigger] final(self).model().stored(k, r) == old(self).model().stored(k, r),
            old(context).read_set@.len() > 0,
            final(context).read_set@ == old(context).read_set@.drop_last(),
            match res {
                Ok(Some(next)) => {
                    &&& final(self).sound(Slack::Under(next))
                    &&& final(self).model().is_node(next)
                    &&& final(self).model().path_ok(final(context).read_set@, next)
                    &&& old(self).model().rebalanced(old(context).read_set@, cur_id) == final(self).model().rebalanced(final(context).read_set@, next)
                },
                Ok(None) => {
                    &&& final(self).sound(Slack::Tight)
                    &&& old(self).model().rebalanced(old(context).read_set@, cur_id) == final(self).model()
                },
                Err(e) => {
                    &&& e == BustubxError::NoSibling
                    &&& final(self).model() == old(self).model()
                    &&& final(self).model().short(cur_id)
                    &&& final(self).sound(Slack::Under(cur_id))
                    &&& old(self).model().internal_max < 3
                    &&& old(self).model().rebalanced(old(context).read_set@, cur_id) == old(self).model()
                },
            },
    {
        let ghost t = self.model();
        let ghost slack = Slack::Under(cur_id);
        let ghost path = context.read_set@;
        let parent_page_id: PageId = match context.read_set.pop_back() {
            Some(parent_page_id) => parent_page_id,
            None => {
                assert(false);
                return Err(BustubxError::Corrupt);
            },
        };
        proof {
            assert(t.step_ok(path, path.len() - 1, cur_id));
            assert(t.link_ok(parent_page_id, cur_id));
            assert(t.node_ok(parent_page_id, slack));
            assert(t.node_ok(cur_id, slack));
            lemma_child_index(t.internal(parent_page_id).entries, cur_id, 0);
            assert(path.drop_last() =~= context.read_set@);
        }
        let ghost i = child_index(t.internal(parent_page_id).entries, cur_id, 0);
        let (left_sibling_page_id, right_sibling_page_id) = match self.find_sibling_pages(
            parent_page_id,
            cur_id,
            Ghost(slack),
        ) {
            Ok(siblings) => siblings,
            Err(e) => {
                assert(false);
                return Err(e);
            },
        };
        proof {
            if i > 0 {
                assert(t.child_ok(parent_page_id, i - 1));
                assert(t.node_ok(t.internal(parent_page_id).entries[i - 1].1, slack));
            }
            if i + 1 < t.internal(parent_page_id).entries.len() {
                assert(t.child_ok(parent_page_id, i + 1));
                assert(t.node_ok(t.internal(parent_page_id).entries[i + 1].1, slack));
            }
            assert(t.child_ok(parent_page_id, i));
        }
        match left_sibling_page_id {
            Some(left_sibling_page_id) => {
                match self.borrow_max_kv(parent_page_id, cur_id, left_sibling_page_id) {
                    Ok(true) => {
                        return Ok(None);
                    },
                    Ok(false) => {},
                    Err(e) => {
                        assert(false);
                        return Err(e);
                    },
                }
            },
            None => {},
        }
        match right_sibling_page_id {
            Some(right_sibling_page_id) => {
                match self.borrow_min_kv(parent_page_id, cur_id, right_sibling_page_id) {
                    Ok(true) => {
                        return Ok(None);
                    },
                    Ok(false) => {},
                    Err(e) => {
                        assert(false);
                        return Err(e);
                    },
                }
            },
            None => {},
        }
        let merged = match left_sibling_page_id {
            Some(left_sibling_page_id) => {
                proof {
                    BPlusTreeIndex::lemma_child_found(
                        t.internal(parent_page_id).entries,
                        left_sibling_page_id,
                        i - 1,
                    );
                }
                self.merge(parent_page_id, left_sibling_page_id, cur_id, Ghost(slack))
            },
            None => match right_sibling_page_id {
                Some(right_sibling_page_id) => {
                    self.merge(parent_page_id, cur_id, right_sibling_page_id, Ghost(slack))
                },
                None => {
                    proof {
                        assert(t.internal(parent_page_id).entries.len() == 1);
                        assert(t.internal_max < 3);
                    }
                    return Err(BustubxError::NoSibling);
                },
            },
        };
        let new_parent_page_id: PageId = match merged {
            Ok(page_id) => page_id,
            Err(e) => {
                assert(false);
                return Err(e);
            },
        };
        proof {
            let after = self.model();
            let collapse = parent_page_id == t.root && t.internal(parent_page_id).entries.len() == 2;
            if collapse {
                after.lemma_loosen(Slack::Under(new_parent_page_id));
                assert(after.is_node(after.root));
                assert(path.len() == 1) by {
                    assert(t.step_ok(path, 0, cur_id));
                    assert(t.step_ok(path, path.len() - 1, cur_id));
                }
            } else {
                t.lemma_path_up(after, path, cur_id);
            }
        }
        Ok(Some(new_parent_page_id))
    }

    /// A child that stands at a place among the entries where no earlier
    /// entry has the same child is found at that place.
    proof fn lemma_child_found(entries: Seq<(Key, PageId)>, c: PageId, j: int)
        requires
            0 <= j < entries.len(),
            entries[j].1 == c,
            forall|a: int, b: int| 0 <= a < b < entries.len() ==> entries[a].1 != entries[b].1,
        ensures
            child_index(entries, c, 0) == j,
    {
        lemma_child_index(entries, c, 0);
        let f = child_index(entries, c, 0);
        if f < j {
            assert(entries[f].1 != entries[j].1);
        }
    }
}

/// A bound on keys as a value.
pub open spec fn bound_view(bound: Bound<Tuple>) -> Bound<Key> {
    match bound {
        Bound::Included(key) => Bound::Included(key@),
        Bound::Excluded(key) => Bound::Excluded(key@),
        Bound::Unbounded => Bound::Unbounded,
    }
}

/// What reading the leaf under a page id gives: nothing for
/// `INVALID_PAGE_ID`, an error for a page that is no leaf.
pub open spec fn leaf_at(t: TreeModel, page_id: PageId) -> Result<Option<LeafView>, BustubxError> {
    if page_id == INVALID_PAGE_ID {
        Ok(None)
    } else if t.pages.contains_key(page_id) {
        match t.pages[page_id] {
            TreePageView::Leaf(leaf) => Ok(Some(leaf)),
            TreePageView::Internal(_) => Err(BustubxError::Corrupt),
        }
    } else if 1 <= page_id <= t.limit {
        Err(BustubxError::Corrupt)
    } else {
        Err(BustubxError::Io)
    }
}

/// Where a cursor stands and what it gave on the way there.
pub struct Landing {
    pub result: Result<Option<RecordId>, BustubxError>,
    pub leaf: LeafView,
    pub cursor: int,
}

/// A cursor over the record ids of an index whose keys lie between two
/// bounds, in key order. It holds a copy of the leaf it stands on.
#[derive(Debug)]
pub struct TreeIndexIterator {
    start_bound: Bound<Tuple>,
    end_bound: Bound<Tuple>,
    leaf_page: BPlusTreeLeafPage,
    cursor: usize,
    started: bool,
}

impl TreeIndexIterator {
    pub closed spec fn start(&self) -> Bound<Key> {
        bound_view(self.start_bound)
    }

    pub closed spec fn end(&self) -> Bound<Key> {
        bound_view(self.end_bound)
    }

    /// The leaf the cursor stands on, as it was when the cursor came to it.
    pub closed spec fn leaf(&self) -> LeafView {
        self.leaf_page@
    }

    /// The place on the leaf where the cursor stands.
    pub closed spec fn cursor(&self) -> int {
        self.cursor as int
    }

    pub closed spec fn started(&self) -> bool {
        self.started
    }

    /// Whether a key is within the upper bound.
    pub open spec fn within_end(&self, key: Key) -> bool {
        match self.end() {
            Bound::Included(end) => key_le(key, end),
            Bound::Excluded(end) => key_lt(key, end),
            Bound::Unbounded => true,
        }
    }

    /// What the entry at a place gives: its record id, if the place is on the
    /// leaf and the key is within the upper bound.
    pub open spec fn yield_at(&self, leaf: LeafView, cursor: int) -> Option<RecordId> {
        if 0 <= cursor < leaf.entries.len() && self.within_end(leaf.entries[cursor].0) {
            Some(leaf.entries[cursor].1)
        } else {
            None
        }
    }

    /// Going on from the end of a leaf: to the first entry of the leaf that
    /// follows; where none follows, the cursor stays.
    pub open spec fn beyond(&self, t: TreeModel, leaf: LeafView, cursor: int) -> Landing {
        match leaf_at(t, leaf.next_page_id) {
            Ok(Some(next_leaf)) => Landing {
                result: Ok(self.yield_at(next_leaf, 0)),
                leaf: next_leaf,
                cursor: 0,
            },
            Ok(None) => Landing { result: Ok(None), leaf, cursor },
            Err(e) => Landing { result: Err(e), leaf, cursor },
        }
    }

    /// What the next step of the cursor gives and where it leaves the
    /// cursor. The first step goes to the first entry at or after the lower
    /// bound, every other to the entry after the cursor.
    pub open spec fn landing(&self, t: TreeModel) -> Landing {
        if self.started() {
            if self.cursor() + 1 < self.leaf().entries.len() {
                Landing {
                    result: Ok(self.yield_at(self.leaf(), self.cursor() + 1)),
                    leaf: self.leaf(),
                    cursor: self.cursor() + 1,
                }
            } else {
                self.beyond(t, self.leaf(), self.cursor())
            }
        } else {
            match self.start() {
                Bound::Unbounded => if t.root == INVALID_PAGE_ID {
                    Landing {
                        result: Err(BustubxError::Io),
                        leaf: self.leaf(),
                        cursor: self.cursor(),
                    }
                } else {
                    let leaf = t.leaf(t.g.fl[t.root]);
                    Landing { result: Ok(self.yield_at(leaf, 0)), leaf, cursor: 0 }
                },
                Bound::Included(key) => self.landing_from(t, key, true),
                Bound::Excluded(key) => self.landing_from(t, key, false),
            }
        }
    }

    /// The first step of a cursor with a lower bound.
    pub open spec fn landing_from(&self, t: TreeModel, key: Key, included: bool) -> Landing {
        match t.leaf_for(key) {
            None => Landing { result: Ok(None), leaf: self.leaf(), cursor: self.cursor() },
            Some(x) => {
                let leaf = t.leaf(x);
                let c = closest_from(leaf.entries, key, included, 0);
                if c < leaf.entries.len() {
                    Landing { result: Ok(self.yield_at(leaf, c)), leaf, cursor: c }
                } else {
                    self.beyond(t, leaf, c)
                }
            },
        }
    }

    /// A cursor over the keys from `start_bound` to `end_bound` that has not
    /// started.
    pub fn new(start_bound: Bound<Tuple>, end_bound: Bound<Tuple>) -> (iterator: TreeIndexIterator)
        ensures
            iterator.start() == bound_view(start_bound),
            iterator.end() == bound_view(end_bound),
            !iterator.started(),
            iterator.cursor() == 0,
            iterator.leaf().entries.len() == 0,
            iterator.leaf().next_page_id == INVALID_PAGE_ID,
    {
        TreeIndexIterator {
            start_bound,
            end_bound,
            leaf_page: BPlusTreeLeafPage::empty(),
            cursor: 0,
            started: false,
        }
    }

    /// Replaces the leaf that the cursor holds by the leaf that follows it.
    /// Returns whether a leaf follows.
    pub fn load_next_leaf_page(&mut self, index: &mut BPlusTreeIndex) -> (res: Result<
        bool,
        BustubxError,
    >)
        requires
            old(index).wf(),
        ensures
            final(index).wf(),
            final(index).model() == old(index).model(),
            final(self).start() == old(self).start(),
            final(self).end() == old(self).end(),
            final(self).cursor() == old(self).cursor(),
            final(self).started() == old(self).started(),
            match leaf_at(old(index).model(), old(self).leaf().next_page_id) {
                Ok(Some(next_leaf)) => res == Ok::<bool, BustubxError>(true) && final(self).leaf()
                    == next_leaf,
                Ok(None) => res == Ok::<bool, BustubxError>(false) && final(self).leaf() == old(self).leaf(),
                Err(e) => res == Err::<bool, BustubxError>(e) && final(self).leaf() == old(self).leaf(),
            },
    {
        let next_page_id: PageId = self.leaf_page.next_page_id;
        if next_page_id == INVALID_PAGE_ID {
            return Ok(false);
        }
        match index.buffer_pool.read_tree_page(next_page_id, &index.key_schema) {
            Ok(BPlusTreePage::Leaf(next_leaf_page)) => {
                self.leaf_page = next_leaf_page;
                Ok(true)
            },
            Ok(BPlusTreePage::Internal(_)) => Err(BustubxError::Corrupt),
            Err(e) => Err(e),
        }
    }

    fn in_range(&self, key: &Tuple) -> (b: bool)
        ensures
            b == self.within_end(key@),
    {
        match &self.end_bound {
            Bound::Included(end) => match key.key_order(end) {
                KeyOrder::Greater => false,
                _ => true,
            },
            Bound::Excluded(end) => match key.key_order(end) {
                KeyOrder::Less => true,
                _ => false,
            },
            Bound::Unbounded => true,
        }
    }

    fn current(&self) -> (rid: Option<RecordId>)
        ensures
            rid == self.yield_at(self.leaf(), self.cursor()),
    {
        if self.cursor < self.leaf_page.current_size() {
            let kv = self.leaf_page.kv_at(self.cursor);
            if self.in_range(&kv.0) {
                Some(kv.1)
            } else {
                None
            }
        } else {
            None
        }
    }

    fn go_beyond(&mut self, index: &mut BPlusTreeIndex) -> (res: Result<Option<RecordId>, BustubxError>)
        requires
            old(index).wf(),
        ensures
            final(index).wf(),
            final(index).model() == old(index).model(),
            final(self).start() == old(self).start(),
            final(self).end() == old(self).end(),
            final(self).started() == old(self).started(),
            res == old(self).beyond(old(index).model(), old(self).leaf(), old(self).cursor()).result,
            final(self).leaf() == old(self).beyond(
                old(index).model(),
                old(self).leaf(),
                old(self).cursor(),
            ).leaf,
            final(self).cursor() == old(self).beyond(
                old(index).model(),
                old(self).leaf(),
                old(self).cursor(),
            ).cursor,
    {
        match self.load_next_leaf_page(index) {
            Ok(true) => {
                self.cursor = 0;
                Ok(self.current())
            },
            Ok(false) => Ok(None),
            Err(e) => Err(e),
        }
    }

    /// Moves the cursor on and returns the record id it comes to; `None`
    /// where the keys within the bounds are at an end. The first step goes to
    /// the first entry at or after the lower bound, every other to the entry
    /// after the cursor, on the same leaf or on the leaf that follows. The
    /// key that the cursor comes to is held against the upper bound before
    /// its record id is given.
    pub fn next(&mut self, index: &mut BPlusTreeIndex) -> (res: Result<Option<RecordId>, BustubxError>)
        requires
            old(index).wf(),
        ensures
            final(index).wf(),
            final(index).model() == old(index).model(),
            final(self).start() == old(self).start(),
            final(self).end() == old(self).end(),
            final(self).started(),
            res == old(self).landing(old(index).model()).result,
            final(self).leaf() == old(self).landing(old(index).model()).leaf,
            final(self).cursor() == old(self).landing(old(index).model()).cursor,
    {
        let ghost want = self.landing(index.model());
        let ghost t = index.model();
        if self.started {
            let size: usize = self.leaf_page.current_size();
            if self.cursor < usize::MAX && self.cursor + 1 < size {
                self.cursor = self.cursor + 1;
                let rid = self.current();
                assert(Ok::<Option<RecordId>, BustubxError>(rid) == want.result);
                Ok(rid)
            } else {
                let res = self.go_beyond(index);
                assert(res == want.result);
                res
            }
        } else {
            self.started = true;
            let included: bool = match &self.start_bound {
                Bound::Included(_) => true,
                _ => false,
            };
            let found: Option<BPlusTreeLeafPage> = match &self.start_bound {
                Bound::Unbounded => {
                    match index.get_first_leaf_page() {
                        Ok(leaf_page) => {
                            self.leaf_page = leaf_page;
                            self.cursor = 0;
                            return Ok(self.current());
                        },
                        Err(e) => {
                            return Err(e);
                        },
                    }
                },
                Bound::Included(start_tuple) => TreeIndexIterator::leaf_of(index, start_tuple),
                Bound::Excluded(start_tuple) => TreeIndexIterator::leaf_of(index, start_tuple),
            };
            let leaf_page = match found {
                Some(leaf_page) => leaf_page,
                None => {
                    return Ok(None);
                },
            };
            let position: Option<usize> = match &self.start_bound {
                Bound::Included(start_tuple) => leaf_page.next_closest(start_tuple, included),
                Bound::Excluded(start_tuple) => leaf_page.next_closest(start_tuple, included),
                Bound::Unbounded => None,
            };
            let size: usize = leaf_page.current_size();
            self.leaf_page = leaf_page;
            match position {
                Some(idx) => {
                    self.cursor = idx;
                    let rid = self.current();
                    assert(Ok::<Option<RecordId>, BustubxError>(rid) == want.result);
                    Ok(rid)
                },
                None => {
                    self.cursor = size;
                    let res = self.go_beyond(index);
                    assert(res == want.result);
                    res
                },
            }
        }
    }

    /// The leaf that a key is routed to.
    fn leaf_of(index: &mut BPlusTreeIndex, key: &Tuple) -> (leaf_page: Option<BPlusTreeLeafPage>)
        requires
            old(index).wf(),
        ensures
            final(index).wf(),
            final(index).model() == old(index).model(),
            match old(index).model().leaf_for(key@) {
                Some(x) => leaf_page is Some && leaf_page->Some_0@ == old(index).model().leaf(x),
                None => leaf_page is None,
            },
    {
        let mut context = Context::new(index.root_page_id);
        let leaf_id: PageId = match index.find_leaf_page(key, &mut context) {
            Ok(Some(leaf_id)) => leaf_id,
            Ok(None) => {
                return None;
            },
            Err(_) => {
                assert(false);
                return None;
            },
        };
        proof {
            let t = index.model();
            assert(t.is_node(leaf_id));
            assert(t.node_ok(leaf_id, Slack::Tight));
        }
        match index.buffer_pool.read_tree_page(leaf_id, &index.key_schema) {
            Ok(BPlusTreePage::Leaf(leaf_page)) => Some(leaf_page),
            _ => {
                assert(false);
                None
            },
        }
    }
}

} // verus!
