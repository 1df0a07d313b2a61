use crate::common::rid::PageId;
use crate::common::rid::RecordId;
use crate::common::rid::INVALID_PAGE_ID;
use crate::storage::tuple::key_le;
use crate::storage::tuple::key_lt;
use crate::storage::tuple::KeyOrder;
use crate::storage::tuple::ScalarValue;
use crate::storage::tuple::Tuple;
use vstd::prelude::*;

verus! {

pub type LeafKV = (Tuple, RecordId);

pub type InternalKV = (Tuple, PageId);

/// The entries of a leaf as values.
pub open spec fn leaf_entries(array: Seq<LeafKV>) -> Seq<(Seq<ScalarValue>, RecordId)> {
    Seq::new(array.len(), |i: int| (array[i].0@, array[i].1))
}

/// The entries of an internal page as values.
pub open spec fn internal_entries(array: Seq<InternalKV>) -> Seq<(Seq<ScalarValue>, PageId)> {
    Seq::new(array.len(), |i: int| (array[i].0@, array[i].1))
}

/// The least number of entries a page below the root may have: half its
/// maximum, rounded up.
pub open spec fn min_size_of(max_size: u32) -> int {
    (max_size + 1) / 2
}

/// The place of the first entry from `i` on whose key is `key`; the number of
/// entries where there is none.
pub open spec fn first_match<V>(entries: Seq<(Seq<ScalarValue>, V)>, key: Seq<ScalarValue>, i: int) -> int
    decreases entries.len() - i,
{
    if i < 0 || i >= entries.len() {
        entries.len() as int
    } else if entries[i].0 == key {
        i
    } else {
        first_match(entries, key, i + 1)
    }
}

/// The place after the last of the first `n` entries whose key is at most
/// `key`; 0 where there is none.
pub open spec fn upper_pos<V>(entries: Seq<(Seq<ScalarValue>, V)>, key: Seq<ScalarValue>, n: int) -> int
    decreases n,
{
    if n <= 0 || n > entries.len() {
        0
    } else if key_le(entries[n - 1].0, key) {
        n
    } else {
        upper_pos(entries, key, n - 1)
    }
}

/// The place of the first entry from `i` on whose key is at least `key`, or
/// greater than `key` where `included` is false; the number of entries where
/// there is none.
pub open spec fn closest_from<V>(
    entries: Seq<(Seq<ScalarValue>, V)>,
    key: Seq<ScalarValue>,
    included: bool,
    i: int,
) -> int
    decreases entries.len() - i,
{
    if i < 0 || i >= entries.len() {
        entries.len() as int
    } else if key_lt(key, entries[i].0) || (included && entries[i].0 == key) {
        i
    } else {
        closest_from(entries, key, included, i + 1)
    }
}

/// The place of the entry of an internal page that a key is routed to: the
/// last among the first `n` whose key is at most `key`, the first entry's key
/// counting as less than every key.
pub open spec fn route_index(entries: Seq<(Seq<ScalarValue>, PageId)>, key: Seq<ScalarValue>, n: int) -> int
    decreases n,
{
    if n <= 1 || n > entries.len() {
        0
    } else if key_le(entries[n - 1].0, key) {
        n - 1
    } else {
        route_index(entries, key, n - 1)
    }
}

/// The place of the first entry from `i` on whose child is `child`; the
/// number of entries where there is none.
pub open spec fn child_index(entries: Seq<(Seq<ScalarValue>, PageId)>, child: PageId, i: int) -> int
    decreases entries.len() - i,
{
    if i < 0 || i >= entries.len() {
        entries.len() as int
    } else if entries[i].1 == child {
        i
    } else {
        child_index(entries, child, i + 1)
    }
}

/// Whether the keys of the entries ascend, equal keys allowed.
pub open spec fn sorted<V>(entries: Seq<(Seq<ScalarValue>, V)>) -> bool {
    forall|i: int, j: int| 0 <= i < j < entries.len() ==> key_le(entries[i].0, entries[j].0)
}

/// What `first_match` finds is the first match.
pub proof fn lemma_first_match<V>(entries: Seq<(Seq<ScalarValue>, V)>, key: Seq<ScalarValue>, i: int)
    requires
        0 <= i <= entries.len(),
    ensures
        i <= first_match(entries, key, i) <= entries.len(),
        first_match(entries, key, i) < entries.len() ==> entries[first_match(entries, key, i)].0
            == key,
        forall|j: int| i <= j < first_match(entries, key, i) ==> entries[j].0 != key,
    decreases entries.len() - i,
{
    if i < entries.len() && entries[i].0 != key {
        lemma_first_match(entries, key, i + 1);
    }
}

/// What `upper_pos` finds is the place after the last key that is at most
/// `key`.
pub proof fn lemma_upper_pos<V>(entries: Seq<(Seq<ScalarValue>, V)>, key: Seq<ScalarValue>, n: int)
    requires
        0 <= n <= entries.len(),
    ensures
        0 <= upper_pos(entries, key, n) <= n,
        upper_pos(entries, key, n) > 0 ==> key_le(entries[upper_pos(entries, key, n) - 1].0, key),
        forall|j: int| upper_pos(entries, key, n) <= j < n ==> !key_le(entries[j].0, key),
    decreases n,
{
    if n > 0 && !key_le(entries[n - 1].0, key) {
        lemma_upper_pos(entries, key, n - 1);
    }
}

/// What `closest_from` finds is the first key at or after `key`.
pub proof fn lemma_closest_from<V>(
    entries: Seq<(Seq<ScalarValue>, V)>,
    key: Seq<ScalarValue>,
    included: bool,
    i: int,
)
    requires
        0 <= i <= entries.len(),
    ensures
        i <= closest_from(entries, key, included, i) <= entries.len(),
        closest_from(entries, key, included, i) < entries.len() ==> {
            let e = entries[closest_from(entries, key, included, i)].0;
            key_lt(key, e) || (included && e == key)
        },
        forall|j: int|
            i <= j < closest_from(entries, key, included, i) ==> !(key_lt(key, entries[j].0) || (
            included && entries[j].0 == key)),
    decreases entries.len() - i,
{
    if i < entries.len() && !(key_lt(key, entries[i].0) || (included && entries[i].0 == key)) {
        lemma_closest_from(entries, key, included, i + 1);
    }
}

/// What `route_index` finds is the last entry after the first whose key is at
/// most `key`, or the first entry.
pub proof fn lemma_route_index(entries: Seq<(Seq<ScalarValue>, PageId)>, key: Seq<ScalarValue>, n: int)
    requires
        0 <= n <= entries.len(),
    ensures
        0 <= route_index(entries, key, n),
        n >= 1 ==> route_index(entries, key, n) < n,
        route_index(entries, key, n) >= 1 ==> key_le(entries[route_index(entries, key, n)].0, key),
        forall|j: int|
            route_index(entries, key, n) < j < n && j >= 1 ==> !key_le(entries[j].0, key),
    decreases n,
{
    if n > 1 && !key_le(entries[n - 1].0, key) {
        lemma_route_index(entries, key, n - 1);
    }
}

/// What `child_index` finds is the first entry with that child.
pub proof fn lemma_child_index(entries: Seq<(Seq<ScalarValue>, PageId)>, child: PageId, i: int)
    requires
        0 <= i <= entries.len(),
    ensures
        i <= child_index(entries, child, i) <= entries.len(),
        child_index(entries, child, i) < entries.len() ==> entries[child_index(entries, child, i)].1
            == child,
        forall|j: int| i <= j < child_index(entries, child, i) ==> entries[j].1 != child,
    decreases entries.len() - i,
{
    if i < entries.len() && entries[i].1 != child {
        lemma_child_index(entries, child, i + 1);
    }
}

/// A place with the key before which no entry has the key is where
/// `first_match` stops.
pub proof fn lemma_first_match_is<V>(entries: Seq<(Seq<ScalarValue>, V)>, key: Seq<ScalarValue>, p: int)
    requires
        0 <= p < entries.len(),
        entries[p].0 == key,
        forall|j: int| 0 <= j < p ==> entries[j].0 != key,
    ensures
        first_match(entries, key, 0) == p,
{
    lemma_first_match(entries, key, 0);
}

/// The place that has what `route_index` looks for is what it finds.
pub proof fn lemma_route_is(entries: Seq<(Seq<ScalarValue>, PageId)>, key: Seq<ScalarValue>, n: int, i: int)
    requires
        0 <= i < n <= entries.len(),
        i >= 1 ==> key_le(entries[i].0, key),
        forall|j: int| i < j < n && j >= 1 ==> !key_le(entries[j].0, key),
    ensures
        route_index(entries, key, n) == i,
    decreases n,
{
    if n > 1 && i < n - 1 {
        lemma_route_is(entries, key, n - 1, i);
    }
}

/// Routing among the entries after one more child came in after the child
/// that the key was routed to: the key goes to the new child where it is at
/// least the new child's key, else where it went.
pub proof fn lemma_route_insert(
    entries: Seq<(Seq<ScalarValue>, PageId)>,
    key: Seq<ScalarValue>,
    idx: int,
    sep: Seq<ScalarValue>,
    child: PageId,
)
    requires
        entries.len() >= 1,
        route_index(entries, key, entries.len() as int) == idx,
    ensures
        route_index(
            entries.insert(idx + 1, (sep, child)),
            key,
            entries.len() as int + 1,
        ) == if key_le(sep, key) {
            idx + 1
        } else {
            idx
        },
{
    let n = entries.len() as int;
    lemma_route_index(entries, key, n);
    let after = entries.insert(idx + 1, (sep, child));
    let want = if key_le(sep, key) {
        idx + 1
    } else {
        idx
    };
    assert forall|j: int| want < j < n + 1 && j >= 1 implies !key_le(after[j].0, key) by {
        if j > idx + 1 {
            assert(after[j] == entries[j - 1]);
        }
    }
    if want == idx {
        assert(after[idx] == entries[idx]);
    }
    lemma_route_is(after, key, n + 1, want);
}

/// Routing among the lower or the upper part of the entries is routing
/// among all of them.
pub proof fn lemma_route_split(entries: Seq<(Seq<ScalarValue>, PageId)>, key: Seq<ScalarValue>, mid: int)
    requires
        1 <= mid < entries.len(),
    ensures
        route_index(entries, key, entries.len() as int) < mid ==> route_index(
            entries.subrange(0, mid),
            key,
            mid,
        ) == route_index(entries, key, entries.len() as int),
        route_index(entries, key, entries.len() as int) >= mid ==> route_index(
            entries.subrange(mid, entries.len() as int),
            key,
            entries.len() - mid,
        ) == route_index(entries, key, entries.len() as int) - mid,
{
    let n = entries.len() as int;
    lemma_route_index(entries, key, n);
    let j = route_index(entries, key, n);
    let left = entries.subrange(0, mid);
    let right = entries.subrange(mid, n);
    if j < mid {
        assert forall|a: int| j < a < mid && a >= 1 implies !key_le(left[a].0, key) by {
            assert(left[a] == entries[a]);
        }
        if j >= 1 {
            assert(left[j] == entries[j]);
        }
        lemma_route_is(left, key, mid, j);
    } else {
        assert forall|a: int| j - mid < a < n - mid && a >= 1 implies !key_le(right[a].0, key) by {
            assert(right[a] == entries[a + mid]);
        }
        if j - mid >= 1 {
            assert(right[j - mid] == entries[j]);
        }
        lemma_route_is(right, key, n - mid, j - mid);
    }
}

/// What a leaf page holds.
pub struct LeafView {
    pub max_size: u32,
    pub next_page_id: PageId,
    pub entries: Seq<(Seq<ScalarValue>, RecordId)>,
}

/// What an internal page holds. The key of the first entry stands for "less
/// than every key" whatever it is.
pub struct InternalView {
    pub max_size: u32,
    pub entries: Seq<(Seq<ScalarValue>, PageId)>,
}

pub enum TreePageView {
    Internal(InternalView),
    Leaf(LeafView),
}

impl LeafView {
    /// The record id stored under a key: that of the first entry with the
    /// key.
    pub open spec fn look_up(self, key: Seq<ScalarValue>) -> Option<RecordId> {
        let i = first_match(self.entries, key, 0);
        if i < self.entries.len() {
            Some(self.entries[i].1)
        } else {
            None
        }
    }

    /// The leaf with one more entry, put after the entries whose key is at
    /// most its key.
    pub open spec fn insert(self, key: Seq<ScalarValue>, rid: RecordId) -> LeafView {
        LeafView {
            entries: self.entries.insert(
                upper_pos(self.entries, key, self.entries.len() as int),
                (key, rid),
            ),
            ..self
        }
    }

    /// The leaf without the first entry that has the key.
    pub open spec fn delete(self, key: Seq<ScalarValue>) -> LeafView {
        let i = first_match(self.entries, key, 0);
        if i < self.entries.len() {
            LeafView { entries: self.entries.remove(i), ..self }
        } else {
            self
        }
    }
}

impl InternalView {
    /// The child that a key is routed to.
    pub open spec fn look_up(self, key: Seq<ScalarValue>) -> PageId {
        self.entries[route_index(self.entries, key, self.entries.len() as int)].1
    }

    /// The place of a child among the entries, if it is among them.
    pub open spec fn index_of(self, child: PageId) -> Option<int> {
        let i = child_index(self.entries, child, 0);
        if i < self.entries.len() {
            Some(i)
        } else {
            None
        }
    }

    /// The children to the left and to the right of a child.
    pub open spec fn siblings(self, child: PageId) -> (Option<PageId>, Option<PageId>) {
        match self.index_of(child) {
            Some(i) => (
                if i > 0 {
                    Some(self.entries[i - 1].1)
                } else {
                    None
                },
                if i + 1 < self.entries.len() {
                    Some(self.entries[i + 1].1)
                } else {
                    None
                },
            ),
            None => (None, None),
        }
    }
}

impl TreePageView {
    pub open spec fn size(self) -> int {
        match self {
            TreePageView::Internal(page) => page.entries.len() as int,
            TreePageView::Leaf(page) => page.entries.len() as int,
        }
    }

    pub open spec fn max_size(self) -> u32 {
        match self {
            TreePageView::Internal(page) => page.max_size,
            TreePageView::Leaf(page) => page.max_size,
        }
    }
}

/// A leaf of the index: keys with the record ids they stand for, in key
/// order, and the id of the leaf to the right.
#[derive(Debug, Clone, PartialEq, Eq)]
pub struct BPlusTreeLeafPage {
    pub max_size: u32,
    pub next_page_id: PageId,
    pub array: Vec<LeafKV>,
}

/// An internal page of the index: children with the keys at which they
/// start.
#[derive(Debug, Clone, PartialEq, Eq)]
pub struct BPlusTreeInternalPage {
    pub max_size: u32,
    pub array: Vec<InternalKV>,
}

#[derive(Debug, Clone, PartialEq, Eq)]
pub enum BPlusTreePage {
    Internal(BPlusTreeInternalPage),
    Leaf(BPlusTreeLeafPage),
}

impl View for BPlusTreeLeafPage {
    type V = LeafView;

    open spec fn view(&self) -> LeafView {
        LeafView {
            max_size: self.max_size,
            next_page_id: self.next_page_id,
            entries: leaf_entries(self.array@),
        }
    }
}

impl View for BPlusTreeInternalPage {
    type V = InternalView;

    open spec fn view(&self) -> InternalView {
        InternalView { max_size: self.max_size, entries: internal_entries(self.array@) }
    }
}

impl View for BPlusTreePage {
    type V = TreePageView;

    open spec fn view(&self) -> TreePageView {
        match self {
            BPlusTreePage::Internal(page) => TreePageView::Internal(page@),
            BPlusTreePage::Leaf(page) => TreePageView::Leaf(page@),
        }
    }
}

fn le(a: &Tuple, b: &Tuple) -> (r: bool)
    ensures
        r == key_le(a@, b@),
{
    match a.key_order(b) {
        KeyOrder::Greater => false,
        _ => true,
    }
}

fn same(a: &Tuple, b: &Tuple) -> (r: bool)
    ensures
        r == (a@ == b@),
{
    match a.key_order(b) {
        KeyOrder::Equal => true,
        _ => false,
    }
}

impl BPlusTreeLeafPage {
    /// An empty leaf without a right neighbour.
    pub fn new(max_size: u32) -> (page: BPlusTreeLeafPage)
        ensures
            page@.max_size == max_size,
            page@.next_page_id == INVALID_PAGE_ID,
            page@.entries.len() == 0,
    {
        BPlusTreeLeafPage { max_size, next_page_id: INVALID_PAGE_ID, array: Vec::new() }
    }

    /// The leaf that an iterator holds before it has read one.
    pub fn empty() -> (page: BPlusTreeLeafPage)
        ensures
            page@.max_size == 0,
            page@.next_page_id == INVALID_PAGE_ID,
            page@.entries.len() == 0,
    {
        BPlusTreeLeafPage::new(0)
    }

    pub fn current_size(&self) -> (n: usize)
        ensures
            n == self@.entries.len(),
    {
        self.array.len()
    }

    pub fn min_size(&self) -> (n: u32)
        ensures
            n == min_size_of(self@.max_size),
    {
        self.max_size / 2 + self.max_size % 2
    }

    pub fn is_full(&self) -> (b: bool)
        ensures
            b == (self@.entries.len() > self@.max_size),
    {
        self.array.len() > self.max_size as usize
    }

    pub fn can_borrow(&self) -> (b: bool)
        ensures
            b == (self@.entries.len() > min_size_of(self@.max_size)),
    {
        self.array.len() > self.min_size() as usize
    }

    pub fn key_at(&self, index: usize) -> (key: &Tuple)
        requires
            index < self@.entries.len(),
        ensures
            key@ == self@.entries[index as int].0,
    {
        &self.array[index].0
    }

    pub fn kv_at(&self, index: usize) -> (kv: &LeafKV)
        requires
            index < self@.entries.len(),
        ensures
            kv.0@ == self@.entries[index as int].0,
            kv.1 == self@.entries[index as int].1,
    {
        &self.array[index]
    }

    /// Puts an entry after the entries whose key is at most its key, so that
    /// among equal keys the one that came first stays first.
    pub fn insert(&mut self, key: Tuple, rid: RecordId)
        ensures
            final(self)@ == old(self)@.insert(key@, rid),
    {
        let mut n: usize = self.array.len();
        while n > 0 && !le(&self.array[n - 1].0, &key)
            invariant
                n <= self.array@.len(),
                *self == *old(self),
                upper_pos(self@.entries, key@, self@.entries.len() as int) == upper_pos(
                    self@.entries,
                    key@,
                    n as int,
                ),
            decreases n,
        {
            n -= 1;
        }
        self.array.insert(n, (key, rid));
        assert(self@.entries =~= old(self)@.insert(key@, rid).entries);
    }

    /// Removes the first entry that has the key, if there is one.
    pub fn delete(&mut self, key: &Tuple) -> (removed: bool)
        ensures
            final(self)@ == old(self)@.delete(key@),
            removed == (old(self)@.look_up(key@) is Some),
    {
        let mut i: usize = 0;
        while i < self.array.len() && !same(&self.array[i].0, key)
            invariant
                i <= self.array@.len(),
                *self == *old(self),
                first_match(self@.entries, key@, 0) == first_match(self@.entries, key@, i as int),
            decreases self.array@.len() - i,
        {
            i += 1;
        }
        if i < self.array.len() {
            self.array.remove(i);
            assert(self@.entries =~= old(self)@.delete(key@).entries);
            true
        } else {
            false
        }
    }

    /// The record id stored under a key: that of the first entry with the
    /// key.
    pub fn look_up(&self, key: &Tuple) -> (rid: Option<RecordId>)
        ensures
            rid == self@.look_up(key@),
    {
        let mut i: usize = 0;
        while i < self.array.len() && !same(&self.array[i].0, key)
            invariant
                i <= self.array@.len(),
                first_match(self@.entries, key@, 0) == first_match(self@.entries, key@, i as int),
            decreases self.array@.len() - i,
        {
            i += 1;
        }
        if i < self.array.len() {
            Some(self.array[i].1)
        } else {
            None
        }
    }

    /// The place of the first entry whose key is at least `key`, or greater
    /// than `key` where `included` is false.
    pub fn next_closest(&self, key: &Tuple, included: bool) -> (index: Option<usize>)
        ensures
            match index {
                Some(i) => i < self@.entries.len() && i == closest_from(
                    self@.entries,
                    key@,
                    included,
                    0,
                ),
                None => closest_from(self@.entries, key@, included, 0) == self@.entries.len(),
            },
    {
        proof {
            lemma_closest_from(self@.entries, key@, included, 0);
        }
        let mut i: usize = 0;
        while i < self.array.len()
            invariant
                i <= self.array@.len(),
                closest_from(self@.entries, key@, included, 0) == closest_from(
                    self@.entries,
                    key@,
                    included,
                    i as int,
                ),
            decreases self.array@.len() - i,
        {
            match key.key_order(&self.array[i].0) {
                KeyOrder::Less => {
                    return Some(i);
                },
                KeyOrder::Equal => {
                    if included {
                        return Some(i);
                    }
                },
                KeyOrder::Greater => {},
            }
            i += 1;
        }
        None
    }

    /// Takes the entries from `at` on out of the leaf.
    pub fn split_off(&mut self, at: usize) -> (tail: Vec<LeafKV>)
        requires
            at <= old(self)@.entries.len(),
        ensures
            final(self)@.entries == old(self)@.entries.subrange(0, at as int),
            leaf_entries(tail@) == old(self)@.entries.subrange(
                at as int,
                old(self)@.entries.len() as int,
            ),
            final(self)@.max_size == old(self)@.max_size,
            final(self)@.next_page_id == old(self)@.next_page_id,
    {
        let tail = self.array.split_off(at);
        assert(self@.entries =~= old(self)@.entries.subrange(0, at as int));
        assert(leaf_entries(tail@) =~= old(self)@.entries.subrange(
            at as int,
            old(self)@.entries.len() as int,
        ));
        tail
    }

    /// Takes the first entry out of the leaf.
    pub fn take_first(&mut self) -> (kv: LeafKV)
        requires
            old(self)@.entries.len() > 0,
        ensures
            final(self)@.entries == old(self)@.entries.subrange(1, old(self)@.entries.len() as int),
            kv.0@ == old(self)@.entries[0].0,
            kv.1 == old(self)@.entries[0].1,
            final(self)@.max_size == old(self)@.max_size,
            final(self)@.next_page_id == old(self)@.next_page_id,
    {
        let kv = self.array.remove(0);
        assert(self@.entries =~= old(self)@.entries.subrange(1, old(self)@.entries.len() as int));
        kv
    }

    /// Takes the last entry out of the leaf.
    pub fn take_last(&mut self) -> (kv: LeafKV)
        requires
            old(self)@.entries.len() > 0,
        ensures
            final(self)@.entries == old(self)@.entries.subrange(0, old(self)@.entries.len() - 1),
            kv.0@ == old(self)@.entries[old(self)@.entries.len() - 1].0,
            kv.1 == old(self)@.entries[old(self)@.entries.len() - 1].1,
            final(self)@.max_size == old(self)@.max_size,
            final(self)@.next_page_id == old(self)@.next_page_id,
    {
        let kv = self.array.remove(self.array.len() - 1);
        assert(self@.entries =~= old(self)@.entries.subrange(0, old(self)@.entries.len() - 1));
        kv
    }

    /// Puts an entry in front of all others.
    pub fn push_front(&mut self, kv: LeafKV)
        ensures
            final(self)@.entries == seq![(kv.0@, kv.1)] + old(self)@.entries,
            final(self)@.max_size == old(self)@.max_size,
            final(self)@.next_page_id == old(self)@.next_page_id,
    {
        self.array.insert(0, kv);
        assert(self@.entries =~= seq![(kv.0@, kv.1)] + old(self)@.entries);
    }

    /// Puts an entry after all others.
    pub fn push_back(&mut self, kv: LeafKV)
        ensures
            final(self)@.entries == old(self)@.entries.push((kv.0@, kv.1)),
            final(self)@.max_size == old(self)@.max_size,
            final(self)@.next_page_id == old(self)@.next_page_id,
    {
        self.array.push(kv);
        assert(self@.entries =~= old(self)@.entries.push((kv.0@, kv.1)));
    }

    /// Adds entries at the end, in their order.
    pub fn batch_insert(&mut self, kvs: Vec<LeafKV>)
        ensures
            final(self)@.entries == old(self)@.entries + leaf_entries(kvs@),
            final(self)@.max_size == old(self)@.max_size,
            final(self)@.next_page_id == old(self)@.next_page_id,
    {
        let ghost added = kvs@;
        let mut moved = kvs;
        self.array.append(&mut moved);
        assert(self@.entries =~= old(self)@.entries + leaf_entries(added));
    }
}

impl BPlusTreeInternalPage {
    /// An internal page without entries.
    pub fn new(max_size: u32) -> (page: BPlusTreeInternalPage)
        ensures
            page@.max_size == max_size,
            page@.entries.len() == 0,
    {
        BPlusTreeInternalPage { max_size, array: Vec::new() }
    }

    pub fn current_size(&self) -> (n: usize)
        ensures
            n == self@.entries.len(),
    {
        self.array.len()
    }

    pub fn min_size(&self) -> (n: u32)
        ensures
            n == min_size_of(self@.max_size),
    {
        self.max_size / 2 + self.max_size % 2
    }

    pub fn is_full(&self) -> (b: bool)
        ensures
            b == (self@.entries.len() > self@.max_size),
    {
        self.array.len() > self.max_size as usize
    }

    pub fn can_borrow(&self) -> (b: bool)
        ensures
            b == (self@.entries.len() > min_size_of(self@.max_size)),
    {
        self.array.len() > self.min_size() as usize
    }

    pub fn key_at(&self, index: usize) -> (key: &Tuple)
        requires
            index < self@.entries.len(),
        ensures
            key@ == self@.entries[index as int].0,
    {
        &self.array[index].0
    }

    pub fn value_at(&self, index: usize) -> (child: PageId)
        requires
            index < self@.entries.len(),
        ensures
            child == self@.entries[index as int].1,
    {
        self.array[index].1
    }

    /// Adds an entry at the end.
    pub fn push(&mut self, key: Tuple, child: PageId)
        ensures
            final(self)@.entries == old(self)@.entries.push((key@, child)),
            final(self)@.max_size == old(self)@.max_size,
    {
        self.array.push((key, child));
        assert(self@.entries =~= old(self)@.entries.push((key@, child)));
    }

    /// Puts an entry at a place among the entries.
    pub fn insert_at(&mut self, index: usize, key: Tuple, child: PageId)
        requires
            index <= old(self)@.entries.len(),
        ensures
            final(self)@.entries == old(self)@.entries.insert(index as int, (key@, child)),
            final(self)@.max_size == old(self)@.max_size,
    {
        self.array.insert(index, (key, child));
        assert(self@.entries =~= old(self)@.entries.insert(index as int, (key@, child)));
    }

    /// Replaces the key of the entry at a place.
    pub fn set_key_at(&mut self, index: usize, key: Tuple)
        requires
            index < old(self)@.entries.len(),
        ensures
            final(self)@.entries == old(self)@.entries.update(
                index as int,
                (key@, old(self)@.entries[index as int].1),
            ),
            final(self)@.max_size == old(self)@.max_size,
    {
        self.array[index].0 = key;
        assert(self@.entries =~= old(self)@.entries.update(
            index as int,
            (key@, old(self)@.entries[index as int].1),
        ));
    }

    /// Takes the entry at a place out of the page.
    pub fn remove_at(&mut self, index: usize) -> (kv: InternalKV)
        requires
            index < old(self)@.entries.len(),
        ensures
            final(self)@.entries == old(self)@.entries.remove(index as int),
            kv.0@ == old(self)@.entries[index as int].0,
            kv.1 == old(self)@.entries[index as int].1,
            final(self)@.max_size == old(self)@.max_size,
    {
        let kv = self.array.remove(index);
        assert(self@.entries =~= old(self)@.entries.remove(index as int));
        kv
    }

    /// The child that a key is routed to: that of the last entry whose key is
    /// at most the key, the first entry's key counting as less than every
    /// key.
    pub fn look_up(&self, key: &Tuple) -> (child: PageId)
        requires
            self@.entries.len() > 0,
        ensures
            child == self@.look_up(key@),
    {
        proof {
            lemma_route_index(self@.entries, key@, self@.entries.len() as int);
        }
        let mut n: usize = self.array.len();
        while n > 1 && !le(&self.array[n - 1].0, key)
            invariant
                1 <= n <= self.array@.len(),
                route_index(self@.entries, key@, self@.entries.len() as int) == route_index(
                    self@.entries,
                    key@,
                    n as int,
                ),
            decreases n,
        {
            n -= 1;
        }
        self.array[n - 1].1
    }

    /// The place of a child among the entries.
    pub fn index_of(&self, child: PageId) -> (index: Option<usize>)
        ensures
            match index {
                Some(i) => self@.index_of(child) == Some(i as int) && i < self.array.len(),
                None => self@.index_of(child) is None,
            },
    {
        proof {
            lemma_child_index(self@.entries, child, 0);
        }
        let mut i: usize = 0;
        while i < self.array.len() && self.array[i].1 != child
            invariant
                i <= self.array@.len(),
                child_index(self@.entries, child, 0) == child_index(self@.entries, child, i as int),
            decreases self.array@.len() - i,
        {
            i += 1;
        }
        if i < self.array.len() {
            Some(i)
        } else {
            None
        }
    }

    /// The children to the left and to the right of a child under this page.
    pub fn sibling_page_ids(&self, child: PageId) -> (siblings: (Option<PageId>, Option<PageId>))
        ensures
            siblings == self@.siblings(child),
    {
        proof {
            lemma_child_index(self@.entries, child, 0);
        }
        match self.index_of(child) {
            Some(i) => (
                if i > 0 {
                    Some(self.array[i - 1].1)
                } else {
                    None
                },
                if i + 1 < self.array.len() {
                    Some(self.array[i + 1].1)
                } else {
                    None
                },
            ),
            None => (None, None),
        }
    }

    /// Takes the entries from `at` on out of the page.
    pub fn split_off(&mut self, at: usize) -> (tail: Vec<InternalKV>)
        requires
            at <= old(self)@.entries.len(),
        ensures
            final(self)@.entries == old(self)@.entries.subrange(0, at as int),
            internal_entries(tail@) == old(self)@.entries.subrange(
                at as int,
                old(self)@.entries.len() as int,
            ),
            final(self)@.max_size == old(self)@.max_size,
    {
        let tail = self.array.split_off(at);
        assert(self@.entries =~= old(self)@.entries.subrange(0, at as int));
        assert(internal_entries(tail@) =~= old(self)@.entries.subrange(
            at as int,
            old(self)@.entries.len() as int,
        ));
        tail
    }

    /// Adds entries at the end, in their order.
    pub fn batch_insert(&mut self, kvs: Vec<InternalKV>)
        ensures
            final(self)@.entries == old(self)@.entries + internal_entries(kvs@),
            final(self)@.max_size == old(self)@.max_size,
    {
        let ghost added = kvs@;
        let mut moved = kvs;
        self.array.append(&mut moved);
        assert(self@.entries =~= old(self)@.entries + internal_entries(added));
    }
}

impl BPlusTreePage {
    pub fn is_leaf(&self) -> (b: bool)
        ensures
            b == (self@ is Leaf),
    {
        match self {
            BPlusTreePage::Leaf(_) => true,
            BPlusTreePage::Internal(_) => false,
        }
    }

    pub fn current_size(&self) -> (n: usize)
        ensures
            n == self@.size(),
    {
        match self {
            BPlusTreePage::Leaf(page) => page.current_size(),
            BPlusTreePage::Internal(page) => page.current_size(),
        }
    }

    /// Whether the page has more entries than it may keep.
    pub fn is_full(&self) -> (b: bool)
        ensures
            b == (self@.size() > self@.max_size()),
    {
        match self {
            BPlusTreePage::Leaf(page) => page.is_full(),
            BPlusTreePage::Internal(page) => page.is_full(),
        }
    }

    /// Whether the page has fewer entries than a page below the root may
    /// have. The root is never short of entries.
    pub fn is_underflow(&self, is_root: bool) -> (b: bool)
        ensures
            b == (!is_root && self@.size() < min_size_of(self@.max_size())),
    {
        if is_root {
            return false;
        }
        match self {
            BPlusTreePage::Leaf(page) => page.current_size() < page.min_size() as usize,
            BPlusTreePage::Internal(page) => page.current_size() < page.min_size() as usize,
        }
    }

    /// Whether the page can give an entry to a sibling and keep enough.
    pub fn can_borrow(&self) -> (b: bool)
        ensures
            b == (self@.size() > min_size_of(self@.max_size())),
    {
        match self {
            BPlusTreePage::Leaf(page) => page.can_borrow(),
            BPlusTreePage::Internal(page) => page.can_borrow(),
        }
    }
}

} // verus!
