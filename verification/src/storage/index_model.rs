use crate::catalog::schema::DataType;
use crate::common::rid::PageId;
use crate::common::rid::RecordId;
use crate::common::rid::INVALID_PAGE_ID;
use crate::storage::codec::index_page_codec::internal_fits;
use crate::storage::codec::index_page_codec::keys_conform;
use crate::storage::codec::index_page_codec::leaf_fits;
use crate::storage::index_page::child_index;
use crate::storage::index_page::first_match;
use crate::storage::index_page::lemma_child_index;
use crate::storage::index_page::lemma_first_match;
use crate::storage::index_page::lemma_route_index;
use crate::storage::index_page::lemma_upper_pos;
use crate::storage::index_page::min_size_of;
use crate::storage::index_page::route_index;
use crate::storage::index_page::sorted;
use crate::storage::index_page::upper_pos;
use crate::storage::index_page::InternalView;
use crate::storage::index_page::LeafView;
use crate::storage::index_page::TreePageView;
use crate::storage::tuple::conforms_to;
use crate::storage::tuple::key_le;
use crate::storage::tuple::key_lt;
use crate::storage::tuple::lemma_key_lt_asymmetric;
use crate::storage::tuple::lemma_key_lt_total;
use crate::storage::tuple::lemma_key_lt_transitive;
use crate::storage::tuple::null_key;
use crate::storage::tuple::ScalarValue;
use vstd::prelude::*;

verus! {

pub type Key = Seq<ScalarValue>;

/// `key_le` is transitive.
pub proof fn lemma_key_le_transitive(a: Key, b: Key, c: Key)
    requires
        key_le(a, b),
        key_le(b, c),
    ensures
        key_le(a, c),
{
    if a != b && b != c {
        lemma_key_lt_transitive(a, b, c);
    }
}

/// Of two keys, one is at most the other; and what is not at most is
/// greater.
pub proof fn lemma_key_le_total(a: Key, b: Key)
    ensures
        key_le(a, b) || key_lt(b, a),
        !(key_le(a, b) && key_lt(b, a)),
{
    lemma_key_lt_total(a, b);
    if key_lt(b, a) {
        lemma_key_lt_asymmetric(b, a);
    }
}

/// What the index keeps in mind about its pages beside their bytes. It is
/// never stored; the proofs read it.
pub struct TreeGhost {
    /// The pages of the tree, each with its height above the leaves.
    pub level: Map<PageId, nat>,
    /// The leftmost leaf below each page.
    pub fl: Map<PageId, PageId>,
    /// The leaf that follows the rightmost leaf below each page; 0 where none
    /// does.
    pub nl: Map<PageId, PageId>,
    /// The page above each page.
    pub parent: Map<PageId, PageId>,
    /// The leaf to the left of each leaf.
    pub prev: Map<PageId, PageId>,
    /// For each leaf the key below which no key is routed to it; `None` for
    /// the leftmost leaf.
    pub lowkey: Map<PageId, Option<Key>>,
    /// For each leaf but the leftmost, the page that starts at it and is not
    /// the first child of its parent.
    pub sep_child: Map<PageId, PageId>,
}

/// A page that is for the moment allowed one entry more, or one entry fewer,
/// than the balance of the tree asks for.
pub enum Slack {
    Tight,
    /// The page may have one entry too many.
    Over(PageId),
    /// The page may have one entry too many, and may be the only child of
    /// the root.
    Grown(PageId),
    /// The page may have one entry too few.
    Under(PageId),
}

/// The index as a value: its parameters, its root, what its pages hold, and
/// what is kept in mind about them.
pub struct TreeModel {
    pub types: Seq<DataType>,
    pub leaf_max: u32,
    pub internal_max: u32,
    pub root: PageId,
    pub pages: Map<PageId, TreePageView>,
    /// Number of page ids handed out so far.
    pub limit: nat,
    pub g: TreeGhost,
}

/// The leaf under `x` that a key is routed to, found in at most `fuel`
/// steps.
pub open spec fn descend(pages: Map<PageId, TreePageView>, x: PageId, key: Key, fuel: nat) -> Option<
    PageId,
>
    decreases fuel,
{
    if fuel == 0 || !pages.contains_key(x) {
        None
    } else {
        match pages[x] {
            TreePageView::Leaf(_) => Some(x),
            TreePageView::Internal(node) => if node.entries.len() == 0 {
                None
            } else {
                descend(pages, node.look_up(key), key, (fuel - 1) as nat)
            },
        }
    }
}

/// The internal pages that a key goes through on its way from `x` to a leaf,
/// in at most `fuel` steps.
pub open spec fn way(pages: Map<PageId, TreePageView>, x: PageId, key: Key, fuel: nat) -> Seq<PageId>
    decreases fuel,
{
    if fuel == 0 || !pages.contains_key(x) {
        Seq::empty()
    } else {
        match pages[x] {
            TreePageView::Leaf(_) => Seq::empty(),
            TreePageView::Internal(node) => if node.entries.len() == 0 {
                Seq::empty()
            } else {
                seq![x] + way(pages, node.look_up(key), key, (fuel - 1) as nat)
            },
        }
    }
}

/// The leftmost leaf under `x`, found in at most `fuel` steps.
pub open spec fn leftmost(pages: Map<PageId, TreePageView>, x: PageId, fuel: nat) -> Option<PageId>
    decreases fuel,
{
    if fuel == 0 || !pages.contains_key(x) {
        None
    } else {
        match pages[x] {
            TreePageView::Leaf(_) => Some(x),
            TreePageView::Internal(node) => if node.entries.len() == 0 {
                None
            } else {
                leftmost(pages, node.entries[0].1, (fuel - 1) as nat)
            },
        }
    }
}

/// The rightmost leaf under `x`, found in at most `fuel` steps.
pub open spec fn rightmost(pages: Map<PageId, TreePageView>, x: PageId, fuel: nat) -> Option<PageId>
    decreases fuel,
{
    if fuel == 0 || !pages.contains_key(x) {
        None
    } else {
        match pages[x] {
            TreePageView::Leaf(_) => Some(x),
            TreePageView::Internal(node) => if node.entries.len() == 0 {
                None
            } else {
                rightmost(pages, node.entries[node.entries.len() - 1].1, (fuel - 1) as nat)
            },
        }
    }
}

impl TreeModel {
    /// Number of levels of the tree.
    pub open spec fn height(self) -> nat {
        if self.root == INVALID_PAGE_ID {
            0
        } else {
            self.g.level[self.root] + 1
        }
    }

    /// Whether the disk has page ids left for every page that putting one
    /// entry into the tree can take: one for each level, and one for a new
    /// root.
    pub open spec fn has_reserve(self) -> bool {
        self.limit + self.height() + 1 <= u32::MAX
    }

    pub open spec fn is_node(self, x: PageId) -> bool {
        self.g.level.contains_key(x)
    }

    pub open spec fn leaf(self, x: PageId) -> LeafView {
        self.pages[x]->Leaf_0
    }

    pub open spec fn internal(self, x: PageId) -> InternalView {
        self.pages[x]->Internal_0
    }

    /// Whether key `k` is at or after the left edge of leaf `b`.
    pub open spec fn lower_ok(self, b: PageId, k: Key) -> bool {
        match self.g.lowkey[b] {
            None => true,
            Some(low) => key_le(low, k),
        }
    }

    /// Whether key `k` is at or before the left edge of leaf `b`; 0 stands
    /// for the end of the keys.
    pub open spec fn upper_ok(self, k: Key, b: PageId) -> bool {
        b == INVALID_PAGE_ID || match self.g.lowkey[b] {
            None => false,
            Some(low) => key_le(k, low),
        }
    }

    /// Whether key `k` is before the left edge of leaf `b`.
    pub open spec fn upper_strict(self, k: Key, b: PageId) -> bool {
        b == INVALID_PAGE_ID || match self.g.lowkey[b] {
            None => false,
            Some(low) => key_lt(k, low),
        }
    }

    /// Whether keys equal to `k` are routed to the page `x` or, where `x` is
    /// the root, to some page.
    pub open spec fn in_range(self, x: PageId, k: Key) -> bool {
        self.lower_ok(self.g.fl[x], k) && self.upper_strict(k, self.g.nl[x])
    }

    pub open spec fn size_ok(self, x: PageId, size: int, max: u32, slack: Slack) -> bool {
        &&& size <= max + if slack == Slack::Over(x) || slack == Slack::Grown(x) {
            1int
        } else {
            0int
        }
        &&& x != self.root ==> size >= min_size_of(max) - if slack == Slack::Under(x) {
            1int
        } else {
            0int
        }
    }

    pub open spec fn leaf_entry_ok(self, x: PageId, i: int) -> bool {
        let leaf = self.leaf(x);
        self.lower_ok(x, leaf.entries[i].0) && self.upper_ok(leaf.entries[i].0, leaf.next_page_id)
    }

    pub open spec fn leaf_ok(self, x: PageId, slack: Slack) -> bool {
        &&& self.pages.contains_key(x)
        &&& self.pages[x] is Leaf
        &&& self.leaf(x).max_size == self.leaf_max
        &&& self.size_ok(x, self.leaf(x).entries.len() as int, self.leaf_max, slack)
        &&& keys_conform(self.leaf(x).entries, self.types)
        &&& sorted(self.leaf(x).entries)
        &&& self.g.fl[x] == x
        &&& self.g.nl[x] == self.leaf(x).next_page_id
        &&& self.g.lowkey.contains_key(x)
        &&& self.leaf(x).next_page_id != INVALID_PAGE_ID ==> {
            let next = self.leaf(x).next_page_id;
            &&& self.is_node(next)
            &&& self.g.level[next] == 0
            &&& self.g.prev[next] == x
            &&& self.g.lowkey[next] is Some
            &&& self.lower_ok(x, self.g.lowkey[next]->Some_0)
        }
        &&& forall|i: int| 0 <= i < self.leaf(x).entries.len() ==> #[trigger] self.leaf_entry_ok(x, i)
    }

    pub open spec fn child_ok(self, x: PageId, i: int) -> bool {
        let entries = self.internal(x).entries;
        let c = entries[i].1;
        &&& self.is_node(c)
        &&& self.g.level[c] + 1 == self.g.level[x]
        &&& self.g.parent[c] == x
        &&& i == 0 ==> self.g.fl[c] == self.g.fl[x]
        &&& i == entries.len() - 1 ==> self.g.nl[c] == self.g.nl[x]
        &&& i + 1 < entries.len() ==> self.g.nl[c] == self.g.fl[entries[i + 1].1]
        &&& i >= 1 ==> self.g.lowkey[self.g.fl[c]] == Some(entries[i].0) && self.g.sep_child[self.g.fl[c]]
            == c
    }

    pub open spec fn internal_ok(self, x: PageId, slack: Slack) -> bool {
        &&& self.pages.contains_key(x)
        &&& self.pages[x] is Internal
        &&& self.internal(x).max_size == self.internal_max
        &&& self.size_ok(x, self.internal(x).entries.len() as int, self.internal_max, slack)
        &&& self.internal(x).entries.len() >= 1
        &&& x == self.root ==> self.internal(x).entries.len() >= 2 || slack == Slack::Grown(
            self.internal(x).entries[0].1,
        )
        &&& keys_conform(self.internal(x).entries, self.types)
        &&& forall|i: int| 0 <= i < self.internal(x).entries.len() ==> #[trigger] self.child_ok(x, i)
        &&& forall|i: int, j: int|
            0 <= i < j < self.internal(x).entries.len() ==> self.internal(x).entries[i].1
                != self.internal(x).entries[j].1
    }

    pub open spec fn node_ok(self, x: PageId, slack: Slack) -> bool {
        &&& 1 <= x <= self.limit
        &&& self.g.fl[x] <= self.limit
        &&& self.g.nl[x] <= self.limit
        &&& if self.g.level[x] == 0 {
            self.leaf_ok(x, slack)
        } else {
            self.internal_ok(x, slack)
        }
    }

    /// The parameters allow a tree: a leaf can be split in two halves that
    /// hold something, an internal page has room for two children, and pages
    /// of the greatest size fit a page of the disk.
    pub open spec fn params_ok(self) -> bool {
        &&& self.leaf_max >= 1
        &&& self.internal_max >= 2
        &&& leaf_fits(self.types, self.leaf_max as int)
        &&& internal_fits(self.types, self.internal_max as int)
    }

    /// The tree is in order, but for the slack given.
    pub open spec fn ok(self, slack: Slack) -> bool {
        &&& self.params_ok()
        &&& self.limit <= u32::MAX
        &&& self.root == INVALID_PAGE_ID ==> forall|x: PageId| !self.is_node(x)
        &&& self.root != INVALID_PAGE_ID ==> {
            &&& self.is_node(self.root)
            &&& self.g.lowkey[self.g.fl[self.root]] is None
            &&& self.g.nl[self.root] == INVALID_PAGE_ID
            &&& self.g.level[self.root] < self.limit
            &&& self.g.parent[self.root] == INVALID_PAGE_ID
        }
        &&& forall|x: PageId| #[trigger] self.is_node(x) ==> self.node_ok(x, slack)
    }

    /// Whether some leaf of the tree holds the entry.
    pub open spec fn stored(self, key: Key, rid: RecordId) -> bool {
        exists|x: PageId, i: int|
            self.is_node(x) && self.g.level[x] == 0 && 0 <= i < self.leaf(x).entries.len()
                && #[trigger] self.leaf(x).entries[i] == (key, rid)
    }

    /// The leaf that a key is routed to.
    pub open spec fn leaf_for(self, key: Key) -> Option<PageId> {
        if self.root == INVALID_PAGE_ID {
            None
        } else {
            descend(self.pages, self.root, key, self.limit)
        }
    }

    /// What a look-up of the key gives: the record id of the first entry with
    /// the key on the leaf that the key is routed to.
    pub open spec fn lookup(self, key: Key) -> Option<RecordId> {
        match self.leaf_for(key) {
            Some(x) => self.leaf(x).look_up(key),
            None => None,
        }
    }

    /// The tree with the page `x` replaced.
    pub open spec fn with_page(self, x: PageId, page: TreePageView) -> TreeModel {
        TreeModel { pages: self.pages.insert(x, page), ..self }
    }

    /// A slack that is not used is no slack.
    pub proof fn lemma_tighten(self, slack: Slack)
        requires
            self.ok(slack),
            match slack {
                Slack::Tight => true,
                Slack::Over(x) => self.is_node(x) ==> self.pages[x].size() <= self.pages[x].max_size(),
                Slack::Grown(x) => false,
                Slack::Under(x) => self.is_node(x) ==> x == self.root || self.pages[x].size()
                    >= min_size_of(self.pages[x].max_size()),
            },
        ensures
            self.ok(Slack::Tight),
    {
        assert forall|x: PageId| #[trigger] self.is_node(x) implies self.node_ok(x, Slack::Tight) by {
            assert(self.node_ok(x, slack));
            if self.g.level[x] == 0 {
                assert forall|i: int| 0 <= i < self.leaf(x).entries.len() implies #[trigger] self.leaf_entry_ok(
                    x,
                    i,
                ) by {}
            } else {
                assert forall|i: int| 0 <= i < self.internal(x).entries.len() implies #[trigger] self.child_ok(
                    x,
                    i,
                ) by {}
            }
        }
    }

    /// A tree in order is in order with any slack.
    pub proof fn lemma_loosen(self, slack: Slack)
        requires
            self.ok(Slack::Tight),
        ensures
            self.ok(slack),
    {
        assert forall|x: PageId| #[trigger] self.is_node(x) implies self.node_ok(x, slack) by {
            assert(self.node_ok(x, Slack::Tight));
            if self.g.level[x] == 0 {
                assert forall|i: int| 0 <= i < self.leaf(x).entries.len() implies #[trigger] self.leaf_entry_ok(
                    x,
                    i,
                ) by {}
            } else {
                assert forall|i: int| 0 <= i < self.internal(x).entries.len() implies #[trigger] self.child_ok(
                    x,
                    i,
                ) by {}
            }
        }
    }

    /// One step of routing: the child that a key is routed to takes the keys
    /// that are routed to it.
    pub proof fn lemma_route_step(self, slack: Slack, x: PageId, key: Key)
        requires
            self.ok(slack),
            self.is_node(x),
            self.g.level[x] >= 1,
            self.in_range(x, key),
        ensures
            self.pages.contains_key(x),
            self.pages[x] is Internal,
            self.internal(x).entries.len() >= 1,
            self.is_node(self.internal(x).look_up(key)),
            self.g.level[self.internal(x).look_up(key)] + 1 == self.g.level[x],
            self.g.parent[self.internal(x).look_up(key)] == x,
            self.in_range(self.internal(x).look_up(key), key),
    {
        assert(self.node_ok(x, slack));
        let entries = self.internal(x).entries;
        let n = entries.len() as int;
        lemma_route_index(entries, key, n);
        let i = route_index(entries, key, n);
        assert(self.child_ok(x, i));
        if i + 1 < n {
            assert(self.child_ok(x, i + 1));
            lemma_key_le_total(entries[i + 1].0, key);
        }
    }

    /// Routing ends at a leaf of the tree that takes the key.
    pub proof fn lemma_descend(self, slack: Slack, x: PageId, key: Key, fuel: nat)
        requires
            self.ok(slack),
            self.is_node(x),
            self.in_range(x, key),
            fuel > self.g.level[x],
        ensures
            descend(self.pages, x, key, fuel) is Some,
            self.is_node(descend(self.pages, x, key, fuel)->Some_0),
            self.g.level[descend(self.pages, x, key, fuel)->Some_0] == 0,
            self.in_range(descend(self.pages, x, key, fuel)->Some_0, key),
        decreases fuel,
    {
        assert(self.node_ok(x, slack));
        if self.g.level[x] >= 1 {
            self.lemma_route_step(slack, x, key);
            self.lemma_descend(slack, self.internal(x).look_up(key), key, (fuel - 1) as nat);
        }
    }

    /// Every key is routed to a leaf of a tree that is not empty.
    pub proof fn lemma_leaf_for(self, slack: Slack, key: Key)
        requires
            self.ok(slack),
            self.root != INVALID_PAGE_ID,
        ensures
            self.leaf_for(key) is Some,
            self.is_node(self.leaf_for(key)->Some_0),
            self.g.level[self.leaf_for(key)->Some_0] == 0,
            self.in_range(self.leaf_for(key)->Some_0, key),
    {
        self.lemma_descend(slack, self.root, key, self.limit);
    }

    /// A look-up finds only what is stored.
    pub proof fn lemma_lookup_sound(self, slack: Slack, key: Key)
        requires
            self.ok(slack),
            self.lookup(key) is Some,
        ensures
            self.stored(key, self.lookup(key)->Some_0),
    {
        self.lemma_leaf_for(slack, key);
        let x = self.leaf_for(key)->Some_0;
        lemma_first_match(self.leaf(x).entries, key, 0);
        let i = first_match(self.leaf(x).entries, key, 0);
        assert(self.leaf(x).entries[i] == (key, self.lookup(key)->Some_0));
    }

    /// The tree after an entry was put on the leaf that its key is routed
    /// to, which may now hold one entry too many.
    pub proof fn lemma_leaf_insert(self, x: PageId, key: Key, rid: RecordId)
        requires
            self.ok(Slack::Tight),
            self.is_node(x),
            self.g.level[x] == 0,
            self.in_range(x, key),
            conforms_to(key, self.types),
        ensures
            self.with_page(x, TreePageView::Leaf(self.leaf(x).insert(key, rid))).ok(Slack::Over(x)),
    {
        let after = self.with_page(x, TreePageView::Leaf(self.leaf(x).insert(key, rid)));
        assert(self.node_ok(x, Slack::Tight));
        let old_entries = self.leaf(x).entries;
        let n = old_entries.len() as int;
        lemma_upper_pos(old_entries, key, n);
        let p = upper_pos(old_entries, key, n);
        let new_entries = after.leaf(x).entries;
        assert(new_entries == old_entries.insert(p, (key, rid)));
        assert forall|i: int| 0 <= i < new_entries.len() implies #[trigger] after.leaf_entry_ok(
            x,
            i,
        ) by {
            if i < p {
                assert(self.leaf_entry_ok(x, i));
            } else if i > p {
                assert(self.leaf_entry_ok(x, i - 1));
            } else {
                if self.leaf(x).next_page_id != INVALID_PAGE_ID {
                    assert(self.upper_strict(key, self.leaf(x).next_page_id));
                }
            }
        }
        assert(keys_conform(new_entries, self.types)) by {
            assert forall|i: int| 0 <= i < new_entries.len() implies conforms_to(
                (#[trigger] new_entries[i]).0,
                self.types,
            ) by {
                if i < p {
                    assert(new_entries[i] == old_entries[i]);
                } else if i > p {
                    assert(new_entries[i] == old_entries[i - 1]);
                }
            }
        }
        assert(sorted(new_entries)) by {
            assert forall|i: int, j: int| 0 <= i < j < new_entries.len() implies key_le(
                new_entries[i].0,
                new_entries[j].0,
            ) by {
                let a = if i < p {
                    i
                } else {
                    i - 1
                };
                let b = if j < p {
                    j
                } else {
                    j - 1
                };
                if i == p {
                    assert(new_entries[j] == old_entries[j - 1]);
                    lemma_key_le_total(old_entries[j - 1].0, key);
                } else if j == p {
                    assert(new_entries[i] == old_entries[i]);
                    if p > 0 {
                        if i < p - 1 {
                            assert(key_le(old_entries[i].0, old_entries[p - 1].0));
                        }
                        lemma_key_le_transitive(old_entries[i].0, old_entries[p - 1].0, key);
                    }
                } else {
                    assert(new_entries[i] == old_entries[a]);
                    assert(new_entries[j] == old_entries[b]);
                }
            }
        }
        assert forall|z: PageId| #[trigger] after.is_node(z) implies after.node_ok(
            z,
            Slack::Over(x),
        ) by {
            assert(self.is_node(z));
            assert(self.node_ok(z, Slack::Tight));
            if z != x {
                if self.g.level[z] == 0 {
                    assert forall|i: int| 0 <= i < after.leaf(z).entries.len() implies #[trigger] after.leaf_entry_ok(
                        z,
                        i,
                    ) by {
                        assert(self.leaf_entry_ok(z, i));
                    }
                } else {
                    assert forall|i: int| 0 <= i < after.internal(z).entries.len() implies #[trigger] after.child_ok(
                        z,
                        i,
                    ) by {
                        assert(self.child_ok(z, i));
                    }
                }
            }
        }
    }

    /// Whether the page id is used nowhere in the tree.
    pub open spec fn fresh(self, y: PageId) -> bool {
        forall|z: PageId| #[trigger]
            self.is_node(z) ==> z != y && self.g.fl[z] != y && self.g.nl[z] != y
    }

    /// Page ids beyond those handed out are used nowhere.
    pub proof fn lemma_fresh(self, slack: Slack, y: PageId)
        requires
            self.ok(slack),
            y > self.limit,
        ensures
            self.fresh(y),
    {
        assert forall|z: PageId| #[trigger] self.is_node(z) implies z != y && self.g.fl[z] != y
            && self.g.nl[z] != y by {
            assert(self.node_ok(z, slack));
        }
    }

    /// The tree with a new root `r` above the old root, whose only child the
    /// old root is.
    pub open spec fn grow_root(self, r: PageId, empty_key: Key, new_limit: nat) -> TreeModel {
        let x = self.root;
        TreeModel {
            root: r,
            pages: self.pages.insert(
                r,
                TreePageView::Internal(
                    InternalView { max_size: self.internal_max, entries: seq![(empty_key, x)] },
                ),
            ),
            limit: new_limit,
            g: TreeGhost {
                level: self.g.level.insert(r, self.g.level[x] + 1),
                fl: self.g.fl.insert(r, self.g.fl[x]),
                nl: self.g.nl.insert(r, INVALID_PAGE_ID),
                parent: self.g.parent.insert(x, r).insert(r, INVALID_PAGE_ID),
                ..self.g
            },
            ..self
        }
    }

    /// A root with one entry too many can get a root above it, and is then a
    /// page like any other with one entry too many.
    pub proof fn lemma_grow_root(self, r: PageId, empty_key: Key, new_limit: nat, y: PageId)
        requires
            self.ok(Slack::Over(self.root)),
            self.root != INVALID_PAGE_ID,
            self.pages[self.root].size() == self.pages[self.root].max_size() + 1,
            conforms_to(empty_key, self.types),
            self.fresh(r),
            self.fresh(y),
            y != r,
            1 <= r <= new_limit,
            self.limit < new_limit <= u32::MAX,
        ensures
            self.grow_root(r, empty_key, new_limit).ok(Slack::Grown(self.root)),
            self.grow_root(r, empty_key, new_limit).fresh(y),
    {
        let x = self.root;
        let after = self.grow_root(r, empty_key, new_limit);
        let slack = Slack::Grown(x);
        assert(self.is_node(x));
        assert(self.node_ok(x, Slack::Over(x)));
        assert forall|z: PageId| #[trigger] after.is_node(z) implies after.node_ok(z, slack) by {
            if z == r {
                assert(after.child_ok(r, 0));
            } else {
                assert(self.is_node(z));
                assert(self.node_ok(z, Slack::Over(x)));
                if self.g.level[z] == 0 {
                    assert forall|i: int| 0 <= i < after.leaf(z).entries.len() implies #[trigger] after.leaf_entry_ok(
                        z,
                        i,
                    ) by {
                        assert(self.leaf_entry_ok(z, i));
                    }
                } else {
                    assert forall|i: int| 0 <= i < after.internal(z).entries.len() implies #[trigger] after.child_ok(
                        z,
                        i,
                    ) by {
                        assert(self.child_ok(z, i));
                        assert(self.is_node(self.internal(z).entries[i].1));
                        if i + 1 < self.internal(z).entries.len() {
                            assert(self.child_ok(z, i + 1));
                            assert(self.is_node(self.internal(z).entries[i + 1].1));
                        }
                    }
                }
            }
        }
        assert forall|z: PageId| #[trigger] after.is_node(z) implies z != y && after.g.fl[z] != y
            && after.g.nl[z] != y by {
            if z != r {
                assert(self.is_node(z));
            }
        }
    }

    /// The tree after the leaf `x`, child number `idx` of `p`, gave its upper
    /// half to the new leaf `y`, and `p` got `y` as a child after `x`.
    pub open spec fn split_leaf(self, x: PageId, y: PageId, p: PageId, idx: int, new_limit: nat) -> TreeModel {
        let leaf = self.leaf(x);
        let n = leaf.entries.len() as int;
        let mid = n / 2;
        let sep = leaf.entries[mid].0;
        let left = LeafView { entries: leaf.entries.subrange(0, mid), next_page_id: y, ..leaf };
        let right = LeafView { entries: leaf.entries.subrange(mid, n), ..leaf };
        let parent = InternalView {
            entries: self.internal(p).entries.insert(idx + 1, (sep, y)),
            ..self.internal(p)
        };
        TreeModel {
            pages: self.pages.insert(x, TreePageView::Leaf(left)).insert(
                y,
                TreePageView::Leaf(right),
            ).insert(p, TreePageView::Internal(parent)),
            limit: new_limit,
            g: TreeGhost {
                level: self.g.level.insert(y, 0),
                fl: self.g.fl.insert(y, y),
                nl: self.g.nl.insert(y, leaf.next_page_id).insert(x, y),
                parent: self.g.parent.insert(y, p),
                prev: self.g.prev.insert(leaf.next_page_id, y).insert(y, x),
                lowkey: self.g.lowkey.insert(y, Some(sep)),
                sep_child: self.g.sep_child.insert(y, y),
            },
            ..self
        }
    }

    /// Splitting a leaf with one entry too many leaves the tree in order, but
    /// that the parent may now have one entry too many.
    pub proof fn lemma_split_leaf(
        self,
        before_slack: Slack,
        x: PageId,
        y: PageId,
        p: PageId,
        idx: int,
        new_limit: nat,
    )
        requires
            before_slack == Slack::Over(x) || before_slack == Slack::Grown(x),
            self.ok(before_slack),
            self.is_node(x),
            self.g.level[x] == 0,
            self.leaf(x).entries.len() == self.leaf_max + 1,
            self.is_node(p),
            self.g.level[p] >= 1,
            0 <= idx < self.internal(p).entries.len(),
            self.internal(p).entries[idx].1 == x,
            self.fresh(y),
            1 <= y <= new_limit,
            self.limit <= new_limit <= u32::MAX,
        ensures
            self.split_leaf(x, y, p, idx, new_limit).ok(Slack::Over(p)),
    {
        let after = self.split_leaf(x, y, p, idx, new_limit);
        let slack = Slack::Over(p);
        let leaf = self.leaf(x);
        let n = leaf.entries.len() as int;
        let mid = n / 2;
        let sep = leaf.entries[mid].0;
        let next = leaf.next_page_id;
        assert(self.node_ok(x, before_slack));
        assert(self.node_ok(p, before_slack));
        assert(self.child_ok(p, idx));
        assert(x != self.root);
        assert(self.leaf_entry_ok(x, mid));
        let old_entries = self.internal(p).entries;
        let new_entries = after.internal(p).entries;
        assert(new_entries == old_entries.insert(idx + 1, (sep, y)));
        if next != INVALID_PAGE_ID {
            assert(self.is_node(next));
        }
        assert forall|z: PageId| #[trigger] after.is_node(z) implies after.node_ok(z, slack) by {
            if z == y {
                assert forall|i: int| 0 <= i < after.leaf(y).entries.len() implies #[trigger] after.leaf_entry_ok(
                    y,
                    i,
                ) by {
                    assert(self.leaf_entry_ok(x, mid + i));
                    assert(after.leaf(y).entries[i] == leaf.entries[mid + i]);
                    if i > 0 {
                        assert(key_le(leaf.entries[mid].0, leaf.entries[mid + i].0));
                    }
                }
                assert(keys_conform(after.leaf(y).entries, self.types)) by {
                    assert forall|i: int| 0 <= i < after.leaf(y).entries.len() implies conforms_to(
                        (#[trigger] after.leaf(y).entries[i]).0,
                        self.types,
                    ) by {
                        assert(after.leaf(y).entries[i] == leaf.entries[mid + i]);
                    }
                }
                assert(sorted(after.leaf(y).entries)) by {
                    assert forall|i: int, j: int|
                        0 <= i < j < after.leaf(y).entries.len() implies key_le(
                        after.leaf(y).entries[i].0,
                        after.leaf(y).entries[j].0,
                    ) by {
                        assert(key_le(leaf.entries[mid + i].0, leaf.entries[mid + j].0));
                    }
                }
            } else if z == x {
                assert forall|i: int| 0 <= i < after.leaf(x).entries.len() implies #[trigger] after.leaf_entry_ok(
                    x,
                    i,
                ) by {
                    assert(self.leaf_entry_ok(x, i));
                    assert(after.leaf(x).entries[i] == leaf.entries[i]);
                    assert(key_le(leaf.entries[i].0, leaf.entries[mid].0));
                }
                assert(keys_conform(after.leaf(x).entries, self.types)) by {
                    assert forall|i: int| 0 <= i < after.leaf(x).entries.len() implies conforms_to(
                        (#[trigger] after.leaf(x).entries[i]).0,
                        self.types,
                    ) by {
                        assert(after.leaf(x).entries[i] == leaf.entries[i]);
                    }
                }
                assert(sorted(after.leaf(x).entries)) by {
                    assert forall|i: int, j: int|
                        0 <= i < j < after.leaf(x).entries.len() implies key_le(
                        after.leaf(x).entries[i].0,
                        after.leaf(x).entries[j].0,
                    ) by {
                        assert(key_le(leaf.entries[i].0, leaf.entries[j].0));
                    }
                }
            } else if z == p {
                assert forall|i: int| 0 <= i < new_entries.len() implies #[trigger] after.child_ok(
                    p,
                    i,
                ) by {
                    if i <= idx {
                        assert(self.child_ok(p, i));
                        assert(self.is_node(old_entries[i].1));
                        assert(new_entries[i] == old_entries[i]);
                        if i < idx {
                            assert(new_entries[i + 1] == old_entries[i + 1]);
                            assert(self.child_ok(p, i + 1));
                            assert(self.is_node(old_entries[i + 1].1));
                            assert(old_entries[i].1 != old_entries[idx].1);
                        }
                    } else if i > idx + 1 {
                        assert(self.child_ok(p, i - 1));
                        assert(self.is_node(old_entries[i - 1].1));
                        assert(new_entries[i] == old_entries[i - 1]);
                        assert(old_entries[idx].1 != old_entries[i - 1].1);
                        if i + 1 < new_entries.len() {
                            assert(new_entries[i + 1] == old_entries[i]);
                            assert(self.child_ok(p, i));
                            assert(self.is_node(old_entries[i].1));
                        }
                    } else {
                        assert(new_entries[i] == (sep, y));
                        if idx + 1 < old_entries.len() {
                            assert(new_entries[idx + 2] == old_entries[idx + 1]);
                            assert(self.child_ok(p, idx + 1));
                            assert(self.is_node(old_entries[idx + 1].1));
                        }
                    }
                }
                assert forall|i: int, j: int| 0 <= i < j < new_entries.len() implies new_entries[i].1
                    != new_entries[j].1 by {
                    let a = if i <= idx {
                        i
                    } else {
                        i - 1
                    };
                    let b = if j <= idx {
                        j
                    } else {
                        j - 1
                    };
                    if i != idx + 1 && j != idx + 1 {
                        assert(new_entries[i] == old_entries[a]);
                        assert(new_entries[j] == old_entries[b]);
                    } else if i == idx + 1 {
                        assert(new_entries[j] == old_entries[b]);
                        assert(self.child_ok(p, b));
                    } else {
                        assert(new_entries[i] == old_entries[a]);
                        assert(self.child_ok(p, a));
                    }
                }
                assert(keys_conform(new_entries, self.types)) by {
                    assert forall|i: int| 0 <= i < new_entries.len() implies conforms_to(
                        (#[trigger] new_entries[i]).0,
                        self.types,
                    ) by {
                        if i <= idx {
                            assert(new_entries[i] == old_entries[i]);
                        } else if i > idx + 1 {
                            assert(new_entries[i] == old_entries[i - 1]);
                        } else {
                            assert(conforms_to(leaf.entries[mid].0, self.types));
                        }
                    }
                }
            } else {
                assert(self.is_node(z));
                assert(self.node_ok(z, before_slack));
                if self.g.level[z] == 0 {
                    assert forall|i: int| 0 <= i < after.leaf(z).entries.len() implies #[trigger] after.leaf_entry_ok(
                        z,
                        i,
                    ) by {
                        assert(self.leaf_entry_ok(z, i));
                    }
                    let zn = self.leaf(z).next_page_id;
                    if zn != INVALID_PAGE_ID {
                        assert(self.is_node(zn));
                    }
                } else {
                    if z == self.root {
                        assert(self.child_ok(z, 0));
                    }
                    assert forall|i: int| 0 <= i < after.internal(z).entries.len() implies #[trigger] after.child_ok(
                        z,
                        i,
                    ) by {
                        assert(self.child_ok(z, i));
                        let c = self.internal(z).entries[i].1;
                        assert(self.is_node(c));
                        if i + 1 < self.internal(z).entries.len() {
                            assert(self.child_ok(z, i + 1));
                        }
                    }
                }
            }
        }
        assert(self.is_node(self.root));
    }

    /// Whether `c` is among the children of `x` from place `mid` on.
    pub open spec fn moved(self, x: PageId, mid: int, c: PageId) -> bool {
        exists|j: int|
            mid <= j < self.internal(x).entries.len() && #[trigger] self.internal(x).entries[j].1
                == c
    }

    /// The tree after the internal page `x`, child number `idx` of `p`, gave
    /// its upper half to the new page `y`, and `p` got `y` as a child after
    /// `x` under the key `sep`.
    pub open spec fn split_internal(
        self,
        x: PageId,
        y: PageId,
        p: PageId,
        idx: int,
        sep: Key,
        new_limit: nat,
    ) -> TreeModel {
        let node = self.internal(x);
        let n = node.entries.len() as int;
        let mid = n / 2;
        let first = self.g.fl[node.entries[mid].1];
        let left = InternalView { entries: node.entries.subrange(0, mid), ..node };
        let right = InternalView { entries: node.entries.subrange(mid, n), ..node };
        let parent = InternalView {
            entries: self.internal(p).entries.insert(idx + 1, (sep, y)),
            ..self.internal(p)
        };
        TreeModel {
            pages: self.pages.insert(x, TreePageView::Internal(left)).insert(
                y,
                TreePageView::Internal(right),
            ).insert(p, TreePageView::Internal(parent)),
            limit: new_limit,
            g: TreeGhost {
                level: self.g.level.insert(y, self.g.level[x]),
                fl: self.g.fl.insert(y, first),
                nl: self.g.nl.insert(y, self.g.nl[x]).insert(x, first),
                parent: Map::new(
                    |c: PageId| true,
                    |c: PageId|
                        if self.moved(x, mid, c) {
                            y
                        } else if c == y {
                            p
                        } else {
                            self.g.parent[c]
                        },
                ),
                lowkey: self.g.lowkey.insert(first, Some(sep)),
                sep_child: self.g.sep_child.insert(first, y),
                ..self.g
            },
            ..self
        }
    }

    /// Splitting an internal page with one entry too many leaves the tree in
    /// order, but that the parent may now have one entry too many. The key
    /// under which the new page goes into the parent is the least key below
    /// it.
    pub proof fn lemma_split_internal(
        self,
        before_slack: Slack,
        x: PageId,
        y: PageId,
        p: PageId,
        idx: int,
        sep: Key,
        new_limit: nat,
    )
        requires
            before_slack == Slack::Over(x) || before_slack == Slack::Grown(x),
            self.ok(before_slack),
            self.is_node(x),
            self.g.level[x] >= 1,
            self.internal(x).entries.len() == self.internal_max + 1,
            self.is_node(p),
            0 <= idx < self.internal(p).entries.len(),
            self.g.level[p] >= 1,
            self.internal(p).entries[idx].1 == x,
            self.fresh(y),
            1 <= y <= new_limit,
            self.limit <= new_limit <= u32::MAX,
            ({
                let first = self.g.fl[self.internal(x).entries[(self.internal_max + 1) / 2].1];
                &&& self.is_node(first)
                &&& self.g.level[first] == 0
                &&& self.leaf(first).entries.len() >= 1
                &&& sep == self.leaf(first).entries[0].0
            }),
        ensures
            self.split_internal(x, y, p, idx, sep, new_limit).ok(Slack::Over(p)),
    {
        let after = self.split_internal(x, y, p, idx, sep, new_limit);
        let slack = Slack::Over(p);
        let node = self.internal(x);
        let n = node.entries.len() as int;
        let mid = n / 2;
        let cm = node.entries[mid].1;
        let first = self.g.fl[cm];
        assert(self.node_ok(x, before_slack));
        assert(self.node_ok(p, before_slack));
        assert(self.node_ok(first, before_slack));
        assert(self.child_ok(p, idx));
        assert(self.child_ok(x, mid));
        assert(self.is_node(cm));
        assert(x != self.root);
        assert(self.is_node(self.root));
        assert(self.leaf_entry_ok(first, 0));
        let old_low = self.g.lowkey[first]->Some_0;
        assert(key_le(old_low, sep));
        let old_entries = self.internal(p).entries;
        let new_entries = after.internal(p).entries;
        assert(new_entries == old_entries.insert(idx + 1, (sep, y)));
        // which children moved
        assert forall|j: int| 0 <= j < n implies (self.moved(x, mid, #[trigger] node.entries[j].1)
            <==> j >= mid) by {
            if j < mid {
                if self.moved(x, mid, node.entries[j].1) {
                    let j2 = choose|j2: int|
                        mid <= j2 < n && #[trigger] self.internal(x).entries[j2].1
                            == node.entries[j].1;
                    assert(node.entries[j].1 != node.entries[j2].1);
                }
            }
        }
        assert forall|c: PageId| self.moved(x, mid, c) implies self.g.parent[c] == x
            && self.is_node(c) by {
            let j2 = choose|j2: int|
                mid <= j2 < n && #[trigger] self.internal(x).entries[j2].1 == c;
            assert(self.child_ok(x, j2));
        }
        assert forall|z: PageId| #[trigger] after.is_node(z) implies after.node_ok(z, slack) by {
            if z == y {
                let entries = after.internal(y).entries;
                assert forall|i: int| 0 <= i < entries.len() implies #[trigger] after.child_ok(
                    y,
                    i,
                ) by {
                    assert(entries[i] == node.entries[mid + i]);
                    assert(self.child_ok(x, mid + i));
                    let c = node.entries[mid + i].1;
                    assert(self.is_node(c));
                    assert(self.moved(x, mid, c));
                    if i + 1 < entries.len() {
                        assert(entries[i + 1] == node.entries[mid + i + 1]);
                        assert(self.child_ok(x, mid + i + 1));
                        assert(self.is_node(node.entries[mid + i + 1].1));
                    }
                    if i >= 1 {
                        if self.g.fl[c] == first {
                            assert(node.entries[mid].1 != node.entries[mid + i].1);
                        }
                    }
                }
                assert forall|i: int, j: int| 0 <= i < j < entries.len() implies entries[i].1
                    != entries[j].1 by {
                    assert(node.entries[mid + i].1 != node.entries[mid + j].1);
                }
                assert(keys_conform(entries, self.types)) by {
                    assert forall|i: int| 0 <= i < entries.len() implies conforms_to(
                        (#[trigger] entries[i]).0,
                        self.types,
                    ) by {
                        assert(entries[i] == node.entries[mid + i]);
                    }
                }
            } else if z == x {
                let entries = after.internal(x).entries;
                assert forall|i: int| 0 <= i < entries.len() implies #[trigger] after.child_ok(
                    x,
                    i,
                ) by {
                    assert(entries[i] == node.entries[i]);
                    assert(self.child_ok(x, i));
                    let c = node.entries[i].1;
                    assert(self.is_node(c));
                    assert(!self.moved(x, mid, c));
                    if i + 1 < entries.len() {
                        assert(entries[i + 1] == node.entries[i + 1]);
                    }
                    assert(self.child_ok(x, i + 1));
                    assert(self.is_node(node.entries[i + 1].1));
                    if i >= 1 {
                        if self.g.fl[c] == first {
                            assert(node.entries[i].1 != node.entries[mid].1);
                        }
                    }
                }
                assert forall|i: int, j: int| 0 <= i < j < entries.len() implies entries[i].1
                    != entries[j].1 by {
                    assert(node.entries[i].1 != node.entries[j].1);
                }
                assert(keys_conform(entries, self.types)) by {
                    assert forall|i: int| 0 <= i < entries.len() implies conforms_to(
                        (#[trigger] entries[i]).0,
                        self.types,
                    ) by {
                        assert(entries[i] == node.entries[i]);
                    }
                }
            } else if z == p {
                assert forall|i: int| 0 <= i < new_entries.len() implies #[trigger] after.child_ok(
                    p,
                    i,
                ) by {
                    if i <= idx {
                        assert(self.child_ok(p, i));
                        let c = old_entries[i].1;
                        assert(self.is_node(c));
                        assert(new_entries[i] == old_entries[i]);
                        if self.moved(x, mid, c) {
                            assert(self.g.parent[c] == x);
                        }
                        if i < idx {
                            assert(new_entries[i + 1] == old_entries[i + 1]);
                            assert(self.child_ok(p, i + 1));
                            assert(self.is_node(old_entries[i + 1].1));
                            assert(old_entries[i].1 != old_entries[idx].1);
                        }
                        if i >= 1 && self.g.fl[c] == first {
                            assert(self.g.sep_child[first] == c);
                            assert(self.g.parent[cm] == x);
                        }
                    } else if i > idx + 1 {
                        assert(self.child_ok(p, i - 1));
                        let c = old_entries[i - 1].1;
                        assert(self.is_node(c));
                        assert(new_entries[i] == old_entries[i - 1]);
                        assert(old_entries[idx].1 != old_entries[i - 1].1);
                        if self.moved(x, mid, c) {
                            assert(self.g.parent[c] == x);
                        }
                        if i + 1 < new_entries.len() {
                            assert(new_entries[i + 1] == old_entries[i]);
                            assert(self.child_ok(p, i));
                            assert(self.is_node(old_entries[i].1));
                        }
                        if self.g.fl[c] == first {
                            assert(self.g.sep_child[first] == c);
                            assert(self.g.parent[cm] == x);
                        }
                    } else {
                        assert(new_entries[i] == (sep, y));
                        assert(!self.moved(x, mid, y)) by {
                            if self.moved(x, mid, y) {
                                assert(self.is_node(y));
                            }
                        }
                        if idx + 1 < old_entries.len() {
                            assert(new_entries[idx + 2] == old_entries[idx + 1]);
                            assert(self.child_ok(p, idx + 1));
                            assert(self.is_node(old_entries[idx + 1].1));
                        }
                    }
                }
                assert forall|i: int, j: int| 0 <= i < j < new_entries.len() implies new_entries[i].1
                    != new_entries[j].1 by {
                    let a = if i <= idx {
                        i
                    } else {
                        i - 1
                    };
                    let b = if j <= idx {
                        j
                    } else {
                        j - 1
                    };
                    if i != idx + 1 && j != idx + 1 {
                        assert(new_entries[i] == old_entries[a]);
                        assert(new_entries[j] == old_entries[b]);
                    } else if i == idx + 1 {
                        assert(new_entries[j] == old_entries[b]);
                        assert(self.child_ok(p, b));
                    } else {
                        assert(new_entries[i] == old_entries[a]);
                        assert(self.child_ok(p, a));
                    }
                }
                assert(keys_conform(new_entries, self.types)) by {
                    assert forall|i: int| 0 <= i < new_entries.len() implies conforms_to(
                        (#[trigger] new_entries[i]).0,
                        self.types,
                    ) by {
                        if i <= idx {
                            assert(new_entries[i] == old_entries[i]);
                        } else if i > idx + 1 {
                            assert(new_entries[i] == old_entries[i - 1]);
                        } else {
                            assert(conforms_to(self.leaf(first).entries[0].0, self.types));
                        }
                    }
                }
            } else {
                assert(self.is_node(z));
                assert(self.node_ok(z, before_slack));
                if self.g.level[z] == 0 {
                    let zn = self.leaf(z).next_page_id;
                    if zn != INVALID_PAGE_ID {
                        assert(self.is_node(zn));
                    }
                    assert forall|i: int| 0 <= i < after.leaf(z).entries.len() implies #[trigger] after.leaf_entry_ok(
                        z,
                        i,
                    ) by {
                        assert(self.leaf_entry_ok(z, i));
                        let k = self.leaf(z).entries[i].0;
                        if z == first {
                            if i > 0 {
                                assert(key_le(self.leaf(z).entries[0].0, k));
                            }
                        }
                        if zn == first {
                            lemma_key_le_transitive(k, old_low, sep);
                        }
                    }
                    if zn == first && z != first {
                        if self.g.lowkey[z] is Some {
                            lemma_key_le_transitive(self.g.lowkey[z]->Some_0, old_low, sep);
                        }
                    }
                } else {
                    if z == self.root {
                        assert(self.child_ok(z, 0));
                    }
                    assert forall|i: int| 0 <= i < after.internal(z).entries.len() implies #[trigger] after.child_ok(
                        z,
                        i,
                    ) by {
                        assert(self.child_ok(z, i));
                        let c = self.internal(z).entries[i].1;
                        assert(self.is_node(c));
                        if self.moved(x, mid, c) {
                            assert(self.g.parent[c] == x);
                        }
                        if i + 1 < self.internal(z).entries.len() {
                            assert(self.child_ok(z, i + 1));
                            assert(self.is_node(self.internal(z).entries[i + 1].1));
                        }
                        if i >= 1 && self.g.fl[c] == first {
                            assert(self.g.sep_child[first] == c);
                            assert(self.g.parent[cm] == x);
                        }
                    }
                }
            }
        }
    }

    /// The leftmost leaf below a page is the one kept in mind for it, also
    /// where the pages that are read differ from those of the tree at pages
    /// that are not below it.
    pub proof fn lemma_leftmost(self, slack: Slack, other: Map<PageId, TreePageView>, x: PageId, fuel: nat)
        requires
            self.ok(slack),
            self.is_node(x),
            fuel > self.g.level[x],
            forall|z: PageId|
                #[trigger] self.is_node(z) && self.g.level[z] <= self.g.level[x]
                    ==> other.contains_key(z) && other[z] == self.pages[z],
        ensures
            leftmost(other, x, fuel) == Some(self.g.fl[x]),
            self.is_node(self.g.fl[x]),
            self.g.level[self.g.fl[x]] == 0,
            self.g.level[x] >= 1 ==> self.g.parent[self.g.fl[x]] != INVALID_PAGE_ID,
        decreases fuel,
    {
        assert(self.node_ok(x, slack));
        if self.g.level[x] >= 1 {
            assert(self.child_ok(x, 0));
            let c = self.internal(x).entries[0].1;
            self.lemma_leftmost(slack, other, c, (fuel - 1) as nat);
        }
    }

    /// Whether `c` is a child of `p`.
    pub open spec fn link_ok(self, p: PageId, c: PageId) -> bool {
        &&& self.is_node(p)
        &&& self.is_node(c)
        &&& self.g.level[p] == self.g.level[c] + 1
        &&& self.g.parent[c] == p
        &&& self.pages.contains_key(p)
        &&& self.pages[p] is Internal
        &&& child_index(self.internal(p).entries, c, 0) < self.internal(p).entries.len()
    }

    pub open spec fn step_ok(self, path: Seq<PageId>, j: int, x: PageId) -> bool {
        &&& self.is_node(path[j])
        &&& self.g.level[path[j]] == self.g.level[x] + path.len() - j
        &&& self.link_ok(
            path[j],
            if j + 1 < path.len() {
                path[j + 1]
            } else {
                x
            },
        )
    }

    /// Whether `path` is the way from the root down to the parent of `x`.
    pub open spec fn path_ok(self, path: Seq<PageId>, x: PageId) -> bool {
        &&& self.is_node(x)
        &&& path.len() == 0 ==> x == self.root
        &&& path.len() > 0 ==> path[0] == self.root
        &&& forall|j: int| 0 <= j < path.len() ==> #[trigger] self.step_ok(path, j, x)
    }

    /// A child that stands among the entries is found among them.
    pub proof fn lemma_child_present(entries: Seq<(Key, PageId)>, c: PageId, j: int)
        requires
            0 <= j < entries.len(),
            entries[j].1 == c,
        ensures
            child_index(entries, c, 0) <= j,
            entries[child_index(entries, c, 0)].1 == c,
    {
        lemma_child_index(entries, c, 0);
    }

    /// Going one step down extends the way.
    pub proof fn lemma_path_step(self, slack: Slack, path: Seq<PageId>, x: PageId, key: Key)
        requires
            self.ok(slack),
            self.path_ok(path, x),
            self.g.level[x] >= 1,
            self.in_range(x, key),
        ensures
            self.path_ok(path.push(x), self.internal(x).look_up(key)),
    {
        self.lemma_route_step(slack, x, key);
        let c = self.internal(x).look_up(key);
        let entries = self.internal(x).entries;
        lemma_route_index(entries, key, entries.len() as int);
        Self::lemma_child_present(entries, c, route_index(entries, key, entries.len() as int));
        let longer = path.push(x);
        assert forall|j: int| 0 <= j < longer.len() implies #[trigger] self.step_ok(longer, j, c) by {
            if j < path.len() {
                assert(self.step_ok(path, j, x));
                assert(longer[j] == path[j]);
                if j + 1 < path.len() {
                    assert(longer[j + 1] == path[j + 1]);
                }
            }
        }
        if path.len() > 0 {
            assert(longer[0] == path[0]);
        }
    }

    /// Where the tree has changed only at a page, its children and its
    /// parent, the way to the page is, but for its last step, the way to the
    /// parent.
    pub proof fn lemma_path_up(self, after: TreeModel, path: Seq<PageId>, x: PageId)
        requires
            self.path_ok(path, x),
            path.len() > 0,
            after.root == self.root,
            forall|z: PageId|
                #[trigger] self.is_node(z) && self.g.level[z] > self.g.level[x] ==> after.is_node(z)
                    && after.g.level[z] == self.g.level[z] && after.g.parent[z] == self.g.parent[z],
            forall|z: PageId|
                #[trigger] self.is_node(z) && self.g.level[z] > self.g.level[x] + 1
                    ==> after.pages.contains_key(z) == self.pages.contains_key(z) && after.pages[z]
                    == self.pages[z],
        ensures
            after.path_ok(path.drop_last(), path[path.len() - 1]),
    {
        let shorter = path.drop_last();
        let p = path[path.len() - 1];
        assert(self.step_ok(path, path.len() - 1, x));
        assert forall|j: int| 0 <= j < shorter.len() implies #[trigger] after.step_ok(shorter, j, p) by {
            assert(self.step_ok(path, j, x));
            assert(self.step_ok(path, j + 1, x));
            assert(shorter[j] == path[j]);
        }
        if shorter.len() > 0 {
            assert(shorter[0] == path[0]);
        } else {
            assert(path[0] == p);
        }
    }

    /// A leaf of the tree holds what it holds.
    pub proof fn lemma_stored_here(self, x: PageId, i: int)
        requires
            self.is_node(x),
            self.g.level[x] == 0,
            0 <= i < self.leaf(x).entries.len(),
        ensures
            self.stored(self.leaf(x).entries[i].0, self.leaf(x).entries[i].1),
    {
        assert(self.leaf(x).entries[i] == (self.leaf(x).entries[i].0, self.leaf(x).entries[i].1));
    }

    /// Trees with the same leaves store the same.
    pub proof fn lemma_same_leaves(self, other: TreeModel, key: Key, rid: RecordId)
        requires
            forall|z: PageId|
                #![trigger self.is_node(z)]
                #![trigger other.is_node(z)]
                ((self.is_node(z) && self.g.level[z] == 0) <==> (other.is_node(z)
                    && other.g.level[z] == 0)) && (self.is_node(z) && self.g.level[z] == 0
                    ==> self.leaf(z).entries == other.leaf(z).entries),
        ensures
            self.stored(key, rid) == other.stored(key, rid),
    {
        if self.stored(key, rid) {
            let (x, i) = choose|x: PageId, i: int|
                self.is_node(x) && self.g.level[x] == 0 && 0 <= i < self.leaf(x).entries.len()
                    && #[trigger] self.leaf(x).entries[i] == (key, rid);
            assert(other.is_node(x));
            assert(other.leaf(x).entries[i] == (key, rid));
        }
        if other.stored(key, rid) {
            let (x, i) = choose|x: PageId, i: int|
                other.is_node(x) && other.g.level[x] == 0 && 0 <= i < other.leaf(x).entries.len()
                    && #[trigger] other.leaf(x).entries[i] == (key, rid);
            assert(self.is_node(x));
            assert(self.leaf(x).entries[i] == (key, rid));
        }
    }

    /// After an entry was put on a leaf, the tree stores that entry and what
    /// it stored before.
    pub proof fn lemma_leaf_insert_stored(self, x: PageId, key: Key, rid: RecordId, k: Key, r: RecordId)
        requires
            self.is_node(x),
            self.g.level[x] == 0,
        ensures
            self.with_page(x, TreePageView::Leaf(self.leaf(x).insert(key, rid))).stored(k, r) == (
            self.stored(k, r) || (k == key && r == rid)),
    {
        let after = self.with_page(x, TreePageView::Leaf(self.leaf(x).insert(key, rid)));
        let old_entries = self.leaf(x).entries;
        let n = old_entries.len() as int;
        lemma_upper_pos(old_entries, key, n);
        let p = upper_pos(old_entries, key, n);
        let new_entries = after.leaf(x).entries;
        assert(new_entries == old_entries.insert(p, (key, rid)));
        if self.stored(k, r) {
            let (z, i) = choose|z: PageId, i: int|
                self.is_node(z) && self.g.level[z] == 0 && 0 <= i < self.leaf(z).entries.len()
                    && #[trigger] self.leaf(z).entries[i] == (k, r);
            if z == x {
                let i2 = if i < p {
                    i
                } else {
                    i + 1
                };
                assert(after.leaf(x).entries[i2] == (k, r));
            } else {
                assert(after.leaf(z).entries[i] == (k, r));
            }
            assert(after.is_node(z));
        }
        if k == key && r == rid {
            assert(after.is_node(x));
            assert(after.leaf(x).entries[p] == (k, r));
        }
        if after.stored(k, r) {
            let (z, i) = choose|z: PageId, i: int|
                after.is_node(z) && after.g.level[z] == 0 && 0 <= i < after.leaf(z).entries.len()
                    && #[trigger] after.leaf(z).entries[i] == (k, r);
            assert(self.is_node(z));
            if z == x {
                if i < p {
                    assert(self.leaf(x).entries[i] == (k, r));
                } else if i > p {
                    assert(self.leaf(x).entries[i - 1] == (k, r));
                }
            } else {
                assert(self.leaf(z).entries[i] == (k, r));
            }
        }
    }

    /// Splitting a leaf changes nothing in what the tree stores.
    pub proof fn lemma_split_leaf_stored(
        self,
        x: PageId,
        y: PageId,
        p: PageId,
        idx: int,
        new_limit: nat,
        k: Key,
        r: RecordId,
    )
        requires
            self.is_node(x),
            self.g.level[x] == 0,
            self.is_node(p),
            self.g.level[p] >= 1,
            self.fresh(y),
        ensures
            self.split_leaf(x, y, p, idx, new_limit).stored(k, r) == self.stored(k, r),
    {
        let after = self.split_leaf(x, y, p, idx, new_limit);
        let entries = self.leaf(x).entries;
        let n = entries.len() as int;
        let mid = n / 2;
        if self.stored(k, r) {
            let (z, i) = choose|z: PageId, i: int|
                self.is_node(z) && self.g.level[z] == 0 && 0 <= i < self.leaf(z).entries.len()
                    && #[trigger] self.leaf(z).entries[i] == (k, r);
            if z == x {
                if i < mid {
                    assert(after.is_node(x));
                    assert(after.leaf(x).entries[i] == (k, r));
                } else {
                    assert(after.is_node(y));
                    assert(after.leaf(y).entries[i - mid] == (k, r));
                }
            } else {
                assert(after.is_node(z));
                assert(after.leaf(z).entries[i] == (k, r));
            }
        }
        if after.stored(k, r) {
            let (z, i) = choose|z: PageId, i: int|
                after.is_node(z) && after.g.level[z] == 0 && 0 <= i < after.leaf(z).entries.len()
                    && #[trigger] after.leaf(z).entries[i] == (k, r);
            if z == x {
                assert(self.leaf(x).entries[i] == (k, r));
            } else if z == y {
                assert(self.leaf(x).entries[mid + i] == (k, r));
            } else {
                assert(self.is_node(z));
                assert(self.leaf(z).entries[i] == (k, r));
            }
        }
    }

    /// Splitting an internal page changes nothing in what the tree stores.
    pub proof fn lemma_split_internal_stored(
        self,
        x: PageId,
        y: PageId,
        p: PageId,
        idx: int,
        sep: Key,
        new_limit: nat,
        k: Key,
        r: RecordId,
    )
        requires
            self.is_node(x),
            self.g.level[x] >= 1,
            self.is_node(p),
            self.g.level[p] >= 1,
            self.fresh(y),
        ensures
            self.split_internal(x, y, p, idx, sep, new_limit).stored(k, r) == self.stored(k, r),
    {
        let after = self.split_internal(x, y, p, idx, sep, new_limit);
        assert forall|z: PageId|
            #![trigger self.is_node(z)]
            #![trigger after.is_node(z)]
            ((self.is_node(z) && self.g.level[z] == 0) <==> (after.is_node(z) && after.g.level[z]
                == 0)) && (self.is_node(z) && self.g.level[z] == 0 ==> self.leaf(z).entries
                == after.leaf(z).entries) by {
            if after.is_node(z) && z != y {
                assert(self.is_node(z));
            }
        }
        self.lemma_same_leaves(after, k, r);
    }

    /// Putting a root above the root changes nothing in what the tree
    /// stores.
    pub proof fn lemma_grow_root_stored(self, rt: PageId, empty_key: Key, new_limit: nat, k: Key, r: RecordId)
        requires
            self.fresh(rt),
            self.is_node(self.root),
        ensures
            self.grow_root(rt, empty_key, new_limit).stored(k, r) == self.stored(k, r),
    {
        let after = self.grow_root(rt, empty_key, new_limit);
        assert forall|z: PageId|
            #![trigger self.is_node(z)]
            #![trigger after.is_node(z)]
            ((self.is_node(z) && self.g.level[z] == 0) <==> (after.is_node(z) && after.g.level[z]
                == 0)) && (self.is_node(z) && self.g.level[z] == 0 ==> self.leaf(z).entries
                == after.leaf(z).entries) by {
            if after.is_node(z) && z != rt {
                assert(self.is_node(z));
            }
        }
        self.lemma_same_leaves(after, k, r);
    }

    /// The internal pages that a key goes through from the root to its leaf,
    /// the root first.
    pub open spec fn way_to(self, key: Key) -> Seq<PageId> {
        way(self.pages, self.root, key, self.limit)
    }

    /// The empty tree after it got a leaf with one entry as its root.
    pub open spec fn planted(self, key: Key, rid: RecordId) -> TreeModel {
        let y = (self.limit + 1) as PageId;
        TreeModel {
            root: y,
            pages: self.pages.insert(
                y,
                TreePageView::Leaf(
                    LeafView {
                        max_size: self.leaf_max,
                        next_page_id: INVALID_PAGE_ID,
                        entries: seq![(key, rid)],
                    },
                ),
            ),
            limit: self.limit + 1,
            g: TreeGhost {
                level: Map::empty().insert(y, 0nat),
                fl: Map::empty().insert(y, y),
                nl: Map::empty().insert(y, INVALID_PAGE_ID),
                parent: Map::empty().insert(y, INVALID_PAGE_ID),
                prev: Map::empty(),
                lowkey: Map::empty().insert(y, None),
                sep_child: Map::empty(),
            },
            ..self
        }
    }

    /// The tree after the page `x`, which may have one entry too many, and
    /// the pages above it on the way `path` have been split as far as need
    /// be. A page with one entry too many gives its upper half, from place
    /// half its size rounded down, to a new page, which gets the next page id
    /// and goes into the parent after it; a root that is split gets a new
    /// root above it first.
    pub open spec fn settled(self, path: Seq<PageId>, x: PageId) -> TreeModel
        decreases path.len(),
    {
        if self.pages[x].size() <= self.pages[x].max_size() {
            self
        } else {
            let y = (self.limit + 1) as PageId;
            if path.len() > 0 {
                let p = path[path.len() - 1];
                let idx = child_index(self.internal(p).entries, x, 0);
                self.split_page(x, y, p, idx, self.limit + 1).settled(path.drop_last(), p)
            } else {
                let r = (self.limit + 2) as PageId;
                self.grow_root(r, null_key(self.types), self.limit + 2).split_page(
                    x,
                    y,
                    r,
                    0,
                    self.limit + 2,
                )
            }
        }
    }

    /// The tree after the page `x` was split, whatever kind of page it is.
    /// An internal page goes into the parent under the least key below it.
    pub open spec fn split_page(self, x: PageId, y: PageId, p: PageId, idx: int, new_limit: nat) -> TreeModel {
        match self.pages[x] {
            TreePageView::Leaf(_) => self.split_leaf(x, y, p, idx, new_limit),
            TreePageView::Internal(node) => self.split_internal(
                x,
                y,
                p,
                idx,
                self.leaf(self.g.fl[node.entries[node.entries.len() as int / 2].1]).entries[0].0,
                new_limit,
            ),
        }
    }

    /// The tree after an entry was put into it.
    pub open spec fn with_entry(self, key: Key, rid: RecordId) -> TreeModel {
        if self.root == INVALID_PAGE_ID {
            self.planted(key, rid)
        } else {
            let x = self.leaf_for(key)->Some_0;
            self.with_page(x, TreePageView::Leaf(self.leaf(x).insert(key, rid))).settled(
                self.way_to(key),
                x,
            )
        }
    }
}

} // verus!
