use crate::common::rid::PageId;
use crate::common::rid::RecordId;
use crate::common::rid::INVALID_PAGE_ID;
use crate::storage::index_model::descend;
use crate::storage::index_model::leftmost;
use crate::storage::index_model::lemma_key_le_total;
use crate::storage::index_model::lemma_key_le_transitive;
use crate::storage::index_model::Key;
use crate::storage::index_model::Slack;
use crate::storage::index_model::TreeModel;
use crate::storage::index_page::first_match;
use crate::storage::index_page::min_size_of;
use crate::storage::index_page::lemma_first_match_is;
use crate::storage::index_page::lemma_route_insert;
use crate::storage::index_page::lemma_route_split;
use crate::storage::index_page::lemma_upper_pos;
use crate::storage::index_page::upper_pos;
use crate::storage::index_page::lemma_first_match;
use crate::storage::index_page::lemma_route_index;
use crate::storage::index_page::route_index;
use crate::storage::index_page::TreePageView;
use crate::storage::tuple::key_le;
use crate::storage::tuple::key_lt;
use vstd::prelude::*;

verus! {

impl TreeModel {
    /// The first key of a leaf.
    pub open spec fn first_key(self, leaf: PageId) -> Key {
        self.leaf(leaf).entries[0].0
    }

    /// The leaf below `x` that a key is routed to.
    pub open spec fn found(self, x: PageId, key: Key) -> PageId {
        descend(self.pages, x, key, self.g.level[x] + 1)->Some_0
    }

    /// Whether a look-up of the key that starts at `x` gives the record id.
    pub open spec fn finds(self, x: PageId, key: Key, rid: RecordId) -> bool {
        self.leaf(self.found(x, key)).look_up(key) == Some(rid)
    }

    /// Whether at most one entry of the leaf has the key.
    pub open spec fn once_on(self, x: PageId, key: Key) -> bool {
        forall|i: int, j: int|
            0 <= i < self.leaf(x).entries.len() && 0 <= j < self.leaf(x).entries.len()
                && self.leaf(x).entries[i].0 == key && self.leaf(x).entries[j].0 == key ==> i == j
    }

    /// Whether at most one entry of the tree has the key.
    pub open spec fn key_once(self, key: Key) -> bool {
        forall|x: PageId, i: int, y: PageId, j: int|
            self.is_node(x) && self.g.level[x] == 0 && 0 <= i < self.leaf(x).entries.len()
                && self.is_node(y) && self.g.level[y] == 0 && 0 <= j < self.leaf(y).entries.len()
                && #[trigger] self.leaf(x).entries[i].0 == key && #[trigger] self.leaf(
                y,
            ).entries[j].0 == key ==> x == y && i == j
    }

    /// Whether the key is routed along the way `path` to `x`.
    pub open spec fn routed(self, path: Seq<PageId>, x: PageId, key: Key) -> bool {
        forall|j: int|
            0 <= j < path.len() ==> (#[trigger] self.internal(path[j])).look_up(key) == if j + 1
                < path.len() {
                path[j + 1]
            } else {
                x
            }
    }

    /// The child that a key is routed to is a page of the tree one level
    /// down.
    pub proof fn lemma_route_child(self, slack: Slack, x: PageId, key: Key)
        requires
            self.ok(slack),
            self.is_node(x),
            self.g.level[x] >= 1,
        ensures
            self.pages.contains_key(x),
            self.pages[x] is Internal,
            self.internal(x).entries.len() >= 1,
            0 <= route_index(self.internal(x).entries, key, self.internal(x).entries.len() as int)
                < self.internal(x).entries.len(),
            self.is_node(self.internal(x).look_up(key)),
            self.g.level[self.internal(x).look_up(key)] + 1 == self.g.level[x],
            self.found(x, key) == self.found(self.internal(x).look_up(key), key),
    {
        assert(self.node_ok(x, slack));
        let entries = self.internal(x).entries;
        lemma_route_index(entries, key, entries.len() as int);
        assert(self.child_ok(x, route_index(entries, key, entries.len() as int)));
    }

    /// Routing ends at a leaf of the tree, whatever the supply of steps, if
    /// it is enough.
    pub proof fn lemma_descend_fuel(self, slack: Slack, x: PageId, key: Key, fuel: nat)
        requires
            self.ok(slack),
            self.is_node(x),
            fuel > self.g.level[x],
        ensures
            descend(self.pages, x, key, fuel) == Some(self.found(x, key)),
            self.is_node(self.found(x, key)),
            self.g.level[self.found(x, key)] == 0,
        decreases self.g.level[x],
    {
        assert(self.node_ok(x, slack));
        if self.g.level[x] >= 1 {
            self.lemma_route_child(slack, x, key);
            self.lemma_descend_fuel(slack, self.internal(x).look_up(key), key, (fuel - 1) as nat);
        }
    }

    /// Routing below a page is the same where the pages below it are the
    /// same.
    pub proof fn lemma_descend_same(self, slack: Slack, other: TreeModel, x: PageId, key: Key)
        requires
            self.ok(slack),
            self.is_node(x),
            other.g.level[x] == self.g.level[x],
            forall|z: PageId|
                #[trigger] self.is_node(z) && self.g.level[z] <= self.g.level[x]
                    ==> other.pages.contains_key(z) && other.pages[z] == self.pages[z],
        ensures
            other.found(x, key) == self.found(x, key),
            other.leaf(other.found(x, key)) == self.leaf(self.found(x, key)),
            self.is_node(self.found(x, key)),
            self.g.level[self.found(x, key)] == 0,
        decreases self.g.level[x],
    {
        assert(self.node_ok(x, slack));
        self.lemma_descend_fuel(slack, x, key, self.g.level[x] + 1);
        if self.g.level[x] >= 1 {
            self.lemma_route_child(slack, x, key);
            let c = self.internal(x).look_up(key);
            let mid = TreeModel { g: self.g, ..other };
            self.lemma_descend_same(slack, mid, c, key);
            assert(descend(other.pages, x, key, self.g.level[x] + 1) == descend(
                other.pages,
                c,
                key,
                self.g.level[x],
            ));
        }
    }

    /// A look-up that starts at the root is the look-up of the tree.
    pub proof fn lemma_lookup_is_found(self, slack: Slack, key: Key)
        requires
            self.ok(slack),
            self.root != INVALID_PAGE_ID,
        ensures
            self.leaf_for(key) == Some(self.found(self.root, key)),
            self.lookup(key) == self.leaf(self.found(self.root, key)).look_up(key),
    {
        self.lemma_descend_fuel(slack, self.root, key, self.limit);
    }

    /// The key at the left edge of a page is at most the key at its right
    /// edge.
    pub proof fn lemma_range(self, slack: Slack, x: PageId)
        requires
            self.ok(slack),
            self.is_node(x),
            self.g.nl[x] != INVALID_PAGE_ID,
        ensures
            self.g.lowkey[self.g.nl[x]] is Some,
            self.lower_ok(self.g.fl[x], self.g.lowkey[self.g.nl[x]]->Some_0),
        decreases self.g.level[x], 1nat, 0nat,
    {
        assert(self.node_ok(x, slack));
        if self.g.level[x] >= 1 {
            let entries = self.internal(x).entries;
            let last = entries.len() - 1;
            assert(self.child_ok(x, last));
            assert(self.child_ok(x, 0));
            let c = entries[last].1;
            self.lemma_range(slack, c);
            if last >= 1 {
                self.lemma_chain(slack, x, 0, last);
                if self.g.lowkey[self.g.fl[x]] is Some {
                    lemma_key_le_transitive(
                        self.g.lowkey[self.g.fl[x]]->Some_0,
                        entries[last].0,
                        self.g.lowkey[self.g.nl[x]]->Some_0,
                    );
                }
            }
        }
    }

    /// The key at the left edge of a child is at most the key of every child
    /// to its right.
    pub proof fn lemma_chain(self, slack: Slack, x: PageId, a: int, b: int)
        requires
            self.ok(slack),
            self.is_node(x),
            self.g.level[x] >= 1,
            0 <= a <= b < self.internal(x).entries.len(),
            b >= 1,
        ensures
            self.lower_ok(self.g.fl[self.internal(x).entries[a].1], self.internal(x).entries[b].0),
        decreases self.g.level[x], 0nat, b - a,
    {
        assert(self.node_ok(x, slack));
        let entries = self.internal(x).entries;
        assert(self.child_ok(x, a));
        assert(self.child_ok(x, b));
        if a < b {
            assert(self.child_ok(x, a + 1));
            let ca = entries[a].1;
            let cn = entries[a + 1].1;
            self.lemma_leftmost(slack, self.pages, cn, self.g.level[cn] + 1);
            assert(self.node_ok(self.g.fl[cn], slack));
            self.lemma_range(slack, ca);
            self.lemma_chain(slack, x, a + 1, b);
            if self.g.lowkey[self.g.fl[ca]] is Some {
                lemma_key_le_transitive(
                    self.g.lowkey[self.g.fl[ca]]->Some_0,
                    entries[a + 1].0,
                    entries[b].0,
                );
            }
        }
    }

    /// The first key below a page is at most the key at the right edge of
    /// the page.
    pub proof fn lemma_first_key_upper(self, slack: Slack, x: PageId)
        requires
            self.ok(slack),
            self.is_node(x),
            self.g.nl[x] != INVALID_PAGE_ID,
            self.leaf(self.g.fl[x]).entries.len() >= 1,
        ensures
            self.g.lowkey[self.g.nl[x]] is Some,
            key_le(self.first_key(self.g.fl[x]), self.g.lowkey[self.g.nl[x]]->Some_0),
        decreases self.g.level[x],
    {
        assert(self.node_ok(x, slack));
        if self.g.level[x] == 0 {
            assert(self.leaf_entry_ok(x, 0));
        } else {
            let entries = self.internal(x).entries;
            let last = entries.len() - 1;
            assert(self.child_ok(x, 0));
            assert(self.child_ok(x, last));
            let c0 = entries[0].1;
            if last == 0 {
                self.lemma_first_key_upper(slack, c0);
            } else {
                assert(self.child_ok(x, 1));
                let c1 = entries[1].1;
                self.lemma_leftmost(slack, self.pages, c1, self.g.level[c1] + 1);
                assert(self.node_ok(self.g.fl[c1], slack));
                self.lemma_first_key_upper(slack, c0);
                self.lemma_chain(slack, x, 1, last);
                self.lemma_range(slack, entries[last].1);
                lemma_key_le_transitive(
                    self.first_key(self.g.fl[x]),
                    entries[1].0,
                    entries[last].0,
                );
                lemma_key_le_transitive(
                    self.first_key(self.g.fl[x]),
                    entries[last].0,
                    self.g.lowkey[self.g.nl[x]]->Some_0,
                );
            }
        }
    }

    /// The first key below a page is at most every key that is found below
    /// the page.
    pub proof fn lemma_min_le_found(self, slack: Slack, x: PageId, key: Key)
        requires
            self.ok(slack),
            self.is_node(x),
            self.leaf(self.g.fl[x]).entries.len() >= 1,
            self.leaf(self.found(x, key)).look_up(key) is Some,
        ensures
            key_le(self.first_key(self.g.fl[x]), key),
        decreases self.g.level[x],
    {
        assert(self.node_ok(x, slack));
        if self.g.level[x] == 0 {
            let entries = self.leaf(x).entries;
            lemma_first_match(entries, key, 0);
            let i = first_match(entries, key, 0);
            if i > 0 {
                assert(key_le(entries[0].0, entries[i].0));
            }
        } else {
            self.lemma_route_child(slack, x, key);
            let entries = self.internal(x).entries;
            let n = entries.len() as int;
            lemma_route_index(entries, key, n);
            let j = route_index(entries, key, n);
            assert(self.child_ok(x, j));
            assert(self.child_ok(x, 0));
            if j == 0 {
                self.lemma_min_le_found(slack, entries[0].1, key);
            } else {
                assert(self.child_ok(x, 1));
                let c0 = entries[0].1;
                let c1 = entries[1].1;
                self.lemma_leftmost(slack, self.pages, c1, self.g.level[c1] + 1);
                assert(self.node_ok(self.g.fl[c1], slack));
                self.lemma_first_key_upper(slack, c0);
                self.lemma_chain(slack, x, 1, j);
                lemma_key_le_transitive(self.first_key(self.g.fl[x]), entries[1].0, entries[j].0);
                lemma_key_le_transitive(self.first_key(self.g.fl[x]), entries[j].0, key);
            }
        }
    }

    /// What is found below a page to which the key is routed along a way
    /// from the root is found from the root.
    pub proof fn lemma_finds_up(self, slack: Slack, path: Seq<PageId>, x: PageId, key: Key)
        requires
            self.ok(slack),
            self.path_ok(path, x),
            self.routed(path, x, key),
        ensures
            self.found(self.root, key) == self.found(x, key),
        decreases path.len(),
    {
        if path.len() > 0 {
            let last = path.len() - 1;
            let p = path[last];
            assert(self.step_ok(path, last, x));
            self.lemma_route_child(slack, p, key);
            assert(self.internal(p).look_up(key) == x);
            let shorter = path.drop_last();
            assert forall|j: int| 0 <= j < shorter.len() implies #[trigger] self.step_ok(
                shorter,
                j,
                p,
            ) by {
                assert(self.step_ok(path, j, x));
                assert(shorter[j] == path[j]);
                if j + 1 < shorter.len() {
                    assert(shorter[j + 1] == path[j + 1]);
                }
            }
            assert forall|j: int| 0 <= j < shorter.len() implies (#[trigger] self.internal(
                shorter[j],
            )).look_up(key) == if j + 1 < shorter.len() {
                shorter[j + 1]
            } else {
                p
            } by {
                assert(shorter[j] == path[j]);
                assert(self.internal(path[j]).look_up(key) == if j + 1 < path.len() {
                    path[j + 1]
                } else {
                    x
                });
            }
            if shorter.len() > 0 {
                assert(shorter[0] == path[0]);
            } else {
                assert(path[0] == p);
            }
            self.lemma_finds_up(slack, shorter, p, key);
        }
    }

    /// An entry whose key was not on the leaf is found there once it has
    /// been put there, and it is the only one with its key.
    pub proof fn lemma_leaf_insert_finds(self, slack: Slack, x: PageId, key: Key, rid: RecordId)
        requires
            self.ok(slack),
            self.is_node(x),
            self.g.level[x] == 0,
            self.leaf(x).look_up(key) is None,
        ensures
            self.with_page(x, TreePageView::Leaf(self.leaf(x).insert(key, rid))).finds(x, key, rid),
            self.with_page(x, TreePageView::Leaf(self.leaf(x).insert(key, rid))).once_on(x, key),
    {
        let after = self.with_page(x, TreePageView::Leaf(self.leaf(x).insert(key, rid)));
        let old_entries = self.leaf(x).entries;
        let n = old_entries.len() as int;
        lemma_upper_pos(old_entries, key, n);
        lemma_first_match(old_entries, key, 0);
        let p = upper_pos(old_entries, key, n);
        let new_entries = after.leaf(x).entries;
        assert(new_entries == old_entries.insert(p, (key, rid)));
        assert forall|j: int| 0 <= j < new_entries.len() && j != p implies new_entries[j].0
            != key by {
            if j < p {
                assert(new_entries[j] == old_entries[j]);
            } else {
                assert(new_entries[j] == old_entries[j - 1]);
            }
        }
        lemma_first_match_is(new_entries, key, p);
        assert(descend(after.pages, x, key, 1) == Some(x));
    }

    /// What was found on a leaf that has then been split is found from its
    /// parent.
    pub proof fn lemma_split_leaf_finds(
        self,
        before_slack: Slack,
        x: PageId,
        y: PageId,
        p: PageId,
        idx: int,
        new_limit: nat,
        key: Key,
        rid: RecordId,
    )
        requires
            before_slack == Slack::Over(x) || before_slack == Slack::Grown(x),
            self.ok(before_slack),
            self.is_node(x),
            self.g.level[x] == 0,
            self.leaf(x).entries.len() == self.leaf_max + 1,
            self.is_node(p),
            self.g.level[p] >= 1,
            0 <= idx < self.internal(p).entries.len(),
            self.internal(p).entries[idx].1 == x,
            self.fresh(y),
            1 <= y <= new_limit,
            self.limit <= new_limit <= u32::MAX,
            self.leaf(x).look_up(key) == Some(rid),
            self.once_on(x, key),
            route_index(self.internal(p).entries, key, self.internal(p).entries.len() as int)
                == idx,
        ensures
            self.split_leaf(x, y, p, idx, new_limit).finds(p, key, rid),
    {
        let after = self.split_leaf(x, y, p, idx, new_limit);
        let entries = self.leaf(x).entries;
        let n = entries.len() as int;
        let mid = n / 2;
        let sep = entries[mid].0;
        assert(self.node_ok(x, before_slack));
        assert(self.node_ok(p, before_slack));
        assert(self.child_ok(p, idx));
        lemma_first_match(entries, key, 0);
        let pos = first_match(entries, key, 0);
        lemma_route_insert(self.internal(p).entries, key, idx, sep, y);
        let left = after.leaf(x).entries;
        let right = after.leaf(y).entries;
        lemma_key_le_total(sep, key);
        if key_le(sep, key) {
            if pos < mid {
                assert(key_le(entries[pos].0, entries[mid].0));
                crate::storage::tuple::lemma_key_lt_total(sep, key);
                if sep != key {
                    crate::storage::tuple::lemma_key_lt_asymmetric(sep, key);
                }
                assert(entries[mid].0 == key);
            }
            assert(right[pos - mid] == entries[pos]);
            assert forall|j: int| 0 <= j < pos - mid implies right[j].0 != key by {
                assert(right[j] == entries[mid + j]);
            }
            lemma_first_match_is(right, key, pos - mid);
            assert(after.internal(p).look_up(key) == y);
            assert(descend(after.pages, y, key, after.g.level[p]) == Some(y));
        } else {
            if pos >= mid {
                if pos > mid {
                    assert(key_le(entries[mid].0, entries[pos].0));
                }
            }
            assert(left[pos] == entries[pos]);
            assert forall|j: int| 0 <= j < pos implies left[j].0 != key by {
                assert(left[j] == entries[j]);
            }
            lemma_first_match_is(left, key, pos);
            assert(after.internal(p).look_up(key) == x);
            assert(descend(after.pages, x, key, after.g.level[p]) == Some(x));
        }
    }

    /// What was found below an internal page that has then been split is
    /// found from its parent.
    pub proof fn lemma_split_internal_finds(
        self,
        before_slack: Slack,
        x: PageId,
        y: PageId,
        p: PageId,
        idx: int,
        sep: Key,
        new_limit: nat,
        key: Key,
        rid: RecordId,
    )
        requires
            before_slack == Slack::Over(x) || before_slack == Slack::Grown(x),
            self.ok(before_slack),
            self.is_node(x),
            self.g.level[x] >= 1,
            self.internal(x).entries.len() == self.internal_max + 1,
            self.is_node(p),
            0 <= idx < self.internal(p).entries.len(),
            self.g.level[p] >= 1,
            self.internal(p).entries[idx].1 == x,
            self.fresh(y),
            1 <= y <= new_limit,
            self.limit <= new_limit <= u32::MAX,
            ({
                let first = self.g.fl[self.internal(x).entries[(self.internal_max + 1) / 2].1];
                &&& self.is_node(first)
                &&& self.g.level[first] == 0
                &&& self.leaf(first).entries.len() >= 1
                &&& sep == self.leaf(first).entries[0].0
            }),
            self.finds(x, key, rid),
            route_index(self.internal(p).entries, key, self.internal(p).entries.len() as int)
                == idx,
        ensures
            self.split_internal(x, y, p, idx, sep, new_limit).finds(p, key, rid),
    {
        let after = self.split_internal(x, y, p, idx, sep, new_limit);
        let entries = self.internal(x).entries;
        let n = entries.len() as int;
        let mid = n / 2;
        let cm = entries[mid].1;
        let first = self.g.fl[cm];
        assert(self.node_ok(x, before_slack));
        assert(self.node_ok(p, before_slack));
        assert(self.child_ok(p, idx));
        assert(self.child_ok(x, mid));
        assert(self.node_ok(first, before_slack));
        assert(self.leaf_entry_ok(first, 0));
        self.lemma_route_child(before_slack, x, key);
        lemma_route_index(entries, key, n);
        let j = route_index(entries, key, n);
        let c = entries[j].1;
        assert(self.child_ok(x, j));
        assert forall|z: PageId|
            #[trigger] self.is_node(z) && self.g.level[z] <= self.g.level[c]
                implies after.pages.contains_key(z) && after.pages[z] == self.pages[z] by {
            assert(self.node_ok(z, before_slack));
        }
        self.lemma_descend_same(before_slack, after, c, key);
        lemma_route_split(entries, key, mid);
        lemma_route_insert(self.internal(p).entries, key, idx, sep, y);
        lemma_key_le_total(sep, key);
        if j >= mid {
            if j == mid {
                self.lemma_min_le_found(before_slack, cm, key);
            } else {
                assert(self.child_ok(x, mid + 1));
                let cn = entries[mid + 1].1;
                self.lemma_leftmost(before_slack, self.pages, cn, self.g.level[cn] + 1);
                assert(self.node_ok(self.g.fl[cn], before_slack));
                self.lemma_first_key_upper(before_slack, cm);
                self.lemma_chain(before_slack, x, mid + 1, j);
                lemma_key_le_transitive(sep, entries[mid + 1].0, entries[j].0);
                lemma_key_le_transitive(sep, entries[j].0, key);
            }
            assert(key_le(sep, key));
            assert(after.internal(p).look_up(key) == y);
            let right = after.internal(y).entries;
            assert(right[j - mid] == entries[j]);
            assert(after.internal(y).look_up(key) == c);
            assert(descend(after.pages, p, key, after.g.level[p] + 1) == descend(
                after.pages,
                y,
                key,
                after.g.level[p],
            ));
            assert(descend(after.pages, y, key, after.g.level[y] + 1) == descend(
                after.pages,
                c,
                key,
                after.g.level[y],
            ));
        } else {
            assert(self.child_ok(x, j + 1));
            self.lemma_chain(before_slack, x, j + 1, mid);
            lemma_key_le_transitive(entries[j + 1].0, entries[mid].0, sep);
            if key_le(sep, key) {
                lemma_key_le_transitive(entries[j + 1].0, sep, key);
            }
            assert(!key_le(sep, key));
            assert(after.internal(p).look_up(key) == x);
            let left = after.internal(x).entries;
            assert(left[j] == entries[j]);
            assert(after.internal(x).look_up(key) == c);
            assert(descend(after.pages, p, key, after.g.level[p] + 1) == descend(
                after.pages,
                x,
                key,
                after.g.level[p],
            ));
            assert(descend(after.pages, x, key, after.g.level[x] + 1) == descend(
                after.pages,
                c,
                key,
                after.g.level[x],
            ));
        }
    }

    /// What is found from the root is found from it when it has got a root
    /// above it, and every key is routed from the new root to it.
    pub proof fn lemma_grow_root_finds(
        self,
        slack: Slack,
        r: PageId,
        empty_key: Key,
        new_limit: nat,
        key: Key,
        rid: RecordId,
    )
        requires
            self.ok(slack),
            self.root != INVALID_PAGE_ID,
            self.fresh(r),
            self.finds(self.root, key, rid),
        ensures
            self.grow_root(r, empty_key, new_limit).finds(self.root, key, rid),
            self.g.level[self.root] == 0 ==> self.grow_root(r, empty_key, new_limit).leaf(self.root)
                == self.leaf(self.root),
            route_index(self.grow_root(r, empty_key, new_limit).internal(r).entries, key, 1) == 0,
    {
        let after = self.grow_root(r, empty_key, new_limit);
        assert(self.is_node(self.root));
        assert forall|z: PageId|
            #[trigger] self.is_node(z) && self.g.level[z] <= self.g.level[self.root]
                implies after.pages.contains_key(z) && after.pages[z] == self.pages[z] by {
            assert(self.node_ok(z, slack));
        }
        self.lemma_descend_same(slack, after, self.root, key);
    }

    /// Where the only entry with the key is taken off a leaf, the tree
    /// stores nothing under the key.
    pub proof fn lemma_leaf_delete_gone(self, x: PageId, key: Key, rid: RecordId)
        requires
            self.is_node(x),
            self.g.level[x] == 0,
            self.key_once(key),
            self.leaf(x).look_up(key) is Some,
        ensures
            !self.with_page(x, TreePageView::Leaf(self.leaf(x).delete(key))).stored(key, rid),
    {
        let after = self.with_page(x, TreePageView::Leaf(self.leaf(x).delete(key)));
        let old_entries = self.leaf(x).entries;
        lemma_first_match(old_entries, key, 0);
        let p = first_match(old_entries, key, 0);
        assert(self.leaf(x).entries[p].0 == key);
        if after.stored(key, rid) {
            let (z, i) = choose|z: PageId, i: int|
                after.is_node(z) && after.g.level[z] == 0 && 0 <= i < after.leaf(z).entries.len()
                    && #[trigger] after.leaf(z).entries[i] == (key, rid);
            assert(self.is_node(z));
            if z == x {
                let i2 = if i < p {
                    i
                } else {
                    i + 1
                };
                assert(self.leaf(x).entries[i2] == after.leaf(x).entries[i]);
                assert(self.leaf(x).entries[i2].0 == key);
                assert(i2 == p);
            } else {
                assert(self.leaf(z).entries[i].0 == key);
            }
        }
    }

    /// Going through the leaves in the order in which each names the next
    /// gives the keys in ascending order: on a leaf each key is at most the
    /// keys after it, and every key of a leaf is at most every key of the leaf
    /// that follows it.
    pub proof fn lemma_leaf_chain_ascends(self, x: PageId)
        requires
            self.ok(Slack::Tight),
            self.is_node(x),
            self.g.level[x] == 0,
        ensures
            forall|i: int, j: int|
                0 <= i < j < self.leaf(x).entries.len() ==> key_le(
                    self.leaf(x).entries[i].0,
                    self.leaf(x).entries[j].0,
                ),
            self.leaf(x).next_page_id != INVALID_PAGE_ID ==> {
                let next = self.leaf(x).next_page_id;
                &&& self.is_node(next)
                &&& self.g.level[next] == 0
                &&& forall|i: int, j: int|
                    0 <= i < self.leaf(x).entries.len() && 0 <= j < self.leaf(next).entries.len()
                        ==> key_le(
                        (#[trigger] self.leaf(x).entries[i]).0,
                        (#[trigger] self.leaf(next).entries[j]).0,
                    )
            },
    {
        assert(self.node_ok(x, Slack::Tight));
        let next = self.leaf(x).next_page_id;
        if next != INVALID_PAGE_ID {
            assert(self.node_ok(next, Slack::Tight));
            let low = self.g.lowkey[next]->Some_0;
            assert forall|i: int, j: int|
                0 <= i < self.leaf(x).entries.len() && 0 <= j < self.leaf(
                    next,
                ).entries.len() implies key_le(
                (#[trigger] self.leaf(x).entries[i]).0,
                (#[trigger] self.leaf(next).entries[j]).0,
            ) by {
                assert(self.leaf_entry_ok(x, i));
                assert(self.leaf_entry_ok(next, j));
                lemma_key_le_transitive(
                    self.leaf(x).entries[i].0,
                    low,
                    self.leaf(next).entries[j].0,
                );
            }
        }
    }

    /// Where no key is stored twice, the order of the keys along the leaves
    /// is strict.
    pub proof fn lemma_leaf_chain_ascends_strictly(self, x: PageId)
        requires
            self.ok(Slack::Tight),
            self.is_node(x),
            self.g.level[x] == 0,
            forall|key: Key| self.key_once(key),
        ensures
            forall|i: int, j: int|
                0 <= i < j < self.leaf(x).entries.len() ==> key_lt(
                    self.leaf(x).entries[i].0,
                    self.leaf(x).entries[j].0,
                ),
            self.leaf(x).next_page_id != INVALID_PAGE_ID && self.leaf(x).next_page_id != x ==> {
                let next = self.leaf(x).next_page_id;
                forall|i: int, j: int|
                    0 <= i < self.leaf(x).entries.len() && 0 <= j < self.leaf(next).entries.len()
                        ==> key_lt(
                        (#[trigger] self.leaf(x).entries[i]).0,
                        (#[trigger] self.leaf(next).entries[j]).0,
                    )
            },
    {
        self.lemma_leaf_chain_ascends(x);
        let next = self.leaf(x).next_page_id;
        assert forall|i: int, j: int| 0 <= i < j < self.leaf(x).entries.len() implies key_lt(
            self.leaf(x).entries[i].0,
            self.leaf(x).entries[j].0,
        ) by {
            let key = self.leaf(x).entries[i].0;
            assert(self.key_once(key));
            assert(key_le(self.leaf(x).entries[i].0, self.leaf(x).entries[j].0));
            if self.leaf(x).entries[j].0 == key {
                assert(self.leaf(x).entries[i].0 == key);
            }
        }
        if next != INVALID_PAGE_ID && next != x {
            assert forall|i: int, j: int|
                0 <= i < self.leaf(x).entries.len() && 0 <= j < self.leaf(
                    next,
                ).entries.len() implies key_lt(
                (#[trigger] self.leaf(x).entries[i]).0,
                (#[trigger] self.leaf(next).entries[j]).0,
            ) by {
                let key = self.leaf(x).entries[i].0;
                assert(self.key_once(key));
                if self.leaf(next).entries[j].0 == key {
                    assert(self.leaf(x).entries[i].0 == key);
                }
            }
        }
    }

    /// The tree is balanced: every page but the root has at least half as
    /// many entries as it may have, rounded up, and no page has more than it
    /// may have. The pages of the tree are the root and the children of its
    /// pages.
    pub proof fn lemma_balanced(self, x: PageId)
        requires
            self.ok(Slack::Tight),
            self.is_node(x),
        ensures
            self.root != INVALID_PAGE_ID,
            self.is_node(self.root),
            self.pages.contains_key(x),
            self.pages[x].size() <= self.pages[x].max_size(),
            x != self.root ==> self.pages[x].size() >= min_size_of(self.pages[x].max_size()),
            self.pages[x] is Leaf ==> self.pages[x].max_size() == self.leaf_max,
            self.pages[x] is Internal ==> self.pages[x].max_size() == self.internal_max
                && forall|i: int|
                0 <= i < self.internal(x).entries.len() ==> self.is_node(
                    (#[trigger] self.internal(x).entries[i]).1,
                ),
    {
        assert(self.node_ok(x, Slack::Tight));
        if self.g.level[x] >= 1 {
            assert forall|i: int| 0 <= i < self.internal(x).entries.len() implies self.is_node(
                (#[trigger] self.internal(x).entries[i]).1,
            ) by {
                assert(self.child_ok(x, i));
            }
        }
    }
}

} // verus!
