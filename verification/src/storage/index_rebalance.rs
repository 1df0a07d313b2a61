use crate::common::rid::PageId;
use crate::common::rid::RecordId;
use crate::common::rid::INVALID_PAGE_ID;
use crate::storage::codec::index_page_codec::keys_conform;
use crate::storage::index_model::lemma_key_le_transitive;
use crate::storage::index_model::Key;
use crate::storage::index_model::Slack;
use crate::storage::index_model::TreeGhost;
use crate::storage::index_model::TreeModel;
use crate::storage::index_page::first_match;
use crate::storage::index_page::lemma_first_match;
use crate::storage::index_page::min_size_of;
use crate::storage::index_page::sorted;
use crate::storage::index_page::InternalView;
use crate::storage::index_page::LeafView;
use crate::storage::index_page::TreePageView;
use crate::storage::tuple::conforms_to;
use crate::storage::tuple::key_le;
use vstd::prelude::*;

verus! {

impl TreeModel {
    /// What holds of every page that an operation has not touched: it is in
    /// order as it was.
    pub proof fn lemma_untouched_leaf(self, after: TreeModel, z: PageId, before_slack: Slack, slack: Slack)
        requires
            self.is_node(z),
            self.node_ok(z, before_slack),
            self.g.level[z] == 0,
            after.is_node(z),
            after.g.level[z] == 0,
            after.pages.contains_key(z),
            after.pages[z] == self.pages[z],
            after.root == self.root || (z != self.root && z != after.root),
            after.limit >= self.limit,
            after.leaf_max == self.leaf_max,
            after.types == self.types,
            after.g.fl[z] == self.g.fl[z],
            after.g.nl[z] == self.g.nl[z],
            after.g.lowkey.contains_key(z),
            after.g.lowkey[z] == self.g.lowkey[z],
            self.leaf(z).next_page_id != INVALID_PAGE_ID ==> {
                let next = self.leaf(z).next_page_id;
                &&& after.is_node(next)
                &&& after.g.level[next] == 0
                &&& after.g.prev[next] == z
                &&& after.g.lowkey[next] is Some
                &&& key_le(self.g.lowkey[next]->Some_0, after.g.lowkey[next]->Some_0)
            },
            before_slack == slack || (before_slack != Slack::Under(z) && before_slack
                != Slack::Over(z) && before_slack != Slack::Grown(z)),
        ensures
            after.node_ok(z, slack),
    {
        let next = self.leaf(z).next_page_id;
        assert forall|i: int| 0 <= i < after.leaf(z).entries.len() implies #[trigger] after.leaf_entry_ok(
            z,
            i,
        ) by {
            assert(self.leaf_entry_ok(z, i));
            if next != INVALID_PAGE_ID {
                lemma_key_le_transitive(
                    self.leaf(z).entries[i].0,
                    self.g.lowkey[next]->Some_0,
                    after.g.lowkey[next]->Some_0,
                );
            }
        }
        if next != INVALID_PAGE_ID && self.g.lowkey[z] is Some {
            lemma_key_le_transitive(
                self.g.lowkey[z]->Some_0,
                self.g.lowkey[next]->Some_0,
                after.g.lowkey[next]->Some_0,
            );
        }
    }

    /// The tree after the first entry with the key was taken off the leaf
    /// `x`, which may now hold one entry too few.
    pub proof fn lemma_leaf_delete(self, x: PageId, key: Key)
        requires
            self.ok(Slack::Tight),
            self.is_node(x),
            self.g.level[x] == 0,
        ensures
            self.with_page(x, TreePageView::Leaf(self.leaf(x).delete(key))).ok(Slack::Under(x)),
    {
        let after = self.with_page(x, TreePageView::Leaf(self.leaf(x).delete(key)));
        assert(self.node_ok(x, Slack::Tight));
        let old_entries = self.leaf(x).entries;
        lemma_first_match(old_entries, key, 0);
        let p = first_match(old_entries, key, 0);
        let new_entries = after.leaf(x).entries;
        assert forall|z: PageId| #[trigger] after.is_node(z) implies after.node_ok(
            z,
            Slack::Under(x),
        ) by {
            assert(self.is_node(z));
            assert(self.node_ok(z, Slack::Tight));
            if z != x {
                if self.g.level[z] == 0 {
                    let zn = self.leaf(z).next_page_id;
                    if zn != INVALID_PAGE_ID {
                        assert(self.is_node(zn));
                    }
                    self.lemma_untouched_leaf(after, z, Slack::Tight, Slack::Under(x));
                } else {
                    assert forall|i: int| 0 <= i < after.internal(z).entries.len() implies #[trigger] after.child_ok(
                        z,
                        i,
                    ) by {
                        assert(self.child_ok(z, i));
                    }
                }
            } else if p < old_entries.len() {
                assert(new_entries == old_entries.remove(p));
                assert forall|i: int| 0 <= i < new_entries.len() implies #[trigger] after.leaf_entry_ok(
                    x,
                    i,
                ) by {
                    if i < p {
                        assert(self.leaf_entry_ok(x, i));
                    } else {
                        assert(self.leaf_entry_ok(x, i + 1));
                    }
                }
                assert(keys_conform(new_entries, self.types)) by {
                    assert forall|i: int| 0 <= i < new_entries.len() implies conforms_to(
                        (#[trigger] new_entries[i]).0,
                        self.types,
                    ) by {
                        if i < p {
                            assert(new_entries[i] == old_entries[i]);
                        } else {
                            assert(new_entries[i] == old_entries[i + 1]);
                        }
                    }
                }
                assert(sorted(new_entries)) by {
                    assert forall|i: int, j: int| 0 <= i < j < new_entries.len() implies key_le(
                        new_entries[i].0,
                        new_entries[j].0,
                    ) by {
                        let a = if i < p {
                            i
                        } else {
                            i + 1
                        };
                        let b = if j < p {
                            j
                        } else {
                            j + 1
                        };
                        assert(new_entries[i] == old_entries[a]);
                        assert(new_entries[j] == old_entries[b]);
                    }
                }
            } else {
                assert forall|i: int| 0 <= i < new_entries.len() implies #[trigger] after.leaf_entry_ok(
                    x,
                    i,
                ) by {
                    assert(self.leaf_entry_ok(x, i));
                }
            }
        }
    }

    /// After an entry was taken off a leaf, the tree stores nothing that it
    /// did not store, and still stores every entry but the one taken off.
    pub proof fn lemma_leaf_delete_stored(self, x: PageId, key: Key, k: Key, r: RecordId)
        requires
            self.is_node(x),
            self.g.level[x] == 0,
        ensures
            self.with_page(x, TreePageView::Leaf(self.leaf(x).delete(key))).stored(k, r)
                ==> self.stored(k, r),
            self.stored(k, r) && !(k == key && self.leaf(x).look_up(key) == Some(r))
                ==> self.with_page(x, TreePageView::Leaf(self.leaf(x).delete(key))).stored(k, r),
            self.leaf(x).look_up(key) is None ==> self.with_page(
                x,
                TreePageView::Leaf(self.leaf(x).delete(key)),
            ).stored(k, r) == self.stored(k, r),
    {
        let after = self.with_page(x, TreePageView::Leaf(self.leaf(x).delete(key)));
        let old_entries = self.leaf(x).entries;
        lemma_first_match(old_entries, key, 0);
        let p = first_match(old_entries, key, 0);
        let new_entries = after.leaf(x).entries;
        if after.stored(k, r) {
            let (z, i) = choose|z: PageId, i: int|
                after.is_node(z) && after.g.level[z] == 0 && 0 <= i < after.leaf(z).entries.len()
                    && #[trigger] after.leaf(z).entries[i] == (k, r);
            assert(self.is_node(z));
            if z == x && p < old_entries.len() {
                let i2 = if i < p {
                    i
                } else {
                    i + 1
                };
                assert(self.leaf(x).entries[i2] == (k, r));
            } else {
                assert(self.leaf(z).entries[i] == (k, r));
            }
        }
        if self.stored(k, r) && !(k == key && self.leaf(x).look_up(key) == Some(r)) {
            let (z, i) = choose|z: PageId, i: int|
                self.is_node(z) && self.g.level[z] == 0 && 0 <= i < self.leaf(z).entries.len()
                    && #[trigger] self.leaf(z).entries[i] == (k, r);
            assert(after.is_node(z));
            if z == x && p < old_entries.len() {
                assert(i != p);
                let i2 = if i < p {
                    i
                } else {
                    i - 1
                };
                assert(after.leaf(x).entries[i2] == (k, r));
            } else {
                assert(after.leaf(z).entries[i] == (k, r));
            }
        }
    }

    /// The tree after the leaf that is child number `i` of `p` got the last
    /// entry of the leaf to its left, and `p` the key of that entry for it.
    pub open spec fn borrow_leaf_left(self, p: PageId, i: int) -> TreeModel {
        let x = self.internal(p).entries[i].1;
        let s = self.internal(p).entries[i - 1].1;
        let n = self.leaf(s).entries.len() as int;
        let moved = self.leaf(s).entries[n - 1];
        TreeModel {
            pages: self.pages.insert(
                s,
                TreePageView::Leaf(
                    LeafView { entries: self.leaf(s).entries.subrange(0, n - 1), ..self.leaf(s) },
                ),
            ).insert(
                x,
                TreePageView::Leaf(
                    LeafView { entries: seq![moved] + self.leaf(x).entries, ..self.leaf(x) },
                ),
            ).insert(
                p,
                TreePageView::Internal(
                    InternalView {
                        entries: self.internal(p).entries.update(i, (moved.0, x)),
                        ..self.internal(p)
                    },
                ),
            ),
            g: TreeGhost { lowkey: self.g.lowkey.insert(x, Some(moved.0)), ..self.g },
            ..self
        }
    }

    /// A leaf with one entry too few that borrows from the leaf to its left
    /// leaves the tree in order.
    pub proof fn lemma_borrow_leaf_left(self, p: PageId, i: int)
        requires
            self.is_node(p),
            self.g.level[p] == 1,
            1 <= i < self.internal(p).entries.len(),
            self.ok(Slack::Under(self.internal(p).entries[i].1)),
            self.leaf(self.internal(p).entries[i - 1].1).entries.len() > min_size_of(self.leaf_max),
            self.leaf(self.internal(p).entries[i].1).entries.len() < min_size_of(self.leaf_max),
        ensures
            self.borrow_leaf_left(p, i).ok(Slack::Tight),
    {
        let after = self.borrow_leaf_left(p, i);
        let x = self.internal(p).entries[i].1;
        let s = self.internal(p).entries[i - 1].1;
        let before_slack = Slack::Under(x);
        let n = self.leaf(s).entries.len() as int;
        let moved = self.leaf(s).entries[n - 1];
        assert(self.node_ok(p, before_slack));
        assert(self.child_ok(p, i));
        assert(self.child_ok(p, i - 1));
        assert(self.is_node(x));
        assert(self.is_node(s));
        assert(self.node_ok(x, before_slack));
        assert(self.node_ok(s, before_slack));
        assert(self.is_node(self.root));
        assert(self.leaf_entry_ok(s, n - 1));
        assert(self.leaf(s).next_page_id == x);
        let old_low = self.g.lowkey[x]->Some_0;
        assert(key_le(moved.0, old_low));
        let xn = self.leaf(x).next_page_id;
        if xn != INVALID_PAGE_ID {
            assert(self.is_node(xn));
            assert(xn != x);
            lemma_key_le_transitive(moved.0, old_low, self.g.lowkey[xn]->Some_0);
        }
        let old_entries = self.internal(p).entries;
        assert forall|z: PageId| #[trigger] after.is_node(z) implies after.node_ok(
            z,
            Slack::Tight,
        ) by {
            assert(self.is_node(z));
            assert(self.node_ok(z, before_slack));
            if z == x {
                let entries = after.leaf(x).entries;
                assert forall|j: int| 0 <= j < entries.len() implies #[trigger] after.leaf_entry_ok(
                    x,
                    j,
                ) by {
                    if j > 0 {
                        assert(entries[j] == self.leaf(x).entries[j - 1]);
                        assert(self.leaf_entry_ok(x, j - 1));
                        lemma_key_le_transitive(moved.0, old_low, entries[j].0);
                    } else {
                        assert(entries[0] == moved);
                    }
                }
                assert(keys_conform(entries, self.types)) by {
                    assert forall|j: int| 0 <= j < entries.len() implies conforms_to(
                        (#[trigger] entries[j]).0,
                        self.types,
                    ) by {
                        if j > 0 {
                            assert(entries[j] == self.leaf(x).entries[j - 1]);
                        } else {
                            assert(entries[0] == self.leaf(s).entries[n - 1]);
                        }
                    }
                }
                assert(sorted(entries)) by {
                    assert forall|a: int, b: int| 0 <= a < b < entries.len() implies key_le(
                        entries[a].0,
                        entries[b].0,
                    ) by {
                        assert(entries[b] == self.leaf(x).entries[b - 1]);
                        assert(self.leaf_entry_ok(x, b - 1));
                        if a > 0 {
                            assert(entries[a] == self.leaf(x).entries[a - 1]);
                        } else {
                            lemma_key_le_transitive(moved.0, old_low, entries[b].0);
                        }
                    }
                }
            } else if z == s {
                let entries = after.leaf(s).entries;
                assert forall|j: int| 0 <= j < entries.len() implies #[trigger] after.leaf_entry_ok(
                    s,
                    j,
                ) by {
                    assert(entries[j] == self.leaf(s).entries[j]);
                    assert(self.leaf_entry_ok(s, j));
                    assert(key_le(self.leaf(s).entries[j].0, self.leaf(s).entries[n - 1].0));
                }
                assert(keys_conform(entries, self.types)) by {
                    assert forall|j: int| 0 <= j < entries.len() implies conforms_to(
                        (#[trigger] entries[j]).0,
                        self.types,
                    ) by {
                        assert(entries[j] == self.leaf(s).entries[j]);
                    }
                }
                assert(sorted(entries)) by {
                    assert forall|a: int, b: int| 0 <= a < b < entries.len() implies key_le(
                        entries[a].0,
                        entries[b].0,
                    ) by {
                        assert(key_le(self.leaf(s).entries[a].0, self.leaf(s).entries[b].0));
                    }
                }
            } else if z == p {
                let entries = after.internal(p).entries;
                assert forall|j: int| 0 <= j < entries.len() implies #[trigger] after.child_ok(
                    p,
                    j,
                ) by {
                    assert(self.child_ok(p, j));
                    if j != i {
                        assert(entries[j] == old_entries[j]);
                        assert(old_entries[j].1 != old_entries[i].1);
                    }
                    if j + 1 < entries.len() {
                        assert(self.child_ok(p, j + 1));
                    }
                }
                assert forall|a: int, b: int| 0 <= a < b < entries.len() implies entries[a].1
                    != entries[b].1 by {
                    assert(old_entries[a].1 != old_entries[b].1);
                }
                assert(keys_conform(entries, self.types)) by {
                    assert forall|j: int| 0 <= j < entries.len() implies conforms_to(
                        (#[trigger] entries[j]).0,
                        self.types,
                    ) by {
                        if j != i {
                            assert(entries[j] == old_entries[j]);
                        } else {
                            assert(conforms_to(self.leaf(s).entries[n - 1].0, self.types));
                        }
                    }
                }
            } else if self.g.level[z] == 0 {
                let zn = self.leaf(z).next_page_id;
                if zn != INVALID_PAGE_ID {
                    assert(self.is_node(zn));
                }
                self.lemma_untouched_leaf(after, z, before_slack, Slack::Tight);
            } else {
                assert forall|j: int| 0 <= j < after.internal(z).entries.len() implies #[trigger] after.child_ok(
                    z,
                    j,
                ) by {
                    assert(self.child_ok(z, j));
                }
            }
        }
    }

    /// The tree after the leaf that is child number `i` of `p` got the first
    /// entry of the leaf to its right, and `p` the key that is now first
    /// there for that leaf.
    pub open spec fn borrow_leaf_right(self, p: PageId, i: int) -> TreeModel {
        let x = self.internal(p).entries[i].1;
        let s = self.internal(p).entries[i + 1].1;
        let n = self.leaf(s).entries.len() as int;
        let moved = self.leaf(s).entries[0];
        let new_low = self.leaf(s).entries[1].0;
        TreeModel {
            pages: self.pages.insert(
                s,
                TreePageView::Leaf(
                    LeafView { entries: self.leaf(s).entries.subrange(1, n), ..self.leaf(s) },
                ),
            ).insert(
                x,
                TreePageView::Leaf(
                    LeafView { entries: self.leaf(x).entries.push(moved), ..self.leaf(x) },
                ),
            ).insert(
                p,
                TreePageView::Internal(
                    InternalView {
                        entries: self.internal(p).entries.update(i + 1, (new_low, s)),
                        ..self.internal(p)
                    },
                ),
            ),
            g: TreeGhost { lowkey: self.g.lowkey.insert(s, Some(new_low)), ..self.g },
            ..self
        }
    }

    /// A leaf with one entry too few that borrows from the leaf to its right
    /// leaves the tree in order.
    pub proof fn lemma_borrow_leaf_right(self, p: PageId, i: int)
        requires
            self.is_node(p),
            self.g.level[p] == 1,
            0 <= i < self.internal(p).entries.len() - 1,
            self.ok(Slack::Under(self.internal(p).entries[i].1)),
            self.leaf(self.internal(p).entries[i + 1].1).entries.len() > min_size_of(self.leaf_max),
            self.leaf(self.internal(p).entries[i].1).entries.len() < min_size_of(self.leaf_max),
        ensures
            self.borrow_leaf_right(p, i).ok(Slack::Tight),
    {
        let after = self.borrow_leaf_right(p, i);
        let x = self.internal(p).entries[i].1;
        let s = self.internal(p).entries[i + 1].1;
        let before_slack = Slack::Under(x);
        let n = self.leaf(s).entries.len() as int;
        let moved = self.leaf(s).entries[0];
        let new_low = self.leaf(s).entries[1].0;
        assert(self.node_ok(p, before_slack));
        assert(self.child_ok(p, i));
        assert(self.child_ok(p, i + 1));
        assert(self.is_node(x));
        assert(self.is_node(s));
        assert(self.node_ok(x, before_slack));
        assert(self.node_ok(s, before_slack));
        assert(self.is_node(self.root));
        assert(self.leaf_entry_ok(s, 0));
        assert(self.leaf_entry_ok(s, 1));
        assert(self.leaf(x).next_page_id == s);
        let old_low = self.g.lowkey[s]->Some_0;
        assert(key_le(old_low, moved.0));
        assert(key_le(moved.0, new_low));
        lemma_key_le_transitive(old_low, moved.0, new_low);
        let sn = self.leaf(s).next_page_id;
        if sn != INVALID_PAGE_ID {
            assert(self.is_node(sn));
            assert(sn != s);
        }
        let old_entries = self.internal(p).entries;
        assert forall|z: PageId| #[trigger] after.is_node(z) implies after.node_ok(
            z,
            Slack::Tight,
        ) by {
            assert(self.is_node(z));
            assert(self.node_ok(z, before_slack));
            if z == x {
                let entries = after.leaf(x).entries;
                let m = self.leaf(x).entries.len() as int;
                assert forall|j: int| 0 <= j < entries.len() implies #[trigger] after.leaf_entry_ok(
                    x,
                    j,
                ) by {
                    if j < m {
                        assert(entries[j] == self.leaf(x).entries[j]);
                        assert(self.leaf_entry_ok(x, j));
                        lemma_key_le_transitive(entries[j].0, old_low, new_low);
                    } else {
                        assert(entries[j] == moved);
                        if self.g.lowkey[x] is Some {
                            lemma_key_le_transitive(self.g.lowkey[x]->Some_0, old_low, moved.0);
                        }
                    }
                }
                if self.g.lowkey[x] is Some {
                    lemma_key_le_transitive(self.g.lowkey[x]->Some_0, old_low, new_low);
                }
                assert(keys_conform(entries, self.types)) by {
                    assert forall|j: int| 0 <= j < entries.len() implies conforms_to(
                        (#[trigger] entries[j]).0,
                        self.types,
                    ) by {
                        if j < m {
                            assert(entries[j] == self.leaf(x).entries[j]);
                        } else {
                            assert(entries[j] == self.leaf(s).entries[0]);
                        }
                    }
                }
                assert(sorted(entries)) by {
                    assert forall|a: int, b: int| 0 <= a < b < entries.len() implies key_le(
                        entries[a].0,
                        entries[b].0,
                    ) by {
                        assert(entries[a] == self.leaf(x).entries[a]);
                        assert(self.leaf_entry_ok(x, a));
                        if b < m {
                            assert(entries[b] == self.leaf(x).entries[b]);
                        } else {
                            lemma_key_le_transitive(entries[a].0, old_low, moved.0);
                        }
                    }
                }
            } else if z == s {
                let entries = after.leaf(s).entries;
                assert forall|j: int| 0 <= j < entries.len() implies #[trigger] after.leaf_entry_ok(
                    s,
                    j,
                ) by {
                    assert(entries[j] == self.leaf(s).entries[j + 1]);
                    assert(self.leaf_entry_ok(s, j + 1));
                    if j > 0 {
                        assert(key_le(self.leaf(s).entries[1].0, self.leaf(s).entries[j + 1].0));
                    }
                }
                assert(keys_conform(entries, self.types)) by {
                    assert forall|j: int| 0 <= j < entries.len() implies conforms_to(
                        (#[trigger] entries[j]).0,
                        self.types,
                    ) by {
                        assert(entries[j] == self.leaf(s).entries[j + 1]);
                    }
                }
                assert(sorted(entries)) by {
                    assert forall|a: int, b: int| 0 <= a < b < entries.len() implies key_le(
                        entries[a].0,
                        entries[b].0,
                    ) by {
                        assert(key_le(self.leaf(s).entries[a + 1].0, self.leaf(s).entries[b + 1].0));
                    }
                }
            } else if z == p {
                let entries = after.internal(p).entries;
                assert forall|j: int| 0 <= j < entries.len() implies #[trigger] after.child_ok(
                    p,
                    j,
                ) by {
                    assert(self.child_ok(p, j));
                    if j != i + 1 {
                        assert(entries[j] == old_entries[j]);
                        assert(old_entries[j].1 != old_entries[i + 1].1);
                    }
                    if j + 1 < entries.len() {
                        assert(self.child_ok(p, j + 1));
                    }
                }
                assert forall|a: int, b: int| 0 <= a < b < entries.len() implies entries[a].1
                    != entries[b].1 by {
                    assert(old_entries[a].1 != old_entries[b].1);
                }
                assert(keys_conform(entries, self.types)) by {
                    assert forall|j: int| 0 <= j < entries.len() implies conforms_to(
                        (#[trigger] entries[j]).0,
                        self.types,
                    ) by {
                        if j != i + 1 {
                            assert(entries[j] == old_entries[j]);
                        } else {
                            assert(conforms_to(self.leaf(s).entries[1].0, self.types));
                        }
                    }
                }
            } else if self.g.level[z] == 0 {
                let zn = self.leaf(z).next_page_id;
                if zn != INVALID_PAGE_ID {
                    assert(self.is_node(zn));
                }
                self.lemma_untouched_leaf(after, z, before_slack, Slack::Tight);
            } else {
                assert forall|j: int| 0 <= j < after.internal(z).entries.len() implies #[trigger] after.child_ok(
                    z,
                    j,
                ) by {
                    assert(self.child_ok(z, j));
                }
            }
        }
    }

    /// What is stored at pages that are not pages of the tree does not
    /// matter.
    pub proof fn lemma_ok_agree(self, slack: Slack, pages: Map<PageId, TreePageView>)
        requires
            self.ok(slack),
            forall|z: PageId|
                #[trigger] self.is_node(z) ==> pages.contains_key(z) && pages[z] == self.pages[z],
        ensures
            (TreeModel { pages, ..self }).ok(slack),
    {
        let after = TreeModel { pages, ..self };
        assert forall|z: PageId| #[trigger] after.is_node(z) implies after.node_ok(z, slack) by {
            assert(self.is_node(z));
            assert(self.node_ok(z, slack));
            if self.g.level[z] == 0 {
                assert forall|i: int| 0 <= i < after.leaf(z).entries.len() implies #[trigger] after.leaf_entry_ok(
                    z,
                    i,
                ) by {
                    assert(self.leaf_entry_ok(z, i));
                }
            } else {
                assert forall|i: int| 0 <= i < after.internal(z).entries.len() implies #[trigger] after.child_ok(
                    z,
                    i,
                ) by {
                    assert(self.child_ok(z, i));
                }
            }
        }
        if self.root != INVALID_PAGE_ID {
            assert(self.is_node(self.root));
        } else {
            assert forall|x: PageId| !after.is_node(x) by {
                assert(!self.is_node(x));
            }
        }
    }

    /// The slack that is left after child number `i + 1` of `p` was merged
    /// into child number `i`: `p` has one entry fewer, and where `p` is the
    /// root and has one child left, that child is about to become the root.
    pub open spec fn slack_after_merge(self, p: PageId, i: int) -> Slack {
        if p == self.root && self.internal(p).entries.len() == 2 {
            Slack::Grown(self.internal(p).entries[i].1)
        } else {
            Slack::Under(p)
        }
    }

    /// The tree after the leaf that is child number `i + 1` of `p` was merged
    /// into the leaf to its left and left the tree.
    pub open spec fn merge_leaves(self, p: PageId, i: int) -> TreeModel {
        let a = self.internal(p).entries[i].1;
        let b = self.internal(p).entries[i + 1].1;
        TreeModel {
            pages: self.pages.insert(
                a,
                TreePageView::Leaf(
                    LeafView {
                        entries: self.leaf(a).entries + self.leaf(b).entries,
                        next_page_id: self.leaf(b).next_page_id,
                        ..self.leaf(a)
                    },
                ),
            ).insert(
                p,
                TreePageView::Internal(
                    InternalView {
                        entries: self.internal(p).entries.remove(i + 1),
                        ..self.internal(p)
                    },
                ),
            ).remove(b),
            g: TreeGhost {
                level: self.g.level.remove(b),
                nl: self.g.nl.insert(a, self.g.nl[b]),
                prev: self.g.prev.insert(self.leaf(b).next_page_id, a),
                ..self.g
            },
            ..self
        }
    }

    /// Merging two neighbouring leaves that fit one leaf together leaves the
    /// tree in order, but that the parent may now have one entry too few.
    pub proof fn lemma_merge_leaves(self, before_slack: Slack, p: PageId, i: int)
        requires
            self.is_node(p),
            self.g.level[p] == 1,
            0 <= i < self.internal(p).entries.len() - 1,
            before_slack == Slack::Under(self.internal(p).entries[i].1) || before_slack
                == Slack::Under(self.internal(p).entries[i + 1].1),
            self.ok(before_slack),
            self.leaf(self.internal(p).entries[i].1).entries.len() + self.leaf(
                self.internal(p).entries[i + 1].1,
            ).entries.len() <= self.leaf_max,
            self.leaf(self.internal(p).entries[i].1).entries.len() + self.leaf(
                self.internal(p).entries[i + 1].1,
            ).entries.len() >= min_size_of(self.leaf_max),
        ensures
            self.merge_leaves(p, i).ok(self.slack_after_merge(p, i)),
    {
        let after = self.merge_leaves(p, i);
        let slack = self.slack_after_merge(p, i);
        let a = self.internal(p).entries[i].1;
        let b = self.internal(p).entries[i + 1].1;
        assert(self.node_ok(p, before_slack));
        assert(self.child_ok(p, i));
        assert(self.child_ok(p, i + 1));
        assert(self.is_node(a));
        assert(self.is_node(b));
        assert(self.node_ok(a, before_slack));
        assert(self.node_ok(b, before_slack));
        assert(self.is_node(self.root));
        assert(self.leaf(a).next_page_id == b);
        assert(a != b);
        let low_b = self.g.lowkey[b]->Some_0;
        let bn = self.leaf(b).next_page_id;
        if bn != INVALID_PAGE_ID {
            assert(self.is_node(bn));
            assert(bn != b);
        }
        let old_entries = self.internal(p).entries;
        let ea = self.leaf(a).entries;
        let eb = self.leaf(b).entries;
        assert forall|z: PageId| #[trigger] after.is_node(z) implies after.node_ok(z, slack) by {
            assert(self.is_node(z));
            assert(self.node_ok(z, before_slack));
            if z == a {
                let entries = after.leaf(a).entries;
                assert forall|j: int| 0 <= j < entries.len() implies #[trigger] after.leaf_entry_ok(
                    a,
                    j,
                ) by {
                    if j < ea.len() {
                        assert(entries[j] == ea[j]);
                        assert(self.leaf_entry_ok(a, j));
                        if bn != INVALID_PAGE_ID {
                            lemma_key_le_transitive(ea[j].0, low_b, self.g.lowkey[bn]->Some_0);
                        }
                    } else {
                        assert(entries[j] == eb[j - ea.len()]);
                        assert(self.leaf_entry_ok(b, j - ea.len()));
                        if self.g.lowkey[a] is Some {
                            lemma_key_le_transitive(self.g.lowkey[a]->Some_0, low_b, entries[j].0);
                        }
                    }
                }
                if bn != INVALID_PAGE_ID && self.g.lowkey[a] is Some {
                    lemma_key_le_transitive(
                        self.g.lowkey[a]->Some_0,
                        low_b,
                        self.g.lowkey[bn]->Some_0,
                    );
                }
                assert(keys_conform(entries, self.types)) by {
                    assert forall|j: int| 0 <= j < entries.len() implies conforms_to(
                        (#[trigger] entries[j]).0,
                        self.types,
                    ) by {
                        if j < ea.len() {
                            assert(entries[j] == ea[j]);
                        } else {
                            assert(entries[j] == eb[j - ea.len()]);
                        }
                    }
                }
                assert(sorted(entries)) by {
                    assert forall|c: int, d: int| 0 <= c < d < entries.len() implies key_le(
                        entries[c].0,
                        entries[d].0,
                    ) by {
                        if d < ea.len() {
                            assert(key_le(ea[c].0, ea[d].0));
                        } else if c >= ea.len() {
                            assert(key_le(eb[c - ea.len()].0, eb[d - ea.len()].0));
                        } else {
                            assert(self.leaf_entry_ok(a, c));
                            assert(self.leaf_entry_ok(b, d - ea.len()));
                            lemma_key_le_transitive(ea[c].0, low_b, eb[d - ea.len()].0);
                        }
                    }
                }
            } else if z == p {
                let entries = after.internal(p).entries;
                assert(entries == old_entries.remove(i + 1));
                assert forall|j: int| 0 <= j < entries.len() implies #[trigger] after.child_ok(
                    p,
                    j,
                ) by {
                    if j <= i {
                        assert(entries[j] == old_entries[j]);
                        assert(self.child_ok(p, j));
                        assert(old_entries[j].1 != old_entries[i + 1].1);
                        if j < i {
                            assert(old_entries[j].1 != old_entries[i].1);
                            assert(entries[j + 1] == old_entries[j + 1]);
                        } else if i + 1 < entries.len() {
                            assert(entries[i + 1] == old_entries[i + 2]);
                        }
                    } else {
                        assert(entries[j] == old_entries[j + 1]);
                        assert(self.child_ok(p, j + 1));
                        assert(old_entries[i].1 != old_entries[j + 1].1);
                        assert(old_entries[i + 1].1 != old_entries[j + 1].1);
                        if j + 1 < entries.len() {
                            assert(entries[j + 1] == old_entries[j + 2]);
                        }
                    }
                }
                assert forall|c: int, d: int| 0 <= c < d < entries.len() implies entries[c].1
                    != entries[d].1 by {
                    let c2 = if c <= i {
                        c
                    } else {
                        c + 1
                    };
                    let d2 = if d <= i {
                        d
                    } else {
                        d + 1
                    };
                    assert(entries[c] == old_entries[c2]);
                    assert(entries[d] == old_entries[d2]);
                    assert(old_entries[c2].1 != old_entries[d2].1);
                }
                assert(keys_conform(entries, self.types)) by {
                    assert forall|j: int| 0 <= j < entries.len() implies conforms_to(
                        (#[trigger] entries[j]).0,
                        self.types,
                    ) by {
                        if j <= i {
                            assert(entries[j] == old_entries[j]);
                        } else {
                            assert(entries[j] == old_entries[j + 1]);
                        }
                    }
                }
            } else if self.g.level[z] == 0 {
                let zn = self.leaf(z).next_page_id;
                if zn != INVALID_PAGE_ID {
                    assert(self.is_node(zn));
                }
                self.lemma_untouched_leaf(after, z, before_slack, slack);
            } else {
                if z == self.root {
                    assert(self.child_ok(z, 0));
                }
                assert forall|j: int| 0 <= j < after.internal(z).entries.len() implies #[trigger] after.child_ok(
                    z,
                    j,
                ) by {
                    assert(self.child_ok(z, j));
                    if j + 1 < after.internal(z).entries.len() {
                        assert(self.child_ok(z, j + 1));
                    }
                }
            }
        }
    }

    /// The tree after the only child of the root became the root.
    pub open spec fn collapse_root(self) -> TreeModel {
        let a = self.internal(self.root).entries[0].1;
        TreeModel {
            root: a,
            pages: self.pages.remove(self.root),
            g: TreeGhost {
                level: self.g.level.remove(self.root),
                parent: self.g.parent.insert(a, INVALID_PAGE_ID),
                ..self.g
            },
            ..self
        }
    }

    /// Where the root has one child, that child can be the root.
    pub proof fn lemma_collapse_root(self)
        requires
            self.root != INVALID_PAGE_ID,
            self.is_node(self.root),
            self.g.level[self.root] >= 1,
            self.internal(self.root).entries.len() == 1,
            self.ok(Slack::Grown(self.internal(self.root).entries[0].1)),
            ({
                let a = self.internal(self.root).entries[0].1;
                &&& self.pages[a].size() <= self.pages[a].max_size()
                &&& self.pages[a] is Internal ==> self.pages[a].size() >= 2
            }),
        ensures
            self.collapse_root().ok(Slack::Tight),
    {
        let after = self.collapse_root();
        let a = self.internal(self.root).entries[0].1;
        let before_slack = Slack::Grown(a);
        assert(self.node_ok(self.root, before_slack));
        assert(self.child_ok(self.root, 0));
        assert(self.is_node(a));
        assert(self.node_ok(a, before_slack));
        assert forall|z: PageId| #[trigger] after.is_node(z) implies after.node_ok(
            z,
            Slack::Tight,
        ) by {
            assert(self.is_node(z));
            assert(self.node_ok(z, before_slack));
            if self.g.level[z] == 0 {
                let zn = self.leaf(z).next_page_id;
                if zn != INVALID_PAGE_ID {
                    assert(self.is_node(zn));
                }
                assert forall|j: int| 0 <= j < after.leaf(z).entries.len() implies #[trigger] after.leaf_entry_ok(
                    z,
                    j,
                ) by {
                    assert(self.leaf_entry_ok(z, j));
                }
            } else {
                assert forall|j: int| 0 <= j < after.internal(z).entries.len() implies #[trigger] after.child_ok(
                    z,
                    j,
                ) by {
                    assert(self.child_ok(z, j));
                }
            }
        }
    }

    /// Borrowing and merging among leaves changes nothing in what the tree
    /// stores, where each entry of the leaves concerned is on one of them
    /// afterwards and each entry there was on one of them before.
    pub proof fn lemma_stored_moved(self, after: TreeModel, a: PageId, b: PageId, k: Key, r: RecordId)
        requires
            self.is_node(a),
            self.is_node(b),
            self.g.level[a] == 0,
            self.g.level[b] == 0,
            after.is_node(a),
            after.g.level[a] == 0,
            forall|z: PageId|
                #![trigger self.is_node(z)]
                #![trigger after.is_node(z)]
                z != a && z != b ==> ((self.is_node(z) && self.g.level[z] == 0) <==> (
                after.is_node(z) && after.g.level[z] == 0)) && (self.is_node(z) && self.g.level[z]
                    == 0 ==> self.leaf(z).entries == after.leaf(z).entries),
            forall|j: int|
                0 <= j < self.leaf(a).entries.len() ==> after.leaf(a).entries.contains(
                    #[trigger] self.leaf(a).entries[j],
                ) || (after.is_node(b) && after.g.level[b] == 0 && after.leaf(b).entries.contains(
                    self.leaf(a).entries[j],
                )),
            forall|j: int|
                0 <= j < self.leaf(b).entries.len() ==> after.leaf(a).entries.contains(
                    #[trigger] self.leaf(b).entries[j],
                ) || (after.is_node(b) && after.g.level[b] == 0 && after.leaf(b).entries.contains(
                    self.leaf(b).entries[j],
                )),
            forall|j: int|
                0 <= j < after.leaf(a).entries.len() ==> self.leaf(a).entries.contains(
                    #[trigger] after.leaf(a).entries[j],
                ) || self.leaf(b).entries.contains(after.leaf(a).entries[j]),
            after.is_node(b) && after.g.level[b] == 0 ==> forall|j: int|
                0 <= j < after.leaf(b).entries.len() ==> self.leaf(a).entries.contains(
                    #[trigger] after.leaf(b).entries[j],
                ) || self.leaf(b).entries.contains(after.leaf(b).entries[j]),
        ensures
            after.stored(k, r) == self.stored(k, r),
    {
        if self.stored(k, r) {
            let (z, i) = choose|z: PageId, i: int|
                self.is_node(z) && self.g.level[z] == 0 && 0 <= i < self.leaf(z).entries.len()
                    && #[trigger] self.leaf(z).entries[i] == (k, r);
            if z == a || z == b {
                let e = self.leaf(z).entries[i];
                if after.leaf(a).entries.contains(e) {
                    let j = choose|j: int|
                        0 <= j < after.leaf(a).entries.len() && after.leaf(a).entries[j] == e;
                    assert(after.leaf(a).entries[j] == (k, r));
                } else {
                    let j = choose|j: int|
                        0 <= j < after.leaf(b).entries.len() && after.leaf(b).entries[j] == e;
                    assert(after.leaf(b).entries[j] == (k, r));
                }
            } else {
                assert(after.is_node(z));
                assert(after.leaf(z).entries[i] == (k, r));
            }
        }
        if after.stored(k, r) {
            let (z, i) = choose|z: PageId, i: int|
                after.is_node(z) && after.g.level[z] == 0 && 0 <= i < after.leaf(z).entries.len()
                    && #[trigger] after.leaf(z).entries[i] == (k, r);
            if z == a || z == b {
                let e = after.leaf(z).entries[i];
                if self.leaf(a).entries.contains(e) {
                    let j = choose|j: int|
                        0 <= j < self.leaf(a).entries.len() && self.leaf(a).entries[j] == e;
                    assert(self.leaf(a).entries[j] == (k, r));
                } else {
                    let j = choose|j: int|
                        0 <= j < self.leaf(b).entries.len() && self.leaf(b).entries[j] == e;
                    assert(self.leaf(b).entries[j] == (k, r));
                }
            } else {
                assert(self.is_node(z));
                assert(self.leaf(z).entries[i] == (k, r));
            }
        }
    }

    /// A leaf stays in order when the key at its left edge, or at the left
    /// edge of the leaf that follows it, is replaced by the first key of the
    /// leaf at that edge, which is no less.
    pub proof fn lemma_rekeyed_leaf(
        self,
        after: TreeModel,
        z: PageId,
        first: PageId,
        sep: Key,
        before_slack: Slack,
        slack: Slack,
    )
        requires
            self.is_node(z),
            self.g.level[z] == 0,
            self.node_ok(z, before_slack),
            self.is_node(first),
            self.g.level[first] == 0,
            self.node_ok(first, before_slack),
            self.g.lowkey[first] is Some,
            self.leaf(first).entries.len() >= 1,
            sep == self.leaf(first).entries[0].0,
            after.is_node(z),
            after.g.level == self.g.level,
            after.pages.contains_key(z),
            after.pages[z] == self.pages[z],
            after.root == self.root,
            after.limit == self.limit,
            after.leaf_max == self.leaf_max,
            after.types == self.types,
            after.g.fl[z] == self.g.fl[z],
            after.g.nl[z] == self.g.nl[z],
            after.g.prev == self.g.prev,
            after.g.lowkey == self.g.lowkey.insert(first, Some(sep)),
            before_slack == slack || (before_slack != Slack::Under(z) && before_slack
                != Slack::Over(z) && before_slack != Slack::Grown(z)),
        ensures
            after.node_ok(z, slack),
    {
        assert(self.leaf_entry_ok(first, 0));
        let old_low = self.g.lowkey[first]->Some_0;
        if z == first {
            let next = self.leaf(z).next_page_id;
            assert forall|i: int| 0 <= i < after.leaf(z).entries.len() implies #[trigger] after.leaf_entry_ok(
                z,
                i,
            ) by {
                assert(self.leaf_entry_ok(z, i));
                if i > 0 {
                    assert(key_le(self.leaf(z).entries[0].0, self.leaf(z).entries[i].0));
                }
                if next == first {
                    lemma_key_le_transitive(self.leaf(z).entries[i].0, old_low, sep);
                }
            }
        } else {
            let next = self.leaf(z).next_page_id;
            if next != INVALID_PAGE_ID {
                assert(self.g.lowkey[next] is Some);
                if next == first {
                    assert(key_le(old_low, sep));
                }
            }
            self.lemma_untouched_leaf(after, z, before_slack, slack);
        }
    }

    /// Borrowing from the leaf to the left changes nothing in what the tree
    /// stores.
    pub proof fn lemma_borrow_leaf_left_stored(self, slack: Slack, p: PageId, i: int, k: Key, r: RecordId)
        requires
            self.ok(slack),
            self.is_node(p),
            self.g.level[p] == 1,
            1 <= i < self.internal(p).entries.len(),
            self.leaf(self.internal(p).entries[i - 1].1).entries.len() >= 1,
        ensures
            self.borrow_leaf_left(p, i).stored(k, r) == self.stored(k, r),
    {
        let after = self.borrow_leaf_left(p, i);
        let x = self.internal(p).entries[i].1;
        let s = self.internal(p).entries[i - 1].1;
        assert(self.node_ok(p, slack));
        assert(self.child_ok(p, i));
        assert(self.child_ok(p, i - 1));
        let es = self.leaf(s).entries;
        let ex = self.leaf(x).entries;
        let n = es.len() as int;
        let fs = after.leaf(s).entries;
        let fx = after.leaf(x).entries;
        assert forall|j: int| 0 <= j < es.len() implies fx.contains(#[trigger] es[j]) || fs.contains(
            es[j],
        ) by {
            if j < n - 1 {
                assert(fs[j] == es[j]);
            } else {
                assert(fx[0] == es[j]);
            }
        }
        assert forall|j: int| 0 <= j < ex.len() implies fx.contains(#[trigger] ex[j]) by {
            assert(fx[j + 1] == ex[j]);
        }
        assert forall|j: int| 0 <= j < fx.len() implies ex.contains(#[trigger] fx[j]) || es.contains(
            fx[j],
        ) by {
            if j == 0 {
                assert(es[n - 1] == fx[0]);
            } else {
                assert(ex[j - 1] == fx[j]);
            }
        }
        assert forall|j: int| 0 <= j < fs.len() implies es.contains(#[trigger] fs[j]) by {
            assert(es[j] == fs[j]);
        }
        self.lemma_stored_moved(after, x, s, k, r);
    }

    /// Borrowing from the leaf to the right changes nothing in what the tree
    /// stores.
    pub proof fn lemma_borrow_leaf_right_stored(self, slack: Slack, p: PageId, i: int, k: Key, r: RecordId)
        requires
            self.ok(slack),
            self.is_node(p),
            self.g.level[p] == 1,
            0 <= i < self.internal(p).entries.len() - 1,
            self.leaf(self.internal(p).entries[i + 1].1).entries.len() >= 1,
        ensures
            self.borrow_leaf_right(p, i).stored(k, r) == self.stored(k, r),
    {
        let after = self.borrow_leaf_right(p, i);
        let x = self.internal(p).entries[i].1;
        let s = self.internal(p).entries[i + 1].1;
        assert(self.node_ok(p, slack));
        assert(self.child_ok(p, i));
        assert(self.child_ok(p, i + 1));
        let es = self.leaf(s).entries;
        let ex = self.leaf(x).entries;
        let n = es.len() as int;
        let m = ex.len() as int;
        let fs = after.leaf(s).entries;
        let fx = after.leaf(x).entries;
        assert forall|j: int| 0 <= j < es.len() implies fx.contains(#[trigger] es[j]) || fs.contains(
            es[j],
        ) by {
            if j >= 1 {
                assert(fs[j - 1] == es[j]);
            } else {
                assert(fx[m] == es[j]);
            }
        }
        assert forall|j: int| 0 <= j < ex.len() implies fx.contains(#[trigger] ex[j]) by {
            assert(fx[j] == ex[j]);
        }
        assert forall|j: int| 0 <= j < fx.len() implies ex.contains(#[trigger] fx[j]) || es.contains(
            fx[j],
        ) by {
            if j == m {
                assert(es[0] == fx[j]);
            } else {
                assert(ex[j] == fx[j]);
            }
        }
        assert forall|j: int| 0 <= j < fs.len() implies es.contains(#[trigger] fs[j]) by {
            assert(es[j + 1] == fs[j]);
        }
        self.lemma_stored_moved(after, x, s, k, r);
    }

    /// Merging two leaves changes nothing in what the tree stores.
    pub proof fn lemma_merge_leaves_stored(self, slack: Slack, p: PageId, i: int, k: Key, r: RecordId)
        requires
            self.ok(slack),
            self.is_node(p),
            self.g.level[p] == 1,
            0 <= i < self.internal(p).entries.len() - 1,
        ensures
            self.merge_leaves(p, i).stored(k, r) == self.stored(k, r),
    {
        let after = self.merge_leaves(p, i);
        let a = self.internal(p).entries[i].1;
        let b = self.internal(p).entries[i + 1].1;
        assert(self.node_ok(p, slack));
        assert(self.child_ok(p, i));
        assert(self.child_ok(p, i + 1));
        let ea = self.leaf(a).entries;
        let eb = self.leaf(b).entries;
        let fa = after.leaf(a).entries;
        assert forall|j: int| 0 <= j < ea.len() implies fa.contains(#[trigger] ea[j]) by {
            assert(fa[j] == ea[j]);
        }
        assert forall|j: int| 0 <= j < eb.len() implies fa.contains(#[trigger] eb[j]) by {
            assert(fa[ea.len() + j] == eb[j]);
        }
        assert forall|j: int| 0 <= j < fa.len() implies ea.contains(#[trigger] fa[j]) || eb.contains(
            fa[j],
        ) by {
            if j < ea.len() {
                assert(ea[j] == fa[j]);
            } else {
                assert(eb[j - ea.len()] == fa[j]);
            }
        }
        self.lemma_stored_moved(after, a, b, k, r);
    }

    /// Making the only child of the root the root changes nothing in what
    /// the tree stores.
    pub proof fn lemma_collapse_root_stored(self, k: Key, r: RecordId)
        requires
            self.is_node(self.root),
            self.g.level[self.root] >= 1,
        ensures
            self.collapse_root().stored(k, r) == self.stored(k, r),
    {
        let after = self.collapse_root();
        assert forall|z: PageId|
            #![trigger self.is_node(z)]
            #![trigger after.is_node(z)]
            ((self.is_node(z) && self.g.level[z] == 0) <==> (after.is_node(z) && after.g.level[z]
                == 0)) && (self.is_node(z) && self.g.level[z] == 0 ==> self.leaf(z).entries
                == after.leaf(z).entries) by {}
        self.lemma_same_leaves(after, k, r);
    }

    /// What does not touch the leaves changes nothing in what the tree
    /// stores.
    pub proof fn lemma_inner_stored(self, after: TreeModel, gone: PageId, k: Key, r: RecordId)
        requires
            self.is_node(gone) ==> self.g.level[gone] >= 1,
            after.g.level == self.g.level || after.g.level == self.g.level.remove(gone),
            forall|z: PageId|
                #[trigger] self.is_node(z) && self.g.level[z] == 0 ==> after.pages[z]
                    == self.pages[z],
        ensures
            after.stored(k, r) == self.stored(k, r),
    {
        assert forall|z: PageId|
            #![trigger self.is_node(z)]
            #![trigger after.is_node(z)]
            ((self.is_node(z) && self.g.level[z] == 0) <==> (after.is_node(z) && after.g.level[z]
                == 0)) && (self.is_node(z) && self.g.level[z] == 0 ==> self.leaf(z).entries
                == after.leaf(z).entries) by {}
        self.lemma_same_leaves(after, k, r);
    }
}

} // verus!
