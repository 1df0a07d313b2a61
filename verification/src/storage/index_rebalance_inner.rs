use crate::common::rid::PageId;
use crate::common::rid::INVALID_PAGE_ID;
use crate::storage::codec::index_page_codec::keys_conform;
use crate::storage::index_model::Key;
use crate::storage::index_model::Slack;
use crate::storage::index_model::TreeGhost;
use crate::storage::index_model::TreeModel;
use crate::storage::index_page::child_index;
use crate::storage::index_page::min_size_of;
use crate::storage::index_page::InternalView;
use crate::storage::index_page::TreePageView;
use crate::storage::tuple::conforms_to;
use vstd::prelude::*;

verus! {

impl TreeModel {
    /// The tree after the internal page that is child number `i` of `p` got
    /// the last child of the page to its left as its first child. What was
    /// its first child gets the key that `p` had for the page, and `p` gets
    /// `sep` for it.
    pub open spec fn borrow_internal_left(self, p: PageId, i: int, sep: Key) -> TreeModel {
        let x = self.internal(p).entries[i].1;
        let s = self.internal(p).entries[i - 1].1;
        let ns = self.internal(s).entries;
        let n = ns.len() as int;
        let w = ns[n - 1];
        let xs = self.internal(x).entries;
        let old_sep = self.internal(p).entries[i].0;
        let first = self.g.fl[w.1];
        let old_first = self.g.fl[x];
        TreeModel {
            pages: self.pages.insert(
                s,
                TreePageView::Internal(
                    InternalView { entries: ns.subrange(0, n - 1), ..self.internal(s) },
                ),
            ).insert(
                x,
                TreePageView::Internal(
                    InternalView {
                        entries: seq![w] + xs.update(0, (old_sep, xs[0].1)),
                        ..self.internal(x)
                    },
                ),
            ).insert(
                p,
                TreePageView::Internal(
                    InternalView {
                        entries: self.internal(p).entries.update(i, (sep, x)),
                        ..self.internal(p)
                    },
                ),
            ),
            g: TreeGhost {
                parent: self.g.parent.insert(w.1, x),
                fl: self.g.fl.insert(x, first),
                nl: self.g.nl.insert(s, first),
                sep_child: self.g.sep_child.insert(first, x).insert(old_first, xs[0].1),
                lowkey: self.g.lowkey.insert(first, Some(sep)),
                ..self.g
            },
            ..self
        }
    }

    /// An internal page with one entry too few that borrows from the page to
    /// its left leaves the tree in order. The key that the parent gets for
    /// the page is the least key below the child that moved.
    pub proof fn lemma_borrow_internal_left(self, p: PageId, i: int, sep: Key)
        requires
            self.is_node(p),
            self.g.level[p] >= 2,
            1 <= i < self.internal(p).entries.len(),
            self.ok(Slack::Under(self.internal(p).entries[i].1)),
            self.internal(self.internal(p).entries[i - 1].1).entries.len() > min_size_of(
                self.internal_max,
            ),
            self.internal(self.internal(p).entries[i].1).entries.len() < min_size_of(
                self.internal_max,
            ),
            ({
                let s = self.internal(p).entries[i - 1].1;
                let ns = self.internal(s).entries;
                let first = self.g.fl[ns[ns.len() - 1].1];
                &&& self.is_node(first)
                &&& self.g.level[first] == 0
                &&& self.leaf(first).entries.len() >= 1
                &&& sep == self.leaf(first).entries[0].0
            }),
        ensures
            self.borrow_internal_left(p, i, sep).ok(Slack::Tight),
    {
        let after = self.borrow_internal_left(p, i, sep);
        let x = self.internal(p).entries[i].1;
        let s = self.internal(p).entries[i - 1].1;
        let before_slack = Slack::Under(x);
        let ns = self.internal(s).entries;
        let n = ns.len() as int;
        let w = ns[n - 1];
        let cw = w.1;
        let xs = self.internal(x).entries;
        let old_sep = self.internal(p).entries[i].0;
        let first = self.g.fl[cw];
        let old_first = self.g.fl[x];
        let c0 = xs[0].1;
        let ps = self.internal(p).entries;
        assert(self.node_ok(p, before_slack));
        assert(self.child_ok(p, i));
        assert(self.child_ok(p, i - 1));
        assert(self.is_node(x));
        assert(self.is_node(s));
        assert(x != s);
        assert(self.node_ok(x, before_slack));
        assert(self.node_ok(s, before_slack));
        assert(self.child_ok(s, n - 1));
        assert(self.child_ok(s, n - 2));
        assert(self.child_ok(x, 0));
        assert(self.is_node(cw));
        assert(self.is_node(c0));
        assert(self.is_node(self.root));
        assert(self.node_ok(first, before_slack));
        assert(first != old_first);
        assert(cw != c0);
        assert forall|z: PageId| #[trigger] after.is_node(z) implies after.node_ok(
            z,
            Slack::Tight,
        ) by {
            assert(self.is_node(z));
            assert(self.node_ok(z, before_slack));
            if z == x {
                let entries = after.internal(x).entries;
                assert forall|j: int| 0 <= j < entries.len() implies #[trigger] after.child_ok(
                    x,
                    j,
                ) by {
                    if j == 0 {
                        assert(entries[0] == w);
                        assert(entries[1] == (old_sep, c0));
                    } else {
                        assert(entries[j].1 == xs[j - 1].1);
                        assert(self.child_ok(x, j - 1));
                        let c = xs[j - 1].1;
                        assert(self.is_node(c));
                        if j + 1 < entries.len() {
                            assert(entries[j + 1] == xs[j]);
                            assert(self.child_ok(x, j));
                            assert(self.is_node(xs[j].1));
                        }
                        if j >= 2 {
                            assert(entries[j] == xs[j - 1]);
                            assert(xs[0].1 != xs[j - 1].1);
                        }
                    }
                }
                assert forall|a: int, b: int| 0 <= a < b < entries.len() implies entries[a].1
                    != entries[b].1 by {
                    assert(entries[b].1 == xs[b - 1].1);
                    assert(self.child_ok(x, b - 1));
                    if a > 0 {
                        assert(entries[a].1 == xs[a - 1].1);
                        assert(xs[a - 1].1 != xs[b - 1].1);
                    }
                }
                assert(keys_conform(entries, self.types)) by {
                    assert forall|j: int| 0 <= j < entries.len() implies conforms_to(
                        (#[trigger] entries[j]).0,
                        self.types,
                    ) by {
                        if j == 0 {
                            assert(conforms_to(ns[n - 1].0, self.types));
                        } else if j == 1 {
                            assert(conforms_to(ps[i].0, self.types));
                        } else {
                            assert(entries[j] == xs[j - 1]);
                        }
                    }
                }
            } else if z == s {
                let entries = after.internal(s).entries;
                assert forall|j: int| 0 <= j < entries.len() implies #[trigger] after.child_ok(
                    s,
                    j,
                ) by {
                    assert(entries[j] == ns[j]);
                    assert(self.child_ok(s, j));
                    assert(self.is_node(ns[j].1));
                    assert(ns[j].1 != ns[n - 1].1);
                    assert(self.child_ok(s, j + 1));
                    if j + 1 < entries.len() {
                        assert(entries[j + 1] == ns[j + 1]);
                        assert(self.is_node(ns[j + 1].1));
                    }
                }
                assert forall|a: int, b: int| 0 <= a < b < entries.len() implies entries[a].1
                    != entries[b].1 by {
                    assert(ns[a].1 != ns[b].1);
                }
                assert(keys_conform(entries, self.types)) by {
                    assert forall|j: int| 0 <= j < entries.len() implies conforms_to(
                        (#[trigger] entries[j]).0,
                        self.types,
                    ) by {
                        assert(entries[j] == ns[j]);
                    }
                }
            } else if z == p {
                let entries = after.internal(p).entries;
                assert forall|j: int| 0 <= j < entries.len() implies #[trigger] after.child_ok(
                    p,
                    j,
                ) by {
                    assert(self.child_ok(p, j));
                    assert(self.is_node(ps[j].1));
                    if j != i {
                        assert(entries[j] == ps[j]);
                        assert(ps[j].1 != ps[i].1);
                    }
                    if j != i - 1 {
                        assert(ps[j].1 != ps[i - 1].1);
                    }
                    if j + 1 < entries.len() {
                        assert(self.child_ok(p, j + 1));
                        assert(self.is_node(ps[j + 1].1));
                        if j + 1 != i {
                            assert(ps[j + 1].1 != ps[i].1);
                        }
                    }
                }
                assert forall|a: int, b: int| 0 <= a < b < entries.len() implies entries[a].1
                    != entries[b].1 by {
                    assert(ps[a].1 != ps[b].1);
                }
                assert(keys_conform(entries, self.types)) by {
                    assert forall|j: int| 0 <= j < entries.len() implies conforms_to(
                        (#[trigger] entries[j]).0,
                        self.types,
                    ) by {
                        if j != i {
                            assert(entries[j] == ps[j]);
                        } else {
                            assert(conforms_to(self.leaf(first).entries[0].0, self.types));
                        }
                    }
                }
            } else if self.g.level[z] == 0 {
                let zn = self.leaf(z).next_page_id;
                if zn != INVALID_PAGE_ID {
                    assert(self.is_node(zn));
                }
                self.lemma_rekeyed_leaf(after, z, first, sep, before_slack, Slack::Tight);
            } else {
                assert forall|j: int| 0 <= j < after.internal(z).entries.len() implies #[trigger] after.child_ok(
                    z,
                    j,
                ) by {
                    assert(self.child_ok(z, j));
                    assert(self.is_node(self.internal(z).entries[j].1));
                    if j + 1 < after.internal(z).entries.len() {
                        assert(self.child_ok(z, j + 1));
                        assert(self.is_node(self.internal(z).entries[j + 1].1));
                    }
                }
            }
        }
    }

    /// The tree after the internal page that is child number `i` of `p` got
    /// the first child of the page to its right as its last child, under the
    /// key that `p` had for that page, and `p` got `sep` for that page.
    pub open spec fn borrow_internal_right(self, p: PageId, i: int, sep: Key) -> TreeModel {
        let x = self.internal(p).entries[i].1;
        let s = self.internal(p).entries[i + 1].1;
        let ns = self.internal(s).entries;
        let n = ns.len() as int;
        let w = ns[0];
        let xs = self.internal(x).entries;
        let old_sep = self.internal(p).entries[i + 1].0;
        let first = self.g.fl[ns[1].1];
        let moved_first = self.g.fl[w.1];
        TreeModel {
            pages: self.pages.insert(
                s,
                TreePageView::Internal(InternalView { entries: ns.subrange(1, n), ..self.internal(s) }),
            ).insert(
                x,
                TreePageView::Internal(
                    InternalView { entries: xs.push((old_sep, w.1)), ..self.internal(x) },
                ),
            ).insert(
                p,
                TreePageView::Internal(
                    InternalView {
                        entries: self.internal(p).entries.update(i + 1, (sep, s)),
                        ..self.internal(p)
                    },
                ),
            ),
            g: TreeGhost {
                parent: self.g.parent.insert(w.1, x),
                nl: self.g.nl.insert(x, first),
                fl: self.g.fl.insert(s, first),
                sep_child: self.g.sep_child.insert(moved_first, w.1).insert(first, s),
                lowkey: self.g.lowkey.insert(first, Some(sep)),
                ..self.g
            },
            ..self
        }
    }

    /// An internal page with one entry too few that borrows from the page to
    /// its right leaves the tree in order. The key that the parent gets for
    /// the page to the right is the least key below what is now its first
    /// child.
    pub proof fn lemma_borrow_internal_right(self, p: PageId, i: int, sep: Key)
        requires
            self.is_node(p),
            self.g.level[p] >= 2,
            0 <= i < self.internal(p).entries.len() - 1,
            self.ok(Slack::Under(self.internal(p).entries[i].1)),
            self.internal(self.internal(p).entries[i + 1].1).entries.len() > min_size_of(
                self.internal_max,
            ),
            self.internal(self.internal(p).entries[i].1).entries.len() < min_size_of(
                self.internal_max,
            ),
            ({
                let s = self.internal(p).entries[i + 1].1;
                let ns = self.internal(s).entries;
                let first = self.g.fl[ns[1].1];
                &&& self.is_node(first)
                &&& self.g.level[first] == 0
                &&& self.leaf(first).entries.len() >= 1
                &&& sep == self.leaf(first).entries[0].0
            }),
        ensures
            self.borrow_internal_right(p, i, sep).ok(Slack::Tight),
    {
        let after = self.borrow_internal_right(p, i, sep);
        let x = self.internal(p).entries[i].1;
        let s = self.internal(p).entries[i + 1].1;
        let before_slack = Slack::Under(x);
        let ns = self.internal(s).entries;
        let n = ns.len() as int;
        let w = ns[0];
        let cw = w.1;
        let c1 = ns[1].1;
        let xs = self.internal(x).entries;
        let m = xs.len() as int;
        let old_sep = self.internal(p).entries[i + 1].0;
        let first = self.g.fl[c1];
        let moved_first = self.g.fl[cw];
        let ps = self.internal(p).entries;
        assert(self.node_ok(p, before_slack));
        assert(self.child_ok(p, i));
        assert(self.child_ok(p, i + 1));
        assert(self.is_node(x));
        assert(self.is_node(s));
        assert(x != s);
        assert(self.node_ok(x, before_slack));
        assert(self.node_ok(s, before_slack));
        assert(self.child_ok(s, 0));
        assert(self.child_ok(s, 1));
        assert(self.child_ok(x, m - 1));
        assert(self.is_node(cw));
        assert(self.is_node(c1));
        assert(self.is_node(self.root));
        assert(self.node_ok(first, before_slack));
        assert(first != moved_first);
        assert forall|z: PageId| #[trigger] after.is_node(z) implies after.node_ok(
            z,
            Slack::Tight,
        ) by {
            assert(self.is_node(z));
            assert(self.node_ok(z, before_slack));
            if z == x {
                let entries = after.internal(x).entries;
                assert forall|j: int| 0 <= j < entries.len() implies #[trigger] after.child_ok(
                    x,
                    j,
                ) by {
                    if j == m {
                        assert(entries[m] == (old_sep, cw));
                    } else {
                        assert(entries[j] == xs[j]);
                        assert(self.child_ok(x, j));
                        let c = xs[j].1;
                        assert(self.is_node(c));
                        if j + 1 < m {
                            assert(entries[j + 1] == xs[j + 1]);
                            assert(self.child_ok(x, j + 1));
                            assert(self.is_node(xs[j + 1].1));
                        } else {
                            assert(entries[m] == (old_sep, cw));
                        }
                    }
                }
                assert forall|a: int, b: int| 0 <= a < b < entries.len() implies entries[a].1
                    != entries[b].1 by {
                    assert(entries[a] == xs[a]);
                    assert(self.child_ok(x, a));
                    if b < m {
                        assert(entries[b] == xs[b]);
                        assert(xs[a].1 != xs[b].1);
                    }
                }
                assert(keys_conform(entries, self.types)) by {
                    assert forall|j: int| 0 <= j < entries.len() implies conforms_to(
                        (#[trigger] entries[j]).0,
                        self.types,
                    ) by {
                        if j == m {
                            assert(conforms_to(ps[i + 1].0, self.types));
                        } else {
                            assert(entries[j] == xs[j]);
                        }
                    }
                }
            } else if z == s {
                let entries = after.internal(s).entries;
                assert forall|j: int| 0 <= j < entries.len() implies #[trigger] after.child_ok(
                    s,
                    j,
                ) by {
                    assert(entries[j] == ns[j + 1]);
                    assert(self.child_ok(s, j + 1));
                    assert(self.is_node(ns[j + 1].1));
                    assert(ns[0].1 != ns[j + 1].1);
                    if j > 0 {
                        assert(ns[1].1 != ns[j + 1].1);
                    }
                    if j + 1 < entries.len() {
                        assert(entries[j + 1] == ns[j + 2]);
                        assert(self.child_ok(s, j + 2));
                        assert(self.is_node(ns[j + 2].1));
                    }
                }
                assert forall|a: int, b: int| 0 <= a < b < entries.len() implies entries[a].1
                    != entries[b].1 by {
                    assert(ns[a + 1].1 != ns[b + 1].1);
                }
                assert(keys_conform(entries, self.types)) by {
                    assert forall|j: int| 0 <= j < entries.len() implies conforms_to(
                        (#[trigger] entries[j]).0,
                        self.types,
                    ) by {
                        assert(entries[j] == ns[j + 1]);
                    }
                }
            } else if z == p {
                let entries = after.internal(p).entries;
                assert forall|j: int| 0 <= j < entries.len() implies #[trigger] after.child_ok(
                    p,
                    j,
                ) by {
                    assert(self.child_ok(p, j));
                    assert(self.is_node(ps[j].1));
                    if j != i + 1 {
                        assert(entries[j] == ps[j]);
                        assert(ps[j].1 != ps[i + 1].1);
                    }
                    if j != i {
                        assert(ps[j].1 != ps[i].1);
                    }
                    if j + 1 < entries.len() {
                        assert(self.child_ok(p, j + 1));
                        assert(self.is_node(ps[j + 1].1));
                        if j + 1 != i + 1 {
                            assert(ps[j + 1].1 != ps[i + 1].1);
                        }
                    }
                }
                assert forall|a: int, b: int| 0 <= a < b < entries.len() implies entries[a].1
                    != entries[b].1 by {
                    assert(ps[a].1 != ps[b].1);
                }
                assert(keys_conform(entries, self.types)) by {
                    assert forall|j: int| 0 <= j < entries.len() implies conforms_to(
                        (#[trigger] entries[j]).0,
                        self.types,
                    ) by {
                        if j != i + 1 {
                            assert(entries[j] == ps[j]);
                        } else {
                            assert(conforms_to(self.leaf(first).entries[0].0, self.types));
                        }
                    }
                }
            } else if self.g.level[z] == 0 {
                let zn = self.leaf(z).next_page_id;
                if zn != INVALID_PAGE_ID {
                    assert(self.is_node(zn));
                }
                self.lemma_rekeyed_leaf(after, z, first, sep, before_slack, Slack::Tight);
            } else {
                assert forall|j: int| 0 <= j < after.internal(z).entries.len() implies #[trigger] after.child_ok(
                    z,
                    j,
                ) by {
                    assert(self.child_ok(z, j));
                    assert(self.is_node(self.internal(z).entries[j].1));
                    if j + 1 < after.internal(z).entries.len() {
                        assert(self.child_ok(z, j + 1));
                        assert(self.is_node(self.internal(z).entries[j + 1].1));
                    }
                }
            }
        }
    }

    /// The tree after the internal page that is child number `i + 1` of `p`
    /// was merged into the page to its left and left the tree. Its first
    /// child goes there under the key `sep`.
    pub open spec fn merge_internals(self, p: PageId, i: int, sep: Key) -> TreeModel {
        let a = self.internal(p).entries[i].1;
        let b = self.internal(p).entries[i + 1].1;
        let na = self.internal(a).entries;
        let nb = self.internal(b).entries;
        let first = self.g.fl[b];
        TreeModel {
            pages: self.pages.insert(
                a,
                TreePageView::Internal(
                    InternalView { entries: na + nb.update(0, (sep, nb[0].1)), ..self.internal(a) },
                ),
            ).insert(
                p,
                TreePageView::Internal(
                    InternalView {
                        entries: self.internal(p).entries.remove(i + 1),
                        ..self.internal(p)
                    },
                ),
            ).remove(b),
            g: TreeGhost {
                level: self.g.level.remove(b),
                nl: self.g.nl.insert(a, self.g.nl[b]),
                parent: Map::new(
                    |c: PageId| true,
                    |c: PageId|
                        if self.moved(b, 0, c) {
                            a
                        } else {
                            self.g.parent[c]
                        },
                ),
                sep_child: self.g.sep_child.insert(first, nb[0].1),
                lowkey: self.g.lowkey.insert(first, Some(sep)),
                ..self.g
            },
            ..self
        }
    }

    /// Merging two neighbouring internal pages that fit one page together
    /// leaves the tree in order, but that the parent may now have one entry
    /// too few. The key under which the first child of the right page goes
    /// to the left page is the least key below that child.
    pub proof fn lemma_merge_internals(self, before_slack: Slack, p: PageId, i: int, sep: Key)
        requires
            self.is_node(p),
            self.g.level[p] >= 2,
            0 <= i < self.internal(p).entries.len() - 1,
            before_slack == Slack::Under(self.internal(p).entries[i].1) || before_slack
                == Slack::Under(self.internal(p).entries[i + 1].1),
            self.ok(before_slack),
            self.internal(self.internal(p).entries[i].1).entries.len() + self.internal(
                self.internal(p).entries[i + 1].1,
            ).entries.len() <= self.internal_max,
            self.internal(self.internal(p).entries[i].1).entries.len() + self.internal(
                self.internal(p).entries[i + 1].1,
            ).entries.len() >= min_size_of(self.internal_max),
            ({
                let first = self.g.fl[self.internal(p).entries[i + 1].1];
                &&& self.is_node(first)
                &&& self.g.level[first] == 0
                &&& self.leaf(first).entries.len() >= 1
                &&& sep == self.leaf(first).entries[0].0
            }),
        ensures
            self.merge_internals(p, i, sep).ok(self.slack_after_merge(p, i)),
    {
        let after = self.merge_internals(p, i, sep);
        let slack = self.slack_after_merge(p, i);
        let a = self.internal(p).entries[i].1;
        let b = self.internal(p).entries[i + 1].1;
        let na = self.internal(a).entries;
        let nb = self.internal(b).entries;
        let la = na.len() as int;
        let first = self.g.fl[b];
        let ps = self.internal(p).entries;
        assert(self.node_ok(p, before_slack));
        assert(self.child_ok(p, i));
        assert(self.child_ok(p, i + 1));
        assert(self.is_node(a));
        assert(self.is_node(b));
        assert(a != b);
        assert(self.node_ok(a, before_slack));
        assert(self.node_ok(b, before_slack));
        assert(self.child_ok(b, 0));
        assert(self.child_ok(a, la - 1));
        assert(self.is_node(nb[0].1));
        assert(self.is_node(self.root));
        assert(self.node_ok(first, before_slack));
        assert forall|c: PageId| self.moved(b, 0, c) implies self.g.parent[c] == b && self.is_node(
            c,
        ) by {
            let j2 = choose|j2: int|
                0 <= j2 < nb.len() && #[trigger] self.internal(b).entries[j2].1 == c;
            assert(self.child_ok(b, j2));
        }
        assert forall|j: int| 0 <= j < nb.len() implies self.moved(b, 0, #[trigger] nb[j].1) by {}
        assert forall|z: PageId| #[trigger] after.is_node(z) implies after.node_ok(z, slack) by {
            assert(self.is_node(z));
            assert(self.node_ok(z, before_slack));
            if z == a {
                let entries = after.internal(a).entries;
                assert forall|j: int| 0 <= j < entries.len() implies #[trigger] after.child_ok(
                    a,
                    j,
                ) by {
                    if j < la {
                        assert(entries[j] == na[j]);
                        assert(self.child_ok(a, j));
                        let c = na[j].1;
                        assert(self.is_node(c));
                        if self.moved(b, 0, c) {
                            assert(self.g.parent[c] == b);
                        }
                        if j + 1 < la {
                            assert(entries[j + 1] == na[j + 1]);
                            assert(self.child_ok(a, j + 1));
                            assert(self.is_node(na[j + 1].1));
                        } else {
                            assert(entries[la].1 == nb[0].1);
                        }
                    } else {
                        assert(entries[j].1 == nb[j - la].1);
                        assert(self.child_ok(b, j - la));
                        let c = nb[j - la].1;
                        assert(self.is_node(c));
                        assert(self.moved(b, 0, c));
                        if j > la {
                            assert(entries[j] == nb[j - la]);
                            assert(nb[0].1 != nb[j - la].1);
                        } else {
                            assert(entries[la] == (sep, nb[0].1));
                        }
                        if j + 1 < entries.len() {
                            assert(entries[j + 1] == nb[j + 1 - la]);
                            assert(self.child_ok(b, j + 1 - la));
                            assert(self.is_node(nb[j + 1 - la].1));
                        }
                    }
                }
                assert forall|c: int, d: int| 0 <= c < d < entries.len() implies entries[c].1
                    != entries[d].1 by {
                    if d < la {
                        assert(entries[c] == na[c]);
                        assert(entries[d] == na[d]);
                        assert(na[c].1 != na[d].1);
                    } else if c >= la {
                        assert(entries[c].1 == nb[c - la].1);
                        assert(entries[d].1 == nb[d - la].1);
                        assert(nb[c - la].1 != nb[d - la].1);
                    } else {
                        assert(entries[c] == na[c]);
                        assert(entries[d].1 == nb[d - la].1);
                        assert(self.child_ok(a, c));
                        assert(self.child_ok(b, d - la));
                    }
                }
                assert(keys_conform(entries, self.types)) by {
                    assert forall|j: int| 0 <= j < entries.len() implies conforms_to(
                        (#[trigger] entries[j]).0,
                        self.types,
                    ) by {
                        if j < la {
                            assert(entries[j] == na[j]);
                        } else if j > la {
                            assert(entries[j] == nb[j - la]);
                        } else {
                            assert(conforms_to(self.leaf(first).entries[0].0, self.types));
                        }
                    }
                }
            } else if z == p {
                let entries = after.internal(p).entries;
                assert(entries == ps.remove(i + 1));
                assert forall|j: int| 0 <= j < entries.len() implies #[trigger] after.child_ok(
                    p,
                    j,
                ) by {
                    if j <= i {
                        assert(entries[j] == ps[j]);
                        assert(self.child_ok(p, j));
                        assert(self.is_node(ps[j].1));
                        assert(ps[j].1 != ps[i + 1].1);
                        if self.moved(b, 0, ps[j].1) {
                            assert(self.g.parent[ps[j].1] == b);
                        }
                        if j < i {
                            assert(ps[j].1 != ps[i].1);
                            assert(entries[j + 1] == ps[j + 1]);
                            assert(self.child_ok(p, j + 1));
                            assert(self.is_node(ps[j + 1].1));
                        } else if i + 1 < entries.len() {
                            assert(entries[i + 1] == ps[i + 2]);
                            assert(self.child_ok(p, i + 2));
                            assert(self.is_node(ps[i + 2].1));
                        }
                    } else {
                        assert(entries[j] == ps[j + 1]);
                        assert(self.child_ok(p, j + 1));
                        assert(self.is_node(ps[j + 1].1));
                        assert(ps[i].1 != ps[j + 1].1);
                        assert(ps[i + 1].1 != ps[j + 1].1);
                        if self.moved(b, 0, ps[j + 1].1) {
                            assert(self.g.parent[ps[j + 1].1] == b);
                        }
                        if j + 1 < entries.len() {
                            assert(entries[j + 1] == ps[j + 2]);
                            assert(self.child_ok(p, j + 2));
                            assert(self.is_node(ps[j + 2].1));
                        }
                    }
                }
                assert forall|c: int, d: int| 0 <= c < d < entries.len() implies entries[c].1
                    != entries[d].1 by {
                    let c2 = if c <= i {
                        c
                    } else {
                        c + 1
                    };
                    let d2 = if d <= i {
                        d
                    } else {
                        d + 1
                    };
                    assert(entries[c] == ps[c2]);
                    assert(entries[d] == ps[d2]);
                    assert(ps[c2].1 != ps[d2].1);
                }
                assert(keys_conform(entries, self.types)) by {
                    assert forall|j: int| 0 <= j < entries.len() implies conforms_to(
                        (#[trigger] entries[j]).0,
                        self.types,
                    ) by {
                        if j <= i {
                            assert(entries[j] == ps[j]);
                        } else {
                            assert(entries[j] == ps[j + 1]);
                        }
                    }
                }
            } else if self.g.level[z] == 0 {
                let zn = self.leaf(z).next_page_id;
                if zn != INVALID_PAGE_ID {
                    assert(self.is_node(zn));
                }
                let mid = TreeModel {
                    g: TreeGhost { level: self.g.level, ..after.g },
                    ..after
                };
                self.lemma_rekeyed_leaf(mid, z, first, sep, before_slack, slack);
                assert forall|j: int| 0 <= j < after.leaf(z).entries.len() implies #[trigger] after.leaf_entry_ok(
                    z,
                    j,
                ) by {
                    assert(mid.leaf_entry_ok(z, j));
                }
            } else {
                if z == self.root {
                    assert(self.child_ok(z, 0));
                }
                assert forall|j: int| 0 <= j < after.internal(z).entries.len() implies #[trigger] after.child_ok(
                    z,
                    j,
                ) by {
                    assert(self.child_ok(z, j));
                    let c = self.internal(z).entries[j].1;
                    assert(self.is_node(c));
                    if self.moved(b, 0, c) {
                        assert(self.g.parent[c] == b);
                    }
                    if j + 1 < after.internal(z).entries.len() {
                        assert(self.child_ok(z, j + 1));
                        assert(self.is_node(self.internal(z).entries[j + 1].1));
                    }
                }
            }
        }
    }

    /// Whether the page has fewer entries than a page below the root may
    /// have.
    pub open spec fn short(self, x: PageId) -> bool {
        x != self.root && self.pages[x].size() < min_size_of(self.pages[x].max_size())
    }

    /// Whether the page can give an entry away and keep enough.
    pub open spec fn can_lend(self, x: PageId) -> bool {
        self.pages[x].size() > min_size_of(self.pages[x].max_size())
    }

    /// The tree after child number `i` of `p` borrowed from the page to its
    /// left. Among internal pages the parent gets the least key below the
    /// child that moved.
    pub open spec fn lend_left(self, p: PageId, i: int) -> TreeModel {
        match self.pages[self.internal(p).entries[i].1] {
            TreePageView::Leaf(_) => self.borrow_leaf_left(p, i),
            TreePageView::Internal(_) => {
                let ns = self.internal(self.internal(p).entries[i - 1].1).entries;
                self.borrow_internal_left(
                    p,
                    i,
                    self.leaf(self.g.fl[ns[ns.len() - 1].1]).entries[0].0,
                )
            },
        }
    }

    /// The tree after child number `i` of `p` borrowed from the page to its
    /// right. Among internal pages the parent gets the least key below what
    /// is then the first child of that page.
    pub open spec fn lend_right(self, p: PageId, i: int) -> TreeModel {
        match self.pages[self.internal(p).entries[i].1] {
            TreePageView::Leaf(_) => self.borrow_leaf_right(p, i),
            TreePageView::Internal(_) => {
                let ns = self.internal(self.internal(p).entries[i + 1].1).entries;
                self.borrow_internal_right(p, i, self.leaf(self.g.fl[ns[1].1]).entries[0].0)
            },
        }
    }

    /// The tree after child number `i + 1` of `p` was merged into child
    /// number `i`; where that leaves the root with one child, the child is
    /// the root.
    pub open spec fn merged_up(self, p: PageId, i: int) -> TreeModel {
        let merged = match self.pages[self.internal(p).entries[i].1] {
            TreePageView::Leaf(_) => self.merge_leaves(p, i),
            TreePageView::Internal(_) => self.merge_internals(
                p,
                i,
                self.leaf(self.g.fl[self.internal(p).entries[i + 1].1]).entries[0].0,
            ),
        };
        if p == self.root && self.internal(p).entries.len() == 2 {
            merged.collapse_root()
        } else {
            merged
        }
    }

    /// The tree after the page `x`, which may have one entry too few, and
    /// the pages above it on the way `path` have been brought into balance as
    /// far as can be. A page with too few entries borrows from the page to
    /// its left if that can spare an entry, else from the page to its right
    /// if that can; else it is merged with the page to its left, or, where
    /// there is none, with the page to its right, and the parent is looked at
    /// in turn. A page without a neighbour stays as it is.
    pub open spec fn rebalanced(self, path: Seq<PageId>, x: PageId) -> TreeModel
        decreases path.len(),
    {
        if !self.short(x) || path.len() == 0 {
            self
        } else {
            let p = path[path.len() - 1];
            let entries = self.internal(p).entries;
            let i = child_index(entries, x, 0);
            if 0 < i < entries.len() && self.can_lend(entries[i - 1].1) {
                self.lend_left(p, i)
            } else if i + 1 < entries.len() && self.can_lend(entries[i + 1].1) {
                self.lend_right(p, i)
            } else if 0 < i < entries.len() {
                self.merged_up(p, i - 1).rebalanced(
                    path.drop_last(),
                    if p == self.root && entries.len() == 2 {
                        entries[i - 1].1
                    } else {
                        p
                    },
                )
            } else if i + 1 < entries.len() {
                self.merged_up(p, i).rebalanced(
                    path.drop_last(),
                    if p == self.root && entries.len() == 2 {
                        x
                    } else {
                        p
                    },
                )
            } else {
                self
            }
        }
    }

    /// The tree after the first entry with the key on the leaf that the key
    /// is routed to was taken out of it.
    pub open spec fn without_entry(self, key: Key) -> TreeModel {
        if self.root == INVALID_PAGE_ID {
            self
        } else {
            let x = self.leaf_for(key)->Some_0;
            self.with_page(x, TreePageView::Leaf(self.leaf(x).delete(key))).rebalanced(
                self.way_to(key),
                x,
            )
        }
    }
}

} // verus!
