//! What each operation of the model changes, and that each keeps the graph
//! well formed.

use crate::handle::Handle;
use crate::model::GraphModel;
use crate::node::NodeModel;
use crate::pool::{can_spawn_at, generations_ok, handle_at, is_reserved, LAST_GENERATION};
use crate::transform::Transform;
use vstd::prelude::*;

verus! {

/// What `remove_value` does to a sequence without duplicates.
pub proof fn lemma_remove_value<A>(s: Seq<A>, v: A)
    requires
        s.no_duplicates(),
    ensures
        s.remove_value(v).no_duplicates(),
        !s.remove_value(v).contains(v),
        forall|x: A| x != v ==> (#[trigger] s.remove_value(v).contains(x) <==> s.contains(x)),
        !s.contains(v) ==> s.remove_value(v) == s,
{
    s.index_of_first_ensures(v);
    let r = s.remove_value(v);
    match s.index_of_first(v) {
        Some(i) => {
            assert(r == s.remove(i));
            assert forall|a: int, b: int|
                0 <= a < r.len() && 0 <= b < r.len() && a != b implies r[a] != r[b] by {
                let a0 = if a < i { a } else { a + 1 };
                let b0 = if b < i { b } else { b + 1 };
                assert(r[a] == s[a0] && r[b] == s[b0]);
            }
            if r.contains(v) {
                let a = choose|a: int| 0 <= a < r.len() && r[a] == v;
                let a0 = if a < i { a } else { a + 1 };
                assert(r[a] == s[a0]);
            }
            assert forall|x: A| x != v implies (#[trigger] r.contains(x) <==> s.contains(x)) by {
                if r.contains(x) {
                    let a = choose|a: int| 0 <= a < r.len() && r[a] == x;
                    let a0 = if a < i { a } else { a + 1 };
                    assert(r[a] == s[a0]);
                }
                if s.contains(x) {
                    let a0 = choose|a0: int| 0 <= a0 < s.len() && s[a0] == x;
                    let a = if a0 < i { a0 } else { a0 - 1 };
                    assert(r[a] == s[a0]);
                }
            }
        },
        None => {},
    }
}

/// The children of `x` in `m` once `h` is cut from its parent.
pub open spec fn children_without<T: Transform>(m: GraphModel<T>, x: Handle, h: Handle) -> Seq<
    Handle,
> {
    if x == m.node(h).parent {
        m.node(x).children.remove_value(h)
    } else {
        m.node(x).children
    }
}

impl<T: Transform> GraphModel<T> {
    /// Replacing a node changes that node and nothing else.
    pub proof fn lemma_with_node(self, h: Handle, n: NodeModel<T>)
        requires
            self.contains(h),
        ensures
            self.with_node(h, n).root == self.root,
            self.with_node(h, n).entries.len() == self.entries.len(),
            forall|x: Handle| #[trigger] self.with_node(h, n).contains(x) == self.contains(x),
            forall|x: Handle|
                self.contains(x) ==> #[trigger] self.with_node(h, n).node(x) == if x == h {
                    n
                } else {
                    self.node(x)
                },
            forall|p: Handle| #[trigger] self.with_node(h, n).refers_back(p) == self.refers_back(p),
            forall|i: int|
                0 <= i < self.entries.len() ==> (#[trigger] self.with_node(
                    h,
                    n,
                ).entries[i]).generation == self.entries[i].generation,
            forall|i: int|
                0 <= i < self.entries.len() && i != h.index ==> #[trigger] self.with_node(
                    h,
                    n,
                ).entries[i] == self.entries[i],
            generations_ok(self.entries) ==> generations_ok(self.with_node(h, n).entries),
    {
        let m = self.with_node(h, n);
        if generations_ok(self.entries) {
            assert forall|i: int|
                0 <= i < m.entries.len() && !(#[trigger] m.entries[i].slot is Vacant) implies 1
                <= m.entries[i].generation < LAST_GENERATION by {
                assert(!(self.entries[i].slot is Vacant));
            }
        }
    }

    /// Cutting a node off changes its parent and its former parent's
    /// children, and nothing else.
    pub proof fn lemma_detach(self, h: Handle)
        requires
            self.contains(h),
        ensures
            self.detach(h).root == self.root,
            self.detach(h).entries.len() == self.entries.len(),
            forall|x: Handle| #[trigger] self.detach(h).contains(x) == self.contains(x),
            forall|x: Handle|
                self.contains(x) ==> #[trigger] self.detach(h).node(x) == (NodeModel {
                    parent: if x == h {
                        Handle::none()
                    } else {
                        self.node(x).parent
                    },
                    children: children_without(self, x, h),
                    ..self.node(x)
                }),
            forall|p: Handle| #[trigger] self.detach(h).refers_back(p) == self.refers_back(p),
            forall|i: int|
                0 <= i < self.entries.len() ==> (#[trigger] self.detach(h).entries[i]).generation
                    == self.entries[i].generation,
            forall|i: int|
                0 <= i < self.entries.len() && !(self.entries[i].slot is Occupied)
                    ==> #[trigger] self.detach(h).entries[i] == self.entries[i],
            generations_ok(self.entries) ==> generations_ok(self.detach(h).entries),
    {
        let p = self.node(h).parent;
        let m = self.with_node(h, NodeModel { parent: Handle::none(), ..self.node(h) });
        self.lemma_with_node(h, NodeModel { parent: Handle::none(), ..self.node(h) });
        if self.contains(p) {
            assert(m.contains(p));
            m.lemma_with_node(
                p,
                NodeModel { children: m.node(p).children.remove_value(h), ..m.node(p) },
            );
        }
        assert forall|i: int| 0 <= i < self.entries.len() implies (#[trigger] self.detach(
            h,
        ).entries[i]).generation == self.entries[i].generation by {
            assert(m.entries[i].generation == self.entries[i].generation);
        }
        assert forall|i: int|
            0 <= i < self.entries.len() && !(self.entries[i].slot is Occupied)
                implies #[trigger] self.detach(h).entries[i] == self.entries[i] by {
            assert(m.entries[i] == self.entries[i]);
        }
    }

    /// Linking changes the child's parent, the former parent's children and
    /// the new parent's children, and nothing else.
    pub proof fn lemma_link(self, child: Handle, parent: Handle)
        requires
            self.contains(child),
            self.contains(parent),
        ensures
            self.link(child, parent).root == self.root,
            self.link(child, parent).entries.len() == self.entries.len(),
            forall|x: Handle| #[trigger] self.link(child, parent).contains(x) == self.contains(x),
            forall|x: Handle|
                self.contains(x) ==> #[trigger] self.link(child, parent).node(x) == (NodeModel {
                    parent: if x == child {
                        parent
                    } else {
                        self.node(x).parent
                    },
                    children: if x == parent {
                        children_without(self, x, child).push(child)
                    } else {
                        children_without(self, x, child)
                    },
                    ..self.node(x)
                }),
            forall|p: Handle| #[trigger]
                self.link(child, parent).refers_back(p) == self.refers_back(p),
            generations_ok(self.entries) ==> generations_ok(self.link(child, parent).entries),
            self.precedes(self.link(child, parent)),
    {
        self.lemma_detach(child);
        let cut = self.detach(child);
        cut.lemma_with_node(child, NodeModel { parent, ..cut.node(child) });
        let m = cut.with_node(child, NodeModel { parent, ..cut.node(child) });
        m.lemma_with_node(
            parent,
            NodeModel { children: m.node(parent).children.push(child), ..m.node(parent) },
        );
        assert forall|i: int| 0 <= i < self.entries.len() implies self.entries[i].generation <= (
        #[trigger] self.link(child, parent).entries[i]).generation by {
            assert(cut.entries[i].generation == self.entries[i].generation);
            assert(m.entries[i].generation == cut.entries[i].generation);
        }
    }

    /// Where links agree, a node that lists a child is that child's parent.
    pub proof fn lemma_listed_once(self, a: Handle, c: Handle)
        requires
            self.links_agree(),
            self.contains(a),
            self.node(a).children.contains(c),
        ensures
            self.owns(a, c),
    {
        let kids = self.node(a).children;
        let i = choose|i: int| 0 <= i < kids.len() && kids[i] == c;
        assert(self.owns(a, self.node(a).children[i]));
    }

    /// The sentinel refers to no node.
    pub proof fn lemma_none_absent(self)
        requires
            generations_ok(self.entries),
        ensures
            !self.contains(Handle::none()),
    {
        if self.contains(Handle::none()) {
            assert(!(self.entries[0].slot is Vacant));
        }
    }

    /// In a graph that is well formed but for one node, links agree.
    pub proof fn lemma_wf_agrees(self, loose: Handle)
        requires
            self.wf_except(loose),
        ensures
            self.links_agree(),
    {
        assert forall|h: Handle| #[trigger] self.contains(h) implies self.agrees(h) by {
            assert(self.links_ok_except(h, loose));
        }
    }

    /// The initial graph is a tree.
    pub proof fn lemma_initial_tree()
        ensures
            Self::initial().is_tree(),
    {
        let m = Self::initial();
        if !m.root.is_none() {
            assert(m.contains(m.root));
        }
        assert forall|h: Handle| #[trigger] m.contains(h) implies m.links_ok(h) && m.descends_from(
            h,
            m.root,
        ) by {
            assert(h == m.root);
            assert(m.ancestor(h, 0) == m.root);
        }
    }

    /// Linking a node other than the root below any node makes a graph well
    /// formed that was so but for that node.
    pub proof fn lemma_link_wf(self, child: Handle, parent: Handle)
        requires
            self.wf_except(child),
            self.contains(child),
            self.contains(parent),
            child != self.root,
        ensures
            self.link(child, parent).wf(),
    {
        let m = self.link(child, parent);
        let q = self.node(child).parent;
        self.lemma_link(child, parent);
        self.lemma_none_absent();
        self.lemma_wf_agrees(child);
        if !m.root.is_none() {
            assert(m.contains(m.root));
        }
        assert forall|x: Handle| #[trigger] m.contains(x) implies m.links_ok(x) by {
            assert(self.contains(x));
            assert(self.links_ok_except(x, child));
            let old_kids = self.node(x).children;
            let base = children_without(self, x, child);
            let kids = m.node(x).children;
            lemma_remove_value(old_kids, child);
            if old_kids.contains(child) {
                self.lemma_listed_once(x, child);
            }
            assert(!base.contains(child)) by {
                if x != q {
                    assert(base == old_kids);
                }
            }
            assert forall|y: Handle| y != child implies (#[trigger] base.contains(y)
                <==> old_kids.contains(y)) by {}
            if x == parent {
                assert(kids == base.push(child));
                assert forall|a: int, b: int|
                    0 <= a < kids.len() && 0 <= b < kids.len() && a != b implies kids[a]
                    != kids[b] by {
                    if a < base.len() && b < base.len() {
                    } else if a < base.len() {
                        assert(base.contains(kids[a]));
                    } else {
                        assert(base.contains(kids[b]));
                    }
                }
            }
            assert forall|i: int| 0 <= i < kids.len() implies m.owns(x, #[trigger] kids[i]) by {
                let c = kids[i];
                if c == child {
                    if i < base.len() {
                        assert(base.contains(c));
                    }
                    assert(x == parent);
                } else {
                    assert(base[i] == c);
                    assert(base.contains(c));
                    assert(old_kids.contains(c));
                    self.lemma_listed_once(x, c);
                }
            }
            let xp = m.node(x).parent;
            if m.contains(xp) {
                let pk = m.node(xp).children;
                let pbase = children_without(self, xp, child);
                lemma_remove_value(self.node(xp).children, child);
                if x == child {
                    assert(xp == parent);
                    assert(pk == pbase.push(child));
                    assert(pk[pbase.len() as int] == child);
                } else {
                    assert(self.node(xp).children.contains(x));
                    assert(pbase.contains(x));
                    let j = choose|j: int| 0 <= j < pbase.len() && pbase[j] == x;
                    assert(pk[j] == x);
                }
            }
            assert(m.refers_back(xp)) by {
                if x != child {
                    assert(self.refers_back(xp));
                }
            }
        }
    }

    /// Linking one node after another below `parent` keeps the graph well
    /// formed, and its nodes the same.
    pub proof fn lemma_link_all_wf(self, children: Seq<Handle>, parent: Handle)
        requires
            self.wf(),
            self.contains(parent),
            forall|i: int|
                0 <= i < children.len() ==> self.contains(#[trigger] children[i]) && children[i]
                    != self.root,
        ensures
            self.link_all(children, parent).wf(),
            self.link_all(children, parent).root == self.root,
            self.link_all(children, parent).entries.len() == self.entries.len(),
            forall|x: Handle| #[trigger]
                self.link_all(children, parent).contains(x) == self.contains(x),
            (forall|i: int| 0 <= i < children.len() ==> #[trigger] children[i] != parent)
                ==> self.link_all(children, parent).node(parent).parent == self.node(
                parent,
            ).parent,
        decreases children.len(),
    {
        if children.len() > 0 {
            let front = children.drop_last();
            assert forall|i: int| 0 <= i < front.len() implies self.contains(#[trigger] front[i])
                && front[i] != self.root by {
                assert(front[i] == children[i]);
            }
            self.lemma_link_all_wf(front, parent);
            let m = self.link_all(front, parent);
            assert(self.contains(children[children.len() - 1]));
            m.lemma_link(children.last(), parent);
            m.lemma_link_wf(children.last(), parent);
            if forall|i: int| 0 <= i < children.len() ==> #[trigger] children[i] != parent {
                assert forall|i: int| 0 <= i < front.len() implies #[trigger] front[i]
                    != parent by {
                    assert(front[i] == children[i]);
                }
                assert(children[children.len() - 1] != parent);
            }
        }
    }

    /// Sending a node other than the root back below the root keeps the
    /// graph well formed.
    pub proof fn lemma_unlink_wf(self, h: Handle)
        requires
            self.wf(),
            self.contains(self.root),
            self.contains(h),
            h != self.root,
        ensures
            self.unlink(h).wf(),
    {
        self.lemma_link_wf(h, self.root);
        let m = self.link(h, self.root);
        self.lemma_link(h, self.root);
        let moved = m.node(h).local_transform.at_origin_spec();
        let n = NodeModel { local_transform: moved, ..m.node(h) };
        m.lemma_same_links_wf(m.with_node(h, n));
    }

    /// A graph that differs from a well-formed one in nothing but what its
    /// nodes hold beside their links is well formed.
    pub proof fn lemma_same_links_wf(self, other: Self)
        requires
            self.wf(),
            self.same_shape(other),
        ensures
            other.wf(),
            forall|h: Handle| #[trigger] other.contains(h) == self.contains(h),
    {
        assert forall|h: Handle| #[trigger] other.contains(h) == self.contains(h) by {
            if h.index < self.entries.len() {
                assert(other.entries[h.index as int].generation
                    == self.entries[h.index as int].generation);
            }
        }
        assert forall|i: int|
            0 <= i < other.entries.len() && !(#[trigger] other.entries[i].slot is Vacant) implies 1
            <= other.entries[i].generation < LAST_GENERATION by {
            assert(!(self.entries[i].slot is Vacant));
        }
        if !self.root.is_none() {
            assert(self.contains(self.root));
        }
        assert forall|h: Handle| #[trigger] other.contains(h) implies other.links_ok(h) by {
            assert(self.contains(h));
            assert(self.links_ok(h));
            let n = other.node(h);
            assert forall|i: int| 0 <= i < n.children.len() implies other.owns(
                h,
                #[trigger] n.children[i],
            ) by {
                assert(self.owns(h, self.node(h).children[i]));
                assert(self.contains(n.children[i]));
            }
            if other.contains(n.parent) {
                assert(self.contains(n.parent));
            }
            if !n.parent.is_none() {
                assert(other.entries[n.parent.index as int].generation
                    == self.entries[n.parent.index as int].generation);
            }
        }
    }

    /// Every graph of the shape of a well-formed one is well formed.
    pub proof fn lemma_same_shape_wf(self)
        requires
            self.wf(),
        ensures
            forall|other: Self| #[trigger] self.same_shape(other) ==> other.wf(),
    {
        assert forall|other: Self| #[trigger] self.same_shape(other) implies other.wf() by {
            self.lemma_same_links_wf(other);
        }
    }

    /// Cutting a node off a well-formed graph leaves it well formed but for
    /// that node.
    pub proof fn lemma_detach_wf(self, h: Handle)
        requires
            self.wf(),
            self.contains(h),
        ensures
            self.detach(h).wf_except(h),
            self.detach(h).links_agree(),
            self.detach(h).contains(h),
            self.detach(h).node(h).parent == Handle::none(),
            !self.detach(h).contains(Handle::none()),
    {
        let m = self.detach(h);
        let q = self.node(h).parent;
        self.lemma_detach(h);
        self.lemma_none_absent();
        self.lemma_wf_agrees(self.root);
        assert forall|x: Handle| #[trigger] m.contains(x) implies m.links_ok_except(x, h) by {
            assert(self.contains(x));
            assert(self.links_ok(x));
            let old_kids = self.node(x).children;
            let kids = m.node(x).children;
            lemma_remove_value(old_kids, h);
            assert forall|i: int| 0 <= i < kids.len() implies m.owns(x, #[trigger] kids[i]) by {
                let c = kids[i];
                assert(kids.contains(c));
                if c == h {
                    assert(old_kids.contains(h));
                    self.lemma_listed_once(x, h);
                } else {
                    assert(old_kids.contains(c));
                    self.lemma_listed_once(x, c);
                }
            }
            let xp = m.node(x).parent;
            if m.contains(xp) {
                lemma_remove_value(self.node(xp).children, h);
                assert(self.node(xp).children.contains(x));
                assert(children_without(self, xp, h).contains(x));
            }
            assert(m.refers_back(xp)) by {
                if x != h {
                    assert(self.refers_back(xp));
                }
            }
        }
        m.lemma_wf_agrees(h);
    }

    /// A node that is still there after a removal was there before, unchanged
    /// but for the cut, and did not descend from what was removed.
    pub proof fn lemma_remove_keeps(self, h: Handle, x: Handle)
        requires
            self.wf(),
            self.contains(h),
        ensures
            self.remove(h).contains(x) <==> self.contains(x) && !self.detach(h).descends_from(x, h),
            self.remove(h).contains(x) ==> self.remove(h).node(x) == self.detach(h).node(x),
    {
        let m = self.detach(h);
        self.lemma_detach(h);
        if x.index < m.entries.len() {
            if m.contains(x) {
                assert(handle_at(m.entries, x.index as int) == x);
            }
        }
    }

    /// Removing a node other than the root, with all below it, keeps the
    /// graph well formed.
    pub proof fn lemma_remove_wf(self, h: Handle)
        requires
            self.wf(),
            self.contains(h),
            h != self.root,
        ensures
            self.remove(h).wf(),
    {
        let m = self.detach(h);
        let r = self.remove(h);
        self.lemma_detach(h);
        self.lemma_detach_wf(h);
        assert(m.ancestor(h, 0) == h);
        self.lemma_remove_keeps(h, self.root);
        assert(!m.descends_from(self.root, h)) by {
            if m.descends_from(self.root, h) {
                let k = choose|k: nat| m.ancestor(self.root, k) == h;
                assert(k > 0);
                assert(m.ancestor(self.root, k) == m.ancestor(
                    m.parent_of(self.root),
                    (k - 1) as nat,
                ));
                m.lemma_ancestor_of_none((k - 1) as nat);
            }
        }
        assert forall|i: int|
            0 <= i < r.entries.len() && !(#[trigger] r.entries[i].slot is Vacant) implies 1
            <= r.entries[i].generation < LAST_GENERATION by {
            assert(!(m.entries[i].slot is Vacant));
        }
        assert forall|x: Handle| #[trigger] r.contains(x) implies r.links_ok(x) by {
            self.lemma_remove_keeps(h, x);
            assert(m.contains(x));
            assert(m.links_ok_except(x, h));
            let n = r.node(x);
            assert forall|i: int| 0 <= i < n.children.len() implies r.owns(
                x,
                #[trigger] n.children[i],
            ) by {
                let c = n.children[i];
                assert(m.owns(x, m.node(x).children[i]));
                self.lemma_remove_keeps(h, c);
                if m.descends_from(c, h) {
                    let k = choose|k: nat| m.ancestor(c, k) == h;
                    if k > 0 {
                        assert(m.ancestor(c, k) == m.ancestor(m.parent_of(c), (k - 1) as nat));
                        assert(m.descends_from(x, h));
                    }
                }
            }
            if r.contains(n.parent) {
                self.lemma_remove_keeps(h, n.parent);
            }
            if !n.parent.is_none() {
                let i = n.parent.index as int;
                assert(m.refers_back(n.parent));
                assert(!(m.entries[i].slot is Vacant) ==> m.entries[i].generation
                    < LAST_GENERATION);
            }
        }
    }

    /// Taking a node other than the root out keeps the graph well formed,
    /// and the node taken can fill its slot again.
    pub proof fn lemma_take_wf(self, h: Handle)
        requires
            self.wf(),
            self.contains(h),
            h != self.root,
        ensures
            self.take(h).wf(),
            self.take(h).adoptable(h.index, self.detach(h).node(h)),
            handle_at(self.take(h).entries, h.index as int) == h,
            !self.take(h).contains(h),
            forall|x: Handle| x != h ==> #[trigger] self.take(h).contains(x) == self.contains(x),
            forall|x: Handle|
                x != h && self.contains(x) ==> #[trigger] self.take(h).node(x) == self.detach(
                    h,
                ).node(x),
    {
        let m = self.detach(h);
        let t = self.take(h);
        self.lemma_detach(h);
        self.lemma_detach_wf(h);
        assert forall|x: Handle| x != h implies #[trigger] t.contains(x) == self.contains(x) by {
            if x.index == h.index && self.contains(x) {
                assert(x == h);
            }
        }
        assert forall|i: int|
            0 <= i < t.entries.len() && !(#[trigger] t.entries[i].slot is Vacant) implies 1
            <= t.entries[i].generation < LAST_GENERATION by {
            assert(!(m.entries[i].slot is Vacant));
        }
        assert forall|x: Handle| #[trigger] t.contains(x) implies t.links_ok(x) by {
            assert(m.contains(x));
            assert(m.links_ok_except(x, h));
            let n = t.node(x);
            assert forall|i: int| 0 <= i < n.children.len() implies t.owns(
                x,
                #[trigger] n.children[i],
            ) by {
                assert(m.owns(x, m.node(x).children[i]));
            }
            if !n.parent.is_none() {
                assert(m.refers_back(n.parent));
            }
        }
        let node = m.node(h);
        assert(m.links_ok_except(h, h));
        assert forall|k: int| 0 <= k < node.children.len() implies t.owns(
            h,
            #[trigger] node.children[k],
        ) by {
            assert(m.owns(h, node.children[k]));
        }
        assert forall|c: Handle| #[trigger] t.owns(h, c) implies node.children.contains(c) by {
            assert(m.contains(c));
            assert(m.links_ok_except(c, h));
        }
    }

    /// Filling a reserved slot with a node whose children are the nodes that
    /// wait for it keeps the graph well formed.
    pub proof fn lemma_put_wf(self, i: usize, node: NodeModel<T>)
        requires
            self.wf(),
            self.contains(self.root),
            self.adoptable(i, node),
        ensures
            self.put(i, node).wf(),
            self.put(i, node).contains(handle_at(self.entries, i as int)),
            !self.contains(handle_at(self.entries, i as int)),
    {
        let h = handle_at(self.entries, i as int);
        let bare = NodeModel { parent: Handle::none(), ..node };
        let m = GraphModel { entries: crate::pool::restored(self.entries, i as int, bare), ..self };
        self.lemma_none_absent();
        assert(!(self.entries[i as int].slot is Vacant));
        if !self.root.is_none() {
            assert(self.contains(self.root));
        }
        assert forall|x: Handle| x != h implies #[trigger] m.contains(x) == self.contains(x) by {
            if x.index == h.index && m.contains(x) {
                assert(x == h);
            }
        }
        assert forall|x: Handle| #[trigger] m.contains(x) implies m.links_ok_except(x, h) by {
            if x == h {
                assert forall|k: int| 0 <= k < bare.children.len() implies m.owns(
                    h,
                    #[trigger] bare.children[k],
                ) by {
                    assert(self.owns(h, node.children[k]));
                }
            } else {
                assert(self.contains(x));
                assert(self.links_ok(x));
                let n = m.node(x);
                assert forall|k: int| 0 <= k < n.children.len() implies m.owns(
                    x,
                    #[trigger] n.children[k],
                ) by {
                    assert(self.owns(x, self.node(x).children[k]));
                }
                if n.parent == h {
                    assert(self.owns(h, x));
                }
            }
        }
        m.lemma_link(h, self.root);
        m.lemma_link_wf(h, self.root);
    }

    /// Giving a reserved slot up keeps the graph well formed.
    pub proof fn lemma_forget_wf(self, i: usize)
        requires
            self.wf(),
            is_reserved(self.entries, i),
        ensures
            self.forget(i).wf(),
            forall|x: Handle| #[trigger] self.forget(i).contains(x) == self.contains(x),
    {
        let m = self.forget(i);
        assert(!(self.entries[i as int].slot is Vacant));
        if !self.root.is_none() {
            assert(self.contains(self.root));
        }
        assert forall|x: Handle| #[trigger] m.contains(x) implies m.links_ok(x) by {
            assert(self.contains(x));
            assert(self.links_ok(x));
            let n = m.node(x);
            assert forall|k: int| 0 <= k < n.children.len() implies m.owns(
                x,
                #[trigger] n.children[k],
            ) by {
                assert(self.owns(x, self.node(x).children[k]));
            }
        }
    }

    /// Storing a node without links under a fresh handle leaves the graph
    /// well formed but for that node.
    pub proof fn lemma_spawn_wf(self, h: Handle, node: NodeModel<T>)
        requires
            self.wf(),
            can_spawn_at(self.entries, h),
            h.index == self.entries.len() ==> h.index < usize::MAX,
            node.parent == Handle::none(),
            node.children == Seq::<Handle>::empty(),
        ensures
            !self.contains(h),
            h != self.root,
            self.stored(h, node).wf_except(h),
            self.stored(h, node).contains(h),
            forall|x: Handle|
                x != h ==> #[trigger] self.stored(h, node).contains(x) == self.contains(x),
    {
        let m = self.stored(h, node);
        self.lemma_none_absent();
        if !self.root.is_none() {
            assert(self.contains(self.root));
        }
        assert forall|x: Handle| x != h implies #[trigger] m.contains(x) == self.contains(x) by {
            if x.index == h.index && m.contains(x) {
                assert(x == h);
            }
        }
        assert forall|i: int|
            0 <= i < m.entries.len() && !(#[trigger] m.entries[i].slot is Vacant) implies 1
            <= m.entries[i].generation < LAST_GENERATION by {
            if i != h.index {
                assert(!(self.entries[i].slot is Vacant));
            }
        }
        assert forall|x: Handle| #[trigger] m.contains(x) implies m.links_ok_except(x, h) by {
            if x != h {
                assert(self.contains(x));
                assert(self.links_ok(x));
                let n = m.node(x);
                assert forall|k: int| 0 <= k < n.children.len() implies m.owns(
                    x,
                    #[trigger] n.children[k],
                ) by {
                    assert(self.owns(x, self.node(x).children[k]));
                }
            }
        }
    }

    /// Storing a node under a fresh handle, below the root where there is
    /// one, keeps the graph well formed and lowers no generation. Without a
    /// root the node has no parent.
    pub proof fn lemma_placed(self, h: Handle, node: NodeModel<T>)
        requires
            self.wf(),
            can_spawn_at(self.entries, h),
            h.index == self.entries.len() ==> h.index < usize::MAX,
        ensures
            self.placed(h, node).wf(),
            self.placed(h, node).contains(h),
            !self.contains(h),
            h != self.root,
            self.placed(h, node).root == self.root,
            forall|x: Handle|
                x != h ==> #[trigger] self.placed(h, node).contains(x) == self.contains(x),
            self.precedes(self.placed(h, node)),
            self.placed(h, node).node(h).parent == if self.contains(self.root) {
                self.root
            } else {
                Handle::none()
            },
    {
        let bare = NodeModel { parent: Handle::none(), children: Seq::<Handle>::empty(), ..node };
        let m = self.stored(h, bare);
        self.lemma_spawn_wf(h, bare);
        self.lemma_none_absent();
        assert forall|i: int| 0 <= i < self.entries.len() implies self.entries[i].generation <= (
        #[trigger] m.entries[i]).generation by {}
        if self.contains(self.root) {
            assert(m.contains(self.root));
            m.lemma_link(h, self.root);
            m.lemma_link_wf(h, self.root);
            let linked = m.link(h, self.root);
            assert forall|i: int| 0 <= i < self.entries.len() implies self.entries[i].generation
                <= (#[trigger] linked.entries[i]).generation by {
                assert(m.entries[i].generation <= linked.entries[i].generation);
            }
        } else {
            assert(self.root.is_none());
            assert forall|x: Handle| #[trigger] m.contains(x) implies m.links_ok(x) by {
                assert(m.links_ok_except(x, h));
            }
        }
    }

    /// Adding a node whose listed children are nodes other than the root
    /// keeps the graph well formed.
    pub proof fn lemma_add_wf(self, h: Handle, node: NodeModel<T>)
        requires
            self.wf(),
            can_spawn_at(self.entries, h),
            h.index == self.entries.len() ==> h.index < usize::MAX,
            forall|i: int|
                0 <= i < node.children.len() ==> self.contains(#[trigger] node.children[i])
                    && node.children[i] != self.root,
        ensures
            self.add(h, node).wf(),
            self.add(h, node).contains(h),
            !self.contains(h),
            self.add(h, node).root == self.root,
            forall|x: Handle|
                x != h ==> #[trigger] self.add(h, node).contains(x) == self.contains(x),
    {
        self.lemma_placed(h, node);
        let placed = self.placed(h, node);
        assert forall|i: int| 0 <= i < node.children.len() implies placed.contains(
            #[trigger] node.children[i],
        ) && node.children[i] != placed.root by {
            assert(self.contains(node.children[i]));
        }
        placed.lemma_link_all_wf(node.children, h);
    }

    /// Linking leaves every generation as it is.
    pub proof fn lemma_link_precedes(self, child: Handle, parent: Handle)
        requires
            self.contains(child),
            self.contains(parent),
        ensures
            self.precedes(self.link(child, parent)),
    {
        self.lemma_link(child, parent);
    }

    /// Linking one node after another leaves every generation as it is.
    pub proof fn lemma_link_all_precedes(self, children: Seq<Handle>, parent: Handle)
        requires
            self.wf(),
            self.contains(parent),
            forall|i: int|
                0 <= i < children.len() ==> self.contains(#[trigger] children[i]) && children[i]
                    != self.root,
        ensures
            self.precedes(self.link_all(children, parent)),
        decreases children.len(),
    {
        if children.len() > 0 {
            let front = children.drop_last();
            assert forall|i: int| 0 <= i < front.len() implies self.contains(#[trigger] front[i])
                && front[i] != self.root by {
                assert(front[i] == children[i]);
            }
            self.lemma_link_all_precedes(front, parent);
            self.lemma_link_all_wf(front, parent);
            let m = self.link_all(front, parent);
            assert(self.contains(children[children.len() - 1]));
            m.lemma_link_precedes(children.last(), parent);
        }
    }

    /// Adding a node lowers no generation.
    pub proof fn lemma_add_precedes(self, h: Handle, node: NodeModel<T>)
        requires
            self.wf(),
            can_spawn_at(self.entries, h),
            h.index == self.entries.len() ==> h.index < usize::MAX,
            forall|i: int|
                0 <= i < node.children.len() ==> self.contains(#[trigger] node.children[i])
                    && node.children[i] != self.root,
        ensures
            self.precedes(self.add(h, node)),
    {
        self.lemma_placed(h, node);
        let placed = self.placed(h, node);
        assert forall|i: int| 0 <= i < node.children.len() implies placed.contains(
            #[trigger] node.children[i],
        ) && node.children[i] != placed.root by {
            assert(self.contains(node.children[i]));
        }
        placed.lemma_link_all_precedes(node.children, h);
        assert forall|i: int| 0 <= i < self.entries.len() implies self.entries[i].generation <= (
        #[trigger] self.add(h, node).entries[i]).generation by {
            assert(self.entries[i].generation <= placed.entries[i].generation);
        }
    }

    /// Removal raises the generations of the slots it empties and leaves
    /// the others: the handles of what was removed have expired.
    pub proof fn lemma_remove_precedes(self, h: Handle)
        requires
            self.wf(),
            self.contains(h),
        ensures
            self.precedes(self.remove(h)),
            self.remove(h).expired(h),
    {
        self.lemma_detach(h);
        let m = self.detach(h);
        assert(m.ancestor(h, 0) == h);
        assert(handle_at(m.entries, h.index as int) == h);
        assert forall|i: int| 0 <= i < self.entries.len() implies self.entries[i].generation <= (
        #[trigger] self.remove(h).entries[i]).generation by {
            assert(m.entries[i].generation == self.entries[i].generation);
            if m.entries[i].slot is Occupied {
                assert(!(self.entries[i].slot is Vacant));
            }
        }
        assert(!(self.entries[h.index as int].slot is Vacant));
    }
}

} // verus!
