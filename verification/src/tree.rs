//! Chains of parents, and that the operations keep a tree a tree.

use crate::handle::Handle;
use crate::model::GraphModel;
use crate::node::NodeModel;
use crate::pool::{can_spawn_at, generations_ok, handle_at, is_reserved};
use crate::transform::Transform;
use vstd::prelude::*;

verus! {

impl<T: Transform> GraphModel<T> {
    /// `other` has the nodes of `self`, each with the parent it has in
    /// `self`, but for `c`.
    pub open spec fn same_parents_but(self, other: Self, c: Handle) -> bool {
        &&& other.root == self.root
        &&& generations_ok(self.entries)
        &&& generations_ok(other.entries)
        &&& forall|x: Handle| #[trigger] other.contains(x) == self.contains(x)
        &&& forall|x: Handle|
            self.contains(x) && x != c ==> (#[trigger] other.node(x)).parent == self.node(x).parent
    }

    /// Parent steps from a handle that refers to no node lead nowhere.
    pub proof fn lemma_ancestor_outside(self, y: Handle, k: nat)
        requires
            generations_ok(self.entries),
            !self.contains(y),
        ensures
            self.ancestor(y, k) == if k == 0 {
                y
            } else {
                Handle::none()
            },
    {
        self.lemma_none_absent();
        if k > 0 {
            assert(self.ancestor(y, k) == self.ancestor(self.parent_of(y), (k - 1) as nat));
            self.lemma_ancestor_of_none((k - 1) as nat);
        }
    }

    /// The parent of a node that descends from `top`, and is not `top`,
    /// descends from `top`.
    pub proof fn lemma_parent_descends(self, x: Handle, top: Handle)
        requires
            generations_ok(self.entries),
            self.contains(top),
            self.descends_from(x, top),
            x != top,
        ensures
            self.descends_from(self.node(x).parent, top),
    {
        let k = choose|k: nat| self.ancestor(x, k) == top;
        let y = self.node(x).parent;
        assert(k > 0);
        assert(self.ancestor(x, k) == self.ancestor(self.parent_of(x), (k - 1) as nat));
        if !self.contains(y) {
            self.lemma_ancestor_outside(y, (k - 1) as nat);
            self.lemma_none_absent();
        }
    }

    /// A chain of parents that does not pass `c` is the same in `other`.
    pub proof fn lemma_chain_kept(self, other: Self, c: Handle, x: Handle, k: nat)
        requires
            self.same_parents_but(other, c),
            !self.descends_from(x, c),
        ensures
            other.ancestor(x, k) == self.ancestor(x, k),
        decreases k,
    {
        if !self.contains(x) {
            assert(!other.contains(x));
            self.lemma_ancestor_outside(x, k);
            other.lemma_ancestor_outside(x, k);
        } else if k > 0 {
            assert(other.contains(x));
            assert(self.ancestor(x, 0) == x);
            let y = self.node(x).parent;
            assert(other.node(x).parent == y);
            if self.descends_from(y, c) {
                self.lemma_child_descends(x, c);
            }
            self.lemma_chain_kept(other, c, y, (k - 1) as nat);
            assert(self.ancestor(x, k) == self.ancestor(self.parent_of(x), (k - 1) as nat));
            assert(other.ancestor(x, k) == other.ancestor(other.parent_of(x), (k - 1) as nat));
        }
    }

    /// A node that reaches `top` without passing `c` reaches it in `other`.
    pub proof fn lemma_reaches_kept(self, other: Self, c: Handle, x: Handle, top: Handle)
        requires
            self.same_parents_but(other, c),
            self.descends_from(x, top),
            !self.descends_from(x, c),
        ensures
            other.descends_from(x, top),
    {
        let k = choose|k: nat| self.ancestor(x, k) == top;
        self.lemma_chain_kept(other, c, x, k);
        assert(other.contains(x));
        assert(other.ancestor(x, k) == top);
    }

    /// A node below `c` reaches in `other` whatever `c` reaches there.
    pub proof fn lemma_below_kept(self, other: Self, c: Handle, x: Handle, k: nat, top: Handle)
        requires
            self.same_parents_but(other, c),
            self.contains(c),
            self.contains(x),
            self.ancestor(x, k) == c,
            other.descends_from(c, top),
        ensures
            other.descends_from(x, top),
        decreases k,
    {
        if x != c {
            let y = self.node(x).parent;
            assert(k > 0);
            assert(self.ancestor(x, k) == self.ancestor(self.parent_of(x), (k - 1) as nat));
            if !self.contains(y) {
                self.lemma_ancestor_outside(y, (k - 1) as nat);
                self.lemma_none_absent();
            }
            self.lemma_below_kept(other, c, y, (k - 1) as nat, top);
            assert(other.contains(x));
            assert(other.node(x).parent == y);
            other.lemma_child_descends(x, top);
        }
    }

    /// The root is below no other node.
    pub proof fn lemma_root_on_top(self, loose: Handle, h: Handle)
        requires
            self.wf_except(loose),
            self.contains(h),
            h != self.root,
        ensures
            !self.descends_from(self.root, h),
    {
        if self.descends_from(self.root, h) {
            let k = choose|k: nat| self.ancestor(self.root, k) == h;
            assert(k > 0);
            assert(self.ancestor(self.root, k) == self.ancestor(
                self.parent_of(self.root),
                (k - 1) as nat,
            ));
            self.lemma_none_absent();
            self.lemma_ancestor_of_none((k - 1) as nat);
            assert(h == Handle::none());
            assert(self.links_ok_except(self.root, loose));
        }
    }

    /// Linking a node below one that does not descend from it makes a tree,
    /// if every node reached the root or that node before.
    pub proof fn lemma_link_tree(self, child: Handle, parent: Handle)
        requires
            self.wf_except(child),
            self.contains(self.root),
            self.contains(child),
            self.contains(parent),
            child != self.root,
            !self.descends_from(parent, child),
            forall|x: Handle| #[trigger]
                self.contains(x) ==> self.descends_from(x, self.root) || self.descends_from(
                    x,
                    child,
                ),
        ensures
            self.link(child, parent).is_tree(),
    {
        let m = self.link(child, parent);
        self.lemma_link(child, parent);
        self.lemma_link_wf(child, parent);
        assert(self.same_parents_but(m, child));
        assert(self.contains(parent));
        self.lemma_reaches_kept(m, child, parent, self.root);
        assert(m.contains(child));
        m.lemma_child_descends(child, m.root);
        assert forall|x: Handle| #[trigger] m.contains(x) implies m.descends_from(x, m.root) by {
            assert(self.contains(x));
            if self.descends_from(x, child) {
                let k = choose|k: nat| self.ancestor(x, k) == child;
                self.lemma_below_kept(m, child, x, k, m.root);
            } else {
                self.lemma_reaches_kept(m, child, x, self.root);
            }
        }
    }

    /// `other` has the nodes of `self`, each with the parent it has in
    /// `self`.
    pub open spec fn same_parents(self, other: Self) -> bool {
        &&& other.root == self.root
        &&& generations_ok(self.entries)
        &&& generations_ok(other.entries)
        &&& forall|x: Handle| #[trigger] other.contains(x) == self.contains(x)
        &&& forall|x: Handle|
            self.contains(x) ==> (#[trigger] other.node(x)).parent == self.node(x).parent
    }

    /// Where the parents are the same, the chains of parents are.
    pub proof fn lemma_chain_same(self, other: Self, x: Handle, k: nat)
        requires
            self.same_parents(other),
        ensures
            other.ancestor(x, k) == self.ancestor(x, k),
        decreases k,
    {
        if !self.contains(x) {
            assert(!other.contains(x));
            self.lemma_ancestor_outside(x, k);
            other.lemma_ancestor_outside(x, k);
        } else if k > 0 {
            assert(other.contains(x));
            let y = self.node(x).parent;
            assert(other.node(x).parent == y);
            self.lemma_chain_same(other, y, (k - 1) as nat);
            assert(self.ancestor(x, k) == self.ancestor(self.parent_of(x), (k - 1) as nat));
            assert(other.ancestor(x, k) == other.ancestor(other.parent_of(x), (k - 1) as nat));
        }
    }

    /// A graph with the nodes and the parents of a tree is a tree, if it is
    /// well formed.
    pub proof fn lemma_same_parents_tree(self, other: Self)
        requires
            self.is_tree(),
            other.wf(),
            self.same_parents(other),
        ensures
            other.is_tree(),
    {
        assert forall|x: Handle| #[trigger] other.contains(x) implies other.descends_from(
            x,
            other.root,
        ) by {
            assert(self.contains(x));
            let k = choose|k: nat| self.ancestor(x, k) == self.root;
            self.lemma_chain_same(other, x, k);
            assert(other.ancestor(x, k) == other.root);
        }
    }

    /// A graph of the shape of a tree is a tree.
    pub proof fn lemma_same_shape_tree(self, other: Self)
        requires
            self.is_tree(),
            self.same_shape(other),
        ensures
            other.is_tree(),
    {
        self.lemma_same_links_wf(other);
        assert forall|x: Handle| self.contains(x) implies (#[trigger] other.node(x)).parent
            == self.node(x).parent by {
            assert(self.node(x).same_links(other.node(x)));
        }
        self.lemma_same_parents_tree(other);
    }

    /// Sending a node other than the root back below the root keeps a tree a
    /// tree.
    pub proof fn lemma_unlink_tree(self, h: Handle)
        requires
            self.is_tree(),
            self.contains(h),
            h != self.root,
        ensures
            self.unlink(h).is_tree(),
    {
        self.lemma_root_on_top(self.root, h);
        self.lemma_link_tree(h, self.root);
        let m = self.link(h, self.root);
        self.lemma_link(h, self.root);
        let moved = m.node(h).local_transform.at_origin_spec();
        let n = NodeModel { local_transform: moved, ..m.node(h) };
        m.lemma_with_node(h, n);
        m.lemma_same_shape_tree(m.with_node(h, n));
    }

    /// Linking one node after another below a child of the root keeps a tree
    /// a tree.
    pub proof fn lemma_link_all_tree(self, children: Seq<Handle>, parent: Handle)
        requires
            self.is_tree(),
            self.contains(parent),
            parent != self.root,
            self.node(parent).parent == self.root,
            forall|i: int|
                0 <= i < children.len() ==> self.contains(#[trigger] children[i]) && children[i]
                    != self.root && children[i] != parent,
        ensures
            self.link_all(children, parent).is_tree(),
            self.link_all(children, parent).node(parent).parent == self.root,
        decreases children.len(),
    {
        if children.len() > 0 {
            let front = children.drop_last();
            let c = children.last();
            assert forall|i: int| 0 <= i < front.len() implies self.contains(#[trigger] front[i])
                && front[i] != self.root && front[i] != parent by {
                assert(front[i] == children[i]);
            }
            assert forall|i: int| 0 <= i < front.len() implies self.contains(#[trigger] front[i])
                && front[i] != self.root by {
                assert(front[i] == children[i]);
            }
            self.lemma_link_all_tree(front, parent);
            self.lemma_link_all_wf(front, parent);
            let m = self.link_all(front, parent);
            assert(self.contains(children[children.len() - 1]));
            assert(m.contains(c) && m.contains(parent));
            m.lemma_link(c, parent);
            // `parent` is a child of the root, and `c` is neither
            assert(!m.descends_from(parent, c)) by {
                if m.descends_from(parent, c) {
                    m.lemma_parent_descends(parent, c);
                    m.lemma_root_on_top(m.root, c);
                }
            }
            m.lemma_link_tree(c, parent);
        }
    }

    /// Adding a node to a tree gives a tree.
    pub proof fn lemma_add_tree(self, h: Handle, node: NodeModel<T>)
        requires
            self.is_tree(),
            can_spawn_at(self.entries, h),
            h.index == self.entries.len() ==> h.index < usize::MAX,
            forall|i: int|
                0 <= i < node.children.len() ==> self.contains(#[trigger] node.children[i])
                    && node.children[i] != self.root,
        ensures
            self.add(h, node).is_tree(),
    {
        let bare = NodeModel { parent: Handle::none(), children: Seq::<Handle>::empty(), ..node };
        let m = self.stored(h, bare);
        self.lemma_spawn_wf(h, bare);
        if !self.root.is_none() {
            assert(m.contains(self.root));
        }
        assert(m.ancestor(h, 0) == h);
        assert forall|x: Handle| #[trigger]
            m.contains(x) implies m.descends_from(x, m.root) || m.descends_from(x, h) by {
            if x != h {
                assert(self.contains(x));
                assert(self.descends_from(x, self.root));
                let k = choose|k: nat| self.ancestor(x, k) == self.root;
                self.lemma_spawn_keeps_chain(h, bare, x, k);
                assert(m.ancestor(x, k) == m.root);
            }
        }
        m.lemma_root_on_top(h, h);
        m.lemma_link(h, self.root);
        m.lemma_link_wf(h, self.root);
        m.lemma_link_tree(h, self.root);
        let linked = m.link(h, self.root);
        assert forall|i: int| 0 <= i < node.children.len() implies linked.contains(
            #[trigger] node.children[i],
        ) && node.children[i] != linked.root && node.children[i] != h by {
            assert(self.contains(node.children[i]));
        }
        linked.lemma_link_all_tree(node.children, h);
    }

    /// Storing a node under a fresh handle changes no chain of parents that
    /// starts at a node.
    pub proof fn lemma_spawn_keeps_chain(self, h: Handle, node: NodeModel<T>, x: Handle, k: nat)
        requires
            self.wf(),
            can_spawn_at(self.entries, h),
            h.index == self.entries.len() ==> h.index < usize::MAX,
            node.parent == Handle::none(),
            node.children == Seq::<Handle>::empty(),
            self.contains(x),
        ensures
            self.stored(h, node).ancestor(x, k) == self.ancestor(x, k),
        decreases k,
    {
        let m = self.stored(h, node);
        self.lemma_spawn_wf(h, node);
        if k > 0 {
            let y = self.node(x).parent;
            assert(m.contains(x) && m.node(x) == self.node(x));
            assert(self.ancestor(x, k) == self.ancestor(self.parent_of(x), (k - 1) as nat));
            assert(m.ancestor(x, k) == m.ancestor(m.parent_of(x), (k - 1) as nat));
            assert(self.links_ok(x));
            assert(y != h) by {
                if y == h {
                    assert(self.refers_back(y));
                    self.lemma_none_absent();
                    assert(m.contains(h));
                }
            }
            if self.contains(y) {
                self.lemma_spawn_keeps_chain(h, node, y, (k - 1) as nat);
            } else {
                assert(!m.contains(y));
                m.lemma_wf_agrees(h);
                self.lemma_ancestor_outside(y, (k - 1) as nat);
                m.lemma_ancestor_outside(y, (k - 1) as nat);
            }
        }
    }

    /// A chain of parents that leads to the root is still there after a
    /// removal, if its first node is.
    pub proof fn lemma_remove_keeps_chain(self, h: Handle, x: Handle, k: nat)
        requires
            self.wf(),
            self.contains(self.root),
            self.contains(h),
            h != self.root,
            self.remove(h).contains(x),
            self.ancestor(x, k) == self.root,
        ensures
            self.remove(h).ancestor(x, k) == self.root,
        decreases k,
    {
        let m = self.detach(h);
        let r = self.remove(h);
        if k > 0 {
            self.lemma_detach(h);
            self.lemma_detach_wf(h);
            self.lemma_remove_keeps(h, x);
            assert(m.ancestor(h, 0) == h);
            assert(x != h);
            let y = self.node(x).parent;
            assert(r.node(x).parent == y);
            assert(self.ancestor(x, k) == self.ancestor(self.parent_of(x), (k - 1) as nat));
            assert(r.ancestor(x, k) == r.ancestor(r.parent_of(x), (k - 1) as nat));
            if !self.contains(y) {
                self.lemma_ancestor_outside(y, (k - 1) as nat);
                self.lemma_none_absent();
            }
            self.lemma_remove_keeps(h, y);
            if m.descends_from(y, h) {
                m.lemma_child_descends(x, h);
            }
            self.lemma_remove_keeps_chain(h, y, (k - 1) as nat);
        }
    }

    /// Removing a node other than the root, with all below it, keeps a tree
    /// a tree.
    pub proof fn lemma_remove_tree(self, h: Handle)
        requires
            self.is_tree(),
            self.contains(h),
            h != self.root,
        ensures
            self.remove(h).is_tree(),
    {
        let r = self.remove(h);
        self.lemma_remove_wf(h);
        self.lemma_detach(h);
        assert forall|x: Handle| #[trigger] r.contains(x) implies r.descends_from(x, r.root) by {
            self.lemma_remove_keeps(h, x);
            assert(self.contains(x));
            let k = choose|k: nat| self.ancestor(x, k) == self.root;
            self.lemma_remove_keeps_chain(h, x, k);
        }
    }

    /// Giving a reserved slot up keeps a tree a tree.
    pub proof fn lemma_forget_tree(self, i: usize)
        requires
            self.is_tree(),
            is_reserved(self.entries, i),
        ensures
            self.forget(i).is_tree(),
    {
        self.lemma_forget_wf(i);
        self.lemma_same_parents_tree(self.forget(i));
    }

    /// A node is at least as deep as any node that it descends from.
    pub proof fn lemma_depth_below(self, x: Handle, top: Handle)
        requires
            self.is_tree(),
            self.contains(top),
            self.descends_from(x, top),
        ensures
            self.depth(x) >= self.depth(top),
            self.depth(x) == self.depth(top) ==> x == top,
    {
        let j = choose|j: nat| self.ancestor(x, j) == top;
        self.lemma_depth(top);
        self.lemma_depth(x);
        self.lemma_ancestor_add(x, j, self.depth(top));
        self.lemma_depth_unique(x, j + self.depth(top), self.depth(x));
        if j == 0 {
            assert(self.ancestor(x, 0) == x);
        }
    }

    /// In a tree a node's parent is not below the node.
    pub proof fn lemma_parent_above(self, h: Handle)
        requires
            self.is_tree(),
            self.contains(h),
        ensures
            !self.descends_from(self.node(h).parent, h),
    {
        let q = self.node(h).parent;
        if self.descends_from(q, h) {
            self.lemma_depth(h);
            self.lemma_depth_below(q, h);
        }
    }

    /// The slots of the first `j` handles on the way up from `h`.
    pub open spec fn chain(self, h: Handle, j: nat) -> Set<int>
        decreases j,
    {
        if j == 0 {
            Set::empty()
        } else {
            self.chain(h, (j - 1) as nat).insert(self.ancestor(h, (j - 1) as nat).index as int)
        }
    }

    /// Every handle on the way from a node to the root is a node.
    pub proof fn lemma_way_is_nodes(self, h: Handle, k: nat, a: nat)
        requires
            self.wf(),
            self.contains(self.root),
            self.ancestor(h, k) == self.root,
            a <= k,
        ensures
            self.contains(self.ancestor(h, a)),
            self.ancestor(self.ancestor(h, a), (k - a) as nat) == self.root,
    {
        self.lemma_ancestor_add(h, a, (k - a) as nat);
        let y = self.ancestor(h, a);
        if !self.contains(y) {
            self.lemma_ancestor_outside(y, (k - a) as nat);
            self.lemma_none_absent();
        }
    }

    /// Handles on a way up that are nodes, and no two of them the same, sit
    /// in different slots: there are no more of them than slots.
    pub proof fn lemma_chain_len(self, h: Handle, j: nat)
        requires
            forall|a: nat| a < j ==> self.contains(#[trigger] self.ancestor(h, a)),
            forall|a: nat, b: nat|
                #![trigger self.ancestor(h, a), self.ancestor(h, b)]
                a < b < j ==> self.ancestor(h, a) != self.ancestor(h, b),
        ensures
            self.chain(h, j).finite(),
            self.chain(h, j).len() == j,
            forall|i: int| #[trigger]
                self.chain(h, j).contains(i) ==> 0 <= i < self.entries.len() && exists|a: nat|
                    a < j && self.ancestor(h, a).index == i,
            j <= self.entries.len(),
        decreases j,
    {
        if j > 0 {
            let before = self.chain(h, (j - 1) as nat);
            let last = self.ancestor(h, (j - 1) as nat);
            self.lemma_chain_len(h, (j - 1) as nat);
            assert(self.contains(last));
            assert(!before.contains(last.index as int)) by {
                if before.contains(last.index as int) {
                    let a = choose|a: nat| a < j - 1 && self.ancestor(h, a).index == last.index;
                    let other = self.ancestor(h, a);
                    assert(self.contains(other));
                    assert(other == last);
                    assert(self.ancestor(h, a) != self.ancestor(h, (j - 1) as nat));
                }
            }
            let all = self.chain(h, j);
            assert forall|i: int| #[trigger] all.contains(i) implies 0 <= i < self.entries.len()
                && exists|a: nat| a < j && self.ancestor(h, a).index == i by {
                if i == last.index {
                    assert(self.ancestor(h, (j - 1) as nat).index == i);
                } else {
                    assert(before.contains(i));
                    let a = choose|a: nat| a < j - 1 && self.ancestor(h, a).index == i;
                    assert(a < j && self.ancestor(h, a).index == i);
                }
            }
            vstd::set_lib::lemma_int_range(0, self.entries.len() as int);
            let range = vstd::set_lib::set_int_range(0, self.entries.len() as int);
            assert(all.subset_of(range));
            vstd::set_lib::lemma_len_subset(all, range);
        }
    }

    /// Among more handles on a way up than the graph has slots, all of them
    /// nodes, two are the same.
    pub proof fn lemma_way_repeats(self, h: Handle, m: nat)
        requires
            forall|a: nat| a < m ==> self.contains(#[trigger] self.ancestor(h, a)),
            m > self.entries.len(),
        ensures
            exists|i: nat, j: nat|
                #![trigger self.ancestor(h, i), self.ancestor(h, j)]
                i < j < m && self.ancestor(h, i) == self.ancestor(h, j),
    {
        if forall|a: nat, b: nat|
            #![trigger self.ancestor(h, a), self.ancestor(h, b)]
            a < b < m ==> self.ancestor(h, a) != self.ancestor(h, b) {
            self.lemma_chain_len(h, m);
        }
    }

    /// A way up that comes back to where it was passes nothing new after
    /// that.
    pub proof fn lemma_way_cycles(self, h: Handle, i: nat, j: nat, k: nat)
        requires
            i < j,
            self.ancestor(h, i) == self.ancestor(h, j),
        ensures
            exists|e: nat| e < j && #[trigger] self.ancestor(h, e) == self.ancestor(h, k),
        decreases k,
    {
        if k < j {
            assert(self.ancestor(h, k) == self.ancestor(h, k));
        } else {
            self.lemma_ancestor_add(h, j, (k - j) as nat);
            self.lemma_ancestor_add(h, i, (k - j) as nat);
            self.lemma_way_cycles(h, i, j, (i + k - j) as nat);
        }
    }

    /// A way up that has left the graph leads nowhere.
    pub proof fn lemma_way_leaves(self, h: Handle, s: nat, k: nat)
        requires
            generations_ok(self.entries),
            !self.contains(self.ancestor(h, s)),
            k > s,
        ensures
            self.ancestor(h, k) == Handle::none(),
    {
        self.lemma_ancestor_add(h, s, (k - s) as nat);
        self.lemma_ancestor_outside(self.ancestor(h, s), (k - s) as nat);
    }

    /// Where a way up from a node leaves the graph after `s` steps without
    /// having met `top`, it meets `top` only if `top` is the sentinel.
    pub proof fn lemma_way_ends(self, h: Handle, s: nat, top: Handle)
        requires
            generations_ok(self.entries),
            self.contains(h),
            !self.contains(self.ancestor(h, s)),
            forall|a: nat| a <= s ==> #[trigger] self.ancestor(h, a) != top,
        ensures
            self.descends_from(h, top) == top.is_none(),
    {
        if top.is_none() {
            self.lemma_way_leaves(h, s, s + 1);
            assert(self.ancestor(h, s + 1) == top);
        }
        if self.descends_from(h, top) {
            let k = choose|k: nat| self.ancestor(h, k) == top;
            if k > s {
                self.lemma_way_leaves(h, s, k);
            }
        }
    }
}

} // verus!
