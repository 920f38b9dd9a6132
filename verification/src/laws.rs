//! The laws of the scene graph, stated over its model.

use crate::handle::Handle;
use crate::lattice::{Affine, Placement};
use crate::lemmas::{children_without, lemma_remove_value};
use crate::model::GraphModel;
use crate::node::NodeModel;
use crate::pool::{can_spawn_at, handle_at};
use crate::transform::Transform;
use vstd::prelude::*;

verus! {

/// A change to the hierarchy: a node added, a node linked below another, or
/// a node sent back below the root.
pub enum Change<T: Transform> {
    /// `add_node`, with the handle that it returned and the node given.
    Add(Handle, NodeModel<T>),
    /// `link_nodes`, with the child and the parent.
    Link(Handle, Handle),
    /// `unlink_node`.
    Unlink(Handle),
}

impl<T: Transform> GraphModel<T> {
    /// The graph admits `change`: the function that makes it can be called.
    pub open spec fn admits(self, change: Change<T>) -> bool {
        match change {
            Change::Add(h, node) => {
                &&& can_spawn_at(self.entries, h)
                &&& (h.index == self.entries.len() ==> h.index < usize::MAX)
                &&& forall|i: int|
                    0 <= i < node.children.len() ==> self.contains(#[trigger] node.children[i])
                        && node.children[i] != self.root
            },
            Change::Link(child, parent) => {
                &&& self.contains(child)
                &&& self.contains(parent)
                &&& child != self.root
                &&& !self.descends_from(parent, child)
            },
            Change::Unlink(h) => self.contains(self.root) && self.contains(h) && h != self.root,
        }
    }

    /// The graph after `change`.
    pub open spec fn after(self, change: Change<T>) -> Self {
        match change {
            Change::Add(h, node) => self.add(h, node),
            Change::Link(child, parent) => self.link(child, parent),
            Change::Unlink(h) => self.unlink(h),
        }
    }

    /// The graph after each of `changes` in turn.
    pub open spec fn after_all(self, changes: Seq<Change<T>>) -> Self
        decreases changes.len(),
    {
        if changes.len() == 0 {
            self
        } else {
            self.after_all(changes.drop_last()).after(changes.last())
        }
    }

    /// Each of `changes` is admitted by the graph that the changes before it
    /// have made.
    pub open spec fn admits_all(self, changes: Seq<Change<T>>) -> bool
        decreases changes.len(),
    {
        changes.len() == 0 || (self.admits_all(changes.drop_last()) && self.after_all(
            changes.drop_last(),
        ).admits(changes.last()))
    }

    /// The single root survives every sequence of additions, links and
    /// unlinks: after it the graph is a tree still, so that parent steps lead
    /// from every node to the root, and the root has no parent.
    pub proof fn law_tree_survives(self, changes: Seq<Change<T>>)
        requires
            self.is_tree(),
            self.admits_all(changes),
        ensures
            self.after_all(changes).is_tree(),
            self.after_all(changes).root == self.root,
            self.after_all(changes).node(self.root).parent == Handle::none(),
        decreases changes.len(),
    {
        if changes.len() > 0 {
            self.law_tree_survives(changes.drop_last());
            let m = self.after_all(changes.drop_last());
            match changes.last() {
                Change::Add(h, node) => {
                    m.lemma_add_tree(h, node);
                    m.lemma_add_wf(h, node);
                },
                Change::Link(child, parent) => {
                    m.lemma_link_tree(child, parent);
                    m.lemma_link(child, parent);
                },
                Change::Unlink(h) => {
                    m.lemma_unlink_tree(h);
                    m.lemma_link(h, m.root);
                },
            }
        }
    }

    /// What was removed stays gone: no handle of a node removed refers to a
    /// node in any later state of the graph, whatever has been stored in its
    /// slot since.
    pub proof fn law_removed_for_good(self, h: Handle, x: Handle, later: Self)
        requires
            self.wf(),
            self.contains(h),
            h != self.root,
            self.descends_from(x, h),
            self.remove(h).precedes(later),
        ensures
            !self.remove(h).contains(x),
            !later.contains(x),
    {
        self.law_recursive_destruction(h, x);
        self.remove(h).law_expired_for_good(later, x);
        later.law_expired_is_stale(x);
    }

    /// The order of composition where the identity is neutral on the left
    /// and the root is placed by the identity: with `a` a child of the root
    /// and `b` a child of `a`, an update leaves `a` with its own matrix and
    /// `b` with the matrix of `a` times the matrix of `b`, in this order.
    pub proof fn law_chain_of_three_below_unit(self, post: Self, a: Handle, b: Handle)
        requires
            self.wf(),
            self.contains(self.root),
            self.propagated(post),
            self.contains(a),
            self.contains(b),
            self.node(a).parent == self.root,
            self.node(b).parent == a,
            forall|m: T::Matrix| #[trigger] T::product_spec(T::identity_spec(), m) == m,
            self.node(self.root).local_transform.matrix_spec() == T::identity_spec(),
        ensures
            post.node(a).global_transform == self.node(a).local_transform.matrix_spec(),
            post.node(b).global_transform == T::product_spec(
                self.node(a).local_transform.matrix_spec(),
                self.node(b).local_transform.matrix_spec(),
            ),
    {
        self.law_chain_of_three(post, a, b);
        assert(self.ancestor(self.root, 0) == self.root);
        self.lemma_child_descends(a, self.root);
        self.lemma_depth(self.root);
        self.lemma_depth(a);
        self.law_composition_order(post, a);
        self.law_composition_order(post, self.root);
        assert(self.world(a, 1) == T::product_spec(
            self.world(self.root, 0),
            self.node(a).local_transform.matrix_spec(),
        ));
    }

    /// The matrix that a hierarchical update gives the node `h`, which lies
    /// `k` parent steps below the root: the identity, times the root's
    /// matrix, times that of each node on the way down, times the node's
    /// own. Each factor is multiplied from the right.
    pub open spec fn world(self, h: Handle, k: nat) -> T::Matrix
        decreases k,
    {
        let own = self.node(h).local_transform.matrix_spec();
        if k == 0 {
            T::product_spec(T::identity_spec(), own)
        } else {
            T::product_spec(self.world(self.node(h).parent, (k - 1) as nat), own)
        }
    }

    /// `h` and the `k` nodes above it are all visible.
    pub open spec fn visible_up(self, h: Handle, k: nat) -> bool
        decreases k,
    {
        self.node(h).visibility && (k > 0 ==> self.visible_up(
            self.node(h).parent,
            (k - 1) as nat,
        ))
    }

    /// Parent and children mirror each other: between two nodes of a
    /// well-formed graph, one lists the other as a child exactly if the
    /// other names it as its parent.
    pub proof fn law_parent_children_symmetry(self, a: Handle, b: Handle)
        requires
            self.wf(),
            self.contains(a),
            self.contains(b),
        ensures
            self.node(a).children.contains(b) <==> self.node(b).parent == a,
    {
        assert(self.links_ok(a));
        assert(self.links_ok(b));
        self.lemma_wf_agrees(self.root);
        if self.node(a).children.contains(b) {
            self.lemma_listed_once(a, b);
        }
    }

    /// No node is owned twice: if two entries of children lists of a
    /// well-formed graph are the same handle, they are the same entry of
    /// the same list.
    pub proof fn law_no_duplicate_ownership(self, a: Handle, i: int, b: Handle, j: int)
        requires
            self.wf(),
            self.contains(a),
            self.contains(b),
            0 <= i < self.node(a).children.len(),
            0 <= j < self.node(b).children.len(),
            self.node(a).children[i] == self.node(b).children[j],
        ensures
            a == b,
            i == j,
    {
        assert(self.links_ok(a));
        assert(self.links_ok(b));
        assert(self.owns(a, self.node(a).children[i]));
        assert(self.owns(b, self.node(b).children[j]));
    }

    /// An expired handle refers to no node.
    pub proof fn law_expired_is_stale(self, h: Handle)
        requires
            self.expired(h),
        ensures
            !self.contains(h),
    {
    }

    /// What has expired stays expired: no later state of the graph brings a
    /// handle back.
    pub proof fn law_expired_for_good(self, later: Self, h: Handle)
        requires
            self.precedes(later),
            self.expired(h),
        ensures
            later.expired(h),
    {
    }

    /// Coming later is transitive.
    pub proof fn law_precedes_transitive(self, next: Self, last: Self)
        requires
            self.precedes(next),
            next.precedes(last),
        ensures
            self.precedes(last),
    {
        assert forall|i: int| 0 <= i < self.entries.len() implies self.entries[i].generation <= (
        #[trigger] last.entries[i]).generation by {
            assert(self.entries[i].generation <= next.entries[i].generation);
        }
    }

    /// A tree has a single root: parent steps lead from every node to the
    /// root, the root has no parent, and the parent of every other node is a
    /// node of the tree.
    pub proof fn law_single_root(self, h: Handle)
        requires
            self.is_tree(),
            self.contains(h),
        ensures
            self.node(self.root).parent == Handle::none(),
            self.descends_from(h, self.root),
            h != self.root ==> self.contains(self.node(h).parent),
    {
        self.lemma_depth(h);
    }

    /// Linking keeps a tree a tree unless the new parent is the child or
    /// lies below it.
    pub proof fn law_link_keeps_tree(self, child: Handle, parent: Handle)
        requires
            self.is_tree(),
            self.contains(child),
            self.contains(parent),
            child != self.root,
            !self.descends_from(parent, child),
        ensures
            self.link(child, parent).is_tree(),
    {
        self.lemma_link_tree(child, parent);
    }

    /// After a hierarchical update the world matrix of every node below the
    /// root is the product, taken from the root down, of the matrices on the
    /// way to it.
    pub proof fn law_composition_order(self, post: Self, h: Handle)
        requires
            self.wf(),
            self.contains(self.root),
            self.propagated(post),
            self.descends_from(h, self.root),
        ensures
            post.node(h).global_transform == self.world(h, self.depth(h)),
        decreases self.depth(h),
    {
        self.lemma_depth(h);
        self.lemma_none_absent();
        assert(post.derived_ok(h));
        assert(self.node(h).same_but_globals(post.node(h)));
        let p = self.node(h).parent;
        if h != self.root {
            self.law_composition_order(post, p);
            assert(self.node(p).same_but_globals(post.node(p)));
            assert(post.entries[p.index as int].generation
                == self.entries[p.index as int].generation);
            assert(post.contains(p));
        } else {
            assert(!post.contains(p)) by {
                if post.contains(p) {
                    assert(post.entries[0].generation == self.entries[0].generation);
                    assert(!(self.entries[0].slot is Vacant));
                }
            }
        }
    }

    /// The order of composition for a chain of three: with `a` a child of
    /// the root and `b` a child of `a`, an update leaves `b` with the root's
    /// world matrix times the matrix of `a` times the matrix of `b`, in this
    /// order.
    pub proof fn law_chain_of_three(self, post: Self, a: Handle, b: Handle)
        requires
            self.wf(),
            self.contains(self.root),
            self.propagated(post),
            self.contains(a),
            self.contains(b),
            self.node(a).parent == self.root,
            self.node(b).parent == a,
        ensures
            post.node(self.root).global_transform == T::product_spec(
                T::identity_spec(),
                self.node(self.root).local_transform.matrix_spec(),
            ),
            post.node(b).global_transform == T::product_spec(
                T::product_spec(
                    post.node(self.root).global_transform,
                    self.node(a).local_transform.matrix_spec(),
                ),
                self.node(b).local_transform.matrix_spec(),
            ),
    {
        assert(self.ancestor(self.root, 0) == self.root);
        if !self.root.is_none() {
            assert(self.contains(self.root));
        }
        self.lemma_child_descends(a, self.root);
        self.lemma_child_descends(b, self.root);
        self.lemma_depth(self.root);
        self.lemma_depth(a);
        self.lemma_depth(b);
        assert(a != self.root);
        assert(b != self.root);
        self.law_composition_order(post, self.root);
        self.law_composition_order(post, a);
        self.law_composition_order(post, b);
        assert(self.world(a, 1) == T::product_spec(
            self.world(self.root, 0),
            self.node(a).local_transform.matrix_spec(),
        ));
        assert(self.world(b, 2) == T::product_spec(
            self.world(a, 1),
            self.node(b).local_transform.matrix_spec(),
        ));
    }

    /// After a hierarchical update a node below the root is visible in the
    /// world exactly if it and every node above it are visible.
    pub proof fn law_visibility(self, post: Self, h: Handle)
        requires
            self.wf(),
            self.contains(self.root),
            self.propagated(post),
            self.descends_from(h, self.root),
        ensures
            post.node(h).global_visibility == self.visible_up(h, self.depth(h)),
        decreases self.depth(h),
    {
        self.lemma_depth(h);
        self.lemma_none_absent();
        assert(post.derived_ok(h));
        assert(self.node(h).same_but_globals(post.node(h)));
        let p = self.node(h).parent;
        if h != self.root {
            self.law_visibility(post, p);
            assert(self.node(p).same_but_globals(post.node(p)));
            assert(post.entries[p.index as int].generation
                == self.entries[p.index as int].generation);
            assert(post.contains(p));
        } else {
            assert(!post.contains(p)) by {
                if post.contains(p) {
                    assert(post.entries[0].generation == self.entries[0].generation);
                    assert(!(self.entries[0].slot is Vacant));
                }
            }
        }
    }

    /// The closed forms of what an update derives depend on nothing but
    /// links, placements and visibilities.
    pub proof fn lemma_closed_forms_same(self, other: Self, h: Handle, k: nat)
        requires
            self.wf(),
            self.contains(self.root),
            self.same_shape(other),
            forall|x: Handle| #[trigger]
                self.contains(x) ==> self.node(x).same_but_globals(other.node(x)),
            self.ancestor(h, k) == self.root,
        ensures
            other.ancestor(h, k) == other.root,
            other.world(h, k) == self.world(h, k),
            other.visible_up(h, k) == self.visible_up(h, k),
        decreases k,
    {
        self.lemma_way_is_nodes(h, k, 0);
        assert(self.ancestor(h, 0) == h);
        assert(self.node(h).same_but_globals(other.node(h)));
        self.lemma_same_links_wf(other);
        if k > 0 {
            assert(self.ancestor(h, k) == self.ancestor(self.parent_of(h), (k - 1) as nat));
            assert(other.ancestor(h, k) == other.ancestor(other.parent_of(h), (k - 1) as nat));
            self.lemma_closed_forms_same(other, self.node(h).parent, (k - 1) as nat);
        }
    }

    /// A hierarchical update is idempotent: a second update of an unchanged
    /// graph changes nothing.
    pub proof fn law_update_idempotent(self, once: Self, twice: Self)
        requires
            self.wf(),
            self.contains(self.root),
            self.propagated(once),
            once.propagated(twice),
        ensures
            twice == once,
    {
        assert(self.same_shape(once)) by {
            assert forall|i: int| 0 <= i < self.entries.len() implies ((
            #[trigger] once.entries[i]).slot is Vacant <==> self.entries[i].slot is Vacant) by {}
            assert forall|x: Handle| #[trigger] self.contains(x) implies self.node(x).same_links(
                once.node(x),
            ) by {
                assert(self.node(x).same_but_globals(once.node(x)));
            }
        }
        self.lemma_same_links_wf(once);
        assert forall|i: int| 0 <= i < once.entries.len() implies twice.entries[i]
            == once.entries[i] by {
            if once.entries[i].slot is Occupied {
                let h = handle_at(once.entries, i);
                assert(once.contains(h));
                assert(self.contains(h));
                assert(once.node(h).same_but_globals(twice.node(h)));
                if once.descends_from(h, once.root) {
                    let k = once.depth(h);
                    once.lemma_depth(h);
                    // the way up is the same in `self`, and so are the closed forms
                    once.lemma_same_back(self, h, k);
                    self.lemma_closed_forms_same(once, h, k);
                    assert(self.descends_from(h, self.root));
                    self.lemma_depth(h);
                    self.lemma_depth_unique(h, k, self.depth(h));
                    self.law_composition_order(once, h);
                    once.law_composition_order(twice, h);
                    self.law_visibility(once, h);
                    once.law_visibility(twice, h);
                } else {
                    assert(twice.node(h) == once.node(h));
                }
                assert(twice.node(h) == once.node(h));
                assert(twice.entries[i].slot is Occupied);
                assert(twice.entries[i].generation == once.entries[i].generation);
            } else {
                assert(twice.entries[i].generation == once.entries[i].generation);
                assert(!(twice.entries[i].slot is Occupied));
                assert(twice.entries[i].slot is Reserved <==> once.entries[i].slot is Reserved);
            }
        }
        assert(twice.entries =~= once.entries);
    }

    /// A way to the root in a graph after an update was one before it.
    pub proof fn lemma_same_back(self, before: Self, h: Handle, k: nat)
        requires
            before.wf(),
            before.propagated(self),
            self.ancestor(h, k) == self.root,
        ensures
            before.ancestor(h, k) == before.root,
    {
        assert forall|x: Handle| #[trigger] self.contains(x) == before.contains(x) by {
            if x.index < before.entries.len() {
                assert(self.entries[x.index as int].generation
                    == before.entries[x.index as int].generation);
            }
        }
        assert forall|x: Handle| before.contains(x) implies (#[trigger] self.node(x)).parent
            == before.node(x).parent by {
            assert(before.node(x).same_but_globals(self.node(x)));
        }
        assert forall|i: int|
            0 <= i < self.entries.len() && !(#[trigger] self.entries[i].slot is Vacant) implies 1
            <= self.entries[i].generation < crate::pool::LAST_GENERATION by {
            assert(!(before.entries[i].slot is Vacant));
        }
        before.lemma_chain_same(self, h, k);
    }

    /// A hidden node hides all below it: if a node on the way from `h` up
    /// to the root is not visible, then after a hierarchical update `h` is
    /// not visible in the world, whatever its own visibility.
    pub proof fn law_hidden_ancestor(self, post: Self, h: Handle, k: nat)
        requires
            self.wf(),
            self.contains(self.root),
            self.propagated(post),
            self.descends_from(h, self.root),
            self.contains(self.ancestor(h, k)),
            !self.node(self.ancestor(h, k)).visibility,
        ensures
            !post.node(h).global_visibility,
        decreases k,
    {
        self.lemma_depth(h);
        self.lemma_none_absent();
        assert(post.derived_ok(h));
        assert(self.node(h).same_but_globals(post.node(h)));
        if k > 0 {
            let p = self.node(h).parent;
            assert(self.ancestor(h, k) == self.ancestor(self.parent_of(h), (k - 1) as nat));
            if h == self.root {
                self.lemma_ancestor_of_none((k - 1) as nat);
            } else {
                self.law_hidden_ancestor(post, p, (k - 1) as nat);
                assert(self.node(p).same_but_globals(post.node(p)));
                assert(post.entries[p.index as int].generation
                    == self.entries[p.index as int].generation);
                assert(post.contains(p));
            }
        }
    }

    /// Taking a node out and putting it straight back is linking it below
    /// the root: the handle is the one it had, and nothing else has
    /// happened to the graph.
    pub proof fn law_ticket_round_trip(self, h: Handle)
        requires
            self.wf(),
            self.contains(self.root),
            self.contains(h),
            h != self.root,
        ensures
            self.take(h).adoptable(h.index, self.detach(h).node(h)),
            handle_at(self.take(h).entries, h.index as int) == h,
            self.take(h).put(h.index, self.detach(h).node(h)) == self.link(h, self.root),
    {
        let cut = self.detach(h);
        let taken = self.take(h);
        let node = cut.node(h);
        self.lemma_take_wf(h);
        self.lemma_detach(h);
        self.lemma_none_absent();
        let m = GraphModel {
            entries: crate::pool::restored(
                taken.entries,
                h.index as int,
                NodeModel { parent: Handle::none(), ..node },
            ),
            ..taken
        };
        assert(m.entries =~= cut.entries);
        assert(m == cut);
        // a second cut changes nothing
        cut.lemma_detach(h);
        assert(cut.detach(h).entries =~= cut.entries);
    }

    /// After a round trip of a node of a tree the graph is a tree again, the
    /// node is a child of the root with the children it had, and every node
    /// below it is as it was and still below it.
    pub proof fn law_round_trip_keeps_subtree(self, h: Handle, x: Handle)
        requires
            self.is_tree(),
            self.contains(h),
            h != self.root,
            self.descends_from(x, h),
        ensures
            self.link(h, self.root).is_tree(),
            self.link(h, self.root).node(h).parent == self.root,
            self.link(h, self.root).node(h).children == self.node(h).children,
            self.link(h, self.root).descends_from(x, h),
            x != h ==> self.link(h, self.root).node(x) == self.node(x),
    {
        let m = self.link(h, self.root);
        let q = self.node(h).parent;
        self.lemma_root_on_top(self.root, h);
        self.lemma_link_tree(h, self.root);
        self.lemma_link(h, self.root);
        self.lemma_parent_above(h);
        self.lemma_none_absent();
        assert(self.links_ok(h));
        assert(self.ancestor(h, 0) == h);
        assert(m.ancestor(h, 0) == h);
        assert(h != q);
        let k = choose|k: nat| self.ancestor(x, k) == h;
        assert(self.same_parents_but(m, h));
        self.lemma_below_kept(m, h, x, k, h);
        if x != h {
            assert(x != q);
            assert(x != self.root) by {
                if x == self.root {
                    assert(self.descends_from(self.root, h));
                }
            }
        }
    }

    /// Removal is recursive: a node is gone afterwards exactly if it was the
    /// node removed or below it, and then its handle has expired; the node
    /// that was the parent of the node removed no longer lists it; and every
    /// other node that is left is as it was. In a tree the parent is left.
    pub proof fn law_recursive_destruction(self, h: Handle, x: Handle)
        requires
            self.wf(),
            self.contains(h),
            h != self.root,
            self.contains(x),
        ensures
            self.remove(h).contains(x) <==> !self.descends_from(x, h),
            self.descends_from(x, h) ==> self.remove(h).expired(x),
            !self.remove(h).contains(h),
            self.remove(h).contains(self.node(h).parent) ==> !self.remove(h).node(
                self.node(h).parent,
            ).children.contains(h),
            self.is_tree() ==> self.remove(h).contains(self.node(h).parent),
            self.remove(h).contains(x) && x != self.node(h).parent ==> self.remove(h).node(x)
                == self.node(x),
    {
        let cut = self.detach(h);
        let q = self.node(h).parent;
        self.lemma_detach(h);
        self.lemma_detach_wf(h);
        self.lemma_none_absent();
        self.lemma_remove_keeps(h, x);
        self.lemma_remove_keeps(h, h);
        self.lemma_remove_keeps(h, q);
        assert(self.ancestor(h, 0) == h);
        assert(cut.ancestor(h, 0) == h);
        assert(self.same_parents_but(cut, h));
        assert(cut.same_parents_but(self, h));
        // below `h` before the cut is below `h` after it, and the other way
        if self.descends_from(x, h) {
            let k = choose|k: nat| self.ancestor(x, k) == h;
            self.lemma_below_kept(cut, h, x, k, h);
        }
        if cut.descends_from(x, h) {
            let k = choose|k: nat| cut.ancestor(x, k) == h;
            cut.lemma_below_kept(self, h, x, k, h);
            assert(handle_at(cut.entries, x.index as int) == x);
            assert(!(self.entries[x.index as int].slot is Vacant));
        }
        // the parent, where it is left, is without `h` in its list
        assert(self.links_ok(h));
        if self.contains(q) {
            assert(self.links_ok(q));
            lemma_remove_value(self.node(q).children, h);
        }
        if self.is_tree() {
            self.lemma_depth(h);
            self.lemma_parent_above(h);
            assert(self.contains(q));
            if cut.descends_from(q, h) {
                let k = choose|k: nat| cut.ancestor(q, k) == h;
                cut.lemma_below_kept(self, h, q, k, h);
            }
        }
    }

    /// Adding a node that lists no children changes nothing but the root's
    /// children, which gain the new node as their last.
    pub proof fn law_add_leaf(self, h: Handle, node: NodeModel<T>)
        requires
            self.wf(),
            self.contains(self.root),
            can_spawn_at(self.entries, h),
            h.index == self.entries.len() ==> h.index < usize::MAX,
            node.children == Seq::<Handle>::empty(),
        ensures
            !self.contains(h),
            h != self.root,
            self.add(h, node).root == self.root,
            forall|x: Handle|
                x != h ==> #[trigger] self.add(h, node).contains(x) == self.contains(x),
            self.add(h, node).contains(h),
            self.add(h, node).node(h) == (NodeModel { parent: self.root, ..node }),
            self.add(h, node).node(self.root) == (NodeModel {
                children: self.node(self.root).children.push(h),
                ..self.node(self.root)
            }),
            forall|x: Handle|
                self.contains(x) && x != self.root ==> #[trigger] self.add(h, node).node(x)
                    == self.node(x),
    {
        let bare = NodeModel { parent: Handle::none(), children: Seq::<Handle>::empty(), ..node };
        let m = self.stored(h, bare);
        self.lemma_spawn_wf(h, bare);
        self.lemma_none_absent();
        if !self.root.is_none() {
            assert(m.contains(self.root));
        }
        m.lemma_link(h, self.root);
        assert(m.link(h, self.root).link_all(node.children, h) == m.link(h, self.root));
        assert forall|x: Handle| m.contains(x) implies children_without(m, x, h) == m.node(
            x,
        ).children by {}
        assert forall|x: Handle| self.contains(x) implies m.node(x) == self.node(x) by {
            assert(x != h);
        }
    }
}

impl GraphModel<Placement> {
    /// On the lattice, where the unit is neutral, the order of composition
    /// shows plainly: below a root with the neutral placement, with `a` a
    /// child of the root and `b` a child of `a`, an update leaves `b` with
    /// the matrix of `a` times the matrix of `b`.
    pub proof fn law_lattice_chain_of_three(self, post: Self, a: Handle, b: Handle)
        requires
            self.wf(),
            self.contains(self.root),
            self.propagated(post),
            self.contains(a),
            self.contains(b),
            self.node(a).parent == self.root,
            self.node(b).parent == a,
            self.node(self.root).local_transform == Placement::neutral_spec(),
        ensures
            post.node(b).global_transform == self.node(a).local_transform.matrix_spec().times(
                self.node(b).local_transform.matrix_spec(),
            ),
    {
        Placement::law_neutral_is_unit();
        assert forall|m: Affine| #[trigger] Placement::product_spec(
            Placement::identity_spec(),
            m,
        ) == m by {
            Affine::law_unit_neutral(m);
        }
        self.law_chain_of_three_below_unit(post, a, b);
    }
}

} // verus!
